//! Navigation state: the current view root and the history behind it.

use vstd::prelude::*;

verus! {

use crate::tree::FileTree;
use crate::tree::NodeId;

/// Tracks the current view root and a stack of earlier roots.
pub struct NavigationState {
    /// Stack of view roots, for walking back up.
    pub history: Vec<NodeId>,
    /// Current view root.
    pub current_root: NodeId,
}

impl NavigationState {
    /// Start viewing from the given root with an empty history.
    pub fn new(root: NodeId) -> (s: NavigationState)
        ensures
            s.current_root == root,
            s.history@.len() == 0,
    {
        NavigationState { history: Vec::new(), current_root: root }
    }

    /// Drill down into a node: into the directory itself, or into a
    /// file's parent directory. Returns whether navigation happened; a
    /// no-op never touches the state.
    pub fn drill_down(&mut self, node: NodeId, tree: &FileTree) -> (moved: bool)
        requires
            node.0 < tree.nodes@.len(),
        ensures
            ({
                let n = tree.nodes@[node.0 as int];
                let target: Option<NodeId> = if n.is_dir {
                    Some(node)
                } else if n.parent matches Some(p) && p != old(self).current_root {
                    n.parent
                } else {
                    None
                };
                match target {
                    Some(t) => if t == old(self).current_root {
                        !moved && final(self).current_root == old(self).current_root
                            && final(self).history@ == old(self).history@
                    } else {
                        moved && final(self).current_root == t && final(self).history@ == old(
                            self,
                        ).history@.push(old(self).current_root)
                    },
                    None => !moved && final(self).current_root == old(self).current_root
                        && final(self).history@ == old(self).history@,
                }
            }),
    {
        let target_id: NodeId;
        if tree.nodes[node.index()].is_dir {
            target_id = node;
        } else {
            match tree.nodes[node.index()].parent {
                Some(parent) => {
                    if parent != self.current_root {
                        target_id = parent;
                    } else {
                        return false;
                    }
                },
                None => {
                    return false;
                },
            }
        }
        if target_id == self.current_root {
            return false;
        }
        self.history.push(self.current_root);
        self.current_root = target_id;
        true
    }

    /// Walk back one level. Returns whether there was anywhere to go.
    pub fn navigate_up(&mut self) -> (moved: bool)
        ensures
            old(self).history@.len() == 0 ==> !moved && final(self).current_root == old(
                self,
            ).current_root && final(self).history@ == old(self).history@,
            old(self).history@.len() > 0 ==> moved && final(self).current_root == old(
                self,
            ).history@.last() && final(self).history@ == old(self).history@.drop_last(),
    {
        if self.history.len() == 0 {
            return false;
        }
        let prev = self.history.pop().unwrap();
        self.current_root = prev;
        true
    }

    /// Jump to the absolute root, clearing the history.
    pub fn navigate_home(&mut self, root: NodeId)
        ensures
            final(self).current_root == root,
            final(self).history@.len() == 0,
    {
        self.history.clear();
        self.current_root = root;
    }

    /// Depth in the navigation history.
    pub fn depth(&self) -> (d: usize)
        ensures
            d == self.history@.len(),
    {
        self.history.len()
    }
}

} // verus!
