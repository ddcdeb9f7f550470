//! The file tree: a flat arena of nodes indexed by [`NodeId`].
//!
//! Every relationship (parent, children) is an index into the same array,
//! never a reference. A node's children always carry larger indices than
//! the node itself — they are created after it — and that order survives
//! re-sorting, so every walk down the tree terminates.

use vstd::prelude::*;

verus! {

use compact_str::CompactString;
use vstd::string::StringSliceAdditionalSpecFns;
use crate::strutil::lower_chars;

/// A compact string from the outside crate, declared so it can sit in
/// fields and signatures. Verus sees nothing inside a value of it; its
/// contents are named by [`cs_chars`].
#[verifier::external_type_specification]
#[verifier::external_body]
pub struct ExCompactString(CompactString);

/// The characters a [`CompactString`] holds.
pub uninterp spec fn cs_chars(s: CompactString) -> Seq<char>;

/// The UTF-8 bytes of the text a [`CompactString`] holds.
pub uninterp spec fn cs_bytes(s: CompactString) -> Seq<u8>;

/// Relies on `CompactString::new`, which stores exactly the given text.
#[verifier::external_body]
pub fn cs_new(text: &str) -> (r: CompactString)
    ensures
        cs_chars(r) == text@,
        cs_bytes(r) == text.spec_bytes(),
{
    CompactString::new(text)
}

/// Relies on `CompactString::as_str`, which returns exactly the stored text.
#[verifier::external_body]
pub fn cs_str(s: &CompactString) -> (r: &str)
    ensures
        r@ == cs_chars(*s),
        r.spec_bytes() == cs_bytes(*s),
{
    s.as_str()
}

/// Index into the arena's node array.
#[derive(Debug, Clone, Copy, PartialEq, Eq, Hash, Structural)]
pub struct NodeId(pub u32);

impl NodeId {
    pub fn index(self) -> (r: usize)
        ensures
            r == self.0 as usize,
    {
        self.0 as usize
    }
}

/// A single node in the file tree, stored in the flat arena.
pub struct FileNode {
    /// File or directory name (not the full path).
    pub name: CompactString,
    /// Size in bytes. For files the actual size; for directories the
    /// aggregated sum of the children.
    pub size: u64,
    /// Whether this node is a directory.
    pub is_dir: bool,
    /// Index into the tree's extension table (0 = none / directory).
    pub extension_id: u16,
    /// Parent node (`None` only for the root).
    pub parent: Option<NodeId>,
    /// Children, in layout-relevant order. Each index is strictly larger
    /// than this node's own index.
    pub children: Vec<NodeId>,
    /// Depth in the tree (root = 0).
    pub depth: u16,
}

/// The file tree stored as a flat arena of nodes.
pub struct FileTree {
    /// All nodes; index 0 is the root.
    pub nodes: Vec<FileNode>,
    /// Root node index.
    pub root: NodeId,
    /// Deduplicated extension table: index to lower-case extension text.
    pub extensions: Vec<CompactString>,
}

impl FileTree {
    /// Arena well-formedness: the root exists at index 0, parents precede
    /// their children, and every link stays in bounds. Children having
    /// strictly larger indices than their parent is what makes every
    /// downward walk terminate, whatever order the children are in.
    pub open spec fn wf(self) -> bool {
        &&& 1 <= self.nodes@.len() <= 0xFFFF_FFFF
        &&& self.root.0 == 0
        &&& self.nodes@[0].parent is None
        &&& forall|i: int|
            0 <= i < self.nodes@.len() ==> ((#[trigger] self.nodes@[i]).parent matches Some(p)
                ==> p.0 < i)
        &&& forall|i: int, c: int|
            0 <= i < self.nodes@.len() && 0 <= c < self.nodes@[i].children@.len() ==> i < (
            #[trigger] self.nodes@[i].children@[c]).0 < self.nodes@.len()
    }

    /// Create a tree holding only a root directory with the given name.
    pub fn new(root_name: &str) -> (t: FileTree)
        ensures
            t.wf(),
            t.nodes@.len() == 1,
            cs_chars(t.nodes@[0].name) == root_name@,
            t.nodes@[0].size == 0,
            t.nodes@[0].is_dir,
            t.nodes@[0].children@.len() == 0,
            t.nodes@[0].depth == 0,
            t.extensions@.len() == 1,
            cs_chars(t.extensions@[0]) == Seq::<char>::empty(),
    {
        let root_node = FileNode {
            name: cs_new(root_name),
            size: 0,
            is_dir: true,
            extension_id: 0,
            parent: None,
            children: Vec::new(),
            depth: 0,
        };
        let mut nodes: Vec<FileNode> = Vec::new();
        nodes.push(root_node);
        let mut extensions: Vec<CompactString> = Vec::new();
        extensions.push(cs_new(""));
        proof {
            reveal_strlit("");
        }
        FileTree { nodes, root: NodeId(0), extensions }
    }

    /// Add a child node under the given parent and return its id. The new
    /// node's parent, depth and children links are set here; its name,
    /// size, kind and extension are taken from `node`.
    pub fn add_child(&mut self, parent: NodeId, node: FileNode) -> (id: NodeId)
        requires
            old(self).wf(),
            parent.0 < old(self).nodes@.len(),
            old(self).nodes@.len() < 0xFFFF_FFFF,
        ensures
            final(self).wf(),
            id.0 == old(self).nodes@.len(),
            final(self).nodes@.len() == old(self).nodes@.len() + 1,
            final(self).nodes@.last().name == node.name,
            final(self).nodes@.last().size == node.size,
            final(self).nodes@.last().is_dir == node.is_dir,
            final(self).nodes@.last().extension_id == node.extension_id,
            final(self).nodes@.last().parent == Some(parent),
            final(self).nodes@.last().children@.len() == 0,
            final(self).nodes@.last().depth == (if old(self).nodes@[parent.0 as int].depth
                == 0xFFFF {
                0xFFFFu16
            } else {
                (old(self).nodes@[parent.0 as int].depth + 1) as u16
            }),
            final(self).nodes@[parent.0 as int].children@ == old(
                self,
            ).nodes@[parent.0 as int].children@.push(id),
            forall|i: int|
                0 <= i < old(self).nodes@.len() && i != parent.0 ==> final(self).nodes@[i]
                    == old(self).nodes@[i],
            final(self).nodes@[parent.0 as int].name == old(self).nodes@[parent.0 as int].name,
            final(self).nodes@[parent.0 as int].size == old(self).nodes@[parent.0 as int].size,
            final(self).nodes@[parent.0 as int].is_dir == old(
                self,
            ).nodes@[parent.0 as int].is_dir,
            final(self).nodes@[parent.0 as int].depth == old(self).nodes@[parent.0 as int].depth,
            final(self).root == old(self).root,
            final(self).extensions@ == old(self).extensions@,
    {
        let new_id = NodeId(self.nodes.len() as u32);
        let parent_idx = parent.index();
        let parent_depth = self.nodes[parent_idx].depth;
        let child_depth: u16 = if parent_depth == 0xFFFF {
            0xFFFF
        } else {
            parent_depth + 1
        };
        let child = FileNode {
            name: node.name,
            size: node.size,
            is_dir: node.is_dir,
            extension_id: node.extension_id,
            parent: Some(parent),
            children: Vec::new(),
            depth: child_depth,
        };
        self.nodes[parent_idx].children.push(new_id);
        self.nodes.push(child);
        new_id
    }

    /// Get a node by id.
    pub fn get(&self, id: NodeId) -> (n: &FileNode)
        requires
            id.0 < self.nodes@.len(),
        ensures
            *n == self.nodes@[id.0 as int],
    {
        &self.nodes[id.index()]
    }

    /// Total number of nodes.
    pub fn len(&self) -> (n: usize)
        ensures
            n == self.nodes@.len(),
    {
        self.nodes.len()
    }

    /// Whether the tree holds only its root.
    pub fn is_empty(&self) -> (r: bool)
        ensures
            r == (self.nodes@.len() <= 1),
    {
        self.nodes.len() <= 1
    }

    /// Record a new size for one node, leaving everything else alone.
    /// Replaces in-place mutation of the arena, which contracts cannot
    /// speak about through a bare mutable borrow.
    pub fn set_size(&mut self, id: NodeId, size: u64)
        requires
            id.0 < old(self).nodes@.len(),
        ensures
            final(self).nodes@.len() == old(self).nodes@.len(),
            forall|i: int|
                0 <= i < old(self).nodes@.len() && i != id.0 ==> final(self).nodes@[i] == old(
                    self,
                ).nodes@[i],
            final(self).nodes@[id.0 as int].size == size,
            crate::aggregate::same_but_size(
                final(self).nodes@[id.0 as int],
                old(self).nodes@[id.0 as int],
            ),
            final(self).root == old(self).root,
            final(self).extensions@ == old(self).extensions@,
            old(self).wf() ==> final(self).wf(),
    {
        let i = id.index();
        let node = &mut self.nodes[i];
        node.size = size;
    }

    /// Get or create the id of an extension string, stored lower-cased.
    /// A table that cannot hold the entry (already at the id type's
    /// ceiling) falls back to the no-extension id.
    pub fn intern_extension(&mut self, ext: &str) -> (id: u16)
        ensures
            final(self).nodes@ == old(self).nodes@,
            final(self).root == old(self).root,
            old(self).extensions@.len() <= final(self).extensions@.len() <= old(
                self,
            ).extensions@.len() + 1,
            forall|j: int|
                0 <= j < old(self).extensions@.len() ==> final(self).extensions@[j] == old(
                    self,
                ).extensions@[j],
            old(self).wf() ==> final(self).wf(),
            (id as int) < final(self).extensions@.len() || final(self).extensions@.len() == 0,
            ((id as int) < final(self).extensions@.len() && cs_chars(
                final(self).extensions@[id as int],
            ) == crate::strutil::lower_chars(ext@)) || id == 0,
    {
        let lower = crate::strutil::ascii_lower(ext);
        let n = self.extensions.len();
        let mut i: usize = 0;
        while i < n
            invariant
                i <= n,
                n == self.extensions@.len(),
                lower@ == crate::strutil::lower_chars(ext@),
                self.nodes@ == old(self).nodes@,
                self.root == old(self).root,
                self.extensions@ == old(self).extensions@,
                old(self).wf() ==> self.wf(),
            decreases n - i,
        {
            if crate::strutil::str_chars_eq(cs_str(&self.extensions[i]), lower.as_str()) {
                if i <= 0xFFFE {
                    return i as u16;
                } else {
                    return 0;
                }
            }
            i = i + 1;
        }
        if n >= 0xFFFF {
            return 0;
        }
        self.extensions.push(cs_new(lower.as_str()));
        n as u16
    }

    /// The children of a node, in stored order.
    pub fn children(&self, parent: NodeId) -> (v: Vec<NodeId>)
        requires
            parent.0 < self.nodes@.len(),
        ensures
            v@ == self.nodes@[parent.0 as int].children@,
    {
        let list = &self.nodes[parent.index()].children;
        let mut v: Vec<NodeId> = Vec::new();
        let mut i: usize = 0;
        while i < list.len()
            invariant
                i <= list@.len(),
                v@ == list@.subrange(0, i as int),
            decreases list@.len() - i,
        {
            v.push(list[i]);
            i = i + 1;
            proof {
                assert(v@ =~= list@.subrange(0, i as int));
            }
        }
        proof {
            assert(v@ =~= list@);
        }
        v
    }
}

} // verus!
