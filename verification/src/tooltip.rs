//! Hover tooltips: human-readable sizes, full paths and category names.

use vstd::prelude::*;

verus! {

use crate::tree::FileTree;
use crate::tree::NodeId;
use crate::tree::cs_str;
use crate::extensions::FileCategory;
use crate::extensions::categorize_extension;

/// The decimal digit character for one digit value.
pub open spec fn digit_char(d: int) -> char {
    ((48 + d) as u8) as char
}

/// The decimal digits of a non-negative integer, most significant
/// first.
pub open spec fn dec_chars(x: int) -> Seq<char>
    decreases x,
{
    if x < 10 {
        seq![digit_char(x)]
    } else {
        dec_chars(x / 10).push(digit_char(x % 10))
    }
}

/// The string slice holding one digit.
fn digit_str(d: u8) -> (r: &'static str)
    requires
        d < 10,
    ensures
        r@ == seq![digit_char(d as int)],
{
    proof {
        reveal_strlit("0");
        reveal_strlit("1");
        reveal_strlit("2");
        reveal_strlit("3");
        reveal_strlit("4");
        reveal_strlit("5");
        reveal_strlit("6");
        reveal_strlit("7");
        reveal_strlit("8");
        reveal_strlit("9");
    }
    match d {
        0 => "0",
        1 => "1",
        2 => "2",
        3 => "3",
        4 => "4",
        5 => "5",
        6 => "6",
        7 => "7",
        8 => "8",
        _ => "9",
    }
}

/// Render a number in decimal.
pub fn u64_to_string(x: u64) -> (r: String)
    ensures
        r@ == dec_chars(x as int),
{
    let mut digits: Vec<u8> = Vec::new();
    let mut rem = x;
    loop
        invariant_except_break
            (digits@.len() == 0 && rem == x) || (rem > 0 && dec_chars(x as int) == dec_chars(
                rem as int,
            ).add(rev_digit_chars(digits@))),
        invariant
            forall|k: int| 0 <= k < digits@.len() ==> #[trigger] digits@[k] < 10,
        ensures
            digits@.len() > 0,
            dec_chars(x as int) == rev_digit_chars(digits@),
        decreases rem,
    {
        let ghost before = digits@;
        let ghost r: int = rem as int;
        let d = (rem % 10) as u8;
        let next = rem / 10;
        proof {
            vstd::arithmetic::div_mod::lemma_fundamental_div_mod(r, 10int);
            vstd::arithmetic::div_mod::lemma_mod_division_less_than_divisor(r, 10int);
            vstd::arithmetic::div_mod::lemma_div_pos_is_pos(r, 10int);
        }
        digits.push(d);
        proof {
            lemma_rev_push(before, d);
            if before.len() == 0 {
                if next == 0 {
                    // the whole number was a single digit
                    assert(rev_digit_chars(digits@) =~= seq![digit_char(d as int)]);
                    assert(dec_chars(x as int) == seq![digit_char(r)]);
                    assert(digit_char(r) == digit_char(d as int));
                } else {
                    assert(dec_chars(r) == dec_chars(r / 10).push(digit_char(r % 10)));
                    assert(rev_digit_chars(digits@) =~= seq![digit_char(d as int)]);
                    assert(dec_chars(r / 10).push(digit_char(r % 10)) =~= dec_chars(r / 10).add(
                        seq![digit_char(d as int)],
                    ));
                }
            } else {
                if next == 0 {
                    // the final digit closes the rendering
                    assert(dec_chars(r) == seq![digit_char(r)]);
                    assert(dec_chars(x as int) =~= rev_digit_chars(digits@));
                } else {
                    assert(dec_chars(r) == dec_chars(r / 10).push(digit_char(r % 10)));
                    assert(dec_chars(r / 10).push(digit_char(r % 10)).add(
                        rev_digit_chars(before),
                    ) =~= dec_chars(r / 10).add(
                        seq![digit_char(d as int)].add(rev_digit_chars(before)),
                    ));
                }
            }
        }
        if next == 0 {
            break ;
        }
        rem = next;
    }
    let mut out: String = String::new();
    let mut k: usize = digits.len();
    while k > 0
        invariant
            k <= digits@.len(),
            forall|q: int| 0 <= q < digits@.len() ==> #[trigger] digits@[q] < 10,
            out@ == rev_digit_chars(digits@.subrange(k as int, digits@.len() as int)),
        decreases k,
    {
        k = k - 1;
        let ghost before = out@;
        out.append(digit_str(digits[k]));
        proof {
            assert(rev_digit_chars(digits@.subrange(k as int, digits@.len() as int)) =~= before
                + seq![digit_char(digits@[k as int] as int)]) by {
                lemma_rev_front(digits@.subrange(k as int, digits@.len() as int));
                assert(digits@.subrange(k as int, digits@.len() as int).subrange(
                    1,
                    digits@.len() - k as int,
                ) =~= digits@.subrange(k as int + 1, digits@.len() as int));
            }
        }
    }
    proof {
        assert(digits@.subrange(0, digits@.len() as int) =~= digits@);
    }
    out
}

/// The characters of a digit vector read back-to-front: the digits were
/// produced least significant first.
pub open spec fn rev_digit_chars(ds: Seq<u8>) -> Seq<char>
    decreases ds.len(),
{
    if ds.len() == 0 {
        Seq::empty()
    } else {
        seq![digit_char(ds.last() as int)].add(rev_digit_chars(ds.drop_last()))
    }
}

proof fn lemma_rev_push(ds: Seq<u8>, d: u8)
    ensures
        rev_digit_chars(ds.push(d)) == seq![digit_char(d as int)].add(rev_digit_chars(ds)),
{
    assert(ds.push(d).drop_last() =~= ds);
    assert(ds.push(d).last() == d);
}

/// Reading the reversal from the other end: the last digit comes out
/// last.
proof fn lemma_rev_front(ds: Seq<u8>)
    requires
        ds.len() >= 1,
    ensures
        rev_digit_chars(ds) == rev_digit_chars(ds.subrange(1, ds.len() as int)).add(
            seq![digit_char(ds[0] as int)],
        ),
    decreases ds.len(),
{
    if ds.len() == 1 {
        assert(ds.drop_last() =~= Seq::<u8>::empty());
        assert(ds.subrange(1, 1) =~= Seq::<u8>::empty());
        assert(rev_digit_chars(ds) =~= rev_digit_chars(ds.subrange(1, 1)).add(
            seq![digit_char(ds[0] as int)],
        ));
    } else {
        let head = ds.drop_last();
        lemma_rev_front(head);
        let tail = ds.subrange(1, ds.len() as int);
        assert(head.subrange(1, head.len() as int) =~= tail.drop_last());
        assert(tail.last() == ds.last());
        assert(rev_digit_chars(tail) == seq![digit_char(tail.last() as int)].add(
            rev_digit_chars(tail.drop_last()),
        ));
        assert(rev_digit_chars(ds) =~= rev_digit_chars(tail).add(
            seq![digit_char(ds[0] as int)],
        ));
    }
}

/// Format a byte count with a unit: whole bytes, one decimal for
/// kilobytes, two decimals above that. Rounding is half-up on the last
/// shown digit.
pub fn format_size(bytes: u64) -> (r: String)
    ensures
        r@.len() >= 3,
{
    proof {
        reveal_strlit(" B");
        reveal_strlit(" KB");
        reveal_strlit(" MB");
        reveal_strlit(" GB");
        reveal_strlit(" TB");
        reveal_strlit(".");
    }
    let kb: u64 = 1024;
    let mb: u64 = 1024 * 1024;
    let gb: u64 = 1024 * 1024 * 1024;
    let tb: u64 = 1024 * 1024 * 1024 * 1024;
    if bytes >= tb {
        let h = (((bytes as u128) * 100 + (tb as u128) / 2) / (tb as u128)) as u64;
        hundredths_with_unit(h, " TB")
    } else if bytes >= gb {
        let h = ((bytes as u128 * 100 + (gb as u128) / 2) / (gb as u128)) as u64;
        hundredths_with_unit(h, " GB")
    } else if bytes >= mb {
        let h = ((bytes as u128 * 100 + (mb as u128) / 2) / (mb as u128)) as u64;
        hundredths_with_unit(h, " MB")
    } else if bytes >= kb {
        let t = (bytes * 10 + kb / 2) / kb;
        let mut s = u64_to_string(t / 10);
        s.append(".");
        s.append(digit_str((t % 10) as u8));
        s.append(" KB");
        proof {
            lemma_dec_len((t / 10) as int);
        }
        s
    } else {
        let mut s = u64_to_string(bytes);
        s.append(" B");
        proof {
            lemma_dec_len(bytes as int);
        }
        s
    }
}

/// Render a value in hundredths with two decimals and a unit suffix.
fn hundredths_with_unit(h: u64, unit: &str) -> (r: String)
    requires
        unit@.len() >= 3,
    ensures
        r@.len() >= 3,
{
    proof {
        reveal_strlit(".");
        vstd::arithmetic::div_mod::lemma_mod_division_less_than_divisor(h as int, 100int);
        vstd::arithmetic::div_mod::lemma_mod_division_less_than_divisor(h as int % 100, 10int);
        vstd::arithmetic::div_mod::lemma_div_pos_is_pos(h as int % 100, 10int);
        vstd::arithmetic::div_mod::lemma_div_pos_is_pos(h as int, 100int);
    }
    let mut s = u64_to_string(h / 100);
    let frac = h % 100;
    s.append(".");
    s.append(digit_str((frac / 10) as u8));
    s.append(digit_str((frac % 10) as u8));
    s.append(unit);
    s
}

/// A decimal rendering is never empty.
proof fn lemma_dec_len(x: int)
    requires
        0 <= x,
    ensures
        dec_chars(x).len() >= 1,
    decreases x,
{
    if x >= 10 {
        lemma_dec_len(x / 10);
    }
}

/// Information shown in the tooltip when hovering over a node.
#[derive(Debug)]
pub struct TooltipInfo {
    pub name: String,
    pub full_path: String,
    pub size_display: String,
    pub category: String,
    pub is_dir: bool,
    pub child_count: Option<usize>,
}

/// A short label for a file category.
pub fn category_name(c: FileCategory) -> (r: &'static str)
    ensures
        r@.len() >= 1,
{
    proof {
        reveal_strlit("Image");
        reveal_strlit("Video");
        reveal_strlit("Audio");
        reveal_strlit("Document");
        reveal_strlit("Ebook");
        reveal_strlit("Archive");
        reveal_strlit("Code");
        reveal_strlit("Executable");
        reveal_strlit("Config");
        reveal_strlit("Font");
        reveal_strlit("Installer");
        reveal_strlit("Asset3D");
        reveal_strlit("Backup");
        reveal_strlit("Database");
        reveal_strlit("DiskImage");
        reveal_strlit("Other");
    }
    match c {
        FileCategory::Image => "Image",
        FileCategory::Video => "Video",
        FileCategory::Audio => "Audio",
        FileCategory::Document => "Document",
        FileCategory::Ebook => "Ebook",
        FileCategory::Archive => "Archive",
        FileCategory::Code => "Code",
        FileCategory::Executable => "Executable",
        FileCategory::Config => "Config",
        FileCategory::Font => "Font",
        FileCategory::Installer => "Installer",
        FileCategory::Asset3D => "Asset3D",
        FileCategory::Backup => "Backup",
        FileCategory::Database => "Database",
        FileCategory::DiskImage => "DiskImage",
        FileCategory::Other => "Other",
    }
}

/// The full path of a node: its ancestors' names down from the root,
/// joined with backslashes.
pub open spec fn spec_path(tree: FileTree, id: NodeId) -> Seq<char>
    decreases id.0 when tree.wf() && id.0 < tree.nodes@.len()
{
    match tree.nodes@[id.0 as int].parent {
        Option::None => crate::tree::cs_chars(tree.nodes@[id.0 as int].name),
        Option::Some(p) => spec_path(tree, p) + seq!['\\'] + crate::tree::cs_chars(
            tree.nodes@[id.0 as int].name,
        ),
    }
}

/// Build the full path of a node by walking up the tree, joined with
/// backslashes, root first.
pub fn build_path(tree: &FileTree, node_id: NodeId) -> (r: String)
    requires
        tree.wf(),
        node_id.0 < tree.nodes@.len(),
    ensures
        r@ == spec_path(*tree, node_id),
{
    proof {
        reveal_strlit("\\");
    }
    // collect the ancestor chain, leaf first
    let mut chain: Vec<NodeId> = Vec::new();
    let mut current = node_id;
    chain.push(current);
    loop
        invariant
            tree.wf(),
            current.0 < tree.nodes@.len(),
            chain@.len() >= 1,
            chain@[0] == node_id,
            chain@.last() == current,
            forall|j: int|
                0 <= j < chain@.len() ==> (#[trigger] chain@[j]).0 < tree.nodes@.len(),
            forall|j: int|
                0 < j < chain@.len() ==> tree.nodes@[chain@[j - 1].0 as int].parent == Some(
                    #[trigger] chain@[j],
                ),
        ensures
            chain@.len() >= 1,
            chain@[0] == node_id,
            forall|j: int|
                0 <= j < chain@.len() ==> (#[trigger] chain@[j]).0 < tree.nodes@.len(),
            forall|j: int|
                0 < j < chain@.len() ==> tree.nodes@[chain@[j - 1].0 as int].parent == Some(
                    #[trigger] chain@[j],
                ),
            tree.nodes@[chain@.last().0 as int].parent is None,
        decreases current.0,
    {
        match tree.nodes[current.index()].parent {
            Some(p) => {
                current = p;
                chain.push(current);
            },
            None => {
                break ;
            },
        }
    }
    // emit root-first
    let mut k: usize = chain.len() - 1;
    let mut out: String = String::new();
    out.append(crate::tree::cs_str(&tree.nodes[chain[k].index()].name));
    proof {
        assert(out@ == spec_path(*tree, chain@[k as int]));
    }
    while k > 0
        invariant
            tree.wf(),
            k < chain@.len(),
            out@ == spec_path(*tree, chain@[k as int]),
            forall|j: int|
                0 <= j < chain@.len() ==> (#[trigger] chain@[j]).0 < tree.nodes@.len(),
            forall|j: int|
                0 < j < chain@.len() ==> tree.nodes@[chain@[j - 1].0 as int].parent == Some(
                    #[trigger] chain@[j],
                ),
        decreases k,
    {
        k = k - 1;
        out.append("\\");
        out.append(crate::tree::cs_str(&tree.nodes[chain[k].index()].name));
        proof {
            reveal_strlit("\\");
            assert("\\"@ =~= seq!['\\']);
            assert(tree.nodes@[chain@[k as int].0 as int].parent == Some(chain@[k + 1]));
            assert(out@ =~= spec_path(*tree, chain@[k + 1]) + seq!['\\']
                + crate::tree::cs_chars(tree.nodes@[chain@[k as int].0 as int].name));
        }
    }
    out
}

/// Build the tooltip for one node.
pub fn build_tooltip(tree: &FileTree, node_id: NodeId) -> (t: TooltipInfo)
    requires
        tree.wf(),
        node_id.0 < tree.nodes@.len(),
    ensures
        t.is_dir == tree.nodes@[node_id.0 as int].is_dir,
        t.is_dir <==> t.child_count is Some,
        t.child_count matches Some(c) ==> c == tree.nodes@[node_id.0 as int].children@.len(),
        t.name@ == crate::tree::cs_chars(tree.nodes@[node_id.0 as int].name),
        t.size_display@.len() >= 3,
{
    proof {
        reveal_strlit("Directory");
    }
    let node = &tree.nodes[node_id.index()];
    let is_dir = node.is_dir;
    let category: String = if is_dir {
        "Directory".to_owned()
    } else {
        let eid = node.extension_id as usize;
        if eid > 0 && eid < tree.extensions.len() {
            category_name(categorize_extension(cs_str(&tree.extensions[eid]))).to_owned()
        } else {
            category_name(FileCategory::Other).to_owned()
        }
    };
    let child_count: Option<usize> = if is_dir {
        Some(tree.nodes[node_id.index()].children.len())
    } else {
        None
    };
    let full_path = build_path(tree, node_id);
    TooltipInfo {
        name: cs_str(&tree.nodes[node_id.index()].name).to_owned(),
        full_path,
        size_display: format_size(tree.nodes[node_id.index()].size),
        category,
        is_dir,
        child_count,
    }
}

} // verus!
