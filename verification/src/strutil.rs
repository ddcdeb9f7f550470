//! Small string helpers: ASCII lower-casing and exact comparison.

use vstd::prelude::*;

verus! {

use vstd::string::StringSliceAdditionalSpecFns;

/// ASCII upper-case letters mapped to lower case, all other characters
/// unchanged.
pub open spec fn lower_chars(s: Seq<char>) -> Seq<char> {
    s.map_values(
        |c: char|
            if 65 <= c as int <= 90 {
                (((c as u8) + 32) as u8) as char
            } else {
                c
            },
    )
}

/// Relies on `str::to_ascii_lowercase`: ASCII letters are mapped to lower
/// case and every other character is left unchanged.
#[verifier::external_body]
pub fn ascii_lower(s: &str) -> (r: String)
    ensures
        r@ == lower_chars(s@),
{
    s.to_ascii_lowercase()
}

/// ASCII upper-case bytes mapped to lower case, all other bytes
/// unchanged. On UTF-8 text this is exactly ASCII lower-casing, since
/// the bytes of multi-byte characters never fall in the letter range.
pub open spec fn lower_bytes(bs: Seq<u8>) -> Seq<u8> {
    bs.map_values(
        |b: u8|
            if 65 <= b <= 90 {
                (b + 32) as u8
            } else {
                b
            },
    )
}

/// A byte string with its leading dots removed.
pub open spec fn drop_dot_bytes(bs: Seq<u8>) -> Seq<u8>
    decreases bs.len(),
{
    if bs.len() > 0 && bs[0] == 46 {
        drop_dot_bytes(bs.subrange(1, bs.len() as int))
    } else {
        bs
    }
}

/// The bytes of an extension normalized for hashing: leading dots
/// dropped, ASCII letters lower-cased.
#[verifier::loop_isolation(false)]
pub fn ext_norm_bytes(s: &str) -> (r: Vec<u8>)
    ensures
        r@ == lower_bytes(drop_dot_bytes(s.spec_bytes())),
{
    let bytes = s.as_bytes();
    let n = bytes.len();
    proof {
        assert(bytes@.subrange(0, n as int) =~= bytes@);
    }
    let mut i: usize = 0;
    while i < n && bytes[i] == 46
        invariant
            i <= n,
            n == bytes@.len(),
            drop_dot_bytes(bytes@) == drop_dot_bytes(bytes@.subrange(i as int, n as int)),
        decreases n - i,
    {
        proof {
            assert(bytes@.subrange(i as int, n as int).subrange(1, (n - i) as int) =~= bytes@
                .subrange(i as int + 1, n as int));
        }
        i = i + 1;
    }
    proof {
        if i < n {
            assert(bytes@.subrange(i as int, n as int)[0] == bytes@[i as int]);
        }
        assert(drop_dot_bytes(bytes@) == bytes@.subrange(i as int, n as int));
    }
    let ghost start: int = i as int;
    let mut out: Vec<u8> = Vec::new();
    while i < n
        invariant
            start <= i <= n,
            n == bytes@.len(),
            out@ == lower_bytes(bytes@.subrange(start, i as int)),
        decreases n - i,
    {
        let b = bytes[i];
        let low: u8 = if 65 <= b && b <= 90 {
            b + 32
        } else {
            b
        };
        out.push(low);
        i = i + 1;
        proof {
            assert(out@ =~= lower_bytes(bytes@.subrange(start, i as int)));
        }
    }
    out
}

/// Compare two string slices character by character.
#[verifier::loop_isolation(false)]
pub fn str_chars_eq(a: &str, b: &str) -> (r: bool)
    ensures
        r == (a@ == b@),
{
    let la = a.unicode_len();
    let lb = b.unicode_len();
    if la != lb {
        proof {
            assert(a@ != b@);
        }
        return false;
    }
    let mut i: usize = 0;
    while i < la
        invariant
            i <= la,
            la == a@.len(),
            la == b@.len(),
            forall|k: int| 0 <= k < i ==> a@[k] == b@[k],
        decreases la - i,
    {
        if a.get_char(i) != b.get_char(i) {
            return false;
        }
        i = i + 1;
    }
    proof {
        assert(a@ =~= b@);
    }
    true
}

} // verus!
