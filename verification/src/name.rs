//! Filename decomposition.
//!
//! A filename such as `a.b.c.d` splits into a name `a.b`, a pre-extension
//! part `c` (a language id or a content-kind marker such as `meta`) and an
//! extension `d`. Splitting happens at the last two `.` bytes; missing parts
//! are empty byte strings, never absent.

use vstd::prelude::*;

verus! {

/// The `.` byte that separates the parts of a filename.
pub open spec fn dot() -> u8 {
    46u8
}

/// Index of the last `.` in `s`, or `-1` when `s` holds none.
pub open spec fn last_dot(s: Seq<u8>) -> int
    decreases s.len(),
{
    if s.len() == 0 {
        -1
    } else if s[s.len() - 1] == dot() {
        s.len() - 1
    } else {
        last_dot(s.drop_last())
    }
}

/// `last_dot` points at a `.` and nothing after it is a `.`.
pub proof fn lemma_last_dot(s: Seq<u8>)
    ensures
        last_dot(s) >= -1,
        last_dot(s) == -1 ==> forall|i: int| 0 <= i < s.len() ==> s[i] != dot(),
        last_dot(s) >= 0 ==> {
            &&& last_dot(s) < s.len()
            &&& s[last_dot(s)] == dot()
            &&& forall|i: int| last_dot(s) < i < s.len() ==> s[i] != dot()
        },
    decreases s.len(),
{
    if s.len() > 0 && s[s.len() - 1] != dot() {
        lemma_last_dot(s.drop_last());
        assert forall|i: int| 0 <= i < s.len() - 1 implies s.drop_last()[i] == s[i] by {}
    }
}

/// Split `s` at its last `.`: the part before and the part after.
/// A string with no `.` is all "before", with an empty "after".
pub open spec fn spec_rsplit(s: Seq<u8>) -> (Seq<u8>, Seq<u8>) {
    if last_dot(s) == -1 {
        (s, Seq::empty())
    } else {
        (s.subrange(0, last_dot(s)), s.subrange(last_dot(s) + 1, s.len() as int))
    }
}

/// Decompose a filename into `(name, pre, ext)`: `ext` is everything after
/// the last `.`, `pre` everything after the last `.` of what remains, and
/// `name` the rest. Missing parts are empty.
pub open spec fn spec_decompose(f: Seq<u8>) -> (Seq<u8>, Seq<u8>, Seq<u8>) {
    let (stem, ext) = spec_rsplit(f);
    let (name, pre) = spec_rsplit(stem);
    (name, pre, ext)
}

/// Find the last `.` in `s`, returning its index, or `None` when `s` has no `.`.
pub fn find_last_dot(s: &[u8]) -> (r: Option<usize>)
    ensures
        match r {
            Some(i) => last_dot(s@) == i && i < s@.len(),
            None => last_dot(s@) == -1,
        },
{
    let mut i: usize = s.len();
    proof {
        assert(s@.subrange(0, s@.len() as int) =~= s@);
    }
    while i > 0
        invariant
            i <= s@.len(),
            last_dot(s@) == last_dot(s@.subrange(0, i as int)),
        decreases i,
    {
        proof {
            assert(s@.subrange(0, i as int).drop_last() =~= s@.subrange(0, i - 1));
        }
        i = i - 1;
        if s[i] == 46u8 {
            proof {
                assert(s@.subrange(0, i + 1)[i as int] == s@[i as int]);
            }
            return Some(i);
        }
    }
    proof {
        assert(s@.subrange(0, 0) =~= Seq::<u8>::empty());
    }
    None
}

/// Copy `s[from..to]` into a fresh vector.
pub fn bytes_range(s: &[u8], from: usize, to: usize) -> (r: Vec<u8>)
    requires
        from <= to <= s@.len(),
    ensures
        r@ == s@.subrange(from as int, to as int),
{
    let mut out: Vec<u8> = Vec::new();
    let mut i: usize = from;
    while i < to
        invariant
            from <= i <= to <= s@.len(),
            out@ =~= s@.subrange(from as int, i as int),
        decreases to - i,
    {
        out.push(s[i]);
        proof {
            assert(out@ =~= s@.subrange(from as int, i + 1));
        }
        i += 1;
    }
    out
}

/// Split `s` at its last `.` into the part before and the part after.
pub fn rsplit_at_dot(s: &[u8]) -> (r: (Vec<u8>, Vec<u8>))
    ensures
        (r.0@, r.1@) == spec_rsplit(s@),
{
    let n = s.len();
    match find_last_dot(s) {
        Some(i) => {
            let before = bytes_range(s, 0, i);
            let after = bytes_range(s, i + 1, n);
            (before, after)
        },
        None => {
            let whole = bytes_range(s, 0, s.len());
            proof {
                assert(s@.subrange(0, s@.len() as int) =~= s@);
            }
            (whole, Vec::new())
        },
    }
}

/// Decompose a dotted filename like `a.b.c.d` into `a.b`, `c` and `d`:
/// the name, the pre-extension part and the extension. The returned parts
/// may be empty; a filename without dots is all name.
///
/// Compound extensions are not special-cased: `a.tar.gz` decomposes into
/// `("a", "tar", "gz")`, treating `tar` as a pre-extension part. Existing
/// content relies on this, so it stays.
pub fn split_into_name_pre_ext(filename: &[u8]) -> (r: (Vec<u8>, Vec<u8>, Vec<u8>))
    ensures
        (r.0@, r.1@, r.2@) == spec_decompose(filename@),
{
    let (stem, ext) = rsplit_at_dot(filename);
    let (name, pre) = rsplit_at_dot(stem.as_slice());
    (name, pre, ext)
}

/// Reassembling a decomposition whose pre-extension part and extension are
/// both non-empty reproduces the filename exactly: `f == name + "." + pre + "." + ext`.
pub proof fn lemma_decompose_round_trip(f: Seq<u8>)
    requires
        spec_decompose(f).1.len() > 0,
        spec_decompose(f).2.len() > 0,
    ensures
        f == spec_decompose(f).0 + seq![dot()] + spec_decompose(f).1 + seq![dot()]
            + spec_decompose(f).2,
{
    let (stem, ext) = spec_rsplit(f);
    lemma_last_dot(f);
    assert(last_dot(f) >= 0);
    assert(f =~= stem + seq![dot()] + ext);
    lemma_last_dot(stem);
    assert(last_dot(stem) >= 0);
    assert(stem =~= spec_decompose(f).0 + seq![dot()] + spec_decompose(f).1);
}

} // verus!
