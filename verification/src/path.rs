//! Logical content paths.
//!
//! An [`IPath`] is an immutable sequence of byte-string segments, relative to
//! some content root. It carries no filename-variant or extension
//! information of its own; the empty path stands for the root (index) page.
//! Paths are value types: compared structurally, never by identity.

use vstd::prelude::*;

use crate::name::spec_decompose;
use crate::name::split_into_name_pre_ext;

verus! {

/// The `/` byte that joins segments when a path is displayed.
pub open spec fn slash() -> u8 {
    47u8
}

/// The segment name `index`, as bytes.
pub open spec fn index_name() -> Seq<u8> {
    seq![105u8, 110u8, 100u8, 101u8, 120u8]
}

/// A relative path: a sequence of byte-string segments.
#[derive(Debug)]
pub struct IPath {
    pub segs: Vec<Vec<u8>>,
}

impl View for IPath {
    type V = Seq<Seq<u8>>;

    open spec fn view(&self) -> Seq<Seq<u8>> {
        Seq::new(self.segs@.len(), |i: int| self.segs@[i]@)
    }
}

/// A prefix was stripped from a path that does not start with it.
pub struct PrefixMismatch;

/// The views of a list of byte strings.
pub open spec fn bytes_views(s: Seq<Vec<u8>>) -> Seq<Seq<u8>> {
    Seq::new(s.len(), |i: int| s[i]@)
}

/// Copy a byte string.
pub fn clone_bytes(v: &Vec<u8>) -> (r: Vec<u8>)
    ensures
        r@ == v@,
{
    let r = v.clone();
    proof {
        assert(r@ =~= v@);
    }
    r
}

/// Copy a list of byte strings.
pub fn clone_bytes_list(v: &Vec<Vec<u8>>) -> (r: Vec<Vec<u8>>)
    ensures
        bytes_views(r@) == bytes_views(v@),
{
    let mut out: Vec<Vec<u8>> = Vec::new();
    let mut i: usize = 0;
    while i < v.len()
        invariant
            i <= v@.len(),
            out@.len() == i,
            forall|j: int| 0 <= j < i ==> (#[trigger] out@[j]@) == v@[j]@,
        decreases v@.len() - i,
    {
        out.push(clone_bytes(&v[i]));
        i += 1;
    }
    proof {
        assert(bytes_views(out@) =~= bytes_views(v@));
    }
    out
}

impl Clone for IPath {
    fn clone(&self) -> (r: Self)
        ensures
            r@ == self@,
    {
        let segs = self.segs.clone();
        proof {
            assert forall|i: int| 0 <= i < segs@.len() implies segs@[i]@ == self.segs@[i]@ by {}
            assert(IPath { segs }@ =~= self@);
        }
        IPath { segs }
    }
}

impl IPath {
    /// The path made of the given segments.
    pub fn new(segs: Vec<Vec<u8>>) -> (r: IPath)
        ensures
            r@ == Seq::new(segs@.len(), |i: int| segs@[i]@),
    {
        IPath { segs }
    }

    /// The empty path: the content root itself.
    pub fn empty() -> (r: IPath)
        ensures
            r@ == Seq::<Seq<u8>>::empty(),
    {
        let r = IPath { segs: Vec::new() };
        proof {
            assert(r@ =~= Seq::<Seq<u8>>::empty());
        }
        r
    }

    /// How many segments the path has.
    pub fn len(&self) -> (r: usize)
        ensures
            r == self@.len(),
    {
        self.segs.len()
    }

    /// The path as its raw segments.
    pub fn as_path(&self) -> (r: &Vec<Vec<u8>>)
        ensures
            bytes_views(r@) == self@,
    {
        proof {
            assert(bytes_views(self.segs@) =~= self@);
        }
        &self.segs
    }

    /// Whether two paths are the same sequence of segments.
    pub fn equals(&self, other: &IPath) -> (r: bool)
        ensures
            r == (self@ == other@),
    {
        if self.segs.len() != other.segs.len() {
            proof {
                assert(self@.len() != other@.len());
            }
            return false;
        }
        let mut i: usize = 0;
        while i < self.segs.len()
            invariant
                i <= self.segs@.len(),
                self@.len() == other@.len(),
                self.segs@.len() == self@.len(),
                forall|j: int| 0 <= j < i ==> self@[j] == other@[j],
            decreases self.segs@.len() - i,
        {
            if !crate::bytes_eq(self.segs[i].as_slice(), other.segs[i].as_slice()) {
                proof {
                    assert(self@[i as int] != other@[i as int]);
                }
                return false;
            }
            i += 1;
        }
        proof {
            assert(self@ =~= other@);
        }
        true
    }

    /// This path followed by all segments of `other`.
    pub fn join(&self, other: &IPath) -> (r: IPath)
        ensures
            r@ == self@ + other@,
    {
        let mut segs = self.segs.clone();
        let mut i: usize = 0;
        proof {
            assert forall|j: int| 0 <= j < segs@.len() implies segs@[j]@ == self@[j] by {}
        }
        while i < other.segs.len()
            invariant
                i <= other.segs@.len(),
                segs@.len() == self@.len() + i,
                forall|k: int|
                    0 <= k < self@.len() + i ==> #[trigger] segs@[k]@ == (if k < self@.len() {
                        self@[k]
                    } else {
                        other@[k - self@.len()]
                    }),
            decreases other.segs@.len() - i,
        {
            segs.push(clone_bytes(&other.segs[i]));
            i += 1;
        }
        let r = IPath { segs };
        proof {
            assert(r@ =~= self@ + other@);
        }
        r
    }

    /// This path with one more segment at its end.
    pub fn push_seg(&self, seg: &Vec<u8>) -> (r: IPath)
        ensures
            r@ == self@.push(seg@),
    {
        let mut segs = self.segs.clone();
        proof {
            assert forall|j: int| 0 <= j < segs@.len() implies segs@[j]@ == self@[j] by {}
        }
        segs.push(clone_bytes(seg));
        let r = IPath { segs };
        proof {
            assert(r@ =~= self@.push(seg@));
        }
        r
    }

    /// The path relative to `prefix`: what remains after the leading
    /// `prefix` segments, or an error when the path does not start with them.
    pub fn strip_prefix(&self, prefix: &IPath) -> (r: Result<IPath, PrefixMismatch>)
        ensures
            match r {
                Ok(rest) => prefix@.is_prefix_of(self@) && rest@ == self@.skip(
                    prefix@.len() as int,
                ),
                Err(_) => !prefix@.is_prefix_of(self@),
            },
    {
        if prefix.segs.len() > self.segs.len() {
            return Err(PrefixMismatch);
        }
        let mut i: usize = 0;
        while i < prefix.segs.len()
            invariant
                i <= prefix.segs@.len(),
                prefix@.len() <= self@.len(),
                prefix.segs@.len() == prefix@.len(),
                self.segs@.len() == self@.len(),
                forall|j: int| 0 <= j < i ==> self@[j] == prefix@[j],
            decreases prefix.segs@.len() - i,
        {
            if !crate::bytes_eq(self.segs[i].as_slice(), prefix.segs[i].as_slice()) {
                proof {
                    assert(self@[i as int] != prefix@[i as int]);
                    assert(!prefix@.is_prefix_of(self@)) by {
                        if prefix@.is_prefix_of(self@) {
                            assert(prefix@[i as int] == self@.subrange(
                                0,
                                prefix@.len() as int,
                            )[i as int]);
                        }
                    }
                }
                return Err(PrefixMismatch);
            }
            i += 1;
        }
        let mut rest: Vec<Vec<u8>> = Vec::new();
        let mut k: usize = prefix.segs.len();
        while k < self.segs.len()
            invariant
                prefix.segs@.len() <= k <= self.segs@.len(),
                self.segs@.len() == self@.len(),
                rest@.len() == k - prefix.segs@.len(),
                forall|j: int|
                    0 <= j < rest@.len() ==> #[trigger] rest@[j]@ == self@[prefix.segs@.len() + j],
            decreases self.segs@.len() - k,
        {
            rest.push(clone_bytes(&self.segs[k]));
            k += 1;
        }
        let r = IPath { segs: rest };
        proof {
            assert(prefix@.is_prefix_of(self@)) by {
                assert(prefix@ =~= self@.subrange(0, prefix@.len() as int));
            }
            assert(r@ =~= self@.skip(prefix@.len() as int));
        }
        Ok(r)
    }

    /// The last segment: the filename of a file path. The empty path has none.
    pub fn file_name(&self) -> (r: Option<Vec<u8>>)
        ensures
            match r {
                Some(n) => self@.len() > 0 && n@ == self@.last(),
                None => self@.len() == 0,
            },
    {
        if self.segs.len() == 0 {
            None
        } else {
            Some(clone_bytes(&self.segs[self.segs.len() - 1]))
        }
    }

    /// The segments joined with `/`, as one byte string.
    pub fn display(&self) -> (r: Vec<u8>)
        ensures
            r@ == spec_display(self@),
    {
        let mut out: Vec<u8> = Vec::new();
        let mut i: usize = 0;
        proof {
            assert(self@.subrange(0, 0) =~= Seq::<Seq<u8>>::empty());
        }
        while i < self.segs.len()
            invariant
                i <= self.segs@.len(),
                self.segs@.len() == self@.len(),
                out@ == spec_display(self@.subrange(0, i as int)),
            decreases self.segs@.len() - i,
        {
            if i > 0 {
                out.push(47u8);
            }
            let seg = &self.segs[i];
            let mut j: usize = 0;
            let ghost mid = out@;
            while j < seg.len()
                invariant
                    j <= seg@.len(),
                    out@ == mid + seg@.subrange(0, j as int),
                decreases seg@.len() - j,
            {
                out.push(seg[j]);
                proof {
                    assert(out@ =~= mid + seg@.subrange(0, j + 1));
                }
                j += 1;
            }
            proof {
                assert(seg@.subrange(0, seg@.len() as int) =~= seg@);
                let pre = self@.subrange(0, i as int);
                let cur = self@.subrange(0, i + 1);
                assert(cur.drop_last() =~= pre);
                assert(cur.last() == self@[i as int]);
                if i == 0 {
                    assert(out@ =~= spec_display(cur));
                } else {
                    assert(out@ =~= spec_display(pre) + seq![slash()] + self@[i as int]);
                }
            }
            i += 1;
        }
        proof {
            assert(self@.subrange(0, self@.len() as int) =~= self@);
        }
        out
    }
}

/// The segments of `p` joined with `/`.
pub open spec fn spec_display(p: Seq<Seq<u8>>) -> Seq<u8>
    decreases p.len(),
{
    if p.len() == 0 {
        Seq::empty()
    } else if p.len() == 1 {
        p[0]
    } else {
        spec_display(p.drop_last()) + seq![slash()] + p.last()
    }
}

/// All segments of `p` but the last. The empty path keeps no segments.
pub open spec fn spec_parts(p: Seq<Seq<u8>>) -> Seq<Seq<u8>> {
    if p.len() == 0 {
        p
    } else {
        p.drop_last()
    }
}

/// The decomposed name of the last segment of `p`; empty for the empty path.
pub open spec fn spec_first(p: Seq<Seq<u8>>) -> Seq<u8> {
    if p.len() == 0 {
        Seq::empty()
    } else {
        spec_decompose(p.last()).0
    }
}

/// The canonical logical path of a raw file path: its directory parts, with
/// the decomposed name of its filename appended unless that name is `index`
/// (folding `dir/index.*` into `dir`) or empty. The empty path maps to
/// itself.
pub open spec fn spec_path_id(p: Seq<Seq<u8>>) -> Seq<Seq<u8>> {
    let parts = spec_parts(p);
    let first = spec_first(p);
    if first == index_name() || first.len() == 0 {
        parts
    } else {
        parts.push(first)
    }
}

/// Whether `seg` is exactly the name `index`.
pub fn is_index_seg(seg: &[u8]) -> (r: bool)
    ensures
        r == (seg@ == index_name()),
{
    let r = seg.len() == 5 && seg[0] == 105u8 && seg[1] == 110u8 && seg[2] == 100u8 && seg[3]
        == 101u8 && seg[4] == 120u8;
    proof {
        if r {
            assert(seg@ =~= index_name());
        }
    }
    r
}

/// Split a raw path like `a/b/c/file.pre.html` into its directory parts
/// `[a, b, c]` and the decomposed name `file` of its filename. The empty
/// path yields no parts and an empty name.
pub fn path_to_parts_and_first(path: &IPath) -> (r: (IPath, Vec<u8>))
    ensures
        r.0@ == spec_parts(path@),
        r.1@ == spec_first(path@),
{
    if path.segs.len() == 0 {
        return (IPath::empty(), Vec::new());
    }
    let mut parts: Vec<Vec<u8>> = Vec::new();
    let mut i: usize = 0;
    while i < path.segs.len() - 1
        invariant
            path.segs@.len() == path@.len() > 0,
            i <= path@.len() - 1,
            parts@.len() == i,
            forall|j: int| 0 <= j < i ==> #[trigger] parts@[j]@ == path@[j],
        decreases path.segs@.len() - 1 - i,
    {
        parts.push(clone_bytes(&path.segs[i]));
        i += 1;
    }
    let (first, _pre, _ext) = split_into_name_pre_ext(path.segs[path.segs.len() - 1].as_slice());
    let r0 = IPath { segs: parts };
    proof {
        assert(r0@ =~= spec_parts(path@));
        assert(path.segs@[path@.len() - 1]@ == path@.last());
    }
    (r0, first)
}

/// The canonical logical path of a raw file path: directory parts plus the
/// decomposed filename, with `index` folded into the parent directory.
pub fn path_id(path: &IPath) -> (r: IPath)
    ensures
        r@ == spec_path_id(path@),
{
    let (parts, first) = path_to_parts_and_first(path);
    if first.len() == 0 || is_index_seg(first.as_slice()) {
        parts
    } else {
        let r = parts.push_seg(&first);
        r
    }
}

/// A collection of segments that can be assembled into a path.
pub trait CollectIPath: Sized {
    /// The path view the segments make.
    spec fn ipath_view(&self) -> Seq<Seq<u8>>;

    /// Assemble the segments into a path.
    fn collect_ipath(self) -> (r: IPath)
        ensures
            r@ == self.ipath_view(),
    ;
}

impl CollectIPath for Vec<Vec<u8>> {
    open spec fn ipath_view(&self) -> Seq<Seq<u8>> {
        bytes_views(self@)
    }

    fn collect_ipath(self) -> (r: IPath) {
        let r = IPath { segs: self };
        proof {
            assert(r@ =~= bytes_views(r.segs@));
        }
        r
    }
}

/// A value a path can be read off, leaving the value in place.
pub trait ToIPath {
    /// The path view the value denotes.
    spec fn as_ipath_view(&self) -> Seq<Seq<u8>>;

    /// The path the value denotes.
    fn to_ipath(&self) -> (r: IPath)
        ensures
            r@ == self.as_ipath_view(),
    ;
}

impl ToIPath for Vec<Vec<u8>> {
    open spec fn as_ipath_view(&self) -> Seq<Seq<u8>> {
        bytes_views(self@)
    }

    fn to_ipath(&self) -> (r: IPath) {
        let r = IPath { segs: clone_bytes_list(self) };
        proof {
            assert(r@ =~= bytes_views(self@));
        }
        r
    }
}

/// The id a template file is addressed by: its directory parts and its
/// decomposed name, joined with `/`. The variant and extension parts of the
/// filename are dropped.
pub fn template_id(path: &IPath) -> (r: Vec<u8>)
    ensures
        r@ == spec_display(spec_parts(path@).push(spec_first(path@))),
{
    let (parts, first) = path_to_parts_and_first(path);
    let full = parts.push_seg(&first);
    full.display()
}

/// Index folding is idempotent: appending an index filename to a canonical
/// path whose own last segment is a plain (dot-free, non-`index`) name does
/// not change the path id.
pub proof fn lemma_path_id_index_fold(q: Seq<Seq<u8>>, f: Seq<u8>)
    requires
        spec_decompose(f).0 == index_name(),
        q.len() > 0 ==> {
            &&& spec_decompose(q.last()).0 == q.last()
            &&& q.last() != index_name()
            &&& q.last().len() > 0
        },
    ensures
        spec_path_id(q.push(f)) == spec_path_id(q),
{
    assert(q.push(f).drop_last() =~= q);
    assert(q.push(f).last() == f);
    if q.len() == 0 {
        assert(spec_path_id(q.push(f)) =~= q);
        assert(spec_path_id(q) =~= q);
    } else {
        assert(spec_path_id(q.push(f)) =~= q);
        assert(spec_path_id(q) =~= q.drop_last().push(q.last()));
        assert(q.drop_last().push(q.last()) =~= q);
    }
}

} // verus!
