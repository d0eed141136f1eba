use vstd::prelude::*;
use crate::zipper::find_prefix_overlap;
use crate::encoding::{SExpr, Term, encode, encode_to_vec, wf, lemma_decode_encode, copy_range};
use crate::matching::{template_ok, var_count};
use crate::program::{prefix_end, pattern_prefix_len, span_of};
use crate::space::{Space, transform_outputs};

verus! {

/// One path is a prefix of the other.
pub open spec fn overlaps(a: Seq<u8>, b: Seq<u8>) -> bool {
    (a.len() <= b.len() && b.subrange(0, a.len() as int) == a) || (b.len() <= a.len() && a.subrange(0, b.len() as int) == b)
}

fn overlaps_exec(a: &[u8], b: &[u8]) -> (r: bool)
    ensures
        r == overlaps(a@, b@),
{
    let n = find_prefix_overlap(a, b);
    proof {
        if n == a@.len() {
            assert(a@.subrange(0, n as int) =~= a@);
        }
        if n == b@.len() {
            assert(b@.subrange(0, n as int) =~= b@);
        }
        if n < a@.len() && n < b@.len() {
            if a@.len() <= b@.len() && b@.subrange(0, a@.len() as int) == a@ {
                assert(b@.subrange(0, a@.len() as int)[n as int] == b@[n as int]);
            }
            if b@.len() <= a@.len() && a@.subrange(0, b@.len() as int) == b@ {
                assert(a@.subrange(0, b@.len() as int)[n as int] == a@[n as int]);
            }
        }
    }
    n == a.len() || n == b.len()
}

/// Why a permit was refused.
#[derive(PartialEq, Eq, Structural, Clone, Copy, Debug)]
pub enum AccessError {
    /// A live permit overlaps the requested path.
    PathConflict,
    /// No permit id is left.
    Exhausted,
}

/// A live right to read (`write == false`) or write below `path`.
pub struct Permit {
    pub id: u64,
    pub path: Vec<u8>,
    pub write: bool,
}

/// The registry of live permits. A writer excludes every other permit whose
/// path is a prefix of its own or has its own as a prefix; a reader
/// excludes such writers only.
pub struct ZipperHead {
    permits: Vec<Permit>,
    next_id: u64,
}

impl ZipperHead {
    /// The live permits: id, path, and whether it writes.
    pub closed spec fn live(&self) -> Seq<(u64, Seq<u8>, bool)> {
        self.permits@.map_values(|p: Permit| (p.id, p.path@, p.write))
    }

    pub closed spec fn next(&self) -> u64 {
        self.next_id
    }

    /// An empty registry.
    pub fn new() -> (r: ZipperHead)
        ensures
            r.live().len() == 0,
            r.next() == 0,
    {
        let r = ZipperHead { permits: Vec::new(), next_id: 0 };
        assert(r.live() =~= Seq::<(u64, Seq<u8>, bool)>::empty());
        r
    }

    /// Whether a live permit, or a live writer when `writers_only`, overlaps
    /// `path`.
    pub fn conflicts(&self, path: &[u8], writers_only: bool) -> (r: bool)
        ensures
            !writers_only ==> (r == exists|i: int| 0 <= i < self.live().len() && #[trigger] overlaps(self.live()[i].1, path@)),
            writers_only ==> (r == exists|i: int| 0 <= i < self.live().len() && #[trigger] self.live()[i].2
                && overlaps(self.live()[i].1, path@)),
    {
        let mut i: usize = 0;
        while i < self.permits.len()
            invariant
                i <= self.permits@.len(),
                self.live().len() == self.permits@.len(),
                forall|j: int| 0 <= j < i ==> !((!writers_only || self.live()[j].2) && #[trigger] overlaps(self.live()[j].1, path@)),
            decreases self.permits@.len() - i,
        {
            let p = &self.permits[i];
            assert(self.live()[i as int] == (p.id, p.path@, p.write));
            if (!writers_only || p.write) && overlaps_exec(p.path.as_slice(), path) {
                assert(overlaps(self.live()[i as int].1, path@));
                assert(writers_only ==> self.live()[i as int].2);
                return true;
            }
            i = i + 1;
        }
        assert(forall|j: int| 0 <= j < self.live().len() ==> !(#[trigger] self.live()[j].2 && overlaps(self.live()[j].1, path@)) || !writers_only);
        false
    }

    fn grant(&mut self, path: &[u8], write: bool) -> (r: u64)
        requires
            old(self).next() < u64::MAX,
        ensures
            r == old(self).next(),
            final(self).next() == r + 1,
            final(self).live() == old(self).live().push((r, path@, write)),
    {
        let id = self.next_id;
        self.next_id = self.next_id + 1;
        let p = crate::encoding::copy_range(path, 0, path.len());
        assert(p@ =~= path@);
        self.permits.push(Permit { id, path: p, write });
        assert(self.live() =~= old(self).live().push((id, path@, write)));
        id
    }

    /// Grants a permit to write below `path` unless a live permit overlaps it.
    pub fn new_writer(&mut self, path: &[u8]) -> (r: Result<u64, AccessError>)
        ensures
            r matches Ok(id) ==> id == old(self).next() && final(self).next() == id + 1
                && final(self).live() == old(self).live().push((id, path@, true)),
            r is Err ==> final(self).live() == old(self).live() && final(self).next() == old(self).next(),
            r == Err::<u64, AccessError>(AccessError::PathConflict) <==> exists|i: int| 0 <= i < old(self).live().len()
                && #[trigger] overlaps(old(self).live()[i].1, path@),
            r == Err::<u64, AccessError>(AccessError::Exhausted) <==> (old(self).next() == u64::MAX
                && !exists|i: int| 0 <= i < old(self).live().len() && #[trigger] overlaps(old(self).live()[i].1, path@)),
    {
        if self.conflicts(path, false) {
            return Err(AccessError::PathConflict);
        }
        if self.next_id == u64::MAX {
            return Err(AccessError::Exhausted);
        }
        Ok(self.grant(path, true))
    }

    /// Grants a permit to read below `path` unless a live writer overlaps it.
    pub fn new_reader(&mut self, path: &[u8]) -> (r: Result<u64, AccessError>)
        ensures
            r matches Ok(id) ==> id == old(self).next() && final(self).next() == id + 1
                && final(self).live() == old(self).live().push((id, path@, false)),
            r is Err ==> final(self).live() == old(self).live() && final(self).next() == old(self).next(),
            r == Err::<u64, AccessError>(AccessError::PathConflict) <==> exists|i: int| 0 <= i < old(self).live().len()
                && #[trigger] old(self).live()[i].2 && overlaps(old(self).live()[i].1, path@),
            r == Err::<u64, AccessError>(AccessError::Exhausted) <==> (old(self).next() == u64::MAX
                && !exists|i: int| 0 <= i < old(self).live().len() && #[trigger] old(self).live()[i].2 && overlaps(old(self).live()[i].1, path@)),
    {
        if self.conflicts(path, true) {
            return Err(AccessError::PathConflict);
        }
        if self.next_id == u64::MAX {
            return Err(AccessError::Exhausted);
        }
        Ok(self.grant(path, false))
    }

    /// Releases the first live permit with this id; returns whether there
    /// was one.
    pub fn release(&mut self, id: u64) -> (r: bool)
        ensures
            final(self).next() == old(self).next(),
            r ==> exists|i: int| 0 <= i < old(self).live().len() && old(self).live()[i].0 == id
                && final(self).live() == old(self).live().remove(i),
            !r ==> final(self).live() == old(self).live() && forall|i: int| 0 <= i < old(self).live().len() ==> #[trigger] old(self).live()[i].0 != id,
    {
        let mut i: usize = 0;
        while i < self.permits.len()
            invariant
                self.permits@ == old(self).permits@,
                self.next_id == old(self).next_id,
                i <= self.permits@.len(),
                self.live().len() == self.permits@.len(),
                forall|j: int| 0 <= j < i ==> #[trigger] self.live()[j].0 != id,
            decreases self.permits@.len() - i,
        {
            assert(self.live()[i as int].0 == self.permits@[i as int].id);
            if self.permits[i].id == id {
                let _p = self.permits.remove(i);
                assert(self.live() =~= old(self).live().remove(i as int));
                return true;
            }
            i = i + 1;
        }
        false
    }
}

/// The constant prefix of an expression's encoding: the bytes before its
/// first variable, or all of them.
pub open spec fn const_prefix(e: SExpr) -> Seq<u8> {
    encode(e).take(prefix_end(encode(e), 0, encode(e).len() as int))
}

proof fn lemma_prefix_end_bound(b: Seq<u8>, pos: int, end: int)
    requires
        0 <= pos <= end,
    ensures
        pos <= prefix_end(b, pos, end) <= end,
    decreases end - pos,
{
    if pos < end {
        match crate::program::token_at(b, pos, end) {
            Some((crate::encoding::Tag::NewVar, _)) => {},
            Some((crate::encoding::Tag::VarRef(_), _)) => {},
            Some((_, next)) => {
                lemma_prefix_end_bound(b, next, end);
            },
            None => {},
        }
    }
}

/// The constant prefix of `t`.
pub fn prefix_bytes(t: &Term) -> (r: Vec<u8>)
    requires
        wf(t@),
    ensures
        r@ == const_prefix(t@),
{
    let b = encode_to_vec(t);
    proof {
        lemma_decode_encode(t@);
        assert(span_of(b@) == Some(b@.len() as int));
        lemma_prefix_end_bound(b@, 0, b@.len() as int);
    }
    match pattern_prefix_len(b.as_slice()) {
        Some(n) => {
            let r = copy_range(b.as_slice(), 0, n);
            assert(r@ =~= const_prefix(t@));
            r
        },
        None => {
            assert(false);
            Vec::new()
        },
    }
}

impl Space {
    /// `transform`, refused before any write when a live permit of `zh`
    /// overlaps the template's constant prefix, where the outputs go, or a
    /// live writer overlaps the pattern's, where the matches are read.
    pub fn transform_checked(&mut self, zh: &ZipperHead, pattern: &Term, template: &Term) -> (r: Result<(), AccessError>)
        requires
            old(self).wf(),
            wf(pattern@),
            wf(template@),
        ensures
            final(self).wf(),
            r is Err <==> (exists|i: int| 0 <= i < zh.live().len() && #[trigger] overlaps(zh.live()[i].1, const_prefix(template@)))
                || (exists|i: int| 0 <= i < zh.live().len() && #[trigger] zh.live()[i].2 && overlaps(zh.live()[i].1, const_prefix(pattern@))),
            r is Err ==> r == Err::<(), AccessError>(AccessError::PathConflict) && final(self).view() == old(self).view(),
            r is Ok ==> final(self).view() == if template_ok(template@, var_count(pattern@)) {
                old(self).view().union(transform_outputs(old(self).view(), pattern@, template@))
            } else {
                old(self).view()
            },
    {
        let tp = prefix_bytes(template);
        let pp = prefix_bytes(pattern);
        if zh.conflicts(tp.as_slice(), false) || zh.conflicts(pp.as_slice(), true) {
            return Err(AccessError::PathConflict);
        }
        self.transform(pattern, template);
        Ok(())
    }
}

/// A read cursor: the path it was opened at and the path it has descended
/// below it.
pub struct ReadZipper {
    pub origin: Vec<u8>,
    pub local: Vec<u8>,
}

impl ReadZipper {
    /// A cursor at the root.
    pub fn new() -> (r: ReadZipper)
        ensures
            r.origin@.len() == 0,
            r.local@.len() == 0,
    {
        ReadZipper { origin: Vec::new(), local: Vec::new() }
    }

    /// The path descended since the cursor was opened.
    pub fn path(&self) -> (r: &[u8])
        ensures
            r@ == self.local@,
    {
        self.local.as_slice()
    }

    /// The path from the root of the trie.
    pub fn origin_path(&self) -> (r: Vec<u8>)
        ensures
            r@ == self.origin@ + self.local@,
    {
        let mut out = crate::encoding::copy_range(self.origin.as_slice(), 0, self.origin.len());
        let mut k: usize = 0;
        let ghost start = out@;
        assert(start =~= self.origin@);
        while k < self.local.len()
            invariant
                k <= self.local@.len(),
                out@ == start + self.local@.subrange(0, k as int),
            decreases self.local@.len() - k,
        {
            out.push(self.local[k]);
            k = k + 1;
            assert(out@ =~= start + self.local@.subrange(0, k as int));
        }
        assert(self.local@.subrange(0, k as int) =~= self.local@);
        out
    }

    /// Descends by `bytes`.
    pub fn descend_to(&mut self, bytes: &[u8])
        ensures
            final(self).origin == old(self).origin,
            final(self).local@ == old(self).local@ + bytes@,
    {
        let mut k: usize = 0;
        while k < bytes.len()
            invariant
                self.origin == old(self).origin,
                k <= bytes@.len(),
                self.local@ == old(self).local@ + bytes@.subrange(0, k as int),
            decreases bytes@.len() - k,
        {
            self.local.push(bytes[k]);
            k = k + 1;
            assert(self.local@ =~= old(self).local@ + bytes@.subrange(0, k as int));
        }
        assert(bytes@.subrange(0, k as int) =~= bytes@);
    }

    /// Ascends by `n` bytes; returns false, staying put, where fewer than
    /// `n` bytes were descended.
    pub fn ascend(&mut self, n: usize) -> (r: bool)
        ensures
            final(self).origin == old(self).origin,
            r == (n <= old(self).local@.len()),
            r ==> final(self).local@ == old(self).local@.subrange(0, old(self).local@.len() - n),
            !r ==> final(self).local@ == old(self).local@,
    {
        if n > self.local.len() {
            return false;
        }
        let keep = self.local.len() - n;
        self.local.truncate(keep);
        true
    }
}

/// A write cursor at the path it was opened at.
pub struct WriteZipper {
    pub origin: Vec<u8>,
}

impl WriteZipper {
    /// A cursor at the root.
    pub fn new() -> (r: WriteZipper)
        ensures
            r.origin@.len() == 0,
    {
        WriteZipper { origin: Vec::new() }
    }
}

} // verus!
