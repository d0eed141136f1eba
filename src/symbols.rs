use vstd::prelude::*;
use crate::matching::bytes_equal;

verus! {

/// The symbol table: each distinct byte string gets the next handle, its
/// index, and keeps it.
pub struct SharedMappingHandle {
    symbols: Vec<Vec<u8>>,
}

impl SharedMappingHandle {
    /// The interned byte strings, by handle.
    pub closed spec fn table(&self) -> Seq<Seq<u8>> {
        self.symbols@.map_values(|s: Vec<u8>| s@)
    }

    pub open spec fn wf(&self) -> bool {
        self.table().no_duplicates()
    }

    /// An empty table.
    pub fn new() -> (r: SharedMappingHandle)
        ensures
            r.wf(),
            r.table().len() == 0,
    {
        let r = SharedMappingHandle { symbols: Vec::new() };
        assert(r.table() =~= Seq::<Seq<u8>>::empty());
        r
    }

    /// The handle of `s`: the one it already has, or a new one.
    pub fn get_sym_or_insert(&mut self, s: &[u8]) -> (r: u64)
        requires
            old(self).wf(),
        ensures
            final(self).wf(),
            old(self).table().contains(s@) ==> final(self).table() == old(self).table() && old(self).table()[r as int] == s@,
            !old(self).table().contains(s@) ==> final(self).table() == old(self).table().push(s@) && r as int == old(self).table().len(),
            (r as int) < final(self).table().len(),
            final(self).table()[r as int] == s@,
    {
        let v = crate::encoding::copy_range(s, 0, s.len());
        assert(v@ =~= s@);
        let mut i: usize = 0;
        while i < self.symbols.len()
            invariant
                self.wf(),
                v@ == s@,
                self.symbols@ == old(self).symbols@,
                i <= self.symbols@.len(),
                self.table().len() == self.symbols@.len(),
                forall|j: int| 0 <= j < i ==> #[trigger] self.table()[j] != s@,
            decreases self.symbols@.len() - i,
        {
            assert(self.table()[i as int] == self.symbols@[i as int]@);
            if bytes_equal(&self.symbols[i], &v) {
                return i as u64;
            }
            i = i + 1;
        }
        let h = self.symbols.len() as u64;
        self.symbols.push(v);
        proof {
            assert(self.table() =~= old(self).table().push(s@));
            if old(self).table().contains(s@) {
                let j = choose|j: int| 0 <= j < old(self).table().len() && old(self).table()[j] == s@;
            }
            assert forall|a: int, b: int| 0 <= a < self.table().len() && 0 <= b < self.table().len() && a != b implies self.table()[a] != self.table()[b] by {
                if a < old(self).table().len() && b < old(self).table().len() {
                    assert(self.table()[a] == old(self).table()[a] && self.table()[b] == old(self).table()[b]);
                }
            }
        }
        h
    }

    /// The bytes that handle `h` stands for.
    pub fn get_bytes(&self, h: u64) -> (r: Option<&Vec<u8>>)
        ensures
            r matches Some(v) ==> (h as int) < self.table().len() && v@ == self.table()[h as int],
            r is None ==> h as int >= self.table().len(),
    {
        if (h as usize) < self.symbols.len() && h <= usize::MAX as u64 {
            Some(&self.symbols[h as usize])
        } else {
            None
        }
    }
}

} // verus!
