use vstd::prelude::*;
use crate::encoding::{Tag, byte_tag, tag_byte, tag_valid, parse_list, decode_list, copy_range, item_byte};

verus! {

/// The path as the trie stores it: a path of the space is its bytes.
pub fn path_as_bytes(path: &[u8]) -> (r: &[u8])
    ensures
        r@ == path@,
{
    path
}

/// The length of the longest common prefix of `a` and `b`.
pub fn find_prefix_overlap(a: &[u8], b: &[u8]) -> (r: usize)
    ensures
        r <= a@.len(),
        r <= b@.len(),
        a@.subrange(0, r as int) == b@.subrange(0, r as int),
        r == a@.len() || r == b@.len() || a@[r as int] != b@[r as int],
{
    let mut i: usize = 0;
    while i < a.len() && i < b.len() && a[i] == b[i]
        invariant
            i <= a@.len(),
            i <= b@.len(),
            a@.subrange(0, i as int) == b@.subrange(0, i as int),
        decreases a@.len() - i,
    {
        assert(a@.subrange(0, i + 1) =~= a@.subrange(0, i as int).push(a@[i as int]));
        assert(b@.subrange(0, i + 1) =~= b@.subrange(0, i as int).push(b@[i as int]));
        i = i + 1;
    }
    i
}

/// A 256-bit set of bytes, 64 bytes to a word: byte `b` is bit `b % 64` of
/// word `b / 64`.
pub struct ByteMask(pub [u64; 4]);

impl ByteMask {
    /// The bytes in both masks.
    pub fn and(&self, other: &ByteMask) -> (r: ByteMask)
        ensures
            forall|i: int| 0 <= i < 4 ==> #[trigger] r.0@[i] == self.0@[i] & other.0@[i],
    {
        ByteMask([self.0[0] & other.0[0], self.0[1] & other.0[1], self.0[2] & other.0[2], self.0[3] & other.0[3]])
    }
}

/// An encoded expression, owned: its bytes start with the expression and
/// may go on past it.
pub struct Expr {
    pub bytes: Vec<u8>,
}

impl Expr {
    /// The length of the expression at the start, found by one forward scan;
    /// `None` where the bytes end early or hold a reserved tag.
    pub fn span(&self) -> (r: Option<usize>)
        ensures
            r matches Some(n) ==> parse_list(self.bytes@, 0, 1) matches Some((_, end)) && end == n,
            r is None ==> parse_list(self.bytes@, 0, 1) is None,
    {
        match decode_list(self.bytes.as_slice(), 0, 1) {
            Some((_, end)) => Some(end),
            None => None,
        }
    }
}

/// A cursor into an encoded expression: `loc` is a byte position in `root`.
pub struct ExprZipper {
    pub loc: usize,
    pub root: Expr,
}

impl ExprZipper {
    /// A cursor at the start of `expr`.
    pub fn new(expr: Expr) -> (r: ExprZipper)
        ensures
            r.loc == 0,
            r.root == expr,
    {
        ExprZipper { loc: 0, root: expr }
    }

    /// The sub-expression that starts at the cursor, copied.
    pub fn subexpr(&self) -> (r: Option<Expr>)
        ensures
            r matches Some(e) ==> parse_list(self.root.bytes@, self.loc as int, 1) matches Some((_, end))
                && e.bytes@ == self.root.bytes@.subrange(self.loc as int, end),
            r is None ==> parse_list(self.root.bytes@, self.loc as int, 1) is None,
    {
        match decode_list(self.root.bytes.as_slice(), self.loc, 1) {
            Some((_, end)) => {
                proof { crate::encoding::lemma_parse_list_shape(self.root.bytes@, self.loc as int, 1); }
                Some(Expr { bytes: copy_range(self.root.bytes.as_slice(), self.loc, end) })
            },
            None => None,
        }
    }

    /// The span of the whole expression.
    pub fn span(&self) -> (r: Option<usize>)
        ensures
            r matches Some(n) ==> parse_list(self.root.bytes@, 0, 1) matches Some((_, end)) && end == n,
            r is None ==> parse_list(self.root.bytes@, 0, 1) is None,
    {
        self.root.span()
    }

    /// The bytes before the cursor.
    pub fn path(&self) -> (r: Vec<u8>)
        requires
            self.loc <= self.root.bytes@.len(),
        ensures
            r@ == self.root.bytes@.subrange(0, self.loc as int),
    {
        copy_range(self.root.bytes.as_slice(), 0, self.loc)
    }

    /// The tag of the byte at the cursor; `None` past the end or on a
    /// reserved byte.
    pub fn item(&self) -> (r: Option<Tag>)
        ensures
            self.loc < self.root.bytes@.len() ==> r == byte_tag(self.root.bytes@[self.loc as int]),
            self.loc >= self.root.bytes@.len() ==> r is None,
    {
        if self.loc >= self.root.bytes.len() {
            return None;
        }
        let b = self.root.bytes[self.loc];
        if 64 <= b && b < 128 {
            None
        } else {
            Some(crate::encoding::byte_item(b))
        }
    }

    /// Writes `token` at the cursor over what stood there, growing the
    /// buffer where it runs past the end; the cursor stays.
    fn write_bytes(&mut self, token: &[u8])
        requires
            old(self).loc <= old(self).root.bytes@.len(),
        ensures
            final(self).loc == old(self).loc,
            final(self).root.bytes@.subrange(0, old(self).loc as int) == old(self).root.bytes@.subrange(0, old(self).loc as int),
            final(self).root.bytes@.subrange(old(self).loc as int, old(self).loc + token@.len()) == token@,
            final(self).root.bytes@.len() == if old(self).loc + token@.len() > old(self).root.bytes@.len() {
                old(self).loc + token@.len()
            } else {
                old(self).root.bytes@.len() as int
            },
            forall|i: int| old(self).loc + token@.len() <= i < old(self).root.bytes@.len()
                ==> #[trigger] final(self).root.bytes@[i] == old(self).root.bytes@[i],
    {
        let mut k: usize = 0;
        let loc = self.loc;
        while k < token.len()
            invariant
                self.loc == loc,
                loc == old(self).loc,
                k <= token@.len(),
                loc <= old(self).root.bytes@.len(),
                self.root.bytes@.len() == if loc + k > old(self).root.bytes@.len() { loc + k } else { old(self).root.bytes@.len() as int },
                forall|i: int| 0 <= i < loc ==> #[trigger] self.root.bytes@[i] == old(self).root.bytes@[i],
                forall|i: int| 0 <= i < k ==> #[trigger] self.root.bytes@[loc + i] == token@[i],
                forall|i: int| loc + k <= i < old(self).root.bytes@.len() ==> #[trigger] self.root.bytes@[i] == old(self).root.bytes@[i],
            decreases token@.len() - k,
        {
            if k < self.root.bytes.len() - loc {
                self.root.bytes.set(loc + k, token[k]);
            } else {
                self.root.bytes.push(token[k]);
            }
            k = k + 1;
        }
        assert(self.root.bytes@.subrange(0, loc as int) =~= old(self).root.bytes@.subrange(0, loc as int));
        assert forall|i: int| 0 <= i < token@.len() implies #[trigger] self.root.bytes@.subrange(loc as int, loc + token@.len())[i] == token@[i] by {
            assert(self.root.bytes@[loc + i] == token@[i]);
        }
        assert(self.root.bytes@.subrange(loc as int, loc + token@.len()) =~= token@);
    }

    /// Writes the tag byte of `Arity(a)` at the cursor.
    pub fn write_arity(&mut self, a: u8)
        requires
            old(self).loc <= old(self).root.bytes@.len(),
            a < 64,
        ensures
            final(self).loc == old(self).loc,
            final(self).root.bytes@[old(self).loc as int] == tag_byte(Tag::Arity(a)),
            final(self).root.bytes@.subrange(0, old(self).loc as int) == old(self).root.bytes@.subrange(0, old(self).loc as int),
    {
        let b = item_byte(Tag::Arity(a));
        let t = [b];
        self.write_bytes(&t);
        assert(self.root.bytes@.subrange(old(self).loc as int, old(self).loc + 1)[0] == self.root.bytes@[old(self).loc as int]);
    }

    /// Writes the `NewVar` byte at the cursor.
    pub fn write_new_var(&mut self)
        requires
            old(self).loc <= old(self).root.bytes@.len(),
        ensures
            final(self).loc == old(self).loc,
            final(self).root.bytes@[old(self).loc as int] == tag_byte(Tag::NewVar),
            final(self).root.bytes@.subrange(0, old(self).loc as int) == old(self).root.bytes@.subrange(0, old(self).loc as int),
    {
        let b = item_byte(Tag::NewVar);
        let t = [b];
        self.write_bytes(&t);
        assert(self.root.bytes@.subrange(old(self).loc as int, old(self).loc + 1)[0] == self.root.bytes@[old(self).loc as int]);
    }

    /// Writes the byte of `VarRef(i)` at the cursor.
    pub fn write_var_ref(&mut self, i: u8)
        requires
            old(self).loc <= old(self).root.bytes@.len(),
            i < 64,
        ensures
            final(self).loc == old(self).loc,
            final(self).root.bytes@[old(self).loc as int] == tag_byte(Tag::VarRef(i)),
            final(self).root.bytes@.subrange(0, old(self).loc as int) == old(self).root.bytes@.subrange(0, old(self).loc as int),
    {
        let b = item_byte(Tag::VarRef(i));
        let t = [b];
        self.write_bytes(&t);
        assert(self.root.bytes@.subrange(old(self).loc as int, old(self).loc + 1)[0] == self.root.bytes@[old(self).loc as int]);
    }

    /// Writes a symbol, its size byte then its bytes, at the cursor.
    pub fn write_symbol(&mut self, sym: &[u8])
        requires
            old(self).loc <= old(self).root.bytes@.len(),
            1 <= sym@.len() < 64,
        ensures
            final(self).loc == old(self).loc,
            final(self).root.bytes@.subrange(old(self).loc as int, old(self).loc + 1 + sym@.len())
                == seq![tag_byte(Tag::SymbolSize(sym@.len() as u8))] + sym@,
            final(self).root.bytes@.subrange(0, old(self).loc as int) == old(self).root.bytes@.subrange(0, old(self).loc as int),
    {
        let mut t: Vec<u8> = Vec::new();
        t.push(item_byte(Tag::SymbolSize(sym.len() as u8)));
        let mut k: usize = 0;
        while k < sym.len()
            invariant
                k <= sym@.len(),
                sym@.len() < 64,
                t@ == seq![tag_byte(Tag::SymbolSize(sym@.len() as u8))] + sym@.subrange(0, k as int),
            decreases sym@.len() - k,
        {
            t.push(sym[k]);
            k = k + 1;
            assert(t@ =~= seq![tag_byte(Tag::SymbolSize(sym@.len() as u8))] + sym@.subrange(0, k as int));
        }
        assert(sym@.subrange(0, sym@.len() as int) =~= sym@);
        self.write_bytes(t.as_slice());
    }
}

} // verus!
