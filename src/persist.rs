use vstd::prelude::*;
use crate::encoding::{SExpr, decoded, decode_list, parse_list, copy_range, encode, encode_list, lemma_parse_is_encode,
    lemma_parse_list_shape, lemma_parse_encode_list};
use crate::space::Space;

verus! {

/// The paths one after another.
pub open spec fn concat(ps: Seq<Seq<u8>>) -> Seq<u8>
    decreases ps.len(),
{
    if ps.len() == 0 {
        seq![]
    } else {
        ps[0] + concat(ps.drop_first())
    }
}

/// Cuts `b` from `pos` into consecutive encoded expressions; `None` where
/// the bytes from some point on hold no expression.
pub open spec fn split_exprs(b: Seq<u8>, pos: int) -> Option<Seq<Seq<u8>>>
    decreases b.len() - pos,
{
    if pos < 0 || pos >= b.len() {
        Some(seq![])
    } else {
        match parse_list(b, pos, 1) {
            Some((_, end)) => if pos < end <= b.len() {
                match split_exprs(b, end) {
                    Some(rest) => Some(seq![b.subrange(pos, end)] + rest),
                    None => None,
                }
            } else {
                None
            },
            None => None,
        }
    }
}

/// Every path encodes one expression in full.
pub open spec fn all_decode(ps: Seq<Seq<u8>>) -> bool {
    forall|i: int| 0 <= i < ps.len() ==> #[trigger] decoded(ps[i]) is Some
}

/// Paths that each encode one expression, written one after another, are
/// cut back into the same paths: the encoding is a prefix code.
pub proof fn lemma_split_concat(pre: Seq<u8>, ps: Seq<Seq<u8>>)
    requires
        all_decode(ps),
    ensures
        split_exprs(pre + concat(ps), pre.len() as int) == Some(ps),
    decreases ps.len(),
{
    let b = pre + concat(ps);
    if ps.len() == 0 {
        assert(b =~= pre);
    } else {
        let p = ps[0];
        assert(decoded(p) is Some);
        let e = decoded(p)->Some_0;
        lemma_parse_list_shape(p, 0, 1);
        lemma_parse_is_encode(p, 0, 1);
        let es = parse_list(p, 0, 1)->Some_0.0;
        assert(es == seq![e]);
        assert(es.drop_first() =~= Seq::<SExpr>::empty());
        assert(encode_list(es.drop_first()) =~= Seq::<u8>::empty());
        assert(encode_list(es) =~= encode(e));
        assert(p.subrange(0, p.len() as int) =~= p);
        assert(p == encode(e));
        let pos = pre.len() as int;
        assert(b.subrange(pos, pos + p.len()) =~= p);
        assert(b.subrange(pos, pos + encode_list(es).len()) == encode_list(es));
        lemma_parse_encode_list(b, pos, es);
        let rest = ps.drop_first();
        assert forall|i: int| 0 <= i < rest.len() implies #[trigger] decoded(rest[i]) is Some by {
            assert(decoded(ps[i + 1]) is Some);
        }
        lemma_split_concat(pre + p, rest);
        assert(pre + p + concat(rest) =~= b);
        assert(seq![b.subrange(pos, pos + p.len())] + rest =~= ps);
    }
}

impl Space {
    /// The paths, in byte order, one after another; `None` where a path
    /// encodes no expression, so the bytes could not be cut back.
    pub fn serialize_paths(&self) -> (r: Option<Vec<u8>>)
        requires
            self.wf(),
        ensures
            r matches Some(v) ==> exists|ps: Seq<Seq<u8>>| #[trigger] crate::text::matching_all(self.view(), ps)
                && all_decode(ps) && v@ == concat(ps),
            r is None ==> exists|b: Seq<u8>| self.view().contains(b) && #[trigger] decoded(b) is None,
    {
        let paths = self.paths();
        let ghost ps = paths@.map_values(|p: Vec<u8>| p@);
        let mut out: Vec<u8> = Vec::new();
        let mut k: usize = paths.len();
        assert(ps.subrange(k as int, ps.len() as int) =~= Seq::<Seq<u8>>::empty());
        assert(concat(Seq::<Seq<u8>>::empty()) =~= Seq::<u8>::empty());
        let mut acc: Vec<u8> = Vec::new();
        while k > 0
            invariant
                ps == paths@.map_values(|p: Vec<u8>| p@),
                k <= paths@.len(),
                acc@ == concat(ps.subrange(k as int, ps.len() as int)),
                forall|i: int| k <= i < ps.len() ==> #[trigger] decoded(ps[i]) is Some,
                forall|i: int| 0 <= i < paths@.len() ==> self.view().contains(#[trigger] paths@[i]@),
                forall|i: int, j: int| 0 <= i < j < paths@.len() ==> crate::trie::lex_lt(#[trigger] paths@[i]@, #[trigger] paths@[j]@),
                forall|b: Seq<u8>| #[trigger] self.view().contains(b) ==> exists|i: int| 0 <= i < paths@.len() && paths@[i]@ == b,
            decreases k,
        {
            let j = k - 1;
            match crate::encoding::decode(paths[j].as_slice()) {
                Some(_) => {},
                None => {
                    assert(self.view().contains(paths@[j as int]@));
                    return None;
                },
            }
            let mut piece = copy_range(paths[j].as_slice(), 0, paths[j].len());
            proof {
                let t = ps.subrange(j as int, ps.len() as int);
                assert(t.drop_first() =~= ps.subrange(k as int, ps.len() as int));
                assert(t[0] == ps[j as int]);
                assert(piece@ =~= ps[j as int]);
            }
            let ghost old_acc = acc@;
            piece.append(&mut acc);
            acc = piece;
            proof {
                assert(acc@ =~= ps[j as int] + old_acc);
            }
            k = j;
        }
        assert(ps.subrange(0, ps.len() as int) =~= ps);
        proof {
            assert forall|i: int, j: int| 0 <= i < j < ps.len() implies crate::trie::lex_lt(#[trigger] ps[i], #[trigger] ps[j]) by {
                assert(ps[i] == paths@[i]@ && ps[j] == paths@[j]@);
            }
            assert forall|i: int| 0 <= i < ps.len() implies self.view().contains(#[trigger] ps[i]) by {
                assert(ps[i] == paths@[i]@);
            }
            assert forall|b: Seq<u8>| #[trigger] self.view().contains(b) implies ps.contains(b) by {
                let i = choose|i: int| 0 <= i < paths@.len() && paths@[i]@ == b;
                assert(ps[i] == b);
            }
            assert(crate::text::matching_all(self.view(), ps));
        }
        out = acc;
        Some(out)
    }

    /// The space of the expressions written one after another in `bytes`;
    /// `None` where the bytes cannot be cut into expressions.
    pub fn deserialize_paths(bytes: &[u8]) -> (r: Option<Space>)
        ensures
            r matches Some(s) ==> (s.wf() && (split_exprs(bytes@, 0) matches Some(ps) && s.view() == ps.to_set())),
            r is None ==> split_exprs(bytes@, 0) is None,
    {
        let mut paths: Vec<Vec<u8>> = Vec::new();
        let mut pos: usize = 0;
        while pos < bytes.len()
            invariant
                pos <= bytes@.len(),
                split_exprs(bytes@, 0) == match split_exprs(bytes@, pos as int) {
                    Some(rest) => Some(paths@.map_values(|p: Vec<u8>| p@) + rest),
                    None => None,
                },
            decreases bytes@.len() - pos,
        {
            proof { lemma_parse_list_shape(bytes@, pos as int, 1); }
            match decode_list(bytes, pos, 1) {
                Some((_, end)) => {
                    let piece = copy_range(bytes, pos, end);
                    let ghost before = paths@.map_values(|p: Vec<u8>| p@);
                    paths.push(piece);
                    proof {
                        assert(paths@.map_values(|p: Vec<u8>| p@) =~= before.push(piece@));
                        match split_exprs(bytes@, end as int) {
                            Some(rest) => {
                                assert(before + (seq![piece@] + rest) =~= before.push(piece@) + rest);
                            },
                            None => {},
                        }
                    }
                    pos = end;
                },
                None => {
                    return None;
                },
            }
        }
        assert(split_exprs(bytes@, pos as int) == Some(Seq::<Seq<u8>>::empty()));
        assert(paths@.map_values(|p: Vec<u8>| p@) + Seq::<Seq<u8>>::empty() =~= paths@.map_values(|p: Vec<u8>| p@));
        Some(Space::from_paths(&paths))
    }
}

} // verus!
