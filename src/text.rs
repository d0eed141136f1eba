use vstd::prelude::*;
use crate::encoding::{SExpr, Term, view_terms, view_term, lemma_view_terms, decode, decoded, wf};
use crate::matching::{subst, subst_term, template_ok, check_template, all_wf, lemma_pmatch_shape};
use crate::space::{Space, path_match};

verus! {

/// The decimal digits of `n`, as ASCII bytes.
pub open spec fn dec_bytes(n: nat) -> Seq<u8>
    decreases n,
{
    if n < 10 {
        seq![(48 + n) as u8]
    } else {
        dec_bytes(n / 10).push((48 + n % 10) as u8)
    }
}

/// The text of an expression: `$` for a fresh variable, `_i` (counting
/// from 1) for a reference, a symbol's own bytes, and a compound as its
/// members between parentheses, separated by spaces.
pub open spec fn print(e: SExpr) -> Seq<u8>
    decreases e,
{
    match e {
        SExpr::NewVar => seq![36u8],
        SExpr::VarRef(i) => seq![95u8] + dec_bytes(i as nat + 1),
        SExpr::Symbol(s) => s,
        SExpr::Compound(cs) => seq![40u8] + print_list(cs) + seq![41u8],
    }
}

pub open spec fn print_list(es: Seq<SExpr>) -> Seq<u8>
    decreases es,
{
    if es.len() == 0 {
        seq![]
    } else if es.len() == 1 {
        print(es[0])
    } else {
        print_list(es.drop_last()) + seq![32u8] + print(es.last())
    }
}

fn push_all(out: &mut Vec<u8>, s: &Vec<u8>)
    ensures
        final(out)@ == old(out)@ + s@,
{
    let mut k: usize = 0;
    while k < s.len()
        invariant
            k <= s@.len(),
            out@ == old(out)@ + s@.subrange(0, k as int),
        decreases s@.len() - k,
    {
        out.push(s[k]);
        k = k + 1;
        assert(out@ =~= old(out)@ + s@.subrange(0, k as int));
    }
    assert(s@.subrange(0, k as int) =~= s@);
}

/// Appends the text of `t` to `out`.
pub fn print_term(t: &Term, out: &mut Vec<u8>)
    requires
        wf(t@),
    ensures
        final(out)@ == old(out)@ + print(t@),
    decreases t,
{
    match t {
        Term::NewVar => {
            out.push(36u8);
        },
        Term::VarRef(i) => {
            out.push(95u8);
            let n: u8 = *i + 1;
            if n < 10 {
                out.push(48u8 + n);
            } else {
                out.push(48u8 + n / 10);
                out.push(48u8 + n % 10);
                assert(dec_bytes((n / 10) as nat) == seq![(48 + n / 10) as u8]);
            }
            assert(out@ =~= old(out)@ + print(t@));
        },
        Term::Symbol(s) => {
            push_all(out, s);
        },
        Term::Compound(cs) => {
            out.push(40u8);
            let ghost start = out@;
            let ghost cv = view_terms(cs@);
            proof {
                lemma_view_terms(cs@);
                crate::encoding::lemma_wf_list(cv);
            }
            let mut k: usize = 0;
            assert(print_list(cv.take(0)) =~= Seq::<u8>::empty());
            while k < cs.len()
                invariant
                    *t == Term::Compound(*cs),
                    cv == view_terms(cs@),
                    cv.len() == cs@.len(),
                    forall|i: int| 0 <= i < cs@.len() ==> #[trigger] cv[i] == view_term(cs@[i]),
                    forall|i: int| 0 <= i < cv.len() ==> #[trigger] wf(cv[i]),
                    k <= cs@.len(),
                    out@ == start + print_list(cv.take(k as int)),
                decreases cs@.len() - k,
            {
                proof {
                    assert(decreases_to!(*t => (*t)->Compound_0));
                    assert(decreases_to!(*cs => cs@));
                    assert(decreases_to!(cs@ => cs@[k as int]));
                    assert(cv.take(k + 1).drop_last() =~= cv.take(k as int));
                    assert(cv.take(k + 1).last() == cv[k as int]);
                }
                if k > 0 {
                    out.push(32u8);
                }
                assert(wf(cs@[k as int]@));
                print_term(&cs[k], out);
                proof {
                    if k == 0 {
                        assert(cv.take(1) =~= seq![cv[0]]);
                    }
                    assert(out@ =~= start + print_list(cv.take(k + 1)));
                }
                k = k + 1;
            }
            out.push(41u8);
            assert(cv.take(k as int) =~= cv);
            assert(out@ =~= old(out)@ + print(t@));
        },
    }
}

/// The text of the expression that `data` encodes in full.
pub fn serialize(data: &[u8]) -> (r: Option<Vec<u8>>)
    ensures
        r matches Some(v) ==> decoded(data@) matches Some(e) && v@ == print(e),
        r is None ==> decoded(data@) is None,
{
    match decode(data) {
        Some(t) => {
            let mut out: Vec<u8> = Vec::new();
            print_term(&t, &mut out);
            assert(out@ =~= print(t@));
            Some(out)
        },
        None => None,
    }
}

/// The lines that dumping `s` through `p` and `t` prints, in path order.
pub open spec fn dump_text(ms: Seq<Seq<SExpr>>, t: SExpr) -> Seq<u8>
    decreases ms.len(),
{
    if ms.len() == 0 {
        seq![]
    } else if template_ok(t, ms.last().len()) {
        dump_text(ms.drop_last(), t) + print(subst(t, ms.last())) + seq![10u8]
    } else {
        dump_text(ms.drop_last(), t)
    }
}

/// `bs` lists, in increasing byte order, exactly the paths of `s` that
/// match `p`.
pub open spec fn matching_in_order(s: Set<Seq<u8>>, p: SExpr, bs: Seq<Seq<u8>>) -> bool {
    &&& forall|i: int, j: int| 0 <= i < j < bs.len() ==> crate::trie::lex_lt(#[trigger] bs[i], #[trigger] bs[j])
    &&& forall|i: int| 0 <= i < bs.len() ==> s.contains(#[trigger] bs[i]) && path_match(p, bs[i]) is Some
    &&& forall|b: Seq<u8>| #[trigger] s.contains(b) && path_match(p, b) is Some ==> bs.contains(b)
}

/// How many of the matches `ms` the template `t` fits: the lines a dump
/// prints.
pub open spec fn dump_lines(ms: Seq<Seq<SExpr>>, t: SExpr) -> nat
    decreases ms.len(),
{
    if ms.len() == 0 {
        0
    } else if template_ok(t, ms.last().len()) {
        dump_lines(ms.drop_last(), t) + 1
    } else {
        dump_lines(ms.drop_last(), t)
    }
}

/// `ps` lists, in increasing byte order, exactly the paths of `s`.
pub open spec fn matching_all(s: Set<Seq<u8>>, ps: Seq<Seq<u8>>) -> bool {
    &&& forall|i: int, j: int| 0 <= i < j < ps.len() ==> crate::trie::lex_lt(#[trigger] ps[i], #[trigger] ps[j])
    &&& forall|i: int| 0 <= i < ps.len() ==> s.contains(#[trigger] ps[i])
    &&& forall|b: Seq<u8>| #[trigger] s.contains(b) ==> ps.contains(b)
}

impl Space {
    /// For each path that matches `pattern`, in byte order, the text of
    /// `template` instantiated with the captures, one line each; a match the
    /// template does not fit prints nothing. Returns the text and the number
    /// of lines.
    pub fn dump_sexpr(&self, pattern: &Term, template: &Term) -> (r: (Vec<u8>, usize))
        requires
            self.wf(),
            wf(template@),
        ensures
            exists|bs: Seq<Seq<u8>>| #[trigger] matching_in_order(self.view(), pattern@, bs)
                && r.0@ == dump_text(bs.map_values(|b: Seq<u8>| path_match(pattern@, b)->Some_0), template@)
                && r.1 == dump_lines(bs.map_values(|b: Seq<u8>| path_match(pattern@, b)->Some_0), template@),
    {
        let found = self.query(pattern);
        let mut out: Vec<u8> = Vec::new();
        let mut lines: usize = 0;
        let mut k: usize = 0;
        let ghost ms = found@.map_values(|m: crate::space::QueryMatch| view_terms(m.refs@));
        assert(dump_text(ms.take(0), template@) =~= Seq::<u8>::empty());
        assert(dump_lines(ms.take(0), template@) == 0);
        while k < found.len()
            invariant
                self.wf(),
                wf(template@),
                ms == found@.map_values(|m: crate::space::QueryMatch| view_terms(m.refs@)),
                k <= found@.len(),
                lines <= k,
                out@ == dump_text(ms.take(k as int), template@),
                lines as nat == dump_lines(ms.take(k as int), template@),
                forall|i: int| 0 <= i < found@.len() ==> self.view().contains(#[trigger] found@[i].path@)
                    && path_match(pattern@, found@[i].path@) == Some(view_terms(found@[i].refs@)),
                forall|i: int, j: int| 0 <= i < j < found@.len() ==> crate::trie::lex_lt(#[trigger] found@[i].path@, #[trigger] found@[j].path@),
                forall|b: Seq<u8>| #[trigger] self.view().contains(b) && path_match(pattern@, b) is Some
                    ==> exists|i: int| 0 <= i < found@.len() && found@[i].path@ == b,
            decreases found@.len() - k,
        {
            proof {
                assert(ms.take(k + 1).drop_last() =~= ms.take(k as int));
                assert(ms.take(k + 1).last() == ms[k as int]);
                let b = found@[k as int].path@;
                crate::encoding::lemma_parse_list_shape(b, 0, 1);
                assert(all_wf(Seq::<SExpr>::empty()));
                lemma_pmatch_shape(pattern@, decoded(b)->Some_0, seq![]);
                lemma_view_terms(found@[k as int].refs@);
            }
            if check_template(template, found[k].refs.len()) {
                let inst = subst_term(template, &found[k].refs);
                proof { crate::matching::lemma_subst_span(template@, view_terms(found@[k as int].refs@)); }
                print_term(&inst, &mut out);
                out.push(10u8);
                lines = lines + 1;
            }
            k = k + 1;
        }
        proof {
            assert(ms.take(k as int) =~= ms);
            let bs = found@.map_values(|m: crate::space::QueryMatch| m.path@);
            assert(bs.map_values(|b: Seq<u8>| path_match(pattern@, b)->Some_0) =~= ms);
            assert forall|b: Seq<u8>| #[trigger] self.view().contains(b) && path_match(pattern@, b) is Some implies bs.contains(b) by {
                let i = choose|i: int| 0 <= i < found@.len() && found@[i].path@ == b;
                assert(bs[i] == b);
            }
            assert forall|i: int, j: int| 0 <= i < j < bs.len() implies crate::trie::lex_lt(#[trigger] bs[i], #[trigger] bs[j]) by {
                assert(bs[i] == found@[i].path@ && bs[j] == found@[j].path@);
            }
            assert(matching_in_order(self.view(), pattern@, bs));
        }
        (out, lines)
    }
}

} // verus!
