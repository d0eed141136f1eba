use vstd::prelude::*;
use crate::encoding::{SExpr, Term, view_terms, lemma_view_terms, lemma_wf_list, wf, copy_range};
use crate::csv::{field_expr, field_term};

verus! {

/// A graph row: the tag symbol followed by one symbol per field, each field
/// as `field_expr` turns it into a symbol.
pub open spec fn graph_row(tag: Seq<u8>, fields: Seq<Seq<u8>>) -> SExpr {
    SExpr::Compound(seq![SExpr::Symbol(tag)] + fields.map_values(|f: Seq<u8>| field_expr(f)))
}

fn row_of(tag: &[u8], fields: Vec<Vec<u8>>) -> (r: Term)
    requires
        1 <= tag@.len() < 64,
        fields@.len() < 63,
    ensures
        r@ == graph_row(tag@, fields@.map_values(|f: Vec<u8>| f@)),
        wf(r@),
{
    let t = copy_range(tag, 0, tag.len());
    assert(t@ =~= tag@);
    let mut cs: Vec<Term> = Vec::new();
    cs.push(Term::Symbol(t));
    let ghost fv = fields@.map_values(|f: Vec<u8>| f@);
    let mut k: usize = 0;
    while k < fields.len()
        invariant
            fv == fields@.map_values(|f: Vec<u8>| f@),
            k <= fields@.len(),
            cs@.len() == k + 1,
            cs@[0]@ == SExpr::Symbol(tag@),
            1 <= tag@.len() < 64,
            forall|i: int| 0 <= i < k ==> #[trigger] cs@[i + 1]@ == field_expr(fv[i]) && wf(cs@[i + 1]@),
        decreases fields@.len() - k,
    {
        let ghost before = cs@;
        cs.push(field_term(&fields[k]));
        assert forall|i: int| 0 <= i < k + 1 implies #[trigger] cs@[i + 1]@ == field_expr(fv[i]) && wf(cs@[i + 1]@) by {
            if i < k {
                assert(cs@[i + 1] == before[i + 1]);
            }
        }
        assert(cs@[0] == before[0]);
        k = k + 1;
    }
    proof {
        lemma_view_terms(cs@);
        let want = seq![SExpr::Symbol(tag@)] + fv.map_values(|f: Seq<u8>| field_expr(f));
        assert forall|i: int| 0 <= i < cs@.len() implies view_terms(cs@)[i] == want[i] by {
            if i > 0 {
                assert(cs@[(i - 1) + 1]@ == field_expr(fv[i - 1]));
            }
        }
        assert(view_terms(cs@) =~= want);
        lemma_wf_list(view_terms(cs@));
        assert forall|i: int| 0 <= i < cs@.len() implies wf(#[trigger] view_terms(cs@)[i]) by {
            if i > 0 {
                assert(wf(cs@[(i - 1) + 1]@));
            }
        }
    }
    Term::Compound(cs)
}

/// The row `(SPO s p o)` of a subject, predicate and object.
pub fn spo_row(s: &[u8], p: &[u8], o: &[u8]) -> (r: Term)
    ensures
        r@ == graph_row(seq![83u8, 80u8, 79u8], seq![s@, p@, o@]),
        wf(r@),
{
    let mut fields: Vec<Vec<u8>> = Vec::new();
    let c_s = copy_range(s, 0, s.len());
    assert(c_s@ =~= s@);
    fields.push(c_s);
    let c_p = copy_range(p, 0, p.len());
    assert(c_p@ =~= p@);
    fields.push(c_p);
    let c_o = copy_range(o, 0, o.len());
    assert(c_o@ =~= o@);
    fields.push(c_o);
    assert(fields@.map_values(|f: Vec<u8>| f@) =~= seq![s@, p@, o@]);
    row_of(&[83u8, 80u8, 79u8], fields)
}

/// The row `(NKV n k v)` of a node, a property key and one of its values.
pub fn nkv_row(n: &[u8], k: &[u8], v: &[u8]) -> (r: Term)
    ensures
        r@ == graph_row(seq![78u8, 75u8, 86u8], seq![n@, k@, v@]),
        wf(r@),
{
    let mut fields: Vec<Vec<u8>> = Vec::new();
    let c_n = copy_range(n, 0, n.len());
    assert(c_n@ =~= n@);
    fields.push(c_n);
    let c_k = copy_range(k, 0, k.len());
    assert(c_k@ =~= k@);
    fields.push(c_k);
    let c_v = copy_range(v, 0, v.len());
    assert(c_v@ =~= v@);
    fields.push(c_v);
    assert(fields@.map_values(|f: Vec<u8>| f@) =~= seq![n@, k@, v@]);
    row_of(&[78u8, 75u8, 86u8], fields)
}

/// The row `(NL n l)` of a node and one of its labels.
pub fn nl_row(n: &[u8], l: &[u8]) -> (r: Term)
    ensures
        r@ == graph_row(seq![78u8, 76u8], seq![n@, l@]),
        wf(r@),
{
    let mut fields: Vec<Vec<u8>> = Vec::new();
    let c_n = copy_range(n, 0, n.len());
    assert(c_n@ =~= n@);
    fields.push(c_n);
    let c_l = copy_range(l, 0, l.len());
    assert(c_l@ =~= l@);
    fields.push(c_l);
    assert(fields@.map_values(|f: Vec<u8>| f@) =~= seq![n@, l@]);
    row_of(&[78u8, 76u8], fields)
}

} // verus!
