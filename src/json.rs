use vstd::prelude::*;
use crate::encoding::{SExpr, Term, encode, view_terms, view_term, lemma_view_terms, wf, copy_range};
use crate::csv::{field_expr, field_term};
use crate::space::Space;
use crate::text::dec_bytes;

verus! {

/// A JSON value. Numbers are kept as sign, decimal mantissa and decimal
/// exponent.
pub enum JsonValue {
    Null,
    Bool(bool),
    Number { negative: bool, mantissa: u64, exponent: i16 },
    Str(Vec<u8>),
    Array(Vec<JsonValue>),
    Object(Vec<(Vec<u8>, JsonValue)>),
}

/// The text of a number: an optional `-`, the mantissa, and `e` with the
/// exponent where it is not zero.
pub open spec fn number_text(negative: bool, mantissa: u64, exponent: i16) -> Seq<u8> {
    (if negative { seq![45u8] } else { seq![] }) + dec_bytes(mantissa as nat) + if exponent == 0 {
        seq![]
    } else if exponent < 0 {
        seq![101u8, 45u8] + dec_bytes((-(exponent as int)) as nat)
    } else {
        seq![101u8] + dec_bytes(exponent as nat)
    }
}

pub open spec fn wrap(k: SExpr, ls: Seq<SExpr>) -> Seq<SExpr> {
    ls.map_values(|e: SExpr| SExpr::Compound(seq![k, e]))
}

/// The expressions of the leaves of `v`, in order: a scalar is a symbol; an
/// empty array or object the symbol `[]` or `{}`; a member is the pair of
/// its index or key and each leaf expression of its value.
pub open spec fn leaf_exprs(v: JsonValue) -> Seq<SExpr>
    decreases v,
{
    match v {
        JsonValue::Null => seq![SExpr::Symbol(seq![110u8, 117u8, 108u8, 108u8])],
        JsonValue::Bool(b) => if b {
            seq![SExpr::Symbol(seq![116u8, 114u8, 117u8, 101u8])]
        } else {
            seq![SExpr::Symbol(seq![102u8, 97u8, 108u8, 115u8, 101u8])]
        },
        JsonValue::Number { negative, mantissa, exponent } => seq![field_expr(number_text(negative, mantissa, exponent))],
        JsonValue::Str(s) => seq![field_expr(s@)],
        JsonValue::Array(xs) => if xs@.len() == 0 {
            seq![SExpr::Symbol(seq![91u8, 93u8])]
        } else {
            array_leaves(xs@, 0)
        },
        JsonValue::Object(es) => if es@.len() == 0 {
            seq![SExpr::Symbol(seq![123u8, 125u8])]
        } else {
            object_leaves(es@)
        },
    }
}

pub open spec fn array_leaves(xs: Seq<JsonValue>, start: nat) -> Seq<SExpr>
    decreases xs,
{
    if xs.len() == 0 {
        seq![]
    } else {
        wrap(field_expr(dec_bytes(start)), leaf_exprs(xs[0])) + array_leaves(xs.drop_first(), start + 1)
    }
}

pub open spec fn object_leaves(es: Seq<(Vec<u8>, JsonValue)>) -> Seq<SExpr>
    decreases es,
{
    if es.len() == 0 {
        seq![]
    } else {
        wrap(field_expr(es[0].0@), leaf_exprs(es[0].1)) + object_leaves(es.drop_first())
    }
}

fn push_dec(n: u64, out: &mut Vec<u8>)
    ensures
        final(out)@ == old(out)@ + dec_bytes(n as nat),
    decreases n,
{
    if n >= 10 {
        push_dec(n / 10, out);
    }
    out.push(48u8 + (n % 10) as u8);
    assert(out@ =~= old(out)@ + dec_bytes(n as nat));
}

fn number_bytes(negative: bool, mantissa: u64, exponent: i16) -> (r: Vec<u8>)
    ensures
        r@ == number_text(negative, mantissa, exponent),
{
    let mut out: Vec<u8> = Vec::new();
    if negative {
        out.push(45u8);
    }
    push_dec(mantissa, &mut out);
    if exponent < 0 {
        out.push(101u8);
        out.push(45u8);
        let m: u64 = (-(exponent as i32)) as u64;
        push_dec(m, &mut out);
    } else if exponent > 0 {
        out.push(101u8);
        push_dec(exponent as u64, &mut out);
    }
    assert(out@ =~= number_text(negative, mantissa, exponent));
    out
}

fn sym_term(bytes: &[u8]) -> (r: Term)
    requires
        1 <= bytes@.len() < 64,
    ensures
        r@ == SExpr::Symbol(bytes@),
        wf(r@),
{
    let c = copy_range(bytes, 0, bytes.len());
    assert(c@ =~= bytes@);
    Term::Symbol(c)
}

/// Appends to `out` each of `leaves` paired after `key`.
fn push_wrapped(key: &Term, leaves: Vec<Term>, out: &mut Vec<Term>)
    requires
        wf(key@),
        forall|i: int| 0 <= i < leaves@.len() ==> wf(#[trigger] leaves@[i]@),
        forall|i: int| 0 <= i < old(out)@.len() ==> wf(#[trigger] old(out)@[i]@),
    ensures
        view_terms(final(out)@) == view_terms(old(out)@) + wrap(key@, view_terms(leaves@)),
        forall|i: int| 0 <= i < final(out)@.len() ==> wf(#[trigger] final(out)@[i]@),
{
    let mut leaves = leaves;
    let ghost lv = view_terms(leaves@);
    proof { lemma_view_terms(leaves@); lemma_view_terms(out@); }
    let ghost start = view_terms(out@);
    let mut k: usize = 0;
    let n = leaves.len();
    let mut rest: Vec<Term> = Vec::new();
    while leaves.len() > 0
        invariant
            lv.len() == n,
            k + leaves@.len() == n,
            forall|i: int| 0 <= i < leaves@.len() ==> #[trigger] view_term(leaves@[i]) == lv[k + i],
            forall|i: int| 0 <= i < leaves@.len() ==> wf(#[trigger] leaves@[i]@),
            wf(key@),
            view_terms(out@) == start + wrap(key@, lv.take(k as int)),
            forall|i: int| 0 <= i < out@.len() ==> wf(#[trigger] out@[i]@),
        decreases leaves@.len(),
    {
        let ghost before = leaves@;
        let first = leaves.remove(0);
        assert(view_term(first) == lv[k as int]);
        let kc = key.copy();
        let ghost fv = view_term(first);
        let mut members: Vec<Term> = Vec::new();
        members.push(kc);
        members.push(first);
        let ghost ms = members@;
        let pair = Term::Compound(members);
        proof {
            lemma_view_terms(ms);
            assert(view_terms(ms) =~= seq![key@, lv[k as int]]);
            crate::encoding::lemma_wf_list(view_terms(ms));
            assert(wf(before[0]@));
            assert(wf(view_terms(ms)[0]) && wf(view_terms(ms)[1]));
            assert(view_term(pair) == SExpr::Compound(view_terms(ms)));
            assert(wf(view_term(pair)));
            assert forall|i: int| 0 <= i < leaves@.len() implies #[trigger] view_term(leaves@[i]) == lv[k + 1 + i] by {
                assert(leaves@[i] == before[i + 1]);
            }
            assert forall|i: int| 0 <= i < leaves@.len() implies wf(#[trigger] leaves@[i]@) by {
                assert(leaves@[i] == before[i + 1]);
            }
        }
        let ghost old_out = out@;
        out.push(pair);
        proof {
            lemma_view_terms(out@);
            lemma_view_terms(old_out);
            assert(out@[old_out.len() as int] == pair);
            assert(view_terms(out@) =~= view_terms(old_out).push(view_term(pair)));
            assert(lv.take(k + 1) =~= lv.take(k as int).push(lv[k as int]));
            assert(wrap(key@, lv.take(k + 1)) =~= wrap(key@, lv.take(k as int)).push(SExpr::Compound(seq![key@, lv[k as int]])));
            assert forall|i: int| 0 <= i < out@.len() implies wf(#[trigger] out@[i]@) by {
                if i < old_out.len() {
                    assert(out@[i] == old_out[i]);
                }
            }
        }
        k = k + 1;
    }
    assert(lv.take(k as int) =~= lv);
}


proof fn lemma_array_step(xs: Seq<JsonValue>, i: int)
    requires
        0 <= i < xs.len(),
    ensures
        array_leaves(xs.skip(i), i as nat) == wrap(field_expr(dec_bytes(i as nat)), leaf_exprs(xs[i])) + array_leaves(xs.skip(i + 1), (i + 1) as nat),
{
    assert(xs.skip(i).drop_first() =~= xs.skip(i + 1));
    assert(xs.skip(i)[0] == xs[i]);
}

proof fn lemma_object_step(es: Seq<(Vec<u8>, JsonValue)>, i: int)
    requires
        0 <= i < es.len(),
    ensures
        object_leaves(es.skip(i)) == wrap(field_expr(es[i].0@), leaf_exprs(es[i].1)) + object_leaves(es.skip(i + 1)),
{
    assert(es.skip(i).drop_first() =~= es.skip(i + 1));
    assert(es.skip(i)[0] == es[i]);
}

/// The leaf expressions of `v`, as `leaf_exprs` says.
fn leaves(v: &JsonValue) -> (r: Vec<Term>)
    ensures
        view_terms(r@) == leaf_exprs(*v),
        forall|i: int| 0 <= i < r@.len() ==> wf(#[trigger] r@[i]@),
    decreases v,
{
    let mut out: Vec<Term> = Vec::new();
    match v {
        JsonValue::Null => out.push(sym_term(&[110u8, 117u8, 108u8, 108u8])),
        JsonValue::Bool(b) => {
            if *b {
                out.push(sym_term(&[116u8, 114u8, 117u8, 101u8]));
            } else {
                out.push(sym_term(&[102u8, 97u8, 108u8, 115u8, 101u8]));
            }
        },
        JsonValue::Number { negative, mantissa, exponent } => {
            let t = number_bytes(*negative, *mantissa, *exponent);
            out.push(field_term(&t));
        },
        JsonValue::Str(s) => out.push(field_term(s)),
        JsonValue::Array(xs) => {
            if xs.len() == 0 {
                out.push(sym_term(&[91u8, 93u8]));
            } else {
                let mut i: usize = 0;
                proof { lemma_view_terms(out@); }
                assert(xs@.skip(0) =~= xs@);
                assert(view_terms(out@) =~= Seq::<SExpr>::empty());
                while i < xs.len()
                    invariant
                        *v == JsonValue::Array(*xs),
                        i <= xs@.len(),
                        array_leaves(xs@, 0) == view_terms(out@) + array_leaves(xs@.skip(i as int), i as nat),
                        forall|j: int| 0 <= j < out@.len() ==> wf(#[trigger] out@[j]@),
                    decreases xs@.len() - i,
                {
                    proof {
                        assert(decreases_to!(*v => (*v)->Array_0));
                        assert(decreases_to!(*xs => xs@));
                        assert(decreases_to!(xs@ => xs@[i as int]));
                        lemma_array_step(xs@, i as int);
                    }
                    let sub = leaves(&xs[i]);
                    let mut kb: Vec<u8> = Vec::new();
                    push_dec(i as u64, &mut kb);
                    assert(kb@ =~= dec_bytes(i as nat));
                    let key = field_term(&kb);
                    let ghost before = view_terms(out@);
                    push_wrapped(&key, sub, &mut out);
                    proof {
                        assert(before + (wrap(field_expr(dec_bytes(i as nat)), leaf_exprs(xs@[i as int])) + array_leaves(xs@.skip(i + 1), (i + 1) as nat))
                            =~= view_terms(out@) + array_leaves(xs@.skip(i + 1), (i + 1) as nat));
                    }
                    i = i + 1;
                }
                assert(xs@.skip(i as int) =~= Seq::<JsonValue>::empty());
                assert(view_terms(out@) + array_leaves(Seq::<JsonValue>::empty(), i as nat) =~= view_terms(out@));
            }
        },
        JsonValue::Object(es) => {
            if es.len() == 0 {
                out.push(sym_term(&[123u8, 125u8]));
            } else {
                let mut i: usize = 0;
                proof { lemma_view_terms(out@); }
                assert(es@.skip(0) =~= es@);
                assert(view_terms(out@) =~= Seq::<SExpr>::empty());
                while i < es.len()
                    invariant
                        *v == JsonValue::Object(*es),
                        i <= es@.len(),
                        object_leaves(es@) == view_terms(out@) + object_leaves(es@.skip(i as int)),
                        forall|j: int| 0 <= j < out@.len() ==> wf(#[trigger] out@[j]@),
                    decreases es@.len() - i,
                {
                    proof {
                        assert(decreases_to!(*v => (*v)->Object_0));
                        assert(decreases_to!(*es => es@));
                        assert(decreases_to!(es@ => es@[i as int]));
                        assert(decreases_to!(es@[i as int] => es@[i as int].1));
                        lemma_object_step(es@, i as int);
                    }
                    let sub = leaves(&es[i].1);
                    let key = field_term(&es[i].0);
                    let ghost before = view_terms(out@);
                    push_wrapped(&key, sub, &mut out);
                    proof {
                        assert(before + (wrap(field_expr(es@[i as int].0@), leaf_exprs(es@[i as int].1)) + object_leaves(es@.skip(i + 1)))
                            =~= view_terms(out@) + object_leaves(es@.skip(i + 1)));
                    }
                    i = i + 1;
                }
                assert(es@.skip(i as int) =~= Seq::<(Vec<u8>, JsonValue)>::empty());
                assert(view_terms(out@) + object_leaves(Seq::<(Vec<u8>, JsonValue)>::empty()) =~= view_terms(out@));
            }
        },
    }
    proof {
        lemma_view_terms(out@);
        if out@.len() == 1 {
            assert(view_terms(out@) =~= seq![view_term(out@[0])]);
        }
    }
    out
}

impl Space {
    /// Writes one path per leaf of `v`, as `leaf_exprs` gives them, and
    /// returns the number of leaves.
    pub fn load_json(&mut self, v: &JsonValue) -> (r: usize)
        requires
            old(self).wf(),
        ensures
            final(self).wf(),
            final(self).view() == old(self).view().union(leaf_exprs(*v).map_values(|e: SExpr| encode(e)).to_set()),
            r == leaf_exprs(*v).len(),
    {
        let ls = leaves(v);
        let ghost lv = view_terms(ls@);
        let ghost s0 = self.view();
        proof { lemma_view_terms(ls@); }
        let mut k: usize = 0;
        assert(lv.take(0).map_values(|e: SExpr| encode(e)).to_set() =~= Set::<Seq<u8>>::empty());
        while k < ls.len()
            invariant
                self.wf(),
                s0 == old(self).view(),
                lv == view_terms(ls@),
                lv.len() == ls@.len(),
                forall|i: int| 0 <= i < ls@.len() ==> #[trigger] lv[i] == view_term(ls@[i]),
                forall|i: int| 0 <= i < ls@.len() ==> wf(#[trigger] ls@[i]@),
                k <= ls@.len(),
                self.view() == s0.union(lv.take(k as int).map_values(|e: SExpr| encode(e)).to_set()),
            decreases ls@.len() - k,
        {
            self.insert_expr(&ls[k]);
            proof {
                let a = lv.take(k as int).map_values(|e: SExpr| encode(e));
                let b = lv.take(k + 1).map_values(|e: SExpr| encode(e));
                assert(b =~= a.push(encode(lv[k as int])));
                assert(b.to_set() =~= a.to_set().insert(encode(lv[k as int]))) by {
                    assert forall|x: Seq<u8>| #[trigger] b.contains(x) implies a.contains(x) || x == encode(lv[k as int]) by {
                        let j = choose|j: int| 0 <= j < b.len() && b[j] == x;
                        if j < a.len() {
                            assert(a[j] == x);
                        }
                    }
                    assert forall|x: Seq<u8>| a.contains(x) implies #[trigger] b.contains(x) by {
                        let j = choose|j: int| 0 <= j < a.len() && a[j] == x;
                        assert(b[j] == x);
                    }
                    assert(b[a.len() as int] == encode(lv[k as int]));
                }
                assert(self.view() =~= s0.union(b.to_set()));
            }
            k = k + 1;
        }
        assert(lv.take(k as int) =~= lv);
        ls.len()
    }
}

} // verus!
