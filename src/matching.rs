use vstd::prelude::*;
use crate::encoding::{SExpr, Term, view_term, view_terms, lemma_view_terms, encode, wf, wf_list, lemma_wf_list};
use crate::trie::compare_bytes;

verus! {

pub open spec fn is_var(e: SExpr) -> bool {
    e is NewVar || e is VarRef
}

/// `c`, an earlier capture, used as a pattern against `d`: its variables
/// stand for any expression, its symbols must be met by the same symbol or
/// by a variable of `d`, and its compounds by compounds of the same arity.
pub open spec fn refer_match(c: SExpr, d: SExpr) -> bool
    decreases c,
{
    match c {
        SExpr::NewVar => true,
        SExpr::VarRef(_) => true,
        SExpr::Symbol(s) => d == SExpr::Symbol(s) || is_var(d),
        SExpr::Compound(cs) => match d {
            SExpr::Compound(ds) => cs.len() == ds.len() && refer_match_list(cs, ds),
            _ => false,
        },
    }
}

pub open spec fn refer_match_list(cs: Seq<SExpr>, ds: Seq<SExpr>) -> bool
    decreases cs,
{
    cs.len() == 0 || (ds.len() > 0 && refer_match(cs[0], ds[0]) && refer_match_list(
        cs.drop_first(),
        ds.drop_first(),
    ))
}

/// Matches pattern `p` against `d` with the captures `env` made so far:
/// the captures after the match, or `None`. A `NewVar` captures the
/// sub-expression where it stands; `VarRef(i)` asks that the sub-expression
/// there meet capture `i`; symbols match the same symbol or a variable of
/// `d`; compounds match compounds of the same arity member by member.
pub open spec fn pmatch(p: SExpr, d: SExpr, env: Seq<SExpr>) -> Option<Seq<SExpr>>
    decreases p,
{
    match p {
        SExpr::NewVar => Some(env.push(d)),
        SExpr::VarRef(i) => if (i as int) < env.len() && refer_match(env[i as int], d) {
            Some(env)
        } else {
            None
        },
        SExpr::Symbol(s) => if d == SExpr::Symbol(s) || is_var(d) {
            Some(env)
        } else {
            None
        },
        SExpr::Compound(ps) => match d {
            SExpr::Compound(ds) => if ps.len() == ds.len() {
                pmatch_list(ps, ds, env)
            } else {
                None
            },
            _ => None,
        },
    }
}

pub open spec fn pmatch_list(ps: Seq<SExpr>, ds: Seq<SExpr>, env: Seq<SExpr>) -> Option<Seq<SExpr>>
    decreases ps,
{
    if ps.len() == 0 {
        Some(env)
    } else if ds.len() == 0 {
        None
    } else {
        match pmatch(ps[0], ds[0], env) {
            Some(env2) => pmatch_list(ps.drop_first(), ds.drop_first(), env2),
            None => None,
        }
    }
}

pub fn bytes_equal(a: &Vec<u8>, b: &Vec<u8>) -> (r: bool)
    ensures
        r == (a@ == b@),
{
    compare_bytes(a.as_slice(), b.as_slice()) == 0
}

fn is_var_term(t: &Term) -> (r: bool)
    ensures
        r == is_var(t@),
{
    match t {
        Term::NewVar => true,
        Term::VarRef(_) => true,
        _ => false,
    }
}

/// Whether the capture `c` used as a pattern meets `d`.
pub fn refer_term(c: &Term, d: &Term) -> (r: bool)
    ensures
        r == refer_match(c@, d@),
    decreases c,
{
    match c {
        Term::NewVar => true,
        Term::VarRef(_) => true,
        Term::Symbol(s) => {
            let v = is_var_term(d);
            match d {
                Term::Symbol(t) => bytes_equal(s, t) || v,
                _ => v,
            }
        },
        Term::Compound(cs) => match d {
            Term::Compound(ds) => {
                if cs.len() != ds.len() {
                    proof { lemma_view_terms(cs@); lemma_view_terms(ds@); }
                    return false;
                }
                let mut k: usize = cs.len();
                proof { lemma_view_terms(cs@); lemma_view_terms(ds@); }
                let ghost cv = view_terms(cs@);
                let ghost dv = view_terms(ds@);
                assert(refer_match_list(cv.subrange(k as int, cv.len() as int), dv.subrange(k as int, dv.len() as int)));
                while k > 0
                    invariant
                        *c == Term::Compound(*cs),
                        *d == Term::Compound(*ds),
                        k <= cs.len(),
                        cs.len() == ds.len(),
                        cv == view_terms(cs@),
                        dv == view_terms(ds@),
                        cv.len() == cs.len(),
                        dv.len() == ds.len(),
                        forall|i: int| 0 <= i < cs.len() ==> #[trigger] cv[i] == view_term(cs@[i]),
                        forall|i: int| 0 <= i < ds.len() ==> #[trigger] dv[i] == view_term(ds@[i]),
                        refer_match_list(cv.subrange(k as int, cv.len() as int), dv.subrange(k as int, dv.len() as int)),
                    decreases k,
                {
                    let j = k - 1;
                    proof {
                        assert(decreases_to!(*c => (*c)->Compound_0));
                        assert(decreases_to!(*cs => cs@));
                        assert(decreases_to!(cs@ => cs@[j as int]));
                    }
                    let ok = refer_term(&cs[j], &ds[j]);
                    proof {
                        let a = cv.subrange(j as int, cv.len() as int);
                        let b = dv.subrange(j as int, dv.len() as int);
                        assert(a.drop_first() =~= cv.subrange(k as int, cv.len() as int));
                        assert(b.drop_first() =~= dv.subrange(k as int, dv.len() as int));
                    }
                    if !ok {
                        proof {
                            lemma_refer_list_index(cv, dv, j as int);
                        }
                        return false;
                    }
                    k = j;
                }
                assert(cv.subrange(0, cv.len() as int) =~= cv);
                assert(dv.subrange(0, dv.len() as int) =~= dv);
                true
            },
            _ => false,
        },
    }
}

proof fn lemma_refer_list_index(cs: Seq<SExpr>, ds: Seq<SExpr>, j: int)
    requires
        0 <= j < cs.len(),
        cs.len() == ds.len(),
        !refer_match(cs[j], ds[j]),
    ensures
        !refer_match_list(cs, ds),
    decreases cs.len(),
{
    if j > 0 {
        assert(cs.drop_first()[j - 1] == cs[j]);
        assert(ds.drop_first()[j - 1] == ds[j]);
        lemma_refer_list_index(cs.drop_first(), ds.drop_first(), j - 1);
    }
}


proof fn lemma_pmatch_list_step(ps: Seq<SExpr>, ds: Seq<SExpr>, k: int, env: Seq<SExpr>)
    requires
        0 <= k < ps.len(),
        ps.len() == ds.len(),
    ensures
        pmatch_list(ps.subrange(k, ps.len() as int), ds.subrange(k, ds.len() as int), env) == match pmatch(ps[k], ds[k], env) {
            Some(e2) => pmatch_list(ps.subrange(k + 1, ps.len() as int), ds.subrange(k + 1, ds.len() as int), e2),
            None => None,
        },
{
    let a = ps.subrange(k, ps.len() as int);
    let b = ds.subrange(k, ds.len() as int);
    assert(a.drop_first() =~= ps.subrange(k + 1, ps.len() as int));
    assert(b.drop_first() =~= ds.subrange(k + 1, ds.len() as int));
    assert(a[0] == ps[k] && b[0] == ds[k]);
}

proof fn lemma_view_push(ts: Seq<Term>, t: Term)
    ensures
        view_terms(ts.push(t)) == view_terms(ts).push(view_term(t)),
{
    lemma_view_terms(ts);
    lemma_view_terms(ts.push(t));
    assert(view_terms(ts.push(t)) =~= view_terms(ts).push(view_term(t)));
}

/// Matches pattern `p` against `d`, adding the captures to `env`.
pub fn match_term(p: &Term, d: &Term, env: &mut Vec<Term>) -> (r: bool)
    ensures
        r == pmatch(p@, d@, view_terms(old(env)@)) is Some,
        r ==> pmatch(p@, d@, view_terms(old(env)@)) == Some(view_terms(final(env)@)),
    decreases p,
{
    proof { lemma_view_terms(env@); }
    match p {
        Term::NewVar => {
            let c = d.copy();
            proof { lemma_view_push(env@, c); }
            env.push(c);
            true
        },
        Term::VarRef(i) => {
            let i = *i as usize;
            if i < env.len() {
                refer_term(&env[i], d)
            } else {
                false
            }
        },
        Term::Symbol(s) => {
            let v = is_var_term(d);
            match d {
                Term::Symbol(t) => bytes_equal(s, t) || v,
                _ => v,
            }
        },
        Term::Compound(ps) => match d {
            Term::Compound(ds) => {
                proof { lemma_view_terms(ps@); lemma_view_terms(ds@); }
                if ps.len() != ds.len() {
                    return false;
                }
                let ghost pv = view_terms(ps@);
                let ghost dv = view_terms(ds@);
                let ghost env0 = view_terms(env@);
                assert(pv.subrange(0, pv.len() as int) =~= pv);
                assert(dv.subrange(0, dv.len() as int) =~= dv);
                let mut k: usize = 0;
                while k < ps.len()
                    invariant
                        *p == Term::Compound(*ps),
                        *d == Term::Compound(*ds),
                        k <= ps.len(),
                        ps.len() == ds.len(),
                        pv == view_terms(ps@),
                        dv == view_terms(ds@),
                        pv.len() == ps.len(),
                        dv.len() == ds.len(),
                        forall|i: int| 0 <= i < ps.len() ==> #[trigger] pv[i] == view_term(ps@[i]),
                        forall|i: int| 0 <= i < ds.len() ==> #[trigger] dv[i] == view_term(ds@[i]),
                        pmatch_list(pv, dv, env0) == pmatch_list(
                            pv.subrange(k as int, pv.len() as int),
                            dv.subrange(k as int, dv.len() as int),
                            view_terms(env@),
                        ),
                        env0 == view_terms(old(env)@),
                    decreases ps.len() - k,
                {
                    proof {
                        assert(decreases_to!(*p => (*p)->Compound_0));
                        assert(decreases_to!(*ps => ps@));
                        assert(decreases_to!(ps@ => ps@[k as int]));
                        lemma_pmatch_list_step(pv, dv, k as int, view_terms(env@));
                    }
                    let ok = match_term(&ps[k], &ds[k], env);
                    if !ok {
                        return false;
                    }
                    k = k + 1;
                }
                assert(pv.subrange(k as int, pv.len() as int) =~= Seq::<SExpr>::empty());
                true
            },
            _ => false,
        },
    }
}

/// No `NewVar` stands in `t`, and every `VarRef(i)` in it has `i < n`.
pub open spec fn template_ok(t: SExpr, n: nat) -> bool
    decreases t,
{
    match t {
        SExpr::NewVar => false,
        SExpr::VarRef(i) => (i as nat) < n,
        SExpr::Symbol(_) => true,
        SExpr::Compound(cs) => template_list_ok(cs, n),
    }
}

pub open spec fn template_list_ok(ts: Seq<SExpr>, n: nat) -> bool
    decreases ts,
{
    ts.len() == 0 || (template_ok(ts[0], n) && template_list_ok(ts.drop_first(), n))
}

/// `t` with each `VarRef(i)` replaced by `refs[i]`.
pub open spec fn subst(t: SExpr, refs: Seq<SExpr>) -> SExpr
    decreases t,
{
    match t {
        SExpr::VarRef(i) => if (i as int) < refs.len() {
            refs[i as int]
        } else {
            t
        },
        SExpr::Compound(cs) => SExpr::Compound(subst_list(cs, refs)),
        _ => t,
    }
}

pub open spec fn subst_list(ts: Seq<SExpr>, refs: Seq<SExpr>) -> Seq<SExpr>
    decreases ts,
{
    if ts.len() == 0 {
        seq![]
    } else {
        seq![subst(ts[0], refs)] + subst_list(ts.drop_first(), refs)
    }
}

/// The number of `VarRef` bytes in the encoding of `t`.
pub open spec fn ref_count(t: SExpr) -> nat
    decreases t,
{
    match t {
        SExpr::VarRef(_) => 1,
        SExpr::Compound(cs) => ref_count_list(cs),
        _ => 0,
    }
}

pub open spec fn ref_count_list(ts: Seq<SExpr>) -> nat
    decreases ts,
{
    if ts.len() == 0 {
        0
    } else {
        ref_count(ts[0]) + ref_count_list(ts.drop_first())
    }
}

/// The total span of the references that `t` refers to, counted once per
/// occurrence.
pub open spec fn ref_span(t: SExpr, refs: Seq<SExpr>) -> nat
    decreases t,
{
    match t {
        SExpr::VarRef(i) => if (i as int) < refs.len() {
            encode(refs[i as int]).len()
        } else {
            0
        },
        SExpr::Compound(cs) => ref_span_list(cs, refs),
        _ => 0,
    }
}

pub open spec fn ref_span_list(ts: Seq<SExpr>, refs: Seq<SExpr>) -> nat
    decreases ts,
{
    if ts.len() == 0 {
        0
    } else {
        ref_span(ts[0], refs) + ref_span_list(ts.drop_first(), refs)
    }
}

proof fn lemma_subst_list_index(ts: Seq<SExpr>, refs: Seq<SExpr>)
    ensures
        subst_list(ts, refs).len() == ts.len(),
        forall|i: int| 0 <= i < ts.len() ==> #[trigger] subst_list(ts, refs)[i] == subst(ts[i], refs),
    decreases ts.len(),
{
    if ts.len() > 0 {
        lemma_subst_list_index(ts.drop_first(), refs);
        assert forall|i: int| 0 <= i < ts.len() implies #[trigger] subst_list(ts, refs)[i] == subst(ts[i], refs) by {
            if i > 0 {
                assert(ts.drop_first()[i - 1] == ts[i]);
            }
        }
    }
}

proof fn lemma_template_list_index(ts: Seq<SExpr>, n: nat)
    ensures
        template_list_ok(ts, n) <==> forall|i: int| 0 <= i < ts.len() ==> #[trigger] template_ok(ts[i], n),
    decreases ts.len(),
{
    if ts.len() > 0 {
        lemma_template_list_index(ts.drop_first(), n);
        assert(template_list_ok(ts, n) == (template_ok(ts[0], n) && template_list_ok(ts.drop_first(), n)));
        if forall|i: int| 0 <= i < ts.len() ==> #[trigger] template_ok(ts[i], n) {
            assert forall|i: int| 0 <= i < ts.drop_first().len() implies #[trigger] template_ok(ts.drop_first()[i], n) by {
                assert(template_ok(ts[i + 1], n));
            }
        }
        if template_list_ok(ts, n) {
            assert forall|i: int| 0 <= i < ts.len() implies #[trigger] template_ok(ts[i], n) by {
                if i > 0 {
                    assert(ts.drop_first()[i - 1] == ts[i]);
                }
            }
        }
    }
}

/// Instantiates template `t` with the captures `refs`.
pub fn subst_term(t: &Term, refs: &Vec<Term>) -> (r: Term)
    requires
        template_ok(t@, refs@.len() as nat),
    ensures
        r@ == subst(t@, view_terms(refs@)),
    decreases t,
{
    proof { lemma_view_terms(refs@); }
    match t {
        Term::NewVar => Term::NewVar,
        Term::VarRef(i) => refs[*i as usize].copy(),
        Term::Symbol(s) => t.copy(),
        Term::Compound(cs) => {
            let ghost cv = view_terms(cs@);
            let ghost rv = view_terms(refs@);
            proof {
                lemma_view_terms(cs@);
                lemma_subst_list_index(cv, rv);
                lemma_template_list_index(cv, refs@.len() as nat);
            }
            let mut out: Vec<Term> = Vec::new();
            let mut k: usize = 0;
            while k < cs.len()
                invariant
                    *t == Term::Compound(*cs),
                    k <= cs.len(),
                    cv == view_terms(cs@),
                    rv == view_terms(refs@),
                    cv.len() == cs.len(),
                    forall|i: int| 0 <= i < cs.len() ==> #[trigger] cv[i] == view_term(cs@[i]),
                    forall|i: int| 0 <= i < cs.len() ==> #[trigger] template_ok(cv[i], refs@.len() as nat),
                    subst_list(cv, rv).len() == cv.len(),
                    forall|i: int| 0 <= i < cv.len() ==> #[trigger] subst_list(cv, rv)[i] == subst(cv[i], rv),
                    out@.len() == k,
                    forall|i: int| 0 <= i < k ==> #[trigger] view_term(out@[i]) == subst(cv[i], rv),
                decreases cs.len() - k,
            {
                proof {
                    assert(decreases_to!(*t => (*t)->Compound_0));
                    assert(decreases_to!(*cs => cs@));
                    assert(decreases_to!(cs@ => cs@[k as int]));
                }
                assert(template_ok(cv[k as int], refs@.len() as nat));
                assert(cv[k as int] == cs@[k as int]@);
                let c = subst_term(&cs[k], refs);
                out.push(c);
                k = k + 1;
            }
            proof {
                lemma_view_terms(out@);
                assert(view_terms(out@) =~= subst_list(cv, rv));
            }
            Term::Compound(out)
        },
    }
}

/// Substitution yields a well-formed expression whose span is the span of
/// the template's own bytes plus the spans of the references it names, one
/// for each occurrence.
pub proof fn lemma_subst_span(t: SExpr, refs: Seq<SExpr>)
    requires
        wf(t),
        template_ok(t, refs.len()),
        forall|i: int| 0 <= i < refs.len() ==> #[trigger] wf(refs[i]),
    ensures
        wf(subst(t, refs)),
        encode(subst(t, refs)).len() == encode(t).len() - ref_count(t) + ref_span(t, refs),
        ref_count(t) <= encode(t).len(),
    decreases t,
{
    match t {
        SExpr::Compound(cs) => {
            lemma_subst_list_span(cs, refs);
            lemma_subst_list_index(cs, refs);
        },
        _ => {},
    }
}

proof fn lemma_subst_list_span(ts: Seq<SExpr>, refs: Seq<SExpr>)
    requires
        wf_list(ts),
        template_list_ok(ts, refs.len()),
        forall|i: int| 0 <= i < refs.len() ==> #[trigger] wf(refs[i]),
    ensures
        wf_list(subst_list(ts, refs)),
        crate::encoding::encode_list(subst_list(ts, refs)).len() == crate::encoding::encode_list(ts).len()
            - ref_count_list(ts) + ref_span_list(ts, refs),
        ref_count_list(ts) <= crate::encoding::encode_list(ts).len(),
    decreases ts,
{
    if ts.len() > 0 {
        assert(wf(ts[0]) && wf_list(ts.drop_first()));
        lemma_subst_span(ts[0], refs);
        lemma_subst_list_span(ts.drop_first(), refs);
        let s = subst_list(ts, refs);
        assert(s.drop_first() =~= subst_list(ts.drop_first(), refs));
        assert(s[0] == subst(ts[0], refs));
    }
}


/// The number of `NewVar`s in `p`: how many captures a match of it makes.
pub open spec fn var_count(p: SExpr) -> nat
    decreases p,
{
    match p {
        SExpr::NewVar => 1,
        SExpr::Compound(ps) => var_count_list(ps),
        _ => 0,
    }
}

pub open spec fn var_count_list(ps: Seq<SExpr>) -> nat
    decreases ps,
{
    if ps.len() == 0 {
        0
    } else {
        var_count(ps[0]) + var_count_list(ps.drop_first())
    }
}

pub open spec fn all_wf(es: Seq<SExpr>) -> bool {
    forall|i: int| 0 <= i < es.len() ==> #[trigger] wf(es[i])
}

/// A match adds one capture per `NewVar` of the pattern, each a
/// sub-expression of well-formed data and so well formed.
pub proof fn lemma_pmatch_shape(p: SExpr, d: SExpr, env: Seq<SExpr>)
    requires
        wf(d),
        all_wf(env),
    ensures
        pmatch(p, d, env) matches Some(e2) ==> e2.len() == env.len() + var_count(p) && all_wf(e2),
    decreases p,
{
    match p {
        SExpr::Compound(ps) => match d {
            SExpr::Compound(ds) => {
                lemma_wf_list(ds);
                lemma_pmatch_list_shape(ps, ds, env);
            },
            _ => {},
        },
        SExpr::NewVar => {
            assert forall|i: int| 0 <= i < env.push(d).len() implies #[trigger] wf(env.push(d)[i]) by {
                if i < env.len() {
                    assert(env.push(d)[i] == env[i]);
                }
            }
        },
        _ => {},
    }
}

proof fn lemma_pmatch_list_shape(ps: Seq<SExpr>, ds: Seq<SExpr>, env: Seq<SExpr>)
    requires
        all_wf(ds),
        all_wf(env),
    ensures
        pmatch_list(ps, ds, env) matches Some(e2) ==> e2.len() == env.len() + var_count_list(ps) && all_wf(e2),
    decreases ps,
{
    if ps.len() > 0 && ds.len() > 0 {
        lemma_pmatch_shape(ps[0], ds[0], env);
        match pmatch(ps[0], ds[0], env) {
            Some(e2) => {
                assert forall|i: int| 0 <= i < ds.drop_first().len() implies #[trigger] wf(ds.drop_first()[i]) by {
                    assert(wf(ds[i + 1]));
                }
                lemma_pmatch_list_shape(ps.drop_first(), ds.drop_first(), e2);
            },
            None => {},
        }
    }
}


/// `e` holds no variable.
pub open spec fn ground(e: SExpr) -> bool
    decreases e,
{
    match e {
        SExpr::NewVar => false,
        SExpr::VarRef(_) => false,
        SExpr::Symbol(_) => true,
        SExpr::Compound(cs) => ground_list(cs),
    }
}

pub open spec fn ground_list(es: Seq<SExpr>) -> bool
    decreases es,
{
    es.len() == 0 || (ground(es[0]) && ground_list(es.drop_first()))
}

/// Between expressions without variables, a capture meets exactly the
/// expressions equal to it.
pub proof fn lemma_refer_ground(c: SExpr, d: SExpr)
    requires
        ground(c),
        ground(d),
    ensures
        refer_match(c, d) <==> c == d,
    decreases c,
{
    match c {
        SExpr::Compound(cs) => match d {
            SExpr::Compound(ds) => {
                if cs.len() == ds.len() {
                    lemma_refer_ground_list(cs, ds);
                }
            },
            _ => {},
        },
        _ => {},
    }
}

proof fn lemma_refer_ground_list(cs: Seq<SExpr>, ds: Seq<SExpr>)
    requires
        ground_list(cs),
        ground_list(ds),
        cs.len() == ds.len(),
    ensures
        refer_match_list(cs, ds) <==> cs == ds,
    decreases cs,
{
    if cs.len() > 0 {
        lemma_refer_ground(cs[0], ds[0]);
        lemma_refer_ground_list(cs.drop_first(), ds.drop_first());
        if cs[0] == ds[0] && cs.drop_first() == ds.drop_first() {
            assert(cs =~= seq![cs[0]] + cs.drop_first());
            assert(ds =~= seq![ds[0]] + ds.drop_first());
        }
        if cs == ds {
            assert(cs.drop_first() == ds.drop_first());
        }
    } else {
        assert(cs =~= ds);
    }
}

/// The empty compound as a pattern matches exactly the empty compound.
pub proof fn lemma_arity_zero_pattern(d: SExpr, env: Seq<SExpr>)
    ensures
        pmatch(SExpr::Compound(seq![]), d, env) is Some <==> d == SExpr::Compound(seq![]),
{
    match d {
        SExpr::Compound(ds) => {
            if ds.len() == 0 {
                assert(ds =~= seq![]);
            }
        },
        _ => {},
    }
}

/// In the pattern `($ _1)` the second member must meet the capture of the
/// first; between expressions without variables, it must equal it.
pub proof fn lemma_repeated_variable(d1: SExpr, d2: SExpr)
    requires
        ground(d1),
        ground(d2),
    ensures
        pmatch(SExpr::Compound(seq![SExpr::NewVar, SExpr::VarRef(0)]), SExpr::Compound(seq![d1, d2]), seq![]) is Some
            <==> d1 == d2,
{
    let ps = seq![SExpr::NewVar, SExpr::VarRef(0)];
    let ds = seq![d1, d2];
    assert(ps.drop_first() =~= seq![SExpr::VarRef(0)]);
    assert(ds.drop_first() =~= seq![d2]);
    assert(ps.drop_first().drop_first() =~= Seq::<SExpr>::empty());
    assert(ds.drop_first().drop_first() =~= Seq::<SExpr>::empty());
    assert(seq![d1].push(d1)[0] == d1) by {
        assert(Seq::<SExpr>::empty().push(d1)[0] == d1);
    }
    assert(Seq::<SExpr>::empty().push(d1) =~= seq![d1]);
    lemma_refer_ground(d1, d2);
    let e1 = seq![d1];
    assert(pmatch(SExpr::NewVar, d1, seq![]) == Some(e1));
    assert(ps[0] == SExpr::NewVar && ds[0] == d1);
    assert(ps.drop_first()[0] == SExpr::VarRef(0) && ds.drop_first()[0] == d2);
    assert(e1[0] == d1);
    assert(pmatch(SExpr::VarRef(0), d2, e1) == if refer_match(d1, d2) { Some(e1) } else { None });
    assert(pmatch_list(ps.drop_first().drop_first(), ds.drop_first().drop_first(), e1) == Some(e1));
    assert(pmatch_list(ps.drop_first(), ds.drop_first(), e1) == if refer_match(d1, d2) { Some(e1) } else { None });
    assert(pmatch_list(ps, ds, seq![]) == pmatch_list(ps.drop_first(), ds.drop_first(), e1));
}

/// A fresh variable as the whole pattern matches every expression and
/// captures it whole.
pub proof fn lemma_root_variable(d: SExpr)
    ensures
        pmatch(SExpr::NewVar, d, seq![]) == Some(seq![d]),
{
    assert(Seq::<SExpr>::empty().push(d) =~= seq![d]);
}

/// Plain matching: symbols byte-equal, arities equal, and each `VarRef(i)`
/// meeting a sub-expression identical to capture `i`.
pub open spec fn plain_match(p: SExpr, d: SExpr, env: Seq<SExpr>) -> Option<Seq<SExpr>>
    decreases p,
{
    match p {
        SExpr::NewVar => Some(env.push(d)),
        SExpr::VarRef(i) => if (i as int) < env.len() && env[i as int] == d { Some(env) } else { None },
        SExpr::Symbol(s) => if d == SExpr::Symbol(s) { Some(env) } else { None },
        SExpr::Compound(ps) => match d {
            SExpr::Compound(ds) => if ps.len() == ds.len() { plain_match_list(ps, ds, env) } else { None },
            _ => None,
        },
    }
}

pub open spec fn plain_match_list(ps: Seq<SExpr>, ds: Seq<SExpr>, env: Seq<SExpr>) -> Option<Seq<SExpr>>
    decreases ps,
{
    if ps.len() == 0 {
        Some(env)
    } else if ds.len() == 0 {
        None
    } else {
        match plain_match(ps[0], ds[0], env) {
            Some(env2) => plain_match_list(ps.drop_first(), ds.drop_first(), env2),
            None => None,
        }
    }
}

pub open spec fn all_ground(es: Seq<SExpr>) -> bool {
    forall|i: int| 0 <= i < es.len() ==> #[trigger] ground(es[i])
}

/// On data without variables, referential matching is plain matching:
/// symbols must be byte-equal and a repeated variable must meet an
/// identical sub-expression.
pub proof fn lemma_pmatch_ground(p: SExpr, d: SExpr, env: Seq<SExpr>)
    requires
        ground(d),
        all_ground(env),
    ensures
        pmatch(p, d, env) == plain_match(p, d, env),
        pmatch(p, d, env) matches Some(e2) ==> all_ground(e2),
    decreases p,
{
    match p {
        SExpr::NewVar => {
            assert forall|i: int| 0 <= i < env.push(d).len() implies #[trigger] ground(env.push(d)[i]) by {
                if i < env.len() {
                    assert(env.push(d)[i] == env[i]);
                }
            }
        },
        SExpr::VarRef(i) => {
            if (i as int) < env.len() {
                lemma_refer_ground(env[i as int], d);
            }
        },
        SExpr::Compound(ps) => match d {
            SExpr::Compound(ds) => {
                if ps.len() == ds.len() {
                    lemma_pmatch_ground_list(ps, ds, env);
                }
            },
            _ => {},
        },
        _ => {},
    }
}

proof fn lemma_pmatch_ground_list(ps: Seq<SExpr>, ds: Seq<SExpr>, env: Seq<SExpr>)
    requires
        ground_list(ds),
        all_ground(env),
    ensures
        pmatch_list(ps, ds, env) == plain_match_list(ps, ds, env),
        pmatch_list(ps, ds, env) matches Some(e2) ==> all_ground(e2),
    decreases ps,
{
    if ps.len() > 0 && ds.len() > 0 {
        assert(ground(ds[0]) && ground_list(ds.drop_first()));
        lemma_pmatch_ground(ps[0], ds[0], env);
        match pmatch(ps[0], ds[0], env) {
            Some(e2) => lemma_pmatch_ground_list(ps.drop_first(), ds.drop_first(), e2),
            None => {},
        }
    }
}

/// Whether `t` can be instantiated with `n` captures.
pub fn check_template(t: &Term, n: usize) -> (r: bool)
    ensures
        r == template_ok(t@, n as nat),
    decreases t,
{
    match t {
        Term::NewVar => false,
        Term::VarRef(i) => (*i as usize) < n,
        Term::Symbol(_) => true,
        Term::Compound(cs) => {
            let ghost cv = view_terms(cs@);
            proof {
                lemma_view_terms(cs@);
                lemma_template_list_index(cv, n as nat);
            }
            let mut k: usize = 0;
            while k < cs.len()
                invariant
                    *t == Term::Compound(*cs),
                    k <= cs.len(),
                    cv == view_terms(cs@),
                    cv.len() == cs.len(),
                    forall|i: int| 0 <= i < cs.len() ==> #[trigger] cv[i] == view_term(cs@[i]),
                    forall|i: int| 0 <= i < k ==> #[trigger] template_ok(cv[i], n as nat),
                    template_list_ok(cv, n as nat) <==> forall|i: int| 0 <= i < cv.len() ==> #[trigger] template_ok(cv[i], n as nat),
                decreases cs.len() - k,
            {
                proof {
                    assert(decreases_to!(*t => (*t)->Compound_0));
                    assert(decreases_to!(*cs => cs@));
                    assert(decreases_to!(cs@ => cs@[k as int]));
                }
                if !check_template(&cs[k], n) {
                    assert(!template_ok(cv[k as int], n as nat));
                    return false;
                }
                k = k + 1;
            }
            true
        },
    }
}

} // verus!
