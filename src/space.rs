use vstd::prelude::*;
use crate::encoding::{SExpr, Term, decoded, decode, encode, encode_to_vec, view_terms, lemma_view_terms, wf};
use crate::matching::{pmatch, match_term, subst, subst_term, template_ok, all_wf, lemma_pmatch_shape, lemma_subst_span, var_count, check_template};
use crate::encoding::lemma_parse_list_shape;
use crate::trie::{BytesTrieMap, lex_lt};

verus! {

/// What matching pattern `p` against the expression that path `b` encodes
/// captures; `None` where `b` encodes no expression or it does not match.
pub open spec fn path_match(p: SExpr, b: Seq<u8>) -> Option<Seq<SExpr>> {
    match decoded(b) {
        Some(e) => pmatch(p, e, seq![]),
        None => None,
    }
}

/// The paths of `s` that match `p`.
pub open spec fn matching_paths(s: Set<Seq<u8>>, p: SExpr) -> Set<Seq<u8>> {
    Set::new(|b: Seq<u8>| s.contains(b) && path_match(p, b) is Some)
}

/// A fresh variable as the whole pattern matches every path that encodes
/// an expression, capturing that expression; where every path of `s` does,
/// the matching paths are all of `s`, so a query finds `|s|` of them.
pub proof fn lemma_root_pattern_matches_all(s: Set<Seq<u8>>, b: Seq<u8>)
    ensures
        path_match(SExpr::NewVar, b) == match decoded(b) {
            Some(e) => Some(seq![e]),
            None => None,
        },
        (forall|c: Seq<u8>| #[trigger] s.contains(c) ==> decoded(c) is Some) ==> matching_paths(s, SExpr::NewVar) == s,
{
    match decoded(b) {
        Some(e) => {
            assert(Seq::<SExpr>::empty().push(e) =~= seq![e]);
        },
        None => {},
    }
    if forall|c: Seq<u8>| #[trigger] s.contains(c) ==> decoded(c) is Some {
        assert(matching_paths(s, SExpr::NewVar) =~= s);
    }
}

/// The paths that transforming the paths of `s` by pattern `p` into
/// template `t` writes.
pub open spec fn transform_outputs(s: Set<Seq<u8>>, p: SExpr, t: SExpr) -> Set<Seq<u8>> {
    Set::new(|out: Seq<u8>| exists|b: Seq<u8>| #[trigger] s.contains(b) && path_match(p, b) is Some && out == encode(subst(t, path_match(p, b)->Some_0)))
}

/// Matches the patterns `ps` in turn against the expressions that the
/// paths `bs` encode, each match starting from the captures of the one
/// before: the captures at the end, or `None`.
pub open spec fn multi_match(ps: Seq<SExpr>, bs: Seq<Seq<u8>>, env: Seq<SExpr>) -> Option<Seq<SExpr>>
    decreases ps.len(),
{
    if ps.len() == 0 {
        Some(env)
    } else if bs.len() == 0 {
        None
    } else {
        match decoded(bs[0]) {
            Some(e) => match pmatch(ps[0], e, env) {
                Some(e1) => multi_match(ps.drop_first(), bs.drop_first(), e1),
                None => None,
            },
            None => None,
        }
    }
}

/// The captures of every way to match the patterns `ps`, one path of `s`
/// each, starting from `env`.
pub open spec fn completions(s: Set<Seq<u8>>, ps: Seq<SExpr>, env: Seq<SExpr>) -> Set<Seq<SExpr>> {
    Set::new(|e2: Seq<SExpr>| exists|bs: Seq<Seq<u8>>| #[trigger] multi_match(ps, bs, env) == Some(e2)
        && bs.len() == ps.len() && (forall|i: int| 0 <= i < bs.len() ==> s.contains(#[trigger] bs[i])))
}

/// What one path `b` of `s` contributes as the match of the first pattern.
pub open spec fn contribution(s: Set<Seq<u8>>, ps: Seq<SExpr>, env: Seq<SExpr>, b: Seq<u8>) -> Set<Seq<SExpr>> {
    match decoded(b) {
        Some(e) => match pmatch(ps[0], e, env) {
            Some(e1) => completions(s, ps.drop_first(), e1),
            None => Set::empty(),
        },
        None => Set::empty(),
    }
}

pub proof fn lemma_completions_step(s: Set<Seq<u8>>, ps: Seq<SExpr>, env: Seq<SExpr>)
    requires
        ps.len() > 0,
    ensures
        completions(s, ps, env) == Set::new(|e2: Seq<SExpr>| exists|b: Seq<u8>| s.contains(b) && #[trigger] contribution(s, ps, env, b).contains(e2)),
{
    let rhs = Set::new(|e2: Seq<SExpr>| exists|b: Seq<u8>| s.contains(b) && #[trigger] contribution(s, ps, env, b).contains(e2));
    assert forall|e2: Seq<SExpr>| completions(s, ps, env).contains(e2) implies rhs.contains(e2) by {
        let bs = choose|bs: Seq<Seq<u8>>| #[trigger] multi_match(ps, bs, env) == Some(e2)
            && bs.len() == ps.len() && (forall|i: int| 0 <= i < bs.len() ==> s.contains(#[trigger] bs[i]));
        let b = bs[0];
        let e = decoded(b)->Some_0;
        let e1 = pmatch(ps[0], e, env)->Some_0;
        let rest = bs.drop_first();
        assert(multi_match(ps.drop_first(), rest, e1) == Some(e2));
        assert forall|i: int| 0 <= i < rest.len() implies s.contains(#[trigger] rest[i]) by {
            assert(s.contains(bs[i + 1]));
        }
        assert(completions(s, ps.drop_first(), e1).contains(e2));
        assert(s.contains(bs[0]));
        assert(contribution(s, ps, env, b).contains(e2));
    }
    assert forall|e2: Seq<SExpr>| rhs.contains(e2) implies completions(s, ps, env).contains(e2) by {
        let b = choose|b: Seq<u8>| s.contains(b) && #[trigger] contribution(s, ps, env, b).contains(e2);
        let e = decoded(b)->Some_0;
        let e1 = pmatch(ps[0], e, env)->Some_0;
        let rest = choose|bs: Seq<Seq<u8>>| #[trigger] multi_match(ps.drop_first(), bs, e1) == Some(e2)
            && bs.len() == ps.drop_first().len() && (forall|i: int| 0 <= i < bs.len() ==> s.contains(#[trigger] bs[i]));
        let bs = seq![b] + rest;
        assert(bs.drop_first() =~= rest);
        assert(bs[0] == b);
        assert forall|i: int| 0 <= i < bs.len() implies s.contains(#[trigger] bs[i]) by {
            if i > 0 {
                assert(bs[i] == rest[i - 1]);
            }
        }
        assert(multi_match(ps, bs, env) == Some(e2));
    }
    assert(completions(s, ps, env) =~= rhs);
}

pub proof fn lemma_completions_empty(s: Set<Seq<u8>>, env: Seq<SExpr>)
    ensures
        completions(s, Seq::<SExpr>::empty(), env) == Set::<Seq<SExpr>>::empty().insert(env),
{
    let bs = Seq::<Seq<u8>>::empty();
    assert(multi_match(Seq::<SExpr>::empty(), bs, env) == Some(env));
    assert(completions(s, Seq::<SExpr>::empty(), env) =~= Set::<Seq<SExpr>>::empty().insert(env));
}

/// One match of a query: the matching path and what the pattern's
/// variables captured, in order of appearance.
pub struct QueryMatch {
    pub path: Vec<u8>,
    pub refs: Vec<Term>,
}

/// The shared set of encoded expressions, kept in byte-lexicographic order.
pub struct Space {
    map: BytesTrieMap<()>,
}

impl Space {
    pub closed spec fn wf(&self) -> bool {
        self.map.wf()
    }

    /// The paths of the space.
    pub closed spec fn view(&self) -> Set<Seq<u8>> {
        self.map.view().dom()
    }

    /// An empty space.
    pub fn new() -> (r: Space)
        ensures
            r.wf(),
            r.view() == Set::<Seq<u8>>::empty(),
    {
        let r = Space { map: BytesTrieMap::new() };
        assert(r.view() =~= Set::<Seq<u8>>::empty());
        r
    }

    /// The number of distinct paths.
    pub fn len(&self) -> (r: usize)
        requires
            self.wf(),
        ensures
            r == self.view().len(),
    {
        self.map.len()
    }

    pub fn contains(&self, path: &[u8]) -> (r: bool)
        requires
            self.wf(),
        ensures
            r == self.view().contains(path@),
    {
        self.map.contains_key(path)
    }

    /// Adds a path; returns whether it was new.
    pub fn insert(&mut self, path: &[u8]) -> (r: bool)
        requires
            old(self).wf(),
        ensures
            final(self).wf(),
            final(self).view() == old(self).view().insert(path@),
            r == !old(self).view().contains(path@),
    {
        let prev = self.map.insert(path, ());
        assert(self.view() =~= old(self).view().insert(path@));
        prev.is_none()
    }

    /// Adds the encoding of an expression; returns whether it was new.
    pub fn insert_expr(&mut self, e: &Term) -> (r: bool)
        requires
            old(self).wf(),
            wf(e@),
        ensures
            final(self).wf(),
            final(self).view() == old(self).view().insert(encode(e@)),
            r == !old(self).view().contains(encode(e@)),
    {
        let b = encode_to_vec(e);
        self.insert(b.as_slice())
    }

    /// Removes a path; returns whether it was there.
    pub fn remove(&mut self, path: &[u8]) -> (r: bool)
        requires
            old(self).wf(),
        ensures
            final(self).wf(),
            final(self).view() == old(self).view().remove(path@),
            r == old(self).view().contains(path@),
    {
        let prev = self.map.remove(path);
        assert(self.view() =~= old(self).view().remove(path@));
        prev.is_some()
    }

    /// The paths of either space.
    pub fn union(&self, other: &Space) -> (r: Space)
        requires
            self.wf(),
            other.wf(),
        ensures
            r.wf(),
            r.view() == self.view().union(other.view()),
    {
        let m = self.map.union(&other.map);
        let r = Space { map: m };
        assert(r.view() =~= self.view().union(other.view()));
        r
    }

    /// The paths of both spaces.
    pub fn intersection(&self, other: &Space) -> (r: Space)
        requires
            self.wf(),
            other.wf(),
        ensures
            r.wf(),
            r.view() == self.view().intersect(other.view()),
    {
        let m = self.map.intersection(&other.map);
        let r = Space { map: m };
        assert(r.view() =~= self.view().intersect(other.view()));
        r
    }

    /// The paths of `self` that `other` lacks.
    pub fn difference(&self, other: &Space) -> (r: Space)
        requires
            self.wf(),
            other.wf(),
        ensures
            r.wf(),
            r.view() == self.view().difference(other.view()),
    {
        let m = self.map.difference(&other.map);
        let r = Space { map: m };
        assert(r.view() =~= self.view().difference(other.view()));
        r
    }

    /// All paths, in increasing byte-lexicographic order.
    pub fn paths(&self) -> (r: Vec<Vec<u8>>)
        requires
            self.wf(),
        ensures
            forall|i: int, j: int| 0 <= i < j < r@.len() ==> lex_lt(#[trigger] r@[i]@, #[trigger] r@[j]@),
            forall|i: int| 0 <= i < r@.len() ==> self.view().contains(#[trigger] r@[i]@),
            forall|b: Seq<u8>| #[trigger] self.view().contains(b) ==> exists|i: int| 0 <= i < r@.len() && r@[i]@ == b,
            r@.len() == self.view().len(),
    {
        self.map.keys()
    }

    /// The paths that match `pattern`, in increasing byte-lexicographic
    /// order, each with what the pattern captured.
    pub fn query(&self, pattern: &Term) -> (r: Vec<QueryMatch>)
        requires
            self.wf(),
        ensures
            forall|i: int, j: int| 0 <= i < j < r@.len() ==> lex_lt(#[trigger] r@[i].path@, #[trigger] r@[j].path@),
            forall|i: int| 0 <= i < r@.len() ==> self.view().contains(#[trigger] r@[i].path@)
                && path_match(pattern@, r@[i].path@) == Some(view_terms(r@[i].refs@)),
            forall|b: Seq<u8>| #[trigger] self.view().contains(b) && path_match(pattern@, b) is Some
                ==> exists|i: int| 0 <= i < r@.len() && r@[i].path@ == b,
            r@.len() == matching_paths(self.view(), pattern@).len(),
    {
        let ps = self.paths();
        let mut out: Vec<QueryMatch> = Vec::new();
        let mut k: usize = 0;
        while k < ps.len()
            invariant
                self.wf(),
                k <= ps@.len(),
                forall|i: int, j: int| 0 <= i < j < ps@.len() ==> lex_lt(#[trigger] ps@[i]@, #[trigger] ps@[j]@),
                forall|i: int| 0 <= i < ps@.len() ==> self.view().contains(#[trigger] ps@[i]@),
                forall|b: Seq<u8>| #[trigger] self.view().contains(b) ==> exists|i: int| 0 <= i < ps@.len() && ps@[i]@ == b,
                forall|i: int| 0 <= i < out@.len() ==> exists|j: int| 0 <= j < k && #[trigger] out@[i].path@ == ps@[j]@,
                forall|i: int, j: int| 0 <= i < out@.len() && k <= j < ps@.len() ==> lex_lt(#[trigger] out@[i].path@, #[trigger] ps@[j]@),
                forall|i: int, j: int| 0 <= i < j < out@.len() ==> lex_lt(#[trigger] out@[i].path@, #[trigger] out@[j].path@),
                forall|i: int| 0 <= i < out@.len() ==> self.view().contains(#[trigger] out@[i].path@)
                    && path_match(pattern@, out@[i].path@) == Some(view_terms(out@[i].refs@)),
                forall|j: int| 0 <= j < k && path_match(pattern@, #[trigger] ps@[j]@) is Some
                    ==> exists|i: int| 0 <= i < out@.len() && out@[i].path@ == ps@[j]@,
            decreases ps@.len() - k,
        {
            let d = decode(ps[k].as_slice());
            match d {
                Some(t) => {
                    let mut env: Vec<Term> = Vec::new();
                    proof {
                        lemma_view_terms(env@);
                        assert(view_terms(env@) =~= Seq::<SExpr>::empty());
                    }
                    if match_term(pattern, &t, &mut env) {
                        let path = crate::encoding::copy_range(ps[k].as_slice(), 0, ps[k].len());
                        assert(path@ =~= ps@[k as int]@);
                        let ghost before = out@;
                        out.push(QueryMatch { path, refs: env });
                        proof {
                            assert forall|i: int| 0 <= i < out@.len() implies exists|j: int| 0 <= j < k + 1 && #[trigger] out@[i].path@ == ps@[j]@ by {
                                if i < before.len() {
                                    assert(out@[i] == before[i]);
                                } else {
                                    assert(out@[i].path@ == ps@[k as int]@);
                                }
                            }
                            assert forall|i: int, j: int| 0 <= i < out@.len() && k + 1 <= j < ps@.len() implies lex_lt(#[trigger] out@[i].path@, #[trigger] ps@[j]@) by {
                                if i < before.len() {
                                    assert(out@[i] == before[i]);
                                } else {
                                    assert(lex_lt(ps@[k as int]@, ps@[j]@));
                                }
                            }
                            assert forall|i: int, j: int| 0 <= i < j < out@.len() implies lex_lt(#[trigger] out@[i].path@, #[trigger] out@[j].path@) by {
                                assert(out@[i] == before[i]);
                                if j < before.len() {
                                    assert(out@[j] == before[j]);
                                }
                            }
                            assert forall|j: int| 0 <= j < k + 1 && path_match(pattern@, #[trigger] ps@[j]@) is Some implies exists|i: int| 0 <= i < out@.len() && out@[i].path@ == ps@[j]@ by {
                                if j < k {
                                    let i = choose|i: int| 0 <= i < before.len() && before[i].path@ == ps@[j]@;
                                    assert(out@[i] == before[i]);
                                } else {
                                    assert(out@[before.len() as int].path@ == ps@[j]@);
                                }
                            }
                        }
                    } else {
                        proof {
                            assert forall|i: int| 0 <= i < out@.len() implies exists|j: int| 0 <= j < k + 1 && #[trigger] out@[i].path@ == ps@[j]@ by {
                                let j = choose|j: int| 0 <= j < k && out@[i].path@ == ps@[j]@;
                            }
                        }
                    }
                },
                None => {
                    proof {
                        assert forall|i: int| 0 <= i < out@.len() implies exists|j: int| 0 <= j < k + 1 && #[trigger] out@[i].path@ == ps@[j]@ by {
                            let j = choose|j: int| 0 <= j < k && out@[i].path@ == ps@[j]@;
                        }
                    }
                },
            }
            k = k + 1;
        }
        proof {
            assert forall|b: Seq<u8>| #[trigger] self.view().contains(b) && path_match(pattern@, b) is Some implies exists|i: int| 0 <= i < out@.len() && out@[i].path@ == b by {
                let j = choose|j: int| 0 <= j < ps@.len() && ps@[j]@ == b;
                assert(path_match(pattern@, ps@[j]@) is Some);
            }
            let qs = out@.map_values(|m: QueryMatch| m.path@);
            assert(qs.no_duplicates()) by {
                assert forall|a: int, b: int| 0 <= a < qs.len() && 0 <= b < qs.len() && a != b implies qs[a] != qs[b] by {
                    if a < b {
                        crate::trie::lemma_lex_asymmetric(out@[a].path@, out@[b].path@);
                    } else {
                        crate::trie::lemma_lex_asymmetric(out@[b].path@, out@[a].path@);
                    }
                }
            }
            assert(qs.to_set() =~= matching_paths(self.view(), pattern@)) by {
                assert forall|b: Seq<u8>| #[trigger] qs.contains(b) implies matching_paths(self.view(), pattern@).contains(b) by {
                    let a = choose|a: int| 0 <= a < qs.len() && qs[a] == b;
                    assert(self.view().contains(out@[a].path@));
                }
                assert forall|b: Seq<u8>| #[trigger] matching_paths(self.view(), pattern@).contains(b) implies qs.contains(b) by {
                    let i = choose|i: int| 0 <= i < out@.len() && out@[i].path@ == b;
                    assert(qs[i] == b);
                }
            }
            qs.unique_seq_to_set();
        }
        out
    }

    /// Writes, for each path that matches `pattern`, the template
    /// instantiated with what the match captured. Nothing is written where
    /// the template names a capture that the pattern does not make.
    pub fn transform(&mut self, pattern: &Term, template: &Term)
        requires
            old(self).wf(),
            wf(template@),
        ensures
            final(self).wf(),
            final(self).view() == if template_ok(template@, var_count(pattern@)) {
                old(self).view().union(transform_outputs(old(self).view(), pattern@, template@))
            } else {
                old(self).view()
            },
    {
        let ms = self.query(pattern);
        let ghost s0 = self.view();
        let ghost fits = template_ok(template@, var_count(pattern@));
        let mut k: usize = 0;
        while k < ms.len()
            invariant
                self.wf(),
                wf(template@),
                k <= ms@.len(),
                s0 == old(self).view(),
                fits == template_ok(template@, var_count(pattern@)),
                forall|i: int| 0 <= i < ms@.len() ==> s0.contains(#[trigger] ms@[i].path@)
                    && path_match(pattern@, ms@[i].path@) == Some(view_terms(ms@[i].refs@)),
                forall|b: Seq<u8>| #[trigger] s0.contains(b) && path_match(pattern@, b) is Some
                    ==> exists|i: int| 0 <= i < ms@.len() && ms@[i].path@ == b,
                self.view() == s0.union(Set::new(|o: Seq<u8>| fits && exists|i: int| 0 <= i < k && o == encode(subst(template@, view_terms(#[trigger] ms@[i].refs@))))),
            decreases ms@.len() - k,
        {
            let ghost refs = view_terms(ms@[k as int].refs@);
            proof {
                let b = ms@[k as int].path@;
                lemma_parse_list_shape(b, 0, 1);
                let e = decoded(b)->Some_0;
                assert(all_wf(Seq::<SExpr>::empty()));
                lemma_pmatch_shape(pattern@, e, seq![]);
                lemma_view_terms(ms@[k as int].refs@);
            }
            let ghost before = self.view();
            if check_template(template, ms[k].refs.len()) {
                let out = subst_term(template, &ms[k].refs);
                proof { lemma_subst_span(template@, refs); }
                self.insert_expr(&out);
            }
            proof {
                assert(self.view() =~= s0.union(Set::new(|o: Seq<u8>| fits && exists|i: int| 0 <= i < k + 1 && o == encode(subst(template@, view_terms(#[trigger] ms@[i].refs@)))))) by {
                    assert forall|o: Seq<u8>| (fits && exists|i: int| 0 <= i < k + 1 && o == encode(subst(template@, view_terms(#[trigger] ms@[i].refs@))))
                        implies self.view().contains(o) by {
                        let i = choose|i: int| 0 <= i < k + 1 && o == encode(subst(template@, view_terms(#[trigger] ms@[i].refs@)));
                        if i < k {
                            assert(before.contains(o));
                        }
                    }
                }
            }
            k = k + 1;
        }
        proof {
            if fits {
                assert(self.view() =~= s0.union(transform_outputs(s0, pattern@, template@))) by {
                    assert forall|o: Seq<u8>| #[trigger] transform_outputs(s0, pattern@, template@).contains(o) implies self.view().contains(o) by {
                        let b = choose|b: Seq<u8>| #[trigger] s0.contains(b) && path_match(pattern@, b) is Some && o == encode(subst(template@, path_match(pattern@, b)->Some_0));
                        let i = choose|i: int| 0 <= i < ms@.len() && ms@[i].path@ == b;
                        assert(o == encode(subst(template@, view_terms(ms@[i].refs@))));
                    }
                    assert forall|o: Seq<u8>| self.view().contains(o) && !s0.contains(o) implies #[trigger] transform_outputs(s0, pattern@, template@).contains(o) by {
                        let i = choose|i: int| 0 <= i < ms@.len() && o == encode(subst(template@, view_terms(#[trigger] ms@[i].refs@)));
                        assert(s0.contains(ms@[i].path@));
                    }
                }
            } else {
                assert(self.view() =~= s0);
            }
        }
    }
}

impl Space {
    fn copy_terms(ts: &Vec<Term>) -> (r: Vec<Term>)
        ensures
            view_terms(r@) == view_terms(ts@),
    {
        let mut out: Vec<Term> = Vec::new();
        let mut k: usize = 0;
        proof { lemma_view_terms(ts@); }
        while k < ts.len()
            invariant
                k <= ts@.len(),
                out@.len() == k,
                forall|i: int| 0 <= i < k ==> #[trigger] out@[i]@ == ts@[i]@,
            decreases ts@.len() - k,
        {
            out.push(ts[k].copy());
            k = k + 1;
        }
        proof {
            lemma_view_terms(out@);
            lemma_view_terms(ts@);
            assert forall|i: int| 0 <= i < ts@.len() implies view_terms(out@)[i] == view_terms(ts@)[i] by {
                assert(out@[i]@ == ts@[i]@);
            }
            assert(view_terms(out@) =~= view_terms(ts@));
        }
        out
    }

    /// Appends to `out` the captures of every way to match the patterns
    /// `ps[k..]`, one path each, starting from `env`.
    fn collect(&self, paths: &Vec<Vec<u8>>, ps: &Vec<Term>, k: usize, env: &Vec<Term>, out: &mut Vec<Vec<Term>>)
        requires
            self.wf(),
            k <= ps@.len(),
            forall|i: int| 0 <= i < paths@.len() ==> self.view().contains(#[trigger] paths@[i]@),
            forall|b: Seq<u8>| #[trigger] self.view().contains(b) ==> exists|i: int| 0 <= i < paths@.len() && paths@[i]@ == b,
        ensures
            final(out)@.len() >= old(out)@.len(),
            forall|i: int| 0 <= i < old(out)@.len() ==> #[trigger] final(out)@[i] == old(out)@[i],
            Set::new(|e2: Seq<SExpr>| exists|i: int| old(out)@.len() <= i < final(out)@.len() && e2 == view_terms(#[trigger] final(out)@[i]@))
                == completions(self.view(), view_terms(ps@).subrange(k as int, ps@.len() as int), view_terms(env@)),
        decreases ps@.len() - k,
    {
        let ghost pv = view_terms(ps@).subrange(k as int, ps@.len() as int);
        let ghost s = self.view();
        proof { lemma_view_terms(ps@); }
        if k == ps.len() {
            let c = Self::copy_terms(env);
            out.push(c);
            proof {
                assert(pv =~= Seq::<SExpr>::empty());
                lemma_completions_empty(s, view_terms(env@));
                assert(Set::new(|e2: Seq<SExpr>| exists|i: int| old(out)@.len() <= i < out@.len() && e2 == view_terms(#[trigger] out@[i]@))
                    =~= Set::<Seq<SExpr>>::empty().insert(view_terms(env@))) by {
                    assert(out@[old(out)@.len() as int] == c);
                }
            }
            return;
        }
        proof {
            lemma_completions_step(s, pv, view_terms(env@));
            assert(pv[0] == ps@[k as int]@);
            assert(pv.drop_first() =~= view_terms(ps@).subrange(k + 1, ps@.len() as int));
        }
        let ghost start = out@.len();
        let k1 = k + 1;
        let mut j: usize = 0;
        while j < paths.len()
            invariant
                self.wf(),
                s == self.view(),
                k < ps@.len(),
                k1 == k + 1,
                pv == view_terms(ps@).subrange(k as int, ps@.len() as int),
                pv[0] == ps@[k as int]@,
                pv.drop_first() == view_terms(ps@).subrange(k + 1, ps@.len() as int),
                j <= paths@.len(),
                start == old(out)@.len(),
                out@.len() >= start,
                forall|i: int| 0 <= i < old(out)@.len() ==> #[trigger] out@[i] == old(out)@[i],
                forall|i: int| 0 <= i < paths@.len() ==> s.contains(#[trigger] paths@[i]@),
                forall|b: Seq<u8>| #[trigger] s.contains(b) ==> exists|i: int| 0 <= i < paths@.len() && paths@[i]@ == b,
                Set::new(|e2: Seq<SExpr>| exists|i: int| start <= i < out@.len() && e2 == view_terms(#[trigger] out@[i]@))
                    == Set::new(|e2: Seq<SExpr>| exists|i: int| 0 <= i < j && #[trigger] contribution(s, pv, view_terms(env@), paths@[i]@).contains(e2)),
            decreases paths@.len() - j,
        {
            let ghost mid = out@;
            let d = decode(paths[j].as_slice());
            match d {
                Some(t) => {
                    let mut env1 = Self::copy_terms(env);
                    if match_term(&ps[k], &t, &mut env1) {
                        self.collect(paths, ps, k1, &env1, out);
                    }
                },
                None => {},
            }
            proof {
                let c = contribution(s, pv, view_terms(env@), paths@[j as int]@);
                let lhs = Set::new(|e2: Seq<SExpr>| exists|i: int| start <= i < out@.len() && e2 == view_terms(#[trigger] out@[i]@));
                let rhs = Set::new(|e2: Seq<SExpr>| exists|i: int| 0 <= i < j + 1 && #[trigger] contribution(s, pv, view_terms(env@), paths@[i]@).contains(e2));
                let added = Set::new(|e2: Seq<SExpr>| exists|i: int| mid.len() <= i < out@.len() && e2 == view_terms(#[trigger] out@[i]@));
                let prev = Set::new(|e2: Seq<SExpr>| exists|i: int| start <= i < mid.len() && e2 == view_terms(#[trigger] mid[i]@));
                assert(added == c) by {
                    if !(added =~= Set::<Seq<SExpr>>::empty()) {
                    }
                    assert(added =~= c);
                }
                assert forall|e2: Seq<SExpr>| lhs.contains(e2) <==> (prev.contains(e2) || added.contains(e2)) by {
                    if lhs.contains(e2) {
                        let i = choose|i: int| start <= i < out@.len() && e2 == view_terms(#[trigger] out@[i]@);
                        if i < mid.len() {
                            assert(out@[i] == mid[i]);
                        }
                    }
                    if prev.contains(e2) {
                        let i = choose|i: int| start <= i < mid.len() && e2 == view_terms(#[trigger] mid[i]@);
                        assert(out@[i] == mid[i]);
                    }
                }
                assert forall|e2: Seq<SExpr>| rhs.contains(e2) <==> (prev.contains(e2) || c.contains(e2)) by {
                    if rhs.contains(e2) {
                        let i = choose|i: int| 0 <= i < j + 1 && #[trigger] contribution(s, pv, view_terms(env@), paths@[i]@).contains(e2);
                        if i < j {
                            assert(exists|i: int| 0 <= i < j && #[trigger] contribution(s, pv, view_terms(env@), paths@[i]@).contains(e2));
                        }
                    }
                    if prev.contains(e2) {
                        assert(exists|i: int| 0 <= i < j && #[trigger] contribution(s, pv, view_terms(env@), paths@[i]@).contains(e2));
                    }
                }
                assert(lhs =~= rhs);
            }
            j = j + 1;
        }
        proof {
            let full = Set::new(|e2: Seq<SExpr>| exists|b: Seq<u8>| s.contains(b) && #[trigger] contribution(s, pv, view_terms(env@), b).contains(e2));
            let got = Set::new(|e2: Seq<SExpr>| exists|i: int| 0 <= i < paths@.len() && #[trigger] contribution(s, pv, view_terms(env@), paths@[i]@).contains(e2));
            assert forall|e2: Seq<SExpr>| full.contains(e2) implies got.contains(e2) by {
                let b = choose|b: Seq<u8>| s.contains(b) && #[trigger] contribution(s, pv, view_terms(env@), b).contains(e2);
                let i = choose|i: int| 0 <= i < paths@.len() && paths@[i]@ == b;
                assert(contribution(s, pv, view_terms(env@), paths@[i]@).contains(e2));
            }
            assert forall|e2: Seq<SExpr>| got.contains(e2) implies full.contains(e2) by {
                let i = choose|i: int| 0 <= i < paths@.len() && #[trigger] contribution(s, pv, view_terms(env@), paths@[i]@).contains(e2);
                assert(s.contains(paths@[i]@));
            }
            assert(full =~= got);
        }
    }
}

/// The paths that transforming `s` by the conjunction of patterns `ps` into
/// the templates `ts` writes: each template that fits, instantiated with the
/// captures of each way to match the patterns.
pub open spec fn multi_outputs(s: Set<Seq<u8>>, ps: Seq<SExpr>, ts: Seq<SExpr>) -> Set<Seq<u8>> {
    Set::new(|o: Seq<u8>| exists|e2: Seq<SExpr>, j: int| #[trigger] completions(s, ps, seq![]).contains(e2) && 0 <= j < ts.len()
        && template_ok(ts[j], e2.len()) && o == encode(subst(#[trigger] ts[j], e2)))
}

proof fn lemma_multi_match_wf(ps: Seq<SExpr>, bs: Seq<Seq<u8>>, env: Seq<SExpr>)
    requires
        all_wf(env),
    ensures
        multi_match(ps, bs, env) matches Some(e2) ==> all_wf(e2),
    decreases ps.len(),
{
    if ps.len() > 0 && bs.len() > 0 {
        lemma_parse_list_shape(bs[0], 0, 1);
        match decoded(bs[0]) {
            Some(e) => {
                lemma_pmatch_shape(ps[0], e, env);
                match pmatch(ps[0], e, env) {
                    Some(e1) => lemma_multi_match_wf(ps.drop_first(), bs.drop_first(), e1),
                    None => {},
                }
            },
            None => {},
        }
    }
}

impl Space {
    /// One rewriting pass: for every way to match the patterns, one path
    /// each and in turn, writes each template that fits, instantiated with
    /// the captures. A template fits where every capture it names exists.
    pub fn transform_multi_multi(&mut self, patterns: &Vec<Term>, templates: &Vec<Term>)
        requires
            old(self).wf(),
            forall|j: int| 0 <= j < templates@.len() ==> wf(#[trigger] templates@[j]@),
        ensures
            final(self).wf(),
            final(self).view() == old(self).view().union(
                multi_outputs(old(self).view(), view_terms(patterns@), view_terms(templates@)),
            ),
    {
        let paths = self.paths();
        let mut envs: Vec<Vec<Term>> = Vec::new();
        let env0: Vec<Term> = Vec::new();
        proof {
            lemma_view_terms(env0@);
            assert(view_terms(env0@) =~= Seq::<SExpr>::empty());
            assert(view_terms(patterns@).subrange(0, patterns@.len() as int) =~= view_terms(patterns@)) by {
                lemma_view_terms(patterns@);
            }
        }
        self.collect(&paths, patterns, 0, &env0, &mut envs);
        let ghost s0 = self.view();
        let ghost pv = view_terms(patterns@);
        let ghost tv = view_terms(templates@);
        proof { lemma_view_terms(templates@); }
        let mut i: usize = 0;
        while i < envs.len()
            invariant
                self.wf(),
                s0 == old(self).view(),
                pv == view_terms(patterns@),
                tv == view_terms(templates@),
                tv.len() == templates@.len(),
                forall|j: int| 0 <= j < templates@.len() ==> #[trigger] tv[j] == templates@[j]@,
                forall|j: int| 0 <= j < templates@.len() ==> wf(#[trigger] templates@[j]@),
                i <= envs@.len(),
                Set::new(|e2: Seq<SExpr>| exists|x: int| 0 <= x < envs@.len() && e2 == view_terms(#[trigger] envs@[x]@))
                    == completions(s0, pv, seq![]),
                self.view() == s0.union(Set::new(|o: Seq<u8>| exists|x: int, j: int| 0 <= x < i && 0 <= j < tv.len()
                    && template_ok(tv[j], view_terms(envs@[x]@).len()) && o == encode(subst(#[trigger] tv[j], view_terms(#[trigger] envs@[x]@))))),
            decreases envs@.len() - i,
        {
            proof {
                let e2 = view_terms(envs@[i as int]@);
                assert(completions(s0, pv, seq![]).contains(e2));
                let bs = choose|bs: Seq<Seq<u8>>| #[trigger] multi_match(pv, bs, seq![]) == Some(e2)
                    && bs.len() == pv.len() && (forall|q: int| 0 <= q < bs.len() ==> s0.contains(#[trigger] bs[q]));
                assert(all_wf(Seq::<SExpr>::empty()));
                lemma_multi_match_wf(pv, bs, seq![]);
                lemma_view_terms(envs@[i as int]@);
            }
            let mut j: usize = 0;
            while j < templates.len()
                invariant
                    self.wf(),
                    s0 == old(self).view(),
                    tv == view_terms(templates@),
                    tv.len() == templates@.len(),
                    forall|q: int| 0 <= q < templates@.len() ==> #[trigger] tv[q] == templates@[q]@,
                    forall|q: int| 0 <= q < templates@.len() ==> wf(#[trigger] templates@[q]@),
                    i < envs@.len(),
                    j <= templates@.len(),
                    all_wf(view_terms(envs@[i as int]@)),
                    view_terms(envs@[i as int]@).len() == envs@[i as int]@.len(),
                    self.view() == s0.union(Set::new(|o: Seq<u8>| exists|x: int, q: int| 0 <= x < i && 0 <= q < tv.len()
                        && template_ok(tv[q], view_terms(envs@[x]@).len()) && o == encode(subst(#[trigger] tv[q], view_terms(#[trigger] envs@[x]@)))))
                        .union(Set::new(|o: Seq<u8>| exists|q: int| 0 <= q < j
                        && template_ok(tv[q], view_terms(envs@[i as int]@).len()) && o == encode(subst(#[trigger] tv[q], view_terms(envs@[i as int]@))))),
                decreases templates@.len() - j,
            {
                let ghost before = self.view();
                let ghost newp = encode(subst(tv[j as int], view_terms(envs@[i as int]@)));
                assert(tv[j as int] == templates@[j as int]@);
                if check_template(&templates[j], envs[i].len()) {
                    let out = subst_term(&templates[j], &envs[i]);
                    proof { lemma_subst_span(templates@[j as int]@, view_terms(envs@[i as int]@)); }
                    self.insert_expr(&out);
                    assert(self.view() == before.insert(newp));
                    assert(template_ok(tv[j as int], view_terms(envs@[i as int]@).len()));
                } else {
                    assert(!template_ok(tv[j as int], view_terms(envs@[i as int]@).len()));
                }
                proof {
                    let e2 = view_terms(envs@[i as int]@);
                    let a = Set::new(|o: Seq<u8>| exists|x: int, q: int| 0 <= x < i && 0 <= q < tv.len()
                        && template_ok(tv[q], view_terms(envs@[x]@).len()) && o == encode(subst(#[trigger] tv[q], view_terms(#[trigger] envs@[x]@))));
                    let b0 = Set::new(|o: Seq<u8>| exists|q: int| 0 <= q < j
                        && template_ok(tv[q], e2.len()) && o == encode(subst(#[trigger] tv[q], e2)));
                    let b1 = Set::new(|o: Seq<u8>| exists|q: int| 0 <= q < j + 1
                        && template_ok(tv[q], e2.len()) && o == encode(subst(#[trigger] tv[q], e2)));
                    assert forall|o: Seq<u8>| b1.contains(o) implies self.view().contains(o) by {
                        let q = choose|q: int| 0 <= q < j + 1 && template_ok(tv[q], e2.len()) && o == encode(subst(#[trigger] tv[q], e2));
                        if q < j {
                            assert(b0.contains(o));
                        }
                    }
                    assert forall|o: Seq<u8>| b0.contains(o) implies b1.contains(o) by {
                        let q = choose|q: int| 0 <= q < j && template_ok(tv[q], e2.len()) && o == encode(subst(#[trigger] tv[q], e2));
                        assert(0 <= q < j + 1);
                    }
                    assert(before == s0.union(a).union(b0));
                    if template_ok(tv[j as int], e2.len()) {
                        assert(b1.contains(newp));
                    }
                    assert forall|o: Seq<u8>| b1.contains(o) && !b0.contains(o) implies o == newp by {
                        let q = choose|q: int| 0 <= q < j + 1 && template_ok(tv[q], e2.len()) && o == encode(subst(#[trigger] tv[q], e2));
                        if q < j {
                            assert(b0.contains(o));
                        }
                    }
                    assert(self.view() =~= s0.union(a).union(b1));
                }
                j = j + 1;
            }
            proof {
                let e2 = view_terms(envs@[i as int]@);
                let a = Set::new(|o: Seq<u8>| exists|x: int, q: int| 0 <= x < i && 0 <= q < tv.len()
                    && template_ok(tv[q], view_terms(envs@[x]@).len()) && o == encode(subst(#[trigger] tv[q], view_terms(#[trigger] envs@[x]@))));
                let a1 = Set::new(|o: Seq<u8>| exists|x: int, q: int| 0 <= x < i + 1 && 0 <= q < tv.len()
                    && template_ok(tv[q], view_terms(envs@[x]@).len()) && o == encode(subst(#[trigger] tv[q], view_terms(#[trigger] envs@[x]@))));
                let b = Set::new(|o: Seq<u8>| exists|q: int| 0 <= q < tv.len()
                    && template_ok(tv[q], e2.len()) && o == encode(subst(#[trigger] tv[q], e2)));
                assert forall|o: Seq<u8>| a1.contains(o) <==> (a.contains(o) || b.contains(o)) by {
                    if a1.contains(o) {
                        let (x, q) = choose|x: int, q: int| 0 <= x < i + 1 && 0 <= q < tv.len()
                            && template_ok(tv[q], view_terms(envs@[x]@).len()) && o == encode(subst(#[trigger] tv[q], view_terms(#[trigger] envs@[x]@)));
                        if x < i {
                            assert(a.contains(o));
                        } else {
                            assert(b.contains(o));
                        }
                    }
                    if a.contains(o) {
                        let (x, q) = choose|x: int, q: int| 0 <= x < i && 0 <= q < tv.len()
                            && template_ok(tv[q], view_terms(envs@[x]@).len()) && o == encode(subst(#[trigger] tv[q], view_terms(#[trigger] envs@[x]@)));
                        assert(a1.contains(o));
                    }
                    if b.contains(o) {
                        let q = choose|q: int| 0 <= q < tv.len() && template_ok(tv[q], e2.len()) && o == encode(subst(#[trigger] tv[q], e2));
                        assert(a1.contains(o));
                    }
                }
                assert(self.view() =~= s0.union(a1));
            }
            i = i + 1;
        }
        proof {
            let got = Set::new(|o: Seq<u8>| exists|x: int, q: int| 0 <= x < envs@.len() && 0 <= q < tv.len()
                && template_ok(tv[q], view_terms(envs@[x]@).len()) && o == encode(subst(#[trigger] tv[q], view_terms(#[trigger] envs@[x]@))));
            let want = multi_outputs(s0, pv, tv);
            let comp = Set::new(|e2: Seq<SExpr>| exists|x: int| 0 <= x < envs@.len() && e2 == view_terms(#[trigger] envs@[x]@));
            assert forall|o: Seq<u8>| got.contains(o) implies want.contains(o) by {
                let (x, q) = choose|x: int, q: int| 0 <= x < envs@.len() && 0 <= q < tv.len()
                    && template_ok(tv[q], view_terms(envs@[x]@).len()) && o == encode(subst(#[trigger] tv[q], view_terms(#[trigger] envs@[x]@)));
                assert(comp.contains(view_terms(envs@[x]@)));
                assert(completions(s0, pv, seq![]).contains(view_terms(envs@[x]@)));
            }
            assert forall|o: Seq<u8>| want.contains(o) implies got.contains(o) by {
                let (e2, q) = choose|e2: Seq<SExpr>, q: int| #[trigger] completions(s0, pv, seq![]).contains(e2) && 0 <= q < tv.len()
                    && template_ok(tv[q], e2.len()) && o == encode(subst(#[trigger] tv[q], e2));
                assert(comp.contains(e2));
                let x = choose|x: int| 0 <= x < envs@.len() && e2 == view_terms(#[trigger] envs@[x]@);
                assert(got.contains(o));
            }
            assert(self.view() =~= s0.union(want));
        }
    }
}

/// The members after the head `,` of a conjunction `(, x1 .. xn)`.
pub open spec fn conjunction(e: SExpr) -> Option<Seq<SExpr>> {
    match e {
        SExpr::Compound(xs) => if xs.len() >= 1 && xs[0] == SExpr::Symbol(seq![44u8]) {
            Some(xs.drop_first())
        } else {
            None
        },
        _ => None,
    }
}

/// The patterns and templates of a rule `(exec tag (, pattern ..) (, template ..))`.
pub open spec fn rule_parts(e: SExpr) -> Option<(Seq<SExpr>, Seq<SExpr>)> {
    match e {
        SExpr::Compound(xs) => if xs.len() == 4 && xs[0] == SExpr::Symbol(seq![101u8, 120u8, 101u8, 99u8])
            && conjunction(xs[2]) is Some && conjunction(xs[3]) is Some {
            Some((conjunction(xs[2])->Some_0, conjunction(xs[3])->Some_0))
        } else {
            None
        },
        _ => None,
    }
}

pub open spec fn rule_of_path(b: Seq<u8>) -> Option<(Seq<SExpr>, Seq<SExpr>)> {
    match decoded(b) {
        Some(e) => rule_parts(e),
        None => None,
    }
}

/// The space after firing the rule at path `b`: the rule is taken out,
/// then its patterns are matched and its templates written.
pub open spec fn fire_rule(s: Set<Seq<u8>>, b: Seq<u8>) -> Set<Seq<u8>> {
    let rest = s.remove(b);
    let parts = rule_of_path(b)->Some_0;
    rest.union(multi_outputs(rest, parts.0, parts.1))
}

/// The members of `xs` after the first, copied.
fn tail_terms(xs: &Vec<Term>) -> (r: Vec<Term>)
    requires
        xs@.len() >= 1,
    ensures
        view_terms(r@) == view_terms(xs@).drop_first(),
        forall|i: int| 0 <= i < r@.len() ==> #[trigger] r@[i]@ == xs@[i + 1]@,
{
    let mut out: Vec<Term> = Vec::new();
    let mut k: usize = 1;
    proof { lemma_view_terms(xs@); }
    while k < xs.len()
        invariant
            1 <= k <= xs@.len(),
            out@.len() == k - 1,
            forall|i: int| 0 <= i < k - 1 ==> #[trigger] out@[i]@ == xs@[i + 1]@,
        decreases xs@.len() - k,
    {
        out.push(xs[k].copy());
        k = k + 1;
    }
    proof {
        lemma_view_terms(out@);
        lemma_view_terms(xs@);
        assert forall|i: int| 0 <= i < out@.len() implies view_terms(out@)[i] == view_terms(xs@).drop_first()[i] by {
            assert(out@[i]@ == xs@[i + 1]@);
        }
        assert(view_terms(out@) =~= view_terms(xs@).drop_first());
    }
    out
}

fn conjunction_of(t: &Term) -> (r: Option<Vec<Term>>)
    ensures
        r matches Some(v) ==> conjunction(t@) == Some(view_terms(v@)),
        r is None ==> conjunction(t@) is None,
{
    match t {
        Term::Compound(xs) => {
            proof { lemma_view_terms(xs@); }
            if xs.len() >= 1 {
                let head_ok = match &xs[0] {
                    Term::Symbol(s) => s.len() == 1 && s[0] == 44u8,
                    _ => false,
                };
                proof {
                    if head_ok {
                        assert(xs@[0]@ == SExpr::Symbol(seq![44u8])) by {
                            let s = xs@[0]->Symbol_0;
                            assert(s@ =~= seq![44u8]);
                        }
                    }
                    if xs@[0]@ == SExpr::Symbol(seq![44u8]) {
                        assert(xs@[0] is Symbol);
                        assert(xs@[0]->Symbol_0@ == seq![44u8]);
                    }
                }
                if head_ok {
                    Some(tail_terms(xs))
                } else {
                    None
                }
            } else {
                None
            }
        },
        _ => None,
    }
}

fn rule_of(t: &Term) -> (r: Option<(Vec<Term>, Vec<Term>)>)
    ensures
        r matches Some((ps, ts)) ==> rule_parts(t@) == Some((view_terms(ps@), view_terms(ts@))),
        r is None ==> rule_parts(t@) is None,
{
    match t {
        Term::Compound(xs) => {
            proof { lemma_view_terms(xs@); }
            if xs.len() != 4 {
                return None;
            }
            let head_ok = match &xs[0] {
                Term::Symbol(s) => s.len() == 4 && s[0] == 101u8 && s[1] == 120u8 && s[2] == 101u8 && s[3] == 99u8,
                _ => false,
            };
            let ghost exec_sym = SExpr::Symbol(seq![101u8, 120u8, 101u8, 99u8]);
            proof {
                if head_ok {
                    let s = xs@[0]->Symbol_0;
                    assert(s@ =~= seq![101u8, 120u8, 101u8, 99u8]);
                }
                if xs@[0]@ == exec_sym {
                    assert(xs@[0] is Symbol);
                    assert(xs@[0]->Symbol_0@ == seq![101u8, 120u8, 101u8, 99u8]);
                }
            }
            if !head_ok {
                return None;
            }
            match conjunction_of(&xs[2]) {
                Some(ps) => match conjunction_of(&xs[3]) {
                    Some(ts) => Some((ps, ts)),
                    None => None,
                },
                None => None,
            }
        },
        _ => None,
    }
}

impl Space {
    /// One step of the rule calculus: the rule `(exec tag (, p..) (, t..))`
    /// whose path comes first in byte order is taken out of the space, and
    /// its patterns and templates are run as one multi-pattern transform.
    /// Returns whether a rule was found.
    pub fn metta_calculus(&mut self) -> (r: bool)
        requires
            old(self).wf(),
        ensures
            final(self).wf(),
            r == exists|b: Seq<u8>| old(self).view().contains(b) && #[trigger] rule_of_path(b) is Some,
            !r ==> final(self).view() == old(self).view(),
            r ==> exists|b: Seq<u8>| #[trigger] old(self).view().contains(b) && rule_of_path(b) is Some
                && (forall|c: Seq<u8>| old(self).view().contains(c) && #[trigger] rule_of_path(c) is Some ==> c == b || lex_lt(b, c))
                && final(self).view() == fire_rule(old(self).view(), b),
    {
        let ps = self.paths();
        let mut k: usize = 0;
        while k < ps.len()
            invariant
                self.wf(),
                self.view() == old(self).view(),
                k <= ps@.len(),
                forall|i: int, j: int| 0 <= i < j < ps@.len() ==> lex_lt(#[trigger] ps@[i]@, #[trigger] ps@[j]@),
                forall|i: int| 0 <= i < ps@.len() ==> self.view().contains(#[trigger] ps@[i]@),
                forall|b: Seq<u8>| #[trigger] self.view().contains(b) ==> exists|i: int| 0 <= i < ps@.len() && ps@[i]@ == b,
                forall|i: int| 0 <= i < k ==> rule_of_path(#[trigger] ps@[i]@) is None,
            decreases ps@.len() - k,
        {
            match decode(ps[k].as_slice()) {
                Some(t) => {
                    match rule_of(&t) {
                        Some((pats, temps)) => {
                            let ghost b = ps@[k as int]@;
                            proof {
                                crate::encoding::lemma_parse_list_shape(b, 0, 1);
                                let xs = t@->Compound_0;
                                crate::encoding::lemma_wf_list(xs);
                                crate::encoding::lemma_wf_list(view_terms(temps@));
                                assert(wf(xs[3]));
                                crate::encoding::lemma_wf_list(xs[3]->Compound_0);
                                lemma_view_terms(temps@);
                                assert forall|j: int| 0 <= j < temps@.len() implies wf(#[trigger] temps@[j]@) by {
                                    assert(view_terms(temps@)[j] == xs[3]->Compound_0[j + 1]);
                                }
                                assert forall|c: Seq<u8>| old(self).view().contains(c) && #[trigger] rule_of_path(c) is Some implies c == b || lex_lt(b, c) by {
                                    let i = choose|i: int| 0 <= i < ps@.len() && ps@[i]@ == c;
                                    if i > k {
                                        assert(lex_lt(ps@[k as int]@, ps@[i]@));
                                    }
                                }
                            }
                            self.remove(ps[k].as_slice());
                            self.transform_multi_multi(&pats, &temps);
                            return true;
                        },
                        None => {},
                    }
                },
                None => {},
            }
            k = k + 1;
        }
        proof {
            assert forall|b: Seq<u8>| old(self).view().contains(b) implies #[trigger] rule_of_path(b) is None by {
                let i = choose|i: int| 0 <= i < ps@.len() && ps@[i]@ == b;
            }
        }
        false
    }
}

impl Space {
    /// The space whose paths are `paths`, repeats counting once.
    pub fn from_paths(paths: &Vec<Vec<u8>>) -> (r: Space)
        ensures
            r.wf(),
            r.view() == paths@.map_values(|p: Vec<u8>| p@).to_set(),
    {
        let ghost ps = paths@.map_values(|p: Vec<u8>| p@);
        let mut s = Space::new();
        let mut k: usize = 0;
        assert(ps.take(0).to_set() =~= Set::<Seq<u8>>::empty());
        while k < paths.len()
            invariant
                s.wf(),
                ps == paths@.map_values(|p: Vec<u8>| p@),
                k <= paths@.len(),
                s.view() == ps.take(k as int).to_set(),
            decreases paths@.len() - k,
        {
            s.insert(paths[k].as_slice());
            proof {
                assert(ps.take(k + 1) =~= ps.take(k as int).push(ps[k as int]));
                assert(ps.take(k + 1).to_set() =~= ps.take(k as int).to_set().insert(ps[k as int])) by {
                    assert forall|x: Seq<u8>| #[trigger] ps.take(k + 1).contains(x) implies ps.take(k as int).contains(x) || x == ps[k as int] by {
                        let j = choose|j: int| 0 <= j < k + 1 && #[trigger] ps.take(k + 1)[j] == x;
                        if j < k {
                            assert(ps.take(k as int)[j] == x);
                        }
                    }
                    assert forall|x: Seq<u8>| ps.take(k as int).contains(x) implies #[trigger] ps.take(k + 1).contains(x) by {
                        let j = choose|j: int| 0 <= j < k && #[trigger] ps.take(k as int)[j] == x;
                        assert(ps.take(k + 1)[j] == x);
                    }
                    assert(ps.take(k + 1)[k as int] == ps[k as int]);
                }
            }
            k = k + 1;
        }
        assert(ps.take(k as int) =~= ps);
        s
    }
}

/// Dumping a space as its list of paths and loading that list back gives
/// the same space: the set of the listed paths is the space's path set.
pub proof fn lemma_paths_round_trip(s: Set<Seq<u8>>, listed: Seq<Vec<u8>>)
    requires
        forall|i: int| 0 <= i < listed.len() ==> s.contains(#[trigger] listed[i]@),
        forall|b: Seq<u8>| #[trigger] s.contains(b) ==> exists|i: int| 0 <= i < listed.len() && listed[i]@ == b,
    ensures
        listed.map_values(|p: Vec<u8>| p@).to_set() == s,
{
    let ps = listed.map_values(|p: Vec<u8>| p@);
    assert forall|b: Seq<u8>| #[trigger] ps.contains(b) implies s.contains(b) by {
        let j = choose|j: int| 0 <= j < ps.len() && ps[j] == b;
        assert(listed[j]@ == b);
    }
    assert forall|b: Seq<u8>| s.contains(b) implies #[trigger] ps.contains(b) by {
        let i = choose|i: int| 0 <= i < listed.len() && listed[i]@ == b;
        assert(ps[i] == b);
    }
    assert(ps.to_set() =~= s);
}

/// What loading expression `e` writes: `t` instantiated with what `p`
/// captured from `e`, where `e` matches and `t` fits.
pub open spec fn load_output(e: SExpr, p: SExpr, t: SExpr) -> Option<Seq<u8>> {
    match pmatch(p, e, seq![]) {
        Some(env) => if template_ok(t, env.len()) { Some(encode(subst(t, env))) } else { None },
        None => None,
    }
}

/// How many of `es` write a path.
pub open spec fn load_count(es: Seq<SExpr>, p: SExpr, t: SExpr) -> nat
    decreases es.len(),
{
    if es.len() == 0 {
        0
    } else {
        load_count(es.drop_last(), p, t) + if load_output(es.last(), p, t) is Some { 1nat } else { 0nat }
    }
}

impl Space {
    /// Loads expressions: each is matched against `pattern`, and `template`
    /// instantiated with the captures is written. Returns how many wrote a
    /// path.
    pub fn load_exprs(&mut self, exprs: &Vec<Term>, pattern: &Term, template: &Term) -> (r: usize)
        requires
            old(self).wf(),
            wf(template@),
            forall|i: int| 0 <= i < exprs@.len() ==> wf(#[trigger] exprs@[i]@),
        ensures
            final(self).wf(),
            final(self).view() == old(self).view().union(Set::new(|o: Seq<u8>| exists|i: int| 0 <= i < exprs@.len()
                && #[trigger] load_output(exprs@[i]@, pattern@, template@) == Some(o))),
            r as nat == load_count(view_terms(exprs@), pattern@, template@),
    {
        let ghost ev = view_terms(exprs@);
        proof { lemma_view_terms(exprs@); }
        let ghost s0 = self.view();
        let mut count: usize = 0;
        let mut k: usize = 0;
        assert(ev.take(0) =~= Seq::<SExpr>::empty());
        while k < exprs.len()
            invariant
                self.wf(),
                wf(template@),
                s0 == old(self).view(),
                ev == view_terms(exprs@),
                ev.len() == exprs@.len(),
                forall|i: int| 0 <= i < exprs@.len() ==> #[trigger] ev[i] == exprs@[i]@,
                forall|i: int| 0 <= i < exprs@.len() ==> wf(#[trigger] exprs@[i]@),
                k <= exprs@.len(),
                count <= k,
                count as nat == load_count(ev.take(k as int), pattern@, template@),
                self.view() == s0.union(Set::new(|o: Seq<u8>| exists|i: int| 0 <= i < k
                    && #[trigger] load_output(exprs@[i]@, pattern@, template@) == Some(o))),
            decreases exprs@.len() - k,
        {
            let ghost before = self.view();
            let ghost out_k = load_output(exprs@[k as int]@, pattern@, template@);
            let mut wrote = false;
            let mut env: Vec<Term> = Vec::new();
            proof {
                lemma_view_terms(env@);
                assert(view_terms(env@) =~= Seq::<SExpr>::empty());
            }
            if match_term(pattern, &exprs[k], &mut env) {
                proof {
                    assert(all_wf(Seq::<SExpr>::empty()));
                    lemma_pmatch_shape(pattern@, exprs@[k as int]@, seq![]);
                    lemma_view_terms(env@);
                }
                if check_template(template, env.len()) {
                    let out = subst_term(template, &env);
                    proof { lemma_subst_span(template@, view_terms(env@)); }
                    self.insert_expr(&out);
                    wrote = true;
                }
            }
            proof {
                assert(wrote == out_k is Some);
                assert(ev.take(k + 1).drop_last() =~= ev.take(k as int));
                assert(ev.take(k + 1).last() == ev[k as int]);
                let a = Set::new(|o: Seq<u8>| exists|i: int| 0 <= i < k && #[trigger] load_output(exprs@[i]@, pattern@, template@) == Some(o));
                let a1 = Set::new(|o: Seq<u8>| exists|i: int| 0 <= i < k + 1 && #[trigger] load_output(exprs@[i]@, pattern@, template@) == Some(o));
                assert forall|o: Seq<u8>| a1.contains(o) <==> (a.contains(o) || out_k == Some(o)) by {
                    if a1.contains(o) {
                        let i = choose|i: int| 0 <= i < k + 1 && #[trigger] load_output(exprs@[i]@, pattern@, template@) == Some(o);
                        if i < k {
                            assert(a.contains(o));
                        }
                    }
                    if a.contains(o) {
                        let i = choose|i: int| 0 <= i < k && #[trigger] load_output(exprs@[i]@, pattern@, template@) == Some(o);
                        assert(a1.contains(o));
                    }
                }
                assert(self.view() =~= s0.union(a1));
            }
            if wrote {
                count = count + 1;
            }
            k = k + 1;
        }
        assert(ev.take(k as int) =~= ev);
        count
    }
}

/// Inserting a path twice leaves the space as inserting it once, and the
/// size of a space is the number of its distinct paths.
pub proof fn lemma_insert_idempotent(s: Set<Seq<u8>>, b: Seq<u8>)
    requires
        s.finite(),
    ensures
        s.insert(b).insert(b) == s.insert(b),
        s.contains(b) ==> s.insert(b).len() == s.len(),
        !s.contains(b) ==> s.insert(b).len() == s.len() + 1,
{
    assert(s.insert(b).insert(b) =~= s.insert(b));
    if s.contains(b) {
        assert(s.insert(b) =~= s);
    }
}

/// Union, intersection and difference of spaces are those of their path
/// sets: a path is in the result exactly when set membership says so.
pub proof fn lemma_set_operations(a: Set<Seq<u8>>, b: Set<Seq<u8>>, p: Seq<u8>)
    ensures
        a.union(b).contains(p) <==> (a.contains(p) || b.contains(p)),
        a.intersect(b).contains(p) <==> (a.contains(p) && b.contains(p)),
        a.difference(b).contains(p) <==> (a.contains(p) && !b.contains(p)),
        a.union(b) == b.union(a),
        a.intersect(b) == b.intersect(a),
{
    assert(a.union(b) =~= b.union(a));
    assert(a.intersect(b) =~= b.intersect(a));
}

} // verus!
