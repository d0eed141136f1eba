use vstd::prelude::*;
use crate::encoding::{SExpr, Term, encode, view_terms, view_term, lemma_view_terms, wf, wf_list, lemma_wf_list, copy_range};
use crate::matching::{pmatch, match_term, subst, subst_term, template_ok, check_template, all_wf, lemma_pmatch_shape, lemma_subst_span};
use crate::space::Space;

verus! {

/// The first position from `pos` on that holds `c`, or the end.
pub open spec fn find(b: Seq<u8>, c: u8, pos: int) -> int
    decreases b.len() - pos,
{
    if pos < 0 || pos >= b.len() {
        b.len() as int
    } else if b[pos] == c {
        pos
    } else {
        find(b, c, pos + 1)
    }
}

/// `b` cut at every `c`: one piece more than there are `c`s.
pub open spec fn split(b: Seq<u8>, c: u8) -> Seq<Seq<u8>>
    decreases b.len(),
{
    let i = find(b, c, 0);
    if 0 <= i < b.len() {
        seq![b.take(i)] + split(b.skip(i + 1), c)
    } else {
        seq![b]
    }
}

proof fn lemma_find_first(b: Seq<u8>, c: u8, p: int, q: int)
    requires
        0 <= p <= q <= b.len(),
        forall|t: int| p <= t < q ==> b[t] != c,
        q == b.len() || b[q] == c,
    ensures
        find(b, c, p) == q,
    decreases q - p,
{
    if p < q {
        lemma_find_first(b, c, p + 1, q);
    }
}

/// Cuts `b` at every `c`.
pub fn split_bytes(b: &[u8], c: u8) -> (r: Vec<Vec<u8>>)
    ensures
        r@.map_values(|v: Vec<u8>| v@) == split(b@, c),
{
    let mut out: Vec<Vec<u8>> = Vec::new();
    let mut start: usize = 0;
    assert(b@.skip(0) =~= b@);
    loop
        invariant
            start <= b@.len(),
            split(b@, c) == out@.map_values(|v: Vec<u8>| v@) + split(b@.skip(start as int), c),
        decreases b@.len() - start,
    {
        let mut j: usize = start;
        while j < b.len() && b[j] != c
            invariant
                start <= j <= b@.len(),
                forall|t: int| start <= t < j ==> b@[t] != c,
            decreases b@.len() - j,
        {
            j = j + 1;
        }
        let ghost rest = b@.skip(start as int);
        proof {
            lemma_find_first(rest, c, 0, j - start);
        }
        let piece = copy_range(b, start, j);
        let ghost before = out@.map_values(|v: Vec<u8>| v@);
        out.push(piece);
        assert(out@.map_values(|v: Vec<u8>| v@) =~= before.push(piece@));
        if j >= b.len() {
            assert(rest =~= piece@);
            assert(split(rest, c) == seq![rest]);
            assert(before + seq![rest] =~= before.push(piece@));
            return out;
        }
        proof {
            assert(rest.take(j - start) =~= piece@);
            assert(rest.skip(j - start + 1) =~= b@.skip(j + 1));
            assert(before + (seq![piece@] + split(b@.skip(j + 1), c)) =~= before.push(piece@) + split(b@.skip(j + 1), c));
        }
        start = j + 1;
    }
}

/// A field as a symbol of at most 63 bytes: longer fields are cut, which
/// loses their tail. An empty field, which no symbol can hold, becomes the
/// symbol `""`, the empty string as the text surface quotes it.
pub open spec fn field_expr(f: Seq<u8>) -> SExpr {
    if f.len() == 0 {
        SExpr::Symbol(seq![34u8, 34u8])
    } else if f.len() > 63 {
        SExpr::Symbol(f.take(63))
    } else {
        SExpr::Symbol(f)
    }
}

/// The expression of one CSV line: the compound of its fields; `None` for
/// an empty line or one of more than 63 fields.
pub open spec fn csv_row(line: Seq<u8>, sep: u8) -> Option<SExpr> {
    let fields = split(line, sep);
    if line.len() == 0 || fields.len() > 63 {
        None
    } else {
        Some(SExpr::Compound(fields.map_values(|f: Seq<u8>| field_expr(f))))
    }
}

/// What line `line` writes: the template instantiated with what the
/// pattern captured from its row, where the row matches and the template
/// fits.
pub open spec fn csv_output(line: Seq<u8>, sep: u8, p: SExpr, t: SExpr) -> Option<Seq<u8>> {
    match csv_row(line, sep) {
        Some(row) => match pmatch(p, row, seq![]) {
            Some(env) => if template_ok(t, env.len()) { Some(encode(subst(t, env))) } else { None },
            None => None,
        },
        None => None,
    }
}

/// How many of `lines` write a path.
pub open spec fn csv_count(lines: Seq<Seq<u8>>, sep: u8, p: SExpr, t: SExpr) -> nat
    decreases lines.len(),
{
    if lines.len() == 0 {
        0
    } else {
        csv_count(lines.drop_last(), sep, p, t) + if csv_output(lines.last(), sep, p, t) is Some { 1nat } else { 0nat }
    }
}

pub(crate) fn field_term(f: &Vec<u8>) -> (r: Term)
    ensures
        r@ == field_expr(f@),
        wf(r@),
{
    if f.len() == 0 {
        let mut q: Vec<u8> = Vec::new();
        q.push(34u8);
        q.push(34u8);
        assert(q@ =~= seq![34u8, 34u8]);
        Term::Symbol(q)
    } else if f.len() > 63 {
        let c = copy_range(f.as_slice(), 0, 63);
        assert(c@ =~= f@.take(63));
        Term::Symbol(c)
    } else {
        let c = copy_range(f.as_slice(), 0, f.len());
        assert(c@ =~= f@);
        Term::Symbol(c)
    }
}

fn row_term(line: &Vec<u8>, sep: u8) -> (r: Option<Term>)
    ensures
        r matches Some(t) ==> csv_row(line@, sep) == Some(t@) && wf(t@),
        r is None ==> csv_row(line@, sep) is None,
{
    if line.len() == 0 {
        return None;
    }
    let fields = split_bytes(line.as_slice(), sep);
    if fields.len() > 63 {
        return None;
    }
    let ghost fv = fields@.map_values(|v: Vec<u8>| v@);
    let mut cs: Vec<Term> = Vec::new();
    let mut k: usize = 0;
    while k < fields.len()
        invariant
            fv == fields@.map_values(|v: Vec<u8>| v@),
            k <= fields@.len(),
            cs@.len() == k,
            forall|i: int| 0 <= i < k ==> #[trigger] view_term(cs@[i]) == field_expr(fv[i]) && wf(view_term(cs@[i])),
        decreases fields@.len() - k,
    {
        let t = field_term(&fields[k]);
        cs.push(t);
        k = k + 1;
    }
    proof {
        lemma_view_terms(cs@);
        assert(view_terms(cs@) =~= fv.map_values(|f: Seq<u8>| field_expr(f)));
        lemma_wf_list(view_terms(cs@));
    }
    Some(Term::Compound(cs))
}

impl Space {
    /// Loads CSV text: each non-empty line of `src` is a row, its fields cut
    /// at `sep`; the row's compound of symbols is matched against
    /// `pattern`, and `template` instantiated with the captures is written.
    /// Returns how many lines wrote a path.
    pub fn load_csv(&mut self, src: &[u8], pattern: &Term, template: &Term, sep: u8) -> (r: usize)
        requires
            old(self).wf(),
            wf(template@),
        ensures
            final(self).wf(),
            final(self).view() == old(self).view().union(Set::new(|o: Seq<u8>| exists|i: int| 0 <= i < split(src@, 10).len()
                && #[trigger] csv_output(split(src@, 10)[i], sep, pattern@, template@) == Some(o))),
            r as nat == csv_count(split(src@, 10), sep, pattern@, template@),
    {
        let lines = split_bytes(src, 10u8);
        let ghost lv = lines@.map_values(|v: Vec<u8>| v@);
        let ghost s0 = self.view();
        let mut count: usize = 0;
        let mut k: usize = 0;
        assert(lv.take(0) =~= Seq::<Seq<u8>>::empty());
        while k < lines.len()
            invariant
                self.wf(),
                wf(template@),
                s0 == old(self).view(),
                lv == lines@.map_values(|v: Vec<u8>| v@),
                lv == split(src@, 10),
                k <= lines@.len(),
                count <= k,
                count as nat == csv_count(lv.take(k as int), sep, pattern@, template@),
                self.view() == s0.union(Set::new(|o: Seq<u8>| exists|i: int| 0 <= i < k
                    && #[trigger] csv_output(lv[i], sep, pattern@, template@) == Some(o))),
            decreases lines@.len() - k,
        {
            let ghost before = self.view();
            let ghost out_k = csv_output(lv[k as int], sep, pattern@, template@);
            let mut wrote = false;
            match row_term(&lines[k], sep) {
                Some(row) => {
                    let mut env: Vec<Term> = Vec::new();
                    proof {
                        lemma_view_terms(env@);
                        assert(view_terms(env@) =~= Seq::<SExpr>::empty());
                    }
                    if match_term(pattern, &row, &mut env) {
                        proof {
                            assert(all_wf(Seq::<SExpr>::empty()));
                            lemma_pmatch_shape(pattern@, row@, seq![]);
                            lemma_view_terms(env@);
                        }
                        if check_template(template, env.len()) {
                            let out = subst_term(template, &env);
                            proof { lemma_subst_span(template@, view_terms(env@)); }
                            self.insert_expr(&out);
                            wrote = true;
                        }
                    }
                },
                None => {},
            }
            proof {
                assert(wrote == out_k is Some);
                if wrote {
                    assert(self.view() == before.insert(out_k->Some_0));
                } else {
                    assert(self.view() == before);
                }
                assert(lv.take(k + 1).drop_last() =~= lv.take(k as int));
                assert(lv.take(k + 1).last() == lv[k as int]);
                let a = Set::new(|o: Seq<u8>| exists|i: int| 0 <= i < k && #[trigger] csv_output(lv[i], sep, pattern@, template@) == Some(o));
                let a1 = Set::new(|o: Seq<u8>| exists|i: int| 0 <= i < k + 1 && #[trigger] csv_output(lv[i], sep, pattern@, template@) == Some(o));
                assert forall|o: Seq<u8>| a1.contains(o) <==> (a.contains(o) || out_k == Some(o)) by {
                    if a1.contains(o) {
                        let i = choose|i: int| 0 <= i < k + 1 && #[trigger] csv_output(lv[i], sep, pattern@, template@) == Some(o);
                        if i < k {
                            assert(a.contains(o));
                        }
                    }
                    if a.contains(o) {
                        let i = choose|i: int| 0 <= i < k && #[trigger] csv_output(lv[i], sep, pattern@, template@) == Some(o);
                        assert(a1.contains(o));
                    }
                }
                assert(self.view() =~= s0.union(a1));
            }
            if wrote {
                count = count + 1;
            }
            k = k + 1;
        }
        assert(lv.take(k as int) =~= lv);
        count
    }
}

} // verus!
