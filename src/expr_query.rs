use vstd::prelude::*;
use crate::matching::bytes_equal;
use crate::trie::BytesTrieMap;

verus! {

/// Identifies a stored expression.
pub type ExprId = u64;

/// An expression as the query engine stores it.
#[derive(Debug)]
pub enum ExprStructure {
    Symbol(Vec<u8>),
    Variable(String),
    Compound { arity: usize, children: Vec<ExprStructure> },
}

/// A pattern over stored expressions.
#[derive(Debug)]
pub enum ExprPattern {
    /// Matches every expression.
    Any,
    /// Matches the symbol with these bytes.
    Symbol(Vec<u8>),
    /// Matches the variable of this name.
    Variable(String),
    /// Matches a compound of this arity whose children match member by member.
    Compound { arity: usize, patterns: Vec<ExprPattern> },
}

/// The ids a query finds.
#[derive(Debug)]
pub struct QueryResult {
    pub matched_ids: Vec<ExprId>,
    pub stats: QueryStats,
}

/// Stores expressions under increasing ids and answers structural queries.
pub struct ExprQueryEngine {
    expressions: Vec<StoredExpression>,
    next_id: ExprId,
}

/// Measures of a stored expression, each saturating at `usize::MAX`.
#[derive(Debug)]
pub struct ExprMetadata {
    pub depth: usize,
    pub symbol_count: usize,
    pub variable_count: usize,
}

#[derive(Debug)]
pub struct StoredExpression {
    pub id: ExprId,
    pub structure: ExprStructure,
    pub metadata: ExprMetadata,
}

/// Work done by a query.
#[derive(Debug)]
pub struct QueryStats {
    pub expressions_scanned: usize,
    pub index_hits: usize,
    pub filters_applied: usize,
}

#[derive(Debug)]
pub struct EngineStats {
    pub total_expressions: usize,
    pub unique_symbols: usize,
    pub indexed_arities: usize,
    pub structure_index_size: usize,
}

pub open spec fn sat(n: nat) -> nat {
    if n > usize::MAX { usize::MAX as nat } else { n }
}

pub open spec fn depth_of(e: ExprStructure) -> nat
    decreases e,
{
    match e {
        ExprStructure::Compound { children, .. } => 1 + depth_list(children@),
        _ => 1,
    }
}

pub open spec fn depth_list(es: Seq<ExprStructure>) -> nat
    decreases es,
{
    if es.len() == 0 {
        0
    } else {
        let a = depth_of(es[0]);
        let b = depth_list(es.drop_first());
        if a > b { a } else { b }
    }
}

/// How many `Symbol` nodes (`want_symbols`) or `Variable` nodes `e` holds.
pub open spec fn count_leaves(e: ExprStructure, want_symbols: bool) -> nat
    decreases e,
{
    match e {
        ExprStructure::Symbol(_) => if want_symbols { 1 } else { 0 },
        ExprStructure::Variable(_) => if want_symbols { 0 } else { 1 },
        ExprStructure::Compound { children, .. } => count_leaves_list(children@, want_symbols),
    }
}

pub open spec fn count_leaves_list(es: Seq<ExprStructure>, want_symbols: bool) -> nat
    decreases es,
{
    if es.len() == 0 {
        0
    } else {
        count_leaves(es[0], want_symbols) + count_leaves_list(es.drop_first(), want_symbols)
    }
}

/// The occurrences, in prefix order, of compound nodes of arity `a`.
pub open spec fn arity_hits(e: ExprStructure, a: usize) -> nat
    decreases e,
{
    match e {
        ExprStructure::Compound { arity, children } => (if arity == a { 1nat } else { 0nat }) + arity_hits_list(children@, a),
        _ => 0,
    }
}

pub open spec fn arity_hits_list(es: Seq<ExprStructure>, a: usize) -> nat
    decreases es,
{
    if es.len() == 0 {
        0
    } else {
        arity_hits(es[0], a) + arity_hits_list(es.drop_first(), a)
    }
}

/// The occurrences of symbol `s`.
pub open spec fn symbol_hits(e: ExprStructure, s: Seq<u8>) -> nat
    decreases e,
{
    match e {
        ExprStructure::Symbol(t) => if t@ == s { 1 } else { 0 },
        ExprStructure::Variable(_) => 0,
        ExprStructure::Compound { children, .. } => symbol_hits_list(children@, s),
    }
}

pub open spec fn symbol_hits_list(es: Seq<ExprStructure>, s: Seq<u8>) -> nat
    decreases es,
{
    if es.len() == 0 {
        0
    } else {
        symbol_hits(es[0], s) + symbol_hits_list(es.drop_first(), s)
    }
}

/// The eight bytes of `a`, most significant first.
pub open spec fn be_bytes(a: usize) -> Seq<u8> {
    Seq::new(8, |k: int| ((a as u64 >> ((8 * (7 - k)) as u64)) & 0xffu64) as u8)
}

/// The structural key of `e`: a marker byte, then the symbol's bytes, the
/// variable's name, or the arity and the children's keys.
pub open spec fn struct_key(e: ExprStructure) -> Seq<u8>
    decreases e,
{
    match e {
        ExprStructure::Symbol(s) => seq![1u8] + s@,
        ExprStructure::Variable(v) => seq![2u8] + vstd::utf8::encode_utf8(v@),
        ExprStructure::Compound { arity, children } => seq![3u8] + be_bytes(arity) + struct_key_list(children@),
    }
}

pub open spec fn struct_key_list(es: Seq<ExprStructure>) -> Seq<u8>
    decreases es,
{
    if es.len() == 0 {
        seq![]
    } else {
        struct_key(es[0]) + struct_key_list(es.drop_first())
    }
}

/// The symbols (`which == 0`) or the structural keys of the compounds
/// (`which == 1`) that occur in `e`.
pub open spec fn parts_in(e: ExprStructure, which: int) -> Set<Seq<u8>>
    decreases e,
{
    match e {
        ExprStructure::Symbol(s) => if which == 0 { set![s@] } else { Set::empty() },
        ExprStructure::Variable(_) => Set::empty(),
        ExprStructure::Compound { children, .. } => if which == 1 {
            parts_in_list(children@, which).insert(struct_key(e))
        } else {
            parts_in_list(children@, which)
        },
    }
}

pub open spec fn parts_in_list(es: Seq<ExprStructure>, which: int) -> Set<Seq<u8>>
    decreases es,
{
    if es.len() == 0 {
        Set::empty()
    } else {
        parts_in(es[0], which).union(parts_in_list(es.drop_first(), which))
    }
}

/// The arities of the compounds that occur in `e`.
pub open spec fn arities_in(e: ExprStructure) -> Set<usize>
    decreases e,
{
    match e {
        ExprStructure::Compound { arity, children } => arities_in_list(children@).insert(arity),
        _ => Set::empty(),
    }
}

pub open spec fn arities_in_list(es: Seq<ExprStructure>) -> Set<usize>
    decreases es,
{
    if es.len() == 0 {
        Set::empty()
    } else {
        arities_in(es[0]).union(arities_in_list(es.drop_first()))
    }
}

pub open spec fn stored_parts(ss: Seq<StoredExpression>, which: int) -> Set<Seq<u8>>
    decreases ss.len(),
{
    if ss.len() == 0 {
        Set::empty()
    } else {
        stored_parts(ss.drop_last(), which).union(parts_in(ss.last().structure, which))
    }
}

pub open spec fn stored_arities(ss: Seq<StoredExpression>) -> Set<usize>
    decreases ss.len(),
{
    if ss.len() == 0 {
        Set::empty()
    } else {
        stored_arities(ss.drop_last()).union(arities_in(ss.last().structure))
    }
}

/// Whether `e` matches `p`.
pub open spec fn matches_pattern(e: ExprStructure, p: ExprPattern) -> bool
    decreases p,
{
    match p {
        ExprPattern::Any => true,
        ExprPattern::Symbol(ps) => e matches ExprStructure::Symbol(s) && s@ == ps@,
        ExprPattern::Variable(pv) => e matches ExprStructure::Variable(v) && v@ == pv@,
        ExprPattern::Compound { arity: pa, patterns } => match e {
            ExprStructure::Compound { arity, children } => arity == pa && children@.len() == patterns@.len()
                && matches_list(children@, patterns@),
            _ => false,
        },
    }
}

pub open spec fn matches_list(es: Seq<ExprStructure>, ps: Seq<ExprPattern>) -> bool
    decreases ps,
{
    ps.len() == 0 || (es.len() > 0 && matches_pattern(es[0], ps[0]) && matches_list(es.drop_first(), ps.drop_first()))
}

/// The occurrences in `e` of compounds of arity `a` (`by_arity`) or of
/// symbol `s`.
pub open spec fn hit_count(e: ExprStructure, by_arity: bool, a: usize, s: Seq<u8>) -> nat {
    if by_arity { arity_hits(e, a) } else { symbol_hits(e, s) }
}

/// Each id repeated as often as `hit_count` counts in its expression, in
/// storing order.
pub open spec fn id_hits(ss: Seq<StoredExpression>, by_arity: bool, a: usize, s: Seq<u8>) -> Seq<ExprId>
    decreases ss.len(),
{
    if ss.len() == 0 {
        seq![]
    } else {
        id_hits(ss.drop_last(), by_arity, a, s) + Seq::new(hit_count(ss.last().structure, by_arity, a, s), |_i: int| ss.last().id)
    }
}

/// Each id repeated as often as `pattern_hits` counts it, in storing order.
pub open spec fn id_pattern_hits(ss: Seq<StoredExpression>, p: ExprPattern) -> Seq<ExprId>
    decreases ss.len(),
{
    if ss.len() == 0 {
        seq![]
    } else {
        id_pattern_hits(ss.drop_last(), p) + Seq::new(pattern_hits(ss.last().structure, p), |_i: int| ss.last().id)
    }
}

/// The ids of the expressions that match, in storing order.
pub open spec fn id_matches(ss: Seq<StoredExpression>, p: ExprPattern) -> Seq<ExprId>
    decreases ss.len(),
{
    if ss.len() == 0 {
        seq![]
    } else if matches_pattern(ss.last().structure, p) {
        id_matches(ss.drop_last(), p).push(ss.last().id)
    } else {
        id_matches(ss.drop_last(), p)
    }
}


fn push_copies(out: &mut Vec<ExprId>, id: ExprId, n: usize)
    ensures
        final(out)@ == old(out)@ + Seq::new(n as nat, |_i: int| id),
{
    let mut k: usize = 0;
    while k < n
        invariant
            k <= n,
            out@ == old(out)@ + Seq::new(k as nat, |_i: int| id),
        decreases n - k,
    {
        out.push(id);
        k = k + 1;
        assert(out@ =~= old(out)@ + Seq::new(k as nat, |_i: int| id));
    }
}

proof fn lemma_copies_concat(a: nat, b: nat, id: ExprId)
    ensures
        Seq::new(a, |_i: int| id) + Seq::new(b, |_i: int| id) == Seq::new(a + b, |_i: int| id),
{
    assert(Seq::new(a, |_i: int| id) + Seq::new(b, |_i: int| id) =~= Seq::new(a + b, |_i: int| id));
}

proof fn lemma_list_tail<A>(es: Seq<A>, k: int)
    requires
        0 <= k < es.len(),
    ensures
        es.subrange(k, es.len() as int).drop_first() == es.subrange(k + 1, es.len() as int),
        es.subrange(k, es.len() as int)[0] == es[k],
{
    assert(es.subrange(k, es.len() as int).drop_first() =~= es.subrange(k + 1, es.len() as int));
}

/// Appends `id` once for each compound of arity `a` in `e` (`by_arity`),
/// or once for each occurrence of symbol `sym`.
pub(crate) fn push_hits(e: &ExprStructure, by_arity: bool, a: usize, sym: &Vec<u8>, id: ExprId, out: &mut Vec<ExprId>)
    ensures
        final(out)@ == old(out)@ + Seq::new(
            if by_arity { arity_hits(*e, a) } else { symbol_hits(*e, sym@) },
            |_i: int| id,
        ),
    decreases e,
{
    match e {
        ExprStructure::Symbol(t) => {
            let n: usize = if !by_arity && bytes_equal(t, sym) { 1 } else { 0 };
            push_copies(out, id, n);
        },
        ExprStructure::Variable(_) => {
            assert(out@ =~= old(out)@ + Seq::new(0, |_i: int| id));
        },
        ExprStructure::Compound { arity, children } => {
            let own: usize = if by_arity && *arity == a { 1 } else { 0 };
            push_copies(out, id, own);
            let ghost cs = children@;
            let ghost start = out@;
            let mut k: usize = 0;
            assert(cs.subrange(0, 0) =~= Seq::<ExprStructure>::empty());
            assert(start =~= start + Seq::new(0, |_i: int| id));
            while k < children.len()
                invariant
                    *e == (ExprStructure::Compound { arity: *arity, children: *children }),
                    cs == children@,
                    k <= cs.len(),
                    out@ == start + Seq::new(
                        if by_arity { arity_hits_list(cs.subrange(0, k as int), a) } else { symbol_hits_list(cs.subrange(0, k as int), sym@) },
                        |_i: int| id,
                    ),
                decreases cs.len() - k,
            {
                proof {
                    assert(decreases_to!(*e => (*e)->children));
                    assert(decreases_to!(*children => children@));
                    assert(decreases_to!(children@ => children@[k as int]));
                }
                let ghost mid = out@;
                push_hits(&children[k], by_arity, a, sym, id, out);
                proof {
                    lemma_hits_push(cs.subrange(0, k as int), cs[k as int], a, sym@);
                    assert(cs.subrange(0, k + 1) =~= cs.subrange(0, k as int).push(cs[k as int]));
                    let n1 = if by_arity { arity_hits_list(cs.subrange(0, k as int), a) } else { symbol_hits_list(cs.subrange(0, k as int), sym@) };
                    let n2 = if by_arity { arity_hits(cs[k as int], a) } else { symbol_hits(cs[k as int], sym@) };
                    lemma_copies_concat(n1, n2, id);
                    assert(out@ =~= start + (Seq::new(n1, |_i: int| id) + Seq::new(n2, |_i: int| id)));
                }
                k = k + 1;
            }
            proof {
                assert(cs.subrange(0, cs.len() as int) =~= cs);
                let n1 = if by_arity { arity_hits_list(cs, a) } else { symbol_hits_list(cs, sym@) };
                lemma_copies_concat(own as nat, n1, id);
                assert(out@ =~= old(out)@ + (Seq::new(own as nat, |_i: int| id) + Seq::new(n1, |_i: int| id)));
            }
        },
    }
}

proof fn lemma_hits_push(es: Seq<ExprStructure>, e: ExprStructure, a: usize, s: Seq<u8>)
    ensures
        arity_hits_list(es.push(e), a) == arity_hits_list(es, a) + arity_hits(e, a),
        symbol_hits_list(es.push(e), s) == symbol_hits_list(es, s) + symbol_hits(e, s),
    decreases es.len(),
{
    assert(es.push(e)[0] == if es.len() == 0 { e } else { es[0] });
    if es.len() == 0 {
        assert(es.push(e).drop_first() =~= Seq::<ExprStructure>::empty());
        assert(arity_hits_list(Seq::<ExprStructure>::empty(), a) == 0);
        assert(symbol_hits_list(Seq::<ExprStructure>::empty(), s) == 0);
    } else {
        assert(es.push(e).drop_first() =~= es.drop_first().push(e));
        lemma_hits_push(es.drop_first(), e, a, s);
    }
}

/// Whether `e` matches `p`.
fn matches_exec(e: &ExprStructure, p: &ExprPattern) -> (r: bool)
    ensures
        r == matches_pattern(*e, *p),
    decreases p,
{
    match p {
        ExprPattern::Any => true,
        ExprPattern::Symbol(ps) => match e {
            ExprStructure::Symbol(s) => bytes_equal(s, ps),
            _ => false,
        },
        ExprPattern::Variable(pv) => match e {
            ExprStructure::Variable(v) => v.eq(pv),
            _ => false,
        },
        ExprPattern::Compound { arity: pa, patterns } => match e {
            ExprStructure::Compound { arity, children } => {
                if *arity != *pa || children.len() != patterns.len() {
                    return false;
                }
                let ghost cs = children@;
                let ghost ps = patterns@;
                let mut k: usize = patterns.len();
                assert(ps.subrange(k as int, ps.len() as int) =~= Seq::<ExprPattern>::empty());
                while k > 0
                    invariant
                        *p == (ExprPattern::Compound { arity: *pa, patterns: *patterns }),
                        *e == (ExprStructure::Compound { arity: *arity, children: *children }),
                        cs == children@,
                        ps == patterns@,
                        cs.len() == ps.len(),
                        k <= ps.len(),
                        matches_list(cs.subrange(k as int, cs.len() as int), ps.subrange(k as int, ps.len() as int)),
                    decreases k,
                {
                    let j = k - 1;
                    proof {
                        assert(decreases_to!(*p => (*p)->patterns));
                        assert(decreases_to!(*patterns => patterns@));
                        assert(decreases_to!(patterns@ => patterns@[j as int]));
                        lemma_list_tail(cs, j as int);
                        lemma_list_tail(ps, j as int);
                    }
                    if !matches_exec(&children[j], &patterns[j]) {
                        proof { lemma_matches_list_index(cs, ps, j as int); }
                        return false;
                    }
                    k = j;
                }
                assert(cs.subrange(0, cs.len() as int) =~= cs);
                assert(ps.subrange(0, ps.len() as int) =~= ps);
                true
            },
            _ => false,
        },
    }
}

proof fn lemma_matches_list_index(es: Seq<ExprStructure>, ps: Seq<ExprPattern>, j: int)
    requires
        0 <= j < ps.len(),
        es.len() == ps.len(),
        !matches_pattern(es[j], ps[j]),
    ensures
        !matches_list(es, ps),
    decreases ps.len(),
{
    if j > 0 {
        assert(es.drop_first()[j - 1] == es[j]);
        assert(ps.drop_first()[j - 1] == ps[j]);
        lemma_matches_list_index(es.drop_first(), ps.drop_first(), j - 1);
    }
}


/// The depth of `e`, saturating.
pub(crate) fn depth_exec(e: &ExprStructure) -> (r: usize)
    ensures
        r == sat(depth_of(*e)),
    decreases e,
{
    match e {
        ExprStructure::Compound { arity, children } => {
            let ghost cs = children@;
            let mut m: usize = 0;
            let mut k: usize = children.len();
            assert(cs.subrange(k as int, cs.len() as int) =~= Seq::<ExprStructure>::empty());
            while k > 0
                invariant
                    *e == (ExprStructure::Compound { arity: *arity, children: *children }),
                    cs == children@,
                    k <= cs.len(),
                    m == sat(depth_list(cs.subrange(k as int, cs.len() as int))),
                decreases k,
            {
                let j = k - 1;
                proof {
                    assert(decreases_to!(*e => (*e)->children));
                    assert(decreases_to!(*children => children@));
                    assert(decreases_to!(children@ => children@[j as int]));
                    lemma_list_tail(cs, j as int);
                }
                let a = depth_exec(&children[j]);
                if a > m {
                    m = a;
                }
                k = j;
            }
            assert(cs.subrange(0, cs.len() as int) =~= cs);
            m.saturating_add(1)
        },
        _ => 1,
    }
}

/// The number of symbols (`want_symbols`) or variables in `e`, saturating.
fn count_exec(e: &ExprStructure, want_symbols: bool) -> (r: usize)
    ensures
        r == sat(count_leaves(*e, want_symbols)),
    decreases e,
{
    match e {
        ExprStructure::Symbol(_) => if want_symbols { 1 } else { 0 },
        ExprStructure::Variable(_) => if want_symbols { 0 } else { 1 },
        ExprStructure::Compound { arity, children } => {
            let ghost cs = children@;
            let mut m: usize = 0;
            let mut k: usize = children.len();
            assert(cs.subrange(k as int, cs.len() as int) =~= Seq::<ExprStructure>::empty());
            while k > 0
                invariant
                    *e == (ExprStructure::Compound { arity: *arity, children: *children }),
                    cs == children@,
                    k <= cs.len(),
                    m == sat(count_leaves_list(cs.subrange(k as int, cs.len() as int), want_symbols)),
                decreases k,
            {
                let j = k - 1;
                proof {
                    assert(decreases_to!(*e => (*e)->children));
                    assert(decreases_to!(*children => children@));
                    assert(decreases_to!(children@ => children@[j as int]));
                    lemma_list_tail(cs, j as int);
                }
                let a = count_exec(&children[j], want_symbols);
                m = a.saturating_add(m);
                k = j;
            }
            assert(cs.subrange(0, cs.len() as int) =~= cs);
            m
        },
    }
}

fn push_be_bytes(a: usize, out: &mut Vec<u8>)
    ensures
        final(out)@ == old(out)@ + be_bytes(a),
{
    let mut k: usize = 0;
    while k < 8
        invariant
            k <= 8,
            out@ == old(out)@ + be_bytes(a).subrange(0, k as int),
        decreases 8 - k,
    {
        let shift: u64 = (8 * (7 - k)) as u64;
        let b: u8 = ((a as u64 >> shift) & 0xffu64) as u8;
        out.push(b);
        k = k + 1;
        assert(out@ =~= old(out)@ + be_bytes(a).subrange(0, k as int));
    }
    assert(be_bytes(a).subrange(0, 8) =~= be_bytes(a));
}

/// Appends the structural key of `e` to `out`.
fn push_struct_key(e: &ExprStructure, out: &mut Vec<u8>)
    ensures
        final(out)@ == old(out)@ + struct_key(*e),
    decreases e,
{
    match e {
        ExprStructure::Symbol(sym) => {
            out.push(1u8);
            let mut k: usize = 0;
            let ghost start = out@;
            while k < sym.len()
                invariant
                    k <= sym@.len(),
                    out@ == start + sym@.subrange(0, k as int),
                decreases sym@.len() - k,
            {
                out.push(sym[k]);
                k = k + 1;
                assert(out@ =~= start + sym@.subrange(0, k as int));
            }
            assert(sym@.subrange(0, sym@.len() as int) =~= sym@);
            assert(out@ =~= old(out)@ + struct_key(*e));
        },
        ExprStructure::Variable(v) => {
            out.push(2u8);
            let bytes = v.as_str().as_bytes();
            let mut k: usize = 0;
            let ghost start = out@;
            while k < bytes.len()
                invariant
                    k <= bytes@.len(),
                    out@ == start + bytes@.subrange(0, k as int),
                decreases bytes@.len() - k,
            {
                out.push(bytes[k]);
                k = k + 1;
                assert(out@ =~= start + bytes@.subrange(0, k as int));
            }
            assert(bytes@.subrange(0, bytes@.len() as int) =~= bytes@);
            assert(out@ =~= old(out)@ + struct_key(*e));
        },
        ExprStructure::Compound { arity, children } => {
            out.push(3u8);
            push_be_bytes(*arity, out);
            let ghost cs = children@;
            let ghost start = out@;
            let mut k: usize = 0;
            assert(cs.subrange(0, 0) =~= Seq::<ExprStructure>::empty());
            assert(start =~= start + struct_key_list(Seq::<ExprStructure>::empty()));
            while k < children.len()
                invariant
                    *e == (ExprStructure::Compound { arity: *arity, children: *children }),
                    cs == children@,
                    k <= cs.len(),
                    out@ == start + struct_key_list(cs.subrange(0, k as int)),
                decreases cs.len() - k,
            {
                proof {
                    assert(decreases_to!(*e => (*e)->children));
                    assert(decreases_to!(*children => children@));
                    assert(decreases_to!(children@ => children@[k as int]));
                }
                push_struct_key(&children[k], out);
                proof {
                    lemma_key_push(cs.subrange(0, k as int), cs[k as int]);
                    assert(cs.subrange(0, k + 1) =~= cs.subrange(0, k as int).push(cs[k as int]));
                }
                k = k + 1;
            }
            assert(cs.subrange(0, cs.len() as int) =~= cs);
            assert(out@ =~= old(out)@ + struct_key(*e));
        },
    }
}

proof fn lemma_key_push(es: Seq<ExprStructure>, e: ExprStructure)
    ensures
        struct_key_list(es.push(e)) == struct_key_list(es) + struct_key(e),
    decreases es.len(),
{
    assert(es.push(e)[0] == if es.len() == 0 { e } else { es[0] });
    if es.len() == 0 {
        assert(es.push(e).drop_first() =~= Seq::<ExprStructure>::empty());
        assert(struct_key_list(es.push(e).drop_first()) =~= Seq::<u8>::empty());
        assert(struct_key_list(es.push(e)) =~= struct_key(e));
        assert(struct_key_list(es) =~= Seq::<u8>::empty());
    } else {
        assert(es.push(e).drop_first() =~= es.drop_first().push(e));
        lemma_key_push(es.drop_first(), e);
        assert(struct_key_list(es.push(e)) =~= struct_key_list(es) + struct_key(e));
    }
}

/// Adds to `out` the symbols (`which == 0`) or compound keys (`which == 1`)
/// of `e`.
fn collect_parts(e: &ExprStructure, which: u8, out: &mut BytesTrieMap<()>)
    requires
        old(out).wf(),
        which <= 1,
    ensures
        final(out).wf(),
        final(out)@.dom() == old(out)@.dom().union(parts_in(*e, which as int)),
    decreases e,
{
    match e {
        ExprStructure::Symbol(sym) => {
            if which == 0 {
                out.insert(sym.as_slice(), ());
                assert(out@.dom() =~= old(out)@.dom().union(parts_in(*e, which as int)));
            } else {
                assert(out@.dom() =~= old(out)@.dom().union(parts_in(*e, which as int)));
            }
        },
        ExprStructure::Variable(_) => {
            assert(out@.dom() =~= old(out)@.dom().union(parts_in(*e, which as int)));
        },
        ExprStructure::Compound { arity, children } => {
            if which == 1 {
                let mut key: Vec<u8> = Vec::new();
                push_struct_key(e, &mut key);
                assert(key@ =~= struct_key(*e));
                out.insert(key.as_slice(), ());
            }
            let ghost cs = children@;
            let ghost start = out@.dom();
            let mut k: usize = 0;
            assert(cs.subrange(0, 0) =~= Seq::<ExprStructure>::empty());
            assert(start =~= start.union(parts_in_list(Seq::<ExprStructure>::empty(), which as int)));
            while k < children.len()
                invariant
                    *e == (ExprStructure::Compound { arity: *arity, children: *children }),
                    cs == children@,
                    k <= cs.len(),
                    which <= 1,
                    out.wf(),
                    out@.dom() == start.union(parts_in_list(cs.subrange(0, k as int), which as int)),
                decreases cs.len() - k,
            {
                proof {
                    assert(decreases_to!(*e => (*e)->children));
                    assert(decreases_to!(*children => children@));
                    assert(decreases_to!(children@ => children@[k as int]));
                }
                collect_parts(&children[k], which, out);
                proof {
                    lemma_parts_push(cs.subrange(0, k as int), cs[k as int], which as int);
                    assert(cs.subrange(0, k + 1) =~= cs.subrange(0, k as int).push(cs[k as int]));
                    assert(out@.dom() =~= start.union(parts_in_list(cs.subrange(0, k + 1), which as int)));
                }
                k = k + 1;
            }
            assert(cs.subrange(0, cs.len() as int) =~= cs);
            assert(out@.dom() =~= old(out)@.dom().union(parts_in(*e, which as int)));
        },
    }
}

proof fn lemma_parts_push(es: Seq<ExprStructure>, e: ExprStructure, which: int)
    ensures
        parts_in_list(es.push(e), which) == parts_in_list(es, which).union(parts_in(e, which)),
        arities_in_list(es.push(e)) == arities_in_list(es).union(arities_in(e)),
    decreases es.len(),
{
    assert(es.push(e)[0] == if es.len() == 0 { e } else { es[0] });
    if es.len() == 0 {
        assert(es.push(e).drop_first() =~= Seq::<ExprStructure>::empty());
        assert(parts_in_list(es.push(e).drop_first(), which) =~= Set::<Seq<u8>>::empty());
        assert(arities_in_list(es.push(e).drop_first()) =~= Set::<usize>::empty());
        assert(parts_in_list(es, which) =~= Set::<Seq<u8>>::empty());
        assert(arities_in_list(es) =~= Set::<usize>::empty());
        assert(parts_in_list(es.push(e), which) =~= parts_in_list(es, which).union(parts_in(e, which)));
        assert(arities_in_list(es.push(e)) =~= arities_in_list(es).union(arities_in(e)));
    } else {
        assert(es.push(e).drop_first() =~= es.drop_first().push(e));
        lemma_parts_push(es.drop_first(), e, which);
        assert(parts_in_list(es.push(e), which) =~= parts_in_list(es, which).union(parts_in(e, which)));
        assert(arities_in_list(es.push(e)) =~= arities_in_list(es).union(arities_in(e)));
    }
}

/// Adds to `out` the arities of the compounds of `e`, keeping `out` free of
/// repeats.
fn collect_arities(e: &ExprStructure, out: &mut Vec<usize>)
    requires
        old(out)@.no_duplicates(),
    ensures
        final(out)@.no_duplicates(),
        final(out)@.to_set() == old(out)@.to_set().union(arities_in(*e)),
    decreases e,
{
    match e {
        ExprStructure::Compound { arity, children } => {
            let mut found = false;
            let mut i: usize = 0;
            while i < out.len()
                invariant
                    i <= out@.len(),
                    found <==> exists|j: int| 0 <= j < i && out@[j] == *arity,
                decreases out@.len() - i,
            {
                if out[i] == *arity {
                    found = true;
                }
                i = i + 1;
            }
            let ghost before = out@;
            if !found {
                out.push(*arity);
                proof {
                    assert forall|a: int, b: int| 0 <= a < out@.len() && 0 <= b < out@.len() && a != b implies out@[a] != out@[b] by {
                        if a < before.len() && b < before.len() {
                            assert(out@[a] == before[a] && out@[b] == before[b]);
                        }
                    }
                }
            }
            assert(out@.to_set() =~= before.to_set().insert(*arity)) by {
                if found {
                    let j = choose|j: int| 0 <= j < before.len() && before[j] == *arity;
                    assert(before.contains(*arity));
                } else {
                    assert(out@ == before.push(*arity));
                    assert forall|x: usize| #[trigger] out@.contains(x) <==> (before.contains(x) || x == *arity) by {
                        if out@.contains(x) {
                            let j = choose|j: int| 0 <= j < out@.len() && out@[j] == x;
                            if j < before.len() {
                                assert(before[j] == x);
                            }
                        }
                        if before.contains(x) {
                            let j = choose|j: int| 0 <= j < before.len() && before[j] == x;
                            assert(out@[j] == x);
                        }
                        if x == *arity {
                            assert(out@[before.len() as int] == x);
                        }
                    }
                }
            }
            let ghost cs = children@;
            let ghost start = out@.to_set();
            let mut k: usize = 0;
            assert(cs.subrange(0, 0) =~= Seq::<ExprStructure>::empty());
            assert(start =~= start.union(arities_in_list(Seq::<ExprStructure>::empty())));
            while k < children.len()
                invariant
                    *e == (ExprStructure::Compound { arity: *arity, children: *children }),
                    cs == children@,
                    k <= cs.len(),
                    out@.no_duplicates(),
                    out@.to_set() == start.union(arities_in_list(cs.subrange(0, k as int))),
                decreases cs.len() - k,
            {
                proof {
                    assert(decreases_to!(*e => (*e)->children));
                    assert(decreases_to!(*children => children@));
                    assert(decreases_to!(children@ => children@[k as int]));
                }
                collect_arities(&children[k], out);
                proof {
                    lemma_parts_push(cs.subrange(0, k as int), cs[k as int], 0);
                    assert(cs.subrange(0, k + 1) =~= cs.subrange(0, k as int).push(cs[k as int]));
                    assert(out@.to_set() =~= start.union(arities_in_list(cs.subrange(0, k + 1))));
                }
                k = k + 1;
            }
            assert(cs.subrange(0, cs.len() as int) =~= cs);
            assert(out@.to_set() =~= old(out)@.to_set().union(arities_in(*e)));
        },
        _ => {
            assert(out@.to_set() =~= old(out)@.to_set().union(arities_in(*e)));
        },
    }
}


/// How often a stored expression answers `p`: every expression for `Any`;
/// per occurrence of the symbol for `Symbol`; once if it is the variable for
/// `Variable`; for `Compound`, if the whole expression matches, once per
/// compound of that arity inside it.
pub open spec fn pattern_hits(e: ExprStructure, p: ExprPattern) -> nat {
    match p {
        ExprPattern::Any => 1,
        ExprPattern::Symbol(s) => symbol_hits(e, s@),
        ExprPattern::Variable(_) => if matches_pattern(e, p) { 1 } else { 0 },
        ExprPattern::Compound { arity, .. } => if matches_pattern(e, p) { arity_hits(e, arity) } else { 0 },
    }
}

proof fn lemma_id_hits_step(ss: Seq<StoredExpression>, k: int, by_arity: bool, a: usize, s: Seq<u8>, p: ExprPattern)
    requires
        0 <= k < ss.len(),
    ensures
        id_hits(ss.take(k + 1), by_arity, a, s) == id_hits(ss.take(k), by_arity, a, s) + Seq::new(hit_count(ss[k].structure, by_arity, a, s), |_i: int| ss[k].id),
        id_pattern_hits(ss.take(k + 1), p) == id_pattern_hits(ss.take(k), p) + Seq::new(pattern_hits(ss[k].structure, p), |_i: int| ss[k].id),
{
    assert(ss.take(k + 1).drop_last() =~= ss.take(k));
    assert(ss.take(k + 1).last() == ss[k]);
}

/// The ids in every one of `lists` (none when there are no lists).
pub open spec fn all_of(lists: Seq<Seq<ExprId>>) -> Set<ExprId> {
    Set::new(|id: ExprId| lists.len() > 0 && forall|i: int| 0 <= i < lists.len() ==> #[trigger] lists[i].contains(id))
}

/// The ids in some one of `lists`.
pub open spec fn any_of(lists: Seq<Seq<ExprId>>) -> Set<ExprId> {
    Set::new(|id: ExprId| exists|i: int| 0 <= i < lists.len() && #[trigger] lists[i].contains(id))
}

fn contains_id(v: &Vec<ExprId>, id: ExprId) -> (r: bool)
    ensures
        r == v@.contains(id),
{
    let mut i: usize = 0;
    while i < v.len()
        invariant
            i <= v@.len(),
            forall|j: int| 0 <= j < i ==> v@[j] != id,
        decreases v@.len() - i,
    {
        if v[i] == id {
            assert(v@[i as int] == id);
            return true;
        }
        i = i + 1;
    }
    false
}

impl ExprQueryEngine {
    /// The stored expressions, in storing order.
    pub closed spec fn stored(&self) -> Seq<StoredExpression> {
        self.expressions@
    }

    /// The id that the next insertion gets.
    pub closed spec fn next(&self) -> ExprId {
        self.next_id
    }

    /// Ids are below the next id and increase in storing order.
    pub closed spec fn wf(&self) -> bool {
        &&& self.next_id >= 1
        &&& forall|i: int| 0 <= i < self.expressions@.len() ==> #[trigger] self.expressions@[i].id < self.next_id
        &&& forall|i: int, j: int| 0 <= i < j < self.expressions@.len() ==> #[trigger] self.expressions@[i].id < #[trigger] self.expressions@[j].id
    }

    pub fn new() -> (r: Self)
        ensures
            r.wf(),
            r.stored().len() == 0,
            r.next() == 1,
    {
        ExprQueryEngine { expressions: Vec::new(), next_id: 1 }
    }

    /// Stores `structure` under the next id and returns that id.
    pub fn insert(&mut self, structure: ExprStructure) -> (r: ExprId)
        requires
            old(self).wf(),
            old(self).next() < u64::MAX,
        ensures
            final(self).wf(),
            r == old(self).next(),
            final(self).next() == r + 1,
            final(self).stored().len() == old(self).stored().len() + 1,
            final(self).stored().drop_last() == old(self).stored(),
            final(self).stored().last().id == r,
            forall|i: int| 0 <= i < old(self).stored().len() ==> #[trigger] old(self).stored()[i].id < r,
            final(self).stored().last().structure == structure,
            final(self).stored().last().metadata.depth == sat(depth_of(structure)),
            final(self).stored().last().metadata.symbol_count == sat(count_leaves(structure, true)),
            final(self).stored().last().metadata.variable_count == sat(count_leaves(structure, false)),
    {
        let id = self.next_id;
        self.next_id = self.next_id + 1;
        let metadata = ExprMetadata {
            depth: depth_exec(&structure),
            symbol_count: count_exec(&structure, true),
            variable_count: count_exec(&structure, false),
        };
        self.expressions.push(StoredExpression { id, structure, metadata });
        assert(self.stored().drop_last() =~= old(self).stored());
        id
    }

    /// The expression stored under `id`.
    pub fn get_expression(&self, id: ExprId) -> (r: Option<&StoredExpression>)
        requires
            self.wf(),
        ensures
            r matches Some(s) ==> s.id == id && exists|i: int| 0 <= i < self.stored().len() && self.stored()[i] == *s,
            r matches Some(s) ==> forall|i: int| 0 <= i < self.stored().len() && #[trigger] self.stored()[i].id == id
                ==> self.stored()[i] == *s,
            r is None ==> forall|i: int| 0 <= i < self.stored().len() ==> #[trigger] self.stored()[i].id != id,
    {
        let mut i: usize = 0;
        while i < self.expressions.len()
            invariant
                self.wf(),
                i <= self.expressions@.len(),
                forall|j: int| 0 <= j < i ==> #[trigger] self.expressions@[j].id != id,
            decreases self.expressions@.len() - i,
        {
            if self.expressions[i].id == id {
                proof {
                    assert forall|j: int| 0 <= j < self.stored().len() && #[trigger] self.stored()[j].id == id
                        implies self.stored()[j] == self.expressions@[i as int] by {
                        if j < i {
                            assert(self.expressions@[j].id < self.expressions@[i as int].id);
                        } else if j > i {
                            assert(self.expressions@[i as int].id < self.expressions@[j].id);
                        }
                    }
                }
                return Some(&self.expressions[i]);
            }
            i = i + 1;
        }
        None
    }

    fn hits(&self, by_arity: bool, arity: usize, symbol: &Vec<u8>) -> (r: Vec<ExprId>)
        ensures
            r@ == id_hits(self.stored(), by_arity, arity, symbol@),
    {
        let mut out: Vec<ExprId> = Vec::new();
        let mut k: usize = 0;
        assert(self.stored().take(0) =~= Seq::<StoredExpression>::empty());
        while k < self.expressions.len()
            invariant
                k <= self.expressions@.len(),
                out@ == id_hits(self.stored().take(k as int), by_arity, arity, symbol@),
            decreases self.expressions@.len() - k,
        {
            push_hits(&self.expressions[k].structure, by_arity, arity, symbol, self.expressions[k].id, &mut out);
            proof { lemma_id_hits_step(self.stored(), k as int, by_arity, arity, symbol@, ExprPattern::Any); }
            k = k + 1;
        }
        assert(self.stored().take(k as int) =~= self.stored());
        out
    }

    /// The id of each stored expression once per compound of arity `arity`
    /// inside it, in storing order.
    pub fn query_by_arity(&self, arity: usize) -> (r: Vec<ExprId>)
        ensures
            r@ == id_hits(self.stored(), true, arity, seq![]),
    {
        let none: Vec<u8> = Vec::new();
        assert(none@ =~= Seq::<u8>::empty());
        self.hits(true, arity, &none)
    }

    /// The id of each stored expression once per occurrence of `symbol`
    /// inside it, in storing order.
    pub fn query_by_symbol(&self, symbol: &[u8]) -> (r: Vec<ExprId>)
        ensures
            r@ == id_hits(self.stored(), false, 0, symbol@),
    {
        let sym = crate::encoding::copy_range(symbol, 0, symbol.len());
        assert(sym@ =~= symbol@);
        self.hits(false, 0, &sym)
    }

    /// Removes the expression stored under `id` and returns it.
    pub fn remove(&mut self, id: ExprId) -> (r: Option<StoredExpression>)
        requires
            old(self).wf(),
        ensures
            final(self).wf(),
            final(self).next() == old(self).next(),
            r matches Some(s) ==> exists|i: int| 0 <= i < old(self).stored().len() && old(self).stored()[i] == s && s.id == id
                && final(self).stored() == old(self).stored().remove(i),
            forall|i: int| 0 <= i < final(self).stored().len() ==> #[trigger] final(self).stored()[i].id != id,
            r is None ==> final(self).stored() == old(self).stored() && forall|i: int| 0 <= i < old(self).stored().len() ==> #[trigger] old(self).stored()[i].id != id,
    {
        let mut i: usize = 0;
        while i < self.expressions.len()
            invariant
                self.wf(),
                self.expressions@ == old(self).expressions@,
                self.next_id == old(self).next_id,
                i <= self.expressions@.len(),
                forall|j: int| 0 <= j < i ==> #[trigger] self.expressions@[j].id != id,
            decreases self.expressions@.len() - i,
        {
            if self.expressions[i].id == id {
                let s = self.expressions.remove(i);
                proof {
                    let o = old(self).expressions@;
                    assert forall|a: int, b: int| 0 <= a < b < self.expressions@.len() implies #[trigger] self.expressions@[a].id < #[trigger] self.expressions@[b].id by {
                        if b < i {
                        } else if a < i {
                            assert(self.expressions@[b] == o[b + 1]);
                        } else {
                            assert(self.expressions@[a] == o[a + 1] && self.expressions@[b] == o[b + 1]);
                        }
                    }
                    assert forall|a: int| 0 <= a < self.expressions@.len() implies #[trigger] self.expressions@[a].id < self.next_id by {
                        if a >= i {
                            assert(self.expressions@[a] == o[a + 1]);
                        }
                    }
                    assert forall|a: int| 0 <= a < self.expressions@.len() implies #[trigger] self.expressions@[a].id != id by {
                        if a < i {
                            assert(o[a].id < o[i as int].id);
                        } else {
                            assert(self.expressions@[a] == o[a + 1]);
                            assert(o[i as int].id < o[a + 1].id);
                        }
                    }
                }
                return Some(s);
            }
            i = i + 1;
        }
        None
    }

    /// Counts of what is stored: expressions, distinct symbols, distinct
    /// compound arities and distinct compound structures.
    pub fn stats(&self) -> (r: EngineStats)
        ensures
            r.total_expressions == self.stored().len(),
            r.unique_symbols == stored_parts(self.stored(), 0).len(),
            r.structure_index_size == stored_parts(self.stored(), 1).len(),
            r.indexed_arities == stored_arities(self.stored()).len(),
    {
        let mut syms: BytesTrieMap<()> = BytesTrieMap::new();
        let mut keys: BytesTrieMap<()> = BytesTrieMap::new();
        let mut arities: Vec<usize> = Vec::new();
        let mut k: usize = 0;
        assert(self.stored().take(0) =~= Seq::<StoredExpression>::empty());
        assert(syms@.dom() =~= Set::<Seq<u8>>::empty());
        assert(keys@.dom() =~= Set::<Seq<u8>>::empty());
        assert(arities@.to_set() =~= Set::<usize>::empty());
        while k < self.expressions.len()
            invariant
                k <= self.expressions@.len(),
                syms.wf(),
                keys.wf(),
                arities@.no_duplicates(),
                syms@.dom() == stored_parts(self.stored().take(k as int), 0),
                keys@.dom() == stored_parts(self.stored().take(k as int), 1),
                arities@.to_set() == stored_arities(self.stored().take(k as int)),
            decreases self.expressions@.len() - k,
        {
            collect_parts(&self.expressions[k].structure, 0, &mut syms);
            collect_parts(&self.expressions[k].structure, 1, &mut keys);
            collect_arities(&self.expressions[k].structure, &mut arities);
            proof {
                let t = self.stored().take(k + 1);
                assert(t.drop_last() =~= self.stored().take(k as int));
                assert(t.last() == self.stored()[k as int]);
            }
            k = k + 1;
        }
        assert(self.stored().take(k as int) =~= self.stored());
        proof { arities@.unique_seq_to_set(); }
        EngineStats {
            total_expressions: self.expressions.len(),
            unique_symbols: syms.len(),
            indexed_arities: arities.len(),
            structure_index_size: keys.len(),
        }
    }

    fn answers(&self, patterns: &Vec<ExprPattern>) -> (r: Vec<Vec<ExprId>>)
        ensures
            r@.len() == patterns@.len(),
            forall|i: int| 0 <= i < r@.len() ==> (#[trigger] r@[i])@ == id_pattern_hits(self.stored(), patterns@[i]),
    {
        let mut out: Vec<Vec<ExprId>> = Vec::new();
        let mut k: usize = 0;
        while k < patterns.len()
            invariant
                k <= patterns@.len(),
                out@.len() == k,
                forall|i: int| 0 <= i < k ==> (#[trigger] out@[i])@ == id_pattern_hits(self.stored(), patterns@[i]),
            decreases patterns@.len() - k,
        {
            let q = self.query(&patterns[k]);
            out.push(q.matched_ids);
            k = k + 1;
        }
        out
    }

    /// The ids that answer every pattern, each once, in the order of the
    /// first pattern's answer; none for no patterns.
    pub fn query_and(&self, patterns: &Vec<ExprPattern>) -> (r: QueryResult)
        ensures
            r.matched_ids@.no_duplicates(),
            r.matched_ids@.to_set() == all_of(patterns@.map_values(|p: ExprPattern| id_pattern_hits(self.stored(), p))),
    {
        let lists = self.answers(patterns);
        let ghost ls = patterns@.map_values(|p: ExprPattern| id_pattern_hits(self.stored(), p));
        assert forall|i: int| 0 <= i < lists@.len() implies (#[trigger] lists@[i])@ == ls[i] by {}
        let mut out: Vec<ExprId> = Vec::new();
        let stats = QueryStats { expressions_scanned: 0, index_hits: 0, filters_applied: 0 };
        if lists.len() == 0 {
            assert(out@.to_set() =~= all_of(ls));
            return QueryResult { matched_ids: out, stats };
        }
        let mut k: usize = 0;
        while k < lists[0].len()
            invariant
                lists@.len() == ls.len(),
                lists@.len() > 0,
                forall|i: int| 0 <= i < lists@.len() ==> (#[trigger] lists@[i])@ == ls[i],
                k <= lists@[0]@.len(),
                out@.no_duplicates(),
                forall|x: ExprId| #[trigger] out@.contains(x) <==> (lists@[0]@.take(k as int).contains(x) && all_of(ls).contains(x)),
            decreases lists@[0]@.len() - k,
        {
            let id = lists[0][k];
            let mut everywhere = true;
            let mut j: usize = 1;
            while j < lists.len()
                invariant
                    lists@.len() == ls.len(),
                    forall|i: int| 0 <= i < lists@.len() ==> (#[trigger] lists@[i])@ == ls[i],
                    1 <= j <= lists@.len(),
                    everywhere <==> forall|i: int| 1 <= i < j ==> #[trigger] ls[i].contains(id),
                decreases lists@.len() - j,
            {
                if !contains_id(&lists[j], id) {
                    everywhere = false;
                }
                j = j + 1;
            }
            proof {
                assert(lists@[0]@[k as int] == id);
                assert(ls[0].contains(id));
                assert(everywhere <==> all_of(ls).contains(id));
            }
            let ghost before = out@;
            if everywhere && !contains_id(&out, id) {
                out.push(id);
                proof {
                    assert forall|a: int, b: int| 0 <= a < out@.len() && 0 <= b < out@.len() && a != b implies out@[a] != out@[b] by {
                        if a < before.len() && b < before.len() {
                            assert(out@[a] == before[a] && out@[b] == before[b]);
                        } else if a == before.len() {
                            assert(out@[b] == before[b]);
                        } else {
                            assert(out@[a] == before[a]);
                        }
                    }
                }
            }
            proof {
                let t0 = lists@[0]@.take(k as int);
                let t1 = lists@[0]@.take(k + 1);
                assert(t1 =~= t0.push(id));
                assert forall|x: ExprId| #[trigger] out@.contains(x) <==> (t1.contains(x) && all_of(ls).contains(x)) by {
                    if out@.contains(x) {
                        let a = choose|a: int| 0 <= a < out@.len() && out@[a] == x;
                        if a < before.len() {
                            assert(before[a] == x);
                            assert(before.contains(x));
                            let c = choose|c: int| 0 <= c < t0.len() && t0[c] == x;
                            assert(t1[c] == x);
                        } else {
                            assert(t1[k as int] == x);
                        }
                    }
                    if t1.contains(x) && all_of(ls).contains(x) {
                        let c = choose|c: int| 0 <= c < t1.len() && t1[c] == x;
                        if c < k {
                            assert(t0[c] == x);
                            assert(before.contains(x));
                            let a = choose|a: int| 0 <= a < before.len() && before[a] == x;
                            assert(out@[a] == x);
                        } else {
                            if before.contains(x) {
                                let a = choose|a: int| 0 <= a < before.len() && before[a] == x;
                                assert(out@[a] == x);
                            } else {
                                assert(out@[before.len() as int] == x);
                            }
                        }
                    }
                }
            }
            k = k + 1;
        }
        proof {
            assert(lists@[0]@.take(k as int) =~= lists@[0]@);
            assert forall|x: ExprId| #[trigger] out@.to_set().contains(x) <==> all_of(ls).contains(x) by {
                if all_of(ls).contains(x) {
                    assert(ls[0].contains(x));
                }
            }
            assert(out@.to_set() =~= all_of(ls));
        }
        QueryResult { matched_ids: out, stats }
    }

    /// The ids that answer some pattern, each once, in order of first
    /// answer.
    pub fn query_or(&self, patterns: &Vec<ExprPattern>) -> (r: QueryResult)
        ensures
            r.matched_ids@.no_duplicates(),
            r.matched_ids@.to_set() == any_of(patterns@.map_values(|p: ExprPattern| id_pattern_hits(self.stored(), p))),
    {
        let lists = self.answers(patterns);
        let ghost ls = patterns@.map_values(|p: ExprPattern| id_pattern_hits(self.stored(), p));
        let mut out: Vec<ExprId> = Vec::new();
        let mut j: usize = 0;
        while j < lists.len()
            invariant
                lists@.len() == ls.len(),
                forall|i: int| 0 <= i < lists@.len() ==> (#[trigger] lists@[i])@ == ls[i],
                j <= lists@.len(),
                out@.no_duplicates(),
                forall|x: ExprId| #[trigger] out@.contains(x) <==> any_of(ls.take(j as int)).contains(x),
            decreases lists@.len() - j,
        {
            let mut k: usize = 0;
            let ghost start = out@;
            while k < lists[j].len()
                invariant
                    lists@.len() == ls.len(),
                    forall|i: int| 0 <= i < lists@.len() ==> (#[trigger] lists@[i])@ == ls[i],
                    j < lists@.len(),
                    k <= lists@[j as int]@.len(),
                    out@.no_duplicates(),
                    forall|x: ExprId| #[trigger] out@.contains(x) <==> (start.contains(x) || lists@[j as int]@.take(k as int).contains(x)),
                decreases lists@[j as int]@.len() - k,
            {
                let id = lists[j][k];
                let ghost before = out@;
                if !contains_id(&out, id) {
                    out.push(id);
                    proof {
                        assert forall|a: int, b: int| 0 <= a < out@.len() && 0 <= b < out@.len() && a != b implies out@[a] != out@[b] by {
                            if a < before.len() && b < before.len() {
                                assert(out@[a] == before[a] && out@[b] == before[b]);
                            } else if a == before.len() {
                                assert(out@[b] == before[b]);
                            } else {
                                assert(out@[a] == before[a]);
                            }
                        }
                    }
                }
                proof {
                    let t0 = lists@[j as int]@.take(k as int);
                    let t1 = lists@[j as int]@.take(k + 1);
                    assert(t1 =~= t0.push(id));
                    assert forall|x: ExprId| #[trigger] out@.contains(x) <==> (start.contains(x) || t1.contains(x)) by {
                        if out@.contains(x) {
                            let a = choose|a: int| 0 <= a < out@.len() && out@[a] == x;
                            if a < before.len() {
                                assert(before[a] == x);
                                assert(before.contains(x));
                                if !start.contains(x) {
                                    let c = choose|c: int| 0 <= c < t0.len() && t0[c] == x;
                                    assert(t1[c] == x);
                                }
                            } else {
                                assert(t1[k as int] == x);
                            }
                        }
                        if start.contains(x) || t1.contains(x) {
                            if start.contains(x) || t0.contains(x) {
                                if t0.contains(x) {
                                    let c = choose|c: int| 0 <= c < t0.len() && t0[c] == x;
                                }
                                assert(before.contains(x));
                                let a = choose|a: int| 0 <= a < before.len() && before[a] == x;
                                assert(out@[a] == x);
                            } else {
                                let c = choose|c: int| 0 <= c < t1.len() && t1[c] == x;
                                assert(c == k);
                                if before.contains(x) {
                                    let a = choose|a: int| 0 <= a < before.len() && before[a] == x;
                                    assert(out@[a] == x);
                                } else {
                                    assert(out@[before.len() as int] == x);
                                }
                            }
                        }
                    }
                }
                k = k + 1;
            }
            proof {
                assert(lists@[j as int]@.take(k as int) =~= lists@[j as int]@);
                assert(ls.take(j + 1) =~= ls.take(j as int).push(ls[j as int]));
                assert forall|x: ExprId| #[trigger] out@.contains(x) <==> any_of(ls.take(j + 1)).contains(x) by {
                    if any_of(ls.take(j + 1)).contains(x) {
                        let i = choose|i: int| 0 <= i < ls.take(j + 1).len() && #[trigger] ls.take(j + 1)[i].contains(x);
                        if i < j {
                            assert(ls.take(j as int)[i] == ls.take(j + 1)[i]);
                            assert(any_of(ls.take(j as int)).contains(x));
                        }
                    }
                    if start.contains(x) {
                        let i = choose|i: int| 0 <= i < ls.take(j as int).len() && #[trigger] ls.take(j as int)[i].contains(x);
                        assert(ls.take(j + 1)[i] == ls.take(j as int)[i]);
                    }
                    if lists@[j as int]@.contains(x) {
                        assert(ls.take(j + 1)[j as int] == ls[j as int]);
                    }
                }
            }
            j = j + 1;
        }
        proof {
            assert(ls.take(j as int) =~= ls);
            assert(out@.to_set() =~= any_of(ls));
        }
        QueryResult { matched_ids: out, stats: QueryStats { expressions_scanned: 0, index_hits: 0, filters_applied: 0 } }
    }

    /// The ids that answer `pattern`, each as often as `pattern_hits` counts
    /// it, in storing order, with the work done.
    pub fn query(&self, pattern: &ExprPattern) -> (r: QueryResult)
        ensures
            r.matched_ids@ == id_pattern_hits(self.stored(), *pattern),
    {
        let mut out: Vec<ExprId> = Vec::new();
        let mut k: usize = 0;
        assert(self.stored().take(0) =~= Seq::<StoredExpression>::empty());
        let none: Vec<u8> = Vec::new();
        while k < self.expressions.len()
            invariant
                k <= self.expressions@.len(),
                out@ == id_pattern_hits(self.stored().take(k as int), *pattern),
            decreases self.expressions@.len() - k,
        {
            let e = &self.expressions[k].structure;
            let id = self.expressions[k].id;
            match pattern {
                ExprPattern::Any => {
                    push_copies(&mut out, id, 1);
                },
                ExprPattern::Symbol(sym) => {
                    push_hits(e, false, 0, sym, id, &mut out);
                },
                ExprPattern::Variable(_) => {
                    let n: usize = if matches_exec(e, pattern) { 1 } else { 0 };
                    push_copies(&mut out, id, n);
                },
                ExprPattern::Compound { arity, .. } => {
                    if matches_exec(e, pattern) {
                        push_hits(e, true, *arity, &none, id, &mut out);
                    } else {
                        push_copies(&mut out, id, 0);
                    }
                },
            }
            proof { lemma_id_hits_step(self.stored(), k as int, true, 0, seq![], *pattern); }
            k = k + 1;
        }
        assert(self.stored().take(k as int) =~= self.stored());
        let n = self.expressions.len();
        let stats = match pattern {
            ExprPattern::Any => QueryStats { expressions_scanned: n, index_hits: 0, filters_applied: 0 },
            ExprPattern::Symbol(_) => QueryStats { expressions_scanned: 0, index_hits: 1, filters_applied: 0 },
            ExprPattern::Variable(_) => QueryStats { expressions_scanned: n, index_hits: 0, filters_applied: 1 },
            ExprPattern::Compound { .. } => QueryStats { expressions_scanned: 0, index_hits: 1, filters_applied: 1 },
        };
        QueryResult { matched_ids: out, stats }
    }
}

} // verus!
