use vstd::prelude::*;

verus! {

/// The meaning of one byte of an encoded expression: two tag bits and a
/// six-bit payload.
#[derive(PartialEq, Eq, Structural, Clone, Copy, Debug)]
pub enum Tag {
    /// `$`: introduces a fresh variable.
    NewVar,
    /// `_i`: refers back to the i-th introduced variable.
    VarRef(u8),
    /// The next `s` bytes are a symbol.
    SymbolSize(u8),
    /// The next `a` encoded expressions form one compound.
    Arity(u8),
}

/// A tag that has a byte: sizes 1..=63, indices and arities 0..=63.
pub open spec fn tag_valid(t: Tag) -> bool {
    match t {
        Tag::NewVar => true,
        Tag::VarRef(i) => i < 64,
        Tag::SymbolSize(s) => 1 <= s < 64,
        Tag::Arity(a) => a < 64,
    }
}

pub open spec fn tag_byte(t: Tag) -> u8 {
    match t {
        Tag::NewVar => 192u8,
        Tag::VarRef(i) => (128 + i) as u8,
        Tag::SymbolSize(s) => (192 + s) as u8,
        Tag::Arity(a) => a,
    }
}

/// What a byte means; `None` for the reserved bytes `01xxxxxx`.
pub open spec fn byte_tag(b: u8) -> Option<Tag> {
    if b == 192 {
        Some(Tag::NewVar)
    } else if b > 192 {
        Some(Tag::SymbolSize((b - 192) as u8))
    } else if b >= 128 {
        Some(Tag::VarRef((b - 128) as u8))
    } else if b < 64 {
        Some(Tag::Arity(b))
    } else {
        None
    }
}

pub open spec fn is_reserved(b: u8) -> bool {
    64 <= b < 128
}

/// The byte of a tag.
pub fn item_byte(t: Tag) -> (r: u8)
    requires
        tag_valid(t),
    ensures
        r == tag_byte(t),
        byte_tag(r) == Some(t),
{
    match t {
        Tag::NewVar => 192u8,
        Tag::VarRef(i) => 128u8 + i,
        Tag::SymbolSize(s) => 192u8 + s,
        Tag::Arity(a) => a,
    }
}

/// The tag of a byte that is not reserved.
pub fn byte_item(b: u8) -> (r: Tag)
    requires
        !is_reserved(b),
    ensures
        byte_tag(b) == Some(r),
        tag_valid(r),
        tag_byte(r) == b,
{
    if b == 192 {
        Tag::NewVar
    } else if b > 192 {
        Tag::SymbolSize(b - 192)
    } else if b >= 128 {
        Tag::VarRef(b - 128)
    } else {
        Tag::Arity(b)
    }
}

/// An expression: the mathematical value that an encoding stands for.
pub ghost enum SExpr {
    NewVar,
    VarRef(u8),
    Symbol(Seq<u8>),
    Compound(Seq<SExpr>),
}

/// Every symbol has 1 to 63 bytes, every compound at most 63 members and
/// every reference an index below 64.
pub open spec fn wf(e: SExpr) -> bool
    decreases e,
{
    match e {
        SExpr::NewVar => true,
        SExpr::VarRef(i) => i < 64,
        SExpr::Symbol(s) => 1 <= s.len() < 64,
        SExpr::Compound(cs) => cs.len() < 64 && wf_list(cs),
    }
}

pub open spec fn wf_list(es: Seq<SExpr>) -> bool
    decreases es,
{
    es.len() == 0 || (wf(es[0]) && wf_list(es.drop_first()))
}

/// The bytes of an expression, in prefix order.
pub open spec fn encode(e: SExpr) -> Seq<u8>
    decreases e,
{
    match e {
        SExpr::NewVar => seq![192u8],
        SExpr::VarRef(i) => seq![(128 + i) as u8],
        SExpr::Symbol(s) => seq![(192 + s.len()) as u8] + s,
        SExpr::Compound(cs) => seq![cs.len() as u8] + encode_list(cs),
    }
}

pub open spec fn encode_list(es: Seq<SExpr>) -> Seq<u8>
    decreases es,
{
    if es.len() == 0 {
        seq![]
    } else {
        encode(es[0]) + encode_list(es.drop_first())
    }
}

/// Reads `n` expressions from `b` at `pos`: the expressions and the position
/// after them, or `None` where the bytes end early or hold a reserved tag.
pub open spec fn parse_list(b: Seq<u8>, pos: int, n: nat) -> Option<(Seq<SExpr>, int)>
    decreases b.len() - pos,
{
    if n == 0 {
        Some((seq![], pos))
    } else if pos < 0 || pos >= b.len() {
        None
    } else {
        let first: Option<(SExpr, int)> = match byte_tag(b[pos]) {
            None => None,
            Some(Tag::NewVar) => Some((SExpr::NewVar, pos + 1)),
            Some(Tag::VarRef(i)) => Some((SExpr::VarRef(i), pos + 1)),
            Some(Tag::SymbolSize(s)) => if pos + 1 + s <= b.len() {
                Some((SExpr::Symbol(b.subrange(pos + 1, pos + 1 + s)), pos + 1 + s))
            } else {
                None
            },
            Some(Tag::Arity(a)) => match parse_list(b, pos + 1, a as nat) {
                Some((cs, end)) => Some((SExpr::Compound(cs), end)),
                None => None,
            },
        };
        match first {
            None => None,
            Some((e, next)) => if pos < next <= b.len() {
                match parse_list(b, next, (n - 1) as nat) {
                    Some((es, last)) => Some((seq![e] + es, last)),
                    None => None,
                }
            } else {
                None
            },
        }
    }
}


/// Decoding undoes encoding: reading `es.len()` expressions where the
/// encoding of `es` stands gives back `es` and the position just after it,
/// whatever bytes surround it. So the encoding is a prefix code.
pub proof fn lemma_parse_encode_list(b: Seq<u8>, pos: int, es: Seq<SExpr>)
    requires
        wf_list(es),
        0 <= pos,
        pos + encode_list(es).len() <= b.len(),
        b.subrange(pos, pos + encode_list(es).len()) == encode_list(es),
    ensures
        parse_list(b, pos, es.len()) == Some((es, pos + encode_list(es).len())),
    decreases es,
{
    if es.len() > 0 {
        let e = es[0];
        let rest = es.drop_first();
        let ee = encode(e);
        let er = encode_list(rest);
        let next = pos + ee.len();
        assert(wf(e) && wf_list(rest));
        assert(encode_list(es) == ee + er);
        assert(b.subrange(pos, next) == ee) by {
            assert(b.subrange(pos, next) =~= encode_list(es).subrange(0, ee.len() as int));
        }
        assert(b.subrange(next, next + er.len()) == er) by {
            assert(b.subrange(next, next + er.len()) =~= encode_list(es).subrange(
                ee.len() as int,
                (ee.len() + er.len()) as int,
            ));
        }
        assert(b[pos] == ee[0]) by {
            assert(b.subrange(pos, next)[0] == b[pos]);
        }
        match e {
            SExpr::NewVar => {},
            SExpr::VarRef(i) => {},
            SExpr::Symbol(s) => {
                assert(b.subrange(pos + 1, pos + 1 + s.len()) =~= s) by {
                    assert forall|k: int| 0 <= k < s.len() implies b.subrange(
                        pos + 1,
                        pos + 1 + s.len(),
                    )[k] == s[k] by {
                        assert(b.subrange(pos, next)[k + 1] == ee[k + 1]);
                    }
                }
            },
            SExpr::Compound(cs) => {
                let ec = encode_list(cs);
                assert(wf_list(cs));
                assert(b.subrange(pos + 1, pos + 1 + ec.len()) =~= ec) by {
                    assert forall|k: int| 0 <= k < ec.len() implies b.subrange(
                        pos + 1,
                        pos + 1 + ec.len(),
                    )[k] == ec[k] by {
                        assert(b.subrange(pos, next)[k + 1] == ee[k + 1]);
                    }
                }
                lemma_parse_encode_list(b, pos + 1, cs);
            },
        }
        lemma_parse_encode_list(b, next, rest);
        assert(seq![e] + rest =~= es);
    }
}

/// What `parse_list` returns has `n` expressions, each well formed, and ends
/// after `pos` and within `b`.
pub proof fn lemma_parse_list_shape(b: Seq<u8>, pos: int, n: nat)
    ensures
        parse_list(b, pos, n) matches Some((es, end)) ==> {
            &&& es.len() == n
            &&& wf_list(es)
            &&& n == 0 ==> end == pos
            &&& n > 0 ==> pos < end <= b.len()
        },
    decreases b.len() - pos,
{
    if n == 0 {
        assert(wf_list(Seq::<SExpr>::empty()));
    } else if 0 <= pos < b.len() {
        let first: Option<(SExpr, int)> = match byte_tag(b[pos]) {
            None => None,
            Some(Tag::NewVar) => Some((SExpr::NewVar, pos + 1)),
            Some(Tag::VarRef(i)) => Some((SExpr::VarRef(i), pos + 1)),
            Some(Tag::SymbolSize(sz)) => if pos + 1 + sz <= b.len() {
                Some((SExpr::Symbol(b.subrange(pos + 1, pos + 1 + sz)), pos + 1 + sz))
            } else {
                None
            },
            Some(Tag::Arity(a)) => match parse_list(b, pos + 1, a as nat) {
                Some((cs, end)) => Some((SExpr::Compound(cs), end)),
                None => None,
            },
        };
        match byte_tag(b[pos]) {
            Some(Tag::Arity(a)) => {
                lemma_parse_list_shape(b, pos + 1, a as nat);
            },
            _ => {},
        }
        match first {
            Some((e, next)) => {
                assert(wf(e));
                if pos < next <= b.len() {
                    lemma_parse_list_shape(b, next, (n - 1) as nat);
                    match parse_list(b, next, (n - 1) as nat) {
                        Some((es2, last)) => {
                            let es = seq![e] + es2;
                            assert(es.drop_first() =~= es2);
                            assert(es[0] == e);
                            assert(wf_list(es));
                        },
                        None => {},
                    }
                }
            },
            None => {},
        }
    }
}

/// What `parse_list` read is the encoding of what it returned.
pub proof fn lemma_parse_is_encode(b: Seq<u8>, pos: int, n: nat)
    requires
        0 <= pos <= b.len(),
    ensures
        parse_list(b, pos, n) matches Some((es, end)) ==> pos <= end <= b.len() && b.subrange(pos, end) == encode_list(es),
    decreases b.len() - pos,
{
    lemma_parse_list_shape(b, pos, n);
    if n == 0 {
        assert(encode_list(Seq::<SExpr>::empty()) =~= Seq::<u8>::empty());
        assert(b.subrange(pos, pos) =~= encode_list(Seq::<SExpr>::empty()));
    } else if 0 <= pos < b.len() {
        match byte_tag(b[pos]) {
            Some(Tag::Arity(a)) => {
                lemma_parse_is_encode(b, pos + 1, a as nat);
                lemma_parse_list_shape(b, pos + 1, a as nat);
            },
            _ => {},
        }
        match parse_list(b, pos, n) {
            Some((es, end)) => {
                let e = es[0];
                let next: int = match e {
                    SExpr::Compound(cs) => parse_list(b, pos + 1, cs.len())->Some_0.1,
                    SExpr::Symbol(sym) => pos + 1 + sym.len(),
                    _ => pos + 1,
                };
                lemma_parse_is_encode(b, next, (n - 1) as nat);
                assert(es.drop_first() == parse_list(b, next, (n - 1) as nat)->Some_0.0);
                assert(b.subrange(pos, next) =~= encode(e)) by {
                    match e {
                        SExpr::Compound(cs) => {
                            assert(b.subrange(pos, next) =~= seq![b[pos]] + b.subrange(pos + 1, next));
                        },
                        SExpr::Symbol(sym) => {
                            assert(b.subrange(pos, next) =~= seq![b[pos]] + b.subrange(pos + 1, next));
                        },
                        _ => {},
                    }
                }
                assert(b.subrange(pos, end) =~= b.subrange(pos, next) + b.subrange(next, end));
            },
            None => {},
        }
    }
}

/// The one expression that `b` encodes in full, if any.
pub open spec fn decoded(b: Seq<u8>) -> Option<SExpr> {
    match parse_list(b, 0, 1) {
        Some((es, end)) => if end == b.len() && es.len() == 1 {
            Some(es[0])
        } else {
            None
        },
        None => None,
    }
}

/// The one-expression form of the round trip.
pub proof fn lemma_decode_encode(e: SExpr)
    requires
        wf(e),
    ensures
        parse_list(encode(e), 0, 1) == Some((seq![e], encode(e).len() as int)),
{
    let es = seq![e];
    assert(es.drop_first() =~= Seq::<SExpr>::empty());
    assert(encode_list(es.drop_first()) =~= Seq::<u8>::empty());
    assert(encode_list(es) =~= encode(e));
    assert(wf_list(es.drop_first()));
    assert(wf_list(es));
    assert(encode(e).subrange(0, encode(e).len() as int) =~= encode(e));
    lemma_parse_encode_list(encode(e), 0, es);
}


/// An expression held as a tree.
#[derive(PartialEq, Eq, Debug)]
pub enum Term {
    NewVar,
    VarRef(u8),
    Symbol(Vec<u8>),
    Compound(Vec<Term>),
}

pub open spec fn view_term(t: Term) -> SExpr
    decreases t,
{
    match t {
        Term::NewVar => SExpr::NewVar,
        Term::VarRef(i) => SExpr::VarRef(i),
        Term::Symbol(s) => SExpr::Symbol(s@),
        Term::Compound(cs) => SExpr::Compound(view_terms(cs@)),
    }
}

pub open spec fn view_terms(ts: Seq<Term>) -> Seq<SExpr>
    decreases ts,
{
    if ts.len() == 0 {
        seq![]
    } else {
        seq![view_term(ts[0])] + view_terms(ts.drop_first())
    }
}

impl View for Term {
    type V = SExpr;

    open spec fn view(&self) -> SExpr {
        view_term(*self)
    }
}

pub proof fn lemma_view_terms(ts: Seq<Term>)
    ensures
        view_terms(ts).len() == ts.len(),
        forall|i: int| 0 <= i < ts.len() ==> #[trigger] view_terms(ts)[i] == view_term(ts[i]),
    decreases ts.len(),
{
    if ts.len() > 0 {
        lemma_view_terms(ts.drop_first());
        assert forall|i: int| 0 <= i < ts.len() implies #[trigger] view_terms(ts)[i] == view_term(
            ts[i],
        ) by {
            if i > 0 {
                assert(ts.drop_first()[i - 1] == ts[i]);
            }
        }
    }
}

pub proof fn lemma_wf_list(es: Seq<SExpr>)
    ensures
        wf_list(es) <==> forall|i: int| 0 <= i < es.len() ==> #[trigger] wf(es[i]),
    decreases es.len(),
{
    if es.len() > 0 {
        lemma_wf_list(es.drop_first());
        assert(wf_list(es) == (wf(es[0]) && wf_list(es.drop_first())));
        if forall|i: int| 0 <= i < es.len() ==> #[trigger] wf(es[i]) {
            assert forall|i: int| 0 <= i < es.drop_first().len() implies #[trigger] wf(
                es.drop_first()[i],
            ) by {
                assert(wf(es[i + 1]));
            }
        }
        if wf_list(es) {
            assert forall|i: int| 0 <= i < es.len() implies #[trigger] wf(es[i]) by {
                if i > 0 {
                    assert(es.drop_first()[i - 1] == es[i]);
                }
            }
        }
    }
}

pub proof fn lemma_encode_list_push(es: Seq<SExpr>, e: SExpr)
    ensures
        encode_list(es.push(e)) == encode_list(es) + encode(e),
    decreases es.len(),
{
    if es.len() == 0 {
        assert(es.push(e).drop_first() =~= Seq::<SExpr>::empty());
        assert(encode_list(es.push(e).drop_first()) =~= Seq::<u8>::empty());
        assert(encode_list(es) =~= Seq::<u8>::empty());
        assert(encode_list(es.push(e)) =~= encode(e));
    } else {
        assert(es.push(e).drop_first() =~= es.drop_first().push(e));
        lemma_encode_list_push(es.drop_first(), e);
        assert(encode_list(es.push(e)) =~= encode_list(es) + encode(e));
    }
}

impl Term {
    /// Whether the tree has a valid encoding: symbols of 1 to 63 bytes,
    /// compounds of at most 63 members, references below 64.
    pub fn is_well_formed(&self) -> (r: bool)
        ensures
            r == wf(self@),
        decreases self,
    {
        match self {
            Term::NewVar => true,
            Term::VarRef(i) => *i < 64,
            Term::Symbol(s) => 1 <= s.len() && s.len() < 64,
            Term::Compound(cs) => {
                if cs.len() >= 64 {
                    proof { lemma_view_terms(cs@); }
                    return false;
                }
                let ghost cv = view_terms(cs@);
                proof {
                    lemma_view_terms(cs@);
                    lemma_wf_list(cv);
                }
                let mut k: usize = 0;
                while k < cs.len()
                    invariant
                        *self == Term::Compound(*cs),
                        cv == view_terms(cs@),
                        cv.len() == cs@.len(),
                        cs@.len() < 64,
                        forall|i: int| 0 <= i < cs@.len() ==> #[trigger] cv[i] == view_term(cs@[i]),
                        wf_list(cv) <==> forall|i: int| 0 <= i < cv.len() ==> #[trigger] wf(cv[i]),
                        k <= cs@.len(),
                        forall|i: int| 0 <= i < k ==> #[trigger] wf(cv[i]),
                    decreases cs@.len() - k,
                {
                    proof {
                        assert(decreases_to!(*self => (*self)->Compound_0));
                        assert(decreases_to!(*cs => cs@));
                        assert(decreases_to!(cs@ => cs@[k as int]));
                    }
                    if !cs[k].is_well_formed() {
                        assert(!wf(cv[k as int]));
                        return false;
                    }
                    k = k + 1;
                }
                true
            },
        }
    }

    /// A copy of the tree.
    pub fn copy(&self) -> (r: Term)
        ensures
            r@ == self@,
        decreases self,
    {
        match self {
            Term::NewVar => Term::NewVar,
            Term::VarRef(i) => Term::VarRef(*i),
            Term::Symbol(s) => {
                let c = copy_range(s.as_slice(), 0, s.len());
                assert(c@ =~= s@);
                Term::Symbol(c)
            },
            Term::Compound(cs) => {
                let mut out: Vec<Term> = Vec::new();
                let mut k: usize = 0;
                proof {
                    lemma_view_terms(cs@);
                }
                while k < cs.len()
                    invariant
                        *self == Term::Compound(*cs),
                        k <= cs.len(),
                        view_terms(cs@).len() == cs.len(),
                        forall|i: int| 0 <= i < cs.len() ==> #[trigger] view_terms(cs@)[i] == view_term(cs@[i]),
                        out@.len() == k,
                        forall|i: int| 0 <= i < k ==> #[trigger] view_term(out@[i]) == view_term(cs@[i]),
                    decreases cs.len() - k,
                {
                    proof {
                        assert(decreases_to!(*self => (*self)->Compound_0));
                        assert((*self)->Compound_0 == *cs);
                        assert(decreases_to!(*cs => cs@));
                        assert(decreases_to!(cs@ => cs@[k as int]));
                        assert(decreases_to!(*self => cs@[k as int]));
                    }
                    let c = cs[k].copy();
                    out.push(c);
                    k = k + 1;
                }
                proof {
                    lemma_view_terms(out@);
                    assert(view_terms(out@) =~= view_terms(cs@));
                    assert(self@ == SExpr::Compound(view_terms(cs@)));
                }
                Term::Compound(out)
            },
        }
    }
}

/// Appends the encoding of `t` to `out`.
pub fn encode_term(t: &Term, out: &mut Vec<u8>)
    requires
        wf(t@),
    ensures
        final(out)@ == old(out)@ + encode(t@),
    decreases t,
{
    match t {
        Term::NewVar => {
            out.push(192u8);
        },
        Term::VarRef(i) => {
            out.push(128u8 + *i);
        },
        Term::Symbol(s) => {
            out.push(192u8 + s.len() as u8);
            let mut k: usize = 0;
            let ghost start = out@;
            while k < s.len()
                invariant
                    k <= s.len(),
                    out@ == start + s@.subrange(0, k as int),
                decreases s.len() - k,
            {
                out.push(s[k]);
                k = k + 1;
                assert(out@ =~= start + s@.subrange(0, k as int));
            }
            assert(s@.subrange(0, s.len() as int) =~= s@);
            assert(out@ =~= old(out)@ + encode(t@));
        },
        Term::Compound(cs) => {
            proof {
                lemma_view_terms(cs@);
                lemma_wf_list(view_terms(cs@));
            }
            out.push(cs.len() as u8);
            let ghost start = out@;
            let ghost vs = view_terms(cs@);
            let mut k: usize = 0;
            assert(encode_list(vs.subrange(0, 0)) =~= Seq::<u8>::empty());
            while k < cs.len()
                invariant
                    *t == Term::Compound(*cs),
                    k <= cs.len(),
                    vs == view_terms(cs@),
                    vs.len() == cs.len(),
                    forall|i: int| 0 <= i < cs.len() ==> #[trigger] vs[i] == view_term(cs@[i]),
                    forall|i: int| 0 <= i < vs.len() ==> #[trigger] wf(vs[i]),
                    out@ == start + encode_list(vs.subrange(0, k as int)),
                decreases cs.len() - k,
            {
                assert(wf(cs[k as int]@) && vs[k as int] == cs[k as int]@);
                proof {
                    assert(decreases_to!(*t => (*t)->Compound_0));
                    assert((*t)->Compound_0 == *cs);
                    assert(decreases_to!(*cs => cs@));
                    assert(decreases_to!(cs@ => cs@[k as int]));
                    assert(decreases_to!(*t => cs@[k as int]));
                }
                encode_term(&cs[k], out);
                proof {
                    assert(vs.subrange(0, k + 1) =~= vs.subrange(0, k as int).push(vs[k as int]));
                    lemma_encode_list_push(vs.subrange(0, k as int), vs[k as int]);
                }
                k = k + 1;
            }
            assert(vs.subrange(0, cs.len() as int) =~= vs);
            assert(out@ =~= old(out)@ + encode(t@));
        },
    }
}

/// The encoding of `t`.
pub fn encode_to_vec(t: &Term) -> (r: Vec<u8>)
    requires
        wf(t@),
    ensures
        r@ == encode(t@),
{
    let mut out: Vec<u8> = Vec::new();
    encode_term(t, &mut out);
    assert(out@ =~= encode(t@));
    out
}

/// The bytes `b[start..end]`.
pub fn copy_range(b: &[u8], start: usize, end: usize) -> (r: Vec<u8>)
    requires
        start <= end <= b@.len(),
    ensures
        r@ == b@.subrange(start as int, end as int),
{
    let mut out: Vec<u8> = Vec::new();
    let mut k: usize = start;
    while k < end
        invariant
            start <= k <= end <= b@.len(),
            out@ == b@.subrange(start as int, k as int),
        decreases end - k,
    {
        out.push(b[k]);
        k = k + 1;
        assert(out@ =~= b@.subrange(start as int, k as int));
    }
    out
}

/// Reads `n` expressions from `b` at `pos`, as `parse_list` does.
pub fn decode_list(b: &[u8], pos: usize, n: usize) -> (r: Option<(Vec<Term>, usize)>)
    ensures
        match r {
            None => parse_list(b@, pos as int, n as nat) is None,
            Some((ts, end)) => parse_list(b@, pos as int, n as nat) == Some(
                (view_terms(ts@), end as int),
            ),
        },
    decreases b@.len() - pos,
{
    if n == 0 {
        assert(view_terms(Seq::<Term>::empty()) =~= Seq::<SExpr>::empty());
        return Some((Vec::new(), pos));
    }
    if pos >= b.len() {
        return None;
    }
    let byte = b[pos];
    if 64 <= byte && byte < 128 {
        return None;
    }
    let first: Option<(Term, usize)> = match byte_item(byte) {
        Tag::NewVar => Some((Term::NewVar, pos + 1)),
        Tag::VarRef(i) => Some((Term::VarRef(i), pos + 1)),
        Tag::SymbolSize(s) => {
            if s as usize <= b.len() - pos - 1 {
                let sym = copy_range(b, pos + 1, pos + 1 + s as usize);
                Some((Term::Symbol(sym), pos + 1 + s as usize))
            } else {
                None
            }
        },
        Tag::Arity(a) => match decode_list(b, pos + 1, a as usize) {
            Some((cs, end)) => Some((Term::Compound(cs), end)),
            None => None,
        },
    };
    match first {
        None => None,
        Some((t, next)) => {
            if pos < next && next <= b.len() {
                match decode_list(b, next, n - 1) {
                    Some((rest, last)) => {
                        let mut ts: Vec<Term> = Vec::new();
                        ts.push(t);
                        let ghost rv = rest@;
                        let mut rest = rest;
                        ts.append(&mut rest);
                        proof {
                            lemma_view_terms(ts@);
                            lemma_view_terms(rv);
                            assert(view_terms(ts@) =~= seq![view_term(t)] + view_terms(rv));
                        }
                        Some((ts, last))
                    },
                    None => None,
                }
            } else {
                None
            }
        },
    }
}

/// Decodes the one expression that `b` holds in full: `None` where the
/// bytes are malformed or hold more than one expression.
pub fn decode(b: &[u8]) -> (r: Option<Term>)
    ensures
        r matches Some(t) ==> decoded(b@) == Some(t@),
        r is None ==> decoded(b@) is None,
        r matches Some(t) ==> wf(t@),
{
    proof { lemma_parse_list_shape(b@, 0, 1); }
    match decode_list(b, 0, 1) {
        Some((ts, end)) => {
            proof {
                lemma_view_terms(ts@);
            }
            if end == b.len() && ts.len() == 1 {
                let mut ts = ts;
                proof {
                    assert(view_terms(ts@) =~= seq![ts@[0]@]);
                }
                let t = ts.remove(0);
                proof { lemma_wf_list(view_terms(ts@.insert(0, t))); }
                Some(t)
            } else {
                None
            }
        },
        None => None,
    }
}

} // verus!
