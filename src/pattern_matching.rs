use vstd::prelude::*;
use crate::expr_query::{ExprStructure, depth_exec, depth_of, sat, symbol_hits, push_hits};
use crate::matching::bytes_equal;
use vstd::string::StringSliceAdditionalSpecFns;
use vstd::string::StringExecFns;

verus! {

/// How unification behaves.
pub struct UnificationConfig {
    /// Nesting depth beyond which unification fails.
    pub max_depth: usize,
    pub occurs_check: bool,
    /// Whether compiled patterns are kept for reuse.
    pub enable_caching: bool,
    pub max_variables: usize,
}

impl UnificationConfig {
    /// Depth 100, occurs check and caching on, 1000 variables.
    pub fn default() -> (r: UnificationConfig)
        ensures
            r.max_depth == 100,
            r.occurs_check,
            r.enable_caching,
            r.max_variables == 1000,
    {
        UnificationConfig { max_depth: 100, occurs_check: true, enable_caching: true, max_variables: 1000 }
    }
}

/// What a variable may bind to.
#[derive(PartialEq, Eq, Structural, Clone, Copy, Debug)]
pub enum VariableType {
    Expression,
    Sequence,
    Symbol,
    Compound,
}

/// A pattern variable.
pub struct Variable {
    pub name: String,
    pub id: u32,
    pub var_type: VariableType,
}

/// Properties an expression can be checked for.
pub enum PropertyCheck {
    IsSymbol,
    IsVariable,
    IsCompound,
    HasArity(usize),
    ContainsSymbol(Vec<u8>),
    DepthEquals(usize),
    DepthGreaterThan(usize),
    DepthLessThan(usize),
}

/// A condition on the expression a pattern is matched against.
pub enum Condition {
    /// The expression is the wildcard's, or the same symbol.
    Unifiable(Box<PatternStructure>),
    Property(PropertyCheck),
}

/// A pattern over `ExprStructure`s.
pub enum PatternStructure {
    Symbol(Vec<u8>),
    Variable(Variable),
    Compound { arity: usize, patterns: Vec<PatternStructure> },
    Wildcard,
    Conditional { pattern: Box<PatternStructure>, condition: Condition },
    Alternative(Vec<PatternStructure>),
    Sequence { patterns: Vec<PatternStructure>, min_matches: usize, max_matches: Option<usize> },
}

/// Structural requirements on a bound expression.
pub enum StructuralConstraint {
    Arity(usize),
    ContainsSymbol(Vec<u8>),
    Depth(usize),
    Size { min: Option<usize>, max: Option<usize> },
}

/// A requirement on the bindings of a match.
pub enum Constraint {
    Type(Variable, VariableType),
    Equal(Variable, Variable),
    NotEqual(Variable, Variable),
    Structure(Variable, StructuralConstraint),
}

/// A pattern ready for matching.
pub struct CompiledPattern {
    pub id: u64,
    pub structure: PatternStructure,
    pub variables: Vec<Variable>,
    pub constraints: Vec<Constraint>,
}

/// The outcome of checking one constraint.
pub struct ConstraintBinding {
    pub constraint_index: usize,
    pub satisfied: bool,
    pub reason: Option<String>,
}

/// What the variables were bound to, in order of binding.
pub struct VariableBindings {
    pub bindings: Vec<(Variable, ExprStructure)>,
    pub constraints: Vec<ConstraintBinding>,
}

pub struct UnificationResult {
    pub success: bool,
    pub bindings: VariableBindings,
    pub constraints_satisfied: bool,
}

/// The state of one match: depth reached, bindings so far, depth limit.
pub struct MatchingContext {
    pub depth: usize,
    pub max_depth: usize,
}

/// For each pattern in order, its matches: (expression index, result).
pub struct MultiMatchResult {
    pub pattern_matches: Vec<Vec<(usize, UnificationResult)>>,
    pub total_patterns: usize,
    pub total_expressions: usize,
}

pub struct UnificationStats {
    pub cached_patterns: usize,
    pub cached_unifications: usize,
    pub cache_enabled: bool,
}

#[derive(Debug)]
pub enum UnificationError {
    ParseError(String),
    TypeMismatch(String),
    ConstraintViolation(String),
    RecursionLimit,
    InvalidPattern(String),
}


/// What the parser can produce, as a mathematical value.
pub ghost enum PShape {
    Wild,
    Var(u32, Seq<char>),
    Sym(Seq<u8>),
    Comp(usize, Seq<PShape>),
    Other,
}

pub open spec fn shape(p: PatternStructure) -> PShape
    decreases p,
{
    match p {
        PatternStructure::Wildcard => PShape::Wild,
        PatternStructure::Variable(v) => if v.var_type == VariableType::Expression {
            PShape::Var(v.id, v.name@)
        } else {
            PShape::Other
        },
        PatternStructure::Symbol(s) => PShape::Sym(s@),
        PatternStructure::Compound { arity, patterns } => PShape::Comp(arity, shapes(patterns@)),
        _ => PShape::Other,
    }
}

pub open spec fn shapes(ps: Seq<PatternStructure>) -> Seq<PShape>
    decreases ps,
{
    if ps.len() == 0 {
        seq![]
    } else {
        seq![shape(ps[0])] + shapes(ps.drop_first())
    }
}

pub open spec fn digit_char(d: nat) -> char {
    if d == 0 { '0' } else if d == 1 { '1' } else if d == 2 { '2' } else if d == 3 { '3' } else if d == 4 { '4' }
    else if d == 5 { '5' } else if d == 6 { '6' } else if d == 7 { '7' } else if d == 8 { '8' } else { '9' }
}

/// The decimal digits of `n`.
pub open spec fn decimal(n: nat) -> Seq<char>
    decreases n,
{
    if n < 10 {
        seq![digit_char(n)]
    } else {
        decimal(n / 10).push(digit_char(n % 10))
    }
}

/// The name the parser gives the variable with id `id`: `var_` and the id.
pub open spec fn var_name(id: u32) -> Seq<char> {
    seq!['v', 'a', 'r', '_'] + decimal(id as nat)
}

fn digit_str(d: u32) -> (r: &'static str)
    requires
        d < 10,
    ensures
        r@ == seq![digit_char(d as nat)],
{
    if d == 0 { proof { reveal_strlit("0"); } "0" }
    else if d == 1 { proof { reveal_strlit("1"); } "1" }
    else if d == 2 { proof { reveal_strlit("2"); } "2" }
    else if d == 3 { proof { reveal_strlit("3"); } "3" }
    else if d == 4 { proof { reveal_strlit("4"); } "4" }
    else if d == 5 { proof { reveal_strlit("5"); } "5" }
    else if d == 6 { proof { reveal_strlit("6"); } "6" }
    else if d == 7 { proof { reveal_strlit("7"); } "7" }
    else if d == 8 { proof { reveal_strlit("8"); } "8" }
    else { proof { reveal_strlit("9"); } "9" }
}

/// Appends the decimal digits of `n` to `s`.
fn push_decimal(n: u32, s: &mut String)
    ensures
        final(s)@ == old(s)@ + decimal(n as nat),
    decreases n,
{
    if n >= 10 {
        push_decimal(n / 10, s);
    }
    s.append(digit_str(n % 10));
    assert(s@ =~= old(s)@ + decimal(n as nat));
}

/// The name the parser gives variable `id`.
fn make_var_name(id: u32) -> (r: String)
    ensures
        r@ == var_name(id),
{
    proof { reveal_strlit("var_"); }
    let mut s = String::from_str("var_");
    assert(s@ =~= seq!['v', 'a', 'r', '_']);
    push_decimal(id, &mut s);
    s
}

pub open spec fn is_ws(c: u8) -> bool {
    c == 32 || (9 <= c <= 13)
}

pub open spec fn skip_ws(b: Seq<u8>, pos: int) -> int
    decreases b.len() - pos,
{
    if 0 <= pos < b.len() && is_ws(b[pos]) {
        skip_ws(b, pos + 1)
    } else {
        pos
    }
}

/// The first position from `pos` on that holds `"`, or the end.
pub open spec fn quote_end(b: Seq<u8>, pos: int) -> int
    decreases b.len() - pos,
{
    if 0 <= pos < b.len() && b[pos] != 34 {
        quote_end(b, pos + 1)
    } else {
        pos
    }
}

/// The first position from `pos` on that holds white space or a
/// parenthesis, or the end.
pub open spec fn ident_end(b: Seq<u8>, pos: int) -> int
    decreases b.len() - pos,
{
    if 0 <= pos < b.len() && !is_ws(b[pos]) && b[pos] != 40 && b[pos] != 41 {
        ident_end(b, pos + 1)
    } else {
        pos
    }
}

/// Parses one pattern at `pos` with `nv` the next variable id: `*` is the
/// wildcard, `?` a fresh variable, `( .. )` a compound, `".."` a symbol of
/// the quoted bytes, and any other run of bytes up to white space or a
/// parenthesis a symbol. The shape, the position after it and the next
/// variable id; `None` on a parse error.
pub open spec fn parse_pat(b: Seq<u8>, pos: int, nv: u32) -> Option<(PShape, int, u32)>
    decreases b.len() - pos, 0int,
{
    if pos < 0 || pos > b.len() {
        None
    } else {
        let p = skip_ws(b, pos);
        if p < pos || p >= b.len() {
            None
        } else if b[p] == 42 {
            Some((PShape::Wild, p + 1, nv))
        } else if b[p] == 63 {
            if nv == u32::MAX {
                None
            } else {
                Some((PShape::Var(nv, var_name(nv)), p + 1, (nv + 1) as u32))
            }
        } else if b[p] == 40 {
            match parse_items(b, p + 1, nv) {
                Some((xs, q, nv2)) => if xs.len() <= usize::MAX {
                    Some((PShape::Comp(xs.len() as usize, xs), q, nv2))
                } else {
                    None
                },
                None => None,
            }
        } else if b[p] == 34 {
            let q = quote_end(b, p + 1);
            if q >= b.len() {
                None
            } else {
                Some((PShape::Sym(b.subrange(p + 1, q)), q + 1, nv))
            }
        } else {
            let q = ident_end(b, p);
            if q == p {
                None
            } else {
                Some((PShape::Sym(b.subrange(p, q)), q, nv))
            }
        }
    }
}

/// The members of a compound after its `(`, up to and past its `)`.
pub open spec fn parse_items(b: Seq<u8>, pos: int, nv: u32) -> Option<(Seq<PShape>, int, u32)>
    decreases b.len() - pos, 1int,
{
    if pos < 0 || pos > b.len() {
        None
    } else {
        let p = skip_ws(b, pos);
        if p < pos || p >= b.len() {
            None
        } else if b[p] == 41 {
            Some((seq![], p + 1, nv))
        } else {
            match parse_pat(b, p, nv) {
                Some((x, q, nv2)) => if p < q <= b.len() {
                    match parse_items(b, q, nv2) {
                        Some((xs, r, nv3)) => Some((seq![x] + xs, r, nv3)),
                        None => None,
                    }
                } else {
                    None
                },
                None => None,
            }
        }
    }
}

proof fn lemma_skip_ws(b: Seq<u8>, pos: int)
    requires
        0 <= pos <= b.len(),
    ensures
        pos <= skip_ws(b, pos) <= b.len(),
    decreases b.len() - pos,
{
    if pos < b.len() && is_ws(b[pos]) {
        lemma_skip_ws(b, pos + 1);
    }
}

proof fn lemma_scan_ends(b: Seq<u8>, pos: int)
    requires
        0 <= pos <= b.len(),
    ensures
        pos <= quote_end(b, pos) <= b.len(),
        pos <= ident_end(b, pos) <= b.len(),
    decreases b.len() - pos,
{
    if pos < b.len() {
        lemma_scan_ends(b, pos + 1);
    }
}

fn skip_ws_exec(b: &[u8], pos: usize) -> (r: usize)
    requires
        pos <= b@.len(),
    ensures
        r as int == skip_ws(b@, pos as int),
        pos <= r <= b@.len(),
{
    let mut p = pos;
    proof { lemma_skip_ws(b@, pos as int); }
    while p < b.len() && (b[p] == 32 || (9 <= b[p] && b[p] <= 13))
        invariant
            pos <= p <= b@.len(),
            skip_ws(b@, p as int) == skip_ws(b@, pos as int),
        decreases b@.len() - p,
    {
        p = p + 1;
    }
    p
}

fn goes_on(c: u8, quoted: bool) -> (r: bool)
    ensures
        quoted ==> r == (c != 34),
        !quoted ==> r == (!is_ws(c) && c != 40 && c != 41),
{
    if quoted {
        c != 34
    } else {
        !(c == 32 || (9 <= c && c <= 13)) && c != 40 && c != 41
    }
}

fn scan_exec(b: &[u8], pos: usize, quoted: bool) -> (r: usize)
    requires
        pos <= b@.len(),
    ensures
        quoted ==> r as int == quote_end(b@, pos as int),
        !quoted ==> r as int == ident_end(b@, pos as int),
        pos <= r <= b@.len(),
{
    let mut p = pos;
    proof { lemma_scan_ends(b@, pos as int); }
    while p < b.len() && goes_on(b[p], quoted)
        invariant
            pos <= p <= b@.len(),
            quoted ==> quote_end(b@, p as int) == quote_end(b@, pos as int),
            !quoted ==> ident_end(b@, p as int) == ident_end(b@, pos as int),
        decreases b@.len() - p,
    {
        p = p + 1;
    }
    p
}

fn parse_error(msg: &str) -> (r: UnificationError)
    ensures
        r is ParseError,
{
    UnificationError::ParseError(msg.to_string())
}

/// Parses one pattern, as `parse_pat` says.
fn parse_pattern_at(b: &[u8], pos: usize, nv: u32) -> (r: Result<(PatternStructure, usize, u32), UnificationError>)
    requires
        pos <= b@.len(),
    ensures
        r matches Ok((p, end, nv2)) ==> parse_pat(b@, pos as int, nv) == Some((shape(p), end as int, nv2)),
        r is Err ==> parse_pat(b@, pos as int, nv) is None,
    decreases b@.len() - pos, 0int,
{
    let p = skip_ws_exec(b, pos);
    if p >= b.len() {
        return Err(parse_error("Unexpected end of input"));
    }
    let c = b[p];
    if c == 42 {
        Ok((PatternStructure::Wildcard, p + 1, nv))
    } else if c == 63 {
        if nv == u32::MAX {
            return Err(parse_error("Too many variables"));
        }
        let v = Variable { name: make_var_name(nv), id: nv, var_type: VariableType::Expression };
        Ok((PatternStructure::Variable(v), p + 1, nv + 1))
    } else if c == 40 {
        match parse_items_at(b, p + 1, nv) {
            Ok((xs, q, nv2)) => {
                proof { lemma_shapes_len(xs@); }
                let n = xs.len();
                Ok((PatternStructure::Compound { arity: n, patterns: xs }, q, nv2))
            },
            Err(e) => Err(e),
        }
    } else if c == 34 {
        let q = scan_exec(b, p + 1, true);
        if q >= b.len() {
            return Err(parse_error("Unterminated string"));
        }
        let sym = crate::encoding::copy_range(b, p + 1, q);
        Ok((PatternStructure::Symbol(sym), q + 1, nv))
    } else {
        let q = scan_exec(b, p, false);
        if q == p {
            return Err(parse_error("Expected identifier"));
        }
        let sym = crate::encoding::copy_range(b, p, q);
        Ok((PatternStructure::Symbol(sym), q, nv))
    }
}

proof fn lemma_shapes_len(ps: Seq<PatternStructure>)
    ensures
        shapes(ps).len() == ps.len(),
    decreases ps.len(),
{
    if ps.len() > 0 {
        lemma_shapes_len(ps.drop_first());
    }
}

/// Parses the members of a compound, as `parse_items` says.
fn parse_items_at(b: &[u8], pos: usize, nv: u32) -> (r: Result<(Vec<PatternStructure>, usize, u32), UnificationError>)
    requires
        pos <= b@.len(),
    ensures
        r matches Ok((ps, end, nv2)) ==> parse_items(b@, pos as int, nv) == Some((shapes(ps@), end as int, nv2)),
        r is Err ==> parse_items(b@, pos as int, nv) is None,
    decreases b@.len() - pos, 1int,
{
    let p = skip_ws_exec(b, pos);
    if p >= b.len() {
        return Err(parse_error("Unmatched parenthesis"));
    }
    if b[p] == 41 {
        let v: Vec<PatternStructure> = Vec::new();
        assert(shapes(v@) =~= Seq::<PShape>::empty());
        return Ok((v, p + 1, nv));
    }
    match parse_pattern_at(b, p, nv) {
        Ok((x, q, nv2)) => {
            proof {
                match parse_pat(b@, p as int, nv) {
                    Some((_, q2, _)) => { assert(q2 == q); },
                    None => {},
                }
                lemma_pat_progress(b@, p as int, nv);
            }
            match parse_items_at(b, q, nv2) {
                Ok((rest, end, nv3)) => {
                    let mut v: Vec<PatternStructure> = Vec::new();
                    v.push(x);
                    let ghost rv = rest@;
                    let mut rest = rest;
                    v.append(&mut rest);
                    proof {
                        assert(v@.drop_first() =~= rv);
                        assert(shapes(v@) =~= seq![shape(v@[0])] + shapes(rv));
                    }
                    Ok((v, end, nv3))
                },
                Err(e) => Err(e),
            }
        },
        Err(e) => Err(e),
    }
}

proof fn lemma_pat_progress(b: Seq<u8>, pos: int, nv: u32)
    requires
        0 <= pos <= b.len(),
    ensures
        parse_pat(b, pos, nv) matches Some((_, q, _)) ==> pos < q <= b.len(),
    decreases b.len() - pos, 0int,
{
    lemma_skip_ws(b, pos);
    let p = skip_ws(b, pos);
    if p < b.len() {
        lemma_scan_ends(b, p);
        lemma_scan_ends(b, p + 1);
        lemma_items_progress(b, p + 1, nv);
    }
}

proof fn lemma_items_progress(b: Seq<u8>, pos: int, nv: u32)
    requires
        0 <= pos <= b.len(),
    ensures
        parse_items(b, pos, nv) matches Some((_, q, _)) ==> pos < q <= b.len(),
    decreases b.len() - pos, 1int,
{
    lemma_skip_ws(b, pos);
    let p = skip_ws(b, pos);
    if p < b.len() && b[p] != 41 {
        lemma_pat_progress(b, p, nv);
        match parse_pat(b, p, nv) {
            Some((x, q, nv2)) => {
                if p < q <= b.len() {
                    lemma_items_progress(b, q, nv2);
                }
            },
            None => {},
        }
    }
}


/// An `ExprStructure` as a mathematical value.
pub ghost enum EView {
    Sym(Seq<u8>),
    Var(Seq<char>),
    Comp(usize, Seq<EView>),
}

pub open spec fn eview(e: ExprStructure) -> EView
    decreases e,
{
    match e {
        ExprStructure::Symbol(s) => EView::Sym(s@),
        ExprStructure::Variable(v) => EView::Var(v@),
        ExprStructure::Compound { arity, children } => EView::Comp(arity, eviews(children@)),
    }
}

pub open spec fn eviews(es: Seq<ExprStructure>) -> Seq<EView>
    decreases es,
{
    if es.len() == 0 {
        seq![]
    } else {
        seq![eview(es[0])] + eviews(es.drop_first())
    }
}

/// A variable as a mathematical value: name, id and type.
pub open spec fn vkey(v: Variable) -> (Seq<char>, u32, VariableType) {
    (v.name@, v.id, v.var_type)
}

pub type Env = Seq<((Seq<char>, u32, VariableType), EView)>;

/// The binding of `v`, the first in `env`.
pub open spec fn lookup(env: Env, v: (Seq<char>, u32, VariableType)) -> Option<EView>
    decreases env.len(),
{
    if env.len() == 0 {
        None
    } else if env[0].0 == v {
        Some(env[0].1)
    } else {
        lookup(env.drop_first(), v)
    }
}

pub open spec fn type_compatible(e: ExprStructure, t: VariableType) -> bool {
    match t {
        VariableType::Expression => true,
        VariableType::Symbol => e is Symbol,
        VariableType::Compound => e is Compound,
        VariableType::Sequence => false,
    }
}

pub open spec fn check_property(e: ExprStructure, prop: PropertyCheck) -> bool {
    match prop {
        PropertyCheck::IsSymbol => e is Symbol,
        PropertyCheck::IsVariable => e is Variable,
        PropertyCheck::IsCompound => e is Compound,
        PropertyCheck::HasArity(a) => e matches ExprStructure::Compound { arity, .. } && arity == a,
        PropertyCheck::ContainsSymbol(s) => symbol_hits(e, s@) > 0,
        PropertyCheck::DepthEquals(d) => sat(depth_of(e)) == d,
        PropertyCheck::DepthGreaterThan(d) => sat(depth_of(e)) > d,
        PropertyCheck::DepthLessThan(d) => sat(depth_of(e)) < d,
    }
}

pub open spec fn check_condition(e: ExprStructure, c: Condition) -> bool {
    match c {
        Condition::Property(prop) => check_property(e, prop),
        Condition::Unifiable(p) => match *p {
            PatternStructure::Wildcard => true,
            PatternStructure::Symbol(s2) => e matches ExprStructure::Symbol(s1) && s1@ == s2@,
            _ => false,
        },
    }
}

/// Binding `v` to `e`: where `v` is bound, `e` must equal its binding;
/// else `e` must suit `v`'s type, and the binding is added.
pub open spec fn bind(e: ExprStructure, v: Variable, env: Env) -> (bool, Env) {
    match lookup(env, vkey(v)) {
        Some(x) => (eview(e) == x, env),
        None => if type_compatible(e, v.var_type) {
            (true, env.push((vkey(v), eview(e))))
        } else {
            (false, env)
        },
    }
}

/// Unifies `e` with `p` at nesting depth `depth`, failing at `maxd`: whether
/// it succeeds, and the bindings afterwards (a failed branch may leave
/// bindings behind).
pub open spec fn unify_spec(e: ExprStructure, p: PatternStructure, env: Env, depth: nat, maxd: nat) -> (bool, Env)
    decreases p,
{
    if depth >= maxd {
        (false, env)
    } else {
        match p {
            PatternStructure::Wildcard => (true, env),
            PatternStructure::Variable(v) => bind(e, v, env),
            PatternStructure::Symbol(s2) => (e matches ExprStructure::Symbol(s1) && s1@ == s2@, env),
            PatternStructure::Compound { arity: a2, patterns } => match e {
                ExprStructure::Compound { arity: a1, children } => if a1 == a2 && children@.len() == patterns@.len() {
                    unify_list(children@, patterns@, env, depth + 1, maxd)
                } else {
                    (false, env)
                },
                _ => (false, env),
            },
            PatternStructure::Conditional { pattern, condition } => if check_condition(e, condition) {
                unify_spec(e, *pattern, env, depth + 1, maxd)
            } else {
                (false, env)
            },
            PatternStructure::Alternative(alts) => unify_any(e, alts@, env, depth + 1, maxd),
            PatternStructure::Sequence { patterns, min_matches, max_matches } => match e {
                ExprStructure::Compound { children, .. } => if children@.len() < min_matches
                    || (max_matches matches Some(m) && children@.len() > m) || patterns@.len() != children@.len() {
                    (false, env)
                } else {
                    unify_list(children@, patterns@, env, depth + 1, maxd)
                },
                _ => (false, env),
            },
        }
    }
}

/// Unifies member by member, stopping at the first failure.
pub open spec fn unify_list(es: Seq<ExprStructure>, ps: Seq<PatternStructure>, env: Env, depth: nat, maxd: nat) -> (bool, Env)
    decreases ps,
{
    if ps.len() == 0 || es.len() == 0 {
        (true, env)
    } else {
        let (ok, env1) = unify_spec(es[0], ps[0], env, depth, maxd);
        if !ok {
            (false, env1)
        } else {
            unify_list(es.drop_first(), ps.drop_first(), env1, depth, maxd)
        }
    }
}

/// Tries the alternatives in turn, keeping what failed ones bound.
pub open spec fn unify_any(e: ExprStructure, alts: Seq<PatternStructure>, env: Env, depth: nat, maxd: nat) -> (bool, Env)
    decreases alts,
{
    if alts.len() == 0 {
        (false, env)
    } else {
        let (ok, env1) = unify_spec(e, alts[0], env, depth, maxd);
        if ok {
            (true, env1)
        } else {
            unify_any(e, alts.drop_first(), env1, depth, maxd)
        }
    }
}

pub open spec fn env_view(env: Seq<(Variable, ExprStructure)>) -> Env {
    env.map_values(|b: (Variable, ExprStructure)| (vkey(b.0), eview(b.1)))
}

proof fn lemma_eviews(es: Seq<ExprStructure>)
    ensures
        eviews(es).len() == es.len(),
        forall|i: int| 0 <= i < es.len() ==> #[trigger] eviews(es)[i] == eview(es[i]),
    decreases es.len(),
{
    if es.len() > 0 {
        lemma_eviews(es.drop_first());
        assert forall|i: int| 0 <= i < es.len() implies #[trigger] eviews(es)[i] == eview(es[i]) by {
            if i > 0 {
                assert(es.drop_first()[i - 1] == es[i]);
            }
        }
    }
}

/// A copy of `e`.
fn copy_expr(e: &ExprStructure) -> (r: ExprStructure)
    ensures
        eview(r) == eview(*e),
    decreases e,
{
    match e {
        ExprStructure::Symbol(s) => {
            let c = crate::encoding::copy_range(s.as_slice(), 0, s.len());
            assert(c@ =~= s@);
            ExprStructure::Symbol(c)
        },
        ExprStructure::Variable(v) => ExprStructure::Variable(v.clone()),
        ExprStructure::Compound { arity, children } => {
            let mut out: Vec<ExprStructure> = Vec::new();
            let mut k: usize = 0;
            proof { lemma_eviews(children@); }
            while k < children.len()
                invariant
                    *e == (ExprStructure::Compound { arity: *arity, children: *children }),
                    k <= children@.len(),
                    out@.len() == k,
                    forall|i: int| 0 <= i < k ==> #[trigger] eview(out@[i]) == eview(children@[i]),
                decreases children@.len() - k,
            {
                proof {
                    assert(decreases_to!(*e => (*e)->children));
                    assert(decreases_to!(*children => children@));
                    assert(decreases_to!(children@ => children@[k as int]));
                }
                out.push(copy_expr(&children[k]));
                k = k + 1;
            }
            proof {
                lemma_eviews(out@);
                lemma_eviews(children@);
                assert(eviews(out@) =~= eviews(children@));
            }
            ExprStructure::Compound { arity: *arity, children: out }
        },
    }
}

fn copy_var(v: &Variable) -> (r: Variable)
    ensures
        vkey(r) == vkey(*v),
{
    Variable { name: v.name.clone(), id: v.id, var_type: v.var_type }
}

/// Whether the two expressions are equal as values.
fn expressions_equal(a: &ExprStructure, b: &ExprStructure) -> (r: bool)
    ensures
        r == (eview(*a) == eview(*b)),
    decreases a,
{
    match a {
        ExprStructure::Symbol(s) => match b {
            ExprStructure::Symbol(t) => bytes_equal(s, t),
            _ => false,
        },
        ExprStructure::Variable(v) => match b {
            ExprStructure::Variable(w) => v.eq(w),
            _ => false,
        },
        ExprStructure::Compound { arity: a1, children: c1 } => match b {
            ExprStructure::Compound { arity: a2, children: c2 } => {
                proof { lemma_eviews(c1@); lemma_eviews(c2@); }
                if *a1 != *a2 || c1.len() != c2.len() {
                    return false;
                }
                let mut k: usize = 0;
                while k < c1.len()
                    invariant
                        *a == (ExprStructure::Compound { arity: *a1, children: *c1 }),
                        *b == (ExprStructure::Compound { arity: *a2, children: *c2 }),
                        k <= c1@.len(),
                        c1@.len() == c2@.len(),
                        eviews(c1@).len() == c1@.len(),
                        eviews(c2@).len() == c2@.len(),
                        forall|i: int| 0 <= i < c1@.len() ==> #[trigger] eviews(c1@)[i] == eview(c1@[i]),
                        forall|i: int| 0 <= i < c2@.len() ==> #[trigger] eviews(c2@)[i] == eview(c2@[i]),
                        forall|i: int| 0 <= i < k ==> eview(#[trigger] c1@[i]) == eview(c2@[i]),
                    decreases c1@.len() - k,
                {
                    proof {
                        assert(decreases_to!(*a => (*a)->children));
                        assert(decreases_to!(*c1 => c1@));
                        assert(decreases_to!(c1@ => c1@[k as int]));
                    }
                    if !expressions_equal(&c1[k], &c2[k]) {
                        assert(eviews(c1@)[k as int] != eviews(c2@)[k as int]);
                        return false;
                    }
                    k = k + 1;
                }
                assert(eviews(c1@) =~= eviews(c2@));
                true
            },
            _ => false,
        },
    }
}


proof fn lemma_env_view_push(env: Seq<(Variable, ExprStructure)>, b: (Variable, ExprStructure))
    ensures
        env_view(env.push(b)) == env_view(env).push((vkey(b.0), eview(b.1))),
{
    assert(env_view(env.push(b)) =~= env_view(env).push((vkey(b.0), eview(b.1))));
}

proof fn lemma_lookup_step(env: Env, i: int, k: (Seq<char>, u32, VariableType))
    requires
        0 <= i < env.len(),
    ensures
        lookup(env.subrange(i, env.len() as int), k) == if env[i].0 == k {
            Some(env[i].1)
        } else {
            lookup(env.subrange(i + 1, env.len() as int), k)
        },
{
    let t = env.subrange(i, env.len() as int);
    assert(t.drop_first() =~= env.subrange(i + 1, env.len() as int));
    assert(t[0] == env[i]);
}

/// The index of `v`'s binding in `env`, as `lookup` finds it.
fn lookup_exec(env: &Vec<(Variable, ExprStructure)>, v: &Variable) -> (r: Option<usize>)
    ensures
        r matches Some(i) ==> i < env@.len() && lookup(env_view(env@), vkey(*v)) == Some(eview(env@[i as int].1)),
        r is None ==> lookup(env_view(env@), vkey(*v)) is None,
{
    let ghost ev = env_view(env@);
    let ghost k = vkey(*v);
    assert(ev.subrange(0, ev.len() as int) =~= ev);
    let mut i: usize = 0;
    while i < env.len()
        invariant
            ev == env_view(env@),
            ev.len() == env@.len(),
            k == vkey(*v),
            i <= env@.len(),
            lookup(ev, k) == lookup(ev.subrange(i as int, ev.len() as int), k),
        decreases env@.len() - i,
    {
        let b = &env[i];
        proof { lemma_lookup_step(ev, i as int, k); }
        assert(ev[i as int] == (vkey(b.0), eview(b.1)));
        if b.0.name.eq(&v.name) && b.0.id == v.id && b.0.var_type == v.var_type {
            return Some(i);
        }
        i = i + 1;
    }
    assert(ev.subrange(i as int, ev.len() as int) =~= Seq::<((Seq<char>, u32, VariableType), EView)>::empty());
    None
}

fn type_compatible_exec(e: &ExprStructure, t: VariableType) -> (r: bool)
    ensures
        r == type_compatible(*e, t),
{
    match t {
        VariableType::Expression => true,
        VariableType::Symbol => match e {
            ExprStructure::Symbol(_) => true,
            _ => false,
        },
        VariableType::Compound => match e {
            ExprStructure::Compound { .. } => true,
            _ => false,
        },
        VariableType::Sequence => false,
    }
}

fn contains_symbol(e: &ExprStructure, s: &Vec<u8>) -> (r: bool)
    ensures
        r == (symbol_hits(*e, s@) > 0),
{
    let mut scratch: Vec<u64> = Vec::new();
    push_hits(e, false, 0, s, 0, &mut scratch);
    scratch.len() > 0
}

fn check_property_exec(e: &ExprStructure, prop: &PropertyCheck) -> (r: bool)
    ensures
        r == check_property(*e, *prop),
{
    match prop {
        PropertyCheck::IsSymbol => match e {
            ExprStructure::Symbol(_) => true,
            _ => false,
        },
        PropertyCheck::IsVariable => match e {
            ExprStructure::Variable(_) => true,
            _ => false,
        },
        PropertyCheck::IsCompound => match e {
            ExprStructure::Compound { .. } => true,
            _ => false,
        },
        PropertyCheck::HasArity(a) => match e {
            ExprStructure::Compound { arity, .. } => *arity == *a,
            _ => false,
        },
        PropertyCheck::ContainsSymbol(s) => contains_symbol(e, s),
        PropertyCheck::DepthEquals(d) => depth_exec(e) == *d,
        PropertyCheck::DepthGreaterThan(d) => depth_exec(e) > *d,
        PropertyCheck::DepthLessThan(d) => depth_exec(e) < *d,
    }
}

fn check_condition_exec(e: &ExprStructure, c: &Condition) -> (r: bool)
    ensures
        r == check_condition(*e, *c),
{
    match c {
        Condition::Property(prop) => check_property_exec(e, prop),
        Condition::Unifiable(p) => match &**p {
            PatternStructure::Wildcard => true,
            PatternStructure::Symbol(s2) => match e {
                ExprStructure::Symbol(s1) => bytes_equal(s1, s2),
                _ => false,
            },
            _ => false,
        },
    }
}

fn bind_exec(e: &ExprStructure, v: &Variable, env: &mut Vec<(Variable, ExprStructure)>) -> (r: bool)
    ensures
        (r, env_view(final(env)@)) == bind(*e, *v, env_view(old(env)@)),
{
    match lookup_exec(env, v) {
        Some(i) => expressions_equal(e, &env[i].1),
        None => {
            if type_compatible_exec(e, v.var_type) {
                let b = (copy_var(v), copy_expr(e));
                proof { lemma_env_view_push(env@, b); }
                env.push(b);
                true
            } else {
                false
            }
        },
    }
}

proof fn lemma_unify_list_step(es: Seq<ExprStructure>, ps: Seq<PatternStructure>, k: int, env: Env, d: nat, m: nat)
    requires
        0 <= k < ps.len(),
        k < es.len(),
    ensures
        unify_list(es.subrange(k, es.len() as int), ps.subrange(k, ps.len() as int), env, d, m) == {
            let (ok, env1) = unify_spec(es[k], ps[k], env, d, m);
            if !ok {
                (false, env1)
            } else {
                unify_list(es.subrange(k + 1, es.len() as int), ps.subrange(k + 1, ps.len() as int), env1, d, m)
            }
        },
{
    let a = es.subrange(k, es.len() as int);
    let b = ps.subrange(k, ps.len() as int);
    assert(a.drop_first() =~= es.subrange(k + 1, es.len() as int));
    assert(b.drop_first() =~= ps.subrange(k + 1, ps.len() as int));
    assert(a[0] == es[k] && b[0] == ps[k]);
}

proof fn lemma_unify_any_step(e: ExprStructure, alts: Seq<PatternStructure>, k: int, env: Env, d: nat, m: nat)
    requires
        0 <= k < alts.len(),
    ensures
        unify_any(e, alts.subrange(k, alts.len() as int), env, d, m) == {
            let (ok, env1) = unify_spec(e, alts[k], env, d, m);
            if ok {
                (true, env1)
            } else {
                unify_any(e, alts.subrange(k + 1, alts.len() as int), env1, d, m)
            }
        },
{
    let a = alts.subrange(k, alts.len() as int);
    assert(a.drop_first() =~= alts.subrange(k + 1, alts.len() as int));
    assert(a[0] == alts[k]);
}

/// Unifies member by member, as `unify_list` says.
fn unify_list_exec(es: &Vec<ExprStructure>, ps: &Vec<PatternStructure>, env: &mut Vec<(Variable, ExprStructure)>, depth: usize, maxd: usize) -> (r: bool)
    requires
        es@.len() == ps@.len(),
    ensures
        (r, env_view(final(env)@)) == unify_list(es@, ps@, env_view(old(env)@), depth as nat, maxd as nat),
    decreases ps,
{
    let ghost e0 = env_view(env@);
    assert(es@.subrange(0, es@.len() as int) =~= es@);
    assert(ps@.subrange(0, ps@.len() as int) =~= ps@);
    let mut k: usize = 0;
    while k < ps.len()
        invariant
            es@.len() == ps@.len(),
            k <= ps@.len(),
            e0 == env_view(old(env)@),
            unify_list(es@, ps@, e0, depth as nat, maxd as nat) == unify_list(
                es@.subrange(k as int, es@.len() as int),
                ps@.subrange(k as int, ps@.len() as int),
                env_view(env@),
                depth as nat,
                maxd as nat,
            ),
        decreases ps@.len() - k,
    {
        proof {
            lemma_unify_list_step(es@, ps@, k as int, env_view(env@), depth as nat, maxd as nat);
            assert(decreases_to!(*ps => ps@));
            assert(decreases_to!(ps@ => ps@[k as int]));
        }
        if !unify_exec(&es[k], &ps[k], env, depth, maxd) {
            return false;
        }
        k = k + 1;
    }
    assert(ps@.subrange(k as int, ps@.len() as int) =~= Seq::<PatternStructure>::empty());
    true
}

/// Tries the alternatives in turn, as `unify_any` says.
fn unify_any_exec(e: &ExprStructure, alts: &Vec<PatternStructure>, env: &mut Vec<(Variable, ExprStructure)>, depth: usize, maxd: usize) -> (r: bool)
    ensures
        (r, env_view(final(env)@)) == unify_any(*e, alts@, env_view(old(env)@), depth as nat, maxd as nat),
    decreases alts,
{
    let ghost e0 = env_view(env@);
    assert(alts@.subrange(0, alts@.len() as int) =~= alts@);
    let mut k: usize = 0;
    while k < alts.len()
        invariant
            k <= alts@.len(),
            e0 == env_view(old(env)@),
            unify_any(*e, alts@, e0, depth as nat, maxd as nat) == unify_any(
                *e,
                alts@.subrange(k as int, alts@.len() as int),
                env_view(env@),
                depth as nat,
                maxd as nat,
            ),
        decreases alts@.len() - k,
    {
        proof {
            lemma_unify_any_step(*e, alts@, k as int, env_view(env@), depth as nat, maxd as nat);
            assert(decreases_to!(*alts => alts@));
            assert(decreases_to!(alts@ => alts@[k as int]));
        }
        if unify_exec(e, &alts[k], env, depth, maxd) {
            return true;
        }
        k = k + 1;
    }
    assert(alts@.subrange(k as int, alts@.len() as int) =~= Seq::<PatternStructure>::empty());
    false
}

/// Unifies `e` with `p`, as `unify_spec` says.
fn unify_exec(e: &ExprStructure, p: &PatternStructure, env: &mut Vec<(Variable, ExprStructure)>, depth: usize, maxd: usize) -> (r: bool)
    ensures
        (r, env_view(final(env)@)) == unify_spec(*e, *p, env_view(old(env)@), depth as nat, maxd as nat),
    decreases p,
{
    if depth >= maxd {
        return false;
    }
    match p {
        PatternStructure::Wildcard => true,
        PatternStructure::Variable(v) => bind_exec(e, v, env),
        PatternStructure::Symbol(s2) => match e {
            ExprStructure::Symbol(s1) => bytes_equal(s1, s2),
            _ => false,
        },
        PatternStructure::Compound { arity: a2, patterns } => match e {
            ExprStructure::Compound { arity: a1, children } => {
                if *a1 == *a2 && children.len() == patterns.len() {
                    proof { assert(decreases_to!(*p => (*p)->Compound_patterns)); }
                    unify_list_exec(children, patterns, env, depth + 1, maxd)
                } else {
                    false
                }
            },
            _ => false,
        },
        PatternStructure::Conditional { pattern, condition } => {
            if check_condition_exec(e, condition) {
                proof { assert(decreases_to!(*p => (*p)->pattern)); }
                unify_exec(e, pattern, env, depth + 1, maxd)
            } else {
                false
            }
        },
        PatternStructure::Alternative(alts) => {
            proof { assert(decreases_to!(*p => (*p)->Alternative_0)); }
            unify_any_exec(e, alts, env, depth + 1, maxd)
        },
        PatternStructure::Sequence { patterns, min_matches, max_matches } => match e {
            ExprStructure::Compound { children, .. } => {
                let too_many = match max_matches {
                    Some(m) => children.len() > *m,
                    None => false,
                };
                if children.len() < *min_matches || too_many || patterns.len() != children.len() {
                    false
                } else {
                    proof { assert(decreases_to!(*p => (*p)->Sequence_patterns)); }
                    unify_list_exec(children, patterns, env, depth + 1, maxd)
                }
            },
            _ => false,
        },
    }
}


/// Depth (`which == 0`: a leaf is 1, a compound one more than its deepest
/// member) or size (`which == 1`: a leaf is 1, a compound one more than the
/// sum of its members) of a bound expression.
pub open spec fn measure(x: EView, which: int) -> nat
    decreases x,
{
    match x {
        EView::Comp(_, xs) => 1 + measure_list(xs, which),
        _ => 1,
    }
}

pub open spec fn measure_list(xs: Seq<EView>, which: int) -> nat
    decreases xs,
{
    if xs.len() == 0 {
        0
    } else {
        let a = measure(xs[0], which);
        let b = measure_list(xs.drop_first(), which);
        if which == 0 {
            if a > b { a } else { b }
        } else {
            a + b
        }
    }
}

pub open spec fn contains_view(x: EView, s: Seq<u8>) -> bool
    decreases x,
{
    match x {
        EView::Sym(t) => t == s,
        EView::Var(_) => false,
        EView::Comp(_, xs) => contains_list(xs, s),
    }
}

pub open spec fn contains_list(xs: Seq<EView>, s: Seq<u8>) -> bool
    decreases xs,
{
    xs.len() > 0 && (contains_view(xs[0], s) || contains_list(xs.drop_first(), s))
}

pub open spec fn type_ok(x: EView, t: VariableType) -> bool {
    match t {
        VariableType::Expression => true,
        VariableType::Symbol => x is Sym,
        VariableType::Compound => x is Comp,
        VariableType::Sequence => false,
    }
}

pub open spec fn structure_ok(x: EView, sc: StructuralConstraint) -> bool {
    match sc {
        StructuralConstraint::Arity(a) => x matches EView::Comp(n, _) && n == a,
        StructuralConstraint::ContainsSymbol(s) => contains_view(x, s@),
        StructuralConstraint::Depth(d) => sat(measure(x, 0)) == d,
        StructuralConstraint::Size { min, max } => (min matches Some(m) ==> sat(measure(x, 1)) >= m)
            && (max matches Some(m) ==> sat(measure(x, 1)) <= m),
    }
}

/// Whether the bindings `env` meet constraint `c`. A `NotEqual` whose
/// variables are not both bound is met; every other constraint needs its
/// variables bound.
pub open spec fn constraint_ok(c: Constraint, env: Env) -> bool {
    match c {
        Constraint::Type(v, t) => lookup(env, vkey(v)) matches Some(x) && type_ok(x, t),
        Constraint::Equal(a, b) => lookup(env, vkey(a)) matches Some(x) && lookup(env, vkey(b)) matches Some(y) && x == y,
        Constraint::NotEqual(a, b) => (lookup(env, vkey(a)) matches Some(x) && lookup(env, vkey(b)) matches Some(y)) ==> lookup(env, vkey(a)) != lookup(env, vkey(b)),
        Constraint::Structure(v, sc) => lookup(env, vkey(v)) matches Some(x) && structure_ok(x, sc),
    }
}

fn measure_exec(e: &ExprStructure, which: u8) -> (r: usize)
    ensures
        r == sat(measure(eview(*e), which as int)),
    decreases e,
{
    match e {
        ExprStructure::Compound { arity, children } => {
            let ghost cv = eviews(children@);
            proof { lemma_eviews(children@); }
            let mut m: usize = 0;
            let mut k: usize = children.len();
            assert(cv.subrange(k as int, cv.len() as int) =~= Seq::<EView>::empty());
            while k > 0
                invariant
                    *e == (ExprStructure::Compound { arity: *arity, children: *children }),
                    cv == eviews(children@),
                    cv.len() == children@.len(),
                    forall|i: int| 0 <= i < children@.len() ==> #[trigger] cv[i] == eview(children@[i]),
                    k <= cv.len(),
                    m == sat(measure_list(cv.subrange(k as int, cv.len() as int), which as int)),
                decreases k,
            {
                let j = k - 1;
                proof {
                    assert(decreases_to!(*e => (*e)->children));
                    assert(decreases_to!(*children => children@));
                    assert(decreases_to!(children@ => children@[j as int]));
                    let t = cv.subrange(j as int, cv.len() as int);
                    assert(t.drop_first() =~= cv.subrange(k as int, cv.len() as int));
                    assert(t[0] == cv[j as int]);
                }
                let a = measure_exec(&children[j], which);
                if which == 0 {
                    if a > m {
                        m = a;
                    }
                } else {
                    m = a.saturating_add(m);
                }
                k = j;
            }
            assert(cv.subrange(0, cv.len() as int) =~= cv);
            m.saturating_add(1)
        },
        _ => 1,
    }
}

fn contains_exec(e: &ExprStructure, s: &Vec<u8>) -> (r: bool)
    ensures
        r == contains_view(eview(*e), s@),
    decreases e,
{
    match e {
        ExprStructure::Symbol(t) => bytes_equal(t, s),
        ExprStructure::Variable(_) => false,
        ExprStructure::Compound { arity, children } => {
            let ghost cv = eviews(children@);
            proof { lemma_eviews(children@); }
            let mut k: usize = children.len();
            assert(cv.subrange(k as int, cv.len() as int) =~= Seq::<EView>::empty());
            while k > 0
                invariant
                    *e == (ExprStructure::Compound { arity: *arity, children: *children }),
                    cv == eviews(children@),
                    cv.len() == children@.len(),
                    forall|i: int| 0 <= i < children@.len() ==> #[trigger] cv[i] == eview(children@[i]),
                    k <= cv.len(),
                    !contains_list(cv.subrange(k as int, cv.len() as int), s@),
                decreases k,
            {
                let j = k - 1;
                proof {
                    assert(decreases_to!(*e => (*e)->children));
                    assert(decreases_to!(*children => children@));
                    assert(decreases_to!(children@ => children@[j as int]));
                    let t = cv.subrange(j as int, cv.len() as int);
                    assert(t.drop_first() =~= cv.subrange(k as int, cv.len() as int));
                    assert(t[0] == cv[j as int]);
                }
                if contains_exec(&children[j], s) {
                    proof { lemma_contains_list_index(cv, j as int, s@); }
                    return true;
                }
                k = j;
            }
            assert(cv.subrange(0, cv.len() as int) =~= cv);
            false
        },
    }
}

proof fn lemma_contains_list_index(xs: Seq<EView>, j: int, s: Seq<u8>)
    requires
        0 <= j < xs.len(),
        contains_view(xs[j], s),
    ensures
        contains_list(xs, s),
    decreases xs.len(),
{
    if j > 0 {
        assert(xs.drop_first()[j - 1] == xs[j]);
        lemma_contains_list_index(xs.drop_first(), j - 1, s);
    }
}

fn type_ok_exec(e: &ExprStructure, t: VariableType) -> (r: bool)
    ensures
        r == type_ok(eview(*e), t),
{
    type_compatible_exec(e, t)
}

fn structure_ok_exec(e: &ExprStructure, sc: &StructuralConstraint) -> (r: bool)
    ensures
        r == structure_ok(eview(*e), *sc),
{
    match sc {
        StructuralConstraint::Arity(a) => match e {
            ExprStructure::Compound { arity, .. } => *arity == *a,
            _ => false,
        },
        StructuralConstraint::ContainsSymbol(s) => contains_exec(e, s),
        StructuralConstraint::Depth(d) => measure_exec(e, 0) == *d,
        StructuralConstraint::Size { min, max } => {
            let n = measure_exec(e, 1);
            let min_ok = match min {
                Some(m) => n >= *m,
                None => true,
            };
            let max_ok = match max {
                Some(m) => n <= *m,
                None => true,
            };
            min_ok && max_ok
        },
    }
}

fn constraint_ok_exec(c: &Constraint, env: &Vec<(Variable, ExprStructure)>) -> (r: (bool, bool))
    ensures
        r.0 == constraint_ok(*c, env_view(env@)),
        r.1 == match *c {
            Constraint::NotEqual(_, _) => false,
            Constraint::Equal(a, b) => lookup(env_view(env@), vkey(a)) is None || lookup(env_view(env@), vkey(b)) is None,
            Constraint::Type(v, _) => lookup(env_view(env@), vkey(v)) is None,
            Constraint::Structure(v, _) => lookup(env_view(env@), vkey(v)) is None,
        },
{
    match c {
        Constraint::Type(v, t) => match lookup_exec(env, v) {
            Some(i) => (type_ok_exec(&env[i].1, *t), false),
            None => (false, true),
        },
        Constraint::Equal(a, b) => match (lookup_exec(env, a), lookup_exec(env, b)) {
            (Some(i), Some(j)) => (expressions_equal(&env[i].1, &env[j].1), false),
            _ => (false, true),
        },
        Constraint::NotEqual(a, b) => match (lookup_exec(env, a), lookup_exec(env, b)) {
            (Some(i), Some(j)) => (!expressions_equal(&env[i].1, &env[j].1), false),
            _ => (true, false),
        },
        Constraint::Structure(v, sc) => match lookup_exec(env, v) {
            Some(i) => (structure_ok_exec(&env[i].1, sc), false),
            None => (false, true),
        },
    }
}

fn unbound_message(many: bool) -> (r: String)
{
    if many {
        "Variables not bound".to_string()
    } else {
        "Variable not bound".to_string()
    }
}

/// Appends the check of each constraint against the bindings, in order,
/// numbered from `offset`.
fn check_constraints(constraints: &Vec<Constraint>, env: &Vec<(Variable, ExprStructure)>, offset: usize, out: &mut Vec<ConstraintBinding>)
    requires
        offset + constraints@.len() <= usize::MAX,
    ensures
        final(out)@.len() == old(out)@.len() + constraints@.len(),
        forall|i: int| 0 <= i < old(out)@.len() ==> #[trigger] final(out)@[i] == old(out)@[i],
        forall|i: int| 0 <= i < constraints@.len() ==> (#[trigger] final(out)@[old(out)@.len() + i]).constraint_index == offset + i,
        forall|i: int| 0 <= i < constraints@.len() ==> (#[trigger] final(out)@[old(out)@.len() + i]).satisfied
            == constraint_ok(constraints@[i], env_view(env@)),
{
    let ghost start = out@.len();
    let mut k: usize = 0;
    while k < constraints.len()
        invariant
            offset + constraints@.len() <= usize::MAX,
            start == old(out)@.len(),
            k <= constraints@.len(),
            out@.len() == start + k,
            forall|i: int| 0 <= i < start ==> #[trigger] out@[i] == old(out)@[i],
            forall|i: int| 0 <= i < k ==> (#[trigger] out@[start + i]).constraint_index == offset + i,
            forall|i: int| 0 <= i < k ==> (#[trigger] out@[start + i]).satisfied == constraint_ok(constraints@[i], env_view(env@)),
        decreases constraints@.len() - k,
    {
        let (ok, unbound) = constraint_ok_exec(&constraints[k], env);
        let many = match &constraints[k] {
            Constraint::Equal(_, _) => true,
            _ => false,
        };
        let reason = if unbound { Some(unbound_message(many)) } else { None };
        let ghost before = out@;
        out.push(ConstraintBinding { constraint_index: offset + k, satisfied: ok, reason });
        assert(out@[start + k].satisfied == constraint_ok(constraints@[k as int], env_view(env@)));
        assert forall|i: int| 0 <= i < start + k implies #[trigger] out@[i] == before[i] by {}
        k = k + 1;
    }
}

fn all_satisfied(cs: &Vec<ConstraintBinding>) -> (r: bool)
    ensures
        r == forall|i: int| 0 <= i < cs@.len() ==> #[trigger] cs@[i].satisfied,
{
    let mut k: usize = 0;
    while k < cs.len()
        invariant
            k <= cs@.len(),
            forall|i: int| 0 <= i < k ==> #[trigger] cs@[i].satisfied,
        decreases cs@.len() - k,
    {
        if !cs[k].satisfied {
            return false;
        }
        k = k + 1;
    }
    true
}


/// The outcome of unifying `e` with `p` at depth limit `maxd`: the
/// structure unifies and every constraint holds of the bindings.
pub open spec fn succeeds(e: ExprStructure, p: CompiledPattern, maxd: nat) -> bool {
    let (ok, env) = unify_spec(e, p.structure, seq![], 0, maxd);
    ok && forall|i: int| 0 <= i < p.constraints@.len() ==> #[trigger] constraint_ok(p.constraints@[i], env)
}

/// The bindings of each alternative that unifies with `e` and meets the
/// constraints `cs`, in order.
pub open spec fn alt_envs(e: ExprStructure, alts: Seq<PatternStructure>, cs: Seq<Constraint>, maxd: nat) -> Seq<Env>
    decreases alts.len(),
{
    if alts.len() == 0 {
        seq![]
    } else {
        let prev = alt_envs(e, alts.drop_last(), cs, maxd);
        let (ok, env) = unify_spec(e, alts.last(), seq![], 0, maxd);
        if ok && forall|i: int| 0 <= i < cs.len() ==> #[trigger] constraint_ok(cs[i], env) {
            prev.push(env)
        } else {
            prev
        }
    }
}

/// `r` is what unifying `e` with `p` at depth limit `maxd` gives: its
/// success, its bindings, and one satisfied flag per constraint of `p`.
pub open spec fn unify_agrees(r: UnificationResult, e: ExprStructure, p: CompiledPattern, maxd: nat) -> bool {
    let env = unify_spec(e, p.structure, seq![], 0, maxd).1;
    &&& r.success == succeeds(e, p, maxd)
    &&& env_view(r.bindings.bindings@) == env
    &&& r.bindings.constraints@.len() == p.constraints@.len()
    &&& r.constraints_satisfied == forall|i: int| 0 <= i < p.constraints@.len() ==> #[trigger] constraint_ok(p.constraints@[i], env)
    &&& forall|i: int| 0 <= i < p.constraints@.len() ==> (#[trigger] r.bindings.constraints@[i]).satisfied == constraint_ok(p.constraints@[i], env)
        && r.bindings.constraints@[i].constraint_index == i
}

/// Matches S-expressions against compiled patterns.
pub struct UnificationEngine {
    pattern_cache: Vec<String>,
    config: UnificationConfig,
}

impl UnificationEngine {
    pub closed spec fn settings(&self) -> UnificationConfig {
        self.config
    }

    /// The pattern texts compiled while caching was on.
    pub closed spec fn cached(&self) -> Seq<Seq<char>> {
        self.pattern_cache@.map_values(|t: String| t@)
    }

    pub fn new() -> (r: Self)
        ensures
            r.cached().len() == 0,
            r.settings().max_depth == 100,
            r.settings().occurs_check,
            r.settings().enable_caching,
            r.settings().max_variables == 1000,
    {
        Self::with_config(UnificationConfig::default())
    }

    pub fn with_config(config: UnificationConfig) -> (r: Self)
        ensures
            r.cached().len() == 0,
            r.settings() == config,
    {
        let r = UnificationEngine { pattern_cache: Vec::new(), config };
        assert(r.cached() =~= Seq::<Seq<char>>::empty());
        r
    }

    /// Parses `pattern_str` as `parse_pat` says, from its first byte with
    /// variable ids from 1; text after the first pattern is ignored. With
    /// caching on, the text is recorded once.
    pub fn compile_pattern(&mut self, pattern_str: &str) -> (r: Result<CompiledPattern, UnificationError>)
        ensures
            final(self).settings() == old(self).settings(),
            r is Ok <==> parse_pat(pattern_str.spec_bytes(), 0, 1) is Some,
            r matches Ok(p) ==> parse_pat(pattern_str.spec_bytes(), 0, 1)->Some_0.0 == shape(p.structure)
                && p.id == 1 && p.variables@.len() == 0 && p.constraints@.len() == 0,
            r is Ok && old(self).settings().enable_caching ==> final(self).cached().to_set() == old(self).cached().to_set().insert(pattern_str@),
            !(r is Ok && old(self).settings().enable_caching) ==> final(self).cached() == old(self).cached(),
            final(self).cached().no_duplicates() == old(self).cached().no_duplicates(),
    {
        let b = pattern_str.as_bytes();
        match parse_pattern_at(b, 0, 1) {
            Ok((structure, _end, _nv)) => {
                if self.config.enable_caching {
                    let key = pattern_str.to_string();
                    let mut seen = false;
                    let mut i: usize = 0;
                    while i < self.pattern_cache.len()
                        invariant
                            i <= self.pattern_cache@.len(),
                            key@ == pattern_str@,
                            seen <==> exists|j: int| 0 <= j < i && #[trigger] self.pattern_cache@[j]@ == pattern_str@,
                        decreases self.pattern_cache@.len() - i,
                    {
                        if self.pattern_cache[i].eq(&key) {
                            seen = true;
                        }
                        i = i + 1;
                    }
                    if !seen {
                        let ghost before = self.cached();
                        self.pattern_cache.push(key);
                        proof {
                            assert(self.cached() =~= before.push(pattern_str@));
                            assert(self.cached().to_set() =~= before.to_set().insert(pattern_str@)) by {
                                assert forall|t: Seq<char>| #[trigger] self.cached().contains(t) implies before.contains(t) || t == pattern_str@ by {
                                    let j = choose|j: int| 0 <= j < self.cached().len() && self.cached()[j] == t;
                                    if j < before.len() {
                                        assert(before[j] == t);
                                    }
                                }
                                assert forall|t: Seq<char>| before.contains(t) implies #[trigger] self.cached().contains(t) by {
                                    let j = choose|j: int| 0 <= j < before.len() && before[j] == t;
                                    assert(self.cached()[j] == t);
                                }
                                assert(self.cached()[before.len() as int] == pattern_str@);
                            }
                            if before.no_duplicates() {
                                assert forall|x: int, y: int| 0 <= x < self.cached().len() && 0 <= y < self.cached().len() && x != y
                                    implies self.cached()[x] != self.cached()[y] by {
                                    if x < before.len() && y < before.len() {
                                        assert(self.cached()[x] == before[x] && self.cached()[y] == before[y]);
                                    } else if x == before.len() {
                                        assert(self.cached()[y] == before[y]);
                                        assert(self.pattern_cache@[y]@ != pattern_str@);
                                    } else {
                                        assert(self.cached()[x] == before[x]);
                                        assert(self.pattern_cache@[x]@ != pattern_str@);
                                    }
                                }
                            }
                            if self.cached().no_duplicates() {
                                assert forall|x: int, y: int| 0 <= x < before.len() && 0 <= y < before.len() && x != y
                                    implies before[x] != before[y] by {
                                    assert(self.cached()[x] == before[x] && self.cached()[y] == before[y]);
                                }
                            }
                        }
                    } else {
                        proof {
                            let j = choose|j: int| 0 <= j < self.pattern_cache@.len() && #[trigger] self.pattern_cache@[j]@ == pattern_str@;
                            assert(self.cached()[j] == pattern_str@);
                            assert(self.cached().to_set() =~= self.cached().to_set().insert(pattern_str@));
                        }
                    }
                }
                Ok(CompiledPattern { id: 1, structure, variables: Vec::new(), constraints: Vec::new() })
            },
            Err(e) => Err(e),
        }
    }

    fn unify_core(&self, expr: &ExprStructure, structure: &PatternStructure, cs: &Vec<Constraint>, more: &Vec<Constraint>) -> (r: UnificationResult)
        requires
            cs@.len() + more@.len() <= usize::MAX,
        ensures
            r.constraints_satisfied == ((forall|i: int| 0 <= i < cs@.len() ==> #[trigger] constraint_ok(cs@[i], env_view(r.bindings.bindings@)))
                && (forall|i: int| 0 <= i < more@.len() ==> #[trigger] constraint_ok(more@[i], env_view(r.bindings.bindings@)))),
            r.success == (unify_spec(*expr, *structure, seq![], 0, self.settings().max_depth as nat).0 && r.constraints_satisfied),
            env_view(r.bindings.bindings@) == unify_spec(*expr, *structure, seq![], 0, self.settings().max_depth as nat).1,
            r.bindings.constraints@.len() == cs@.len() + more@.len(),
            forall|i: int| 0 <= i < cs@.len() ==> (#[trigger] r.bindings.constraints@[i]).satisfied
                == constraint_ok(cs@[i], env_view(r.bindings.bindings@)) && r.bindings.constraints@[i].constraint_index == i,
            forall|i: int| 0 <= i < more@.len() ==> (#[trigger] r.bindings.constraints@[cs@.len() + i]).satisfied
                == constraint_ok(more@[i], env_view(r.bindings.bindings@)) && r.bindings.constraints@[cs@.len() + i].constraint_index == cs@.len() + i,
    {
        let mut env: Vec<(Variable, ExprStructure)> = Vec::new();
        assert(env_view(env@) =~= Seq::<((Seq<char>, u32, VariableType), EView)>::empty());
        let ok = unify_exec(expr, structure, &mut env, 0, self.config.max_depth);
        let mut checks: Vec<ConstraintBinding> = Vec::new();
        check_constraints(cs, &env, 0, &mut checks);
        let ghost mid = checks@;
        check_constraints(more, &env, cs.len(), &mut checks);
        let all = all_satisfied(&checks);
        proof {
            if all {
                assert forall|i: int| 0 <= i < cs@.len() implies #[trigger] constraint_ok(cs@[i], env_view(env@)) by {
                    assert(checks@[i] == mid[i]);
                    assert(mid[0 + i].satisfied);
                }
                assert forall|i: int| 0 <= i < more@.len() implies #[trigger] constraint_ok(more@[i], env_view(env@)) by {
                    assert(checks@[cs@.len() + i].satisfied);
                }
            } else {
                let j = choose|j: int| 0 <= j < checks@.len() && !(#[trigger] checks@[j]).satisfied;
                if j < cs@.len() {
                    assert(checks@[j] == mid[j]);
                    assert(mid[0 + j] == mid[j]);
                    assert(!constraint_ok(cs@[j], env_view(env@)));
                } else {
                    let i = j - cs@.len();
                    assert(checks@[cs@.len() + i] == checks@[j]);
                    assert(!constraint_ok(more@[i], env_view(env@)));
                }
            }
        }
        proof {
            assert forall|i: int| 0 <= i < cs@.len() implies (#[trigger] checks@[i]).satisfied
                == constraint_ok(cs@[i], env_view(env@)) && checks@[i].constraint_index == i by {
                assert(checks@[i] == mid[i]);
                assert(mid[0 + i] == mid[i]);
            }
        }
        UnificationResult {
            success: ok && all,
            bindings: VariableBindings { bindings: env, constraints: checks },
            constraints_satisfied: all,
        }
    }

    /// Unifies `expr` with `pattern` and checks the pattern's constraints
    /// against the bindings.
    pub fn unify(&mut self, expr: &ExprStructure, pattern: &CompiledPattern) -> (r: UnificationResult)
        ensures
            *final(self) == *old(self),
            r.success == succeeds(*expr, *pattern, old(self).settings().max_depth as nat),
            unify_agrees(r, *expr, *pattern, old(self).settings().max_depth as nat),
            env_view(r.bindings.bindings@) == unify_spec(*expr, pattern.structure, seq![], 0, old(self).settings().max_depth as nat).1,
            r.constraints_satisfied == forall|i: int| 0 <= i < pattern.constraints@.len()
                ==> #[trigger] constraint_ok(pattern.constraints@[i], env_view(r.bindings.bindings@)),
            r.bindings.constraints@.len() == pattern.constraints@.len(),
    {
        let none: Vec<Constraint> = Vec::new();
        let _n = pattern.constraints.len();
        self.unify_core(expr, &pattern.structure, &pattern.constraints, &none)
    }

    /// `unify` with `additional` constraints checked after the pattern's own.
    pub fn unify_with_constraints(&mut self, expr: &ExprStructure, pattern: &CompiledPattern, additional: &Vec<Constraint>) -> (r: UnificationResult)
        requires
            pattern.constraints@.len() + additional@.len() <= usize::MAX,
        ensures
            *final(self) == *old(self),
            r.success == (unify_spec(*expr, pattern.structure, seq![], 0, old(self).settings().max_depth as nat).0
                && (forall|i: int| 0 <= i < pattern.constraints@.len() ==> #[trigger] constraint_ok(pattern.constraints@[i], env_view(r.bindings.bindings@)))
                && (forall|i: int| 0 <= i < additional@.len() ==> #[trigger] constraint_ok(additional@[i], env_view(r.bindings.bindings@)))),
            env_view(r.bindings.bindings@) == unify_spec(*expr, pattern.structure, seq![], 0, old(self).settings().max_depth as nat).1,
            r.bindings.constraints@.len() == pattern.constraints@.len() + additional@.len(),
    {
        self.unify_core(expr, &pattern.structure, &pattern.constraints, additional)
    }

    /// The indices of the expressions that unify with `pattern`, in order,
    /// each with its result.
    pub fn find_matches(&mut self, pattern: &CompiledPattern, expressions: &[ExprStructure]) -> (r: Vec<(usize, UnificationResult)>)
        ensures
            *final(self) == *old(self),
            forall|j: int| 0 <= j < r@.len() ==> (#[trigger] r@[j]).0 < expressions@.len()
                && succeeds(expressions@[r@[j].0 as int], *pattern, old(self).settings().max_depth as nat) && r@[j].1.success,
            forall|j: int| 0 <= j < r@.len() ==> unify_agrees((#[trigger] r@[j]).1, expressions@[r@[j].0 as int], *pattern,
                old(self).settings().max_depth as nat),
            forall|j: int, k: int| 0 <= j < k < r@.len() ==> (#[trigger] r@[j]).0 < (#[trigger] r@[k]).0,
            forall|i: int| 0 <= i < expressions@.len() && succeeds(#[trigger] expressions@[i], *pattern, old(self).settings().max_depth as nat)
                ==> exists|j: int| 0 <= j < r@.len() && r@[j].0 == i,
    {
        let mut out: Vec<(usize, UnificationResult)> = Vec::new();
        let mut i: usize = 0;
        while i < expressions.len()
            invariant
                *self == *old(self),
                i <= expressions@.len(),
                forall|j: int| 0 <= j < out@.len() ==> (#[trigger] out@[j]).0 < i
                    && succeeds(expressions@[out@[j].0 as int], *pattern, self.settings().max_depth as nat) && out@[j].1.success,
                forall|j: int| 0 <= j < out@.len() ==> unify_agrees((#[trigger] out@[j]).1, expressions@[out@[j].0 as int], *pattern,
                    self.settings().max_depth as nat),
                forall|j: int, k: int| 0 <= j < k < out@.len() ==> (#[trigger] out@[j]).0 < (#[trigger] out@[k]).0,
                forall|x: int| 0 <= x < i && succeeds(#[trigger] expressions@[x], *pattern, self.settings().max_depth as nat)
                    ==> exists|j: int| 0 <= j < out@.len() && out@[j].0 == x,
            decreases expressions@.len() - i,
        {
            let res = self.unify(&expressions[i], pattern);
            if res.success {
                let ghost before = out@;
                out.push((i, res));
                proof {
                    assert forall|j: int| 0 <= j < out@.len() implies (#[trigger] out@[j]).0 < i + 1
                        && succeeds(expressions@[out@[j].0 as int], *pattern, self.settings().max_depth as nat) && out@[j].1.success by {
                        if j < before.len() {
                            assert(out@[j] == before[j]);
                        }
                    }
                    assert forall|j: int| 0 <= j < out@.len() implies unify_agrees((#[trigger] out@[j]).1, expressions@[out@[j].0 as int], *pattern,
                        self.settings().max_depth as nat) by {
                        if j < before.len() {
                            assert(out@[j] == before[j]);
                        }
                    }
                    assert forall|j: int, k: int| 0 <= j < k < out@.len() implies (#[trigger] out@[j]).0 < (#[trigger] out@[k]).0 by {
                        assert(out@[j] == before[j]);
                        if k < before.len() {
                            assert(out@[k] == before[k]);
                        }
                    }
                    assert forall|x: int| 0 <= x < i + 1 && succeeds(#[trigger] expressions@[x], *pattern, self.settings().max_depth as nat)
                        implies exists|j: int| 0 <= j < out@.len() && out@[j].0 == x by {
                        if x < i {
                            let j = choose|j: int| 0 <= j < before.len() && before[j].0 == x;
                            assert(out@[j] == before[j]);
                        } else {
                            assert(out@[before.len() as int].0 == x);
                        }
                    }
                }
            }
            i = i + 1;
        }
        out
    }

    /// For each pattern, in order, what `find_matches` finds.
    pub fn multi_pattern_match(&mut self, patterns: &[CompiledPattern], expressions: &[ExprStructure]) -> (r: MultiMatchResult)
        ensures
            *final(self) == *old(self),
            r.total_patterns == patterns@.len(),
            r.total_expressions == expressions@.len(),
            r.pattern_matches@.len() == patterns@.len(),
            forall|p: int, j: int| 0 <= p < patterns@.len() && 0 <= j < r.pattern_matches@[p]@.len() ==> (#[trigger] r.pattern_matches@[p]@[j]).0 < expressions@.len()
                && succeeds(expressions@[r.pattern_matches@[p]@[j].0 as int], patterns@[p], old(self).settings().max_depth as nat),
            forall|p: int, i: int| 0 <= p < patterns@.len() && 0 <= i < expressions@.len()
                && succeeds(#[trigger] expressions@[i], #[trigger] patterns@[p], old(self).settings().max_depth as nat)
                ==> exists|j: int| 0 <= j < r.pattern_matches@[p]@.len() && r.pattern_matches@[p]@[j].0 == i,
            forall|p: int, j: int, k: int| 0 <= p < patterns@.len() && 0 <= j < k < r.pattern_matches@[p]@.len()
                ==> (#[trigger] r.pattern_matches@[p]@[j]).0 < (#[trigger] r.pattern_matches@[p]@[k]).0,
            forall|p: int, j: int| 0 <= p < patterns@.len() && 0 <= j < r.pattern_matches@[p]@.len()
                ==> unify_agrees((#[trigger] r.pattern_matches@[p]@[j]).1, expressions@[r.pattern_matches@[p]@[j].0 as int], patterns@[p],
                old(self).settings().max_depth as nat),
    {
        let mut all: Vec<Vec<(usize, UnificationResult)>> = Vec::new();
        let mut k: usize = 0;
        while k < patterns.len()
            invariant
                *self == *old(self),
                k <= patterns@.len(),
                all@.len() == k,
                forall|p: int, j: int| 0 <= p < k && 0 <= j < all@[p]@.len() ==> (#[trigger] all@[p]@[j]).0 < expressions@.len()
                    && succeeds(expressions@[all@[p]@[j].0 as int], patterns@[p], self.settings().max_depth as nat),
                forall|p: int, i: int| 0 <= p < k && 0 <= i < expressions@.len()
                    && succeeds(#[trigger] expressions@[i], #[trigger] patterns@[p], self.settings().max_depth as nat)
                    ==> exists|j: int| 0 <= j < all@[p]@.len() && all@[p]@[j].0 == i,
                forall|p: int, j: int, q: int| 0 <= p < k && 0 <= j < q < all@[p]@.len()
                    ==> (#[trigger] all@[p]@[j]).0 < (#[trigger] all@[p]@[q]).0,
                forall|p: int, j: int| 0 <= p < k && 0 <= j < all@[p]@.len()
                    ==> unify_agrees((#[trigger] all@[p]@[j]).1, expressions@[all@[p]@[j].0 as int], patterns@[p],
                    self.settings().max_depth as nat),
            decreases patterns@.len() - k,
        {
            let ms = self.find_matches(&patterns[k], expressions);
            let ghost before = all@;
            all.push(ms);
            proof {
                assert forall|p: int| 0 <= p < k implies #[trigger] all@[p] == before[p] by {}
                assert forall|p: int, i: int| 0 <= p < k + 1 && 0 <= i < expressions@.len()
                    && succeeds(#[trigger] expressions@[i], #[trigger] patterns@[p], self.settings().max_depth as nat)
                    implies exists|j: int| 0 <= j < all@[p]@.len() && all@[p]@[j].0 == i by {
                    if p < k {
                        assert(all@[p] == before[p]);
                    } else {
                        assert(all@[p] == ms);
                    }
                }
                assert forall|p: int, j: int| 0 <= p < k + 1 && 0 <= j < all@[p]@.len() implies (#[trigger] all@[p]@[j]).0 < expressions@.len()
                    && succeeds(expressions@[all@[p]@[j].0 as int], patterns@[p], self.settings().max_depth as nat) by {
                    if p < k {
                        assert(all@[p] == before[p]);
                    } else {
                        assert(all@[p] == ms);
                    }
                }
                assert forall|p: int, j: int, q: int| 0 <= p < k + 1 && 0 <= j < q < all@[p]@.len()
                    implies (#[trigger] all@[p]@[j]).0 < (#[trigger] all@[p]@[q]).0 by {
                    if p < k {
                        assert(all@[p] == before[p]);
                    } else {
                        assert(all@[p] == ms);
                    }
                }
                assert forall|p: int, j: int| 0 <= p < k + 1 && 0 <= j < all@[p]@.len()
                    implies unify_agrees((#[trigger] all@[p]@[j]).1, expressions@[all@[p]@[j].0 as int], patterns@[p],
                    self.settings().max_depth as nat) by {
                    if p < k {
                        assert(all@[p] == before[p]);
                    } else {
                        assert(all@[p] == ms);
                    }
                }
            }
            k = k + 1;
        }
        MultiMatchResult { pattern_matches: all, total_patterns: patterns.len(), total_expressions: expressions.len() }
    }

    /// Where the pattern is a list of alternatives: the results of those
    /// alternatives that unify, in order; else the one result of `unify`.
    pub fn generate_unifications(&mut self, expr: &ExprStructure, pattern: &CompiledPattern) -> (r: Vec<UnificationResult>)
        ensures
            *final(self) == *old(self),
            !(pattern.structure is Alternative) ==> r@.len() == 1 && r@[0].success == succeeds(*expr, *pattern, old(self).settings().max_depth as nat)
                && unify_agrees(r@[0], *expr, *pattern, old(self).settings().max_depth as nat),
            pattern.structure is Alternative ==> forall|j: int| 0 <= j < r@.len() ==> (#[trigger] r@[j]).success,
            pattern.structure is Alternative ==> r@.len() == alt_envs(*expr, pattern.structure->Alternative_0@, pattern.constraints@,
                old(self).settings().max_depth as nat).len(),
            pattern.structure is Alternative ==> forall|j: int| 0 <= j < r@.len() ==> env_view((#[trigger] r@[j]).bindings.bindings@)
                == alt_envs(*expr, pattern.structure->Alternative_0@, pattern.constraints@, old(self).settings().max_depth as nat)[j],
    {
        match &pattern.structure {
            PatternStructure::Alternative(alts) => {
                let none: Vec<Constraint> = Vec::new();
                let mut out: Vec<UnificationResult> = Vec::new();
                let mut k: usize = 0;
                let ghost md = self.settings().max_depth as nat;
                assert(alts@.take(0) =~= Seq::<PatternStructure>::empty());
                while k < alts.len()
                    invariant
                        *self == *old(self),
                        md == self.settings().max_depth as nat,
                        pattern.structure == PatternStructure::Alternative(*alts),
                        none@.len() == 0,
                        k <= alts@.len(),
                        forall|j: int| 0 <= j < out@.len() ==> (#[trigger] out@[j]).success,
                        out@.len() == alt_envs(*expr, alts@.take(k as int), pattern.constraints@, md).len(),
                        forall|j: int| 0 <= j < out@.len() ==> env_view((#[trigger] out@[j]).bindings.bindings@)
                            == alt_envs(*expr, alts@.take(k as int), pattern.constraints@, md)[j],
                    decreases alts@.len() - k,
                {
                    let _n = pattern.constraints.len();
                    let res = self.unify_core(expr, &alts[k], &pattern.constraints, &none);
                    proof {
                        assert(alts@.take(k + 1).drop_last() =~= alts@.take(k as int));
                        assert(alts@.take(k + 1).last() == alts@[k as int]);
                    }
                    let ghost before = out@;
                    if res.success {
                        out.push(res);
                        proof {
                            assert forall|j: int| 0 <= j < out@.len() implies env_view((#[trigger] out@[j]).bindings.bindings@)
                                == alt_envs(*expr, alts@.take(k + 1), pattern.constraints@, md)[j] by {
                                if j < before.len() {
                                    assert(out@[j] == before[j]);
                                }
                            }
                            assert forall|j: int| 0 <= j < out@.len() implies (#[trigger] out@[j]).success by {
                                if j < before.len() {
                                    assert(out@[j] == before[j]);
                                }
                            }
                        }
                    }
                    k = k + 1;
                }
                assert(alts@.take(k as int) =~= alts@);
                out
            },
            _ => {
                let res = self.unify(expr, pattern);
                let mut out: Vec<UnificationResult> = Vec::new();
                out.push(res);
                out
            },
        }
    }

    /// Forgets the compiled patterns.
    pub fn clear_cache(&mut self)
        ensures
            final(self).cached().len() == 0,
            final(self).settings() == old(self).settings(),
    {
        self.pattern_cache = Vec::new();
        assert(self.cached() =~= Seq::<Seq<char>>::empty());
    }

    /// How many pattern texts are cached; results are never cached.
    pub fn stats(&self) -> (r: UnificationStats)
        ensures
            r.cached_patterns == self.cached().len(),
            r.cached_unifications == 0,
            r.cache_enabled == self.settings().enable_caching,
    {
        UnificationStats { cached_patterns: self.pattern_cache.len(), cached_unifications: 0, cache_enabled: self.config.enable_caching }
    }
}

impl MatchingContext {
    /// A context at depth 0 with the given limit.
    pub fn new(max_depth: usize) -> (r: MatchingContext)
        ensures
            r.depth == 0,
            r.max_depth == max_depth,
    {
        MatchingContext { depth: 0, max_depth }
    }
}

} // verus!
