use vstd::prelude::*;
use crate::encoding::{Tag, byte_tag, decode_list, parse_list};

verus! {

/// Opcodes of a compiled pattern program, read from the top of the stack.
pub const ITER_AT_DEPTH: u8 = 0;
pub const ITER_SYMBOL_SIZE: u8 = 1;
pub const ITER_SYMBOLS: u8 = 2;
pub const ITER_VARIABLES: u8 = 3;
pub const ITER_ARITIES: u8 = 4;
pub const ITER_EXPR: u8 = 5;
pub const ITER_NESTED: u8 = 6;
pub const ITER_SYMBOL: u8 = 7;
pub const ITER_ARITY: u8 = 8;
pub const ITER_VAR_SYMBOL: u8 = 9;
pub const ITER_VAR_ARITY: u8 = 10;
pub const ACTION: u8 = 11;
pub const BEGIN_RANGE: u8 = 12;
pub const FINALIZE_RANGE: u8 = 13;
pub const REFER_RANGE: u8 = 14;

/// The token at `pos`: its tag and the position after it (a symbol's bytes
/// included); `None` on a reserved byte or a symbol that runs past `end`.
pub open spec fn token_at(b: Seq<u8>, pos: int, end: int) -> Option<(Tag, int)> {
    if 0 <= pos < end <= b.len() {
        match byte_tag(b[pos]) {
            Some(Tag::SymbolSize(s)) => if pos + 1 + s <= end {
                Some((Tag::SymbolSize(s), pos + 1 + s))
            } else {
                None
            },
            Some(t) => Some((t, pos + 1)),
            None => None,
        }
    } else {
        None
    }
}

/// The operations one token stands for: a fresh variable opens a range
/// over one expression, a reference re-drives its capture, a symbol or
/// arity must be met by itself or by a variable.
pub open spec fn token_ops(b: Seq<u8>, pos: int, t: Tag) -> Seq<u8> {
    match t {
        Tag::NewVar => seq![BEGIN_RANGE, ITER_EXPR, FINALIZE_RANGE],
        Tag::VarRef(i) => seq![REFER_RANGE, i],
        Tag::SymbolSize(s) => seq![ITER_VAR_SYMBOL, s] + b.subrange(pos + 1, pos + 1 + s),
        Tag::Arity(a) => seq![ITER_VAR_ARITY, a],
    }
}

/// The operations of the tokens from `pos` to `end`, in order, leaving out
/// the tokens that start before `from`.
pub open spec fn ops_from(b: Seq<u8>, pos: int, end: int, from: int) -> Option<Seq<u8>>
    decreases end - pos,
{
    if pos >= end {
        Some(seq![])
    } else {
        match token_at(b, pos, end) {
            Some((t, next)) => match ops_from(b, next, end, from) {
                Some(rest) => if pos < from {
                    Some(rest)
                } else {
                    Some(token_ops(b, pos, t) + rest)
                },
                None => None,
            },
            None => None,
        }
    }
}

/// The position of the first variable token from `pos` on, or `end`.
pub open spec fn prefix_end(b: Seq<u8>, pos: int, end: int) -> int
    decreases end - pos,
{
    if pos >= end {
        end
    } else {
        match token_at(b, pos, end) {
            Some((Tag::NewVar, _)) => pos,
            Some((Tag::VarRef(_), _)) => pos,
            Some((_, next)) => prefix_end(b, next, end),
            None => end,
        }
    }
}

/// The span of the expression at the start of `b`.
pub open spec fn span_of(b: Seq<u8>) -> Option<int> {
    match parse_list(b, 0, 1) {
        Some((_, end)) => Some(end),
        None => None,
    }
}

fn span_exec(b: &[u8]) -> (r: Option<usize>)
    ensures
        r matches Some(n) ==> span_of(b@) == Some(n as int) && n <= b@.len(),
        r is None ==> span_of(b@) is None,
{
    proof { crate::encoding::lemma_parse_list_shape(b@, 0, 1); }
    match decode_list(b, 0, 1) {
        Some((_, end)) => Some(end),
        None => None,
    }
}

/// The length of the constant prefix of the expression at the start of
/// `pattern`: the bytes before its first variable, or its whole span.
pub fn pattern_prefix_len(pattern: &[u8]) -> (r: Option<usize>)
    ensures
        r matches Some(n) ==> span_of(pattern@) matches Some(end) && n as int == prefix_end(pattern@, 0, end),
        r is None ==> span_of(pattern@) is None,
{
    let end = match span_exec(pattern) {
        Some(e) => e,
        None => return None,
    };
    let mut pos: usize = 0;
    while pos < end
        invariant
            span_of(pattern@) == Some(end as int),
            end <= pattern@.len(),
            pos <= end,
            prefix_end(pattern@, 0, end as int) == prefix_end(pattern@, pos as int, end as int),
        decreases end - pos,
    {
        let b = pattern[pos];
        if 64 <= b && b < 128 {
            assert(token_at(pattern@, pos as int, end as int) is None);
            return Some(end);
        }
        match crate::encoding::byte_item(b) {
            Tag::NewVar => return Some(pos),
            Tag::VarRef(_) => return Some(pos),
            Tag::SymbolSize(s) => {
                if (s as usize) < end - pos {
                    pos = pos + 1 + s as usize;
                } else {
                    assert(token_at(pattern@, pos as int, end as int) is None);
                    return Some(end);
                }
            },
            Tag::Arity(_) => {
                pos = pos + 1;
            },
        }
    }
    Some(end)
}

proof fn lemma_ops_step(b: Seq<u8>, pos: int, end: int, from: int)
    requires
        pos < end,
        token_at(b, pos, end) is Some,
    ensures
        ({
            let (t, next) = token_at(b, pos, end)->Some_0;
            ops_from(b, pos, end, from) == match ops_from(b, next, end, from) {
                Some(rest) => if pos < from { Some(rest) } else { Some(token_ops(b, pos, t) + rest) },
                None => None,
            }
        }),
{
}

/// Compiles the expression at the start of `pattern` into a stack program,
/// leaving out the tokens that start before `from`: the operations of the
/// tokens in reverse, so that the first token's come off the stack first.
/// `None` where `pattern` holds no well-formed expression.
pub fn compile_program(pattern: &[u8], from: usize) -> (r: Option<Vec<u8>>)
    ensures
        r matches Some(v) ==> span_of(pattern@) matches Some(end) && ops_from(pattern@, 0, end, from as int) matches Some(ops)
            && v@ == ops.reverse(),
        r is None ==> span_of(pattern@) is None || (span_of(pattern@) matches Some(end) && ops_from(pattern@, 0, end, from as int) is None),
{
    let end = match span_exec(pattern) {
        Some(e) => e,
        None => return None,
    };
    let mut acc: Vec<u8> = Vec::new();
    let mut pos: usize = 0;
    let ghost b = pattern@;
    while pos < end
        invariant
            b == pattern@,
            span_of(pattern@) == Some(end as int),
            end <= b.len(),
            pos <= end,
            ops_from(b, 0, end as int, from as int) == match ops_from(b, pos as int, end as int, from as int) {
                Some(rest) => Some(acc@ + rest),
                None => None,
            },
        decreases end - pos,
    {
        let c = pattern[pos];
        if 64 <= c && c < 128 {
            assert(token_at(b, pos as int, end as int) is None);
            assert(ops_from(b, pos as int, end as int, from as int) is None);
            return None;
        }
        let t = crate::encoding::byte_item(c);
        let next: usize = match t {
            Tag::SymbolSize(s) => {
                if (s as usize) < end - pos {
                    pos + 1 + s as usize
                } else {
                    assert(token_at(b, pos as int, end as int) is None);
                    assert(ops_from(b, pos as int, end as int, from as int) is None);
                    return None;
                }
            },
            _ => pos + 1,
        };
        proof { lemma_ops_step(b, pos as int, end as int, from as int); }
        let ghost before = acc@;
        if pos >= from {
            match t {
                Tag::NewVar => {
                    acc.push(BEGIN_RANGE);
                    acc.push(ITER_EXPR);
                    acc.push(FINALIZE_RANGE);
                },
                Tag::VarRef(i) => {
                    acc.push(REFER_RANGE);
                    acc.push(i);
                },
                Tag::SymbolSize(s) => {
                    acc.push(ITER_VAR_SYMBOL);
                    acc.push(s);
                    let mut k: usize = pos + 1;
                    while k < next
                        invariant
                            b == pattern@,
                            pos + 1 <= k <= next,
                            next <= b.len(),
                            acc@ == before + seq![ITER_VAR_SYMBOL, s] + b.subrange(pos + 1, k as int),
                        decreases next - k,
                    {
                        acc.push(pattern[k]);
                        k = k + 1;
                        assert(acc@ =~= before + seq![ITER_VAR_SYMBOL, s] + b.subrange(pos + 1, k as int));
                    }
                },
                Tag::Arity(a) => {
                    acc.push(ITER_VAR_ARITY);
                    acc.push(a);
                },
            }
            proof {
                assert(acc@ =~= before + token_ops(b, pos as int, t));
                match ops_from(b, next as int, end as int, from as int) {
                    Some(rest) => {
                        assert(before + (token_ops(b, pos as int, t) + rest) =~= acc@ + rest);
                    },
                    None => {},
                }
            }
        }
        pos = next;
    }
    assert(ops_from(b, pos as int, end as int, from as int) == Some(Seq::<u8>::empty()));
    assert(acc@ + Seq::<u8>::empty() =~= acc@);
    let mut out: Vec<u8> = Vec::new();
    let mut k: usize = acc.len();
    while k > 0
        invariant
            k <= acc@.len(),
            out@ == acc@.subrange(k as int, acc@.len() as int).reverse(),
        decreases k,
    {
        k = k - 1;
        out.push(acc[k]);
        assert(out@ =~= acc@.subrange(k as int, acc@.len() as int).reverse());
    }
    assert(acc@.subrange(0, acc@.len() as int) =~= acc@);
    Some(out)
}

} // verus!
