//! The parser of the fact-program syntax: a recursive-descent parser over a list of tokens.
//!
//! Each `parse_` method reads from the current token on, and either returns what it parsed or
//! the first unexpected token. The grammar that each method reads is stated by a spec
//! function of this module, over the source characters `cs`, the tokens `toks` and the index
//! `pos` of the current token; each one gives the result and the index of the token after the
//! parse.

use vstd::prelude::*;
use crate::error::{ParseError, ParseErrorV};
use crate::ir::{
    Block, BlockV, Effect, EffectV, Fact, FactV, Input, InputV, KnownSubset, Statement, StatementV,
    blocks_view, effects_view, known_subsets_view, live_on_entry_effects, pairs_view,
    placeholders_for, statements_view, strs_view,
};
use crate::lexer::{
    byte_len, byte_offset, eof_token, lemma_byte_offset_mono, lemma_lex_from_unfold,
    lemma_step_len, lex, lex_from, lex_step, lexable,
    significant, token_at, tokenize, utf8_len_of,
};
use crate::text::chars_of;
use crate::token::{Span, Token, TokenKind};

verus! {

/// A parse result together with the index of the next token.
pub type Parsed<T> = (Result<T, ParseErrorV>, int);

/// Whether `b` is the byte offset of a character boundary of `cs`.
pub open spec fn is_boundary(cs: Seq<char>, b: int) -> bool {
    exists|k: int| 0 <= k <= cs.len() && byte_offset(cs, k) == b
}

/// Whether a span starts and ends on character boundaries of `cs`, in order.
pub open spec fn span_ok(cs: Seq<char>, sp: Span) -> bool {
    is_boundary(cs, sp.start as int) && is_boundary(cs, sp.end as int) && sp.start <= sp.end
}

/// The index of the character that starts at byte `b`.
pub open spec fn char_at_byte(cs: Seq<char>, b: int) -> int {
    choose|k: int| 0 <= k <= cs.len() && byte_offset(cs, k) == b
}

/// The kind of the token at `pos`, or end-of-file past the last token.
pub open spec fn tok_kind(toks: Seq<Token>, pos: int) -> TokenKind {
    if 0 <= pos < toks.len() { toks[pos].kind } else { TokenKind::Eof }
}

/// The span of the token at `pos`, or the empty span at byte 0 past the last token.
pub open spec fn tok_span(toks: Seq<Token>, pos: int) -> Span {
    if 0 <= pos < toks.len() { toks[pos].span } else { Span { start: 0, end: 0 } }
}

/// The index after moving past the token at `pos` (none is left past the last one).
pub open spec fn advance(toks: Seq<Token>, pos: int) -> int {
    if 0 <= pos < toks.len() { pos + 1 } else { pos }
}

/// The text of the token at `pos`.
pub open spec fn text_at(cs: Seq<char>, toks: Seq<Token>, pos: int) -> Seq<char> {
    let sp = tok_span(toks, pos);
    cs.subrange(char_at_byte(cs, sp.start as int), char_at_byte(cs, sp.end as int))
}

/// The error for an unexpected token at `pos`.
pub open spec fn unexpected(toks: Seq<Token>, pos: int, expected: Seq<TokenKind>) -> ParseErrorV {
    ParseErrorV { found: tok_kind(toks, pos), expected, position: tok_span(toks, pos) }
}

/// Moving past a token of kind `k`.
pub open spec fn consumed(toks: Seq<Token>, pos: int, k: TokenKind) -> Parsed<TokenKind> {
    if tok_kind(toks, pos) == k {
        (Ok(k), advance(toks, pos))
    } else {
        (Err(unexpected(toks, pos, seq![k])), pos)
    }
}

/// Moving past a token of kind `k` if it is the current one.
pub open spec fn tried(toks: Seq<Token>, pos: int, k: TokenKind) -> (bool, int) {
    if tok_kind(toks, pos) == k { (true, advance(toks, pos)) } else { (false, pos) }
}

/// A parameter of kind `k`: its text.
pub open spec fn parameter(cs: Seq<char>, toks: Seq<Token>, pos: int, k: TokenKind) -> Parsed<Seq<char>> {
    if tok_kind(toks, pos) == k {
        (Ok(text_at(cs, toks, pos)), advance(toks, pos))
    } else {
        (Err(unexpected(toks, pos, seq![k])), pos)
    }
}

/// A sequence of tokens of kind `kind` separated by tokens of kind `delim`: their texts.
pub open spec fn delimited_items(
    cs: Seq<char>,
    toks: Seq<Token>,
    pos: int,
    kind: TokenKind,
    delim: TokenKind,
) -> (Seq<Seq<char>>, int)
    decreases toks.len() - pos,
{
    if 0 <= pos < toks.len() && toks[pos].kind == kind {
        let t = text_at(cs, toks, pos);
        if pos + 1 < toks.len() && toks[pos + 1].kind == delim {
            let (rest, p) = delimited_items(cs, toks, pos + 2, kind, delim);
            (seq![t] + rest, p)
        } else {
            (seq![t], pos + 1)
        }
    } else {
        (seq![], pos)
    }
}

/// `keyword { Origin, ... }`: the placeholders.
pub open spec fn placeholders_result(cs: Seq<char>, toks: Seq<Token>, pos: int) -> Parsed<Seq<Seq<char>>> {
    let (r1, p1) = consumed(toks, pos, TokenKind::KwPlaceholders);
    match r1 {
        Err(e) => (Err(e), p1),
        Ok(_) => {
            let (r2, p2) = consumed(toks, p1, TokenKind::LCurly);
            match r2 {
                Err(e) => (Err(e), p2),
                Ok(_) => {
                    let (items, p3) = delimited_items(cs, toks, p2, TokenKind::Origin, TokenKind::Comma);
                    let (r4, p4) = consumed(toks, p3, TokenKind::RCurly);
                    match r4 {
                        Err(e) => (Err(e), p4),
                        Ok(_) => (Ok(items), p4),
                    }
                },
            }
        },
    }
}

/// The items `Origin: Origin, ...` of a known-subsets list.
pub open spec fn known_subset_items(cs: Seq<char>, toks: Seq<Token>, pos: int) -> Parsed<Seq<(Seq<char>, Seq<char>)>>
    decreases toks.len() - pos,
{
    if 0 <= pos < toks.len() && toks[pos].kind == TokenKind::Origin {
        let a = text_at(cs, toks, pos);
        let (r2, p2) = consumed(toks, pos + 1, TokenKind::Colon);
        match r2 {
            Err(e) => (Err(e), p2),
            Ok(_) => {
                let (r3, p3) = parameter(cs, toks, p2, TokenKind::Origin);
                match r3 {
                    Err(e) => (Err(e), p3),
                    Ok(b) => {
                        if pos < p3 < toks.len() && toks[p3].kind == TokenKind::Comma {
                            let (rest, p) = known_subset_items(cs, toks, p3 + 1);
                            match rest {
                                Err(e) => (Err(e), p),
                                Ok(items) => (Ok(seq![(a, b)] + items), p),
                            }
                        } else {
                            (Ok(seq![(a, b)]), p3)
                        }
                    },
                }
            },
        }
    } else {
        (Ok(seq![]), pos)
    }
}

/// Wraps a list parse between a keyword, `{` and `}`.
pub open spec fn braced<T>(toks: Seq<Token>, pos: int, kw: TokenKind, inner: spec_fn(int) -> Parsed<T>) -> Parsed<T> {
    let (r1, p1) = consumed(toks, pos, kw);
    match r1 {
        Err(e) => (Err(e), p1),
        Ok(_) => {
            let (r2, p2) = consumed(toks, p1, TokenKind::LCurly);
            match r2 {
                Err(e) => (Err(e), p2),
                Ok(_) => {
                    let (r3, p3) = inner(p2);
                    match r3 {
                        Err(e) => (Err(e), p3),
                        Ok(items) => {
                            let (r4, p4) = consumed(toks, p3, TokenKind::RCurly);
                            match r4 {
                                Err(e) => (Err(e), p4),
                                Ok(_) => (Ok(items), p4),
                            }
                        },
                    }
                },
            }
        },
    }
}

/// `known_subsets { Origin: Origin, ... }`.
pub open spec fn known_subsets_result(cs: Seq<char>, toks: Seq<Token>, pos: int) -> Parsed<Seq<(Seq<char>, Seq<char>)>> {
    braced(toks, pos, TokenKind::KwKnownSubsets, |p: int| known_subset_items(cs, toks, p))
}

/// The items `(K1, K2), ...` of a list of pairs of parameters.
pub open spec fn pair_items(
    cs: Seq<char>,
    toks: Seq<Token>,
    pos: int,
    k1: TokenKind,
    k2: TokenKind,
) -> Parsed<Seq<(Seq<char>, Seq<char>)>>
    decreases toks.len() - pos,
{
    if 0 <= pos < toks.len() && toks[pos].kind == TokenKind::LParen {
        let (r1, p1) = parameter(cs, toks, pos + 1, k1);
        match r1 {
            Err(e) => (Err(e), p1),
            Ok(x) => {
                let (r2, p2) = consumed(toks, p1, TokenKind::Comma);
                match r2 {
                    Err(e) => (Err(e), p2),
                    Ok(_) => {
                        let (r3, p3) = parameter(cs, toks, p2, k2);
                        match r3 {
                            Err(e) => (Err(e), p3),
                            Ok(y) => {
                                let (r4, p4) = consumed(toks, p3, TokenKind::RParen);
                                match r4 {
                                    Err(e) => (Err(e), p4),
                                    Ok(_) => {
                                        if pos < p4 < toks.len() && toks[p4].kind == TokenKind::Comma {
                                            let (rest, p) = pair_items(cs, toks, p4 + 1, k1, k2);
                                            match rest {
                                                Err(e) => (Err(e), p),
                                                Ok(items) => (Ok(seq![(x, y)] + items), p),
                                            }
                                        } else {
                                            (Ok(seq![(x, y)]), p4)
                                        }
                                    },
                                }
                            },
                        }
                    },
                }
            },
        }
    } else {
        (Ok(seq![]), pos)
    }
}

/// `kw { (K1, K2), ... }`.
pub open spec fn braced_pairs(
    cs: Seq<char>,
    toks: Seq<Token>,
    pos: int,
    kw: TokenKind,
    k1: TokenKind,
    k2: TokenKind,
) -> Parsed<Seq<(Seq<char>, Seq<char>)>> {
    braced(toks, pos, kw, |p: int| pair_items(cs, toks, p, k1, k2))
}

/// `use(Origin, ...)`.
pub open spec fn use_result(cs: Seq<char>, toks: Seq<Token>, pos: int) -> Parsed<EffectV> {
    let (r1, p1) = consumed(toks, pos, TokenKind::KwUse);
    match r1 {
        Err(e) => (Err(e), p1),
        Ok(_) => {
            let (r2, p2) = consumed(toks, p1, TokenKind::LParen);
            match r2 {
                Err(e) => (Err(e), p2),
                Ok(_) => {
                    let (items, p3) = delimited_items(cs, toks, p2, TokenKind::Origin, TokenKind::Comma);
                    let (r4, p4) = consumed(toks, p3, TokenKind::RParen);
                    match r4 {
                        Err(e) => (Err(e), p4),
                        Ok(_) => (Ok(EffectV::Use { origins: items }), p4),
                    }
                },
            }
        },
    }
}

/// `kw(K)`: the text of the parameter.
pub open spec fn unary_fact(cs: Seq<char>, toks: Seq<Token>, pos: int, kw: TokenKind, k: TokenKind) -> Parsed<Seq<char>> {
    let (r1, p1) = consumed(toks, pos, kw);
    match r1 {
        Err(e) => (Err(e), p1),
        Ok(_) => {
            let (r2, p2) = consumed(toks, p1, TokenKind::LParen);
            match r2 {
                Err(e) => (Err(e), p2),
                Ok(_) => {
                    let (r3, p3) = parameter(cs, toks, p2, k);
                    match r3 {
                        Err(e) => (Err(e), p3),
                        Ok(x) => {
                            let (r4, p4) = consumed(toks, p3, TokenKind::RParen);
                            match r4 {
                                Err(e) => (Err(e), p4),
                                Ok(_) => (Ok(x), p4),
                            }
                        },
                    }
                },
            }
        },
    }
}

/// `kw(K1 sep K2)`: the texts of the parameters.
pub open spec fn binary_fact(
    cs: Seq<char>,
    toks: Seq<Token>,
    pos: int,
    kw: TokenKind,
    k1: TokenKind,
    sep: TokenKind,
    k2: TokenKind,
) -> Parsed<(Seq<char>, Seq<char>)> {
    let (r1, p1) = consumed(toks, pos, kw);
    match r1 {
        Err(e) => (Err(e), p1),
        Ok(_) => {
            let (r2, p2) = consumed(toks, p1, TokenKind::LParen);
            match r2 {
                Err(e) => (Err(e), p2),
                Ok(_) => {
                    let (r3, p3) = parameter(cs, toks, p2, k1);
                    match r3 {
                        Err(e) => (Err(e), p3),
                        Ok(x) => {
                            let (r4, p4) = consumed(toks, p3, sep);
                            match r4 {
                                Err(e) => (Err(e), p4),
                                Ok(_) => {
                                    let (r5, p5) = parameter(cs, toks, p4, k2);
                                    match r5 {
                                        Err(e) => (Err(e), p5),
                                        Ok(y) => {
                                            let (r6, p6) = consumed(toks, p5, TokenKind::RParen);
                                            match r6 {
                                                Err(e) => (Err(e), p6),
                                                Ok(_) => (Ok((x, y)), p6),
                                            }
                                        },
                                    }
                                },
                            }
                        },
                    }
                },
            }
        },
    }
}

/// The token kinds listed in the error for a missing fact (the older spellings
/// `borrow_region_at`, `invalidates` and `kill` start facts too, but are not listed).
pub open spec fn fact_keywords() -> Seq<TokenKind> {
    seq![
        TokenKind::KwOutlives,
        TokenKind::KwLoanIssuedAt,
        TokenKind::KwLoanInvalidatedAt,
        TokenKind::KwLoanKilledAt,
        TokenKind::KwVarUsedAt,
        TokenKind::KwVarDefinedAt,
        TokenKind::KwOriginLiveOnEntry,
        TokenKind::KwVarDroppedAt,
        TokenKind::KwPathMovedAtBase,
        TokenKind::KwPathAssignedAtBase,
        TokenKind::KwPathAccessedAtBase,
    ]
}

/// Maps the parameter of a unary fact to the fact.
pub open spec fn map_unary(r: Parsed<Seq<char>>, f: spec_fn(Seq<char>) -> FactV) -> Parsed<FactV> {
    match r.0 {
        Err(e) => (Err(e), r.1),
        Ok(x) => (Ok(f(x)), r.1),
    }
}

/// A fact. `var_dropped_at(V)` reads as a use of the variable.
pub open spec fn fact_result(cs: Seq<char>, toks: Seq<Token>, pos: int) -> Parsed<FactV> {
    let k = tok_kind(toks, pos);
    match k {
        TokenKind::KwOutlives => {
            let r = binary_fact(cs, toks, pos, k, TokenKind::Origin, TokenKind::Colon, TokenKind::Origin);
            match r.0 {
                Err(e) => (Err(e), r.1),
                Ok(p) => (Ok(FactV::Outlives { a: p.0, b: p.1 }), r.1),
            }
        },
        TokenKind::KwBorrowRegionAt | TokenKind::KwLoanIssuedAt => {
            let r = binary_fact(cs, toks, pos, k, TokenKind::Origin, TokenKind::Comma, TokenKind::Loan);
            match r.0 {
                Err(e) => (Err(e), r.1),
                Ok(p) => (Ok(FactV::BorrowRegionAt { origin: p.0, loan: p.1 }), r.1),
            }
        },
        TokenKind::KwInvalidates | TokenKind::KwLoanInvalidatedAt => map_unary(
            unary_fact(cs, toks, pos, k, TokenKind::Loan),
            |x: Seq<char>| FactV::Invalidates { loan: x },
        ),
        TokenKind::KwKill | TokenKind::KwLoanKilledAt => map_unary(
            unary_fact(cs, toks, pos, k, TokenKind::Loan),
            |x: Seq<char>| FactV::Kill { loan: x },
        ),
        TokenKind::KwVarUsedAt | TokenKind::KwVarDroppedAt => map_unary(
            unary_fact(cs, toks, pos, k, TokenKind::Variable),
            |x: Seq<char>| FactV::UseVariable { variable: x },
        ),
        TokenKind::KwVarDefinedAt => map_unary(
            unary_fact(cs, toks, pos, k, TokenKind::Variable),
            |x: Seq<char>| FactV::DefineVariable { variable: x },
        ),
        TokenKind::KwOriginLiveOnEntry => map_unary(
            unary_fact(cs, toks, pos, k, TokenKind::Origin),
            |x: Seq<char>| FactV::OriginLiveOnEntry { origin: x },
        ),
        TokenKind::KwPathMovedAtBase => map_unary(
            unary_fact(cs, toks, pos, k, TokenKind::Path),
            |x: Seq<char>| FactV::PathMovedAtBase { path: x },
        ),
        TokenKind::KwPathAssignedAtBase => map_unary(
            unary_fact(cs, toks, pos, k, TokenKind::Path),
            |x: Seq<char>| FactV::PathAssignedAtBase { path: x },
        ),
        TokenKind::KwPathAccessedAtBase => map_unary(
            unary_fact(cs, toks, pos, k, TokenKind::Path),
            |x: Seq<char>| FactV::PathAccessedAtBase { path: x },
        ),
        _ => (Err(unexpected(toks, pos, fact_keywords())), pos),
    }
}

/// One effect of a list: a use, or a fact (`None` when no fact could be parsed, which ends
/// the list).
pub open spec fn effect_item(cs: Seq<char>, toks: Seq<Token>, pos: int) -> Parsed<Option<EffectV>> {
    if tok_kind(toks, pos) == TokenKind::KwUse {
        let (r, p) = use_result(cs, toks, pos);
        match r {
            Err(e) => (Err(e), p),
            Ok(u) => (Ok(Some(u)), p),
        }
    } else {
        let (r, p) = fact_result(cs, toks, pos);
        match r {
            Err(_) => (Ok(None), p),
            Ok(f) => (Ok(Some(EffectV::Fact(f))), p),
        }
    }
}

/// A list of effects separated by commas. It ends before a token that starts no effect, and
/// a fact that fails to parse ends it too (after the tokens that the attempt read).
pub open spec fn effects_result(cs: Seq<char>, toks: Seq<Token>, pos: int) -> Parsed<Seq<EffectV>>
    decreases toks.len() - pos,
{
    let (r, p) = effect_item(cs, toks, pos);
    match r {
        Err(e) => (Err(e), p),
        Ok(None) => (Ok(seq![]), p),
        Ok(Some(x)) => {
            if pos <= p < toks.len() && toks[p].kind == TokenKind::Comma {
                let (rest, q) = effects_result(cs, toks, p + 1);
                match rest {
                    Err(e) => (Err(e), q),
                    Ok(items) => (Ok(seq![x] + items), q),
                }
            } else {
                (Ok(seq![x]), p)
            }
        },
    }
}

/// A list of statements, up to `goto` or `}`: `effects;` or `effects / effects;`.
pub open spec fn statements_result(cs: Seq<char>, toks: Seq<Token>, pos: int) -> Parsed<Seq<StatementV>>
    decreases toks.len() - pos,
{
    let k = tok_kind(toks, pos);
    if k == TokenKind::KwGoto || k == TokenKind::RCurly {
        (Ok(seq![]), pos)
    } else {
        let (r1, p1) = effects_result(cs, toks, pos);
        match r1 {
            Err(e) => (Err(e), p1),
            Ok(es) => {
                let k1 = tok_kind(toks, p1);
                if k1 == TokenKind::Semi {
                    let s = StatementV { effects_start: live_on_entry_effects(es), effects: es };
                    if pos <= p1 < toks.len() {
                        let (rest, q) = statements_result(cs, toks, p1 + 1);
                        match rest {
                            Err(e) => (Err(e), q),
                            Ok(ss) => (Ok(seq![s] + ss), q),
                        }
                    } else {
                        (Ok(seq![s]), p1)
                    }
                } else if k1 == TokenKind::Slash {
                    let (r2, p2) = effects_result(cs, toks, advance(toks, p1));
                    match r2 {
                        Err(e) => (Err(e), p2),
                        Ok(es2) => {
                            let (r3, p3) = consumed(toks, p2, TokenKind::Semi);
                            match r3 {
                                Err(e) => (Err(e), p3),
                                Ok(_) => {
                                    let s = StatementV { effects_start: es, effects: es2 };
                                    if pos < p3 <= toks.len() {
                                        let (rest, q) = statements_result(cs, toks, p3);
                                        match rest {
                                            Err(e) => (Err(e), q),
                                            Ok(ss) => (Ok(seq![s] + ss), q),
                                        }
                                    } else {
                                        (Ok(seq![s]), p3)
                                    }
                                },
                            }
                        },
                    }
                } else {
                    (Err(unexpected(toks, p1, seq![TokenKind::Semi, TokenKind::Slash])), p1)
                }
            },
        }
    }
}

/// The jumps at the end of a block: `goto Block, ...;`, or none.
pub open spec fn goto_result(cs: Seq<char>, toks: Seq<Token>, pos: int) -> Parsed<Seq<Seq<char>>> {
    if tok_kind(toks, pos) == TokenKind::KwGoto {
        let (items, p1) = delimited_items(cs, toks, advance(toks, pos), TokenKind::Block, TokenKind::Comma);
        let (r2, p2) = consumed(toks, p1, TokenKind::Semi);
        match r2 {
            Err(e) => (Err(e), p2),
            Ok(_) => (Ok(items), p2),
        }
    } else {
        (Ok(seq![]), pos)
    }
}

/// The body of a block after its name: `{ statements goto }`.
pub open spec fn block_body(cs: Seq<char>, toks: Seq<Token>, pos: int, name: Seq<char>) -> Parsed<BlockV> {
    let (r1, p1) = consumed(toks, pos, TokenKind::LCurly);
    match r1 {
        Err(e) => (Err(e), p1),
        Ok(_) => {
            let (r2, p2) = statements_result(cs, toks, p1);
            match r2 {
                Err(e) => (Err(e), p2),
                Ok(ss) => {
                    let (r3, p3) = goto_result(cs, toks, p2);
                    match r3 {
                        Err(e) => (Err(e), p3),
                        Ok(gs) => {
                            let (r4, p4) = consumed(toks, p3, TokenKind::RCurly);
                            match r4 {
                                Err(e) => (Err(e), p4),
                                Ok(_) => (Ok(BlockV { name, statements: ss, goto: gs }), p4),
                            }
                        },
                    }
                },
            }
        },
    }
}

/// The blocks: `block Block { ... }`, as many as follow.
pub open spec fn blocks_result(cs: Seq<char>, toks: Seq<Token>, pos: int) -> Parsed<Seq<BlockV>>
    decreases toks.len() - pos,
{
    if 0 <= pos < toks.len() && toks[pos].kind == TokenKind::KwBlock {
        let (r1, p1) = parameter(cs, toks, pos + 1, TokenKind::Block);
        match r1 {
            Err(e) => (Err(e), p1),
            Ok(name) => {
                let (r2, p2) = block_body(cs, toks, p1, name);
                match r2 {
                    Err(e) => (Err(e), p2),
                    Ok(b) => {
                        if pos < p2 <= toks.len() {
                            let (rest, q) = blocks_result(cs, toks, p2);
                            match rest {
                                Err(e) => (Err(e), q),
                                Ok(bs) => (Ok(seq![b] + bs), q),
                            }
                        } else {
                            (Ok(seq![b]), p2)
                        }
                    },
                }
            },
        }
    } else {
        (Ok(seq![]), pos)
    }
}

/// The value of an optional section: what it parsed, or nothing when it failed.
pub open spec fn or_empty<T>(r: Result<Seq<T>, ParseErrorV>) -> Seq<T> {
    match r {
        Ok(v) => v,
        Err(_) => seq![],
    }
}

/// A whole program: placeholders, then the optional sections (known subsets, used and
/// dropped origins of variables, child paths, paths of variables; each one that fails to
/// parse counts as empty and leaves the tokens it read behind), then the blocks.
pub open spec fn input_result(cs: Seq<char>, toks: Seq<Token>, pos: int) -> Parsed<InputV> {
    let (r1, p1) = placeholders_result(cs, toks, pos);
    match r1 {
        Err(e) => (Err(e), p1),
        Ok(ps) => {
            let (r2, p2) = known_subsets_result(cs, toks, p1);
            let (r3, p3) = braced_pairs(cs, toks, p2, TokenKind::KwUseOfVarDerefsOrigin, TokenKind::Variable, TokenKind::Origin);
            let (r4, p4) = braced_pairs(cs, toks, p3, TokenKind::KwDropOfVarDerefsOrigin, TokenKind::Variable, TokenKind::Origin);
            let (r5, p5) = braced_pairs(cs, toks, p4, TokenKind::KwChildPath, TokenKind::Path, TokenKind::Path);
            let (r6, p6) = braced_pairs(cs, toks, p5, TokenKind::KwPathIsVar, TokenKind::Path, TokenKind::Variable);
            let (r7, p7) = blocks_result(cs, toks, p6);
            match r7 {
                Err(e) => (Err(e), p7),
                Ok(bs) => (
                    Ok(InputV {
                        placeholders: placeholders_for(ps),
                        known_subsets: or_empty(r2),
                        blocks: bs,
                        use_of_var_derefs_origin: or_empty(r3),
                        drop_of_var_derefs_origin: or_empty(r4),
                        child_path: or_empty(r5),
                        path_is_var: or_empty(r6),
                    }),
                    p7,
                ),
            }
        },
    }
}

/// Adds parsed items in front of the items of a list parse.
pub open spec fn prepend<T>(acc: Seq<T>, r: Parsed<Seq<T>>) -> Parsed<Seq<T>> {
    match r.0 {
        Err(e) => (Err(e), r.1),
        Ok(items) => (Ok(acc + items), r.1),
    }
}

pub open spec fn res_kind(r: Result<TokenKind, ParseError>) -> Result<TokenKind, ParseErrorV> {
    match r {
        Ok(k) => Ok(k),
        Err(e) => Err(e@),
    }
}

pub open spec fn res_text(r: Result<String, ParseError>) -> Result<Seq<char>, ParseErrorV> {
    match r {
        Ok(s) => Ok(s@),
        Err(e) => Err(e@),
    }
}

pub open spec fn res_strs(r: Result<Vec<String>, ParseError>) -> Result<Seq<Seq<char>>, ParseErrorV> {
    match r {
        Ok(v) => Ok(strs_view(v@)),
        Err(e) => Err(e@),
    }
}

pub open spec fn res_pairs(r: Result<Vec<(String, String)>, ParseError>) -> Result<Seq<(Seq<char>, Seq<char>)>, ParseErrorV> {
    match r {
        Ok(v) => Ok(pairs_view(v@)),
        Err(e) => Err(e@),
    }
}

pub open spec fn res_known(r: Result<Vec<KnownSubset>, ParseError>) -> Result<Seq<(Seq<char>, Seq<char>)>, ParseErrorV> {
    match r {
        Ok(v) => Ok(known_subsets_view(v@)),
        Err(e) => Err(e@),
    }
}

pub open spec fn res_fact(r: Result<Fact, ParseError>) -> Result<FactV, ParseErrorV> {
    match r {
        Ok(f) => Ok(f@),
        Err(e) => Err(e@),
    }
}

pub open spec fn res_effect(r: Result<Effect, ParseError>) -> Result<EffectV, ParseErrorV> {
    match r {
        Ok(f) => Ok(f@),
        Err(e) => Err(e@),
    }
}

pub open spec fn res_effects(r: Result<Vec<Effect>, ParseError>) -> Result<Seq<EffectV>, ParseErrorV> {
    match r {
        Ok(v) => Ok(effects_view(v@)),
        Err(e) => Err(e@),
    }
}

pub open spec fn res_statements(r: Result<Vec<Statement>, ParseError>) -> Result<Seq<StatementV>, ParseErrorV> {
    match r {
        Ok(v) => Ok(statements_view(v@)),
        Err(e) => Err(e@),
    }
}

pub open spec fn res_blocks(r: Result<Vec<Block>, ParseError>) -> Result<Seq<BlockV>, ParseErrorV> {
    match r {
        Ok(v) => Ok(blocks_view(v@)),
        Err(e) => Err(e@),
    }
}

pub open spec fn res_input(r: Result<Input, ParseError>) -> Result<InputV, ParseErrorV> {
    match r {
        Ok(v) => Ok(v@),
        Err(e) => Err(e@),
    }
}

/// Input parser.
///
/// Construct with the source text and its tokens, and choose any of the `parse_` methods as
/// an entry point. The main entry point for full programs is [`Parser::parse_input`].
pub struct Parser<'input> {
    input: &'input str,
    chars: Vec<char>,
    tokens: Vec<Token>,
    pos: usize,
}

impl<'input> Parser<'input> {
    /// The characters of the source text.
    pub closed spec fn source(&self) -> Seq<char> {
        self.chars@
    }

    /// The source text.
    pub closed spec fn input_text(&self) -> Seq<char> {
        self.input@
    }

    /// The tokens.
    pub closed spec fn toks(&self) -> Seq<Token> {
        self.tokens@
    }

    /// The index of the current token.
    pub closed spec fn cursor(&self) -> int {
        self.pos as int
    }

    /// The cursor stands at a token or just past the last one, and every token's span starts
    /// and ends on character boundaries of the source.
    pub open spec fn wf(&self) -> bool {
        &&& self.input_text() == self.source()
        &&& 0 <= self.cursor() <= self.toks().len()
        &&& forall|i: int| 0 <= i < self.toks().len() ==> #[trigger] span_ok(self.source(), self.toks()[i].span)
    }

    /// `other` is this parser, with its cursor moved forward (or not).
    pub open spec fn moved_from(&self, old: &Self) -> bool {
        &&& self.source() == old.source()
        &&& self.input_text() == old.input_text()
        &&& self.toks() == old.toks()
        &&& old.cursor() <= self.cursor() <= self.toks().len()
        &&& self.wf()
    }

    /// A parser of `input`, at its first token.
    pub fn new(input: &'input str, tokens: Vec<Token>) -> (r: Self)
        ensures
            r.source() == input@,
            r.input_text() == input@,
            r.toks() == tokens@,
            r.cursor() == 0,
    {
        Parser { input, chars: chars_of(input), tokens, pos: 0 }
    }

    /// The kind of the current token, or end-of-file past the last one.
    pub(crate) fn peek(&self) -> (r: TokenKind)
        requires
            self.wf(),
        ensures
            r == tok_kind(self.toks(), self.cursor()),
    {
        if self.pos < self.tokens.len() {
            self.tokens[self.pos].kind
        } else {
            TokenKind::Eof
        }
    }

    /// The span of the current token, or an empty span at byte 0 past the last one.
    pub(crate) fn position(&self) -> (r: Span)
        requires
            self.wf(),
        ensures
            r == tok_span(self.toks(), self.cursor()),
    {
        if self.pos < self.tokens.len() {
            self.tokens[self.pos].span
        } else {
            Span { start: 0, end: 0 }
        }
    }

    /// The index of the character that starts at byte `b`.
    fn char_index(&self, b: u32) -> (r: usize)
        requires
            self.wf(),
            is_boundary(self.source(), b as int),
        ensures
            r as int == char_at_byte(self.source(), b as int),
            r <= self.source().len(),
            byte_offset(self.source(), r as int) == b,
    {
        let ghost cs = self.chars@;
        let ghost k0 = choose|k: int| 0 <= k <= cs.len() && byte_offset(cs, k) == b;
        let mut k: usize = 0;
        let mut off: u64 = 0;
        while off < b as u64
            invariant
                cs == self.chars@,
                cs.len() == self.chars.len(),
                0 <= k0 <= cs.len(),
                byte_offset(cs, k0) == b,
                k <= k0,
                off == byte_offset(cs, k as int),
                off <= b,
            decreases k0 - k,
        {
            proof {
                if k0 <= k {
                    lemma_byte_offset_mono(cs, k0, k as int);
                }
                lemma_byte_offset_mono(cs, k as int + 1, k0);
            }
            off = off + utf8_len_of(self.chars[k]) as u64;
            k = k + 1;
        }
        proof {
            if k < k0 {
                lemma_byte_offset_mono(cs, k as int, k0);
            }
            let c = char_at_byte(cs, b as int);
            if c < k {
                lemma_byte_offset_mono(cs, c, k as int);
            } else if c > k {
                lemma_byte_offset_mono(cs, k as int, c);
            }
        }
        k
    }

    /// The text of the current token.
    pub(crate) fn text(&self) -> (r: String)
        requires
            self.wf(),
        ensures
            r@ == text_at(self.source(), self.toks(), self.cursor()),
    {
        let span = self.position();
        proof {
            if self.cursor() < self.toks().len() {
                assert(span_ok(self.source(), self.toks()[self.cursor()].span));
            } else {
                assert(byte_offset(self.source(), 0) == 0);
            }
        }
        let ks = self.char_index(span.start);
        let ke = self.char_index(span.end);
        proof {
            if ke < ks {
                lemma_byte_offset_mono(self.source(), ke as int, ks as int);
            }
        }
        self.input.substring_char(ks, ke).to_owned()
    }

    /// Whether the current token is of kind `kind`.
    pub(crate) fn at(&self, kind: TokenKind) -> (r: bool)
        requires
            self.wf(),
        ensures
            r == (tok_kind(self.toks(), self.cursor()) == kind),
    {
        self.peek() == kind
    }

    /// Moves past the current token, if there is one.
    pub(crate) fn bump(&mut self)
        requires
            old(self).wf(),
        ensures
            final(self).moved_from(old(self)),
            final(self).cursor() == advance(old(self).toks(), old(self).cursor()),
    {
        if self.pos < self.tokens.len() {
            self.pos = self.pos + 1;
        }
    }

    /// If the current token is of kind `expected`, moves past it and returns `true`;
    /// otherwise returns `false`.
    pub(crate) fn try_consume(&mut self, expected: TokenKind) -> (r: bool)
        requires
            old(self).wf(),
        ensures
            final(self).moved_from(old(self)),
            (r, final(self).cursor()) == tried(old(self).toks(), old(self).cursor(), expected),
    {
        if !self.at(expected) {
            return false;
        }
        self.bump();
        true
    }

    /// Moves past a token of kind `expected`, or reports the current token as unexpected.
    pub(crate) fn consume(&mut self, expected: TokenKind) -> (r: Result<TokenKind, ParseError>)
        requires
            old(self).wf(),
        ensures
            final(self).moved_from(old(self)),
            (res_kind(r), final(self).cursor()) == consumed(old(self).toks(), old(self).cursor(), expected),
    {
        if self.try_consume(expected) {
            return Ok(expected);
        }
        let found = self.peek();
        let position = self.position();
        let mut expected_kinds = Vec::new();
        expected_kinds.push(expected);
        proof {
            assert(expected_kinds@ =~= seq![expected]);
        }
        Err(ParseError::UnexpectedToken { found, expected: expected_kinds, position })
    }

    /// A parameter of kind `kind`: its text.
    pub fn parse_parameter(&mut self, kind: TokenKind) -> (r: Result<String, ParseError>)
        requires
            old(self).wf(),
        ensures
            final(self).moved_from(old(self)),
            (res_text(r), final(self).cursor()) == parameter(old(self).source(), old(self).toks(), old(self).cursor(), kind),
    {
        let text = self.text();
        self.consume(kind)?;
        Ok(text)
    }

    /// A sequence of tokens of kind `kind` delimited by tokens of kind `delimiter`: their
    /// texts.
    pub(crate) fn delimited(&mut self, kind: TokenKind, delimiter: TokenKind) -> (r: Result<Vec<String>, ParseError>)
        requires
            old(self).wf(),
            kind != TokenKind::Eof,
            delimiter != TokenKind::Eof,
        ensures
            final(self).moved_from(old(self)),
            r is Ok,
            (res_strs(r)->Ok_0, final(self).cursor()) == delimited_items(
                old(self).source(),
                old(self).toks(),
                old(self).cursor(),
                kind,
                delimiter,
            ),
    {
        let ghost cs = self.source();
        let ghost toks = self.toks();
        let ghost start = self.cursor();
        let ghost all = delimited_items(cs, toks, start, kind, delimiter);
        let mut result: Vec<String> = Vec::new();
        loop
            invariant_except_break
                strs_view(result@) + delimited_items(cs, toks, self.cursor(), kind, delimiter).0 == all.0,
                delimited_items(cs, toks, self.cursor(), kind, delimiter).1 == all.1,
            invariant
                self.moved_from(old(self)),
                cs == self.source(),
                toks == self.toks(),
                all == delimited_items(cs, toks, start, kind, delimiter),
                kind != TokenKind::Eof,
                delimiter != TokenKind::Eof,
            ensures
                self.moved_from(old(self)),
                strs_view(result@) == all.0,
                self.cursor() == all.1,
            decreases toks.len() - self.cursor(),
        {
            if !self.at(kind) {
                proof {
                    assert(strs_view(result@) + seq![] =~= strs_view(result@));
                }
                break;
            }
            let ghost before = result@;
            let ghost c = self.cursor();
            result.push(self.text());
            let _ = self.consume(kind);
            proof {
                assert(strs_view(result@) =~= strs_view(before).push(text_at(cs, toks, c)));
            }
            if !self.try_consume(delimiter) {
                proof {
                    assert(delimited_items(cs, toks, c, kind, delimiter) == (seq![text_at(cs, toks, c)], c + 1));
                    assert(strs_view(before) + seq![text_at(cs, toks, c)] =~= strs_view(result@));
                }
                break;
            }
            proof {
                let rest = delimited_items(cs, toks, c + 2, kind, delimiter);
                assert(self.cursor() == c + 2);
                assert(delimited_items(cs, toks, c, kind, delimiter) == (seq![text_at(cs, toks, c)] + rest.0, rest.1));
                assert(strs_view(before) + (seq![text_at(cs, toks, c)] + rest.0) =~= strs_view(result@) + rest.0);
            }
        }
        Ok(result)
    }

    /// `placeholders { Origin, ... }`: the placeholder origins.
    pub fn parse_placeholders(&mut self) -> (r: Result<Vec<String>, ParseError>)
        requires
            old(self).wf(),
        ensures
            final(self).moved_from(old(self)),
            (res_strs(r), final(self).cursor()) == placeholders_result(old(self).source(), old(self).toks(), old(self).cursor()),
    {
        self.consume(TokenKind::KwPlaceholders)?;
        self.consume(TokenKind::LCurly)?;
        let origins = self.delimited(TokenKind::Origin, TokenKind::Comma)?;
        self.consume(TokenKind::RCurly)?;
        Ok(origins)
    }

    /// The items `Origin: Origin, ...` of a known-subsets list.
    fn known_subset_list(&mut self) -> (r: Result<Vec<KnownSubset>, ParseError>)
        requires
            old(self).wf(),
        ensures
            final(self).moved_from(old(self)),
            (res_known(r), final(self).cursor()) == known_subset_items(old(self).source(), old(self).toks(), old(self).cursor()),
    {
        let ghost cs = self.source();
        let ghost toks = self.toks();
        let ghost all = known_subset_items(cs, toks, self.cursor());
        let mut known_subsets: Vec<KnownSubset> = Vec::new();
        loop
            invariant_except_break
                prepend(known_subsets_view(known_subsets@), known_subset_items(cs, toks, self.cursor())) == all,
            invariant
                self.moved_from(old(self)),
                cs == self.source(),
                toks == self.toks(),
                all == known_subset_items(cs, toks, old(self).cursor()),
            ensures
                self.moved_from(old(self)),
                (Ok::<Seq<(Seq<char>, Seq<char>)>, ParseErrorV>(known_subsets_view(known_subsets@)), self.cursor()) == all,
            decreases toks.len() - self.cursor(),
        {
            let ghost c = self.cursor();
            let ghost acc = known_subsets_view(known_subsets@);
            if !self.at(TokenKind::Origin) {
                proof {
                    assert(acc + seq![] =~= acc);
                }
                break;
            }
            let a = self.parse_parameter(TokenKind::Origin)?;
            self.consume(TokenKind::Colon)?;
            let b = self.parse_parameter(TokenKind::Origin)?;
            known_subsets.push(KnownSubset { a, b });
            proof {
                assert(known_subsets_view(known_subsets@) =~= acc.push((a@, b@)));
            }
            if !self.try_consume(TokenKind::Comma) {
                proof {
                    assert(acc + seq![(a@, b@)] =~= acc.push((a@, b@)));
                }
                break;
            }
            proof {
                let rest = known_subset_items(cs, toks, self.cursor());
                match rest.0 {
                    Ok(items) => {
                        assert(acc + (seq![(a@, b@)] + items) =~= acc.push((a@, b@)) + items);
                    },
                    Err(_) => {},
                }
            }
        }
        Ok(known_subsets)
    }

    /// `known_subsets { Origin: Origin, ... }`: the known subsets.
    pub fn parse_known_subsets(&mut self) -> (r: Result<Vec<KnownSubset>, ParseError>)
        requires
            old(self).wf(),
        ensures
            final(self).moved_from(old(self)),
            (res_known(r), final(self).cursor()) == known_subsets_result(old(self).source(), old(self).toks(), old(self).cursor()),
    {
        self.consume(TokenKind::KwKnownSubsets)?;
        self.consume(TokenKind::LCurly)?;
        let known_subsets = self.known_subset_list()?;
        self.consume(TokenKind::RCurly)?;
        Ok(known_subsets)
    }

    /// The items `(K1, K2), ...` of a list of pairs of parameters.
    fn pair_list(&mut self, k1: TokenKind, k2: TokenKind) -> (r: Result<Vec<(String, String)>, ParseError>)
        requires
            old(self).wf(),
        ensures
            final(self).moved_from(old(self)),
            (res_pairs(r), final(self).cursor()) == pair_items(old(self).source(), old(self).toks(), old(self).cursor(), k1, k2),
    {
        let ghost cs = self.source();
        let ghost toks = self.toks();
        let ghost all = pair_items(cs, toks, self.cursor(), k1, k2);
        let mut mappings: Vec<(String, String)> = Vec::new();
        loop
            invariant_except_break
                prepend(pairs_view(mappings@), pair_items(cs, toks, self.cursor(), k1, k2)) == all,
            invariant
                self.moved_from(old(self)),
                cs == self.source(),
                toks == self.toks(),
                all == pair_items(cs, toks, old(self).cursor(), k1, k2),
            ensures
                self.moved_from(old(self)),
                (Ok::<Seq<(Seq<char>, Seq<char>)>, ParseErrorV>(pairs_view(mappings@)), self.cursor()) == all,
            decreases toks.len() - self.cursor(),
        {
            let ghost acc = pairs_view(mappings@);
            if !self.try_consume(TokenKind::LParen) {
                proof {
                    assert(acc + seq![] =~= acc);
                }
                break;
            }
            let x = self.parse_parameter(k1)?;
            self.consume(TokenKind::Comma)?;
            let y = self.parse_parameter(k2)?;
            self.consume(TokenKind::RParen)?;
            mappings.push((x, y));
            proof {
                assert(pairs_view(mappings@) =~= acc.push((x@, y@)));
            }
            if !self.try_consume(TokenKind::Comma) {
                proof {
                    assert(acc + seq![(x@, y@)] =~= acc.push((x@, y@)));
                }
                break;
            }
            proof {
                let rest = pair_items(cs, toks, self.cursor(), k1, k2);
                match rest.0 {
                    Ok(items) => {
                        assert(acc + (seq![(x@, y@)] + items) =~= acc.push((x@, y@)) + items);
                    },
                    Err(_) => {},
                }
            }
        }
        Ok(mappings)
    }

    /// `kw { (K1, K2), ... }`.
    fn braced_pair_list(&mut self, kw: TokenKind, k1: TokenKind, k2: TokenKind) -> (r: Result<Vec<(String, String)>, ParseError>)
        requires
            old(self).wf(),
        ensures
            final(self).moved_from(old(self)),
            (res_pairs(r), final(self).cursor()) == braced_pairs(old(self).source(), old(self).toks(), old(self).cursor(), kw, k1, k2),
    {
        self.consume(kw)?;
        self.consume(TokenKind::LCurly)?;
        let mappings = self.pair_list(k1, k2)?;
        self.consume(TokenKind::RCurly)?;
        Ok(mappings)
    }

    /// `use_of_var_derefs_origin { (Variable, Origin), ... }`.
    pub fn parse_use_of_var_derefs_origin(&mut self) -> (r: Result<Vec<(String, String)>, ParseError>)
        requires
            old(self).wf(),
        ensures
            final(self).moved_from(old(self)),
            (res_pairs(r), final(self).cursor()) == braced_pairs(old(self).source(), old(self).toks(), old(self).cursor(),
                TokenKind::KwUseOfVarDerefsOrigin, TokenKind::Variable, TokenKind::Origin),
    {
        self.braced_pair_list(TokenKind::KwUseOfVarDerefsOrigin, TokenKind::Variable, TokenKind::Origin)
    }

    /// `drop_of_var_derefs_origin { (Variable, Origin), ... }`.
    pub fn parse_drop_of_var_derefs_origin(&mut self) -> (r: Result<Vec<(String, String)>, ParseError>)
        requires
            old(self).wf(),
        ensures
            final(self).moved_from(old(self)),
            (res_pairs(r), final(self).cursor()) == braced_pairs(old(self).source(), old(self).toks(), old(self).cursor(),
                TokenKind::KwDropOfVarDerefsOrigin, TokenKind::Variable, TokenKind::Origin),
    {
        self.braced_pair_list(TokenKind::KwDropOfVarDerefsOrigin, TokenKind::Variable, TokenKind::Origin)
    }

    /// The items `(Variable, Origin), ...`.
    pub fn parse_var_region_mappings(&mut self) -> (r: Result<Vec<(String, String)>, ParseError>)
        requires
            old(self).wf(),
        ensures
            final(self).moved_from(old(self)),
            (res_pairs(r), final(self).cursor()) == pair_items(old(self).source(), old(self).toks(), old(self).cursor(),
                TokenKind::Variable, TokenKind::Origin),
    {
        self.pair_list(TokenKind::Variable, TokenKind::Origin)
    }

    /// `child_path { (Path, Path), ... }`: pairs of a child path and its parent.
    pub fn parse_child_path(&mut self) -> (r: Result<Vec<(String, String)>, ParseError>)
        requires
            old(self).wf(),
        ensures
            final(self).moved_from(old(self)),
            (res_pairs(r), final(self).cursor()) == braced_pairs(old(self).source(), old(self).toks(), old(self).cursor(),
                TokenKind::KwChildPath, TokenKind::Path, TokenKind::Path),
    {
        self.braced_pair_list(TokenKind::KwChildPath, TokenKind::Path, TokenKind::Path)
    }

    /// The items `(Path, Path), ...`.
    pub fn parse_path_path_mappings(&mut self) -> (r: Result<Vec<(String, String)>, ParseError>)
        requires
            old(self).wf(),
        ensures
            final(self).moved_from(old(self)),
            (res_pairs(r), final(self).cursor()) == pair_items(old(self).source(), old(self).toks(), old(self).cursor(),
                TokenKind::Path, TokenKind::Path),
    {
        self.pair_list(TokenKind::Path, TokenKind::Path)
    }

    /// `path_is_var { (Path, Variable), ... }`.
    pub fn parse_path_is_var(&mut self) -> (r: Result<Vec<(String, String)>, ParseError>)
        requires
            old(self).wf(),
        ensures
            final(self).moved_from(old(self)),
            (res_pairs(r), final(self).cursor()) == braced_pairs(old(self).source(), old(self).toks(), old(self).cursor(),
                TokenKind::KwPathIsVar, TokenKind::Path, TokenKind::Variable),
    {
        self.braced_pair_list(TokenKind::KwPathIsVar, TokenKind::Path, TokenKind::Variable)
    }

    /// The items `(Path, Variable), ...`.
    pub fn parse_path_var_mappings(&mut self) -> (r: Result<Vec<(String, String)>, ParseError>)
        requires
            old(self).wf(),
        ensures
            final(self).moved_from(old(self)),
            (res_pairs(r), final(self).cursor()) == pair_items(old(self).source(), old(self).toks(), old(self).cursor(),
                TokenKind::Path, TokenKind::Variable),
    {
        self.pair_list(TokenKind::Path, TokenKind::Variable)
    }

    /// `kw(K)`: the text of the parameter.
    fn unary(&mut self, kw: TokenKind, k: TokenKind) -> (r: Result<String, ParseError>)
        requires
            old(self).wf(),
        ensures
            final(self).moved_from(old(self)),
            (res_text(r), final(self).cursor()) == unary_fact(old(self).source(), old(self).toks(), old(self).cursor(), kw, k),
    {
        self.consume(kw)?;
        self.consume(TokenKind::LParen)?;
        let x = self.parse_parameter(k)?;
        self.consume(TokenKind::RParen)?;
        Ok(x)
    }

    /// `kw(K1 sep K2)`: the texts of the parameters.
    fn binary(&mut self, kw: TokenKind, k1: TokenKind, sep: TokenKind, k2: TokenKind) -> (r: Result<(String, String), ParseError>)
        requires
            old(self).wf(),
        ensures
            final(self).moved_from(old(self)),
            (match r {
                Ok(p) => Ok((p.0@, p.1@)),
                Err(e) => Err(e@),
            }, final(self).cursor()) == binary_fact(old(self).source(), old(self).toks(), old(self).cursor(), kw, k1, sep, k2),
    {
        self.consume(kw)?;
        self.consume(TokenKind::LParen)?;
        let x = self.parse_parameter(k1)?;
        self.consume(sep)?;
        let y = self.parse_parameter(k2)?;
        self.consume(TokenKind::RParen)?;
        Ok((x, y))
    }

    /// A fact. `var_dropped_at(V)` reads as a use of the variable.
    pub fn parse_fact(&mut self) -> (r: Result<Fact, ParseError>)
        requires
            old(self).wf(),
        ensures
            final(self).moved_from(old(self)),
            (res_fact(r), final(self).cursor()) == fact_result(old(self).source(), old(self).toks(), old(self).cursor()),
    {
        let k = self.peek();
        match k {
            TokenKind::KwOutlives => {
                let (a, b) = self.binary(k, TokenKind::Origin, TokenKind::Colon, TokenKind::Origin)?;
                Ok(Fact::Outlives { a, b })
            },
            TokenKind::KwBorrowRegionAt | TokenKind::KwLoanIssuedAt => {
                let (origin, loan) = self.binary(k, TokenKind::Origin, TokenKind::Comma, TokenKind::Loan)?;
                Ok(Fact::BorrowRegionAt { origin, loan })
            },
            TokenKind::KwInvalidates | TokenKind::KwLoanInvalidatedAt => {
                let loan = self.unary(k, TokenKind::Loan)?;
                Ok(Fact::Invalidates { loan })
            },
            TokenKind::KwKill | TokenKind::KwLoanKilledAt => {
                let loan = self.unary(k, TokenKind::Loan)?;
                Ok(Fact::Kill { loan })
            },
            TokenKind::KwVarUsedAt | TokenKind::KwVarDroppedAt => {
                let variable = self.unary(k, TokenKind::Variable)?;
                Ok(Fact::UseVariable { variable })
            },
            TokenKind::KwVarDefinedAt => {
                let variable = self.unary(k, TokenKind::Variable)?;
                Ok(Fact::DefineVariable { variable })
            },
            TokenKind::KwOriginLiveOnEntry => {
                let origin = self.unary(k, TokenKind::Origin)?;
                Ok(Fact::OriginLiveOnEntry { origin })
            },
            TokenKind::KwPathMovedAtBase => {
                let path = self.unary(k, TokenKind::Path)?;
                Ok(Fact::PathMovedAtBase { path })
            },
            TokenKind::KwPathAssignedAtBase => {
                let path = self.unary(k, TokenKind::Path)?;
                Ok(Fact::PathAssignedAtBase { path })
            },
            TokenKind::KwPathAccessedAtBase => {
                let path = self.unary(k, TokenKind::Path)?;
                Ok(Fact::PathAccessedAtBase { path })
            },
            found => {
                let mut expected = Vec::new();
                expected.push(TokenKind::KwOutlives);
                expected.push(TokenKind::KwLoanIssuedAt);
                expected.push(TokenKind::KwLoanInvalidatedAt);
                expected.push(TokenKind::KwLoanKilledAt);
                expected.push(TokenKind::KwVarUsedAt);
                expected.push(TokenKind::KwVarDefinedAt);
                expected.push(TokenKind::KwOriginLiveOnEntry);
                expected.push(TokenKind::KwVarDroppedAt);
                expected.push(TokenKind::KwPathMovedAtBase);
                expected.push(TokenKind::KwPathAssignedAtBase);
                expected.push(TokenKind::KwPathAccessedAtBase);
                proof {
                    assert(expected@ =~= fact_keywords());
                }
                Err(ParseError::UnexpectedToken { found, expected, position: self.position() })
            },
        }
    }

    /// `use(Origin, ...)`.
    pub fn parse_use(&mut self) -> (r: Result<Effect, ParseError>)
        requires
            old(self).wf(),
        ensures
            final(self).moved_from(old(self)),
            (res_effect(r), final(self).cursor()) == use_result(old(self).source(), old(self).toks(), old(self).cursor()),
    {
        self.consume(TokenKind::KwUse)?;
        self.consume(TokenKind::LParen)?;
        let origins = self.delimited(TokenKind::Origin, TokenKind::Comma)?;
        self.consume(TokenKind::RParen)?;
        Ok(Effect::Use { origins })
    }

    /// A list of effects separated by commas (see [`effects_result`]).
    pub fn parse_effects(&mut self) -> (r: Result<Vec<Effect>, ParseError>)
        requires
            old(self).wf(),
        ensures
            final(self).moved_from(old(self)),
            (res_effects(r), final(self).cursor()) == effects_result(old(self).source(), old(self).toks(), old(self).cursor()),
    {
        let ghost cs = self.source();
        let ghost toks = self.toks();
        let ghost all = effects_result(cs, toks, self.cursor());
        let mut effects: Vec<Effect> = Vec::new();
        loop
            invariant_except_break
                prepend(effects_view(effects@), effects_result(cs, toks, self.cursor())) == all,
            invariant
                self.moved_from(old(self)),
                cs == self.source(),
                toks == self.toks(),
                all == effects_result(cs, toks, old(self).cursor()),
            ensures
                self.moved_from(old(self)),
                (Ok::<Seq<EffectV>, ParseErrorV>(effects_view(effects@)), self.cursor()) == all,
            decreases toks.len() - self.cursor(),
        {
            let ghost acc = effects_view(effects@);
            let ghost c = self.cursor();
            if self.at(TokenKind::KwUse) {
                let u = self.parse_use()?;
                effects.push(u);
            } else {
                match self.parse_fact() {
                    Ok(fact) => {
                        effects.push(Effect::Fact(fact));
                    },
                    Err(_) => {
                        proof {
                            assert(acc + seq![] =~= acc);
                        }
                        break;
                    },
                }
            }
            let ghost x = effects_view(effects@).last();
            proof {
                assert(effects_view(effects@) =~= acc.push(x));
                assert(effect_item(cs, toks, c) == (Ok::<Option<EffectV>, ParseErrorV>(Some(x)), self.cursor()));
            }
            if !self.try_consume(TokenKind::Comma) {
                proof {
                    assert(acc + seq![x] =~= acc.push(x));
                }
                break;
            }
            proof {
                let rest = effects_result(cs, toks, self.cursor());
                match rest.0 {
                    Ok(items) => {
                        assert(acc + (seq![x] + items) =~= acc.push(x) + items);
                    },
                    Err(_) => {},
                }
            }
        }
        Ok(effects)
    }

    /// A list of statements, up to `goto` or `}` (see [`statements_result`]).
    pub fn parse_statements(&mut self) -> (r: Result<Vec<Statement>, ParseError>)
        requires
            old(self).wf(),
        ensures
            final(self).moved_from(old(self)),
            (res_statements(r), final(self).cursor()) == statements_result(old(self).source(), old(self).toks(), old(self).cursor()),
    {
        let ghost cs = self.source();
        let ghost toks = self.toks();
        let ghost all = statements_result(cs, toks, self.cursor());
        let mut statements: Vec<Statement> = Vec::new();
        loop
            invariant
                self.moved_from(old(self)),
                cs == self.source(),
                toks == self.toks(),
                all == statements_result(cs, toks, old(self).cursor()),
                prepend(statements_view(statements@), statements_result(cs, toks, self.cursor())) == all,
            decreases toks.len() - self.cursor(),
        {
            let ghost acc = statements_view(statements@);
            let ghost c = self.cursor();
            let k = self.peek();
            if k == TokenKind::KwGoto || k == TokenKind::RCurly {
                proof {
                    assert(acc + seq![] =~= acc);
                }
                return Ok(statements);
            }
            let effects_start = self.parse_effects()?;
            let k1 = self.peek();
            if k1 == TokenKind::Semi {
                self.consume(TokenKind::Semi)?;
                let st = Statement::new(effects_start);
                statements.push(st);
                proof {
                    assert(statements_view(statements@) =~= acc.push(st@));
                    let rest = statements_result(cs, toks, self.cursor());
                    match rest.0 {
                        Ok(items) => {
                            assert(acc + (seq![st@] + items) =~= acc.push(st@) + items);
                        },
                        Err(_) => {},
                    }
                }
            } else if k1 == TokenKind::Slash {
                self.consume(TokenKind::Slash)?;
                let effects = self.parse_effects()?;
                self.consume(TokenKind::Semi)?;
                let st = Statement { effects_start, effects };
                statements.push(st);
                proof {
                    assert(statements_view(statements@) =~= acc.push(st@));
                    let rest = statements_result(cs, toks, self.cursor());
                    match rest.0 {
                        Ok(items) => {
                            assert(acc + (seq![st@] + items) =~= acc.push(st@) + items);
                        },
                        Err(_) => {},
                    }
                }
            } else {
                let mut expected = Vec::new();
                expected.push(TokenKind::Semi);
                expected.push(TokenKind::Slash);
                proof {
                    assert(expected@ =~= seq![TokenKind::Semi, TokenKind::Slash]);
                }
                return Err(ParseError::UnexpectedToken { found: k1, expected, position: self.position() });
            }
        }
    }

    /// The jumps at the end of a block: `goto Block, ...;`, or none.
    pub fn parse_goto(&mut self) -> (r: Result<Vec<String>, ParseError>)
        requires
            old(self).wf(),
        ensures
            final(self).moved_from(old(self)),
            (res_strs(r), final(self).cursor()) == goto_result(old(self).source(), old(self).toks(), old(self).cursor()),
    {
        if self.try_consume(TokenKind::KwGoto) {
            let gotos = self.delimited(TokenKind::Block, TokenKind::Comma)?;
            self.consume(TokenKind::Semi)?;
            Ok(gotos)
        } else {
            let v = Vec::new();
            proof {
                assert(strs_view(v@) =~= seq![]);
            }
            Ok(v)
        }
    }

    /// The blocks: `block Block { ... }`, as many as follow.
    #[verifier::rlimit(30)]
    pub fn parse_blocks(&mut self) -> (r: Result<Vec<Block>, ParseError>)
        requires
            old(self).wf(),
        ensures
            final(self).moved_from(old(self)),
            (res_blocks(r), final(self).cursor()) == blocks_result(old(self).source(), old(self).toks(), old(self).cursor()),
    {
        let ghost cs = self.source();
        let ghost toks = self.toks();
        let ghost all = blocks_result(cs, toks, self.cursor());
        let mut blocks: Vec<Block> = Vec::new();
        loop
            invariant_except_break
                prepend(blocks_view(blocks@), blocks_result(cs, toks, self.cursor())) == all,
            invariant
                self.moved_from(old(self)),
                cs == self.source(),
                toks == self.toks(),
                all == blocks_result(cs, toks, old(self).cursor()),
            ensures
                self.moved_from(old(self)),
                (Ok::<Seq<BlockV>, ParseErrorV>(blocks_view(blocks@)), self.cursor()) == all,
            decreases toks.len() - self.cursor(),
        {
            let ghost acc = blocks_view(blocks@);
            if !self.try_consume(TokenKind::KwBlock) {
                proof {
                    assert(acc + seq![] =~= acc);
                }
                break;
            }
            let name = self.parse_parameter(TokenKind::Block)?;
            self.consume(TokenKind::LCurly)?;
            let statements = self.parse_statements()?;
            let goto = self.parse_goto()?;
            self.consume(TokenKind::RCurly)?;
            let b = Block { name, statements, goto };
            blocks.push(b);
            proof {
                assert(blocks_view(blocks@) =~= acc.push(b@));
                let rest = blocks_result(cs, toks, self.cursor());
                match rest.0 {
                    Ok(items) => {
                        assert(acc + (seq![b@] + items) =~= acc.push(b@) + items);
                    },
                    Err(_) => {},
                }
            }
        }
        Ok(blocks)
    }

    /// A whole program (see [`input_result`]).
    pub fn parse_input(&mut self) -> (r: Result<Input, ParseError>)
        requires
            old(self).wf(),
        ensures
            final(self).moved_from(old(self)),
            (res_input(r), final(self).cursor()) == input_result(old(self).source(), old(self).toks(), old(self).cursor()),
    {
        let placeholders = self.parse_placeholders()?;
        let known_subsets = match self.parse_known_subsets() {
            Ok(v) => v,
            Err(_) => Vec::new(),
        };
        let use_of_var_derefs_origin = match self.parse_use_of_var_derefs_origin() {
            Ok(v) => v,
            Err(_) => Vec::new(),
        };
        let drop_of_var_derefs_origin = match self.parse_drop_of_var_derefs_origin() {
            Ok(v) => v,
            Err(_) => Vec::new(),
        };
        let child_path = match self.parse_child_path() {
            Ok(v) => v,
            Err(_) => Vec::new(),
        };
        let path_is_var = match self.parse_path_is_var() {
            Ok(v) => v,
            Err(_) => Vec::new(),
        };
        let blocks = self.parse_blocks()?;
        let r = Input::new(
            placeholders,
            Some(known_subsets),
            Some(use_of_var_derefs_origin),
            Some(drop_of_var_derefs_origin),
            Some(child_path),
            Some(path_is_var),
            blocks,
        );
        proof {
            assert(known_subsets_view(Seq::<KnownSubset>::empty()) =~= seq![]);
            assert(pairs_view(Seq::<(String, String)>::empty()) =~= seq![]);
        }
        Ok(r)
    }
}


/// Every token read from index `i` starts and ends on character boundaries.
pub(crate) proof fn lemma_spans_ok_from(cs: Seq<char>, i: int)
    requires
        0 <= i <= cs.len(),
        byte_len(cs) <= u32::MAX,
    ensures
        forall|k: int| 0 <= k < lex_from(cs, i).len() ==> #[trigger] span_ok(cs, lex_from(cs, i)[k].span),
    decreases cs.len() - i,
{
    if i < cs.len() {
        lemma_lex_from_unfold(cs, i);
        lemma_step_len(cs, i);
        let n = lex_step(cs, i).1;
        lemma_spans_ok_from(cs, i + n);
        lemma_byte_offset_mono(cs, 0, i);
        lemma_byte_offset_mono(cs, i, i + n);
        lemma_byte_offset_mono(cs, i + n, cs.len() as int);
        let t = token_at(cs, i);
        assert(is_boundary(cs, t.span.start as int)) by {
            assert(byte_offset(cs, i) == t.span.start);
        }
        assert(is_boundary(cs, t.span.end as int)) by {
            assert(byte_offset(cs, i + n) == t.span.end);
        }
        let rest = lex_from(cs, i + n);
        assert forall|k: int| 0 <= k < lex_from(cs, i).len() implies #[trigger] span_ok(
            cs,
            lex_from(cs, i)[k].span,
        ) by {
            if k > 0 {
                assert(lex_from(cs, i)[k] == rest[k - 1]);
            }
        }
    } else {
        lemma_byte_offset_mono(cs, 0, cs.len() as int);
        assert(is_boundary(cs, byte_len(cs)));
        assert(lex_from(cs, i)[0] == eof_token(cs));
    }
}

/// Dropping whitespace and comments keeps only tokens of the list.
proof fn lemma_significant_subset(toks: Seq<Token>)
    ensures
        forall|k: int| 0 <= k < significant(toks).len() ==> toks.contains(#[trigger] significant(toks)[k]),
    decreases toks.len(),
{
    if toks.len() > 0 {
        let init = toks.drop_last();
        lemma_significant_subset(init);
        assert forall|k: int| 0 <= k < significant(toks).len() implies toks.contains(
            #[trigger] significant(toks)[k],
        ) by {
            if k < significant(init).len() {
                assert(significant(toks)[k] == significant(init)[k]);
                let j = choose|j: int| 0 <= j < init.len() && init[j] == significant(init)[k];
                assert(toks[j] == init[j]);
            } else {
                assert(significant(toks)[k] == toks.last());
                assert(toks[toks.len() - 1] == toks.last());
            }
        }
    }
}

/// The tokens of `toks` that are neither whitespace nor comments.
fn drop_trivia(toks: Vec<Token>) -> (r: Vec<Token>)
    ensures
        r@ == significant(toks@),
{
    let mut out: Vec<Token> = Vec::new();
    let mut k: usize = 0;
    while k < toks.len()
        invariant
            k <= toks.len(),
            out@ == significant(toks@.take(k as int)),
        decreases toks.len() - k,
    {
        let t = toks[k];
        proof {
            assert(toks@.take(k as int + 1).drop_last() =~= toks@.take(k as int));
            assert(toks@.take(k as int + 1).last() == t);
        }
        if !(t.kind == TokenKind::Whitespace || t.kind == TokenKind::Comment) {
            out.push(t);
        }
        k = k + 1;
    }
    proof {
        assert(toks@.take(toks@.len() as int) =~= toks@);
    }
    out
}

/// Parses a whole program: its tokens, whitespace and comments left out, read by
/// [`Parser::parse_input`] from the first one on.
pub fn parse_input(input: &str) -> (r: Result<Input, ParseError>)
    requires
        lexable(input@),
    ensures
        res_input(r) == input_result(input@, significant(lex(input@)), 0).0,
{
    let tokens = tokenize(input);
    let kept = drop_trivia(tokens);
    let mut parser = Parser::new(input, kept);
    proof {
        let cs = input@;
        lemma_spans_ok_from(cs, 0);
        lemma_significant_subset(lex(cs));
        assert forall|i: int| 0 <= i < parser.toks().len() implies #[trigger] span_ok(
            parser.source(),
            parser.toks()[i].span,
        ) by {
            let t = significant(lex(cs))[i];
            assert(lex(cs).contains(t));
            let j = choose|j: int| 0 <= j < lex(cs).len() && lex(cs)[j] == t;
            assert(span_ok(cs, lex(cs)[j].span));
        }
    }
    parser.parse_input()
}


/// Tokens of kind `kind` at every other place from `q` on, `m` of them, with tokens of kind
/// `delim` between them and none after the last, are read as their texts, in order.
proof fn lemma_delimited_run(cs: Seq<char>, toks: Seq<Token>, q: int, m: int, kind: TokenKind, delim: TokenKind)
    requires
        0 <= q,
        m >= 1,
        q + 2 * m - 1 < toks.len(),
        forall|i: int| 0 <= i < m ==> (#[trigger] toks[q + 2 * i]).kind == kind,
        forall|i: int| 0 <= i < m - 1 ==> (#[trigger] toks[q + 2 * i + 1]).kind == delim,
        toks[q + 2 * m - 1].kind != delim,
    ensures
        delimited_items(cs, toks, q, kind, delim).0 == Seq::new(m as nat, |i: int| text_at(cs, toks, q + 2 * i)),
        delimited_items(cs, toks, q, kind, delim).1 == q + 2 * m - 1,
    decreases m,
{
    assert(toks[q + 2 * 0].kind == kind);
    if m == 1 {
        assert(delimited_items(cs, toks, q, kind, delim).0 =~= Seq::new(m as nat, |i: int| text_at(cs, toks, q + 2 * i)));
    } else {
        assert(toks[q + 2 * 0 + 1].kind == delim);
        assert forall|i: int| 0 <= i < m - 1 implies (#[trigger] toks[(q + 2) + 2 * i]).kind == kind by {
            assert(toks[q + 2 * (i + 1)].kind == kind);
            assert(q + 2 * (i + 1) == (q + 2) + 2 * i);
        }
        assert forall|i: int| 0 <= i < m - 2 implies (#[trigger] toks[(q + 2) + 2 * i + 1]).kind == delim by {
            assert(toks[q + 2 * (i + 1) + 1].kind == delim);
            assert(q + 2 * (i + 1) + 1 == (q + 2) + 2 * i + 1);
        }
        lemma_delimited_run(cs, toks, q + 2, m - 1, kind, delim);
        assert(delimited_items(cs, toks, q, kind, delim).0 =~= Seq::new(m as nat, |i: int| text_at(cs, toks, q + 2 * i)));
    }
}

/// `goto X1, ..., Xn;`: the jumps are the texts of the `n` block tokens, in order, and the
/// parser moves past the `;`.
pub proof fn lemma_goto_lists_each_block(cs: Seq<char>, toks: Seq<Token>, pos: int, n: int)
    requires
        0 <= pos,
        n >= 1,
        pos + 2 * n < toks.len(),
        toks[pos].kind == TokenKind::KwGoto,
        forall|i: int| 0 <= i < n ==> (#[trigger] toks[pos + 1 + 2 * i]).kind == TokenKind::Block,
        forall|i: int| 0 <= i < n - 1 ==> (#[trigger] toks[pos + 2 + 2 * i]).kind == TokenKind::Comma,
        toks[pos + 2 * n].kind == TokenKind::Semi,
    ensures
        goto_result(cs, toks, pos).0 is Ok,
        goto_result(cs, toks, pos).0->Ok_0.len() == n,
        forall|i: int| 0 <= i < n ==> #[trigger] goto_result(cs, toks, pos).0->Ok_0[i] == text_at(cs, toks, pos + 1 + 2 * i),
        goto_result(cs, toks, pos).1 == pos + 2 * n + 1,
{
    let q = pos + 1;
    assert forall|i: int| 0 <= i < n implies (#[trigger] toks[q + 2 * i]).kind == TokenKind::Block by {
        assert(toks[pos + 1 + 2 * i].kind == TokenKind::Block);
    }
    assert forall|i: int| 0 <= i < n - 1 implies (#[trigger] toks[q + 2 * i + 1]).kind == TokenKind::Comma by {
        assert(toks[pos + 2 + 2 * i].kind == TokenKind::Comma);
        assert(q + 2 * i + 1 == pos + 2 + 2 * i);
    }
    assert(q + 2 * n - 1 == pos + 2 * n);
    lemma_delimited_run(cs, toks, q, n, TokenKind::Block, TokenKind::Comma);
    assert(advance(toks, pos) == q);
}

} // verus!
