//! The lexer: splits a format description into brackets, free text and the
//! whitespace / non-whitespace parts of bracketed components.
use vstd::prelude::*;
use crate::span::{tiles, lemma_tiles_append, Location, Span};

verus! {

#[derive(Clone, Copy, Debug, PartialEq, Eq, Structural)]
pub enum BracketKind {
    Opening,
    Closing,
}

#[derive(Clone, Copy, Debug, PartialEq, Eq, Structural)]
pub enum ComponentKind {
    Whitespace,
    NotWhitespace,
}

/// One token of a format description.
#[derive(Clone, Copy, Debug, PartialEq, Eq, Structural)]
#[allow(inconsistent_fields)]
pub enum Token {
    /// Free text outside any bracket.
    Literal(Span),
    /// A single bracket.
    Bracket { kind: BracketKind, location: Location },
    /// A run of whitespace or of non-whitespace inside brackets.
    ComponentPart { kind: ComponentKind, value: Span },
}

pub open spec fn token_span(t: Token) -> Span {
    match t {
        Token::Literal(s) => s,
        Token::Bracket { location, .. } => location.spec_unit(),
        Token::ComponentPart { value, .. } => value,
    }
}

pub open spec fn token_spans(ts: Seq<Token>) -> Seq<Span> {
    ts.map_values(|t: Token| token_span(t))
}

pub open spec fn is_ws(b: u8) -> bool {
    b == 32 || b == 9 || b == 10 || b == 12 || b == 13
}

/// Bytes that continue a run that started at a byte of the given sort.
pub open spec fn continues(b: u8, depth_zero: bool, ws: bool) -> bool {
    if depth_zero {
        b != 91
    } else {
        b != 91 && b != 93 && is_ws(b) == ws
    }
}

/// How many bytes from `pos` on continue such a run.
pub open spec fn continue_len(s: Seq<u8>, pos: int, depth_zero: bool, ws: bool) -> nat
    decreases s.len() - pos,
{
    if 0 <= pos < s.len() && continues(s[pos], depth_zero, ws) {
        1 + continue_len(s, pos + 1, depth_zero, ws)
    } else {
        0
    }
}

pub open spec fn loc(pos: int) -> Location {
    Location { byte: pos as usize }
}

pub open spec fn span_of(a: int, b: int) -> Span {
    Span { start: loc(a), end: loc(b) }
}

/// The tokens of `s` from `pos` on, at bracket depth `depth`.
///
/// `[[` is an escaped bracket: two opening brackets that leave the depth as
/// it is. A lone `[` opens a component; `]` closes one when one is open, and
/// is free text otherwise. Free text runs up to the next `[`; inside brackets
/// text is split into runs of whitespace and of non-whitespace.
pub open spec fn lex_from(s: Seq<u8>, pos: int, depth: nat) -> Seq<Token>
    decreases s.len() - pos,
    via lex_from_decreases
{
    if pos < 0 || pos >= s.len() {
        Seq::empty()
    } else if s[pos] == 91 {
        if pos + 1 < s.len() && s[pos + 1] == 91 {
            seq![
                Token::Bracket { kind: BracketKind::Opening, location: loc(pos) },
                Token::Bracket { kind: BracketKind::Opening, location: loc(pos + 1) },
            ] + lex_from(s, pos + 2, depth)
        } else {
            seq![Token::Bracket { kind: BracketKind::Opening, location: loc(pos) }]
                + lex_from(s, pos + 1, depth + 1)
        }
    } else if s[pos] == 93 && depth > 0 {
        seq![Token::Bracket { kind: BracketKind::Closing, location: loc(pos) }]
            + lex_from(s, pos + 1, (depth - 1) as nat)
    } else if depth == 0 {
        let end = pos + 1 + continue_len(s, pos + 1, true, false);
        seq![Token::Literal(span_of(pos, end))] + lex_from(s, end, depth)
    } else {
        let ws = is_ws(s[pos]);
        let end = pos + 1 + continue_len(s, pos + 1, false, ws);
        let kind = if ws { ComponentKind::Whitespace } else { ComponentKind::NotWhitespace };
        seq![Token::ComponentPart { kind, value: span_of(pos, end) }] + lex_from(s, end, depth)
    }
}

#[via_fn]
proof fn lex_from_decreases(s: Seq<u8>, pos: int, depth: nat) {
    if 0 <= pos < s.len() {
        lemma_continue_len_bound(s, pos + 1, true, false);
        lemma_continue_len_bound(s, pos + 1, false, is_ws(s[pos]));
    }
}

pub open spec fn spec_lex(s: Seq<u8>) -> Seq<Token> {
    lex_from(s, 0, 0)
}

fn is_ascii_ws(b: u8) -> (r: bool)
    ensures
        r == is_ws(b),
{
    b == 32 || b == 9 || b == 10 || b == 12 || b == 13
}

proof fn lemma_continue_len_bound(s: Seq<u8>, pos: int, depth_zero: bool, ws: bool)
    requires
        0 <= pos <= s.len(),
    ensures
        pos + continue_len(s, pos, depth_zero, ws) <= s.len(),
    decreases s.len() - pos,
{
    if pos < s.len() && continues(s[pos], depth_zero, ws) {
        lemma_continue_len_bound(s, pos + 1, depth_zero, ws);
    }
}

/// Find the end of the run that continues from `pos`.
fn run_end(input: &[u8], pos: usize, depth_zero: bool, ws: bool) -> (r: usize)
    requires
        pos <= input@.len(),
    ensures
        r == pos + continue_len(input@, pos as int, depth_zero, ws),
        r <= input@.len(),
{
    let mut i: usize = pos;
    proof {
        lemma_continue_len_bound(input@, pos as int, depth_zero, ws);
    }
    while i < input.len()
        invariant
            pos <= i <= input@.len(),
            continue_len(input@, pos as int, depth_zero, ws) == (i - pos) + continue_len(input@, i as int, depth_zero, ws),
        decreases input@.len() - i,
    {
        let b = input[i];
        let more: bool = if depth_zero {
            b != 91
        } else {
            b != 91 && b != 93 && is_ascii_ws(b) == ws
        };
        if !more {
            return i;
        }
        i = i + 1;
    }
    i
}

/// Split a format description into tokens. Every byte belongs to exactly one
/// token, and the tokens come in the order of the text.
pub fn lex(input: &[u8]) -> (r: Vec<Token>)
    requires
        input@.len() < usize::MAX,
    ensures
        r@ == spec_lex(input@),
        tiles(token_spans(r@), 0, input@.len() as int),
{
    let mut tokens: Vec<Token> = Vec::new();
    let mut pos: usize = 0;
    let mut depth: usize = 0;
    let len = input.len();
    while pos < len
        invariant
            len == input@.len(),
            len < usize::MAX,
            pos <= len,
            depth <= pos,
            spec_lex(input@) == tokens@ + lex_from(input@, pos as int, depth as nat),
        decreases len - pos,
    {
        let b = input[pos];
        if b == 91 {
            if pos + 1 < len && input[pos + 1] == 91 {
                let ghost rest = lex_from(input@, pos + 2, depth as nat);
                tokens.push(Token::Bracket { kind: BracketKind::Opening, location: Location { byte: pos } });
                tokens.push(Token::Bracket { kind: BracketKind::Opening, location: Location { byte: pos + 1 } });
                assert(spec_lex(input@) =~= tokens@ + rest);
                pos = pos + 2;
            } else {
                let ghost rest = lex_from(input@, pos + 1, (depth + 1) as nat);
                tokens.push(Token::Bracket { kind: BracketKind::Opening, location: Location { byte: pos } });
                assert(spec_lex(input@) =~= tokens@ + rest);
                pos = pos + 1;
                depth = depth + 1;
            }
        } else if b == 93 && depth > 0 {
            let ghost rest = lex_from(input@, pos + 1, (depth - 1) as nat);
            tokens.push(Token::Bracket { kind: BracketKind::Closing, location: Location { byte: pos } });
            assert(spec_lex(input@) =~= tokens@ + rest);
            pos = pos + 1;
            depth = depth - 1;
        } else if depth == 0 {
            let end = run_end(input, pos + 1, true, false);
            let ghost rest = lex_from(input@, end as int, depth as nat);
            tokens.push(Token::Literal(Span { start: Location { byte: pos }, end: Location { byte: end } }));
            assert(spec_lex(input@) =~= tokens@ + rest);
            pos = end;
        } else {
            let ws = is_ascii_ws(b);
            let end = run_end(input, pos + 1, false, ws);
            let kind = if ws { ComponentKind::Whitespace } else { ComponentKind::NotWhitespace };
            let ghost rest = lex_from(input@, end as int, depth as nat);
            tokens.push(Token::ComponentPart { kind, value: Span { start: Location { byte: pos }, end: Location { byte: end } } });
            assert(spec_lex(input@) =~= tokens@ + rest);
            pos = end;
        }
    }
    assert(tokens@ + lex_from(input@, pos as int, depth as nat) =~= tokens@);
    proof {
        lemma_lex_tiles(input@, 0, 0);
    }
    tokens
}

proof fn lemma_spans_append(a: Seq<Token>, b: Seq<Token>)
    ensures
        token_spans(a + b) =~= token_spans(a) + token_spans(b),
{
}

/// The tokens from `pos` on cover `pos..` to the end of the text.
pub proof fn lemma_lex_tiles(s: Seq<u8>, pos: int, depth: nat)
    requires
        0 <= pos <= s.len(),
        s.len() < usize::MAX,
    ensures
        tiles(token_spans(lex_from(s, pos, depth)), pos, s.len() as int),
    decreases s.len() - pos,
{
    if pos < s.len() {
        let head: Seq<Token>;
        let next: int;
        let nd: nat;
        if s[pos] == 91 {
            if pos + 1 < s.len() && s[pos + 1] == 91 {
                head = seq![
                    Token::Bracket { kind: BracketKind::Opening, location: loc(pos) },
                    Token::Bracket { kind: BracketKind::Opening, location: loc(pos + 1) },
                ];
                next = pos + 2;
                nd = depth;
                assert(token_spans(head).drop_first() =~= seq![loc(pos + 1).spec_unit()]);
                assert(token_spans(head).drop_first().drop_first() =~= Seq::<Span>::empty());
            } else {
                head = seq![Token::Bracket { kind: BracketKind::Opening, location: loc(pos) }];
                next = pos + 1;
                nd = depth + 1;
            }
        } else if s[pos] == 93 && depth > 0 {
            head = seq![Token::Bracket { kind: BracketKind::Closing, location: loc(pos) }];
            next = pos + 1;
            nd = (depth - 1) as nat;
        } else if depth == 0 {
            lemma_continue_len_bound(s, pos + 1, true, false);
            next = pos + 1 + continue_len(s, pos + 1, true, false);
            head = seq![Token::Literal(span_of(pos, next))];
            nd = depth;
        } else {
            let ws = is_ws(s[pos]);
            lemma_continue_len_bound(s, pos + 1, false, ws);
            next = pos + 1 + continue_len(s, pos + 1, false, ws);
            let kind = if ws { ComponentKind::Whitespace } else { ComponentKind::NotWhitespace };
            head = seq![Token::ComponentPart { kind, value: span_of(pos, next) }];
            nd = depth;
        }
        reveal_with_fuel(tiles, 3);
        assert(lex_from(s, pos, depth) == head + lex_from(s, next, nd));
        lemma_lex_tiles(s, next, nd);
        lemma_spans_append(head, lex_from(s, next, nd));
        assert(tiles(token_spans(head), pos, next));
        lemma_tiles_append(token_spans(head), token_spans(lex_from(s, next, nd)), pos, next, s.len() as int);
    }
}

} // verus!
