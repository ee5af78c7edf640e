//! The AST builder: turns the lexer's tokens into a tree of items, or the
//! first grammar violation found.
use vstd::prelude::*;
use crate::span::{Location, Span};
use crate::lexer::{lex, lemma_lex_tiles, spec_lex, token_span, token_spans, BracketKind, ComponentKind, Token};
use crate::span::{lemma_tiles_append, tiles};

verus! {

broadcast use vstd::std_specs::vec::group_vec_axioms, vstd::seq::group_seq_axioms;

/// What a missing token was expected to be.
#[derive(Clone, Copy, Debug, PartialEq, Eq, Structural)]
pub enum ExpectedWhat {
    /// Whitespace after the `optional` keyword.
    WhitespaceAfterOptional,
    /// The opening bracket of a nested format description.
    OpeningBracket,
}

/// The kinds of error a format description can have, each with the byte
/// index it refers to.
#[derive(Clone, Copy, Debug, PartialEq, Eq, Structural)]
pub enum InvalidFormatDescription {
    /// A bracket was opened and never closed.
    UnclosedOpeningBracket { index: usize },
    /// A modifier is not of the form `key:value`. `value` is the range of
    /// the offending text, empty where the key or the value is missing.
    InvalidModifier { value: Span, index: usize },
    /// A component has no name.
    MissingComponentName { index: usize },
    /// A required token is missing.
    Expected { what: ExpectedWhat, index: usize },
}

/// An error, with the range of source text to highlight.
#[derive(Clone, Copy, Debug, PartialEq, Eq, Structural)]
pub struct Error {
    pub span: Span,
    pub public: InvalidFormatDescription,
}

/// A `key:value` modifier of a component.
#[derive(Clone, Copy, Debug, PartialEq, Eq, Structural)]
pub struct Modifier {
    /// Whitespace before the modifier.
    pub leading_whitespace: Span,
    pub key: Span,
    pub colon: Location,
    pub value: Span,
}

/// The bracketed body of an `optional` group.
#[derive(Debug)]
pub struct NestedFormatDescription {
    pub opening_bracket: Location,
    pub items: Vec<Item>,
    pub closing_bracket: Location,
    /// Whitespace right after the closing bracket.
    pub trailing_whitespace: Option<Span>,
}

/// One part of a format description.
#[derive(Debug)]
pub enum Item {
    /// Text taken as it is.
    Literal(Span),
    /// `[[`, standing for one literal bracket.
    EscapedBracket { first: Location, second: Location },
    /// A named component with its modifiers.
    Component {
        opening_bracket: Location,
        leading_whitespace: Option<Span>,
        name: Span,
        modifiers: Vec<Modifier>,
        trailing_whitespace: Option<Span>,
        closing_bracket: Location,
    },
    /// An optional sequence of items.
    Optional {
        opening_bracket: Location,
        leading_whitespace: Option<Span>,
        optional_kw: Span,
        whitespace: Span,
        nested_format_description: NestedFormatDescription,
        closing_bracket: Location,
    },
}

/// The mathematical value of a `NestedFormatDescription`.
pub struct NestedView {
    pub opening_bracket: Location,
    pub items: Seq<ItemView>,
    pub closing_bracket: Location,
    pub trailing_whitespace: Option<Span>,
}

/// The mathematical value of an `Item`.
pub enum ItemView {
    Literal(Span),
    EscapedBracket { first: Location, second: Location },
    Component {
        opening_bracket: Location,
        leading_whitespace: Option<Span>,
        name: Span,
        modifiers: Seq<Modifier>,
        trailing_whitespace: Option<Span>,
        closing_bracket: Location,
    },
    Optional {
        opening_bracket: Location,
        leading_whitespace: Option<Span>,
        optional_kw: Span,
        whitespace: Span,
        nested: NestedView,
        closing_bracket: Location,
    },
}

pub open spec fn item_view(it: Item) -> ItemView
    decreases it,
{
    match it {
        Item::Literal(s) => ItemView::Literal(s),
        Item::EscapedBracket { first, second } => ItemView::EscapedBracket { first, second },
        Item::Component { opening_bracket, leading_whitespace, name, modifiers, trailing_whitespace, closing_bracket } =>
            ItemView::Component {
                opening_bracket,
                leading_whitespace,
                name,
                modifiers: modifiers@,
                trailing_whitespace,
                closing_bracket,
            },
        Item::Optional { opening_bracket, leading_whitespace, optional_kw, whitespace, nested_format_description, closing_bracket } =>
            ItemView::Optional {
                opening_bracket,
                leading_whitespace,
                optional_kw,
                whitespace,
                nested: NestedView {
                    opening_bracket: nested_format_description.opening_bracket,
                    items: items_view(nested_format_description.items@),
                    closing_bracket: nested_format_description.closing_bracket,
                    trailing_whitespace: nested_format_description.trailing_whitespace,
                },
                closing_bracket,
            },
    }
}

pub open spec fn items_view(s: Seq<Item>) -> Seq<ItemView>
    decreases s,
{
    if s.len() == 0 {
        Seq::empty()
    } else {
        items_view(s.drop_last()).push(item_view(s.last()))
    }
}

pub open spec fn sloc(pos: int) -> Location {
    Location { byte: pos as usize }
}

pub open spec fn sspan(a: int, b: int) -> Span {
    Span { start: sloc(a), end: sloc(b) }
}

pub open spec fn is_part(ts: Seq<Token>, i: int, k: ComponentKind) -> bool {
    0 <= i < ts.len() && (ts[i] matches Token::ComponentPart { kind, .. } && kind == k)
}

pub open spec fn is_ws_part(ts: Seq<Token>, i: int) -> bool {
    is_part(ts, i, ComponentKind::Whitespace)
}

pub open spec fn is_name_part(ts: Seq<Token>, i: int) -> bool {
    is_part(ts, i, ComponentKind::NotWhitespace)
}

pub open spec fn is_bracket(ts: Seq<Token>, i: int, k: BracketKind) -> bool {
    0 <= i < ts.len() && (ts[i] matches Token::Bracket { kind, .. } && kind == k)
}


pub open spec fn bracket_loc(t: Token) -> Location {
    match t {
        Token::Bracket { location, .. } => location,
        Token::Literal(value) => value.start,
        Token::ComponentPart { value, .. } => value.start,
    }
}

/// The source bytes of `sp`.
pub open spec fn text(inp: Seq<u8>, sp: Span) -> Seq<u8> {
    inp.subrange(sp.start.byte as int, sp.end.byte as int)
}

/// The keyword that opens an optional group.
pub open spec fn optional_kw() -> Seq<u8> {
    seq![111u8, 112, 116, 105, 111, 110, 97, 108]
}

/// The first colon at or after `k` and before `end`, or `end` if none.
pub open spec fn colon_from(inp: Seq<u8>, k: int, end: int) -> int
    decreases end - k,
{
    if k >= end {
        end
    } else if inp[k] == 58 {
        k
    } else {
        colon_from(inp, k + 1, end)
    }
}

pub open spec fn unclosed(ob: Location) -> Error {
    Error {
        span: ob.spec_unit(),
        public: InvalidFormatDescription::UnclosedOpeningBracket { index: ob.byte },
    }
}

pub open spec fn invalid_modifier(value: Span) -> Error {
    Error { span: value, public: InvalidFormatDescription::InvalidModifier { value, index: value.start.byte } }
}

/// The modifiers that follow a component's name from token `pos` on: the
/// modifiers, the whitespace left over before the closing bracket, and the
/// token position after them.
pub open spec fn spec_modifiers(inp: Seq<u8>, ts: Seq<Token>, pos: int) -> Result<(Seq<Modifier>, Option<Span>, int), Error>
    decreases ts.len() - pos,
{
    if !is_ws_part(ts, pos) {
        Ok((Seq::empty(), None, pos))
    } else {
        let ws = token_span(ts[pos]);
        if is_bracket(ts, pos + 1, BracketKind::Opening) {
            Err(invalid_modifier(bracket_loc(ts[pos + 1]).spec_unit()))
        } else if is_name_part(ts, pos + 1) {
            let sp = token_span(ts[pos + 1]);
            let (a, b) = (sp.start.byte as int, sp.end.byte as int);
            let c = colon_from(inp, a, b);
            if c == b || colon_from(inp, c + 1, b) < b {
                Err(invalid_modifier(sp))
            } else if c == a {
                Err(invalid_modifier(sspan(a, a)))
            } else if c + 1 == b {
                Err(invalid_modifier(sspan(b, b)))
            } else {
                let m = Modifier { leading_whitespace: ws, key: sspan(a, c), colon: sloc(c), value: sspan(c + 1, b) };
                match spec_modifiers(inp, ts, pos + 2) {
                    Ok((ms, tw, p)) => Ok((seq![m] + ms, tw, p)),
                    Err(e) => Err(e),
                }
            }
        } else {
            Ok((Seq::empty(), Some(ws), pos + 1))
        }
    }
}

/// The items from token `pos` on, up to the end of the tokens or, when
/// `nested`, up to the first closing bracket left over; with the token
/// position after them.
pub open spec fn spec_items(inp: Seq<u8>, ts: Seq<Token>, pos: int, nested: bool) -> Result<(Seq<ItemView>, int), Error>
    decreases ts.len() - pos, 2int,
{
    if pos < 0 || pos >= ts.len() || (nested && is_bracket(ts, pos, BracketKind::Closing)) {
        Ok((Seq::empty(), pos))
    } else {
        match spec_item(inp, ts, pos) {
            Err(e) => Err(e),
            Ok((it, p1)) => if pos < p1 <= ts.len() {
                match spec_items(inp, ts, p1, nested) {
                    Ok((rest, p2)) => Ok((seq![it] + rest, p2)),
                    Err(e) => Err(e),
                }
            } else {
                Ok((seq![it], p1))
            },
        }
    }
}

/// The item that starts at token `pos`. Free text, and whitespace or other
/// component parts outside a component, become literals; so does a stray
/// closing bracket.
///
/// Some of these tokens cannot come where the grammar would place them: a
/// free-text token inside a nested group (the lexer emits one on
/// `[optional [[x]]`, where the escape leaves the depth unchanged), or a
/// closing bracket or component part at the top level. Rather than abort on
/// such a broken invariant, the parser keeps the token's text as a literal,
/// so that parsing never fails that way and no byte of the input is lost.
pub open spec fn spec_item(inp: Seq<u8>, ts: Seq<Token>, pos: int) -> Result<(ItemView, int), Error>
    decreases ts.len() - pos, 1int,
{
    if pos < 0 || pos >= ts.len() {
        Ok((ItemView::Literal(sspan(0, 0)), pos))
    } else {
        match ts[pos] {
            Token::Bracket { kind: BracketKind::Opening, location } =>
                if is_bracket(ts, pos + 1, BracketKind::Opening) {
                    Ok((ItemView::EscapedBracket { first: location, second: bracket_loc(ts[pos + 1]) }, pos + 2))
                } else {
                    spec_component(inp, ts, location, pos + 1)
                },
            t => Ok((ItemView::Literal(token_span(t)), pos + 1)),
        }
    }
}

/// The component whose opening bracket `ob` has been consumed, from token
/// `pos` on.
pub open spec fn spec_component(inp: Seq<u8>, ts: Seq<Token>, ob: Location, pos: int) -> Result<(ItemView, int), Error>
    decreases ts.len() - pos, 0int,
{
    let lead = if is_ws_part(ts, pos) { Some(token_span(ts[pos])) } else { None };
    let p0 = if is_ws_part(ts, pos) { pos + 1 } else { pos };
    if !is_name_part(ts, p0) {
        let sp = match lead {
            Some(w) => w,
            None => sspan(ob.byte + 1, ob.byte + 1),
        };
        Err(Error { span: sp, public: InvalidFormatDescription::MissingComponentName { index: sp.start.byte } })
    } else {
        let name = token_span(ts[p0]);
        let p1 = p0 + 1;
        if text(inp, name) == optional_kw() {
            if is_ws_part(ts, p1) {
                let ws = token_span(ts[p1]);
                if p1 + 1 > pos {
                    match spec_nested(inp, ts, ws.end, p1 + 1) {
                        Err(e) => Err(e),
                        Ok((nested, p2)) => if is_bracket(ts, p2, BracketKind::Closing) {
                            Ok((ItemView::Optional {
                                opening_bracket: ob,
                                leading_whitespace: lead,
                                optional_kw: name,
                                whitespace: ws,
                                nested,
                                closing_bracket: bracket_loc(ts[p2]),
                            }, p2 + 1))
                        } else {
                            Err(unclosed(ob))
                        },
                    }
                } else {
                    Err(unclosed(ob))
                }
            } else {
                Err(Error {
                    span: name,
                    public: InvalidFormatDescription::Expected {
                        what: ExpectedWhat::WhitespaceAfterOptional,
                        index: name.end.byte,
                    },
                })
            }
        } else {
            match spec_modifiers(inp, ts, p1) {
                Err(e) => Err(e),
                Ok((ms, tw, p2)) => if is_bracket(ts, p2, BracketKind::Closing) {
                    Ok((ItemView::Component {
                        opening_bracket: ob,
                        leading_whitespace: lead,
                        name,
                        modifiers: ms,
                        trailing_whitespace: tw,
                        closing_bracket: bracket_loc(ts[p2]),
                    }, p2 + 1))
                } else {
                    Err(unclosed(ob))
                },
            }
        }
    }
}

/// The nested format description of an optional group, from token `pos`
/// on; `last` is where the previous token ended.
pub open spec fn spec_nested(inp: Seq<u8>, ts: Seq<Token>, last: Location, pos: int) -> Result<(NestedView, int), Error>
    decreases ts.len() - pos, 3int,
{
    if !is_bracket(ts, pos, BracketKind::Opening) {
        Err(Error {
            span: Span { start: last, end: last },
            public: InvalidFormatDescription::Expected { what: ExpectedWhat::OpeningBracket, index: last.byte },
        })
    } else {
        let ob = bracket_loc(ts[pos]);
        match spec_items(inp, ts, pos + 1, true) {
            Err(e) => Err(e),
            Ok((items, p)) => if !is_bracket(ts, p, BracketKind::Closing) {
                Err(unclosed(ob))
            } else {
                let cb = bracket_loc(ts[p]);
                if is_ws_part(ts, p + 1) {
                    Ok((NestedView { opening_bracket: ob, items, closing_bracket: cb, trailing_whitespace: Some(token_span(ts[p + 1])) }, p + 2))
                } else {
                    Ok((NestedView { opening_bracket: ob, items, closing_bracket: cb, trailing_whitespace: None }, p + 1))
                }
            },
        }
    }
}

/// Every token's range runs forwards and lies within the input.
pub open spec fn tokens_ok(inp: Seq<u8>, ts: Seq<Token>) -> bool {
    forall|i: int| 0 <= i < ts.len() ==> token_ok(inp, #[trigger] ts[i])
}

pub open spec fn token_ok(inp: Seq<u8>, t: Token) -> bool {
    match t {
        Token::Bracket { location, .. } => location.byte < inp.len(),
        Token::Literal(s) => s.wf() && s.end.byte <= inp.len(),
        Token::ComponentPart { value, .. } => value.wf() && value.end.byte <= inp.len(),
    }
}

pub open spec fn nested_view(n: NestedFormatDescription) -> NestedView {
    NestedView {
        opening_bracket: n.opening_bracket,
        items: items_view(n.items@),
        closing_bracket: n.closing_bracket,
        trailing_whitespace: n.trailing_whitespace,
    }
}

pub open spec fn item_res(r: Result<(Item, usize), Error>) -> Result<(ItemView, int), Error> {
    match r {
        Ok((it, p)) => Ok((item_view(it), p as int)),
        Err(e) => Err(e),
    }
}

pub open spec fn items_res(r: Result<(Vec<Item>, usize), Error>) -> Result<(Seq<ItemView>, int), Error> {
    match r {
        Ok((v, p)) => Ok((items_view(v@), p as int)),
        Err(e) => Err(e),
    }
}

pub open spec fn nested_res(r: Result<(NestedFormatDescription, usize), Error>) -> Result<(NestedView, int), Error> {
    match r {
        Ok((n, p)) => Ok((nested_view(n), p as int)),
        Err(e) => Err(e),
    }
}

pub open spec fn mods_res(r: Result<(Vec<Modifier>, Option<Span>, usize), Error>) -> Result<(Seq<Modifier>, Option<Span>, int), Error> {
    match r {
        Ok((v, tw, p)) => Ok((v@, tw, p as int)),
        Err(e) => Err(e),
    }
}

pub open spec fn prepend_mods(acc: Seq<Modifier>, r: Result<(Seq<Modifier>, Option<Span>, int), Error>) -> Result<(Seq<Modifier>, Option<Span>, int), Error> {
    match r {
        Ok((ms, tw, p)) => Ok((acc + ms, tw, p)),
        Err(e) => Err(e),
    }
}

pub open spec fn prepend_items(acc: Seq<ItemView>, r: Result<(Seq<ItemView>, int), Error>) -> Result<(Seq<ItemView>, int), Error> {
    match r {
        Ok((its, p)) => Ok((acc + its, p)),
        Err(e) => Err(e),
    }
}

/// The range of token `i` if it is a component part of kind `k`.
fn peek_part(input: &[u8], tokens: &[Token], i: usize, k: ComponentKind) -> (r: Option<Span>)
    requires
        tokens_ok(input@, tokens@),
    ensures
        r is Some ==> r->Some_0.wf() && r->Some_0.end.byte <= input@.len() && i < tokens@.len(),
        r is Some <==> is_part(tokens@, i as int, k),
        r is Some ==> r->Some_0 == token_span(tokens@[i as int]),
{
    if i < tokens.len() {
        assert(token_ok(input@, tokens@[i as int]));
        match tokens[i] {
            Token::ComponentPart { kind, value } => if kind == k { Some(value) } else { None },
            _ => None,
        }
    } else {
        None
    }
}

/// The location of token `i` if it is a bracket of kind `k`.
fn peek_bracket(input: &[u8], tokens: &[Token], i: usize, k: BracketKind) -> (r: Option<Location>)
    requires
        tokens_ok(input@, tokens@),
    ensures
        r is Some ==> r->Some_0.byte < input@.len() && i < tokens@.len(),
        r is Some <==> is_bracket(tokens@, i as int, k),
        r is Some ==> r->Some_0 == bracket_loc(tokens@[i as int]),
{
    if i < tokens.len() {
        assert(token_ok(input@, tokens@[i as int]));
        match tokens[i] {
            Token::Bracket { kind, location } => if kind == k { Some(location) } else { None },
            _ => None,
        }
    } else {
        None
    }
}

/// The first colon in `a..end`, or `end`.
fn find_colon(input: &[u8], a: usize, end: usize) -> (r: usize)
    requires
        a <= end <= input@.len(),
    ensures
        r == colon_from(input@, a as int, end as int),
        a <= r <= end,
{
    let mut i: usize = a;
    while i < end
        invariant
            a <= i <= end <= input@.len(),
            colon_from(input@, a as int, end as int) == colon_from(input@, i as int, end as int),
        decreases end - i,
    {
        if input[i] == 58 {
            return i;
        }
        i = i + 1;
    }
    i
}

/// Whether the text of `sp` is the `optional` keyword.
fn is_optional_kw(input: &[u8], sp: Span) -> (r: bool)
    requires
        sp.wf(),
        sp.end.byte <= input@.len(),
    ensures
        r == (text(input@, sp) == optional_kw()),
{
    let a = sp.start.byte;
    if sp.end.byte - a != 8 {
        assert(text(input@, sp).len() != optional_kw().len());
        return false;
    }
    let kw: [u8; 8] = [111, 112, 116, 105, 111, 110, 97, 108];
    assert(kw@ =~= optional_kw());
    let mut i: usize = 0;
    while i < 8
        invariant
            a + 8 <= input@.len(),
            a == sp.start.byte,
            sp.end.byte == a + 8,
            kw@ == optional_kw(),
            i <= 8,
            forall|j: int| 0 <= j < i ==> input@[a + j] == kw@[j],
        decreases 8 - i,
    {
        if input[a + i] != kw[i] {
            assert(text(input@, sp)[i as int] == input@[a + i]);
            assert(text(input@, sp)[i as int] != optional_kw()[i as int]);
            return false;
        }
        i = i + 1;
    }
    assert forall|j: int| 0 <= j < 8 implies text(input@, sp)[j] == optional_kw()[j] by {
        assert(text(input@, sp)[j] == input@[a + j]);
    }
    assert(text(input@, sp) =~= optional_kw());
    true
}

/// Parse the `(whitespace, modifier)` pairs after a component's name,
/// starting at token `pos`.
fn parse_modifiers(input: &[u8], tokens: &[Token], pos: usize) -> (r: Result<(Vec<Modifier>, Option<Span>, usize), Error>)
    requires
        tokens_ok(input@, tokens@),
        pos <= tokens@.len(),
    ensures
        mods_res(r) == spec_modifiers(input@, tokens@, pos as int),
        r is Ok ==> pos <= r->Ok_0.2 <= tokens@.len(),
{
    let ntok: usize = tokens.len();
    let ninp: usize = input.len();
    let mut mods: Vec<Modifier> = Vec::new();
    let mut cur: usize = pos;
    loop
        invariant
            tokens_ok(input@, tokens@),
            ntok == tokens@.len(),
            ninp == input@.len(),
            pos <= cur <= tokens@.len(),
            spec_modifiers(input@, tokens@, pos as int) == prepend_mods(mods@, spec_modifiers(input@, tokens@, cur as int)),
        decreases tokens@.len() - cur,
    {
        let ws = match peek_part(input, tokens, cur, ComponentKind::Whitespace) {
            Some(w) => w,
            None => {
                assert(mods@ + Seq::<Modifier>::empty() =~= mods@);
                return Ok((mods, None, cur));
            },
        };
        if let Some(location) = peek_bracket(input, tokens, cur + 1, BracketKind::Opening) {
            return Err(Error {
                span: location.unit(),
                public: InvalidFormatDescription::InvalidModifier { value: location.unit(), index: location.byte },
            });
        }
        match peek_part(input, tokens, cur + 1, ComponentKind::NotWhitespace) {
            Some(sp) => {
                let a = sp.start.byte;
                let b = sp.end.byte;
                let c = find_colon(input, a, b);
                let bad = c == b || find_colon(input, c + 1, b) < b;
                if bad {
                    return Err(Error {
                        span: sp,
                        public: InvalidFormatDescription::InvalidModifier { value: sp, index: a },
                    });
                }
                if c == a {
                    let e = sp.shrink_to_start();
                    return Err(Error { span: e, public: InvalidFormatDescription::InvalidModifier { value: e, index: a } });
                }
                if c + 1 == b {
                    let e = sp.shrink_to_end();
                    return Err(Error { span: e, public: InvalidFormatDescription::InvalidModifier { value: e, index: b } });
                }
                let m = Modifier {
                    leading_whitespace: ws,
                    key: sp.shrink_to_before(c - a),
                    colon: Location { byte: c },
                    value: sp.shrink_to_after(c - a),
                };
                let ghost before = mods@;
                mods.push(m);
                proof {
                    assert(before + seq![m] =~= mods@);
                    match spec_modifiers(input@, tokens@, cur + 2) {
                        Ok((ms, tw, p)) => {
                            assert(before + (seq![m] + ms) =~= mods@ + ms);
                        },
                        Err(e) => {},
                    }
                }
                cur = cur + 2;
            },
            None => {
                assert(mods@ + Seq::<Modifier>::empty() =~= mods@);
                return Ok((mods, Some(ws), cur + 1));
            },
        }
    }
}

/// Parse the tokens into items, from token `pos` on: up to the end of the
/// tokens or, when `nested`, up to the first closing bracket left over.
/// Parsing stops at the first error.
pub fn parse_inner(input: &[u8], tokens: &[Token], pos: usize, nested: bool) -> (r: Result<(Vec<Item>, usize), Error>)
    requires
        tokens_ok(input@, tokens@),
        pos <= tokens@.len(),
    ensures
        items_res(r) == spec_items(input@, tokens@, pos as int, nested),
        r is Ok ==> pos <= r->Ok_0.1 <= tokens@.len(),
    decreases tokens@.len() - pos, 2int,
{
    let ntok: usize = tokens.len();
    let ninp: usize = input.len();
    let mut items: Vec<Item> = Vec::new();
    let mut cur: usize = pos;
    loop
        invariant
            tokens_ok(input@, tokens@),
            ntok == tokens@.len(),
            ninp == input@.len(),
            pos <= cur <= tokens@.len(),
            spec_items(input@, tokens@, pos as int, nested) == prepend_items(items_view(items@), spec_items(input@, tokens@, cur as int, nested)),
        decreases tokens@.len() - cur,
    {
        let at_close = nested && peek_bracket(input, tokens, cur, BracketKind::Closing).is_some();
        if cur >= tokens.len() || at_close {
            assert(items_view(items@) + Seq::<ItemView>::empty() =~= items_view(items@));
            return Ok((items, cur));
        }
        match parse_item(input, tokens, cur) {
            Ok((it, next)) => {
                let ghost before = items_view(items@);
                let ghost old_items = items@;
                let ghost iv = item_view(it);
                items.push(it);
                proof {
                    assert(items@.drop_last() =~= old_items);
                    assert(items_view(items@) == before.push(iv));
                    match spec_items(input@, tokens@, next as int, nested) {
                        Ok((rest, p)) => {
                            assert(before + (seq![iv] + rest) =~= items_view(items@) + rest);
                        },
                        Err(e) => {},
                    }
                }
                cur = next;
            },
            Err(e) => {
                return Err(e);
            },
        }
    }
}

/// Parse the item that starts at token `pos`.
fn parse_item(input: &[u8], tokens: &[Token], pos: usize) -> (r: Result<(Item, usize), Error>)
    requires
        tokens_ok(input@, tokens@),
        pos < tokens@.len(),
    ensures
        item_res(r) == spec_item(input@, tokens@, pos as int),
        r is Ok ==> pos < r->Ok_0.1 <= tokens@.len(),
    decreases tokens@.len() - pos, 1int,
{
    let ntok: usize = tokens.len();
    let ninp: usize = input.len();
    let t = tokens[pos];
    assert(token_ok(input@, tokens@[pos as int]));
    match t {
        Token::Bracket { kind: BracketKind::Opening, location } => {
            match peek_bracket(input, tokens, pos + 1, BracketKind::Opening) {
                Some(second) => Ok((Item::EscapedBracket { first: location, second }, pos + 2)),
                None => parse_component(input, tokens, location, pos + 1),
            }
        },
        Token::Bracket { kind: BracketKind::Closing, location } => Ok((Item::Literal(location.unit()), pos + 1)),
        Token::Literal(value) => Ok((Item::Literal(value), pos + 1)),
        Token::ComponentPart { value, .. } => Ok((Item::Literal(value), pos + 1)),
    }
}

/// Parse a component whose opening bracket, at `opening_bracket`, has been
/// consumed; the component's tokens start at `pos`.
pub fn parse_component(input: &[u8], tokens: &[Token], opening_bracket: Location, pos: usize) -> (r: Result<(Item, usize), Error>)
    requires
        tokens_ok(input@, tokens@),
        pos <= tokens@.len(),
        opening_bracket.byte < input@.len(),
    ensures
        item_res(r) == spec_component(input@, tokens@, opening_bracket, pos as int),
        r is Ok ==> pos < r->Ok_0.1 <= tokens@.len(),
    decreases tokens@.len() - pos, 0int,
{
    let ntok: usize = tokens.len();
    let ninp: usize = input.len();
    let leading_whitespace = peek_part(input, tokens, pos, ComponentKind::Whitespace);
    let p0: usize = if leading_whitespace.is_some() { pos + 1 } else { pos };
    let name = match peek_part(input, tokens, p0, ComponentKind::NotWhitespace) {
        Some(n) => n,
        None => {
            let sp = match leading_whitespace {
                Some(w) => w,
                None => Span { start: Location { byte: opening_bracket.byte + 1 }, end: Location { byte: opening_bracket.byte + 1 } },
            };
            return Err(Error { span: sp, public: InvalidFormatDescription::MissingComponentName { index: sp.start.byte } });
        },
    };
    let p1: usize = p0 + 1;
    if is_optional_kw(input, name) {
        match peek_part(input, tokens, p1, ComponentKind::Whitespace) {
            Some(whitespace) => {
                let nested = match parse_nested(input, tokens, whitespace.end, p1 + 1) {
                    Ok(n) => n,
                    Err(e) => {
                        return Err(e);
                    },
                };
                let (nested_format_description, p2) = nested;
                match peek_bracket(input, tokens, p2, BracketKind::Closing) {
                    Some(closing_bracket) => Ok((Item::Optional {
                        opening_bracket,
                        leading_whitespace,
                        optional_kw: name,
                        whitespace,
                        nested_format_description,
                        closing_bracket,
                    }, p2 + 1)),
                    None => Err(Error {
                        span: opening_bracket.unit(),
                        public: InvalidFormatDescription::UnclosedOpeningBracket { index: opening_bracket.byte },
                    }),
                }
            },
            None => Err(Error {
                span: name,
                public: InvalidFormatDescription::Expected {
                    what: ExpectedWhat::WhitespaceAfterOptional,
                    index: name.end.byte,
                },
            }),
        }
    } else {
        match parse_modifiers(input, tokens, p1) {
            Ok((modifiers, trailing_whitespace, p2)) => match peek_bracket(input, tokens, p2, BracketKind::Closing) {
                Some(closing_bracket) => Ok((Item::Component {
                    opening_bracket,
                    leading_whitespace,
                    name,
                    modifiers,
                    trailing_whitespace,
                    closing_bracket,
                }, p2 + 1)),
                None => Err(Error {
                    span: opening_bracket.unit(),
                    public: InvalidFormatDescription::UnclosedOpeningBracket { index: opening_bracket.byte },
                }),
            },
            Err(e) => Err(e),
        }
    }
}

/// Parse the nested format description of an optional group from token
/// `pos` on; `last_location` is where the previous token ended.
pub fn parse_nested(input: &[u8], tokens: &[Token], last_location: Location, pos: usize) -> (r: Result<(NestedFormatDescription, usize), Error>)
    requires
        tokens_ok(input@, tokens@),
        pos <= tokens@.len(),
    ensures
        nested_res(r) == spec_nested(input@, tokens@, last_location, pos as int),
        r is Ok ==> pos < r->Ok_0.1 <= tokens@.len(),
    decreases tokens@.len() - pos, 3int,
{
    let ntok: usize = tokens.len();
    let ninp: usize = input.len();
    let opening_bracket = match peek_bracket(input, tokens, pos, BracketKind::Opening) {
        Some(l) => l,
        None => {
            return Err(Error {
                span: Span { start: last_location, end: last_location },
                public: InvalidFormatDescription::Expected { what: ExpectedWhat::OpeningBracket, index: last_location.byte },
            });
        },
    };
    let (items, p) = match parse_inner(input, tokens, pos + 1, true) {
        Ok(r) => r,
        Err(e) => {
            return Err(e);
        },
    };
    let closing_bracket = match peek_bracket(input, tokens, p, BracketKind::Closing) {
        Some(l) => l,
        None => {
            return Err(Error {
                span: opening_bracket.unit(),
                public: InvalidFormatDescription::UnclosedOpeningBracket { index: opening_bracket.byte },
            });
        },
    };
    match peek_part(input, tokens, p + 1, ComponentKind::Whitespace) {
        Some(w) => Ok((NestedFormatDescription { opening_bracket, items, closing_bracket, trailing_whitespace: Some(w) }, p + 2)),
        None => Ok((NestedFormatDescription { opening_bracket, items, closing_bracket, trailing_whitespace: None }, p + 1)),
    }
}

/// Parse a whole token sequence into the items of a format description.
pub fn parse(input: &[u8], tokens: &[Token]) -> (r: Result<Vec<Item>, Error>)
    requires
        tokens_ok(input@, tokens@),
    ensures
        match spec_items(input@, tokens@, 0, false) {
            Ok((its, _)) => r is Ok && items_view(r->Ok_0@) == its,
            Err(e) => r == Err::<Vec<Item>, Error>(e),
        },
{
    match parse_inner(input, tokens, 0, false) {
        Ok((items, _)) => Ok(items),
        Err(e) => Err(e),
    }
}

/// What parsing the format description `inp` gives: its items, or the first
/// error.
pub open spec fn spec_parse(inp: Seq<u8>) -> Result<Seq<ItemView>, Error> {
    match spec_items(inp, spec_lex(inp), 0, false) {
        Ok((its, _)) => Ok(its),
        Err(e) => Err(e),
    }
}

/// Every span of a tiling of `a..b` runs forwards and lies within `a..b`.
proof fn lemma_tiles_bounds(spans: Seq<Span>, a: int, b: int, i: int)
    requires
        tiles(spans, a, b),
        0 <= i < spans.len(),
    ensures
        spans[i].wf(),
        a <= spans[i].start.byte,
        spans[i].end.byte <= b,
    decreases spans.len(),
{
    lemma_tiles_order(spans, a, b);
    if i > 0 {
        lemma_tiles_bounds(spans.drop_first(), spans[0].end.byte as int, b, i - 1);
    } else if spans.len() > 1 {
        lemma_tiles_order(spans.drop_first(), spans[0].end.byte as int, b);
    }
}

proof fn lemma_tiles_order(spans: Seq<Span>, a: int, b: int)
    requires
        tiles(spans, a, b),
    ensures
        a <= b,
    decreases spans.len(),
{
    if spans.len() > 0 {
        lemma_tiles_order(spans.drop_first(), spans[0].end.byte as int, b);
    }
}

/// The lexer's tokens lie within the input.
proof fn lemma_lex_tokens_ok(inp: Seq<u8>)
    requires
        inp.len() < usize::MAX,
    ensures
        tokens_ok(inp, spec_lex(inp)),
{
    let ts = spec_lex(inp);
    lemma_lex_tiles(inp, 0, 0);
    assert forall|i: int| 0 <= i < ts.len() implies token_ok(inp, #[trigger] ts[i]) by {
        lemma_tiles_bounds(token_spans(ts), 0, inp.len() as int, i);
        assert(token_spans(ts)[i] == token_span(ts[i]));
    }
}

/// Parse a format description: split it into tokens and build its items.
pub fn parse_format_description(input: &[u8]) -> (r: Result<Vec<Item>, Error>)
    requires
        input@.len() < usize::MAX,
    ensures
        match spec_parse(input@) {
            Ok(its) => r is Ok && items_view(r->Ok_0@) == its,
            Err(e) => r == Err::<Vec<Item>, Error>(e),
        },
{
    let tokens = lex(input);
    proof {
        lemma_lex_tokens_ok(input@);
    }
    parse(input, tokens.as_slice())
}

/// Parsing is a function of the input bytes: the same bytes give the same
/// items, or the same error.
pub proof fn lemma_parse_deterministic(a: Seq<u8>, b: Seq<u8>)
    requires
        a == b,
    ensures
        spec_parse(a) == spec_parse(b),
        spec_lex(a) == spec_lex(b),
{
}

pub open spec fn opt_leaf(o: Option<Span>) -> Seq<Span> {
    match o {
        Some(w) => seq![w],
        None => Seq::empty(),
    }
}

/// The source ranges of modifiers, in order: whitespace, key, colon, value.
pub open spec fn modifier_leaves(ms: Seq<Modifier>) -> Seq<Span>
    decreases ms.len(),
{
    if ms.len() == 0 {
        Seq::empty()
    } else {
        seq![ms[0].leading_whitespace, ms[0].key, ms[0].colon.spec_unit(), ms[0].value] + modifier_leaves(ms.drop_first())
    }
}

/// The source ranges of an item's leaves, in order.
pub open spec fn item_leaves(it: ItemView) -> Seq<Span>
    decreases it,
{
    match it {
        ItemView::Literal(s) => seq![s],
        ItemView::EscapedBracket { first, second } => seq![first.spec_unit(), second.spec_unit()],
        ItemView::Component { opening_bracket, leading_whitespace, name, modifiers, trailing_whitespace, closing_bracket } =>
            seq![opening_bracket.spec_unit()] + opt_leaf(leading_whitespace) + seq![name] + modifier_leaves(modifiers)
                + opt_leaf(trailing_whitespace) + seq![closing_bracket.spec_unit()],
        ItemView::Optional { opening_bracket, leading_whitespace, optional_kw, whitespace, nested, closing_bracket } =>
            seq![opening_bracket.spec_unit()] + opt_leaf(leading_whitespace) + seq![optional_kw] + seq![whitespace]
                + (seq![nested.opening_bracket.spec_unit()] + items_leaves(nested.items)
                + seq![nested.closing_bracket.spec_unit()] + opt_leaf(nested.trailing_whitespace))
                + seq![closing_bracket.spec_unit()],
    }
}

/// The source ranges of the leaves of a sequence of items, in order.
pub open spec fn items_leaves(s: Seq<ItemView>) -> Seq<Span>
    decreases s,
{
    if s.len() == 0 {
        Seq::empty()
    } else {
        item_leaves(s[0]) + items_leaves(s.drop_first())
    }
}

pub open spec fn nested_leaves(n: NestedView) -> Seq<Span> {
    seq![n.opening_bracket.spec_unit()] + items_leaves(n.items) + seq![n.closing_bracket.spec_unit()]
        + opt_leaf(n.trailing_whitespace)
}

/// Where token `i` starts; `l` past the last token.
pub open spec fn tstart(ts: Seq<Token>, i: int, l: int) -> int {
    if 0 <= i < ts.len() {
        token_span(ts[i]).start.byte as int
    } else {
        l
    }
}

/// The tokens lie end to end from 0 to `l`.
pub open spec fn chained(ts: Seq<Token>, l: int) -> bool {
    &&& tstart(ts, 0, l) == 0
    &&& forall|i: int| 0 <= i < ts.len() ==> token_span(#[trigger] ts[i]).wf()
        && token_span(ts[i]).end.byte == tstart(ts, i + 1, l)
}

proof fn lemma_tiles_chain(sp: Seq<Span>, a: int, b: int)
    requires
        tiles(sp, a, b),
    ensures
        sp.len() == 0 ==> a == b,
        sp.len() > 0 ==> sp[0].start.byte == a,
        forall|i: int| 0 <= i < sp.len() ==> (#[trigger] sp[i]).wf()
            && sp[i].end.byte == (if i + 1 < sp.len() { sp[i + 1].start.byte as int } else { b }),
    decreases sp.len(),
{
    if sp.len() > 0 {
        let rest = sp.drop_first();
        lemma_tiles_chain(rest, sp[0].end.byte as int, b);
        assert forall|i: int| 0 <= i < sp.len() implies (#[trigger] sp[i]).wf()
            && sp[i].end.byte == (if i + 1 < sp.len() { sp[i + 1].start.byte as int } else { b }) by {
            if i > 0 {
                assert(sp[i] == rest[i - 1]);
            }
        }
    }
}

proof fn lemma_lex_chained(inp: Seq<u8>)
    requires
        inp.len() < usize::MAX,
    ensures
        chained(spec_lex(inp), inp.len() as int),
{
    let ts = spec_lex(inp);
    lemma_lex_tiles(inp, 0, 0);
    lemma_tiles_chain(token_spans(ts), 0, inp.len() as int);
    assert forall|i: int| 0 <= i < ts.len() implies token_span(#[trigger] ts[i]).wf()
        && token_span(ts[i]).end.byte == tstart(ts, i + 1, inp.len() as int) by {
        assert(token_spans(ts)[i] == token_span(ts[i]));
        if i + 1 < ts.len() {
            assert(token_spans(ts)[i + 1] == token_span(ts[i + 1]));
        }
    }
    if ts.len() > 0 {
        assert(token_spans(ts)[0] == token_span(ts[0]));
    }
}

proof fn lemma_tile_single(x: Span)
    requires
        x.wf(),
    ensures
        tiles(seq![x], x.start.byte as int, x.end.byte as int),
{
    reveal_with_fuel(tiles, 2);
    assert(seq![x].drop_first() =~= Seq::<Span>::empty());
}

proof fn lemma_tile_token(ts: Seq<Token>, l: int, i: int)
    requires
        chained(ts, l),
        0 <= i < ts.len(),
    ensures
        tiles(seq![token_span(ts[i])], tstart(ts, i, l), tstart(ts, i + 1, l)),
{
    lemma_tile_single(token_span(ts[i]));
}

proof fn lemma_tile_empty(a: int)
    ensures
        tiles(Seq::<Span>::empty(), a, a),
{
}

/// The leaves of what `spec_modifiers` yields tile its tokens.
proof fn lemma_modifiers_leaves(inp: Seq<u8>, ts: Seq<Token>, l: int, pos: int)
    requires
        chained(ts, l),
        0 <= pos <= ts.len(),
        spec_modifiers(inp, ts, pos) is Ok,
    ensures
        ({
            let (ms, tw, p) = spec_modifiers(inp, ts, pos)->Ok_0;
            pos <= p <= ts.len() && tiles(modifier_leaves(ms) + opt_leaf(tw), tstart(ts, pos, l), tstart(ts, p, l))
        }),
    decreases ts.len() - pos,
{
    let (ms, tw, p) = spec_modifiers(inp, ts, pos)->Ok_0;
    if !is_ws_part(ts, pos) {
        assert(modifier_leaves(ms) + opt_leaf(tw) =~= Seq::<Span>::empty());
    } else if is_name_part(ts, pos + 1) {
        let ws = token_span(ts[pos]);
        let sp = token_span(ts[pos + 1]);
        let (a, b) = (sp.start.byte as int, sp.end.byte as int);
        let c = colon_from(inp, a, b);
        lemma_colon_from_bounds(inp, a, b);
        let m = Modifier { leading_whitespace: ws, key: sspan(a, c), colon: sloc(c), value: sspan(c + 1, b) };
        lemma_modifiers_leaves(inp, ts, l, pos + 2);
        let (ms2, tw2, p2) = spec_modifiers(inp, ts, pos + 2)->Ok_0;
        assert(ms == seq![m] + ms2);
        assert(ms.drop_first() =~= ms2);
        let head = seq![ws, sspan(a, c), sloc(c).spec_unit(), sspan(c + 1, b)];
        assert(modifier_leaves(ms) == head + modifier_leaves(ms2));
        lemma_tile_token(ts, l, pos);
        lemma_tile_single(sspan(a, c));
        lemma_tile_single(sloc(c).spec_unit());
        lemma_tile_single(sspan(c + 1, b));
        let t1 = seq![ws] + seq![sspan(a, c)];
        lemma_tiles_append(seq![ws], seq![sspan(a, c)], tstart(ts, pos, l), a, c);
        let t2 = t1 + seq![sloc(c).spec_unit()];
        lemma_tiles_append(t1, seq![sloc(c).spec_unit()], tstart(ts, pos, l), c, c + 1);
        lemma_tiles_append(t2, seq![sspan(c + 1, b)], tstart(ts, pos, l), c + 1, b);
        assert(t2 + seq![sspan(c + 1, b)] =~= head);
        lemma_tiles_append(head, modifier_leaves(ms2) + opt_leaf(tw2), tstart(ts, pos, l), b, tstart(ts, p2, l));
        assert(head + (modifier_leaves(ms2) + opt_leaf(tw2)) =~= modifier_leaves(ms) + opt_leaf(tw));
    } else {
        lemma_tile_token(ts, l, pos);
        assert(modifier_leaves(ms) + opt_leaf(tw) =~= seq![token_span(ts[pos])]);
    }
}

proof fn lemma_colon_from_bounds(inp: Seq<u8>, k: int, end: int)
    requires
        k <= end,
    ensures
        k <= colon_from(inp, k, end) <= end,
    decreases end - k,
{
    if k < end && inp[k] != 58 {
        lemma_colon_from_bounds(inp, k + 1, end);
    }
}

/// The leaves of the items that `spec_items` yields tile their tokens.
proof fn lemma_items_leaves(inp: Seq<u8>, ts: Seq<Token>, l: int, pos: int, nested: bool)
    requires
        chained(ts, l),
        0 <= pos <= ts.len(),
        spec_items(inp, ts, pos, nested) is Ok,
    ensures
        ({
            let (its, p) = spec_items(inp, ts, pos, nested)->Ok_0;
            pos <= p <= ts.len() && tiles(items_leaves(its), tstart(ts, pos, l), tstart(ts, p, l))
        }),
    decreases ts.len() - pos, 2int,
{
    let (its, p) = spec_items(inp, ts, pos, nested)->Ok_0;
    if pos >= ts.len() || (nested && is_bracket(ts, pos, BracketKind::Closing)) {
        assert(items_leaves(its) =~= Seq::<Span>::empty());
    } else {
        lemma_item_leaves(inp, ts, l, pos);
        let (it, p1) = spec_item(inp, ts, pos)->Ok_0;
        lemma_items_leaves(inp, ts, l, p1, nested);
        let (rest, p2) = spec_items(inp, ts, p1, nested)->Ok_0;
        assert(its == seq![it] + rest);
        assert(its.drop_first() =~= rest);
        assert(items_leaves(its) == item_leaves(it) + items_leaves(rest));
        lemma_tiles_append(item_leaves(it), items_leaves(rest), tstart(ts, pos, l), tstart(ts, p1, l), tstart(ts, p2, l));
    }
}

/// The leaves of the item that `spec_item` yields tile its tokens.
proof fn lemma_item_leaves(inp: Seq<u8>, ts: Seq<Token>, l: int, pos: int)
    requires
        chained(ts, l),
        0 <= pos < ts.len(),
        spec_item(inp, ts, pos) is Ok,
    ensures
        ({
            let (it, p) = spec_item(inp, ts, pos)->Ok_0;
            pos < p <= ts.len() && tiles(item_leaves(it), tstart(ts, pos, l), tstart(ts, p, l))
        }),
    decreases ts.len() - pos, 1int,
{
    lemma_tile_token(ts, l, pos);
    match ts[pos] {
        Token::Bracket { kind: BracketKind::Opening, location } => {
            if is_bracket(ts, pos + 1, BracketKind::Opening) {
                lemma_tile_token(ts, l, pos + 1);
                lemma_tiles_append(seq![token_span(ts[pos])], seq![token_span(ts[pos + 1])], tstart(ts, pos, l), tstart(ts, pos + 1, l), tstart(ts, pos + 2, l));
                assert(seq![token_span(ts[pos])] + seq![token_span(ts[pos + 1])] =~= item_leaves(spec_item(inp, ts, pos)->Ok_0.0));
            } else {
                lemma_component_leaves(inp, ts, l, location, pos + 1);
            }
        },
        _ => {},
    }
}

/// The leaves of the component that `spec_component` yields tile its tokens,
/// its opening bracket included.
proof fn lemma_component_leaves(inp: Seq<u8>, ts: Seq<Token>, l: int, ob: Location, pos: int)
    requires
        chained(ts, l),
        1 <= pos <= ts.len(),
        ts[pos - 1] == (Token::Bracket { kind: BracketKind::Opening, location: ob }),
        spec_component(inp, ts, ob, pos) is Ok,
    ensures
        ({
            let (it, p) = spec_component(inp, ts, ob, pos)->Ok_0;
            pos < p <= ts.len() && tiles(item_leaves(it), tstart(ts, pos - 1, l), tstart(ts, p, l))
        }),
    decreases ts.len() - pos, 0int,
{
    let (it, p) = spec_component(inp, ts, ob, pos)->Ok_0;
    let lead = if is_ws_part(ts, pos) { Some(token_span(ts[pos])) } else { None };
    let p0 = if is_ws_part(ts, pos) { pos + 1 } else { pos };
    let p1 = p0 + 1;
    let s0 = tstart(ts, pos - 1, l);
    lemma_tile_token(ts, l, pos - 1);
    let t0 = seq![ob.spec_unit()];
    assert(token_span(ts[pos - 1]) == ob.spec_unit());
    // opening bracket and leading whitespace
    if is_ws_part(ts, pos) {
        lemma_tile_token(ts, l, pos);
        lemma_tiles_append(t0, opt_leaf(lead), s0, tstart(ts, pos, l), tstart(ts, p0, l));
    } else {
        assert(t0 + opt_leaf(lead) =~= t0);
    }
    let t1 = t0 + opt_leaf(lead);
    let name = token_span(ts[p0]);
    lemma_tile_token(ts, l, p0);
    lemma_tiles_append(t1, seq![name], s0, tstart(ts, p0, l), tstart(ts, p1, l));
    let t2 = t1 + seq![name];
    if text(inp, name) == optional_kw() {
        let ws = token_span(ts[p1]);
        lemma_tile_token(ts, l, p1);
        lemma_tiles_append(t2, seq![ws], s0, tstart(ts, p1, l), tstart(ts, p1 + 1, l));
        let t3 = t2 + seq![ws];
        lemma_nested_leaves(inp, ts, l, ws.end, p1 + 1);
        let (nested, p2) = spec_nested(inp, ts, ws.end, p1 + 1)->Ok_0;
        lemma_tiles_append(t3, nested_leaves(nested), s0, tstart(ts, p1 + 1, l), tstart(ts, p2, l));
        let t4 = t3 + nested_leaves(nested);
        lemma_tile_token(ts, l, p2);
        lemma_tiles_append(t4, seq![bracket_loc(ts[p2]).spec_unit()], s0, tstart(ts, p2, l), tstart(ts, p2 + 1, l));
        assert(t4 + seq![bracket_loc(ts[p2]).spec_unit()] =~= item_leaves(it));
    } else {
        lemma_modifiers_leaves(inp, ts, l, p1);
        let (ms, tw, p2) = spec_modifiers(inp, ts, p1)->Ok_0;
        lemma_tiles_append(t2, modifier_leaves(ms) + opt_leaf(tw), s0, tstart(ts, p1, l), tstart(ts, p2, l));
        let t3 = t2 + (modifier_leaves(ms) + opt_leaf(tw));
        lemma_tile_token(ts, l, p2);
        lemma_tiles_append(t3, seq![bracket_loc(ts[p2]).spec_unit()], s0, tstart(ts, p2, l), tstart(ts, p2 + 1, l));
        assert(t3 + seq![bracket_loc(ts[p2]).spec_unit()] =~= item_leaves(it));
    }
}

/// The leaves of the nested description that `spec_nested` yields tile its
/// tokens.
proof fn lemma_nested_leaves(inp: Seq<u8>, ts: Seq<Token>, l: int, last: Location, pos: int)
    requires
        chained(ts, l),
        0 <= pos <= ts.len(),
        spec_nested(inp, ts, last, pos) is Ok,
    ensures
        ({
            let (n, p) = spec_nested(inp, ts, last, pos)->Ok_0;
            pos < p <= ts.len() && tiles(nested_leaves(n), tstart(ts, pos, l), tstart(ts, p, l))
        }),
    decreases ts.len() - pos, 3int,
{
    let (n, p) = spec_nested(inp, ts, last, pos)->Ok_0;
    let s0 = tstart(ts, pos, l);
    lemma_tile_token(ts, l, pos);
    lemma_items_leaves(inp, ts, l, pos + 1, true);
    let (items, q) = spec_items(inp, ts, pos + 1, true)->Ok_0;
    let t0 = seq![bracket_loc(ts[pos]).spec_unit()];
    lemma_tiles_append(t0, items_leaves(items), s0, tstart(ts, pos + 1, l), tstart(ts, q, l));
    let t1 = t0 + items_leaves(items);
    lemma_tile_token(ts, l, q);
    lemma_tiles_append(t1, seq![bracket_loc(ts[q]).spec_unit()], s0, tstart(ts, q, l), tstart(ts, q + 1, l));
    let t2 = t1 + seq![bracket_loc(ts[q]).spec_unit()];
    if is_ws_part(ts, q + 1) {
        lemma_tile_token(ts, l, q + 1);
        lemma_tiles_append(t2, opt_leaf(n.trailing_whitespace), s0, tstart(ts, q + 1, l), tstart(ts, q + 2, l));
    } else {
        assert(t2 + opt_leaf(n.trailing_whitespace) =~= t2);
    }
    assert(t2 + opt_leaf(n.trailing_whitespace) =~= nested_leaves(n));
}

/// Round trip: the leaves of a successfully parsed format description, in
/// order, lie end to end and cover the whole input, so concatenating their
/// bytes gives the input back.
pub proof fn lemma_parse_covers_input(inp: Seq<u8>)
    requires
        inp.len() < usize::MAX,
        spec_parse(inp) is Ok,
    ensures
        tiles(items_leaves(spec_parse(inp)->Ok_0), 0, inp.len() as int),
{
    let ts = spec_lex(inp);
    let l = inp.len() as int;
    lemma_lex_chained(inp);
    lemma_items_leaves(inp, ts, l, 0, false);
    lemma_top_items_end(inp, ts, l, 0);
}

/// At the top level the items run to the last token.
proof fn lemma_top_items_end(inp: Seq<u8>, ts: Seq<Token>, l: int, pos: int)
    requires
        chained(ts, l),
        0 <= pos <= ts.len(),
        spec_items(inp, ts, pos, false) is Ok,
    ensures
        spec_items(inp, ts, pos, false)->Ok_0.1 == ts.len(),
    decreases ts.len() - pos,
{
    if pos < ts.len() {
        lemma_item_leaves(inp, ts, l, pos);
        let (it, p1) = spec_item(inp, ts, pos)->Ok_0;
        lemma_top_items_end(inp, ts, l, p1);
    }
}

/// The literal items that a run of non-bracket tokens folds into.
pub open spec fn folded_literals(ts: Seq<Token>) -> Seq<ItemView> {
    ts.map_values(|t: Token| ItemView::Literal(token_span(t)))
}

/// Inside a nested group, a run of tokens that are not brackets (free text,
/// or whitespace and other component parts outside any component) becomes
/// one literal item per token, with that token's range, in source order, in
/// front of whatever the group holds after the run.
pub proof fn lemma_nested_free_text_folded(inp: Seq<u8>, ts: Seq<Token>, pos: int, k: int)
    requires
        0 <= pos,
        0 <= k,
        pos + k <= ts.len(),
        forall|i: int| pos <= i < pos + k ==> !(#[trigger] ts[i] is Bracket),
    ensures
        spec_items(inp, ts, pos, true) == prepend_items(
            folded_literals(ts.subrange(pos, pos + k)),
            spec_items(inp, ts, pos + k, true),
        ),
    decreases k,
{
    let lits = folded_literals(ts.subrange(pos, pos + k));
    if k == 0 {
        assert(lits =~= Seq::<ItemView>::empty());
        match spec_items(inp, ts, pos, true) {
            Ok((its, p)) => {
                assert(Seq::<ItemView>::empty() + its =~= its);
            },
            Err(e) => {},
        }
    } else {
        lemma_nested_free_text_folded(inp, ts, pos + 1, k - 1);
        let lit = ItemView::Literal(token_span(ts[pos]));
        let rest = folded_literals(ts.subrange(pos + 1, pos + k));
        assert(!(ts[pos] is Bracket));
        assert(!is_bracket(ts, pos, BracketKind::Closing));
        assert(spec_item(inp, ts, pos) == Ok::<(ItemView, int), Error>((lit, pos + 1)));
        assert(spec_items(inp, ts, pos, true) == prepend_items(seq![lit], spec_items(inp, ts, pos + 1, true)));
        assert(lits =~= seq![lit] + rest);
        match spec_items(inp, ts, pos + k, true) {
            Ok((its, p)) => {
                assert(seq![lit] + (rest + its) =~= lits + its);
            },
            Err(e) => {},
        }
    }
}

} // verus!
