use format_description::ast::{
    parse, parse_component, parse_format_description, parse_inner, parse_nested, Error, ExpectedWhat,
    InvalidFormatDescription, Item,
};
use format_description::lexer::{lex, BracketKind, ComponentKind, Token};
use format_description::span::{Location, Span};

fn err_of(input: &[u8]) -> InvalidFormatDescription {
    match parse_format_description(input) {
        Err(Error { public, .. }) => public,
        Ok(_) => panic!("expected an error"),
    }
}

fn loc(b: usize) -> Location {
    Location { byte: b }
}

/// Every leaf range of the items, in order.
fn leaves(items: &[Item], out: &mut Vec<Span>) {
    for item in items {
        match item {
            Item::Literal(s) => out.push(*s),
            Item::EscapedBracket { first, second } => {
                out.push(first.unit());
                out.push(second.unit());
            }
            Item::Component { opening_bracket, leading_whitespace, name, modifiers, trailing_whitespace, closing_bracket } => {
                out.push(opening_bracket.unit());
                if let Some(w) = leading_whitespace {
                    out.push(*w);
                }
                out.push(*name);
                for m in modifiers {
                    out.push(m.leading_whitespace);
                    out.push(m.key);
                    out.push(m.colon.unit());
                    out.push(m.value);
                }
                if let Some(w) = trailing_whitespace {
                    out.push(*w);
                }
                out.push(closing_bracket.unit());
            }
            Item::Optional { opening_bracket, leading_whitespace, optional_kw, whitespace, nested_format_description, closing_bracket } => {
                out.push(opening_bracket.unit());
                if let Some(w) = leading_whitespace {
                    out.push(*w);
                }
                out.push(*optional_kw);
                out.push(*whitespace);
                out.push(nested_format_description.opening_bracket.unit());
                leaves(&nested_format_description.items, out);
                out.push(nested_format_description.closing_bracket.unit());
                if let Some(w) = nested_format_description.trailing_whitespace {
                    out.push(w);
                }
                out.push(closing_bracket.unit());
            }
        }
    }
}

fn rebuild(input: &[u8]) -> Vec<u8> {
    let items = match parse_format_description(input) {
        Ok(items) => items,
        Err(_) => panic!("expected items"),
    };
    let mut spans = Vec::new();
    leaves(&items, &mut spans);
    let mut out = Vec::new();
    for s in spans {
        out.extend_from_slice(&input[s.start.byte..s.end.byte]);
    }
    out
}

#[test]
fn unterminated_bracket_reports_its_position() {
    assert_eq!(err_of(b"[foo"), InvalidFormatDescription::UnclosedOpeningBracket { index: 0 });
}

#[test]
fn empty_component_has_no_name() {
    assert_eq!(err_of(b"[]"), InvalidFormatDescription::MissingComponentName { index: 1 });
    assert_eq!(err_of(b"[ ]"), InvalidFormatDescription::MissingComponentName { index: 1 });
}

#[test]
fn modifier_without_colon() {
    assert_eq!(
        err_of(b"[foo bar]"),
        InvalidFormatDescription::InvalidModifier { value: Span::new(5, 8), index: 5 }
    );
}

#[test]
fn modifier_with_two_colons() {
    assert_eq!(
        err_of(b"[foo a:b:c]"),
        InvalidFormatDescription::InvalidModifier { value: Span::new(5, 10), index: 5 }
    );
}

#[test]
fn modifier_with_empty_key_or_value() {
    assert_eq!(
        err_of(b"[foo :x]"),
        InvalidFormatDescription::InvalidModifier { value: Span::new(5, 5), index: 5 }
    );
    assert_eq!(
        err_of(b"[foo x:]"),
        InvalidFormatDescription::InvalidModifier { value: Span::new(7, 7), index: 7 }
    );
}

#[test]
fn bracket_in_modifier_list() {
    assert_eq!(
        err_of(b"[foo [bar]]"),
        InvalidFormatDescription::InvalidModifier { value: Span::new(5, 6), index: 5 }
    );
}

#[test]
fn optional_needs_whitespace_and_bracket() {
    assert_eq!(
        err_of(b"[optional]"),
        InvalidFormatDescription::Expected { what: ExpectedWhat::WhitespaceAfterOptional, index: 9 }
    );
    assert_eq!(
        err_of(b"[optional x]"),
        InvalidFormatDescription::Expected { what: ExpectedWhat::OpeningBracket, index: 10 }
    );
}

#[test]
fn unclosed_optional_points_at_outer_bracket() {
    assert_eq!(err_of(b"[optional [x]"), InvalidFormatDescription::UnclosedOpeningBracket { index: 0 });
    assert_eq!(err_of(b"ab [optional [x"), InvalidFormatDescription::UnclosedOpeningBracket { index: 13 });
}

#[test]
fn error_carries_span() {
    match parse_format_description(b"[foo") {
        Err(e) => assert_eq!(e.span, Span::new(0, 1)),
        Ok(_) => panic!("expected an error"),
    }
}

#[test]
fn escaped_bracket_is_one_item() {
    match parse_format_description(b"[[") {
        Ok(items) => {
            assert_eq!(items.len(), 1);
            assert!(matches!(items[0], Item::EscapedBracket { first, second } if first == loc(0) && second == loc(1)));
        }
        Err(_) => panic!("expected items"),
    }
}

#[test]
fn closing_pair_is_one_literal() {
    match parse_format_description(b"]]") {
        Ok(items) => {
            assert_eq!(items.len(), 1);
            assert!(matches!(items[0], Item::Literal(s) if s == Span::new(0, 2)));
        }
        Err(_) => panic!("expected items"),
    }
}

#[test]
fn component_with_modifiers() {
    let input = b"at [hour padding:zero repr:24] now";
    match parse_format_description(input) {
        Ok(items) => {
            assert_eq!(items.len(), 3);
            assert!(matches!(items[0], Item::Literal(s) if s == Span::new(0, 3)));
            match &items[1] {
                Item::Component { opening_bracket, leading_whitespace, name, modifiers, trailing_whitespace, closing_bracket } => {
                    assert_eq!(*opening_bracket, loc(3));
                    assert_eq!(*leading_whitespace, None);
                    assert_eq!(*name, Span::new(4, 8));
                    assert_eq!(modifiers.len(), 2);
                    assert_eq!(modifiers[0].leading_whitespace, Span::new(8, 9));
                    assert_eq!(modifiers[0].key, Span::new(9, 16));
                    assert_eq!(modifiers[0].colon, loc(16));
                    assert_eq!(modifiers[0].value, Span::new(17, 21));
                    assert_eq!(modifiers[1].key, Span::new(22, 26));
                    assert_eq!(modifiers[1].value, Span::new(27, 29));
                    assert_eq!(*trailing_whitespace, None);
                    assert_eq!(*closing_bracket, loc(29));
                }
                _ => panic!("expected a component"),
            }
            assert!(matches!(items[2], Item::Literal(s) if s == Span::new(30, 34)));
        }
        Err(_) => panic!("expected items"),
    }
}

#[test]
fn component_keeps_surrounding_whitespace() {
    match parse_format_description(b"[ day ]") {
        Ok(items) => match &items[0] {
            Item::Component { leading_whitespace, name, modifiers, trailing_whitespace, .. } => {
                assert_eq!(*leading_whitespace, Some(Span::new(1, 2)));
                assert_eq!(*name, Span::new(2, 5));
                assert!(modifiers.is_empty());
                assert_eq!(*trailing_whitespace, Some(Span::new(5, 6)));
            }
            _ => panic!("expected a component"),
        },
        Err(_) => panic!("expected items"),
    }
}

#[test]
fn nested_free_text_becomes_literals() {
    match parse_format_description(b"[optional [x [year]]]") {
        Ok(items) => {
            assert_eq!(items.len(), 1);
            match &items[0] {
                Item::Optional { nested_format_description, closing_bracket, .. } => {
                    let nested = &nested_format_description.items;
                    assert_eq!(nested.len(), 3);
                    assert!(matches!(nested[0], Item::Literal(s) if s == Span::new(11, 12)));
                    assert!(matches!(nested[1], Item::Literal(s) if s == Span::new(12, 13)));
                    assert!(matches!(nested[2], Item::Component { name, .. } if name == Span::new(14, 18)));
                    assert_eq!(nested_format_description.opening_bracket, loc(10));
                    assert_eq!(nested_format_description.closing_bracket, loc(19));
                    assert_eq!(*closing_bracket, loc(20));
                }
                _ => panic!("expected an optional group"),
            }
        }
        Err(_) => panic!("expected items"),
    }
}

#[test]
fn nested_trailing_whitespace_is_kept() {
    match parse_format_description(b"[optional [[x]] ]") {
        Ok(_) => panic!("expected an error"),
        Err(_) => {}
    }
    match parse_format_description(b"[optional [ [x]] ]") {
        Ok(items) => match &items[0] {
            Item::Optional { nested_format_description, .. } => {
                assert_eq!(nested_format_description.trailing_whitespace, Some(Span::new(16, 17)));
            }
            _ => panic!("expected an optional group"),
        },
        Err(_) => panic!("expected items"),
    }
}

#[test]
fn leaves_rebuild_the_input() {
    let cases: [&[u8]; 7] = [
        b"plain text",
        b"[[ and ]]",
        b"at [hour padding:zero repr:24] now",
        b"[ day ] x",
        b"[optional [x [year]]]",
        b"[optional [ [x]] ]",
        b"",
    ];
    for c in cases {
        assert_eq!(rebuild(c), c.to_vec());
    }
}

#[test]
fn parsing_twice_agrees() {
    let input = b"[optional [x [year]]] [hour padding:zero]";
    let a = format!("{:?}", parse_format_description(input));
    let b = format!("{:?}", parse_format_description(input));
    assert_eq!(a, b);
}

#[test]
fn lexer_tokens() {
    let toks = lex(b"a[[b [c d]]e");
    assert_eq!(
        toks,
        vec![
            Token::Literal(Span::new(0, 1)),
            Token::Bracket { kind: BracketKind::Opening, location: loc(1) },
            Token::Bracket { kind: BracketKind::Opening, location: loc(2) },
            Token::Literal(Span::new(3, 5)),
            Token::Bracket { kind: BracketKind::Opening, location: loc(5) },
            Token::ComponentPart { kind: ComponentKind::NotWhitespace, value: Span::new(6, 7) },
            Token::ComponentPart { kind: ComponentKind::Whitespace, value: Span::new(7, 8) },
            Token::ComponentPart { kind: ComponentKind::NotWhitespace, value: Span::new(8, 9) },
            Token::Bracket { kind: BracketKind::Closing, location: loc(9) },
            Token::Literal(Span::new(10, 12)),
        ]
    );
}

#[test]
fn parse_parts_on_tokens() {
    let input: &[u8] = b"[a x:y]";
    let toks = lex(input);
    match parse_component(input, &toks, loc(0), 1) {
        Ok((Item::Component { modifiers, .. }, next)) => {
            assert_eq!(modifiers.len(), 1);
            assert_eq!(next, 5);
        }
        _ => panic!("expected a component"),
    }
    assert!(parse(input, &toks).is_ok());
    match parse_inner(input, &toks, 0, false) {
        Ok((items, next)) => {
            assert_eq!(items.len(), 1);
            assert_eq!(next, toks.len());
        }
        Err(_) => panic!("expected items"),
    }
    match parse_nested(input, &toks, loc(0), 1) {
        Err(e) => assert_eq!(e.public, InvalidFormatDescription::Expected { what: ExpectedWhat::OpeningBracket, index: 0 }),
        Ok(_) => panic!("expected an error"),
    }
}

#[test]
fn free_text_token_inside_group_does_not_abort() {
    assert_eq!(err_of(b"[optional [[x]]"), InvalidFormatDescription::UnclosedOpeningBracket { index: 10 });
}

#[test]
fn nested_whitespace_runs_are_literals_in_order() {
    match parse_format_description(b"[optional [ ab  cd [x]]]") {
        Ok(items) => match &items[0] {
            Item::Optional { nested_format_description, .. } => {
                let nested = &nested_format_description.items;
                assert_eq!(nested.len(), 6);
                let expected = [Span::new(11, 12), Span::new(12, 14), Span::new(14, 16), Span::new(16, 18), Span::new(18, 19)];
                for (i, want) in expected.iter().enumerate() {
                    assert!(matches!(nested[i], Item::Literal(s) if s == *want));
                }
                assert!(matches!(nested[5], Item::Component { name, .. } if name == Span::new(20, 21)));
            }
            _ => panic!("expected an optional group"),
        },
        Err(_) => panic!("expected items"),
    }
}
