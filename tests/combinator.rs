use format_description::combinator::{
    any_digit, ascii_char, exactly_n, exactly_n_digits, exactly_n_digits_padded, first_match,
    first_string_of, flat_map, lazy_mut, n_to_m, n_to_m_digits, string, Integer, Padding, Single,
};
use format_description::span::Span;

#[test]
fn padded_zero_four_wide() {
    let mut c: usize = 0;
    assert_eq!(exactly_n_digits_padded(b"0005", &mut c, 4, Padding::Zero, Integer::U32), Some(5));
    assert_eq!(c, 4);
}

#[test]
fn padded_space_four_wide() {
    let mut c: usize = 0;
    assert_eq!(exactly_n_digits_padded(b"  42", &mut c, 4, Padding::Space, Integer::U32), Some(42));
    assert_eq!(c, 4);
}

#[test]
fn padded_none_four_wide() {
    let mut c: usize = 0;
    assert_eq!(exactly_n_digits_padded(b"1234", &mut c, 4, Padding::Unpadded, Integer::U32), Some(1234));
    assert_eq!(c, 4);
}

#[test]
fn padded_rejects_padding_without_digits() {
    let mut c: usize = 0;
    assert_eq!(exactly_n_digits_padded(b"     7", &mut c, 4, Padding::Space, Integer::U32), None);
    assert_eq!(c, 0);
    assert_eq!(exactly_n_digits_padded(b"   ", &mut c, 2, Padding::Space, Integer::U32), None);
    assert_eq!(c, 0);
    assert_eq!(exactly_n_digits_padded(b"  1", &mut c, 4, Padding::Unpadded, Integer::U32), None);
    assert_eq!(c, 0);
}

#[test]
fn padded_space_needs_exact_remaining_digits() {
    let mut c: usize = 0;
    assert_eq!(exactly_n_digits_padded(b" 4x", &mut c, 3, Padding::Space, Integer::U8), None);
    assert_eq!(c, 0);
    assert_eq!(exactly_n_digits_padded(b" 4", &mut c, 2, Padding::Space, Integer::U8), Some(4));
    assert_eq!(c, 2);
}

#[test]
fn padded_none_takes_up_to_width() {
    let mut c: usize = 0;
    assert_eq!(exactly_n_digits_padded(b"123456", &mut c, 2, Padding::Unpadded, Integer::U8), Some(12));
    assert_eq!(c, 2);
    let mut d: usize = 0;
    assert_eq!(exactly_n_digits_padded(b"7:", &mut d, 2, Padding::Unpadded, Integer::U8), Some(7));
    assert_eq!(d, 1);
}

#[test]
fn n_to_m_is_greedy_and_bounded() {
    let mut c: usize = 0;
    assert_eq!(n_to_m(b"123456", &mut c, 2, 4, Single::AnyDigit), Some(Span::new(0, 4)));
    assert_eq!(c, 4);
    let mut d: usize = 0;
    assert_eq!(n_to_m(b"12a", &mut d, 2, 4, Single::AnyDigit), Some(Span::new(0, 2)));
    assert_eq!(d, 2);
}

#[test]
fn n_to_m_too_few_consumes_nothing() {
    let mut c: usize = 0;
    assert_eq!(n_to_m(b"1a", &mut c, 2, 4, Single::AnyDigit), None);
    assert_eq!(c, 0);
    assert_eq!(n_to_m(b"", &mut c, 1, 1, Single::AnyDigit), None);
    assert_eq!(c, 0);
}

#[test]
fn n_to_m_zero_minimum_always_matches() {
    let mut c: usize = 1;
    assert_eq!(n_to_m(b"xab", &mut c, 0, 3, Single::AsciiChar(b' ')), Some(Span::new(1, 1)));
    assert_eq!(c, 1);
}

#[test]
fn exactly_n_counts() {
    let mut c: usize = 0;
    assert_eq!(exactly_n(b"   x", &mut c, 3, Single::AsciiChar(b' ')), Some(Span::new(0, 3)));
    assert_eq!(c, 3);
    let mut d: usize = 0;
    assert_eq!(exactly_n(b"  x", &mut d, 3, Single::AsciiChar(b' ')), None);
    assert_eq!(d, 0);
}

#[test]
fn digits_convert_by_width() {
    let mut c: usize = 0;
    assert_eq!(exactly_n_digits(b"255", &mut c, 3, Integer::U8), Some(255));
    assert_eq!(c, 3);
    let mut d: usize = 0;
    assert_eq!(exactly_n_digits(b"256", &mut d, 3, Integer::U8), None);
    assert_eq!(d, 0);
    assert_eq!(exactly_n_digits(b"256", &mut d, 3, Integer::U16), Some(256));
    assert_eq!(d, 3);
}

#[test]
fn digits_nonzero_rejects_zero() {
    let mut c: usize = 0;
    assert_eq!(n_to_m_digits(b"00", &mut c, 1, 2, Integer::NonZeroU8), None);
    assert_eq!(c, 0);
    assert_eq!(n_to_m_digits(b"00", &mut c, 1, 2, Integer::U8), Some(0));
    assert_eq!(c, 2);
    let mut d: usize = 0;
    assert_eq!(n_to_m_digits(b"07", &mut d, 1, 2, Integer::NonZeroU8), Some(7));
}

#[test]
fn digits_large_widths() {
    let mut c: usize = 0;
    let max = b"340282366920938463463374607431768211455";
    assert_eq!(n_to_m_digits(max, &mut c, 1, 40, Integer::U128), Some(u128::MAX));
    assert_eq!(c, 39);
    let mut d: usize = 0;
    let over = b"340282366920938463463374607431768211456";
    assert_eq!(n_to_m_digits(over, &mut d, 1, 40, Integer::U128), None);
    assert_eq!(d, 0);
    let mut e: usize = 0;
    assert_eq!(n_to_m_digits(b"18446744073709551616", &mut e, 1, 20, Integer::U64), None);
    assert_eq!(n_to_m_digits(b"18446744073709551615", &mut e, 1, 20, Integer::U64), Some(u64::MAX as u128));
}

#[test]
fn digits_zero_length_is_no_match() {
    let mut c: usize = 0;
    assert_eq!(n_to_m_digits(b"abc", &mut c, 0, 2, Integer::U8), None);
    assert_eq!(c, 0);
}

#[test]
fn single_byte_parsers() {
    let mut c: usize = 0;
    assert_eq!(any_digit(b"7a", &mut c), Some(b'7'));
    assert_eq!(c, 1);
    assert_eq!(any_digit(b"7a", &mut c), None);
    assert_eq!(c, 1);
    assert_eq!(ascii_char(b"7a", &mut c, b'a'), Some(()));
    assert_eq!(c, 2);
    assert_eq!(ascii_char(b"7a", &mut c, b'a'), None);
    assert_eq!(c, 2);
}

#[test]
fn string_matches_prefix_only() {
    let mut c: usize = 0;
    let input: &[u8] = b"hello world";
    assert_eq!(string(input, &mut c, b"help"), None);
    assert_eq!(c, 0);
    assert_eq!(string(input, &mut c, b"hello"), Some(&b"hello"[..]));
    assert_eq!(c, 5);
    assert_eq!(string(input, &mut c, b" world!"), None);
    assert_eq!(c, 5);
}

#[test]
fn first_string_of_takes_first_in_order() {
    let input: &[u8] = b"January";
    let longest_first: [&[u8]; 2] = [b"January", b"Jan"];
    let mut c: usize = 0;
    assert_eq!(first_string_of(input, &mut c, &longest_first), Some(&b"January"[..]));
    assert_eq!(c, 7);
    let shortest_first: [&[u8]; 2] = [b"Jan", b"January"];
    let mut d: usize = 0;
    assert_eq!(first_string_of(input, &mut d, &shortest_first), Some(&b"Jan"[..]));
    assert_eq!(d, 3);
    let none: [&[u8]; 2] = [b"Feb", b"Mar"];
    let mut e: usize = 0;
    assert_eq!(first_string_of(input, &mut e, &none), None);
    assert_eq!(e, 0);
}

#[test]
fn first_match_yields_value() {
    let options: [(&[u8], u8); 3] = [(b"Mon", 1), (b"Tue", 2), (b"Wed", 3)];
    let mut c: usize = 0;
    assert_eq!(first_match(b"Tuesday", &mut c, &options), Some(2));
    assert_eq!(c, 3);
    let mut d: usize = 0;
    assert_eq!(first_match(b"Thu", &mut d, &options), None);
    assert_eq!(d, 0);
}

#[test]
fn lazy_mut_commits_only_on_success() {
    let mut c: usize = 2;
    assert_eq!(lazy_mut(|p: usize| Some((p * 10, p + 3)), &mut c), Some(20));
    assert_eq!(c, 5);
    assert_eq!(lazy_mut(|_p: usize| None::<(u8, usize)>, &mut c), None);
    assert_eq!(c, 5);
}

#[test]
fn flat_map_needs_both_steps() {
    let mut c: usize = 0;
    let r = flat_map(|p: usize| Some((7u8, p + 1)), |v: u8| if v > 5 { Some(v as u32 * 2) } else { None }, &mut c);
    assert_eq!(r, Some(14));
    assert_eq!(c, 1);
    let r2 = flat_map(|p: usize| Some((3u8, p + 1)), |v: u8| if v > 5 { Some(v as u32) } else { None }, &mut c);
    assert_eq!(r2, None);
    assert_eq!(c, 1);
}

#[test]
fn padded_zero_all_zeros_is_zero() {
    let mut c: usize = 0;
    assert_eq!(exactly_n_digits_padded(b"0000", &mut c, 4, Padding::Zero, Integer::U8), Some(0));
    assert_eq!(c, 4);
    let mut d: usize = 0;
    assert_eq!(exactly_n_digits_padded(b"00000", &mut d, 4, Padding::Zero, Integer::U32), Some(0));
    assert_eq!(d, 4);
    let mut e: usize = 0;
    assert_eq!(exactly_n_digits_padded(b"00", &mut e, 2, Padding::Zero, Integer::U8), Some(0));
    assert_eq!(e, 2);
}

#[test]
fn padded_zero_rejects_zero_for_nonzero_types() {
    let mut c: usize = 0;
    assert_eq!(exactly_n_digits_padded(b"00", &mut c, 2, Padding::Zero, Integer::NonZeroU8), None);
    assert_eq!(c, 0);
}

#[test]
fn padded_space_keeps_one_digit() {
    let mut c: usize = 0;
    assert_eq!(exactly_n_digits_padded(b"   5", &mut c, 4, Padding::Space, Integer::U8), Some(5));
    assert_eq!(c, 4);
    let mut d: usize = 0;
    assert_eq!(exactly_n_digits_padded(b"    ", &mut d, 4, Padding::Space, Integer::U8), None);
    assert_eq!(d, 0);
}

#[test]
fn padded_width_zero_never_matches() {
    let mut c: usize = 0;
    assert_eq!(exactly_n_digits_padded(b"12", &mut c, 0, Padding::Zero, Integer::U8), None);
    assert_eq!(c, 0);
}
