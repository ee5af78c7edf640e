//! Cursor-based scanning combinators.
//!
//! Every combinator takes the whole input and a cursor into it. On success the
//! cursor moves past what was consumed; on failure it is left exactly where it
//! was.
use vstd::prelude::*;
use crate::span::{Location, Span};

verus! {

/// How a fixed-width numeric field may be padded.
#[derive(Clone, Copy, Debug, PartialEq, Eq, Structural)]
pub enum Padding {
    /// Between one digit and the full width, unpadded.
    Unpadded,
    /// Leading spaces fill the width.
    Space,
    /// Leading zeros fill the width.
    Zero,
}

/// The integer type a run of digits is converted to.
#[derive(Clone, Copy, Debug, PartialEq, Eq, Structural)]
pub enum Integer {
    U8,
    U16,
    U32,
    U64,
    U128,
    Usize,
    NonZeroU8,
    NonZeroU16,
    NonZeroU32,
    NonZeroU64,
    NonZeroU128,
    NonZeroUsize,
}

/// A parser that consumes a single byte of a given class.
#[derive(Clone, Copy, Debug, PartialEq, Eq, Structural)]
pub enum Single {
    /// Any ASCII digit.
    AnyDigit,
    /// This exact byte.
    AsciiChar(u8),
}

pub open spec fn is_digit(b: u8) -> bool {
    48 <= b <= 57
}

impl Single {
    pub open spec fn accepts(self, b: u8) -> bool {
        match self {
            Single::AnyDigit => is_digit(b),
            Single::AsciiChar(c) => b == c,
        }
    }

    /// Apply the parser once.
    pub fn apply(&self, input: &[u8], cursor: &mut usize) -> (r: bool)
        requires
            *old(cursor) <= input@.len(),
        ensures
            r == step_ok(input@, *old(cursor) as int, *self),
            r ==> *final(cursor) == *old(cursor) + 1,
            !r ==> *final(cursor) == *old(cursor),
    {
        match self {
            Single::AnyDigit => any_digit(input, cursor).is_some(),
            Single::AsciiChar(c) => ascii_char(input, cursor, *c).is_some(),
        }
    }
}

/// The byte at `pos` exists and `p` accepts it.
pub open spec fn step_ok(s: Seq<u8>, pos: int, p: Single) -> bool {
    0 <= pos < s.len() && p.accepts(s[pos])
}

/// How many bytes from `pos` on, one after the other, `p` accepts.
pub open spec fn run_len(s: Seq<u8>, pos: int, p: Single) -> nat
    decreases s.len() - pos,
{
    if step_ok(s, pos, p) {
        1 + run_len(s, pos + 1, p)
    } else {
        0
    }
}

pub open spec fn min(a: int, b: int) -> int {
    if a <= b { a } else { b }
}

/// `s` holds `e` at `pos`.
pub open spec fn starts_at(s: Seq<u8>, pos: int, e: Seq<u8>) -> bool {
    0 <= pos && pos + e.len() <= s.len() && s.subrange(pos, pos + e.len()) == e
}

/// The value of a run of decimal digits.
pub open spec fn digits_value(s: Seq<u8>) -> nat
    decreases s.len(),
{
    if s.len() == 0 {
        0
    } else {
        digits_value(s.drop_last()) * 10 + (s.last() - 48) as nat
    }
}

pub open spec fn int_max(t: Integer) -> int {
    match t {
        Integer::U8 | Integer::NonZeroU8 => u8::MAX as int,
        Integer::U16 | Integer::NonZeroU16 => u16::MAX as int,
        Integer::U32 | Integer::NonZeroU32 => u32::MAX as int,
        Integer::U64 | Integer::NonZeroU64 => u64::MAX as int,
        Integer::U128 | Integer::NonZeroU128 => u128::MAX as int,
        Integer::Usize | Integer::NonZeroUsize => usize::MAX as int,
    }
}

pub open spec fn int_min(t: Integer) -> int {
    match t {
        Integer::NonZeroU8 | Integer::NonZeroU16 | Integer::NonZeroU32 | Integer::NonZeroU64
        | Integer::NonZeroU128 | Integer::NonZeroUsize => 1,
        _ => 0,
    }
}

/// A run of digits converts to `t`: it is not empty and its value is in range.
pub open spec fn converts(digits: Seq<u8>, t: Integer) -> bool {
    digits.len() > 0 && int_min(t) <= digits_value(digits) <= int_max(t)
}

/// How many bytes `n_to_m(n, m, p)` consumes at `pos`, if it matches.
pub open spec fn n_to_m_len(s: Seq<u8>, pos: int, n: int, m: int, p: Single) -> Option<int> {
    if run_len(s, pos, p) >= n {
        Some(min(run_len(s, pos, p) as int, m))
    } else {
        None
    }
}

/// What `n_to_m_digits(n, m)` yields at `pos`: the value and the number of
/// bytes consumed.
pub open spec fn n_to_m_digits_spec(s: Seq<u8>, pos: int, n: int, m: int, t: Integer) -> Option<(int, int)> {
    match n_to_m_len(s, pos, n, m, Single::AnyDigit) {
        Some(c) => if converts(s.subrange(pos, pos + c), t) {
            Some((digits_value(s.subrange(pos, pos + c)) as int, c))
        } else {
            None
        },
        None => None,
    }
}

/// What `exactly_n_digits_padded(n, padding)` yields at `pos`: the value and
/// the number of bytes consumed.
pub open spec fn padded_spec(s: Seq<u8>, pos: int, n: int, padding: Padding, t: Integer) -> Option<(int, int)> {
    match padding {
        Padding::Unpadded => n_to_m_digits_spec(s, pos, 1, n, t),
        Padding::Space | Padding::Zero => {
            let pad = if n >= 1 { min(run_len(s, pos, pad_parser(padding)) as int, n - 1) } else { 0 };
            match n_to_m_digits_spec(s, pos + pad, n - pad, n - pad, t) {
                Some((v, c)) => Some((v, pad + c)),
                None => None,
            }
        },
    }
}

pub open spec fn pad_parser(padding: Padding) -> Single {
    match padding {
        Padding::Space => Single::AsciiChar(32),
        _ => Single::AsciiChar(48),
    }
}

/// Run a parser that works on a copy of the cursor, and move the real cursor
/// only when it succeeds.
pub fn lazy_mut<T, F: Fn(usize) -> Option<(T, usize)>>(parser: F, cursor: &mut usize) -> (r: Option<T>)
    requires
        parser.requires((*old(cursor),)),
    ensures
        r is None ==> *final(cursor) == *old(cursor) && parser.ensures((*old(cursor),), None),
        r is Some ==> parser.ensures((*old(cursor),), Some((r->Some_0, *final(cursor)))),
{
    let scratch: usize = *cursor;
    match parser(scratch) {
        Some((value, next)) => {
            *cursor = next;
            Some(value)
        },
        None => None,
    }
}

/// Run `parser`, then `map_fn` on its value; the cursor moves only when both
/// succeed.
pub fn flat_map<T, U, F: Fn(usize) -> Option<(T, usize)>, G: Fn(T) -> Option<U>>(
    parser: F,
    map_fn: G,
    cursor: &mut usize,
) -> (r: Option<U>)
    requires
        parser.requires((*old(cursor),)),
        forall|v: T| #[trigger] map_fn.requires((v,)),
    ensures
        r is None ==> *final(cursor) == *old(cursor),
        r is Some ==> exists|v: T|
            parser.ensures((*old(cursor),), Some((v, *final(cursor))))
                && #[trigger] map_fn.ensures((v,), r),
        r is None ==> parser.ensures((*old(cursor),), None) || exists|v: T, next: usize|
            #[trigger] parser.ensures((*old(cursor),), Some((v, next))) && map_fn.ensures((v,), None::<U>),
{
    let scratch: usize = *cursor;
    match parser(scratch) {
        Some((value, next)) => {
            let mapped = map_fn(value);
            match mapped {
                Some(u) => {
                    *cursor = next;
                    Some(u)
                },
                None => None,
            }
        },
        None => None,
    }
}

/// Consume `expected` if the input holds it at the cursor.
pub fn string<'b>(input: &[u8], cursor: &mut usize, expected: &'b [u8]) -> (r: Option<&'b [u8]>)
    requires
        *old(cursor) <= input@.len(),
    ensures
        r is Some <==> starts_at(input@, *old(cursor) as int, expected@),
        r is Some ==> r->Some_0 == expected && *final(cursor) == *old(cursor) + expected@.len(),
        r is None ==> *final(cursor) == *old(cursor),
{
    let start: usize = *cursor;
    if expected.len() > input.len() - start {
        return None;
    }
    let len: usize = input.len();
    let mut i: usize = 0;
    while i < expected.len()
        invariant
            len == input@.len(),
            start == *old(cursor),
            *cursor == start,
            start + expected@.len() <= input@.len(),
            i <= expected@.len(),
            forall|j: int| 0 <= j < i ==> input@[start + j] == expected@[j],
        decreases expected@.len() - i,
    {
        if input[start + i] != expected[i] {
            assert(input@.subrange(start as int, start + expected@.len())[i as int] != expected@[i as int]);
            return None;
        }
        i = i + 1;
    }
    assert(input@.subrange(start as int, start + expected@.len()) =~= expected@);
    *cursor = start + expected.len();
    Some(expected)
}

/// Consume the first of `candidates` that the input holds at the cursor.
/// Order matters: where one candidate is a prefix of another, the caller
/// puts the longer one first.
pub fn first_string_of<'b>(input: &[u8], cursor: &mut usize, candidates: &[&'b [u8]]) -> (r: Option<&'b [u8]>)
    requires
        *old(cursor) <= input@.len(),
    ensures
        r is None <==> forall|i: int| 0 <= i < candidates@.len() ==> !starts_at(input@, *old(cursor) as int, #[trigger] candidates@[i]@),
        r is None ==> *final(cursor) == *old(cursor),
        r is Some ==> exists|i: int| 0 <= i < candidates@.len()
            && r->Some_0 == #[trigger] candidates@[i]
            && starts_at(input@, *old(cursor) as int, candidates@[i]@)
            && *final(cursor) == *old(cursor) + candidates@[i]@.len()
            && forall|j: int| 0 <= j < i ==> !starts_at(input@, *old(cursor) as int, #[trigger] candidates@[j]@),
{
    let mut i: usize = 0;
    while i < candidates.len()
        invariant
            i <= candidates@.len(),
            *cursor == *old(cursor),
            *cursor <= input@.len(),
            forall|j: int| 0 <= j < i ==> !starts_at(input@, *old(cursor) as int, #[trigger] candidates@[j]@),
        decreases candidates@.len() - i,
    {
        let c: &'b [u8] = candidates[i];
        match string(input, cursor, c) {
            Some(found) => {
                return Some(found);
            },
            None => {},
        }
        i = i + 1;
    }
    None
}

/// Consume the first option's text that the input holds at the cursor, and
/// yield the value paired with it. Order matters as for `first_string_of`.
pub fn first_match<T: Copy>(input: &[u8], cursor: &mut usize, options: &[(&[u8], T)]) -> (r: Option<T>)
    requires
        *old(cursor) <= input@.len(),
    ensures
        r is None <==> forall|i: int| 0 <= i < options@.len() ==> !starts_at(input@, *old(cursor) as int, #[trigger] options@[i].0@),
        r is None ==> *final(cursor) == *old(cursor),
        r is Some ==> exists|i: int| 0 <= i < options@.len()
            && r->Some_0 == #[trigger] options@[i].1
            && starts_at(input@, *old(cursor) as int, options@[i].0@)
            && *final(cursor) == *old(cursor) + options@[i].0@.len()
            && forall|j: int| 0 <= j < i ==> !starts_at(input@, *old(cursor) as int, #[trigger] options@[j].0@),
{
    let mut i: usize = 0;
    while i < options.len()
        invariant
            i <= options@.len(),
            *cursor == *old(cursor),
            *cursor <= input@.len(),
            forall|j: int| 0 <= j < i ==> !starts_at(input@, *old(cursor) as int, #[trigger] options@[j].0@),
        decreases options@.len() - i,
    {
        let text: &[u8] = options[i].0;
        match string(input, cursor, text) {
            Some(_) => {
                return Some(options[i].1);
            },
            None => {},
        }
        i = i + 1;
    }
    None
}

/// Consume exactly one ASCII digit, yielding it.
pub fn any_digit(input: &[u8], cursor: &mut usize) -> (r: Option<u8>)
    requires
        *old(cursor) <= input@.len(),
    ensures
        r is Some <==> step_ok(input@, *old(cursor) as int, Single::AnyDigit),
        r is Some ==> r->Some_0 == input@[*old(cursor) as int] && *final(cursor) == *old(cursor) + 1,
        r is None ==> *final(cursor) == *old(cursor),
{
    let pos: usize = *cursor;
    if pos < input.len() && input[pos] >= 48 && input[pos] <= 57 {
        let b = input[pos];
        *cursor = pos + 1;
        Some(b)
    } else {
        None
    }
}

/// Consume exactly one byte equal to `c`.
pub fn ascii_char(input: &[u8], cursor: &mut usize, c: u8) -> (r: Option<()>)
    requires
        *old(cursor) <= input@.len(),
    ensures
        r is Some <==> step_ok(input@, *old(cursor) as int, Single::AsciiChar(c)),
        r is Some ==> *final(cursor) == *old(cursor) + 1,
        r is None ==> *final(cursor) == *old(cursor),
{
    let pos: usize = *cursor;
    if pos < input.len() && input[pos] == c {
        *cursor = pos + 1;
        Some(())
    } else {
        None
    }
}

/// When the `j` bytes from `pos` are all accepted, the run from `pos` is `j`
/// longer than the run from `pos + j`.
proof fn lemma_run_len_split(s: Seq<u8>, pos: int, j: int, p: Single)
    requires
        0 <= j,
        forall|k: int| pos <= k < pos + j ==> step_ok(s, k, p),
    ensures
        run_len(s, pos, p) == j + run_len(s, pos + j, p),
    decreases j,
{
    if j > 0 {
        lemma_run_len_split(s, pos + 1, j - 1, p);
    }
}

/// A run never reaches past the end of the input.
proof fn lemma_run_len_bound(s: Seq<u8>, pos: int, p: Single)
    requires
        0 <= pos <= s.len(),
    ensures
        pos + run_len(s, pos, p) <= s.len(),
    decreases s.len() - pos,
{
    if step_ok(s, pos, p) {
        lemma_run_len_bound(s, pos + 1, p);
    }
}

/// Consume between `n` and `m` bytes that `parser` accepts, as many as
/// possible, yielding the consumed range.
pub fn n_to_m(input: &[u8], cursor: &mut usize, n: u8, m: u8, parser: Single) -> (r: Option<Span>)
    requires
        n <= m,
        *old(cursor) <= input@.len(),
    ensures
        match n_to_m_len(input@, *old(cursor) as int, n as int, m as int, parser) {
            Some(c) => r == Some(Span {
                    start: Location { byte: *old(cursor) },
                    end: Location { byte: (*old(cursor) + c) as usize },
                }) && *final(cursor) == *old(cursor) + c,
            None => r is None && *final(cursor) == *old(cursor),
        },
        *final(cursor) <= input@.len(),
{
    proof {
        lemma_run_len_bound(input@, *cursor as int, parser);
    }
    let start: usize = *cursor;
    let mut scratch: usize = start;
    let mut i: u8 = 0;
    while i < m
        invariant
            n <= m,
            start <= input@.len(),
            i <= m,
            scratch == start + i,
            scratch <= input@.len(),
            forall|k: int| start <= k < scratch ==> step_ok(input@, k, parser),
            *cursor == start,
            start == *old(cursor),
        decreases m - i,
    {
        if !parser.apply(input, &mut scratch) {
            proof {
                lemma_run_len_split(input@, start as int, i as int, parser);
                assert(run_len(input@, scratch as int, parser) == 0);
                assert(run_len(input@, start as int, parser) == i);
            }
            if i < n {
                return None;
            }
            *cursor = scratch;
            return Some(Span { start: Location { byte: start }, end: Location { byte: scratch } });
        }
        i = i + 1;
    }
    proof {
        lemma_run_len_split(input@, start as int, m as int, parser);
    }
    *cursor = scratch;
    Some(Span { start: Location { byte: start }, end: Location { byte: scratch } })
}

/// Consume exactly `n` bytes that `parser` accepts.
pub fn exactly_n(input: &[u8], cursor: &mut usize, n: u8, parser: Single) -> (r: Option<Span>)
    requires
        *old(cursor) <= input@.len(),
    ensures
        match n_to_m_len(input@, *old(cursor) as int, n as int, n as int, parser) {
            Some(c) => r == Some(Span {
                    start: Location { byte: *old(cursor) },
                    end: Location { byte: (*old(cursor) + c) as usize },
                }) && *final(cursor) == *old(cursor) + c,
            None => r is None && *final(cursor) == *old(cursor),
        },
{
    n_to_m(input, cursor, n, n, parser)
}

/// The largest value of `t`.
pub fn int_max_value(t: Integer) -> (r: u128)
    ensures
        r == int_max(t),
{
    match t {
        Integer::U8 | Integer::NonZeroU8 => u8::MAX as u128,
        Integer::U16 | Integer::NonZeroU16 => u16::MAX as u128,
        Integer::U32 | Integer::NonZeroU32 => u32::MAX as u128,
        Integer::U64 | Integer::NonZeroU64 => u64::MAX as u128,
        Integer::U128 | Integer::NonZeroU128 => u128::MAX,
        Integer::Usize | Integer::NonZeroUsize => usize::MAX as u128,
    }
}

proof fn lemma_scale_bound(v: int, d: int, max: int)
    requires
        0 <= v,
        0 <= d <= max,
    ensures
        v * 10 + d <= max <==> v <= (max - d) / 10,
{
    assert(v * 10 + d <= max ==> v <= (max - d) / 10) by (nonlinear_arith)
        requires 0 <= v, 0 <= d <= max;
    assert(v <= (max - d) / 10 ==> v * 10 + d <= max) by (nonlinear_arith)
        requires 0 <= v, 0 <= d <= max;
}

/// A run of digits is worth at least as much as any of its prefixes.
proof fn lemma_digits_prefix(s: Seq<u8>, j: int)
    requires
        0 <= j <= s.len(),
    ensures
        digits_value(s.subrange(0, j)) <= digits_value(s),
    decreases s.len(),
{
    if j < s.len() {
        lemma_digits_prefix(s.drop_last(), j);
        assert(s.drop_last().subrange(0, j) =~= s.subrange(0, j));
    } else {
        assert(s.subrange(0, j) =~= s);
    }
}

/// Convert the digits at `start..end` to `t`, failing when the run is empty
/// or its value is out of range for `t`.
fn convert_digits(input: &[u8], start: usize, end: usize, t: Integer) -> (r: Option<u128>)
    requires
        start <= end <= input@.len(),
        forall|k: int| start <= k < end ==> is_digit(#[trigger] input@[k]),
    ensures
        converts(input@.subrange(start as int, end as int), t) ==> r == Some(
            digits_value(input@.subrange(start as int, end as int)) as u128,
        ),
        !converts(input@.subrange(start as int, end as int), t) ==> r is None,
{
    if start == end {
        return None;
    }
    let max = int_max_value(t);
    let mut v: u128 = 0;
    let mut i: usize = start;
    assert(input@.subrange(start as int, start as int) =~= Seq::<u8>::empty());
    while i < end
        invariant
            start <= i <= end <= input@.len(),
            forall|k: int| start <= k < end ==> is_digit(#[trigger] input@[k]),
            max == int_max(t),
            v == digits_value(input@.subrange(start as int, i as int)),
            v <= max,
        decreases end - i,
    {
        let d: u8 = input[i] - 48;
        assert(input@.subrange(start as int, i + 1).drop_last() =~= input@.subrange(start as int, i as int));
        proof {
            lemma_scale_bound(v as int, d as int, max as int);
        }
        if v > (max - d as u128) / 10 {
            proof {
                let whole = input@.subrange(start as int, end as int);
                lemma_digits_prefix(whole, i + 1 - start);
                assert(whole.subrange(0, i + 1 - start) =~= input@.subrange(start as int, i + 1));
            }
            return None;
        }
        v = v * 10 + d as u128;
        i = i + 1;
    }
    if v < 1 && int_min_value(t) == 1 {
        return None;
    }
    Some(v)
}

/// The smallest value of `t`.
pub fn int_min_value(t: Integer) -> (r: u128)
    ensures
        r == int_min(t),
{
    match t {
        Integer::NonZeroU8 | Integer::NonZeroU16 | Integer::NonZeroU32 | Integer::NonZeroU64
        | Integer::NonZeroU128 | Integer::NonZeroUsize => 1,
        _ => 0,
    }
}

/// Consume between `n` and `m` digits, as many as possible, and yield their
/// value as an integer of type `t`. A value out of range for `t` is no match.
pub fn n_to_m_digits(input: &[u8], cursor: &mut usize, n: u8, m: u8, t: Integer) -> (r: Option<u128>)
    requires
        n <= m,
        *old(cursor) <= input@.len(),
    ensures
        match n_to_m_digits_spec(input@, *old(cursor) as int, n as int, m as int, t) {
            Some((v, c)) => r == Some(v as u128) && *final(cursor) == *old(cursor) + c,
            None => r is None && *final(cursor) == *old(cursor),
        },
{
    let start: usize = *cursor;
    let mut scratch: usize = start;
    match n_to_m(input, &mut scratch, n, m, Single::AnyDigit) {
        Some(span) => {
            proof {
                let c = span.end.byte - start;
                assert forall|k: int| start <= k < span.end.byte implies is_digit(#[trigger] input@[k]) by {
                    lemma_run_prefix_accepted(input@, start as int, Single::AnyDigit, k);
                }
            }
            match convert_digits(input, span.start.byte, span.end.byte, t) {
                Some(v) => {
                    *cursor = scratch;
                    Some(v)
                },
                None => None,
            }
        },
        None => None,
    }
}

/// Every byte within the run from `pos` is accepted.
proof fn lemma_run_prefix_accepted(s: Seq<u8>, pos: int, p: Single, k: int)
    requires
        pos <= k < pos + run_len(s, pos, p),
    ensures
        step_ok(s, k, p),
    decreases k - pos,
{
    if k > pos {
        lemma_run_prefix_accepted(s, pos + 1, p, k);
    }
}

/// Consume exactly `n` digits and yield their value as an integer of type `t`.
pub fn exactly_n_digits(input: &[u8], cursor: &mut usize, n: u8, t: Integer) -> (r: Option<u128>)
    requires
        *old(cursor) <= input@.len(),
    ensures
        match n_to_m_digits_spec(input@, *old(cursor) as int, n as int, n as int, t) {
            Some((v, c)) => r == Some(v as u128) && *final(cursor) == *old(cursor) + c,
            None => r is None && *final(cursor) == *old(cursor),
        },
{
    n_to_m_digits(input, cursor, n, n, t)
}

/// Consume a numeric field of width `n` that may be padded as `padding`
/// says, and yield its value as an integer of type `t`. Unpadded, it takes
/// one to `n` digits; padded, as many pad bytes as stand there (at most
/// `n - 1`, so that at least one digit remains) and then exactly the digits
/// that fill the width.
pub fn exactly_n_digits_padded(input: &[u8], cursor: &mut usize, n: u8, padding: Padding, t: Integer) -> (r: Option<u128>)
    requires
        *old(cursor) <= input@.len(),
        padding == Padding::Unpadded ==> n >= 1,
    ensures
        match padded_spec(input@, *old(cursor) as int, n as int, padding, t) {
            Some((v, c)) => r == Some(v as u128) && *final(cursor) == *old(cursor) + c,
            None => r is None && *final(cursor) == *old(cursor),
        },
{
    match padding {
        Padding::Unpadded => n_to_m_digits(input, cursor, 1, n, t),
        _ => {
            let pad_char: u8 = if padding == Padding::Space { 32 } else { 48 };
            let max_pad: u8 = if n >= 1 { n - 1 } else { 0 };
            let mut scratch: usize = *cursor;
            let pad_width: u8 = match n_to_m(input, &mut scratch, 0, max_pad, Single::AsciiChar(pad_char)) {
                Some(span) => (span.end.byte - span.start.byte) as u8,
                None => 0,
            };
            match exactly_n_digits(input, &mut scratch, n - pad_width, t) {
                Some(v) => {
                    *cursor = scratch;
                    Some(v)
                },
                None => None,
            }
        },
    }
}

/// A zero-padded field of width `n` that holds only zeros is read as 0: the
/// first `n - 1` zeros are padding and the last is the digit.
pub proof fn lemma_zero_padded_all_zeros(s: Seq<u8>, pos: int, n: int, t: Integer)
    requires
        0 <= pos,
        1 <= n,
        pos + n <= s.len(),
        forall|k: int| pos <= k < pos + n ==> s[k] == 48,
        int_min(t) == 0,
    ensures
        padded_spec(s, pos, n, Padding::Zero, t) == Some((0int, n)),
{
    lemma_run_len_split(s, pos, n, Single::AsciiChar(48));
    let d = pos + n - 1;
    assert(step_ok(s, d, Single::AnyDigit));
    let digits = s.subrange(d, d + 1);
    assert(digits.drop_last() =~= Seq::<u8>::empty());
    assert(digits.last() == 48);
    assert(digits_value(digits.drop_last()) == 0);
    assert(digits_value(digits) == 0);
}

/// A space-padded field whose width holds only spaces has no digit and is
/// rejected; so is an unpadded field that does not start with a digit.
pub proof fn lemma_padding_without_digits_rejected(s: Seq<u8>, pos: int, n: int, padding: Padding, t: Integer)
    requires
        0 <= pos,
        1 <= n,
        pos + n <= s.len(),
        padding != Padding::Zero,
        padding == Padding::Unpadded ==> !step_ok(s, pos, Single::AnyDigit),
        padding == Padding::Space ==> forall|k: int| pos <= k < pos + n ==> s[k] == 32,
    ensures
        padded_spec(s, pos, n, padding, t) is None,
{
    if padding == Padding::Space {
        lemma_run_len_split(s, pos, n, Single::AsciiChar(32));
        assert(!step_ok(s, pos + n - 1, Single::AnyDigit));
    }
}

} // verus!
