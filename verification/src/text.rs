//! Characters, separators and numbers: what the replies of tmux are made of.

use vstd::prelude::*;
use vstd::utf8::{encode_scalar, encode_utf8};

verus! {

/// `String::push` of std: the character is appended to the end of the string.
pub assume_specification[ String::push ](s: &mut String, c: char)
    ensures
        final(s)@ == old(s)@.push(c),
;

// ---------------------------------------------------------------------------
// Splitting
// ---------------------------------------------------------------------------

/// The position of the first `sep` at or after `from`, or the length where there is none.
pub open spec fn next_separator(s: Seq<char>, sep: char, from: int) -> int
    decreases s.len() - from,
{
    if 0 <= from < s.len() {
        if s[from] == sep {
            from
        } else {
            next_separator(s, sep, from + 1)
        }
    } else {
        s.len() as int
    }
}

/// The pieces of `s` between the separators, from position `from` on. There is always one piece
/// more than there are separators, so an empty text has one (empty) piece.
pub open spec fn pieces_from(s: Seq<char>, sep: char, from: int) -> Seq<Seq<char>>
    decreases s.len() - from,
    when 0 <= from <= s.len()
    via pieces_from_decreases
{
    let end = next_separator(s, sep, from);
    if end < s.len() {
        seq![s.subrange(from, end)] + pieces_from(s, sep, end + 1)
    } else {
        seq![s.subrange(from, end)]
    }
}

#[via_fn]
proof fn pieces_from_decreases(s: Seq<char>, sep: char, from: int) {
    lemma_next_separator(s, sep, from);
}

/// All pieces of `s` between the separators.
pub open spec fn pieces(s: Seq<char>, sep: char) -> Seq<Seq<char>> {
    pieces_from(s, sep, 0)
}

/// `next_separator` is the first separator there is.
pub proof fn lemma_next_separator(s: Seq<char>, sep: char, from: int)
    requires
        0 <= from <= s.len(),
    ensures
        from <= next_separator(s, sep, from) <= s.len(),
        next_separator(s, sep, from) < s.len() ==> s[next_separator(s, sep, from)] == sep,
        forall|i: int| from <= i < next_separator(s, sep, from) ==> s[i] != sep,
    decreases s.len() - from,
{
    if from < s.len() && s[from] != sep {
        lemma_next_separator(s, sep, from + 1);
    }
}

/// The characters of a string.
pub fn chars_of(text: &str) -> (chars: Vec<char>)
    ensures
        chars@ == text@,
{
    let mut chars: Vec<char> = Vec::new();
    for c in it: text.chars()
        invariant
            it.seq() == text@,
            chars@ == text@.take(it.index()),
    {
        chars.push(c);
        assert(text@.take(it.index() + 1) == text@.take(it.index()).push(c));
    }
    assert(text@.take(text@.len() as int) == text@);
    chars
}

/// The string made of the given characters.
pub fn string_of(chars: &[char]) -> (text: String)
    ensures
        text@ == chars@,
{
    let mut text = String::new();
    let mut i: usize = 0;
    while i < chars.len()
        invariant
            i <= chars.len(),
            text@ == chars@.take(i as int),
        decreases chars.len() - i,
    {
        text.push(chars[i]);
        i = i + 1;
        assert(chars@.take(i as int) == chars@.take(i - 1).push(chars@[i - 1]));
    }
    assert(chars@.take(chars.len() as int) == chars@);
    text
}

/// Splits a text at every separator.
pub fn split<'a>(s: &'a [char], sep: char) -> (parts: Vec<&'a [char]>)
    ensures
        parts@.len() == pieces(s@, sep).len(),
        forall|i: int| 0 <= i < parts@.len() ==> #[trigger] parts@[i]@ == pieces(s@, sep)[i],
{
    let mut parts: Vec<&'a [char]> = Vec::new();
    let mut start: usize = 0;
    let mut end: usize = 0;
    while end < s.len()
        invariant
            start <= end <= s.len(),
            next_separator(s@, sep, start as int) == next_separator(s@, sep, end as int),
            pieces(s@, sep).len() == parts@.len() + pieces_from(s@, sep, start as int).len(),
            forall|i: int| 0 <= i < parts@.len() ==> #[trigger] parts@[i]@ == pieces(s@, sep)[i],
            pieces(s@, sep).skip(parts@.len() as int) == pieces_from(s@, sep, start as int),
        decreases s.len() - end,
    {
        if s[end] == sep {
            let ghost whole = pieces(s@, sep);
            let ghost done = parts@.len() as int;
            parts.push(vstd::slice::slice_subrange(s, start, end));
            proof {
                let rest = pieces_from(s@, sep, start as int);
                assert(whole.skip(done)[0] == rest[0]);
                assert(whole.skip(done + 1) == whole.skip(done).skip(1));
                assert(rest.skip(1) == pieces_from(s@, sep, end + 1));
            }
            start = end + 1;
        }
        end = end + 1;
    }
    proof {
        let rest = pieces_from(s@, sep, start as int);
        assert(pieces(s@, sep).skip(parts@.len() as int)[0] == rest[0]);
    }
    parts.push(vstd::slice::slice_subrange(s, start, end));
    parts
}

/// The parts put together again, with a separator between each two of them.
pub open spec fn joined(parts: Seq<Seq<char>>, sep: char) -> Seq<char>
    decreases parts.len(),
{
    if parts.len() == 0 {
        seq![]
    } else if parts.len() == 1 {
        parts[0]
    } else {
        parts[0] + seq![sep] + joined(parts.skip(1), sep)
    }
}

/// Splitting from a later position on is splitting what follows it.
proof fn lemma_pieces_shift(s: Seq<char>, sep: char, k: int, from: int)
    requires
        0 <= k <= from <= s.len(),
    ensures
        next_separator(s, sep, from) == next_separator(s.skip(k), sep, from - k) + k,
        pieces_from(s, sep, from) == pieces_from(s.skip(k), sep, from - k),
    decreases s.len() - from,
{
    let t = s.skip(k);
    lemma_separator_shift(s, sep, k, from);
    lemma_next_separator(s, sep, from);
    lemma_next_separator(t, sep, from - k);
    let end = next_separator(s, sep, from);
    assert(s.subrange(from, end) == t.subrange(from - k, end - k));
    if end < s.len() {
        lemma_pieces_shift(s, sep, k, end + 1);
    }
}

proof fn lemma_separator_shift(s: Seq<char>, sep: char, k: int, from: int)
    requires
        0 <= k <= from <= s.len(),
    ensures
        next_separator(s, sep, from) == next_separator(s.skip(k), sep, from - k) + k,
    decreases s.len() - from,
{
    if from < s.len() && s[from] != sep {
        lemma_separator_shift(s, sep, k, from + 1);
    }
}

proof fn lemma_separator_at(s: Seq<char>, sep: char, from: int, end: int)
    requires
        0 <= from <= end <= s.len(),
        forall|i: int| from <= i < end ==> s[i] != sep,
        end == s.len() || s[end] == sep,
    ensures
        next_separator(s, sep, from) == end,
    decreases end - from,
{
    if from < end {
        lemma_separator_at(s, sep, from + 1, end);
    }
}

/// A text that starts with a part and a separator splits into that part and the rest.
pub proof fn lemma_pieces_first(part: Seq<char>, sep: char, rest: Seq<char>)
    requires
        !part.contains(sep),
    ensures
        pieces(part + seq![sep] + rest, sep) == seq![part] + pieces(rest, sep),
{
    let s = part + seq![sep] + rest;
    let k = part.len() as int;
    assert forall|i: int| 0 <= i < k implies s[i] != sep by {
        assert(s[i] == part[i]);
    }
    lemma_separator_at(s, sep, 0, k);
    assert(s.subrange(0, k) == part);
    lemma_pieces_shift(s, sep, k + 1, k + 1);
    assert(s.skip(k + 1) == rest);
}

/// Splitting undoes joining, where no part has the separator in it.
pub proof fn law_split_undoes_join(parts: Seq<Seq<char>>, sep: char)
    requires
        parts.len() >= 1,
        forall|i: int| 0 <= i < parts.len() ==> !(#[trigger] parts[i]).contains(sep),
    ensures
        pieces(joined(parts, sep), sep) == parts,
    decreases parts.len(),
{
    if parts.len() == 1 {
        let s = parts[0];
        assert forall|i: int| 0 <= i < s.len() implies s[i] != sep by {
            assert(s.contains(s[i]));
        }
        lemma_separator_at(s, sep, 0, s.len() as int);
        assert(s.subrange(0, s.len() as int) == s);
        assert(pieces(s, sep) =~= parts);
    } else {
        let tail = parts.skip(1);
        assert forall|i: int| 0 <= i < tail.len() implies !(#[trigger] tail[i]).contains(sep) by {
            assert(!parts[i + 1].contains(sep));
        }
        law_split_undoes_join(tail, sep);
        lemma_pieces_first(parts[0], sep, joined(tail, sep));
        assert(seq![parts[0]] + tail =~= parts);
    }
}

/// Joining undoes splitting, and no piece has the separator in it.
pub proof fn law_join_undoes_split(s: Seq<char>, sep: char)
    ensures
        joined(pieces(s, sep), sep) == s,
        pieces(s, sep).len() >= 1,
        forall|i: int| 0 <= i < pieces(s, sep).len() ==> !(#[trigger] pieces(s, sep)[i]).contains(
            sep,
        ),
    decreases s.len(),
{
    lemma_next_separator(s, sep, 0);
    let k = next_separator(s, sep, 0);
    let part = s.subrange(0, k);
    let all = pieces(s, sep);
    assert(!part.contains(sep)) by {
        if part.contains(sep) {
            let i = choose|i: int| 0 <= i < part.len() && part[i] == sep;
            assert(s[i] == sep);
        }
    }
    if k < s.len() {
        let rest = s.skip(k + 1);
        lemma_pieces_shift(s, sep, k + 1, k + 1);
        law_join_undoes_split(rest, sep);
        assert(all == seq![part] + pieces(rest, sep));
        assert(all.skip(1) =~= pieces(rest, sep));
        assert(part + seq![sep] + rest =~= s);
        assert forall|i: int| 0 <= i < all.len() implies !(#[trigger] all[i]).contains(sep) by {
            if i > 0 {
                assert(all[i] == pieces(rest, sep)[i - 1]);
            }
        }
    } else {
        assert(part == s);
    }
}

// ---------------------------------------------------------------------------
// Numbers
// ---------------------------------------------------------------------------

/// Why a text is not an unsigned number.
#[derive(Debug, Clone, Copy, PartialEq, Eq, Structural)]
pub enum NumberError {
    /// There is no character at all.
    Empty,
    /// A character is not a decimal digit.
    InvalidDigit,
    /// The number is larger than the largest one allowed.
    PosOverflow,
}

/// The ten decimal digits.
pub open spec fn is_ascii_digit(c: char) -> bool {
    '0' <= c <= '9'
}

/// What a decimal digit is worth.
pub open spec fn digit_value(c: char) -> nat {
    (c as u32 - '0' as u32) as nat
}

/// The value of a run of decimal digits that must stay within `max`; the leftmost character that
/// is no digit, or that takes the value past `max`, decides the error.
pub open spec fn digits_value(s: Seq<char>, max: nat) -> Result<nat, NumberError>
    decreases s.len(),
{
    if s.len() == 0 {
        Ok(0)
    } else {
        match digits_value(s.drop_last(), max) {
            Err(e) => Err(e),
            Ok(v) => {
                if !is_ascii_digit(s.last()) {
                    Err(NumberError::InvalidDigit)
                } else if v * 10 + digit_value(s.last()) > max {
                    Err(NumberError::PosOverflow)
                } else {
                    Ok(v * 10 + digit_value(s.last()))
                }
            },
        }
    }
}

/// The value of an unsigned number of at most `max`: decimal digits, after a plus sign or none.
pub open spec fn number_value(s: Seq<char>, max: nat) -> Result<nat, NumberError> {
    if s.len() == 0 {
        Err(NumberError::Empty)
    } else if s[0] == '+' {
        if s.len() == 1 {
            Err(NumberError::InvalidDigit)
        } else {
            digits_value(s.skip(1), max)
        }
    } else {
        digits_value(s, max)
    }
}

/// An error in a prefix is the error of the whole.
proof fn lemma_digits_error(s: Seq<char>, max: nat, k: int)
    requires
        0 <= k <= s.len(),
        digits_value(s.take(k), max) is Err,
    ensures
        digits_value(s, max) == digits_value(s.take(k), max),
    decreases s.len(),
{
    if k < s.len() {
        assert(s.drop_last().take(k) == s.take(k));
        lemma_digits_error(s.drop_last(), max, k);
    } else {
        assert(s.take(k) == s);
    }
}

/// A text read in base ten, whatever its size.
pub open spec fn decimal_value(s: Seq<char>) -> nat
    decreases s.len(),
{
    if s.len() == 0 {
        0
    } else {
        decimal_value(s.drop_last()) * 10 + digit_value(s.last())
    }
}

/// A text of digits only stands for its base-ten value wherever that value is allowed; any other
/// text stands for nothing.
pub proof fn law_number_is_base_ten(s: Seq<char>, max: nat)
    ensures
        digits_value(s, max) is Ok <==> (forall|i: int|
            0 <= i < s.len() ==> is_ascii_digit(#[trigger] s[i])) && decimal_value(s) <= max,
        digits_value(s, max) is Ok ==> digits_value(s, max) == Ok::<nat, NumberError>(
            decimal_value(s),
        ),
    decreases s.len(),
{
    if s.len() > 0 {
        let front = s.drop_last();
        law_number_is_base_ten(front, max);
        assert(forall|i: int| 0 <= i < front.len() ==> front[i] == s[i]);
        if digits_value(front, max) is Ok {
            assert(forall|i: int| 0 <= i < front.len() ==> is_ascii_digit(#[trigger] s[i])) by {
                assert forall|i: int| 0 <= i < front.len() implies is_ascii_digit(#[trigger] s[i]) by {
                    assert(is_ascii_digit(front[i]));
                }
            }
        } else {
            if forall|i: int| 0 <= i < s.len() ==> is_ascii_digit(#[trigger] s[i]) {
                assert forall|i: int| 0 <= i < front.len() implies is_ascii_digit(#[trigger] front[i]) by {
                    assert(is_ascii_digit(s[i]));
                }
                assert(decimal_value(front) > max);
            }
        }
    }
}

/// Reads a run of decimal digits.
pub fn parse_digits(s: &[char], max: u64) -> (value: Result<u64, NumberError>)
    ensures
        match digits_value(s@, max as nat) {
            Ok(v) => value == Ok::<u64, NumberError>(v as u64),
            Err(e) => value == Err::<u64, NumberError>(e),
        },
        value matches Ok(v) ==> digits_value(s@, max as nat) == Ok::<nat, NumberError>(v as nat),
{
    let mut v: u64 = 0;
    let mut i: usize = 0;
    while i < s.len()
        invariant
            i <= s.len(),
            v <= max,
            digits_value(s@.take(i as int), max as nat) == Ok::<nat, NumberError>(v as nat),
        decreases s.len() - i,
    {
        let c = s[i];
        proof {
            let upto = s@.take(i + 1);
            assert(upto.drop_last() == s@.take(i as int));
            assert(upto.last() == c);
            if digits_value(upto, max as nat) is Err {
                lemma_digits_error(s@, max as nat, i + 1);
            }
        }
        if !('0' <= c && c <= '9') {
            return Err(NumberError::InvalidDigit);
        }
        let d: u64 = (c as u32 - '0' as u32) as u64;
        if v > (max / 10) {
            assert(v * 10 + d > max);
            return Err(NumberError::PosOverflow);
        }
        let tens: u64 = v * 10;
        if d > max - tens {
            return Err(NumberError::PosOverflow);
        }
        v = tens + d;
        i = i + 1;
    }
    assert(s@.take(s.len() as int) == s@);
    Ok(v)
}

/// Reads an unsigned number of at most `max`.
pub fn parse_number(s: &[char], max: u64) -> (value: Result<u64, NumberError>)
    ensures
        match number_value(s@, max as nat) {
            Ok(v) => value == Ok::<u64, NumberError>(v as u64),
            Err(e) => value == Err::<u64, NumberError>(e),
        },
        value matches Ok(v) ==> number_value(s@, max as nat) == Ok::<nat, NumberError>(v as nat),
{
    if s.len() == 0 {
        return Err(NumberError::Empty);
    }
    if s[0] == '+' {
        if s.len() == 1 {
            return Err(NumberError::InvalidDigit);
        }
        assert(s@.subrange(1, s.len() as int) == s@.skip(1));
        parse_digits(vstd::slice::slice_subrange(s, 1, s.len()), max)
    } else {
        parse_digits(s, max)
    }
}

// ---------------------------------------------------------------------------
// Wording
// ---------------------------------------------------------------------------

/// The character of a decimal digit.
pub open spec fn digit_char(d: nat) -> char {
    ('0' as u32 + d) as char
}

/// A number in base ten, without leading zeros.
pub open spec fn decimal(n: nat) -> Seq<char>
    decreases n,
{
    if n < 10 {
        seq![digit_char(n)]
    } else {
        decimal(n / 10).push(digit_char(n % 10))
    }
}

/// The character of a hexadecimal digit, in capitals.
pub open spec fn hex_char(d: nat) -> char {
    if d < 10 {
        digit_char(d)
    } else {
        ('A' as u32 + (d - 10)) as char
    }
}

/// A byte in base sixteen, in capitals, without a leading zero.
pub open spec fn hex(b: u8) -> Seq<char> {
    if b < 16 {
        seq![hex_char(b as nat)]
    } else {
        seq![hex_char((b / 16) as nat), hex_char((b % 16) as nat)]
    }
}

/// A number in base ten is made of digits, at least one, and reads back as itself.
pub proof fn law_decimal_reads_back(n: nat, max: nat)
    requires
        n <= max,
    ensures
        decimal(n).len() >= 1,
        forall|i: int| 0 <= i < decimal(n).len() ==> is_ascii_digit(#[trigger] decimal(n)[i]),
        digits_value(decimal(n), max) == Ok::<nat, NumberError>(n),
        number_value(decimal(n), max) == Ok::<nat, NumberError>(n),
    decreases n,
{
    reveal_with_fuel(digits_value, 2);
    if n < 10 {
        assert(decimal(n).drop_last() == Seq::<char>::empty());
    } else {
        law_decimal_reads_back(n / 10, max);
        assert(decimal(n).drop_last() == decimal(n / 10));
        assert(decimal(n).last() == digit_char(n % 10));
        assert forall|i: int| 0 <= i < decimal(n).len() implies is_ascii_digit(
            #[trigger] decimal(n)[i],
        ) by {
            if i < decimal(n / 10).len() {
                assert(decimal(n)[i] == decimal(n / 10)[i]);
            }
        }
    }
    assert(is_ascii_digit(decimal(n)[0]));
}

/// Whether a text is a number as it is usually written in base ten: digits that are worth it, and no
/// zero before them.
pub open spec fn is_decimal_of(s: Seq<char>, n: nat) -> bool {
    &&& s.len() >= 1
    &&& forall|i: int| 0 <= i < s.len() ==> is_ascii_digit(#[trigger] s[i])
    &&& decimal_value(s) == n
    &&& s.len() > 1 ==> s[0] != '0'
}

/// A number in base ten is written as usual.
pub proof fn law_decimal_is_as_usual(n: nat)
    ensures
        is_decimal_of(decimal(n), n),
    decreases n,
{
    law_decimal_reads_back(n, n);
    law_number_is_base_ten(decimal(n), n);
    lemma_decimal_leads(n);
}

proof fn lemma_decimal_leads(n: nat)
    ensures
        decimal(n).len() >= 1,
        decimal(n)[0] == '0' ==> n == 0,
    decreases n,
{
    if n >= 10 {
        lemma_decimal_leads(n / 10);
        assert(decimal(n)[0] == decimal(n / 10)[0]);
    }
}

/// Numbers that are written alike are the same.
pub proof fn law_decimals_differ(m: nat, n: nat)
    requires
        decimal(m) == decimal(n),
    ensures
        m == n,
{
    law_decimal_is_as_usual(m);
    law_decimal_is_as_usual(n);
}

/// A number may have a plus sign before it, which makes no difference; a plus sign alone, and no
/// text at all, is no number.
pub proof fn law_plus_sign_makes_no_difference(s: Seq<char>, max: nat)
    ensures
        s.len() > 0 && s[0] != '+' ==> number_value(seq!['+'] + s, max) == number_value(s, max),
        number_value(seq!['+'], max) == Err::<nat, NumberError>(NumberError::InvalidDigit),
        number_value(seq![], max) == Err::<nat, NumberError>(NumberError::Empty),
        number_value(seq!['+', '+'] + s, max) == Err::<nat, NumberError>(NumberError::InvalidDigit),
{
    assert((seq!['+'] + s).skip(1) =~= s);
    let twice = seq!['+', '+'] + s;
    let once = twice.skip(1);
    assert(once.take(1) =~= seq!['+']);
    assert(seq!['+'].drop_last() =~= seq![]);
    assert(digits_value(seq!['+'].drop_last(), max) == Ok::<nat, NumberError>(0));
    assert(digits_value(seq!['+'], max) == Err::<nat, NumberError>(NumberError::InvalidDigit));
    lemma_digits_error(once, max, 1);
}

/// A number is too large if its digits are worth more than is allowed up to some place, and only
/// digits stand up to there; it has an invalid digit if a character is no digit, and the digits
/// before it are not worth too much.
pub proof fn law_first_bad_digit_decides(s: Seq<char>, max: nat, k: int)
    requires
        0 <= k < s.len(),
        forall|i: int| 0 <= i < k ==> is_ascii_digit(#[trigger] s[i]),
        decimal_value(s.take(k)) <= max,
    ensures
        !is_ascii_digit(s[k]) ==> digits_value(s, max) == Err::<nat, NumberError>(
            NumberError::InvalidDigit,
        ),
        is_ascii_digit(s[k]) && decimal_value(s.take(k + 1)) > max ==> digits_value(s, max)
            == Err::<nat, NumberError>(NumberError::PosOverflow),
{
    let before = s.take(k);
    let upto = s.take(k + 1);
    assert forall|i: int| 0 <= i < before.len() implies is_ascii_digit(#[trigger] before[i]) by {
        assert(is_ascii_digit(s[i]));
    }
    law_number_is_base_ten(before, max);
    assert(upto.drop_last() =~= before);
    assert(upto.last() == s[k]);
    if digits_value(upto, max) is Err {
        lemma_digits_error(s, max, k + 1);
    }
}

/// Appends a number in base ten.
pub fn push_decimal(out: &mut String, n: u64)
    ensures
        final(out)@ == old(out)@ + decimal(n as nat),
    decreases n,
{
    if n >= 10 {
        push_decimal(out, n / 10);
    }
    let d: u8 = (n % 10) as u8;
    out.push((48u8 + d) as char);
}

/// The character of a hexadecimal digit.
fn hex_digit(d: u8) -> (c: char)
    requires
        d < 16,
    ensures
        c == hex_char(d as nat),
{
    if d < 10 {
        (48u8 + d) as char
    } else {
        (65u8 + (d - 10)) as char
    }
}

/// Appends a byte in base sixteen.
pub fn push_hex(out: &mut String, b: u8)
    ensures
        final(out)@ == old(out)@ + hex(b),
{
    if b >= 16 {
        out.push(hex_digit(b / 16));
    }
    out.push(hex_digit(b % 16));
}

// ---------------------------------------------------------------------------
// Byte offsets
// ---------------------------------------------------------------------------

/// How many bytes a character takes in UTF-8.
pub open spec fn utf8_width(c: char) -> nat {
    if (c as u32) < 0x80 {
        1
    } else if (c as u32) < 0x800 {
        2
    } else if (c as u32) < 0x10000 {
        3
    } else {
        4
    }
}

/// How many characters the first `n` bytes hold, where the `n`-th byte ends a character.
pub open spec fn chars_in_bytes(s: Seq<char>, n: nat) -> Option<nat>
    decreases s.len(),
{
    if n == 0 {
        Some(0)
    } else if s.len() == 0 || utf8_width(s[0]) > n {
        None
    } else {
        match chars_in_bytes(s.skip(1), (n - utf8_width(s[0])) as nat) {
            Some(k) => Some(k + 1),
            None => None,
        }
    }
}

/// What follows the first `n` bytes of a text, where they end with a character.
pub open spec fn after_bytes(s: Seq<char>, n: nat) -> Option<Seq<char>> {
    match chars_in_bytes(s, n) {
        Some(k) => Some(s.skip(k as int)),
        None => None,
    }
}

/// A text is cut within bounds, after as many bytes as asked for.
pub proof fn lemma_chars_in_bytes(s: Seq<char>, n: nat)
    ensures
        chars_in_bytes(s, n) matches Some(k) ==> k <= s.len() && k <= n,
        (n <= s.len() && (forall|i: int| 0 <= i < n ==> (#[trigger] s[i] as u32) < 0x80))
            ==> chars_in_bytes(s, n) == Some(n),
    decreases s.len(),
{
    if n != 0 && s.len() != 0 && utf8_width(s[0]) <= n {
        lemma_chars_in_bytes(s.skip(1), (n - utf8_width(s[0])) as nat);
    }
}

/// Drops the first `n` bytes of a text, where they end with a character.
pub fn skip_bytes<'a>(s: &'a [char], n: usize) -> (rest: Option<&'a [char]>)
    ensures
        rest is Some <==> after_bytes(s@, n as nat) is Some,
        rest matches Some(r) ==> after_bytes(s@, n as nat) == Some(r@),
{
    let mut left: usize = n;
    let mut i: usize = 0;
    proof {
        assert(s@.skip(0) == s@);
        lemma_chars_in_bytes(s@, n as nat);
    }
    while left > 0
        invariant
            i <= s.len(),
            match chars_in_bytes(s@.skip(i as int), left as nat) {
                Some(k) => chars_in_bytes(s@, n as nat) == Some((i + k) as nat),
                None => chars_in_bytes(s@, n as nat) is None,
            },
        decreases left,
    {
        if i >= s.len() {
            return None;
        }
        let c = s[i] as u32;
        let width: usize = if c < 0x80 {
            1
        } else if c < 0x800 {
            2
        } else if c < 0x10000 {
            3
        } else {
            4
        };
        if width > left {
            return None;
        }
        assert(s@.skip(i as int).skip(1) == s@.skip(i + 1));
        left = left - width;
        i = i + 1;
    }
    assert(s@.subrange(i as int, s.len() as int) == s@.skip(i as int));
    Some(vstd::slice::slice_subrange(s, i, s.len()))
}

/// A character takes as many bytes as it is encoded in.
proof fn lemma_char_width(c: char)
    ensures
        encode_scalar(c as u32).len() == utf8_width(c),
{
}

/// What is left of a text after so many bytes of its UTF-8 encoding is what stands behind the
/// characters that take up just these bytes; where no characters do, nothing is.
pub proof fn law_bytes_are_those_of_utf8(s: Seq<char>, n: nat, k: int)
    requires
        0 <= k <= s.len(),
    ensures
        encode_utf8(s.take(k)).len() == n ==> after_bytes(s, n) == Some(s.skip(k)),
        after_bytes(s, n) is Some ==> exists|j: int|
            0 <= j <= s.len() && #[trigger] encode_utf8(s.take(j)).len() == n,
    decreases s.len(),
{
    assert(s.take(0) =~= seq![]);
    if s.len() == 0 {
        assert(s.take(k) =~= seq![]);
        assert(encode_utf8(s.take(0)).len() == 0);
    } else {
        let rest = s.skip(1);
        let width = utf8_width(s[0]);
        assert forall|j: int| 0 < j <= s.len() implies #[trigger] encode_utf8(s.take(j)).len()
            == width + encode_utf8(rest.take(j - 1)).len() by {
            let t = s.take(j);
            assert(t[0] == s[0]);
            assert(t.drop_first() =~= rest.take(j - 1));
            lemma_char_width(s[0]);
            assert(encode_utf8(t) == encode_scalar(t[0] as u32) + encode_utf8(t.drop_first()));
        }
        if n == 0 {
            assert(encode_utf8(s.take(0)).len() == 0);
            assert(s.skip(0) =~= s);
        } else if width <= n {
            let m = (n - width) as nat;
            law_bytes_are_those_of_utf8(rest, m, if k > 0 {
                k - 1
            } else {
                0
            });
            if after_bytes(s, n) is Some {
                let j = choose|j: int|
                    0 <= j <= rest.len() && #[trigger] encode_utf8(rest.take(j)).len() == m;
                assert(encode_utf8(s.take(j + 1)).len() == n);
            }
            if k > 0 && encode_utf8(s.take(k)).len() == n {
                lemma_chars_in_bytes(rest, m);
                let c = chars_in_bytes(rest, m)->0;
                assert(s.skip((c + 1) as int) =~= rest.skip(c as int));
                assert(s.skip(k) =~= rest.skip(k - 1));
            }
        }
    }
}

} // verus!
