//! The SubRip grammar, stated over sequences of characters.
//!
//! Every rule is a specification function that consumes characters from the
//! front of its input and hands back the unread suffix together with the
//! decoded value, or the error that ends the whole parse. The executable
//! parser is proved to return exactly what these functions describe.

use vstd::prelude::*;
use crate::time::Time;

verus! {

/// Why a parse stopped. The first error encountered ends the whole parse;
/// no partial sequence of records is ever produced.
#[derive(Debug, Clone, Copy, PartialEq, Eq, Structural)]
pub enum SrtError {
    /// The index token is absent or is not a valid unsigned 32-bit integer.
    MalformedIndex,
    /// A timestamp token does not match the `digits ':' digits ':' digits
    /// ',' digits` grammar, or a field overflows its integer width.
    MalformedTimestamp,
    /// The separator between the two timestamps of a pair is not the
    /// literal `-->` surrounded by optional horizontal whitespace.
    MalformedArrow,
    /// An expected line terminator (`\n` or `\r\n`) is absent.
    MissingLineBreak,
    /// The input ends where a required token was expected.
    UnexpectedEndOfInput,
}

/// A decimal digit, `'0'` through `'9'`.
pub open spec fn is_digit(c: char) -> bool {
    '0' <= c && c <= '9'
}

/// The numeric value of a decimal digit.
pub open spec fn digit_val(c: char) -> nat {
    (c as int - '0' as int) as nat
}

/// Horizontal whitespace, as allowed around the `-->` separator.
pub open spec fn is_hspace(c: char) -> bool {
    c == ' ' || c == '\t'
}

/// The number of leading characters of `s` that satisfy `p`.
pub open spec fn run_len(s: Seq<char>, p: spec_fn(char) -> bool) -> nat
    decreases s.len(),
{
    if s.len() > 0 && p(s[0]) {
        (1 + run_len(s.skip(1), p)) as nat
    } else {
        0
    }
}

/// The value of a run of decimal digits read most-significant first.
pub open spec fn digits_val(s: Seq<char>) -> nat
    decreases s.len(),
{
    if s.len() == 0 {
        0
    } else {
        digits_val(s.drop_last()) * 10 + digit_val(s.last())
    }
}

/// Consumes the maximal run of decimal digits at the front of `s` and reads
/// it as a number. `None` when no digit is present or the value exceeds
/// `max`; a digit run exceeding the target width is a failure, never a
/// silent clamp.
pub open spec fn spec_parse_number(s: Seq<char>, max: nat) -> Option<(Seq<char>, nat)> {
    if s.len() > 0 && is_digit(s[0]) {
        let n = run_len(s, |c: char| is_digit(c));
        let v = digits_val(s.take(n as int));
        if v <= max {
            Some((s.skip(n as int), v))
        } else {
            None
        }
    } else {
        None
    }
}

/// A run of characters satisfying `p` is never longer than the input.
pub proof fn lemma_run_len_le(s: Seq<char>, p: spec_fn(char) -> bool)
    ensures
        run_len(s, p) <= s.len(),
    decreases s.len(),
{
    if s.len() > 0 && p(s[0]) {
        lemma_run_len_le(s.skip(1), p);
    }
}

/// `run_len` is exactly the first position whose character fails `p`
/// (or the whole input, when every character satisfies `p`).
pub proof fn lemma_run_len_is(s: Seq<char>, p: spec_fn(char) -> bool, k: int)
    requires
        0 <= k <= s.len(),
        forall|i: int| 0 <= i < k ==> p(s[i]),
        k == s.len() || !p(s[k]),
    ensures
        run_len(s, p) == k,
    decreases k,
{
    if k == 0 {
        assert(s.len() == 0 || !p(s[0]));
    } else {
        assert(p(s[0]));
        let t = s.skip(1);
        assert(forall|i: int| 0 <= i < k - 1 ==> p(#[trigger] t[i]));
        assert(k - 1 == t.len() || !p(t[k - 1]));
        lemma_run_len_is(t, p, k - 1);
    }
}

/// Reading more digits never shrinks the value: the value of a digit run is
/// at least the value of any of its prefixes.
pub proof fn lemma_digits_val_prefix(s: Seq<char>, k: int)
    requires
        0 <= k <= s.len(),
    ensures
        digits_val(s) >= digits_val(s.take(k)),
    decreases s.len() - k,
{
    if k == s.len() {
        assert(s.take(k) =~= s);
    } else {
        let t = s.take(k + 1);
        assert(t.drop_last() =~= s.take(k));
        assert(t.last() == s[k]);
        assert(digits_val(s.take(k + 1)) == digits_val(s.take(k)) * 10 + digit_val(s[k]));
        lemma_digits_val_prefix(s, k + 1);
    }
}

/// Consumes one line terminator, `\n` or `\r\n`.
pub open spec fn spec_parse_line_ending(s: Seq<char>) -> Result<Seq<char>, SrtError> {
    if s.len() == 0 {
        Err(SrtError::UnexpectedEndOfInput)
    } else if s[0] == '\n' {
        Ok(s.skip(1))
    } else if s[0] == '\r' && s.len() >= 2 && s[1] == '\n' {
        Ok(s.skip(2))
    } else {
        Err(SrtError::MissingLineBreak)
    }
}

/// Consumes one expected punctuation character of a timestamp token.
pub open spec fn spec_expect(s: Seq<char>, c: char) -> Result<Seq<char>, SrtError> {
    if s.len() == 0 {
        Err(SrtError::UnexpectedEndOfInput)
    } else if s[0] == c {
        Ok(s.skip(1))
    } else {
        Err(SrtError::MalformedTimestamp)
    }
}

/// The error for a number token that failed to parse: the input ran out, or
/// the token is malformed (`kind` names which token it was).
pub open spec fn number_err(s: Seq<char>, kind: SrtError) -> SrtError {
    if s.len() == 0 {
        SrtError::UnexpectedEndOfInput
    } else {
        kind
    }
}

/// One timestamp token, `digits ':' digits ':' digits ',' digits`. Each
/// digit run may be any width but must fit its field: hours, minutes and
/// seconds in eight bits, milliseconds in sixteen.
pub open spec fn spec_parse_time(s: Seq<char>) -> Result<(Seq<char>, Time), SrtError> {
    match spec_parse_number(s, 255) {
        None => Err(number_err(s, SrtError::MalformedTimestamp)),
        Some((s1, h)) => match spec_expect(s1, ':') {
            Err(e) => Err(e),
            Ok(s2) => match spec_parse_number(s2, 255) {
                None => Err(number_err(s2, SrtError::MalformedTimestamp)),
                Some((s3, m)) => match spec_expect(s3, ':') {
                    Err(e) => Err(e),
                    Ok(s4) => match spec_parse_number(s4, 255) {
                        None => Err(number_err(s4, SrtError::MalformedTimestamp)),
                        Some((s5, sec)) => match spec_expect(s5, ',') {
                            Err(e) => Err(e),
                            Ok(s6) => match spec_parse_number(s6, 65535) {
                                None => Err(number_err(s6, SrtError::MalformedTimestamp)),
                                Some((s7, ms)) => Ok(
                                    (
                                        s7,
                                        Time {
                                            hours: h as u8,
                                            minutes: m as u8,
                                            seconds: sec as u8,
                                            milliseconds: ms as u16,
                                        },
                                    ),
                                ),
                            },
                        },
                    },
                },
            },
        },
    }
}

/// The separator between the two timestamps of a pair: zero or more
/// horizontal whitespace characters, the literal `-->`, then zero or more
/// horizontal whitespace characters.
pub open spec fn spec_parse_arrow(s: Seq<char>) -> Result<Seq<char>, SrtError> {
    let s1 = s.skip(run_len(s, |c: char| is_hspace(c)) as int);
    if s1.len() == 0 {
        Err(SrtError::UnexpectedEndOfInput)
    } else if s1.len() >= 3 && s1[0] == '-' && s1[1] == '-' && s1[2] == '>' {
        let s2 = s1.skip(3);
        Ok(s2.skip(run_len(s2, |c: char| is_hspace(c)) as int))
    } else {
        Err(SrtError::MalformedArrow)
    }
}

/// A timestamp pair, `start --> end`. No ordering between the two times is
/// checked.
pub open spec fn spec_parse_time_range(s: Seq<char>) -> Result<(Seq<char>, (Time, Time)), SrtError> {
    match spec_parse_time(s) {
        Err(e) => Err(e),
        Ok((s1, start)) => match spec_parse_arrow(s1) {
            Err(e) => Err(e),
            Ok(s2) => match spec_parse_time(s2) {
                Err(e) => Err(e),
                Ok((s3, end)) => Ok((s3, (start, end))),
            },
        },
    }
}

/// A blank-line terminator starts at position `i`: a line ending followed
/// immediately by another of the same style, `\n\n` or `\r\n\r\n`.
pub open spec fn blank_line_at(s: Seq<char>, i: int) -> bool {
    ||| (i + 2 <= s.len() && s[i] == '\n' && s[i + 1] == '\n')
    ||| (i + 4 <= s.len() && s[i] == '\r' && s[i + 1] == '\n' && s[i + 2] == '\r' && s[i + 3]
        == '\n')
}

/// The position of the first blank-line terminator at or after `i`, if any.
pub open spec fn terminator_from(s: Seq<char>, i: int) -> Option<int>
    decreases s.len() - i when 0 <= i <= s.len()
{
    if i >= s.len() {
        None
    } else if blank_line_at(s, i) {
        Some(i)
    } else {
        terminator_from(s, i + 1)
    }
}

/// The caption text span: everything up to the first blank-line terminator,
/// which is consumed from the input but excluded from the text. When no
/// terminator exists, the whole input is the text of the last block.
/// Returns `(unread input, raw text)`. This rule cannot fail.
pub open spec fn spec_take_text(s: Seq<char>) -> (Seq<char>, Seq<char>) {
    match terminator_from(s, 0) {
        Some(i) => if s[i] == '\n' {
            (s.skip(i + 2), s.take(i))
        } else {
            (s.skip(i + 4), s.take(i))
        },
        None => (Seq::empty(), s),
    }
}

/// A whitespace character, as trimmed from the ends of caption text: the
/// Unicode `White_Space` set.
pub open spec fn is_space(c: char) -> bool {
    ||| c == ' '
    ||| ('\u{0009}' <= c && c <= '\u{000D}')
    ||| c == '\u{0085}'
    ||| c == '\u{00A0}'
    ||| c == '\u{1680}'
    ||| ('\u{2000}' <= c && c <= '\u{200A}')
    ||| c == '\u{2028}'
    ||| c == '\u{2029}'
    ||| c == '\u{202F}'
    ||| c == '\u{205F}'
    ||| c == '\u{3000}'
}

/// `s` without its leading whitespace.
pub open spec fn trim_start(s: Seq<char>) -> Seq<char>
    decreases s.len(),
{
    if s.len() > 0 && is_space(s[0]) {
        trim_start(s.skip(1))
    } else {
        s
    }
}

/// `s` without its trailing whitespace.
pub open spec fn trim_end(s: Seq<char>) -> Seq<char>
    decreases s.len(),
{
    if s.len() > 0 && is_space(s.last()) {
        trim_end(s.drop_last())
    } else {
        s
    }
}

/// `s` without leading and trailing whitespace; interior characters are
/// kept verbatim, line breaks included.
pub open spec fn spec_trim(s: Seq<char>) -> Seq<char> {
    trim_end(trim_start(s))
}

/// One decoded caption record, at the specification level: the caption
/// text is a sequence of characters rather than an owned string.
pub ghost struct SpecSubTitle {
    /// The sequence number exactly as it appeared in the source.
    pub index: u32,
    /// When the caption appears.
    pub start: Time,
    /// When the caption disappears.
    pub end: Time,
    /// The caption body, outer whitespace trimmed, inner line breaks kept.
    pub text: Seq<char>,
}

/// One subtitle block: an index line, a timestamp-pair line, then the
/// caption text up to a blank line or the end of the input.
pub open spec fn spec_parse_block(s: Seq<char>) -> Result<(Seq<char>, SpecSubTitle), SrtError> {
    match spec_parse_number(s, u32::MAX as nat) {
        None => Err(number_err(s, SrtError::MalformedIndex)),
        Some((s1, idx)) => match spec_parse_line_ending(s1) {
            Err(e) => Err(e),
            Ok(s2) => match spec_parse_time_range(s2) {
                Err(e) => Err(e),
                Ok((s3, times)) => match spec_parse_line_ending(s3) {
                    Err(e) => Err(e),
                    Ok(s4) => {
                        let (s5, raw) = spec_take_text(s4);
                        Ok(
                            (
                                s5,
                                SpecSubTitle {
                                    index: idx as u32,
                                    start: times.0,
                                    end: times.1,
                                    text: spec_trim(raw),
                                },
                            ),
                        )
                    },
                },
            },
        },
    }
}

/// Zero or more blocks, until the input is exhausted. The first failing
/// block fails the whole sequence.
pub open spec fn spec_parse_blocks(s: Seq<char>) -> Result<Seq<SpecSubTitle>, SrtError>
    decreases s.len(),
{
    if s.len() == 0 {
        Ok(Seq::empty())
    } else {
        match spec_parse_block(s) {
            Err(e) => Err(e),
            Ok((rest, sub)) => if rest.len() < s.len() {
                match spec_parse_blocks(rest) {
                    Err(e) => Err(e),
                    Ok(tail) => Ok(seq![sub] + tail),
                }
            } else {
                // A block always consumes at least its index digit, so this
                // branch is unreachable; it only justifies termination.
                Err(SrtError::UnexpectedEndOfInput)
            },
        }
    }
}

/// The byte-order marker code point, stripped once if present.
pub open spec fn spec_strip_bom(s: Seq<char>) -> Seq<char> {
    if s.len() > 0 && s[0] == '\u{FEFF}' {
        s.skip(1)
    } else {
        s
    }
}

/// A whole document: an optional byte-order marker, then blocks until the
/// input is exhausted. Either every block decodes and the records come in
/// source order, or the first failure is the result.
pub open spec fn spec_parse_document(s: Seq<char>) -> Result<Seq<SpecSubTitle>, SrtError> {
    spec_parse_blocks(spec_strip_bom(s))
}

/// A number token consumes at least one character.
pub proof fn lemma_number_consumes(s: Seq<char>, max: nat)
    ensures
        spec_parse_number(s, max) matches Some(pr) ==> pr.0.len() < s.len(),
{
    if s.len() > 0 && is_digit(s[0]) {
        lemma_run_len_le(s, |c: char| is_digit(c));
    }
}

/// A timestamp token consumes at least one character.
pub proof fn lemma_time_consumes(s: Seq<char>)
    ensures
        spec_parse_time(s) matches Ok(pr) ==> pr.0.len() < s.len(),
{
    lemma_number_consumes(s, 255);
    if let Some((s1, _)) = spec_parse_number(s, 255) {
        if let Ok(s2) = spec_expect(s1, ':') {
            lemma_number_consumes(s2, 255);
            if let Some((s3, _)) = spec_parse_number(s2, 255) {
                if let Ok(s4) = spec_expect(s3, ':') {
                    lemma_number_consumes(s4, 255);
                    if let Some((s5, _)) = spec_parse_number(s4, 255) {
                        if let Ok(s6) = spec_expect(s5, ',') {
                            lemma_number_consumes(s6, 65535);
                        }
                    }
                }
            }
        }
    }
}

/// The arrow separator never hands back more than it was given.
pub proof fn lemma_arrow_consumes(s: Seq<char>)
    ensures
        spec_parse_arrow(s) matches Ok(r) ==> r.len() <= s.len(),
{
    lemma_run_len_le(s, |c: char| is_hspace(c));
    let s1 = s.skip(run_len(s, |c: char| is_hspace(c)) as int);
    if s1.len() >= 3 && s1[0] == '-' && s1[1] == '-' && s1[2] == '>' {
        let s2 = s1.skip(3);
        lemma_run_len_le(s2, |c: char| is_hspace(c));
    }
}

/// A timestamp pair consumes at least one character.
pub proof fn lemma_time_range_consumes(s: Seq<char>)
    ensures
        spec_parse_time_range(s) matches Ok(pr) ==> pr.0.len() < s.len(),
{
    lemma_time_consumes(s);
    if let Ok((s1, _)) = spec_parse_time(s) {
        lemma_arrow_consumes(s1);
        if let Ok(s2) = spec_parse_arrow(s1) {
            lemma_time_consumes(s2);
        }
    }
}

/// A terminator found at or after `i` lies at or after `i` and really is a
/// blank line.
pub proof fn lemma_terminator_bounds(s: Seq<char>, i: int)
    requires
        0 <= i <= s.len(),
    ensures
        terminator_from(s, i) matches Some(j) ==> i <= j && blank_line_at(s, j),
    decreases s.len() - i,
{
    if i < s.len() && !blank_line_at(s, i) {
        lemma_terminator_bounds(s, i + 1);
    }
}

/// The text rule never hands back more than it was given.
pub proof fn lemma_take_text_le(s: Seq<char>)
    ensures
        spec_take_text(s).0.len() <= s.len(),
{
    lemma_terminator_bounds(s, 0);
}

/// `terminator_from` finds exactly the first blank-line terminator: a scan
/// that saw none before `j` and one at `j` ends at `j`.
pub proof fn lemma_terminator_found(t: Seq<char>, a: int, j: int)
    requires
        0 <= a <= j,
        blank_line_at(t, j),
        forall|i: int| a <= i < j ==> !blank_line_at(t, i),
    ensures
        terminator_from(t, a) == Some(j),
    decreases j - a,
{
    if a < j {
        lemma_terminator_found(t, a + 1, j);
    }
}

/// A scan that saw no blank-line terminator anywhere finds none.
pub proof fn lemma_terminator_none(t: Seq<char>, a: int)
    requires
        0 <= a <= t.len(),
        forall|i: int| a <= i < t.len() ==> !blank_line_at(t, i),
    ensures
        terminator_from(t, a) is None,
    decreases t.len() - a,
{
    if a < t.len() {
        lemma_terminator_none(t, a + 1);
    }
}

/// `trim_start` removes exactly the maximal whitespace prefix.
pub proof fn lemma_trim_start_is(t: Seq<char>, k: int)
    requires
        0 <= k <= t.len(),
        forall|i: int| 0 <= i < k ==> is_space(t[i]),
        k == t.len() || !is_space(t[k]),
    ensures
        trim_start(t) == t.skip(k),
    decreases k,
{
    if k == 0 {
        assert(t.skip(0) =~= t);
    } else {
        let u = t.skip(1);
        assert(forall|i: int| 0 <= i < k - 1 ==> is_space(#[trigger] u[i]));
        assert(k - 1 == u.len() || !is_space(u[k - 1]));
        lemma_trim_start_is(u, k - 1);
        assert(u.skip(k - 1) =~= t.skip(k));
    }
}

/// `trim_end` removes exactly the maximal whitespace suffix.
pub proof fn lemma_trim_end_is(t: Seq<char>, k: int)
    requires
        0 <= k <= t.len(),
        forall|i: int| k <= i < t.len() ==> is_space(t[i]),
        k == 0 || !is_space(t[k - 1]),
    ensures
        trim_end(t) == t.take(k),
    decreases t.len() - k,
{
    if k == t.len() {
        assert(t.take(k) =~= t);
    } else {
        assert(is_space(t.last()));
        let u = t.drop_last();
        assert(forall|i: int| k <= i < u.len() ==> is_space(#[trigger] u[i]));
        lemma_trim_end_is(u, k);
        assert(u.take(k) =~= t.take(k));
    }
}

/// A block consumes at least one character, so a sequence of blocks always
/// makes progress.
pub proof fn lemma_block_consumes(s: Seq<char>)
    ensures
        spec_parse_block(s) matches Ok(pr) ==> pr.0.len() < s.len(),
{
    lemma_number_consumes(s, u32::MAX as nat);
    if let Some((s1, _)) = spec_parse_number(s, u32::MAX as nat) {
        if let Ok(s2) = spec_parse_line_ending(s1) {
            lemma_time_range_consumes(s2);
            if let Ok((s3, _)) = spec_parse_time_range(s2) {
                if let Ok(s4) = spec_parse_line_ending(s3) {
                    lemma_take_text_le(s4);
                }
            }
        }
    }
}

} // verus!
