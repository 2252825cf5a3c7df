//! The executable recursive-descent parser, one function per grammar rule.
//!
//! Each function takes the whole input together with the position of the
//! next unread character, and is proved to return exactly what the
//! corresponding rule in [`crate::grammar`] describes for the unread
//! suffix of the input.

use vstd::prelude::*;
use vstd::string::StrSliceExecFns;
use crate::grammar::{
    is_digit, is_hspace, is_space, spec_parse_number, run_len, SrtError, SpecSubTitle,
    lemma_run_len_is, lemma_digits_val_prefix,
};
use crate::grammar::{
    digits_val, number_err, spec_expect, spec_parse_arrow, spec_parse_line_ending,
    spec_parse_time, spec_parse_time_range,
};
use crate::grammar::{
    blank_line_at, lemma_terminator_found, lemma_terminator_none, lemma_trim_end_is,
    lemma_trim_start_is, spec_parse_block, spec_take_text, spec_trim,
};
use crate::grammar::{
    lemma_block_consumes, spec_parse_blocks, spec_parse_document, spec_strip_bom,
};
use crate::time::Time;

verus! {

/// One caption cue: the sequence number exactly as it appeared in the
/// source (never renumbered), the two timeline points, and the caption
/// body with outer whitespace trimmed and inner line breaks kept.
#[derive(Debug, Clone)]
pub struct SubTitle {
    pub index: u32,
    pub start: Time,
    pub end: Time,
    pub text: String,
}

impl View for SubTitle {
    type V = SpecSubTitle;

    open spec fn view(&self) -> SpecSubTitle {
        SpecSubTitle {
            index: self.index,
            start: self.start,
            end: self.end,
            text: self.text@,
        }
    }
}

/// Whether the character at position `i` is a decimal digit.
fn is_digit_at(s: &str, i: usize) -> (b: bool)
    requires
        i < s@.len(),
    ensures
        b == is_digit(s@[i as int]),
{
    let c = s.get_char(i);
    '0' <= c && c <= '9'
}

/// Reads the maximal digit run at `pos` as a number no greater than `max`.
/// `None` when no digit is present or the run's value exceeds `max`.
fn parse_number(s: &str, pos: usize, max: u64) -> (r: Option<(usize, u64)>)
    requires
        pos <= s@.len(),
        max <= u32::MAX as u64,
    ensures
        match r {
            Some((p, v)) => {
                &&& pos < p <= s@.len()
                &&& v <= max
                &&& spec_parse_number(s@.skip(pos as int), max as nat) == Some(
                    (s@.skip(p as int), v as nat),
                )
            },
            None => spec_parse_number(s@.skip(pos as int), max as nat) is None,
        },
{
    let ghost rem = s@.skip(pos as int);
    let len = s.unicode_len();
    if pos == len {
        return None;
    }
    if !is_digit_at(s, pos) {
        assert(rem[0] == s@[pos as int]);
        return None;
    }
    let mut end = pos + 1;
    while end < len && is_digit_at(s, end)
        invariant
            pos < end <= len,
            len == s@.len(),
            forall|i: int| pos <= i < end ==> is_digit(s@[i]),
        decreases len - end,
    {
        end = end + 1;
    }
    proof {
        assert(forall|i: int| 0 <= i < end - pos ==> is_digit(#[trigger] rem[i]));
        assert(end - pos == rem.len() || !is_digit(rem[end - pos]));
        lemma_run_len_is(rem, |c: char| is_digit(c), end - pos);
    }
    let ghost run = s@.subrange(pos as int, end as int);
    assert(rem.take(end - pos) =~= run);
    let mut acc: u64 = 0;
    let mut i = pos;
    while i < end
        invariant
            pos <= i <= end <= len,
            len == s@.len(),
            max <= u32::MAX as u64,
            end == pos + run_len(s@.skip(pos as int), |c: char| is_digit(c)),
            run == s@.subrange(pos as int, end as int),
            forall|j: int| pos <= j < end ==> is_digit(s@[j]),
            acc <= max,
            acc as nat == digits_val(s@.subrange(pos as int, i as int)),
        decreases end - i,
    {
        let c = s.get_char(i);
        let d = (c as u32 - 48) as u64;
        let next = acc * 10 + d;
        proof {
            let t = s@.subrange(pos as int, i + 1 as int);
            assert(t.drop_last() =~= s@.subrange(pos as int, i as int));
            assert(t.last() == s@[i as int]);
        }
        if next > max {
            proof {
                lemma_digits_val_prefix(run, i + 1 - pos);
                assert(run.take(i + 1 - pos) =~= s@.subrange(pos as int, i + 1 as int));
                let tail = s@.skip(pos as int);
                assert(is_digit(tail[0]));
                assert(tail.take(end - pos) =~= run);
                assert(digits_val(run) > max);
            }
            return None;
        }
        acc = next;
        i = i + 1;
    }
    proof {
        assert(rem.skip(end - pos) =~= s@.skip(end as int));
        assert(spec_parse_number(rem, max as nat) == Some((s@.skip(end as int), acc as nat)));
    }
    Some((end, acc))
}

/// The error for a failed number token at `pos`: the input ran out, or the
/// token named by `kind` is malformed.
fn num_err_at(s: &str, pos: usize, kind: SrtError) -> (e: SrtError)
    requires
        pos <= s@.len(),
    ensures
        e == number_err(s@.skip(pos as int), kind),
{
    if pos == s.unicode_len() {
        SrtError::UnexpectedEndOfInput
    } else {
        kind
    }
}

/// Consumes one line terminator at `pos`: `\n` or `\r\n`.
fn line_ending(s: &str, pos: usize) -> (r: Result<usize, SrtError>)
    requires
        pos <= s@.len(),
    ensures
        match r {
            Ok(p) => {
                &&& pos < p <= s@.len()
                &&& spec_parse_line_ending(s@.skip(pos as int)) == Ok::<Seq<char>, SrtError>(
                    s@.skip(p as int),
                )
            },
            Err(e) => spec_parse_line_ending(s@.skip(pos as int)) == Err::<Seq<char>, SrtError>(e),
        },
{
    let ghost rem = s@.skip(pos as int);
    let len = s.unicode_len();
    if pos == len {
        return Err(SrtError::UnexpectedEndOfInput);
    }
    let c = s.get_char(pos);
    if c == '\n' {
        proof {
            assert(rem.skip(1) =~= s@.skip(pos + 1));
        }
        Ok(pos + 1)
    } else if c == '\r' && pos + 1 < len {
        if s.get_char(pos + 1) == '\n' {
            proof {
                assert(rem.skip(2) =~= s@.skip(pos + 2));
            }
            Ok(pos + 2)
        } else {
            Err(SrtError::MissingLineBreak)
        }
    } else {
        Err(SrtError::MissingLineBreak)
    }
}

/// Consumes the expected punctuation character `c` at `pos`.
fn expect_char(s: &str, pos: usize, c: char) -> (r: Result<usize, SrtError>)
    requires
        pos <= s@.len(),
    ensures
        match r {
            Ok(p) => {
                &&& pos < p <= s@.len()
                &&& spec_expect(s@.skip(pos as int), c) == Ok::<Seq<char>, SrtError>(
                    s@.skip(p as int),
                )
            },
            Err(e) => spec_expect(s@.skip(pos as int), c) == Err::<Seq<char>, SrtError>(e),
        },
{
    let ghost rem = s@.skip(pos as int);
    let len = s.unicode_len();
    if pos == len {
        Err(SrtError::UnexpectedEndOfInput)
    } else if s.get_char(pos) == c {
        proof {
            assert(rem.skip(1) =~= s@.skip(pos + 1));
        }
        Ok(pos + 1)
    } else {
        Err(SrtError::MalformedTimestamp)
    }
}

/// Whether the character at position `i` is horizontal whitespace.
fn is_hspace_at(s: &str, i: usize) -> (b: bool)
    requires
        i < s@.len(),
    ensures
        b == is_hspace(s@[i as int]),
{
    let c = s.get_char(i);
    c == ' ' || c == '\t'
}

/// Skips the maximal run of horizontal whitespace at `pos`.
fn skip_hspace(s: &str, pos: usize) -> (p: usize)
    requires
        pos <= s@.len(),
    ensures
        pos <= p <= s@.len(),
        p - pos == run_len(s@.skip(pos as int), |c: char| is_hspace(c)),
        s@.skip(p as int) == s@.skip(pos as int).skip(
            run_len(s@.skip(pos as int), |c: char| is_hspace(c)) as int,
        ),
{
    let ghost rem = s@.skip(pos as int);
    let len = s.unicode_len();
    let mut p = pos;
    while p < len && is_hspace_at(s, p)
        invariant
            pos <= p <= len,
            len == s@.len(),
            forall|i: int| pos <= i < p ==> is_hspace(s@[i]),
        decreases len - p,
    {
        p = p + 1;
    }
    proof {
        assert(forall|i: int| 0 <= i < p - pos ==> is_hspace(#[trigger] rem[i]));
        assert(p - pos == rem.len() || !is_hspace(rem[p - pos]));
        lemma_run_len_is(rem, |c: char| is_hspace(c), p - pos);
        assert(rem.skip(p - pos) =~= s@.skip(p as int));
    }
    p
}

/// Decodes one timestamp token, `digits ':' digits ':' digits ',' digits`,
/// at `pos`.
pub fn one_time(s: &str, pos: usize) -> (r: Result<(usize, Time), SrtError>)
    requires
        pos <= s@.len(),
    ensures
        match r {
            Ok((p, t)) => {
                &&& pos < p <= s@.len()
                &&& spec_parse_time(s@.skip(pos as int)) == Ok::<(Seq<char>, Time), SrtError>(
                    (s@.skip(p as int), t),
                )
            },
            Err(e) => spec_parse_time(s@.skip(pos as int)) == Err::<(Seq<char>, Time), SrtError>(e),
        },
{
    let (p1, h) = match parse_number(s, pos, 255) {
        Some(x) => x,
        None => return Err(num_err_at(s, pos, SrtError::MalformedTimestamp)),
    };
    let p2 = match expect_char(s, p1, ':') {
        Ok(p) => p,
        Err(e) => return Err(e),
    };
    let (p3, m) = match parse_number(s, p2, 255) {
        Some(x) => x,
        None => return Err(num_err_at(s, p2, SrtError::MalformedTimestamp)),
    };
    let p4 = match expect_char(s, p3, ':') {
        Ok(p) => p,
        Err(e) => return Err(e),
    };
    let (p5, sec) = match parse_number(s, p4, 255) {
        Some(x) => x,
        None => return Err(num_err_at(s, p4, SrtError::MalformedTimestamp)),
    };
    let p6 = match expect_char(s, p5, ',') {
        Ok(p) => p,
        Err(e) => return Err(e),
    };
    let (p7, ms) = match parse_number(s, p6, 65535) {
        Some(x) => x,
        None => return Err(num_err_at(s, p6, SrtError::MalformedTimestamp)),
    };
    Ok(
        (
            p7,
            Time {
                hours: h as u8,
                minutes: m as u8,
                seconds: sec as u8,
                milliseconds: ms as u16,
            },
        ),
    )
}

/// Consumes the arrow separator at `pos`: optional horizontal whitespace,
/// the literal `-->`, optional horizontal whitespace.
fn parse_arrow(s: &str, pos: usize) -> (r: Result<usize, SrtError>)
    requires
        pos <= s@.len(),
    ensures
        match r {
            Ok(p) => {
                &&& pos <= p <= s@.len()
                &&& spec_parse_arrow(s@.skip(pos as int)) == Ok::<Seq<char>, SrtError>(
                    s@.skip(p as int),
                )
            },
            Err(e) => spec_parse_arrow(s@.skip(pos as int)) == Err::<Seq<char>, SrtError>(e),
        },
{
    let ghost rem = s@.skip(pos as int);
    let len = s.unicode_len();
    let p1 = skip_hspace(s, pos);
    let ghost s1 = rem.skip(run_len(rem, |c: char| is_hspace(c)) as int);
    assert(s1 == s@.skip(p1 as int));
    if p1 == len {
        return Err(SrtError::UnexpectedEndOfInput);
    }
    if len - p1 >= 3 && s.get_char(p1) == '-' && s.get_char(p1 + 1) == '-' && s.get_char(p1 + 2)
        == '>' {
        proof {
            assert(s1.len() >= 3 && s1[0] == '-' && s1[1] == '-' && s1[2] == '>');
            assert(s1.skip(3) =~= s@.skip(p1 + 3));
        }
        let p2 = skip_hspace(s, p1 + 3);
        Ok(p2)
    } else {
        proof {
            assert(!(s1.len() >= 3 && s1[0] == '-' && s1[1] == '-' && s1[2] == '>'));
        }
        Err(SrtError::MalformedArrow)
    }
}

/// Decodes one timestamp-pair line, `start --> end`, at `pos`.
pub fn time_and_arrow(s: &str, pos: usize) -> (r: Result<(usize, (Time, Time)), SrtError>)
    requires
        pos <= s@.len(),
    ensures
        match r {
            Ok((p, times)) => {
                &&& pos < p <= s@.len()
                &&& spec_parse_time_range(s@.skip(pos as int)) == Ok::<
                    (Seq<char>, (Time, Time)),
                    SrtError,
                >((s@.skip(p as int), times))
            },
            Err(e) => spec_parse_time_range(s@.skip(pos as int)) == Err::<
                (Seq<char>, (Time, Time)),
                SrtError,
            >(e),
        },
{
    let (p1, start) = match one_time(s, pos) {
        Ok(x) => x,
        Err(e) => return Err(e),
    };
    let p2 = match parse_arrow(s, p1) {
        Ok(p) => p,
        Err(e) => return Err(e),
    };
    let (p3, end) = match one_time(s, p2) {
        Ok(x) => x,
        Err(e) => return Err(e),
    };
    Ok((p3, (start, end)))
}

/// Finds the caption text span starting at `pos`: everything up to the
/// first blank-line terminator (`\n\n` or `\r\n\r\n`), or the rest of the
/// input when no terminator exists. Returns `(next unread position, end of
/// the raw text span)`; the terminator lies between the two and is
/// consumed but is no part of the text.
pub fn until_empty_newline(s: &str, pos: usize) -> (r: (usize, usize))
    requires
        pos <= s@.len(),
    ensures
        ({
            let tt = spec_take_text(s@.skip(pos as int));
            &&& pos <= r.1 <= s@.len()
            &&& r.1 <= r.0 <= s@.len()
            &&& tt.1 == s@.subrange(pos as int, r.1 as int)
            &&& tt.0 == s@.skip(r.0 as int)
        }),
{
    let ghost rem = s@.skip(pos as int);
    let len = s.unicode_len();
    let mut p = pos;
    while p < len
        invariant
            pos <= p <= len,
            len == s@.len(),
            rem == s@.skip(pos as int),
            forall|i: int| 0 <= i < p - pos ==> !blank_line_at(rem, i),
        decreases len - p,
    {
        let c = s.get_char(p);
        if c == '\n' && p + 1 < len {
            if s.get_char(p + 1) == '\n' {
                proof {
                    assert(blank_line_at(rem, p - pos));
                    lemma_terminator_found(rem, 0, p - pos);
                    assert(rem.take(p - pos) =~= s@.subrange(pos as int, p as int));
                    assert(rem.skip(p - pos + 2) =~= s@.skip(p + 2));
                }
                return (p + 2, p);
            }
        }
        if c == '\r' && len - p > 3 {
            if s.get_char(p + 1) == '\n' && s.get_char(p + 2) == '\r' && s.get_char(p + 3)
                == '\n' {
                proof {
                    assert(blank_line_at(rem, p - pos));
                    lemma_terminator_found(rem, 0, p - pos);
                    assert(rem.take(p - pos) =~= s@.subrange(pos as int, p as int));
                    assert(rem.skip(p - pos + 4) =~= s@.skip(p + 4));
                }
                return (p + 4, p);
            }
        }
        proof {
            assert(rem[p - pos] == s@[p as int]);
            assert(!blank_line_at(rem, p - pos));
        }
        p = p + 1;
    }
    proof {
        lemma_terminator_none(rem, 0);
        assert(rem =~= s@.subrange(pos as int, len as int));
        assert(spec_take_text(rem).0 =~= s@.skip(len as int));
    }
    (len, len)
}

/// Whether the character at position `i` is whitespace.
fn is_space_at(s: &str, i: usize) -> (b: bool)
    requires
        i < s@.len(),
    ensures
        b == is_space(s@[i as int]),
{
    let c = s.get_char(i);
    c == ' ' || ('\u{0009}' <= c && c <= '\u{000D}') || c == '\u{0085}' || c == '\u{00A0}' || c
        == '\u{1680}' || ('\u{2000}' <= c && c <= '\u{200A}') || c == '\u{2028}' || c == '\u{2029}'
        || c == '\u{202F}' || c == '\u{205F}' || c == '\u{3000}'
}

/// Decodes one subtitle block at `pos`: the index line, the timestamp-pair
/// line, then the caption text up to a blank line or the end of the input,
/// trimmed of surrounding whitespace.
pub fn one_subtitle(s: &str, pos: usize) -> (r: Result<(usize, SubTitle), SrtError>)
    requires
        pos <= s@.len(),
    ensures
        match r {
            Ok((p, sub)) => {
                &&& pos < p <= s@.len()
                &&& spec_parse_block(s@.skip(pos as int)) == Ok::<
                    (Seq<char>, SpecSubTitle),
                    SrtError,
                >((s@.skip(p as int), sub@))
            },
            Err(e) => spec_parse_block(s@.skip(pos as int)) == Err::<
                (Seq<char>, SpecSubTitle),
                SrtError,
            >(e),
        },
{
    let (p1, index) = match parse_number(s, pos, u32::MAX as u64) {
        Some(x) => x,
        None => return Err(num_err_at(s, pos, SrtError::MalformedIndex)),
    };
    let p2 = match line_ending(s, p1) {
        Ok(p) => p,
        Err(e) => return Err(e),
    };
    let (p3, times) = match time_and_arrow(s, p2) {
        Ok(x) => x,
        Err(e) => return Err(e),
    };
    let p4 = match line_ending(s, p3) {
        Ok(p) => p,
        Err(e) => return Err(e),
    };
    let (p5, text_end) = until_empty_newline(s, p4);
    let mut a = p4;
    while a < text_end && is_space_at(s, a)
        invariant
            p4 <= a <= text_end <= s@.len(),
            forall|i: int| p4 <= i < a ==> is_space(s@[i]),
        decreases text_end - a,
    {
        a = a + 1;
    }
    let mut b = text_end;
    while b > a && is_space_at(s, b - 1)
        invariant
            a <= b <= text_end <= s@.len(),
            forall|i: int| b <= i < text_end ==> is_space(s@[i]),
        decreases b,
    {
        b = b - 1;
    }
    let text = s.substring_char(a, b).to_owned();
    proof {
        let raw = s@.subrange(p4 as int, text_end as int);
        lemma_trim_start_is(raw, a - p4);
        let u = s@.subrange(a as int, text_end as int);
        assert(raw.skip(a - p4) =~= u);
        lemma_trim_end_is(u, b - a);
        assert(u.take(b - a) =~= s@.subrange(a as int, b as int));
        assert(spec_trim(raw) == text@);
    }
    Ok(
        (
            p5,
            SubTitle {
                index: index as u32,
                start: times.0,
                end: times.1,
                text,
            },
        ),
    )
}

/// Skips the optional byte-order marker at the very start of the input.
pub fn opt_byte(s: &str) -> (p: usize)
    ensures
        p <= s@.len(),
        s@.skip(p as int) == spec_strip_bom(s@),
{
    let len = s.unicode_len();
    if len > 0 && s.get_char(0) == '\u{FEFF}' {
        1
    } else {
        proof {
            assert(s@.skip(0) =~= s@);
        }
        0
    }
}

/// The decoded records of `v`, seen at the specification level.
pub open spec fn subs_view(v: Seq<SubTitle>) -> Seq<SpecSubTitle> {
    v.map_values(|st: SubTitle| st@)
}

/// Decodes a whole document: an optional byte-order marker, then subtitle
/// blocks until the input is exhausted. All-or-nothing: either every block
/// decodes and the records come back in source order, or the first failure
/// is returned and no partial sequence is produced.
pub fn from_str(input: &str) -> (r: Result<Vec<SubTitle>, SrtError>)
    ensures
        match r {
            Ok(subs) => spec_parse_document(input@) == Ok::<Seq<SpecSubTitle>, SrtError>(
                subs_view(subs@),
            ),
            Err(e) => spec_parse_document(input@) == Err::<Seq<SpecSubTitle>, SrtError>(e),
        },
{
    let len = input.unicode_len();
    let mut pos = opt_byte(input);
    let ghost s0 = spec_strip_bom(input@);
    let mut subs: Vec<SubTitle> = Vec::new();
    proof {
        assert(subs_view(subs@) =~= Seq::<SpecSubTitle>::empty());
        if let Ok(tail) = spec_parse_blocks(s0) {
            assert(subs_view(subs@) + tail =~= tail);
        }
    }
    while pos < len
        invariant
            pos <= len,
            len == input@.len(),
            s0 == spec_strip_bom(input@),
            (match spec_parse_blocks(input@.skip(pos as int)) {
                Ok(tail) => spec_parse_blocks(s0) == Ok::<Seq<SpecSubTitle>, SrtError>(
                    subs_view(subs@) + tail,
                ),
                Err(e) => spec_parse_blocks(s0) == Err::<Seq<SpecSubTitle>, SrtError>(e),
            }),
        decreases len - pos,
    {
        let ghost cur = input@.skip(pos as int);
        match one_subtitle(input, pos) {
            Err(e) => {
                proof {
                    assert(cur.len() > 0);
                    assert(spec_parse_blocks(cur) == Err::<Seq<SpecSubTitle>, SrtError>(e));
                }
                return Err(e);
            },
            Ok((p2, sub)) => {
                proof {
                    lemma_block_consumes(cur);
                }
                let ghost old_view = subs_view(subs@);
                subs.push(sub);
                proof {
                    assert(subs_view(subs@) =~= old_view.push(sub@));
                    match spec_parse_blocks(input@.skip(p2 as int)) {
                        Ok(t2) => {
                            assert(spec_parse_blocks(cur) == Ok::<Seq<SpecSubTitle>, SrtError>(
                                seq![sub@] + t2,
                            ));
                            assert(old_view + (seq![sub@] + t2) =~= subs_view(subs@) + t2);
                        },
                        Err(_) => {},
                    }
                }
                pos = p2;
            },
        }
    }
    proof {
        assert(input@.skip(len as int) =~= Seq::<char>::empty());
        assert(spec_parse_blocks(input@.skip(pos as int)) == Ok::<Seq<SpecSubTitle>, SrtError>(
            Seq::<SpecSubTitle>::empty(),
        ));
        assert(subs_view(subs@) + Seq::<SpecSubTitle>::empty() =~= subs_view(subs@));
    }
    Ok(subs)
}

} // verus!
