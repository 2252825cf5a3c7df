//! Document-level guarantees of the grammar, proved once for every input.
//!
//! Each public proof function here states a fact that a caller of the
//! parser can rely on for all documents, not only the ones a test
//! exercises.

use vstd::prelude::*;
use crate::grammar::{
    lemma_block_consumes, spec_parse_block, spec_parse_blocks, spec_parse_document,
    SpecSubTitle, SrtError,
};
use crate::grammar::{
    is_digit, is_hspace, is_space, lemma_run_len_le, lemma_terminator_bounds, run_len,
    spec_expect, spec_parse_line_ending, spec_parse_number, spec_parse_time,
    spec_parse_arrow, spec_parse_time_range, spec_take_text, terminator_from, trim_end, trim_start,
};

verus! {

/// A document that is exactly two blocks — the second of which may end at
/// the end of the input, with no trailing blank line — decodes to exactly
/// those two records, in source order, each carrying its literally parsed
/// index.
pub proof fn lemma_two_block_document(
    s: Seq<char>,
    r1: Seq<char>,
    first: SpecSubTitle,
    r2: Seq<char>,
    second: SpecSubTitle,
)
    requires
        spec_parse_block(s) == Ok::<(Seq<char>, SpecSubTitle), SrtError>((r1, first)),
        spec_parse_block(r1) == Ok::<(Seq<char>, SpecSubTitle), SrtError>((r2, second)),
        r2.len() == 0,
    ensures
        spec_parse_blocks(s) == Ok::<Seq<SpecSubTitle>, SrtError>(seq![first, second]),
{
    lemma_block_consumes(s);
    lemma_block_consumes(r1);
    assert(spec_parse_blocks(r2) == Ok::<Seq<SpecSubTitle>, SrtError>(Seq::empty()));
    assert(seq![second] + Seq::<SpecSubTitle>::empty() =~= seq![second]);
    assert(spec_parse_blocks(r1) == Ok::<Seq<SpecSubTitle>, SrtError>(seq![second]));
    assert(seq![first] + seq![second] =~= seq![first, second]);
}

/// A block that consumes the whole remaining input — in particular the
/// final block of a document whose text ends at the end of the input, with
/// no blank-line terminator — is decoded as the last record.
pub proof fn lemma_unterminated_last_block(s: Seq<char>, r: Seq<char>, sub: SpecSubTitle)
    requires
        spec_parse_block(s) == Ok::<(Seq<char>, SpecSubTitle), SrtError>((r, sub)),
        r.len() == 0,
    ensures
        spec_parse_blocks(s) == Ok::<Seq<SpecSubTitle>, SrtError>(seq![sub]),
{
    lemma_block_consumes(s);
    assert(spec_parse_blocks(r) == Ok::<Seq<SpecSubTitle>, SrtError>(Seq::empty()));
    assert(seq![sub] + Seq::<SpecSubTitle>::empty() =~= seq![sub]);
}

/// The first malformed block fails the whole parse: no partial sequence,
/// no default record, only the error.
pub proof fn lemma_first_error_is_fatal(s: Seq<char>, e: SrtError)
    requires
        s.len() > 0,
        spec_parse_block(s) == Err::<(Seq<char>, SpecSubTitle), SrtError>(e),
    ensures
        spec_parse_blocks(s) == Err::<Seq<SpecSubTitle>, SrtError>(e),
{
}

/// A document prefixed with one byte-order marker decodes exactly as the
/// same document without it.
pub proof fn lemma_byte_order_marker_ignored(s: Seq<char>)
    requires
        s.len() == 0 || s[0] != '\u{FEFF}',
    ensures
        spec_parse_document(seq!['\u{FEFF}'] + s) == spec_parse_document(s),
{
    let t = seq!['\u{FEFF}'] + s;
    assert(t[0] == '\u{FEFF}');
    assert(t.skip(1) =~= s);
}

/// Skipping a prefix leaves a suffix.
proof fn lemma_skip_is_suffix(s: Seq<char>, n: int)
    requires
        0 <= n <= s.len(),
    ensures
        s.skip(n).is_suffix_of(s),
{
    assert(s.skip(n) =~= s.subrange(n, s.len() as int));
}

/// A suffix of a suffix is a suffix.
proof fn lemma_suffix_trans(a: Seq<char>, b: Seq<char>, c: Seq<char>)
    requires
        a.is_suffix_of(b),
        b.is_suffix_of(c),
    ensures
        a.is_suffix_of(c),
{
    assert(a =~= c.subrange(c.len() - a.len(), c.len() as int));
}

/// A prefix of a prefix is a prefix.
proof fn lemma_prefix_trans(a: Seq<char>, b: Seq<char>, c: Seq<char>)
    requires
        a.is_prefix_of(b),
        b.is_prefix_of(c),
    ensures
        a.is_prefix_of(c),
{
    assert(a =~= c.subrange(0, a.len() as int));
}

/// What a number token leaves unread is a suffix of its input.
proof fn lemma_number_suffix(s: Seq<char>, max: nat)
    ensures
        spec_parse_number(s, max) matches Some(pr) ==> pr.0.is_suffix_of(s),
{
    if s.len() > 0 && is_digit(s[0]) {
        lemma_run_len_le(s, |c: char| is_digit(c));
        lemma_skip_is_suffix(s, run_len(s, |c: char| is_digit(c)) as int);
    }
}

/// What a timestamp token leaves unread is a suffix of its input.
proof fn lemma_time_suffix(s: Seq<char>)
    ensures
        spec_parse_time(s) matches Ok(pr) ==> pr.0.is_suffix_of(s),
{
    lemma_number_suffix(s, 255);
    if let Some((s1, _)) = spec_parse_number(s, 255) {
        if let Ok(s2) = spec_expect(s1, ':') {
            lemma_skip_is_suffix(s1, 1);
            lemma_suffix_trans(s2, s1, s);
            lemma_number_suffix(s2, 255);
            if let Some((s3, _)) = spec_parse_number(s2, 255) {
                lemma_suffix_trans(s3, s2, s);
                if let Ok(s4) = spec_expect(s3, ':') {
                    lemma_skip_is_suffix(s3, 1);
                    lemma_suffix_trans(s4, s3, s);
                    lemma_number_suffix(s4, 255);
                    if let Some((s5, _)) = spec_parse_number(s4, 255) {
                        lemma_suffix_trans(s5, s4, s);
                        if let Ok(s6) = spec_expect(s5, ',') {
                            lemma_skip_is_suffix(s5, 1);
                            lemma_suffix_trans(s6, s5, s);
                            lemma_number_suffix(s6, 65535);
                            if let Some((s7, _)) = spec_parse_number(s6, 65535) {
                                lemma_suffix_trans(s7, s6, s);
                            }
                        }
                    }
                }
            }
        }
    }
}

/// What the arrow separator leaves unread is a suffix of its input.
proof fn lemma_arrow_suffix(s: Seq<char>)
    ensures
        spec_parse_arrow(s) matches Ok(r) ==> r.is_suffix_of(s),
{
    lemma_run_len_le(s, |c: char| is_hspace(c));
    let n1 = run_len(s, |c: char| is_hspace(c)) as int;
    let s1 = s.skip(n1);
    lemma_skip_is_suffix(s, n1);
    if s1.len() >= 3 && s1[0] == '-' && s1[1] == '-' && s1[2] == '>' {
        let s2 = s1.skip(3);
        lemma_skip_is_suffix(s1, 3);
        lemma_suffix_trans(s2, s1, s);
        lemma_run_len_le(s2, |c: char| is_hspace(c));
        let n2 = run_len(s2, |c: char| is_hspace(c)) as int;
        lemma_skip_is_suffix(s2, n2);
        lemma_suffix_trans(s2.skip(n2), s2, s);
    }
}

/// What a timestamp pair leaves unread is a suffix of its input.
proof fn lemma_time_range_suffix(s: Seq<char>)
    ensures
        spec_parse_time_range(s) matches Ok(pr) ==> pr.0.is_suffix_of(s),
{
    lemma_time_suffix(s);
    if let Ok((s1, _)) = spec_parse_time(s) {
        lemma_arrow_suffix(s1);
        if let Ok(s2) = spec_parse_arrow(s1) {
            lemma_suffix_trans(s2, s1, s);
            lemma_time_suffix(s2);
            if let Ok((s3, _)) = spec_parse_time(s2) {
                lemma_suffix_trans(s3, s2, s);
            }
        }
    }
}

/// What a line terminator leaves unread is a suffix of its input.
proof fn lemma_line_ending_suffix(s: Seq<char>)
    ensures
        spec_parse_line_ending(s) matches Ok(r) ==> r.is_suffix_of(s),
{
    if s.len() > 0 && s[0] == '\n' {
        lemma_skip_is_suffix(s, 1);
    } else if s.len() >= 2 && s[0] == '\r' && s[1] == '\n' {
        lemma_skip_is_suffix(s, 2);
    }
}

/// Trimming removes a whitespace prefix and nothing else from the front.
proof fn lemma_trim_start_shape(t: Seq<char>)
    ensures
        trim_start(t).is_suffix_of(t),
        trim_start(t).len() > 0 ==> !is_space(trim_start(t)[0]),
    decreases t.len(),
{
    if t.len() > 0 && is_space(t[0]) {
        lemma_trim_start_shape(t.skip(1));
        lemma_skip_is_suffix(t, 1);
        lemma_suffix_trans(trim_start(t.skip(1)), t.skip(1), t);
    } else {
        assert(t =~= t.subrange(0, t.len() as int));
    }
}

/// Trimming removes a whitespace suffix and nothing else from the back.
proof fn lemma_trim_end_shape(t: Seq<char>)
    ensures
        trim_end(t).is_prefix_of(t),
        trim_end(t).len() > 0 ==> !is_space(trim_end(t).last()),
    decreases t.len(),
{
    if t.len() > 0 && is_space(t.last()) {
        lemma_trim_end_shape(t.drop_last());
        assert(t.drop_last() =~= t.subrange(0, t.len() - 1));
        lemma_prefix_trans(trim_end(t.drop_last()), t.drop_last(), t);
    } else {
        assert(t =~= t.subrange(0, t.len() as int));
    }
}

/// The caption text of a decoded block appears verbatim in the source: it
/// is one contiguous span of the input — inner line breaks included — and
/// neither starts nor ends with whitespace.
pub proof fn lemma_caption_text_verbatim(s: Seq<char>, r: Seq<char>, sub: SpecSubTitle)
    requires
        spec_parse_block(s) == Ok::<(Seq<char>, SpecSubTitle), SrtError>((r, sub)),
    ensures
        exists|i: int, j: int| 0 <= i <= j <= s.len() && sub.text == s.subrange(i, j),
        sub.text.len() > 0 ==> !is_space(sub.text[0]),
        sub.text.len() > 0 ==> !is_space(sub.text.last()),
{
    lemma_number_suffix(s, u32::MAX as nat);
    let (s1, _) = spec_parse_number(s, u32::MAX as nat)->Some_0;
    lemma_line_ending_suffix(s1);
    let s2 = spec_parse_line_ending(s1)->Ok_0;
    lemma_suffix_trans(s2, s1, s);
    lemma_time_range_suffix(s2);
    let (s3, _) = spec_parse_time_range(s2)->Ok_0;
    lemma_suffix_trans(s3, s2, s);
    lemma_line_ending_suffix(s3);
    let s4 = spec_parse_line_ending(s3)->Ok_0;
    lemma_suffix_trans(s4, s3, s);
    let off = s.len() - s4.len();
    assert(s4 =~= s.subrange(off as int, s.len() as int));

    let raw = spec_take_text(s4).1;
    lemma_terminator_bounds(s4, 0);
    if let Some(i) = terminator_from(s4, 0) {
        assert(raw == s4.take(i));
    } else {
        assert(raw =~= s4.take(raw.len() as int));
    }
    let rl = raw.len() as int;
    assert(raw =~= s4.take(rl));

    lemma_trim_start_shape(raw);
    let u = trim_start(raw);
    let a0 = raw.len() - u.len();
    assert(u =~= raw.subrange(a0 as int, raw.len() as int));
    lemma_trim_end_shape(u);
    let text = trim_end(u);
    let tl = text.len() as int;
    assert(text =~= u.subrange(0, tl));
    assert(sub.text == text);

    assert(text =~= s.subrange(off + a0, off + a0 + tl));
    assert(0 <= off + a0 <= off + a0 + tl <= s.len());
    assert(sub.text == s.subrange(off + a0, off + a0 + tl));

    if text.len() > 0 {
        assert(text[0] == u[0]);
    }
}

} // verus!
