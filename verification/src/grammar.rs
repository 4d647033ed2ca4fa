//! The CSV grammar, stated over sequences of characters.
//!
//! Each rule of the grammar is a spec function from an input sequence and
//! a position to the position where the rule stops, together with the
//! value it produces.  The grammar is a parsing expression grammar:
//! alternation is ordered (first match wins) and repetition is greedy, so
//! every rule is deterministic and total where stated.

use vstd::prelude::*;

verus! {

/// The mandatory terminating sentinel, 0x03 ("end of text").
pub open spec fn sentinel() -> char {
    '\u{3}'
}

/// TEXTDATA of RFC 4180 section 2: printable ASCII without the comma
/// (0x2C) and the double quote (0x22).
pub open spec fn char_is_textdata(c: char) -> bool {
    (0x20 <= c as u32 && c as u32 <= 0x21) || (0x23 <= c as u32 && c as u32 <= 0x2B) || (0x2D
        <= c as u32 && c as u32 <= 0x7E)
}

/// Every character of `s` is TEXTDATA.
pub open spec fn all_textdata(s: Seq<char>) -> bool {
    forall|i: int| 0 <= i < s.len() ==> char_is_textdata(s[i])
}

/// End of the maximal run of TEXTDATA characters starting at `pos`.
pub open spec fn textdata_end(s: Seq<char>, pos: int) -> int
    recommends
        0 <= pos <= s.len(),
    decreases s.len() - pos,
{
    if 0 <= pos && pos < s.len() && char_is_textdata(s[pos]) {
        textdata_end(s, pos + 1)
    } else {
        pos
    }
}

pub proof fn lemma_textdata_end(s: Seq<char>, pos: int)
    requires
        0 <= pos <= s.len(),
    ensures
        pos <= textdata_end(s, pos) <= s.len(),
        forall|i: int| pos <= i < textdata_end(s, pos) ==> char_is_textdata(s[i]),
        textdata_end(s, pos) < s.len() ==> !char_is_textdata(s[textdata_end(s, pos)]),
    decreases s.len() - pos,
{
    if pos < s.len() && char_is_textdata(s[pos]) {
        lemma_textdata_end(s, pos + 1);
    }
}

/// A run known to consist of TEXTDATA and to stop right before a
/// non-TEXTDATA character (or the end of input) is the maximal run.
pub proof fn lemma_textdata_end_is(s: Seq<char>, pos: int, stop: int)
    requires
        0 <= pos <= stop <= s.len(),
        forall|i: int| pos <= i < stop ==> char_is_textdata(s[i]),
        stop == s.len() || !char_is_textdata(s[stop]),
    ensures
        textdata_end(s, pos) == stop,
    decreases stop - pos,
{
    if pos < stop {
        lemma_textdata_end_is(s, pos + 1, stop);
    }
}

/// End of the greedy repetition inside an escaped field, starting right
/// after the opening quote: TEXTDATA, comma, CR and LF are taken one
/// character at a time, a doubled quote two at a time; a lone quote (or
/// the end of input) stops the repetition.
pub open spec fn escaped_body_end(s: Seq<char>, pos: int) -> int
    recommends
        0 <= pos <= s.len(),
    decreases s.len() - pos,
{
    if 0 <= pos && pos < s.len() && (char_is_textdata(s[pos]) || s[pos] == ',' || s[pos] == '\r'
        || s[pos] == '\n') {
        escaped_body_end(s, pos + 1)
    } else if 0 <= pos && pos + 2 <= s.len() && s[pos] == '"' && s[pos + 1] == '"' {
        escaped_body_end(s, pos + 2)
    } else {
        pos
    }
}

pub proof fn lemma_escaped_body_end(s: Seq<char>, pos: int)
    requires
        0 <= pos <= s.len(),
    ensures
        pos <= escaped_body_end(s, pos) <= s.len(),
    decreases s.len() - pos,
{
    if pos < s.len() && (char_is_textdata(s[pos]) || s[pos] == ',' || s[pos] == '\r' || s[pos]
        == '\n') {
        lemma_escaped_body_end(s, pos + 1);
    } else if pos + 2 <= s.len() && s[pos] == '"' && s[pos + 1] == '"' {
        lemma_escaped_body_end(s, pos + 2);
    }
}

/// The `escaped` rule: an opening quote, the greedy body repetition, and
/// a closing quote.  The produced value is the matched text verbatim,
/// quote marks and doubled quotes included.
pub open spec fn escaped_rule(s: Seq<char>, pos: int) -> Option<(int, Seq<char>)>
    recommends
        0 <= pos <= s.len(),
{
    if 0 <= pos && pos < s.len() && s[pos] == '"' {
        let stop = escaped_body_end(s, pos + 1);
        if stop < s.len() && s[stop] == '"' {
            Some((stop + 1, s.subrange(pos, stop + 1)))
        } else {
            None
        }
    } else {
        None
    }
}

/// The `non_escaped` rule: the maximal (possibly empty) run of TEXTDATA
/// characters, produced verbatim.  It never fails.
pub open spec fn non_escaped_rule(s: Seq<char>, pos: int) -> (int, Seq<char>)
    recommends
        0 <= pos <= s.len(),
{
    (textdata_end(s, pos), s.subrange(pos, textdata_end(s, pos)))
}

/// The `field` rule: `escaped` is tried first; on its clean failure
/// `non_escaped` is tried, which always succeeds.
pub open spec fn field_rule(s: Seq<char>, pos: int) -> (int, Seq<char>)
    recommends
        0 <= pos <= s.len(),
{
    match escaped_rule(s, pos) {
        Some(r) => r,
        None => non_escaped_rule(s, pos),
    }
}

pub proof fn lemma_field_rule(s: Seq<char>, pos: int)
    requires
        0 <= pos <= s.len(),
    ensures
        pos <= field_rule(s, pos).0 <= s.len(),
{
    lemma_textdata_end(s, pos);
    if pos < s.len() && s[pos] == '"' {
        lemma_escaped_body_end(s, pos + 1);
    }
}

/// The greedy `(comma field)*` repetition of the `record` rule, as the
/// stop position and the sequence of field values it contributes.
pub open spec fn record_tail(s: Seq<char>, pos: int) -> (int, Seq<Seq<char>>)
    decreases s.len() - pos,
    when 0 <= pos <= s.len()
    via record_tail_decreases
{
    if pos < s.len() && s[pos] == ',' {
        let (p, v) = field_rule(s, pos + 1);
        let (q, rest) = record_tail(s, p);
        (q, seq![v] + rest)
    } else {
        (pos, Seq::empty())
    }
}

#[via_fn]
proof fn record_tail_decreases(s: Seq<char>, pos: int) {
    if pos < s.len() && s[pos] == ',' {
        lemma_field_rule(s, pos + 1);
    }
}

pub proof fn lemma_record_tail(s: Seq<char>, pos: int)
    requires
        0 <= pos <= s.len(),
    ensures
        pos <= record_tail(s, pos).0 <= s.len(),
    decreases s.len() - pos,
{
    if pos < s.len() && s[pos] == ',' {
        lemma_field_rule(s, pos + 1);
        lemma_record_tail(s, field_rule(s, pos + 1).0);
    }
}

/// The `record` rule: one field, then `(comma field)*`.  A record has at
/// least one field and never fails.
pub open spec fn record_rule(s: Seq<char>, pos: int) -> (int, Seq<Seq<char>>)
    recommends
        0 <= pos <= s.len(),
{
    let (p, first) = field_rule(s, pos);
    let (q, rest) = record_tail(s, p);
    (q, seq![first] + rest)
}

pub proof fn lemma_record_rule(s: Seq<char>, pos: int)
    requires
        0 <= pos <= s.len(),
    ensures
        pos <= record_rule(s, pos).0 <= s.len(),
{
    lemma_field_rule(s, pos);
    lemma_record_tail(s, field_rule(s, pos).0);
}

/// The greedy `(crlf record)*` repetition of the `file` rule, as the stop
/// position and the sequence of records it contributes.
pub open spec fn file_tail(s: Seq<char>, pos: int) -> (int, Seq<Seq<Seq<char>>>)
    decreases s.len() - pos,
    when 0 <= pos <= s.len()
    via file_tail_decreases
{
    if pos + 2 <= s.len() && s[pos] == '\r' && s[pos + 1] == '\n' {
        let (p, rec) = record_rule(s, pos + 2);
        let (q, rest) = file_tail(s, p);
        (q, seq![rec] + rest)
    } else {
        (pos, Seq::empty())
    }
}

#[via_fn]
proof fn file_tail_decreases(s: Seq<char>, pos: int) {
    if pos + 2 <= s.len() && s[pos] == '\r' && s[pos + 1] == '\n' {
        lemma_record_rule(s, pos + 2);
    }
}

pub proof fn lemma_file_tail(s: Seq<char>, pos: int)
    requires
        0 <= pos <= s.len(),
    ensures
        pos <= file_tail(s, pos).0 <= s.len(),
    decreases s.len() - pos,
{
    if pos + 2 <= s.len() && s[pos] == '\r' && s[pos + 1] == '\n' {
        lemma_record_rule(s, pos + 2);
        lemma_file_tail(s, record_rule(s, pos + 2).0);
    }
}

/// The `maybe_crlf` rule: a CRLF pair if one is present, else the empty
/// match.  It never fails.
pub open spec fn maybe_crlf_end(s: Seq<char>, pos: int) -> int
    recommends
        0 <= pos <= s.len(),
{
    if pos + 2 <= s.len() && s[pos] == '\r' && s[pos + 1] == '\n' {
        pos + 2
    } else {
        pos
    }
}

/// Where the `file` rule expects the sentinel: after the first record,
/// the `(crlf record)*` repetition, and `maybe_crlf`.
pub open spec fn file_end(s: Seq<char>) -> int {
    maybe_crlf_end(s, file_tail(s, record_rule(s, 0).0).0)
}

/// The records the `file` rule produces: the first record followed by
/// those of the `(crlf record)*` repetition, in input order.
pub open spec fn file_records(s: Seq<char>) -> Seq<Seq<Seq<char>>> {
    seq![record_rule(s, 0).1] + file_tail(s, record_rule(s, 0).0).1
}

pub proof fn lemma_file_end(s: Seq<char>)
    ensures
        0 <= file_end(s) <= s.len(),
{
    lemma_record_rule(s, 0);
    lemma_file_tail(s, record_rule(s, 0).0);
}

/// The `file` rule: records, an optional trailing CRLF, and the mandatory
/// sentinel.  On success the result is the record values and the position
/// right after the sentinel; the rule fails iff the sentinel is not at
/// `file_end`.
pub open spec fn file_rule(s: Seq<char>) -> Option<(Seq<Seq<Seq<char>>>, int)> {
    let stop = file_end(s);
    if stop < s.len() && s[stop] == sentinel() {
        Some((file_records(s), stop + 1))
    } else {
        None
    }
}

/// What a successful parse of `s` returns: the rule's records, and the
/// input left over after the sentinel.
pub open spec fn parse_success(s: Seq<char>, rest: Seq<char>, rows: Seq<Seq<Seq<char>>>) -> bool {
    &&& file_rule(s) is Some
    &&& rows == file_records(s)
    &&& rest == s.subrange(file_end(s) + 1, s.len() as int)
}

/// What a failed parse of `s` returns: the input left over from the point
/// where the sentinel was expected and not found.
pub open spec fn parse_failure(s: Seq<char>, rest: Seq<char>) -> bool {
    &&& file_rule(s) is None
    &&& rest == s.subrange(file_end(s), s.len() as int)
}

/// End of the maximal run of characters lying between `lo` and `hi`
/// inclusive, starting at `pos`.
pub open spec fn range_run_end(lo: char, hi: char, s: Seq<char>, pos: int) -> int
    recommends
        0 <= pos <= s.len(),
    decreases s.len() - pos,
{
    if 0 <= pos && pos < s.len() && lo as u32 <= s[pos] as u32 && s[pos] as u32 <= hi as u32 {
        range_run_end(lo, hi, s, pos + 1)
    } else {
        pos
    }
}

pub proof fn lemma_range_run_end(lo: char, hi: char, s: Seq<char>, pos: int)
    requires
        0 <= pos <= s.len(),
    ensures
        pos <= range_run_end(lo, hi, s, pos) <= s.len(),
    decreases s.len() - pos,
{
    if pos < s.len() && lo as u32 <= s[pos] as u32 && s[pos] as u32 <= hi as u32 {
        lemma_range_run_end(lo, hi, s, pos + 1);
    }
}

} // verus!
