//! The executable recursive-descent parser, one function per grammar
//! rule, each proved against its rule in [`crate::grammar`].
//!
//! On success the entry point returns the unconsumed remainder together
//! with the parsed rows; on failure it returns the remainder at the point
//! where the grammar could not match — the single error kind there is.

use crate::grammar::char_is_textdata;
use crate::grammar::escaped_body_end;
use crate::grammar::field_rule;
use crate::grammar::file_end;
use crate::grammar::file_records;
use crate::grammar::file_tail;
use crate::grammar::parse_failure;
use crate::grammar::parse_success;
use crate::grammar::range_run_end;
use crate::grammar::record_rule;
use crate::grammar::record_tail;
use crate::grammar::textdata_end;
use vstd::prelude::*;
use vstd::string::StrSliceExecFns;

verus! {

/// The one kind of failure the grammar reports: a required rule could
/// not match, and `remainder` is the input from the point where matching
/// stopped.
#[derive(Debug)]
pub struct MatchFailure<'a> {
    pub remainder: &'a str,
}

/// TEXTDATA of RFC 4180 section 2: printable ASCII without the comma and
/// the double quote.
pub fn is_textdata(input: char) -> (r: bool)
    ensures
        r == char_is_textdata(input),
{
    let code = input as u32;
    (0x20 <= code && code <= 0x21) || (0x23 <= code && code <= 0x2B) || (0x2D <= code && code
        <= 0x7E)
}

/// Scans the maximal run of TEXTDATA characters starting at `pos`.
fn textdata_run(input: &str, pos: usize, n: usize) -> (r: usize)
    requires
        n == input@.len(),
        pos <= n,
    ensures
        r as int == textdata_end(input@, pos as int),
        pos <= r <= n,
{
    let mut p = pos;
    while p < n && is_textdata(input.get_char(p))
        invariant
            pos <= p <= n,
            n == input@.len(),
            textdata_end(input@, pos as int) == textdata_end(input@, p as int),
        decreases n - p,
    {
        p = p + 1;
    }
    p
}

/// Scans the greedy repetition inside an escaped field, starting right
/// after the opening quote.
fn escaped_body(input: &str, pos: usize, n: usize) -> (r: usize)
    requires
        n == input@.len(),
        pos <= n,
    ensures
        r as int == escaped_body_end(input@, pos as int),
        pos <= r <= n,
{
    let mut p = pos;
    loop
        invariant
            pos <= p <= n,
            n == input@.len(),
            escaped_body_end(input@, pos as int) == escaped_body_end(input@, p as int),
        ensures
            pos <= p <= n,
            p as int == escaped_body_end(input@, pos as int),
        decreases n - p,
    {
        if p < n {
            let c = input.get_char(p);
            if is_textdata(c) || c == ',' || c == '\r' || c == '\n' {
                p = p + 1;
            } else if c == '"' && p + 1 < n && input.get_char(p + 1) == '"' {
                p = p + 2;
            } else {
                break ;
            }
        } else {
            break ;
        }
    }
    p
}

/// The `field` rule: `escaped` first, `non_escaped` on its failure.  The
/// produced value is the matched text verbatim; for an escaped field the
/// quote marks and doubled quotes are kept.
fn parse_field(input: &str, pos: usize, n: usize) -> (r: (usize, String))
    requires
        n == input@.len(),
        pos <= n,
    ensures
        r.0 as int == field_rule(input@, pos as int).0,
        r.1@ == field_rule(input@, pos as int).1,
        pos <= r.0 <= n,
{
    if pos < n && input.get_char(pos) == '"' {
        let stop = escaped_body(input, pos + 1, n);
        if stop < n && input.get_char(stop) == '"' {
            let v = input.substring_char(pos, stop + 1).to_owned();
            return (stop + 1, v);
        }
    }
    let stop = textdata_run(input, pos, n);
    let v = input.substring_char(pos, stop).to_owned();
    (stop, v)
}

/// The `record` rule: one field, then `(comma field)*`, in match order.
fn parse_record(input: &str, pos: usize, n: usize) -> (r: (usize, Vec<String>))
    requires
        n == input@.len(),
        pos <= n,
    ensures
        r.0 as int == record_rule(input@, pos as int).0,
        r.1.deep_view() == record_rule(input@, pos as int).1,
        pos <= r.0 <= n,
{
    let first = parse_field(input, pos, n);
    let mut p = first.0;
    let mut fields: Vec<String> = Vec::new();
    fields.push(first.1);
    proof {
        assert(fields.deep_view() =~= seq![field_rule(input@, pos as int).1]);
        assert(record_rule(input@, pos as int).1 =~= fields.deep_view() + record_tail(
            input@,
            p as int,
        ).1);
    }
    while p < n && input.get_char(p) == ','
        invariant
            pos <= p <= n,
            n == input@.len(),
            record_rule(input@, pos as int).0 == record_tail(input@, p as int).0,
            record_rule(input@, pos as int).1 == fields.deep_view() + record_tail(
                input@,
                p as int,
            ).1,
        decreases n - p,
    {
        let ghost fields_before = fields.deep_view();
        let item = parse_field(input, p + 1, n);
        fields.push(item.1);
        proof {
            assert(fields.deep_view() =~= fields_before.push(
                field_rule(input@, p + 1 as int).1,
            ));
            assert(fields.deep_view() + record_tail(input@, item.0 as int).1 =~= fields_before
                + record_tail(input@, p as int).1);
        }
        p = item.0;
    }
    proof {
        assert(record_rule(input@, pos as int).1 =~= fields.deep_view());
    }
    (p, fields)
}

/// The `file` rule, and the library's entry point: the whole input is
/// matched from its start as one record, then `(crlf record)*`, then an
/// optional CRLF, then the mandatory sentinel `'\u{3}'`.
///
/// On success the result is the unconsumed remainder after the sentinel
/// and the rows in input order, each row its fields in input order.  On
/// failure — exactly when the sentinel is not where the grammar expects
/// it — the result is the remainder from that point.  The contract pins
/// the whole result as a function of the input alone.
pub fn csv_parser<'a>(input: &'a str) -> (r: Result<
    (&'a str, Vec<Vec<String>>),
    MatchFailure<'a>,
>)
    ensures
        match r {
            Ok(ok) => parse_success(input@, ok.0@, ok.1.deep_view()),
            Err(e) => parse_failure(input@, e.remainder@),
        },
{
    let n = input.unicode_len();
    let first = parse_record(input, 0, n);
    let mut p = first.0;
    let mut records: Vec<Vec<String>> = Vec::new();
    records.push(first.1);
    proof {
        assert(records.deep_view() =~= seq![record_rule(input@, 0).1]);
        assert(file_records(input@) =~= records.deep_view() + file_tail(input@, p as int).1);
    }
    while p < n && input.get_char(p) == '\r' && p + 1 < n && input.get_char(p + 1) == '\n'
        invariant
            p <= n,
            n == input@.len(),
            file_tail(input@, record_rule(input@, 0).0).0 == file_tail(input@, p as int).0,
            file_records(input@) == records.deep_view() + file_tail(input@, p as int).1,
        decreases n - p,
    {
        let ghost records_before = records.deep_view();
        let item = parse_record(input, p + 2, n);
        records.push(item.1);
        proof {
            assert(records.deep_view() =~= records_before.push(
                record_rule(input@, p + 2 as int).1,
            ));
            assert(records.deep_view() + file_tail(input@, item.0 as int).1 =~= records_before
                + file_tail(input@, p as int).1);
        }
        p = item.0;
    }
    proof {
        assert(file_records(input@) =~= records.deep_view());
        assert(p as int == file_tail(input@, record_rule(input@, 0).0).0);
    }
    if p < n && input.get_char(p) == '\r' && p + 1 < n && input.get_char(p + 1) == '\n' {
        p = p + 2;
    }
    proof {
        assert(p as int == file_end(input@));
    }
    if p < n && input.get_char(p) == '\u{3}' {
        let rest = input.substring_char(p + 1, n);
        Ok((rest, records))
    } else {
        let rest = input.substring_char(p, n);
        Err(MatchFailure { remainder: rest })
    }
}

/// The `textdata` terminal: consumes the maximal non-empty leading run
/// of TEXTDATA characters and returns `(rest, matched)`; it fails, and
/// leaves the whole input as the remainder, iff the input does not start
/// with at least one TEXTDATA character.
pub fn text_data<'a>(input: &'a str) -> (r: Result<(&'a str, &'a str), MatchFailure<'a>>)
    ensures
        match r {
            Ok(ok) => {
                &&& input@.len() > 0
                &&& char_is_textdata(input@[0])
                &&& ok.1@ == input@.subrange(0, textdata_end(input@, 0))
                &&& ok.0@ == input@.subrange(textdata_end(input@, 0), input@.len() as int)
            },
            Err(e) => {
                &&& input@.len() == 0 || !char_is_textdata(input@[0])
                &&& e.remainder@ == input@
            },
        },
{
    let n = input.unicode_len();
    if n > 0 && is_textdata(input.get_char(0)) {
        let stop = textdata_run(input, 0, n);
        Ok((input.substring_char(stop, n), input.substring_char(0, stop)))
    } else {
        Err(MatchFailure { remainder: input })
    }
}

/// A terminal matcher for a one-character literal token (comma, double
/// quote, CR, LF, space, tab): it matches `expected` at the front of the
/// input and returns `(rest, matched)`, or fails leaving the input
/// position unchanged.
pub fn literal<'a>(expected: char, input: &'a str) -> (r: Result<
    (&'a str, &'a str),
    MatchFailure<'a>,
>)
    ensures
        match r {
            Ok(ok) => {
                &&& input@.len() > 0
                &&& input@[0] == expected
                &&& ok.1@ == input@.subrange(0, 1)
                &&& ok.0@ == input@.subrange(1, input@.len() as int)
            },
            Err(e) => {
                &&& input@.len() == 0 || input@[0] != expected
                &&& e.remainder@ == input@
            },
        },
{
    if input.unicode_len() > 0 && input.get_char(0) == expected {
        let n = input.unicode_len();
        Ok((input.substring_char(1, n), input.substring_char(0, 1)))
    } else {
        Err(MatchFailure { remainder: input })
    }
}

/// The `ws` terminal: a space, or — on its failure — a horizontal tab,
/// in that order of alternatives.
pub fn ws<'a>(input: &'a str) -> (r: Result<(&'a str, &'a str), MatchFailure<'a>>)
    ensures
        match r {
            Ok(ok) => {
                &&& input@.len() > 0
                &&& (input@[0] == ' ' || input@[0] == '\t')
                &&& ok.1@ == input@.subrange(0, 1)
                &&& ok.0@ == input@.subrange(1, input@.len() as int)
            },
            Err(e) => {
                &&& input@.len() == 0 || (input@[0] != ' ' && input@[0] != '\t')
                &&& e.remainder@ == input@
            },
        },
{
    match literal(' ', input) {
        Ok(ok) => Ok(ok),
        Err(_) => literal('\t', input),
    }
}

/// The `crlf` terminal: a CR immediately followed by an LF, producing
/// the two-character sequence; a lone CR fails with nothing consumed.
pub fn crlf<'a>(input: &'a str) -> (r: Result<(&'a str, &'a str), MatchFailure<'a>>)
    ensures
        match r {
            Ok(ok) => {
                &&& input@.len() >= 2
                &&& input@[0] == '\r'
                &&& input@[1] == '\n'
                &&& ok.1@ == input@.subrange(0, 2)
                &&& ok.0@ == input@.subrange(2, input@.len() as int)
            },
            Err(e) => {
                &&& input@.len() < 2 || input@[0] != '\r' || input@[1] != '\n'
                &&& e.remainder@ == input@
            },
        },
{
    let n = input.unicode_len();
    if n >= 2 && input.get_char(0) == '\r' && input.get_char(1) == '\n' {
        Ok((input.substring_char(2, n), input.substring_char(0, 2)))
    } else {
        Err(MatchFailure { remainder: input })
    }
}

/// The `dquote2` terminal: two consecutive double quotes, producing the
/// two-character sequence — the escape for a quote inside an escaped
/// field; a lone quote fails with nothing consumed.
pub fn dquote2<'a>(input: &'a str) -> (r: Result<(&'a str, &'a str), MatchFailure<'a>>)
    ensures
        match r {
            Ok(ok) => {
                &&& input@.len() >= 2
                &&& input@[0] == '"'
                &&& input@[1] == '"'
                &&& ok.1@ == input@.subrange(0, 2)
                &&& ok.0@ == input@.subrange(2, input@.len() as int)
            },
            Err(e) => {
                &&& input@.len() < 2 || input@[0] != '"' || input@[1] != '"'
                &&& e.remainder@ == input@
            },
        },
{
    let n = input.unicode_len();
    if n >= 2 && input.get_char(0) == '"' && input.get_char(1) == '"' {
        Ok((input.substring_char(2, n), input.substring_char(0, 2)))
    } else {
        Err(MatchFailure { remainder: input })
    }
}

/// A general ranged matcher: consumes the maximal (possibly empty)
/// leading run of characters lying between `start` and `end` inclusive,
/// and returns `(rest, matched)`.  It never fails.
pub fn in_range<'a>(start: char, end: char, input: &'a str) -> (r: (&'a str, &'a str))
    ensures
        r.1@ == input@.subrange(0, range_run_end(start, end, input@, 0)),
        r.0@ == input@.subrange(range_run_end(start, end, input@, 0), input@.len() as int),
{
    let n = input.unicode_len();
    let mut p: usize = 0;
    while p < n && start as u32 <= input.get_char(p) as u32 && input.get_char(p) as u32 <= end
        as u32
        invariant
            p <= n,
            n == input@.len(),
            range_run_end(start, end, input@, 0) == range_run_end(start, end, input@, p as int),
        decreases n - p,
    {
        p = p + 1;
    }
    (input.substring_char(p, n), input.substring_char(0, p))
}

} // verus!
