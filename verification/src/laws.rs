//! Laws of the grammar, each stated and proved over the spec functions
//! that the parser's contracts use.

use crate::grammar::all_textdata;
use crate::grammar::char_is_textdata;
use crate::grammar::escaped_rule;
use crate::grammar::field_rule;
use crate::grammar::file_end;
use crate::grammar::file_records;
use crate::grammar::file_rule;
use crate::grammar::file_tail;
use crate::grammar::lemma_escaped_body_end;
use crate::grammar::lemma_field_rule;
use crate::grammar::lemma_file_end;
use crate::grammar::lemma_record_rule;
use crate::grammar::lemma_textdata_end;
use crate::grammar::parse_failure;
use crate::grammar::parse_success;
use crate::grammar::record_rule;
use crate::grammar::record_tail;
use crate::grammar::sentinel;
use vstd::prelude::*;

verus! {

/// A field value in the escaped form: it begins with a double quote.
pub open spec fn quoted_form(v: Seq<char>) -> bool {
    v.len() >= 1 && v[0] == '"'
}

/// Parsing is deterministic, so parsing the same input twice yields
/// structurally equal results: any two successful outcomes that the
/// parser's contract admits for one input are equal.
pub proof fn lemma_success_deterministic(
    s: Seq<char>,
    rest1: Seq<char>,
    rows1: Seq<Seq<Seq<char>>>,
    rest2: Seq<char>,
    rows2: Seq<Seq<Seq<char>>>,
)
    requires
        parse_success(s, rest1, rows1),
        parse_success(s, rest2, rows2),
    ensures
        rows1 == rows2,
        rest1 == rest2,
{
}

/// Parsing is deterministic on failures as well: any two failure
/// outcomes that the parser's contract admits for one input carry the
/// same remainder.
pub proof fn lemma_failure_deterministic(s: Seq<char>, rest1: Seq<char>, rest2: Seq<char>)
    requires
        parse_failure(s, rest1),
        parse_failure(s, rest2),
    ensures
        rest1 == rest2,
{
}

/// An input without the sentinel character is rejected, however well
/// formed its CSV content is.
pub proof fn lemma_missing_sentinel(s: Seq<char>)
    requires
        forall|i: int| 0 <= i < s.len() ==> s[i] != sentinel(),
    ensures
        file_rule(s) is None,
{
    lemma_file_end(s);
}

/// TEXTDATA excludes every delimiter of the grammar: a value made of
/// TEXTDATA characters contains no comma, double quote, CR, LF, or
/// sentinel.
pub proof fn lemma_textdata_excludes_delimiters(v: Seq<char>)
    requires
        all_textdata(v),
    ensures
        forall|i: int|
            0 <= i < v.len() ==> v[i] != ',' && v[i] != '"' && v[i] != '\r' && v[i] != '\n'
                && v[i] != sentinel(),
{
}

/// One field value of the grammar is either in the escaped form, quote
/// marks kept, or made of TEXTDATA characters alone.
pub proof fn lemma_field_value_form(s: Seq<char>, pos: int)
    requires
        0 <= pos <= s.len(),
    ensures
        quoted_form(field_rule(s, pos).1) || all_textdata(field_rule(s, pos).1),
{
    if pos < s.len() && s[pos] == '"' {
        lemma_escaped_body_end(s, pos + 1);
    }
    if escaped_rule(s, pos) is None {
        lemma_textdata_end(s, pos);
        assert forall|i: int| 0 <= i < field_rule(s, pos).1.len() implies char_is_textdata(
            field_rule(s, pos).1[i],
        ) by {
            assert(field_rule(s, pos).1[i] == s[pos + i]);
        }
    }
}

proof fn lemma_record_tail_value_forms(s: Seq<char>, pos: int)
    requires
        0 <= pos <= s.len(),
    ensures
        forall|j: int|
            0 <= j < record_tail(s, pos).1.len() ==> #[trigger] quoted_form(
                record_tail(s, pos).1[j],
            ) || all_textdata(record_tail(s, pos).1[j]),
    decreases s.len() - pos,
{
    if pos < s.len() && s[pos] == ',' {
        lemma_field_rule(s, pos + 1);
        lemma_field_value_form(s, pos + 1);
        let v = field_rule(s, pos + 1).1;
        let rest = record_tail(s, field_rule(s, pos + 1).0).1;
        lemma_record_tail_value_forms(s, field_rule(s, pos + 1).0);
        assert forall|j: int| 0 <= j < record_tail(s, pos).1.len() implies #[trigger] quoted_form(
            record_tail(s, pos).1[j],
        ) || all_textdata(record_tail(s, pos).1[j]) by {
            if j == 0 {
                assert(record_tail(s, pos).1[j] == v);
            } else {
                assert(record_tail(s, pos).1[j] == rest[j - 1]);
                assert(quoted_form(rest[j - 1]) || all_textdata(rest[j - 1]));
            }
        }
    }
}

proof fn lemma_record_value_forms(s: Seq<char>, pos: int)
    requires
        0 <= pos <= s.len(),
    ensures
        forall|j: int|
            0 <= j < record_rule(s, pos).1.len() ==> #[trigger] quoted_form(
                record_rule(s, pos).1[j],
            ) || all_textdata(record_rule(s, pos).1[j]),
{
    lemma_field_value_form(s, pos);
    lemma_field_rule(s, pos);
    lemma_record_tail_value_forms(s, field_rule(s, pos).0);
}

proof fn lemma_file_tail_value_forms(s: Seq<char>, pos: int)
    requires
        0 <= pos <= s.len(),
    ensures
        forall|i: int, j: int|
            0 <= i < file_tail(s, pos).1.len() && 0 <= j < file_tail(s, pos).1[i].len()
                ==> #[trigger] quoted_form(file_tail(s, pos).1[i][j]) || all_textdata(
                file_tail(s, pos).1[i][j],
            ),
    decreases s.len() - pos,
{
    if pos + 2 <= s.len() && s[pos] == '\r' && s[pos + 1] == '\n' {
        lemma_record_value_forms(s, pos + 2);
        lemma_record_rule(s, pos + 2);
        let rec = record_rule(s, pos + 2).1;
        let rest = file_tail(s, record_rule(s, pos + 2).0).1;
        lemma_file_tail_value_forms(s, record_rule(s, pos + 2).0);
        assert forall|i: int, j: int|
            0 <= i < file_tail(s, pos).1.len() && 0 <= j < file_tail(s, pos).1[i].len() implies #[trigger] quoted_form(
            file_tail(s, pos).1[i][j],
        ) || all_textdata(file_tail(s, pos).1[i][j]) by {
            if i == 0 {
                assert(file_tail(s, pos).1[i] == rec);
                assert(quoted_form(rec[j]) || all_textdata(rec[j]));
            } else {
                assert(file_tail(s, pos).1[i] == rest[i - 1]);
                assert(quoted_form(rest[i - 1][j]) || all_textdata(rest[i - 1][j]));
            }
        }
    }
}

/// A record whose fields are all plain TEXTDATA, as the grammar's
/// unquoted form produces and accepts them.
pub open spec fn plain_record(r: Seq<Seq<char>>) -> bool {
    r.len() >= 1 && forall|i: int| 0 <= i < r.len() ==> all_textdata(#[trigger] r[i])
}

/// Rows of plain TEXTDATA fields.
pub open spec fn plain_rows(rows: Seq<Seq<Seq<char>>>) -> bool {
    rows.len() >= 1 && forall|i: int| 0 <= i < rows.len() ==> plain_record(#[trigger] rows[i])
}

/// The text of the `(comma field)*` part of a record: a comma before
/// each field.
pub open spec fn render_fields_tail(fields: Seq<Seq<char>>) -> Seq<char>
    decreases fields.len(),
{
    if fields.len() == 0 {
        Seq::empty()
    } else {
        seq![','] + fields[0] + render_fields_tail(fields.drop_first())
    }
}

/// The text of a record: its fields joined by commas.
pub open spec fn render_record(r: Seq<Seq<char>>) -> Seq<char>
    recommends
        r.len() >= 1,
{
    r[0] + render_fields_tail(r.drop_first())
}

/// The text of the `(crlf record)*` part of a file: a CRLF before each
/// record.
pub open spec fn render_rows_tail(rows: Seq<Seq<Seq<char>>>) -> Seq<char>
    decreases rows.len(),
{
    if rows.len() == 0 {
        Seq::empty()
    } else {
        seq!['\r', '\n'] + render_record(rows[0]) + render_rows_tail(rows.drop_first())
    }
}

/// The text of a file before its sentinel: its records joined by CRLF.
pub open spec fn render_rows(rows: Seq<Seq<Seq<char>>>) -> Seq<char>
    recommends
        rows.len() >= 1,
{
    render_record(rows[0]) + render_rows_tail(rows.drop_first())
}

/// A piece of a region of `s` known to equal `region` is the matching
/// piece of `region`.
proof fn lemma_region_piece(s: Seq<char>, pos: int, region: Seq<char>, lo: int, hi: int)
    requires
        0 <= pos,
        pos + region.len() <= s.len(),
        s.subrange(pos, pos + region.len()) == region,
        0 <= lo <= hi <= region.len(),
    ensures
        s.subrange(pos + lo, pos + hi) == region.subrange(lo, hi),
{
    assert forall|i: int| 0 <= i < hi - lo implies s.subrange(pos + lo, pos + hi)[i]
        == region.subrange(lo, hi)[i] by {
        assert(region[lo + i] == s.subrange(pos, pos + region.len())[lo + i]);
    }
    assert(s.subrange(pos + lo, pos + hi) =~= region.subrange(lo, hi));
}

/// One character of a region of `s` known to equal `region`.
proof fn lemma_region_char(s: Seq<char>, pos: int, region: Seq<char>, k: int)
    requires
        0 <= pos,
        pos + region.len() <= s.len(),
        s.subrange(pos, pos + region.len()) == region,
        0 <= k < region.len(),
    ensures
        s[pos + k] == region[k],
{
    assert(region[k] == s.subrange(pos, pos + region.len())[k]);
}

/// A boundary character at which a record stops: what may follow a
/// record inside a file.
pub open spec fn record_stopper(c: char) -> bool {
    c == '\r' || c == sentinel()
}

/// A plain TEXTDATA field written at `pos`, followed by a comma or a
/// record stopper, is matched by the `field` rule exactly, and the rule
/// produces it verbatim.
proof fn lemma_field_at(s: Seq<char>, pos: int, f: Seq<char>)
    requires
        0 <= pos,
        pos + f.len() < s.len(),
        s.subrange(pos, pos + f.len()) == f,
        all_textdata(f),
        s[pos + f.len()] == ',' || record_stopper(s[pos + f.len()]),
    ensures
        field_rule(s, pos) == (pos + f.len(), f),
{
    assert forall|i: int| pos <= i < pos + f.len() implies char_is_textdata(s[i]) by {
        lemma_region_char(s, pos, f, i - pos);
    }
    if f.len() > 0 {
        lemma_region_char(s, pos, f, 0);
    }
    assert(s[pos] != '"');
    assert(escaped_rule(s, pos) is None);
    crate::grammar::lemma_textdata_end_is(s, pos, pos + f.len());
}

/// The `(comma field)*` part of a record written at `pos`, followed by a
/// record stopper, is matched by the `record` rule's tail exactly.
proof fn lemma_record_tail_at(s: Seq<char>, pos: int, fields: Seq<Seq<char>>)
    requires
        0 <= pos,
        pos + render_fields_tail(fields).len() < s.len(),
        s.subrange(pos, pos + render_fields_tail(fields).len()) == render_fields_tail(fields),
        forall|i: int| 0 <= i < fields.len() ==> all_textdata(#[trigger] fields[i]),
        record_stopper(s[pos + render_fields_tail(fields).len()]),
    ensures
        record_tail(s, pos) == (pos + render_fields_tail(fields).len(), fields),
    decreases fields.len(),
{
    let region = render_fields_tail(fields);
    if fields.len() == 0 {
        assert(record_tail(s, pos) == (pos, Seq::<Seq<char>>::empty()));
        assert(record_tail(s, pos).1 =~= fields);
    } else {
        let f = fields[0];
        let rest = fields.drop_first();
        let rest_region = render_fields_tail(rest);
        assert(region == seq![','] + f + rest_region);
        assert(region.len() == 1 + f.len() + rest_region.len());
        lemma_region_char(s, pos, region, 0);
        assert(s[pos] == ',');
        lemma_region_piece(s, pos, region, 1, 1 + f.len() as int);
        assert forall|i: int| 0 <= i < f.len() implies s.subrange(pos + 1, pos + 1 + f.len())[i]
            == f[i] by {
            assert(region[1 + i] == (seq![','] + f + rest_region)[1 + i]);
        }
        assert(s.subrange(pos + 1, pos + 1 + f.len()) =~= f);
        let fstop = pos + 1 + f.len();
        if rest_region.len() > 0 {
            lemma_region_char(s, pos, region, 1 + f.len() as int);
            assert(region[1 + f.len() as int] == rest_region[0]);
            assert(rest.len() > 0);
            assert(rest_region[0] == ',');
        }
        lemma_field_at(s, pos + 1, f);
        assert(field_rule(s, pos + 1) == (fstop, f));
        lemma_region_piece(s, pos, region, 1 + f.len() as int, region.len() as int);
        assert forall|i: int| 0 <= i < rest_region.len() implies s.subrange(
            fstop,
            pos + region.len(),
        )[i] == rest_region[i] by {
            assert(region[1 + f.len() + i] == (seq![','] + f + rest_region)[1 + f.len() + i]);
        }
        assert(s.subrange(fstop, fstop + rest_region.len()) =~= rest_region);
        lemma_record_tail_at(s, fstop, rest);
        assert(record_tail(s, pos).1 == seq![f] + rest);
        assert(seq![f] + rest =~= fields);
    }
}

/// A record of plain TEXTDATA fields written at `pos`, followed by a
/// record stopper, is matched by the `record` rule exactly, and the rule
/// produces its fields in order.
proof fn lemma_record_at(s: Seq<char>, pos: int, r: Seq<Seq<char>>)
    requires
        0 <= pos,
        pos + render_record(r).len() < s.len(),
        s.subrange(pos, pos + render_record(r).len()) == render_record(r),
        plain_record(r),
        record_stopper(s[pos + render_record(r).len()]),
    ensures
        record_rule(s, pos) == (pos + render_record(r).len(), r),
{
    let region = render_record(r);
    let f = r[0];
    let rest = r.drop_first();
    let rest_region = render_fields_tail(rest);
    assert(region == f + rest_region);
    lemma_region_piece(s, pos, region, 0, f.len() as int);
    assert forall|i: int| 0 <= i < f.len() implies s.subrange(pos, pos + f.len())[i] == f[i] by {
        assert(region[i] == (f + rest_region)[i]);
    }
    assert(s.subrange(pos, pos + f.len()) =~= f);
    if rest_region.len() > 0 {
        lemma_region_char(s, pos, region, f.len() as int);
        assert(region[f.len() as int] == rest_region[0]);
        assert(rest.len() > 0);
        assert(rest_region[0] == ',');
    }
    lemma_field_at(s, pos, f);
    let fstop = pos + f.len();
    lemma_region_piece(s, pos, region, f.len() as int, region.len() as int);
    assert forall|i: int| 0 <= i < rest_region.len() implies s.subrange(
        fstop,
        pos + region.len(),
    )[i] == rest_region[i] by {
        assert(region[f.len() + i] == (f + rest_region)[f.len() + i]);
    }
    assert(s.subrange(fstop, fstop + rest_region.len()) =~= rest_region);
    lemma_record_tail_at(s, fstop, rest);
    assert(record_rule(s, pos).1 == seq![f] + rest);
    assert(seq![f] + rest =~= r);
}

/// The `(crlf record)*` part of a file written at `pos`, followed by the
/// sentinel, is matched by the `file` rule's tail exactly.
proof fn lemma_file_tail_at(s: Seq<char>, pos: int, rows: Seq<Seq<Seq<char>>>)
    requires
        0 <= pos,
        pos + render_rows_tail(rows).len() < s.len(),
        s.subrange(pos, pos + render_rows_tail(rows).len()) == render_rows_tail(rows),
        forall|i: int| 0 <= i < rows.len() ==> plain_record(#[trigger] rows[i]),
        s[pos + render_rows_tail(rows).len()] == sentinel(),
    ensures
        file_tail(s, pos) == (pos + render_rows_tail(rows).len(), rows),
    decreases rows.len(),
{
    let region = render_rows_tail(rows);
    if rows.len() == 0 {
        assert(s[pos] == sentinel());
        assert(file_tail(s, pos) == (pos, Seq::<Seq<Seq<char>>>::empty()));
        assert(file_tail(s, pos).1 =~= rows);
    } else {
        let r = rows[0];
        let rest = rows.drop_first();
        let r_region = render_record(r);
        let rest_region = render_rows_tail(rest);
        assert(region == seq!['\r', '\n'] + r_region + rest_region);
        assert(region.len() == 2 + r_region.len() + rest_region.len());
        lemma_region_char(s, pos, region, 0);
        lemma_region_char(s, pos, region, 1);
        assert(s[pos] == '\r' && s[pos + 1] == '\n');
        lemma_region_piece(s, pos, region, 2, 2 + r_region.len() as int);
        assert forall|i: int| 0 <= i < r_region.len() implies s.subrange(
            pos + 2,
            pos + 2 + r_region.len(),
        )[i] == r_region[i] by {
            assert(region[2 + i] == (seq!['\r', '\n'] + r_region + rest_region)[2 + i]);
        }
        assert(s.subrange(pos + 2, pos + 2 + r_region.len()) =~= r_region);
        let rstop = pos + 2 + r_region.len();
        if rest_region.len() > 0 {
            lemma_region_char(s, pos, region, 2 + r_region.len() as int);
            assert(region[2 + r_region.len() as int] == rest_region[0]);
            assert(rest.len() > 0);
            assert(rest_region[0] == '\r');
        }
        assert(record_stopper(s[rstop]));
        lemma_record_at(s, pos + 2, r);
        lemma_region_piece(s, pos, region, 2 + r_region.len() as int, region.len() as int);
        assert forall|i: int| 0 <= i < rest_region.len() implies s.subrange(
            rstop,
            pos + region.len(),
        )[i] == rest_region[i] by {
            assert(region[2 + r_region.len() + i] == (seq!['\r', '\n'] + r_region + rest_region)[2
                + r_region.len() + i]);
        }
        assert(s.subrange(rstop, rstop + rest_region.len()) =~= rest_region);
        lemma_file_tail_at(s, rstop, rest);
        assert(file_tail(s, pos).1 == seq![r] + rest);
        assert(seq![r] + rest =~= rows);
    }
}

/// Round trip for plain CSV text: rows of TEXTDATA fields, written out
/// with commas between fields and CRLF between rows and closed by the
/// sentinel, parse back to exactly those rows, in order, with nothing
/// left over.
pub proof fn lemma_plain_rows_round_trip(rows: Seq<Seq<Seq<char>>>)
    requires
        plain_rows(rows),
    ensures
        file_rule(render_rows(rows) + seq![sentinel()]) == Some(
            (rows, (render_rows(rows).len() + 1) as int),
        ),
{
    let s = render_rows(rows) + seq![sentinel()];
    let r = rows[0];
    let rest = rows.drop_first();
    let r_region = render_record(r);
    let rest_region = render_rows_tail(rest);
    assert(s.len() == r_region.len() + rest_region.len() + 1);
    assert(s[s.len() as int - 1] == sentinel());
    let rstop: int = r_region.len() as int;
    assert forall|i: int| 0 <= i < r_region.len() implies s.subrange(0, rstop)[i] == r_region[i] by {
        assert(s[i] == (render_rows(rows) + seq![sentinel()])[i]);
        assert(render_rows(rows)[i] == (r_region + rest_region)[i]);
    }
    assert(s.subrange(0, rstop) =~= r_region);
    if rest_region.len() > 0 {
        assert(s[rstop] == (render_rows(rows) + seq![sentinel()])[rstop]);
        assert(render_rows(rows)[rstop] == (r_region + rest_region)[rstop]);
        assert(rest.len() > 0);
        assert(rest_region[0] == '\r');
    }
    assert(record_stopper(s[rstop]));
    lemma_record_at(s, 0, r);
    assert forall|i: int| 0 <= i < rest_region.len() implies s.subrange(
        rstop,
        rstop + rest_region.len(),
    )[i] == rest_region[i] by {
        assert(s[rstop + i] == (render_rows(rows) + seq![sentinel()])[rstop + i]);
        assert(render_rows(rows)[rstop + i] == (r_region + rest_region)[rstop + i]);
    }
    assert(s.subrange(rstop, rstop + rest_region.len()) =~= rest_region);
    lemma_file_tail_at(s, rstop, rest);
    let stop: int = rstop + rest_region.len();
    assert(s[stop] == sentinel());
    assert(crate::grammar::maybe_crlf_end(s, stop) == stop);
    assert(file_end(s) == stop);
    assert(file_records(s) == seq![r] + rest);
    assert(seq![r] + rest =~= rows);
    assert(stop + 1 == s.len());
}

/// One well-formed row of two plain TEXTDATA fields, closed by the
/// sentinel, parses to exactly the record of those two fields.
pub proof fn lemma_single_row(a: Seq<char>, b: Seq<char>)
    requires
        all_textdata(a),
        all_textdata(b),
    ensures
        file_rule(a + seq![','] + b + seq![sentinel()]) == Some(
            (seq![seq![a, b]], (a.len() + b.len() + 2) as int),
        ),
{
    let rows = seq![seq![a, b]];
    assert(plain_rows(rows)) by {
        assert(rows[0] == seq![a, b]);
        assert(rows[0][0] == a && rows[0][1] == b);
        assert forall|i: int| 0 <= i < rows[0].len() implies all_textdata(
            #[trigger] rows[0][i],
        ) by {
            if i == 0 {
                assert(rows[0][i] == a);
            } else {
                assert(rows[0][i] == b);
            }
        }
    }
    lemma_plain_rows_round_trip(rows);
    assert(rows.drop_first() =~= Seq::<Seq<Seq<char>>>::empty());
    assert(render_rows_tail(rows.drop_first()) == Seq::<char>::empty());
    assert(rows[0].drop_first() =~= seq![b]);
    assert(seq![b].drop_first() =~= Seq::<Seq<char>>::empty());
    assert(render_fields_tail(seq![b].drop_first()) == Seq::<char>::empty());
    assert(render_fields_tail(seq![b]) == seq![','] + b + Seq::<char>::empty());
    assert(render_record(rows[0]) == a + (seq![','] + b + Seq::<char>::empty()));
    assert(render_rows(rows) =~= a + seq![','] + b);
    assert(render_rows(rows) + seq![sentinel()] =~= a + seq![','] + b + seq![sentinel()]);
    assert((render_rows(rows).len() + 1) as int == (a.len() + b.len() + 2) as int);
}

/// The body of an escaped field, as the grammar's repetition builds it:
/// TEXTDATA, comma, CR and LF characters taken singly, and doubled
/// quotes taken as pairs.
pub open spec fn escaped_units(body: Seq<char>) -> bool
    decreases body.len(),
{
    if body.len() == 0 {
        true
    } else if char_is_textdata(body[0]) || body[0] == ',' || body[0] == '\r' || body[0] == '\n' {
        escaped_units(body.drop_first())
    } else if body.len() >= 2 && body[0] == '"' && body[1] == '"' {
        escaped_units(body.subrange(2, body.len() as int))
    } else {
        false
    }
}

/// The escaped repetition, scanned over a region known to be made of its
/// units and closed by a lone quote, stops exactly at that quote.
proof fn lemma_escaped_body_end_at(s: Seq<char>, pos: int, body: Seq<char>)
    requires
        0 <= pos,
        pos + body.len() < s.len(),
        s.subrange(pos, pos + body.len()) == body,
        escaped_units(body),
        s[pos + body.len()] == '"',
        pos + body.len() + 1 == s.len() || s[pos + body.len() + 1] != '"',
    ensures
        crate::grammar::escaped_body_end(s, pos) == pos + body.len(),
    decreases body.len(),
{
    if body.len() == 0 {
        assert(s[pos] == '"');
    } else {
        lemma_region_char(s, pos, body, 0);
        if char_is_textdata(body[0]) || body[0] == ',' || body[0] == '\r' || body[0] == '\n' {
            let rest = body.drop_first();
            lemma_region_piece(s, pos, body, 1, body.len() as int);
            assert(s.subrange(pos + 1, pos + 1 + rest.len()) =~= rest);
            lemma_escaped_body_end_at(s, pos + 1, rest);
        } else {
            lemma_region_char(s, pos, body, 1);
            assert(s[pos] == '"' && s[pos + 1] == '"');
            let rest = body.subrange(2, body.len() as int);
            lemma_region_piece(s, pos, body, 2, body.len() as int);
            assert(s.subrange(pos + 2, pos + 2 + rest.len()) =~= rest);
            lemma_escaped_body_end_at(s, pos + 2, rest);
        }
    }
}

/// Round trip for one escaped field: a body of its units, wrapped in
/// quotes, is matched by the `field` rule as one field whose value keeps
/// the quote marks and the doubled-quote escapes exactly as written —
/// nothing is unescaped.  `tail` is whatever follows the field, as long
/// as it does not begin with a quote.
pub proof fn lemma_escaped_field_round_trip(body: Seq<char>, tail: Seq<char>)
    requires
        escaped_units(body),
        tail.len() == 0 || tail[0] != '"',
    ensures
        field_rule(seq!['"'] + body + seq!['"'] + tail, 0) == (
            (body.len() + 2) as int,
            seq!['"'] + body + seq!['"'],
        ),
{
    let quoted = seq!['"'] + body + seq!['"'];
    let s = quoted + tail;
    assert(s.len() == body.len() + 2 + tail.len());
    assert forall|i: int| 0 <= i < quoted.len() implies s[i] == quoted[i] by {
        assert(s[i] == (quoted + tail)[i]);
    }
    assert(s[0] == '"');
    assert forall|i: int| 0 <= i < body.len() implies s.subrange(1, 1 + body.len() as int)[i]
        == body[i] by {
        assert(s[1 + i] == quoted[1 + i]);
        assert(quoted[1 + i] == ((seq!['"'] + body) + seq!['"'])[1 + i]);
    }
    assert(s.subrange(1, 1 + body.len() as int) =~= body);
    let stop = 1 + body.len() as int;
    assert(s[stop] == quoted[stop]);
    assert(quoted[stop] == '"');
    if tail.len() > 0 {
        assert(s[stop + 1] == (quoted + tail)[stop + 1]);
        assert(s[stop + 1] == tail[0]);
    }
    lemma_escaped_body_end_at(s, 1, body);
    assert(escaped_rule(s, 0) == Some((stop + 1, s.subrange(0, stop + 1))));
    assert forall|i: int| 0 <= i < quoted.len() implies s.subrange(0, stop + 1)[i]
        == quoted[i] by {
        assert(s[i] == (quoted + tail)[i]);
    }
    assert(s.subrange(0, stop + 1) =~= quoted);
    assert(s =~= seq!['"'] + body + seq!['"'] + tail);
}

/// Round trip for a record holding one escaped field, closed by the
/// sentinel: it parses to a single field whose value retains the literal
/// quote markers and doubled-quote escapes exactly as written.
pub proof fn lemma_escaped_record_round_trip(body: Seq<char>)
    requires
        escaped_units(body),
    ensures
        file_rule(seq!['"'] + body + seq!['"'] + seq![sentinel()]) == Some(
            (seq![seq![seq!['"'] + body + seq!['"']]], (body.len() + 3) as int),
        ),
{
    let quoted = seq!['"'] + body + seq!['"'];
    let s = quoted + seq![sentinel()];
    lemma_escaped_field_round_trip(body, seq![sentinel()]);
    assert(seq!['"'] + body + seq!['"'] + seq![sentinel()] =~= s);
    assert(field_rule(s, 0) == ((body.len() + 2) as int, quoted));
    let stop = (body.len() + 2) as int;
    assert(s[stop] == (quoted + seq![sentinel()])[stop]);
    assert(s[stop] == sentinel());
    assert(record_tail(s, stop) == (stop, Seq::<Seq<char>>::empty()));
    assert(record_rule(s, 0).0 == stop);
    assert(record_rule(s, 0).1 =~= seq![quoted]);
    assert(file_tail(s, stop) == (stop, Seq::<Seq<Seq<char>>>::empty()));
    assert(crate::grammar::maybe_crlf_end(s, stop) == stop);
    assert(file_end(s) == stop);
    assert(file_records(s) =~= seq![seq![quoted]]);
    assert(stop + 1 == s.len());
}

/// Every field value the grammar produces is either in the escaped form
/// — it begins with a double quote — or consists of TEXTDATA characters
/// alone, so an unquoted field never contains a comma, double quote,
/// CR, LF, or sentinel.
pub proof fn lemma_field_values_well_formed(s: Seq<char>)
    ensures
        forall|i: int, j: int|
            0 <= i < file_records(s).len() && 0 <= j < file_records(s)[i].len()
                ==> #[trigger] quoted_form(file_records(s)[i][j]) || all_textdata(
                file_records(s)[i][j],
            ),
{
    lemma_record_value_forms(s, 0);
    lemma_record_rule(s, 0);
    lemma_file_tail_value_forms(s, record_rule(s, 0).0);
}

} // verus!

