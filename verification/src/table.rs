//! The record table model: schema-driven rendering and parsing of whole
//! delimited tables, and the proof that parsing inverts rendering.
//!
//! A table is one header row naming the schema's fields in order, then one
//! row per record. Reading matches columns to fields by header name, not by
//! position; a missing or unknown name is a schema mismatch. An optional
//! field reads an empty cell as absent; writing an absent value writes an
//! empty cell.

use vstd::prelude::*;
use vstd::utf8::{decode_utf8, encode_utf8, valid_utf8};

use crate::FgError;
use crate::delim::{
    index_of_bytes, lemma_index_of_bytes_is, lemma_parse_row_pos, escape_quotes, needs_quotes,
    parse_field, parse_quoted, parse_raw, parse_row, render_cells, render_field, render_row,
};
use crate::lines::lemma_encode_utf8_len;

verus! {

/// One field of a table schema: its column name, and whether an empty cell
/// reads back as an absent value.
pub struct Field {
    pub name: String,
    pub optional: bool,
}

/// The header cells: each field name's UTF-8 bytes, in schema order.
pub open spec fn schema_names(schema: Seq<Field>) -> Seq<Seq<u8>> {
    Seq::new(schema.len(), |i: int| encode_utf8(schema[i].name@))
}

/// The raw bytes of one cell: an absent value writes an empty cell.
pub open spec fn cell_bytes(v: Option<Seq<char>>) -> Seq<u8> {
    match v {
        Some(s) => encode_utf8(s),
        None => seq![],
    }
}

/// One record's raw cells, in schema order.
pub open spec fn record_cells(rec: Seq<Option<Seq<char>>>) -> Seq<Seq<u8>> {
    Seq::new(rec.len(), |i: int| cell_bytes(rec[i]))
}

/// The data rows as written, one row per record in order.
pub open spec fn render_records(recs: Seq<Seq<Option<Seq<char>>>>, delim: u8, quote: bool) -> Seq<
    u8,
>
    decreases recs.len(),
{
    if recs.len() == 0 {
        seq![]
    } else {
        render_row(record_cells(recs[0]), delim, quote) + render_records(
            recs.drop_first(),
            delim,
            quote,
        )
    }
}

/// The whole table as written: the header row, then the data rows.
pub open spec fn table_bytes(
    schema: Seq<Field>,
    recs: Seq<Seq<Option<Seq<char>>>>,
    delim: u8,
    quote: bool,
) -> Seq<u8> {
    render_row(schema_names(schema), delim, quote) + render_records(recs, delim, quote)
}

/// A record that can be written under the schema: one value per field, and no
/// absent value in a required field.
pub open spec fn record_conforms(schema: Seq<Field>, rec: Seq<Option<Seq<char>>>) -> bool {
    &&& rec.len() == schema.len()
    &&& forall|i: int| 0 <= i < schema.len() ==> (schema[i].optional || #[trigger] rec[i] is Some)
}

/// The one-based index of the first record a write rejects, or `None` when
/// all are written (the header is row 0).
pub open spec fn write_error_row(
    schema: Seq<Field>,
    recs: Seq<Seq<Option<Seq<char>>>>,
    rownum: int,
) -> Option<int>
    decreases recs.len(),
{
    if recs.len() == 0 {
        None
    } else if !record_conforms(schema, recs[0]) {
        Some(rownum)
    } else {
        write_error_row(schema, recs.drop_first(), rownum + 1)
    }
}

/// One parsed cell under a field: invalid UTF-8 is a failure, an empty cell
/// of an optional field is the absent value, anything else is its text.
pub open spec fn decoded_cell(raw: Seq<u8>, optional: bool) -> Option<Option<Seq<char>>> {
    if !valid_utf8(raw) {
        None
    } else if optional && raw.len() == 0 {
        Some(None)
    } else {
        Some(Some(decode_utf8(raw)))
    }
}

/// True when the header row fits the schema: one column per field, every
/// column named by some field, every field named by some column, no column
/// named twice.
pub open spec fn header_matches(schema: Seq<Field>, header: Seq<Seq<u8>>) -> bool {
    &&& header.len() == schema.len()
    &&& forall|i: int|
        0 <= i < schema.len() ==> index_of_bytes(
            header,
            encode_utf8(#[trigger] schema[i].name@),
        ) >= 0
    &&& forall|j: int, k: int| 0 <= j < k < header.len() ==> header[j] != header[k]
}

/// One record from one data row: cells are matched to fields by header name,
/// a wrong column count or an undecodable cell is a failure.
pub open spec fn row_to_record(
    schema: Seq<Field>,
    header: Seq<Seq<u8>>,
    cols: Seq<Seq<u8>>,
) -> Option<Seq<Option<Seq<char>>>> {
    if cols.len() != header.len() {
        None
    } else if forall|i: int|
        0 <= i < schema.len() ==> (#[trigger] decoded_cell(
            cols[index_of_bytes(header, encode_utf8(schema[i].name@))],
            schema[i].optional,
        )) is Some {
        Some(
            Seq::new(
                schema.len(),
                |i: int|
                    decoded_cell(
                        cols[index_of_bytes(header, encode_utf8(schema[i].name@))],
                        schema[i].optional,
                    ).unwrap(),
            ),
        )
    } else {
        None
    }
}

/// The records parsed from the data rows starting at position `p`, with
/// `rownum` the one-based number of the row at `p`; the first malformed or
/// mismatched row aborts the whole parse.
pub open spec fn parse_table_rows(
    schema: Seq<Field>,
    header: Seq<Seq<u8>>,
    data: Seq<u8>,
    p: int,
    delim: u8,
    q: bool,
    rownum: int,
) -> Result<Seq<Seq<Option<Seq<char>>>>, FgError>
    decreases data.len() - p,
    when 0 <= p
    via parse_table_rows_decreases
{
    if p >= data.len() {
        Ok(seq![])
    } else {
        match parse_row(data, p, delim, q) {
            None => Err(FgError::ConversionError { row: rownum as usize }),
            Some(re) => match row_to_record(schema, header, re.0) {
                None => Err(FgError::ConversionError { row: rownum as usize }),
                Some(rec) => match parse_table_rows(
                    schema,
                    header,
                    data,
                    re.1,
                    delim,
                    q,
                    rownum + 1,
                ) {
                    Ok(rs) => Ok(seq![rec] + rs),
                    Err(e) => Err(e),
                },
            },
        }
    }
}

#[via_fn]
proof fn parse_table_rows_decreases(
    schema: Seq<Field>,
    header: Seq<Seq<u8>>,
    data: Seq<u8>,
    p: int,
    delim: u8,
    q: bool,
    rownum: int,
) {
    lemma_parse_row_pos(data, p, delim, q);
}

/// The whole table parsed from raw content: empty content, a malformed first
/// row, or a header that does not fit the schema is a header failure (row 0);
/// data rows are parsed in order.
pub open spec fn parse_table(schema: Seq<Field>, data: Seq<u8>, delim: u8, q: bool) -> Result<
    Seq<Seq<Option<Seq<char>>>>,
    FgError,
> {
    if schema.len() == 0 {
        Err(FgError::ConversionError { row: 0 })
    } else if data.len() == 0 {
        Err(FgError::ConversionError { row: 0 })
    } else {
        match parse_row(data, 0, delim, q) {
            None => Err(FgError::ConversionError { row: 0 }),
            Some(he) => if header_matches(schema, he.0) {
                parse_table_rows(schema, he.0, data, he.1, delim, q, 1)
            } else {
                Err(FgError::ConversionError { row: 0 })
            },
        }
    }
}

/// A schema a table can be keyed by: at least one field, no name used twice.
pub open spec fn schema_ok(schema: Seq<Field>) -> bool {
    &&& schema.len() > 0
    &&& forall|i: int, j: int|
        0 <= i < j < schema.len() ==> schema[i].name@ != schema[j].name@
}

/// A record whose written row reads back unchanged: it conforms, and no
/// optional field holds a present empty value (an empty cell of an optional
/// field reads back as absent).
pub open spec fn record_round_trips(schema: Seq<Field>, rec: Seq<Option<Seq<char>>>) -> bool {
    &&& record_conforms(schema, rec)
    &&& forall|i: int|
        0 <= i < rec.len() ==> ((#[trigger] rec[i]) matches Some(s) ==> (schema[i].optional
            ==> s.len() > 0))
}

/// All records of a table read back unchanged.
pub open spec fn table_round_trips(schema: Seq<Field>, recs: Seq<Seq<Option<Seq<char>>>>) -> bool {
    forall|i: int| 0 <= i < recs.len() ==> record_round_trips(schema, #[trigger] recs[i])
}

/// Pointwise consequence of a subrange equality.
proof fn lemma_subrange_index(data: Seq<u8>, a: int, b: int, x: Seq<u8>)
    requires
        0 <= a <= b <= data.len(),
        data.subrange(a, b) == x,
    ensures
        x.len() == b - a,
        forall|t: int| 0 <= t < b - a ==> data[a + t] == #[trigger] x[t],
{
    assert forall|t: int| 0 <= t < b - a implies data[a + t] == #[trigger] x[t] by {
        assert(data.subrange(a, b)[t] == data[a + t]);
    }
}

/// Reading a raw cell recovers exactly the safe bytes that were written.
proof fn lemma_parse_raw_inverts(data: Seq<u8>, p: int, v: Seq<u8>, delim: u8)
    requires
        0 <= p,
        p + v.len() <= data.len(),
        data.subrange(p, p + v.len()) == v,
        forall|t: int| 0 <= t < v.len() ==> v[t] != delim && #[trigger] v[t] != 10,
        p + v.len() == data.len() || data[p + v.len()] == delim || data[p + v.len()] == 10,
    ensures
        parse_raw(data, p, delim) == (v, p + v.len()),
    decreases v.len(),
{
    if v.len() == 0 {
    } else {
        assert(data[p] == v[0]);
        assert(data.subrange(p + 1, p + v.len()) =~= v.drop_first());
        assert(forall|t: int|
            0 <= t < v.drop_first().len() ==> #[trigger] v.drop_first()[t] == v[t + 1]);
        lemma_parse_raw_inverts(data, p + 1, v.drop_first(), delim);
        assert(seq![data[p]] + v.drop_first() =~= v);
    }
}

/// Reading a quoted cell recovers exactly the bytes whose escaped form was
/// written between the quotes.
proof fn lemma_parse_quoted_inverts(data: Seq<u8>, p: int, v: Seq<u8>)
    requires
        0 <= p,
        p + escape_quotes(v).len() + 1 <= data.len(),
        data.subrange(p, p + escape_quotes(v).len() + 1) == escape_quotes(v) + seq![34u8],
        p + escape_quotes(v).len() + 1 == data.len() || data[p + escape_quotes(v).len() + 1]
            != 34,
    ensures
        parse_quoted(data, p) == Some((v, p + escape_quotes(v).len() + 1)),
    decreases v.len(),
{
    let e = escape_quotes(v);
    let x = e + seq![34u8];
    lemma_subrange_index(data, p, p + e.len() + 1, x);
    if v.len() == 0 {
        assert(x[0] == 34);
        assert(data[p + 0] == x[0]);
        assert(data[p] == 34);
    } else if v[0] == 34 {
        let e2 = escape_quotes(v.drop_first());
        assert(e =~= seq![34u8, 34u8] + e2);
        assert(x[0] == 34 && x[1] == 34);
        assert(data[p + 0] == x[0]);
        assert(data[p + 1] == x[1]);
        assert(data.subrange(p + 2, p + 2 + e2.len() + 1) =~= e2 + seq![34u8]) by {
            assert forall|t: int| 0 <= t < e2.len() + 1 implies data[p + 2 + t] == (e2
                + seq![34u8])[t] by {
                assert(data[p + (2 + t)] == x[2 + t]);
            }
        }
        lemma_parse_quoted_inverts(data, p + 2, v.drop_first());
        assert(seq![34u8] + v.drop_first() =~= v);
    } else {
        let e2 = escape_quotes(v.drop_first());
        assert(e =~= seq![v[0]] + e2);
        assert(x[0] == v[0]);
        assert(data[p + 0] == x[0]);
        assert(data[p] == v[0]);
        assert(data[p] != 34);
        assert(data.subrange(p + 1, p + 1 + e2.len() + 1) =~= e2 + seq![34u8]) by {
            assert forall|t: int| 0 <= t < e2.len() + 1 implies data[p + 1 + t] == (e2
                + seq![34u8])[t] by {
                assert(data[p + (1 + t)] == x[1 + t]);
            }
        }
        lemma_parse_quoted_inverts(data, p + 1, v.drop_first());
        assert(seq![data[p]] + v.drop_first() =~= v);
    }
}

/// Reading one cell recovers exactly the raw bytes whose rendered form was
/// written, whenever the next byte (if any) closes the cell.
proof fn lemma_parse_field_inverts(data: Seq<u8>, p: int, v: Seq<u8>, delim: u8)
    requires
        0 <= p,
        delim != 34,
        delim != 10,
        p + render_field(v, delim, true).len() <= data.len(),
        data.subrange(p, p + render_field(v, delim, true).len()) == render_field(v, delim, true),
        p + render_field(v, delim, true).len() == data.len() || data[p + render_field(
            v,
            delim,
            true,
        ).len()] == delim || data[p + render_field(v, delim, true).len()] == 10,
    ensures
        parse_field(data, p, delim, true) == Some((v, p + render_field(v, delim, true).len())),
{
    let rf = render_field(v, delim, true);
    lemma_subrange_index(data, p, p + rf.len(), rf);
    if needs_quotes(v, delim) {
        let e = escape_quotes(v);
        assert(rf =~= seq![34u8] + (e + seq![34u8]));
        assert(data[p + 0] == rf[0]);
        assert(data[p] == 34);
        assert(data.subrange(p + 1, p + 1 + e.len() + 1) =~= e + seq![34u8]) by {
            assert forall|t: int| 0 <= t < e.len() + 1 implies data[p + 1 + t] == (e
                + seq![34u8])[t] by {
                assert(data[p + (1 + t)] == rf[1 + t]);
            }
        }
        lemma_parse_quoted_inverts(data, p + 1, v);
        assert(parse_quoted(data, p + 1) == Some((v, p + rf.len())));
    } else {
        assert(rf == v);
        assert(forall|t: int| 0 <= t < v.len() ==> v[t] != delim && #[trigger] v[t] != 10 && v[t]
            != 34);
        if v.len() > 0 {
            assert(data[p + 0] == rf[0]);
            assert(data[p] == v[0]);
            assert(data[p] != 34);
        } else {
            if p < data.len() {
                assert(data[p] == delim || data[p] == 10);
            }
        }
        lemma_parse_raw_inverts(data, p, v, delim);
    }
}

/// The joined cells of a nonempty row decompose at the front: the first
/// rendered cell, then (when more follow) the delimiter and the rest.
proof fn lemma_render_cells_first(vals: Seq<Seq<u8>>, delim: u8, quote: bool)
    requires
        vals.len() >= 1,
    ensures
        vals.len() == 1 ==> render_cells(vals, delim, quote) == render_field(
            vals[0],
            delim,
            quote,
        ),
        vals.len() > 1 ==> render_cells(vals, delim, quote) == render_field(vals[0], delim, quote)
            + seq![delim] + render_cells(vals.drop_first(), delim, quote),
    decreases vals.len(),
{
    if vals.len() > 1 {
        lemma_render_cells_first(vals.drop_last(), delim, quote);
        if vals.len() == 2 {
            assert(vals.drop_last()[0] == vals[0]);
            assert(vals.drop_first().len() == 1);
            assert(vals.drop_first()[0] == vals[1]);
            assert(vals.last() == vals[1]);
            assert(render_cells(vals, delim, quote) =~= render_field(vals[0], delim, quote)
                + seq![delim] + render_cells(vals.drop_first(), delim, quote));
        } else {
            assert(vals.drop_last()[0] == vals[0]);
            assert(vals.drop_last().drop_first() =~= vals.drop_first().drop_last());
            assert(vals.drop_first().last() == vals.last());
            assert(vals.drop_first().len() > 1);
            assert(render_cells(vals.drop_first(), delim, quote) == render_cells(
                vals.drop_first().drop_last(),
                delim,
                quote,
            ) + seq![delim] + render_field(vals.drop_first().last(), delim, quote));
            assert(render_cells(vals, delim, quote) =~= render_field(vals[0], delim, quote)
                + seq![delim] + render_cells(vals.drop_first(), delim, quote));
        }
    }
}

/// Reading one row recovers exactly the cells whose rendered row was written.
proof fn lemma_parse_row_inverts(data: Seq<u8>, p: int, vals: Seq<Seq<u8>>, delim: u8)
    requires
        0 <= p,
        delim != 34,
        delim != 10,
        vals.len() >= 1,
        p + render_row(vals, delim, true).len() <= data.len(),
        data.subrange(p, p + render_row(vals, delim, true).len()) == render_row(vals, delim, true),
    ensures
        parse_row(data, p, delim, true) == Some((vals, p + render_row(vals, delim, true).len())),
    decreases vals.len(),
{
    let rr = render_row(vals, delim, true);
    let rf = render_field(vals[0], delim, true);
    lemma_render_cells_first(vals, delim, true);
    lemma_subrange_index(data, p, p + rr.len(), rr);
    if vals.len() == 1 {
        assert(rr =~= rf + seq![10u8]);
        assert(data.subrange(p, p + rf.len()) =~= rf) by {
            assert forall|t: int| 0 <= t < rf.len() implies data[p + t] == rf[t] by {
                assert(data[p + t] == rr[t]);
            }
        }
        assert(data[p + rf.len()] == rr[rf.len() as int]);
        assert(data[p + rf.len()] == 10);
        lemma_parse_field_inverts(data, p, vals[0], delim);
        assert(seq![vals[0]] =~= vals);
    } else {
        let rest = vals.drop_first();
        let rr2 = render_row(rest, delim, true);
        assert(rr =~= rf + seq![delim] + rr2);
        assert(data.subrange(p, p + rf.len()) =~= rf) by {
            assert forall|t: int| 0 <= t < rf.len() implies data[p + t] == rf[t] by {
                assert(data[p + t] == rr[t]);
            }
        }
        assert(data[p + rf.len()] == rr[rf.len() as int]);
        assert(data[p + rf.len()] == delim);
        lemma_parse_field_inverts(data, p, vals[0], delim);
        assert(data.subrange(p + rf.len() + 1, p + rf.len() + 1 + rr2.len()) =~= rr2) by {
            assert forall|t: int| 0 <= t < rr2.len() implies data[p + rf.len() + 1 + t]
                == rr2[t] by {
                assert(data[p + (rf.len() + 1 + t)] == rr[rf.len() + 1 + t]);
            }
        }
        lemma_parse_row_inverts(data, p + rf.len() + 1, rest, delim);
        assert(seq![vals[0]] + rest =~= vals);
        assert(p + rf.len() + 1 + rr2.len() == p + rr.len());
    }
}

/// Under a distinct-name schema, each field finds its own column in the
/// header row written for that schema.
proof fn lemma_header_self_match(schema: Seq<Field>)
    requires
        schema_ok(schema),
    ensures
        header_matches(schema, schema_names(schema)),
        forall|i: int|
            0 <= i < schema.len() ==> index_of_bytes(
                schema_names(schema),
                encode_utf8(#[trigger] schema[i].name@),
            ) == i,
{
    let header = schema_names(schema);
    assert forall|j: int, k: int| 0 <= j < k < header.len() implies header[j] != header[k] by {
        if header[j] == header[k] {
            lemma_encode_injective(schema[j].name@, schema[k].name@);
        }
    }
    assert forall|i: int| 0 <= i < schema.len() implies index_of_bytes(
        header,
        encode_utf8(#[trigger] schema[i].name@),
    ) == i by {
        assert forall|j: int| 0 <= j < i implies header[j] != encode_utf8(schema[i].name@) by {
            if header[j] == encode_utf8(schema[i].name@) {
                lemma_encode_injective(schema[j].name@, schema[i].name@);
            }
        }
        lemma_index_of_bytes_is(header, encode_utf8(schema[i].name@), i);
    }
}

/// A row written for a round-trip-safe record reads back as that record.
proof fn lemma_row_to_record_inverts(schema: Seq<Field>, rec: Seq<Option<Seq<char>>>)
    requires
        schema_ok(schema),
        record_round_trips(schema, rec),
    ensures
        row_to_record(schema, schema_names(schema), record_cells(rec)) == Some(rec),
{
    broadcast use vstd::utf8::encode_utf8_valid_utf8, vstd::utf8::encode_utf8_decode_utf8;

    let header = schema_names(schema);
    let cols = record_cells(rec);
    lemma_header_self_match(schema);
    assert forall|i: int| 0 <= i < schema.len() implies (#[trigger] decoded_cell(
        cols[index_of_bytes(header, encode_utf8(schema[i].name@))],
        schema[i].optional,
    )) == Some(rec[i]) by {
        assert(cols[i] == cell_bytes(rec[i]));
        match rec[i] {
            Some(s) => {
                assert(valid_utf8(encode_utf8(s)));
                if schema[i].optional {
                    assert(s.len() > 0);
                    lemma_encode_utf8_len(s);
                }
            },
            None => {
                assert(cell_bytes(rec[i]) =~= Seq::<u8>::empty());
                assert(valid_utf8(cell_bytes(rec[i])));
                assert(schema[i].optional);
            },
        }
    }
    assert(Seq::new(
        schema.len(),
        |i: int|
            decoded_cell(
                cols[index_of_bytes(header, encode_utf8(schema[i].name@))],
                schema[i].optional,
            ).unwrap(),
    ) =~= rec);
}

/// The data rows written for round-trip-safe records read back as those
/// records, from any starting row number.
proof fn lemma_parse_table_rows_inverts(
    schema: Seq<Field>,
    recs: Seq<Seq<Option<Seq<char>>>>,
    data: Seq<u8>,
    p: int,
    delim: u8,
    rownum: int,
)
    requires
        schema_ok(schema),
        table_round_trips(schema, recs),
        delim != 34,
        delim != 10,
        0 <= p <= data.len(),
        data.subrange(p, data.len() as int) == render_records(recs, delim, true),
    ensures
        parse_table_rows(schema, schema_names(schema), data, p, delim, true, rownum) == Ok::<_, FgError>(recs),
    decreases recs.len(),
{
    if recs.len() == 0 {
        assert(data.subrange(p, data.len() as int).len() == 0);
        assert(p == data.len());
        assert(recs =~= Seq::<Seq<Option<Seq<char>>>>::empty());
    } else {
        assert(recs[0] == recs[0]);
        let cells = record_cells(recs[0]);
        let rr = render_row(cells, delim, true);
        let rest = render_records(recs.drop_first(), delim, true);
        assert(data.subrange(p, data.len() as int) == rr + rest);
        assert(cells.len() == schema.len());
        assert forall|t: int| 0 <= t < rr.len() implies data[p + t] == rr[t] by {
            assert(data.subrange(p, data.len() as int)[t] == data[p + t]);
            assert((rr + rest)[t] == rr[t]);
        }
        assert(data.subrange(p, p + rr.len()) =~= rr);
        lemma_parse_row_inverts(data, p, cells, delim);
        lemma_row_to_record_inverts(schema, recs[0]);
        assert(data.subrange(p + rr.len(), data.len() as int) =~= rest) by {
            assert forall|t: int| 0 <= t < rest.len() implies data[p + rr.len() + t] == rest[t] by {
                assert(data.subrange(p, data.len() as int)[rr.len() + t] == data[p + rr.len()
                    + t]);
                assert((rr + rest)[rr.len() + t] == rest[t]);
            }
        }
        assert(table_round_trips(schema, recs.drop_first())) by {
            assert(forall|i: int|
                0 <= i < recs.drop_first().len() ==> #[trigger] recs.drop_first()[i] == recs[i
                    + 1]);
        }
        assert(p < data.len()) by {
            assert(rr.len() > 0);
        }
        lemma_parse_table_rows_inverts(
            schema,
            recs.drop_first(),
            data,
            p + rr.len(),
            delim,
            rownum + 1,
        );
        assert(seq![recs[0]] + recs.drop_first() =~= recs);
    }
}

/// The round trip of whole tables: parsing a rendered table under the same
/// schema, delimiter, and quoting yields exactly the records that were
/// written, for every distinct-name schema, every ordinary delimiter, and
/// every sequence of round-trip-safe records (empty sequences included).
pub proof fn lemma_table_round_trip(
    schema: Seq<Field>,
    recs: Seq<Seq<Option<Seq<char>>>>,
    delim: u8,
)
    requires
        schema_ok(schema),
        table_round_trips(schema, recs),
        delim != 34,
        delim != 10,
    ensures
        parse_table(schema, table_bytes(schema, recs, delim, true), delim, true) == Ok::<_, FgError>(recs),
{
    let header = schema_names(schema);
    let hr = render_row(header, delim, true);
    let rest = render_records(recs, delim, true);
    let data = table_bytes(schema, recs, delim, true);
    assert(data == hr + rest);
    assert(data.len() > 0) by {
        assert(hr.len() > 0);
    }
    assert(data.subrange(0, hr.len() as int) =~= hr);
    lemma_parse_row_inverts(data, 0, header, delim);
    lemma_header_self_match(schema);
    assert(data.subrange(hr.len() as int, data.len() as int) =~= rest);
    lemma_parse_table_rows_inverts(schema, recs, data, hr.len() as int, delim, 1);
}

/// UTF-8 encoding is injective.
pub proof fn lemma_encode_injective(a: Seq<char>, b: Seq<char>)
    requires
        encode_utf8(a) == encode_utf8(b),
    ensures
        a == b,
{
    broadcast use vstd::utf8::encode_utf8_decode_utf8;

    assert(decode_utf8(encode_utf8(a)) == a);
    assert(decode_utf8(encode_utf8(b)) == b);
}

} // verus!
