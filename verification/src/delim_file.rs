//! Reading and writing of record tables as delimited files, with transparent,
//! extension-driven compression.
//!
//! `write` renders the header and one row per record and compresses the whole
//! image as the path's extension directs; `read` inverts that. Comma and tab
//! presets fix the delimiter and always quote as needed.

use vstd::prelude::*;
use vstd::string::StrSliceExecFns;
use vstd::utf8::{decode_utf8, encode_utf8};

use crate::FgError;
use crate::compress::{
    gunzip_of, gzip_compress, gzip_decompress, gzip_of, unzstd_of, vec_to_string, zstd_compress,
    zstd_decompress, zstd_of,
};
use crate::delim::{index_of_bytes, lemma_index_of_bytes, lemma_index_of_bytes_is, render_row};
use crate::gateway::{is_gzip_spec, is_zstd_spec, Io, BUFFER_SIZE};
use crate::rows::{bytes_eq, copy_bytes, parse_row_exec, render_row_into};
use crate::table::{
    decoded_cell, header_matches, lemma_table_round_trip, parse_table, parse_table_rows,
    record_cells, record_conforms, render_records, row_to_record, schema_names, schema_ok,
    table_bytes, table_round_trips, write_error_row, Field,
};

verus! {

/// The comma delimiter byte.
pub const COMMA: u8 = 44;

/// The tab delimiter byte.
pub const TAB: u8 = 9;

/// The row on which a write is rejected — 0 for an empty schema, the record's
/// one-based row otherwise — or `None` when every record is written.
pub open spec fn write_rejects(schema: Seq<Field>, recs: Seq<Seq<Option<Seq<char>>>>) -> Option<
    int,
> {
    if schema.len() == 0 {
        Some(0)
    } else {
        write_error_row(schema, recs, 1)
    }
}

/// The file image written for a table at the given path: the rendered table,
/// compressed as the path's extension directs.
pub open spec fn encoded_table(
    p: Seq<char>,
    schema: Seq<Field>,
    recs: Seq<Seq<Option<Seq<char>>>>,
    delim: u8,
    quote: bool,
    level: int,
) -> Seq<u8> {
    if is_gzip_spec(p) {
        gzip_of(table_bytes(schema, recs, delim, quote), level)
    } else if is_zstd_spec(p) {
        zstd_of(table_bytes(schema, recs, delim, quote))
    } else {
        table_bytes(schema, recs, delim, quote)
    }
}

/// The records read back from a file image at the given path: undecodable
/// compressed bytes are the byte-level error, anything else parses as a
/// table.
pub open spec fn decoded_table(
    p: Seq<char>,
    schema: Seq<Field>,
    data: Seq<u8>,
    delim: u8,
    q: bool,
) -> Result<Seq<Seq<Option<Seq<char>>>>, FgError> {
    if is_gzip_spec(p) {
        match gunzip_of(data) {
            Some(c) => parse_table(schema, c, delim, q),
            None => Err(FgError::IoError),
        }
    } else if is_zstd_spec(p) {
        match unzstd_of(data) {
            Some(c) => parse_table(schema, c, delim, q),
            None => Err(FgError::IoError),
        }
    } else {
        parse_table(schema, data, delim, q)
    }
}

/// A record parse result with earlier records put back in front.
pub open spec fn prepend_recs(
    pre: Seq<Seq<Option<Seq<char>>>>,
    r: Result<Seq<Seq<Option<Seq<char>>>>, FgError>,
) -> Result<Seq<Seq<Option<Seq<char>>>>, FgError> {
    match r {
        Ok(rs) => Ok(pre + rs),
        Err(e) => Err(e),
    }
}

/// Where the first nonconforming record at or after position `k` stands, the
/// write error lands on it; where none stands, no record is rejected.
proof fn lemma_write_error_row(
    schema: Seq<Field>,
    recs: Seq<Seq<Option<Seq<char>>>>,
    rownum: int,
    k: int,
)
    requires
        0 <= k <= recs.len(),
        forall|t: int| 0 <= t < k ==> record_conforms(schema, #[trigger] recs[t]),
    ensures
        k == recs.len() ==> write_error_row(schema, recs, rownum) is None,
        k < recs.len() && !record_conforms(schema, recs[k]) ==> write_error_row(
            schema,
            recs,
            rownum,
        ) == Some(rownum + k),
    decreases recs.len(),
{
    if recs.len() == 0 {
    } else {
        assert(recs[0] == recs[0]);
        if k > 0 {
            assert(record_conforms(schema, recs[0]));
            assert(forall|t: int|
                0 <= t < recs.drop_first().len() ==> #[trigger] recs.drop_first()[t] == recs[t
                    + 1]);
            lemma_write_error_row(schema, recs.drop_first(), rownum + 1, k - 1);
        }
    }
}

/// Appending one record extends the written rows by that record's row.
proof fn lemma_render_records_push(
    recs: Seq<Seq<Option<Seq<char>>>>,
    rec: Seq<Option<Seq<char>>>,
    delim: u8,
    quote: bool,
)
    ensures
        render_records(recs.push(rec), delim, quote) == render_records(recs, delim, quote)
            + render_row(record_cells(rec), delim, quote),
    decreases recs.len(),
{
    if recs.len() == 0 {
        let one = recs.push(rec);
        assert(one[0] == rec);
        assert(render_records(one, delim, quote) == render_row(record_cells(one[0]), delim, quote)
            + render_records(one.drop_first(), delim, quote));
        assert(one.drop_first() =~= Seq::<Seq<Option<Seq<char>>>>::empty());
        assert(render_records(one.drop_first(), delim, quote).len() == 0);
        assert(render_records(one, delim, quote) =~= render_records(recs, delim, quote)
            + render_row(record_cells(rec), delim, quote));
    } else {
        assert(recs.push(rec)[0] == recs[0]);
        assert(recs.push(rec).drop_first() =~= recs.drop_first().push(rec));
        lemma_render_records_push(recs.drop_first(), rec, delim, quote);
        assert(render_records(recs.push(rec), delim, quote) =~= render_records(recs, delim, quote)
            + render_row(record_cells(rec), delim, quote));
    }
}

/// Reading and writing of record tables to and from delimited file images.
pub struct DelimFile {
    io: Io,
}

impl DelimFile {
    /// The gateway this instance encodes and compresses through.
    pub closed spec fn spec_io(&self) -> Io {
        self.io
    }

    /// Builds a table codec around the given gateway.
    pub fn new(io: Io) -> (r: DelimFile)
        ensures
            r.spec_io() == io,
    {
        DelimFile { io }
    }

    /// Writes the header row and one row per record, in order, and compresses
    /// the image as the path's extension directs. Rejects an empty schema
    /// (row 0) and the first record of the wrong shape (its one-based row);
    /// otherwise only a zstd path can fail. Whenever quoting is on, the
    /// schema's names are distinct, the delimiter is no quote or newline
    /// byte, and every record round-trips, the written image reads back as
    /// exactly the given records.
    pub fn write(
        &self,
        path: &str,
        schema: &Vec<Field>,
        recs: &Vec<Vec<Option<String>>>,
        delimiter: u8,
        quote: bool,
    ) -> (r: Result<Vec<u8>, FgError>)
        requires
            self.spec_io().wf(),
        ensures
            r matches Ok(bytes) ==> write_rejects(schema@, recs.deep_view()) is None && bytes@
                == encoded_table(
                path@,
                schema@,
                recs.deep_view(),
                delimiter,
                quote,
                self.spec_io().spec_level() as int,
            ),
            r matches Err(e) ==> match e {
                FgError::IoError => write_rejects(schema@, recs.deep_view()) is None
                    && is_zstd_spec(path@),
                FgError::ConversionError { row } => write_rejects(schema@, recs.deep_view())
                    == Some(row as int),
            },
            r matches Ok(bytes) ==> (quote && schema_ok(schema@) && table_round_trips(
                schema@,
                recs.deep_view(),
            ) && delimiter != 34 && delimiter != 10 ==> decoded_table(
                path@,
                schema@,
                bytes@,
                delimiter,
                true,
            ) == Ok::<_, FgError>(recs.deep_view())),
    {
        let ghost rdv = recs.deep_view();
        let nrecs = recs.len();
        if schema.len() == 0 {
            return Err(FgError::ConversionError { row: 0 });
        }
        let mut hcells: Vec<Vec<u8>> = Vec::new();
        let mut i: usize = 0;
        while i < schema.len()
            invariant
                i <= schema@.len(),
                hcells.deep_view() == schema_names(schema@).take(i as int),
            decreases schema@.len() - i,
        {
            let nb = schema[i].name.as_str().as_bytes_vec();
            let ghost hdvp = hcells.deep_view();
            hcells.push(nb);
            proof {
                assert(hcells.deep_view() =~~= hdvp.push(nb@));
                assert(hdvp.push(nb@) =~= schema_names(schema@).take(i as int + 1));
            }
            i = i + 1;
        }
        let mut content: Vec<u8> = Vec::new();
        proof {
            assert(hcells.deep_view() =~= schema_names(schema@));
        }
        render_row_into(&hcells, delimiter, quote, &mut content);
        let ghost header_bytes = render_row(schema_names(schema@), delimiter, quote);
        let mut k: usize = 0;
        while k < recs.len()
            invariant
                k <= recs@.len(),
                nrecs == recs@.len(),
                rdv == recs.deep_view(),
                schema@.len() > 0,
                forall|t: int| 0 <= t < k ==> record_conforms(schema@, #[trigger] rdv[t]),
                content@ == header_bytes + render_records(rdv.take(k as int), delimiter, quote),
                header_bytes == render_row(schema_names(schema@), delimiter, quote),
            decreases recs@.len() - k,
        {
            let rec = &recs[k];
            proof {
                assert(rdv[k as int] == recs@[k as int].deep_view());
            }
            if rec.len() != schema.len() {
                proof {
                    assert(!record_conforms(schema@, rdv[k as int]));
                    lemma_write_error_row(schema@, rdv, 1, k as int);
                }
                return Err(FgError::ConversionError { row: k + 1 });
            }
            let mut cells: Vec<Vec<u8>> = Vec::new();
            let mut j: usize = 0;
            while j < schema.len()
                invariant
                    j <= schema@.len(),
                    rdv == recs.deep_view(),
                    k < nrecs,
                    nrecs == recs@.len(),
                    k < recs@.len(),
                    rdv[k as int] == recs@[k as int].deep_view(),
                    recs@[k as int]@.len() == schema@.len(),
                    forall|t: int|
                        0 <= t < j ==> schema@[t].optional || #[trigger] rdv[k as int][t] is Some,
                    cells.deep_view() == record_cells(rdv[k as int]).take(j as int),
                    forall|t: int| 0 <= t < k ==> record_conforms(schema@, #[trigger] rdv[t]),
                decreases schema@.len() - j,
            {
                proof {
                    assert(rdv[k as int][j as int] == recs@[k as int]@[j as int].deep_view());
                }
                let ghost cdvp = cells.deep_view();
                match &recs[k][j] {
                    Some(s) => {
                        let cb = s.as_str().as_bytes_vec();
                        cells.push(cb);
                        proof {
                            assert(cells.deep_view() =~~= cdvp.push(cb@));
                        }
                    },
                    None => {
                        if !schema[j].optional {
                            proof {
                                assert(!record_conforms(schema@, rdv[k as int]));
                                lemma_write_error_row(schema@, rdv, 1, k as int);
                            }
                            return Err(FgError::ConversionError { row: k + 1 });
                        }
                        let empty_cell: Vec<u8> = Vec::new();
                        cells.push(empty_cell);
                        proof {
                            assert(cells.deep_view() =~~= cdvp.push(Seq::<u8>::empty()));
                        }
                    },
                }
                proof {
                    assert(cells.deep_view() =~= record_cells(rdv[k as int]).take(j as int + 1));
                }
                j = j + 1;
            }
            proof {
                assert(cells.deep_view() =~= record_cells(rdv[k as int]));
                assert(record_conforms(schema@, rdv[k as int]));
            }
            render_row_into(&cells, delimiter, quote, &mut content);
            proof {
                lemma_render_records_push(rdv.take(k as int), rdv[k as int], delimiter, quote);
                assert(rdv.take(k as int + 1) =~= rdv.take(k as int).push(rdv[k as int]));
                assert(content@ =~= header_bytes + render_records(
                    rdv.take(k as int + 1),
                    delimiter,
                    quote,
                ));
            }
            k = k + 1;
        }
        proof {
            assert(rdv.take(recs@.len() as int) =~= rdv);
            lemma_write_error_row(schema@, rdv, 1, rdv.len() as int);
            assert(content@ == table_bytes(schema@, rdv, delimiter, quote));
            if quote && schema_ok(schema@) && table_round_trips(schema@, rdv) && delimiter != 34
                && delimiter != 10 {
                lemma_table_round_trip(schema@, rdv, delimiter);
            }
        }
        if Io::is_gzip_path(path) {
            Ok(gzip_compress(&content, self.io.compression_level()))
        } else if Io::is_zstd_path(path) {
            match zstd_compress(&content) {
                Some(v) => Ok(v),
                None => Err(FgError::IoError),
            }
        } else {
            Ok(content)
        }
    }

    /// Writes a table with tab delimiters, quoting as needed.
    pub fn write_tsv(
        &self,
        path: &str,
        schema: &Vec<Field>,
        recs: &Vec<Vec<Option<String>>>,
    ) -> (r: Result<Vec<u8>, FgError>)
        requires
            self.spec_io().wf(),
        ensures
            r matches Ok(bytes) ==> write_rejects(schema@, recs.deep_view()) is None && bytes@
                == encoded_table(
                path@,
                schema@,
                recs.deep_view(),
                TAB,
                true,
                self.spec_io().spec_level() as int,
            ),
            r matches Err(e) ==> match e {
                FgError::IoError => write_rejects(schema@, recs.deep_view()) is None
                    && is_zstd_spec(path@),
                FgError::ConversionError { row } => write_rejects(schema@, recs.deep_view())
                    == Some(row as int),
            },
            r matches Ok(bytes) ==> (schema_ok(schema@) && table_round_trips(
                schema@,
                recs.deep_view(),
            ) ==> decoded_table(path@, schema@, bytes@, TAB, true) == Ok::<_, FgError>(
                recs.deep_view(),
            )),
    {
        self.write(path, schema, recs, TAB, true)
    }

    /// Writes a table with comma delimiters, quoting as needed.
    pub fn write_csv(
        &self,
        path: &str,
        schema: &Vec<Field>,
        recs: &Vec<Vec<Option<String>>>,
    ) -> (r: Result<Vec<u8>, FgError>)
        requires
            self.spec_io().wf(),
        ensures
            r matches Ok(bytes) ==> write_rejects(schema@, recs.deep_view()) is None && bytes@
                == encoded_table(
                path@,
                schema@,
                recs.deep_view(),
                COMMA,
                true,
                self.spec_io().spec_level() as int,
            ),
            r matches Err(e) ==> match e {
                FgError::IoError => write_rejects(schema@, recs.deep_view()) is None
                    && is_zstd_spec(path@),
                FgError::ConversionError { row } => write_rejects(schema@, recs.deep_view())
                    == Some(row as int),
            },
            r matches Ok(bytes) ==> (schema_ok(schema@) && table_round_trips(
                schema@,
                recs.deep_view(),
            ) ==> decoded_table(path@, schema@, bytes@, COMMA, true) == Ok::<_, FgError>(
                recs.deep_view(),
            )),
    {
        self.write(path, schema, recs, COMMA, true)
    }

    /// Reads a table back from a file image: decompresses as the path's
    /// extension directs, reads the header against the schema by name, then
    /// one record per row.
    pub fn read(
        &self,
        path: &str,
        schema: &Vec<Field>,
        data: &Vec<u8>,
        delimiter: u8,
        quote: bool,
    ) -> (r: Result<Vec<Vec<Option<String>>>, FgError>)
        ensures
            r matches Ok(v) ==> decoded_table(path@, schema@, data@, delimiter, quote) == Ok::<
                _,
                FgError,
            >(v.deep_view()),
            r matches Err(e) ==> decoded_table(path@, schema@, data@, delimiter, quote) == Err::<
                Seq<Seq<Option<Seq<char>>>>,
                FgError,
            >(e),
    {
        if Io::is_gzip_path(path) {
            match gzip_decompress(data) {
                Some(c) => parse_table_exec(schema, &c, delimiter, quote),
                None => Err(FgError::IoError),
            }
        } else if Io::is_zstd_path(path) {
            match zstd_decompress(data) {
                Some(c) => parse_table_exec(schema, &c, delimiter, quote),
                None => Err(FgError::IoError),
            }
        } else {
            parse_table_exec(schema, data, delimiter, quote)
        }
    }

    /// Reads a tab-delimited table, honoring quotes.
    pub fn read_tsv(&self, path: &str, schema: &Vec<Field>, data: &Vec<u8>) -> (r: Result<
        Vec<Vec<Option<String>>>,
        FgError,
    >)
        ensures
            r matches Ok(v) ==> decoded_table(path@, schema@, data@, TAB, true) == Ok::<
                _,
                FgError,
            >(v.deep_view()),
            r matches Err(e) ==> decoded_table(path@, schema@, data@, TAB, true) == Err::<
                Seq<Seq<Option<Seq<char>>>>,
                FgError,
            >(e),
    {
        self.read(path, schema, data, TAB, true)
    }

    /// Reads a comma-delimited table, honoring quotes.
    pub fn read_csv(&self, path: &str, schema: &Vec<Field>, data: &Vec<u8>) -> (r: Result<
        Vec<Vec<Option<String>>>,
        FgError,
    >)
        ensures
            r matches Ok(v) ==> decoded_table(path@, schema@, data@, COMMA, true) == Ok::<
                _,
                FgError,
            >(v.deep_view()),
            r matches Err(e) ==> decoded_table(path@, schema@, data@, COMMA, true) == Err::<
                Seq<Seq<Option<Seq<char>>>>,
                FgError,
            >(e),
    {
        self.read(path, schema, data, COMMA, true)
    }
}

impl Default for DelimFile {
    /// The default instance: the default gateway (gzip level 5, default
    /// buffer size).
    fn default() -> (r: DelimFile)
        ensures
            r.spec_io().spec_level() == 5,
            r.spec_io().spec_buffer_size() == BUFFER_SIZE,
            r.spec_io().wf(),
    {
        DelimFile { io: Io::default() }
    }
}

/// Parses a whole uncompressed table image against the schema.
#[verifier::loop_isolation(false)]
#[verifier::rlimit(100)]
fn parse_table_exec(schema: &Vec<Field>, content: &Vec<u8>, delim: u8, q: bool) -> (r: Result<
    Vec<Vec<Option<String>>>,
    FgError,
>)
    ensures
        r matches Ok(v) ==> parse_table(schema@, content@, delim, q) == Ok::<_, FgError>(
            v.deep_view(),
        ),
        r matches Err(e) ==> parse_table(schema@, content@, delim, q) == Err::<
            Seq<Seq<Option<Seq<char>>>>,
            FgError,
        >(e),
{
    let ghost c = content@;
    if schema.len() == 0 {
        return Err(FgError::ConversionError { row: 0 });
    }
    if content.len() == 0 {
        return Err(FgError::ConversionError { row: 0 });
    }
    let (header, hend) = match parse_row_exec(content, 0, delim, q) {
        None => {
            return Err(FgError::ConversionError { row: 0 });
        },
        Some(x) => x,
    };
    let ghost hdr = header.deep_view();
    proof {
        crate::delim::lemma_parse_row_pos(c, 0, delim, q);
    }
    if header.len() != schema.len() {
        proof {
            assert(hdr.len() == header@.len());
            assert(!header_matches(schema@, hdr));
        }
        return Err(FgError::ConversionError { row: 0 });
    }
    // no header name may repeat
    let mut a: usize = 0;
    while a < header.len()
        invariant
            a <= header@.len(),
            hdr == header.deep_view(),
            forall|x: int, y: int| 0 <= x < y < header@.len() && x < a ==> hdr[x] != hdr[y],
        decreases header@.len() - a,
    {
        let mut b = a + 1;
        while b < header.len()
            invariant
                a < b <= header@.len() || a + 1 == b,
                a < header@.len(),
                hdr == header.deep_view(),
                forall|y: int| a < y < b ==> hdr[a as int] != hdr[y],
            decreases header@.len() - b,
        {
            if bytes_eq(&header[a], &header[b]) {
                proof {
                    assert(header@[a as int].deep_view() =~= header@[a as int]@);
                    assert(header@[b as int].deep_view() =~= header@[b as int]@);
                    assert(hdr[a as int] == hdr[b as int]);
                    assert(!header_matches(schema@, hdr));
                }
                return Err(FgError::ConversionError { row: 0 });
            }
            proof {
                assert(header@[a as int].deep_view() =~= header@[a as int]@);
                assert(header@[b as int].deep_view() =~= header@[b as int]@);
            }
            b = b + 1;
        }
        a = a + 1;
    }
    // each schema field finds its column
    let mut mapping: Vec<usize> = Vec::new();
    let mut i: usize = 0;
    while i < schema.len()
        invariant
            i <= schema@.len(),
            hdr == header.deep_view(),
            header@.len() == schema@.len(),
            mapping@.len() == i,
            forall|t: int|
                0 <= t < i ==> #[trigger] mapping@[t] < header@.len() && mapping@[t] as int
                    == index_of_bytes(hdr, encode_utf8(schema@[t].name@)),
        decreases schema@.len() - i,
    {
        let name_bytes = schema[i].name.as_str().as_bytes_vec();
        let mut m: usize = 0;
        let mut found = false;
        while m < header.len() && !found
            invariant
                i < schema@.len(),
                m <= header@.len(),
                hdr == header.deep_view(),
                name_bytes@ == encode_utf8(schema@[i as int].name@),
                !found ==> forall|t: int| 0 <= t < m ==> hdr[t] != name_bytes@,
                found ==> m < header@.len() && hdr[m as int] == name_bytes@ && forall|t: int|
                    0 <= t < m ==> hdr[t] != name_bytes@,
            decreases header@.len() - m + (if found { 0int } else { 1int }),
        {
            if bytes_eq(&header[m], &name_bytes) {
                found = true;
                proof {
                    assert(header@[m as int].deep_view() =~= header@[m as int]@);
                }
            } else {
                proof {
                    assert(header@[m as int].deep_view() =~= header@[m as int]@);
                }
                m = m + 1;
            }
        }
        if !found {
            proof {
                lemma_index_of_bytes(hdr, name_bytes@);
                assert(index_of_bytes(hdr, encode_utf8(schema@[i as int].name@)) == -1);
                assert(!header_matches(schema@, hdr));
            }
            return Err(FgError::ConversionError { row: 0 });
        }
        proof {
            lemma_index_of_bytes_is(hdr, name_bytes@, m as int);
        }
        mapping.push(m);
        i = i + 1;
    }
    proof {
        assert(hdr.len() == header@.len());
        assert forall|t: int| 0 <= t < schema@.len() implies index_of_bytes(
            hdr,
            encode_utf8(#[trigger] schema@[t].name@),
        ) >= 0 by {
            assert(mapping@[t] as int == index_of_bytes(hdr, encode_utf8(schema@[t].name@)));
        }
        assert(header_matches(schema@, hdr));
    }
    // the data rows
    let mut out: Vec<Vec<Option<String>>> = Vec::new();
    let mut pos = hend;
    let mut rownum: usize = 1;
    proof {
        assert(out.deep_view() =~= Seq::<Seq<Option<Seq<char>>>>::empty());
        match parse_table_rows(schema@, hdr, c, hend as int, delim, q, 1) {
            Ok(rs) => {
                assert(out.deep_view() + rs =~= rs);
            },
            Err(_) => {},
        }
        assert(1 <= hend);
    }
    while pos < content.len()
        invariant
            hend <= pos <= c.len(),
            1 <= hend,
            c == content@,
            hdr == header.deep_view(),
            header@.len() == schema@.len(),
            schema@.len() > 0,
            mapping@.len() == schema@.len(),
            forall|t: int|
                0 <= t < schema@.len() ==> #[trigger] mapping@[t] < header@.len() && mapping@[t]
                    as int == index_of_bytes(hdr, encode_utf8(schema@[t].name@)),
            rownum == out@.len() + 1,
            out@.len() + hend <= pos,
            parse_table_rows(schema@, hdr, c, hend as int, delim, q, 1) == prepend_recs(
                out.deep_view(),
                parse_table_rows(schema@, hdr, c, pos as int, delim, q, rownum as int),
            ),
        decreases c.len() - pos,
    {
        let ghost odv = out.deep_view();
        match parse_row_exec(content, pos, delim, q) {
            None => {
                return Err(FgError::ConversionError { row: rownum });
            },
            Some((cols, e)) => {
                proof {
                    crate::delim::lemma_parse_row_pos(c, pos as int, delim, q);
                }
                let ghost colsdv = cols.deep_view();
                if cols.len() != header.len() {
                    proof {
                        assert(row_to_record(schema@, hdr, colsdv) is None);
                    }
                    return Err(FgError::ConversionError { row: rownum });
                }
                let mut rec: Vec<Option<String>> = Vec::new();
                let mut fi: usize = 0;
                while fi < schema.len()
                    invariant
                        fi <= schema@.len(),
                        rec@.len() == fi,
                        hdr == header.deep_view(),
                        colsdv == cols.deep_view(),
                        cols@.len() == header@.len(),
                        header@.len() == schema@.len(),
                        mapping@.len() == schema@.len(),
                        forall|t: int|
                            0 <= t < schema@.len() ==> #[trigger] mapping@[t] < header@.len()
                                && mapping@[t] as int == index_of_bytes(
                                hdr,
                                encode_utf8(schema@[t].name@),
                            ),
                        forall|t: int|
                            0 <= t < fi ==> #[trigger] decoded_cell(
                                colsdv[mapping@[t] as int],
                                schema@[t].optional,
                            ) == Some(rec.deep_view()[t]),
                    decreases schema@.len() - fi,
                {
                    let m = mapping[fi];
                    let cell = copy_bytes(&cols[m]);
                    let ghost raw = colsdv[m as int];
                    proof {
                        assert(cols@[m as int].deep_view() =~= cols@[m as int]@);
                        assert(cell@ == raw);
                    }
                    let empty = cell.len() == 0;
                    let ghost rdvp = rec.deep_view();
                    match vec_to_string(cell) {
                        None => {
                            proof {
                                assert(decoded_cell(
                                    colsdv[index_of_bytes(
                                        hdr,
                                        encode_utf8(schema@[fi as int].name@),
                                    )],
                                    schema@[fi as int].optional,
                                ) is None);
                                assert(row_to_record(schema@, hdr, colsdv) is None);
                            }
                            return Err(FgError::ConversionError { row: rownum });
                        },
                        Some(s) => {
                            if schema[fi].optional && empty {
                                rec.push(None);
                                proof {
                                    assert(rec.deep_view() =~~= rdvp.push(None));
                                }
                            } else {
                                rec.push(Some(s));
                                proof {
                                    assert(rec.deep_view() =~~= rdvp.push(
                                        Some(decode_utf8(raw)),
                                    ));
                                }
                            }
                        },
                    }
                    fi = fi + 1;
                }
                let ghost recdv = rec.deep_view();
                proof {
                    assert forall|t: int| 0 <= t < schema@.len() implies (#[trigger] decoded_cell(
                        colsdv[index_of_bytes(hdr, encode_utf8(schema@[t].name@))],
                        schema@[t].optional,
                    )) == Some(recdv[t]) by {
                        assert(mapping@[t] as int == index_of_bytes(
                            hdr,
                            encode_utf8(schema@[t].name@),
                        ));
                        assert(decoded_cell(colsdv[mapping@[t] as int], schema@[t].optional)
                            == Some(recdv[t]));
                    }
                    assert(row_to_record(schema@, hdr, colsdv) == Some(recdv)) by {
                        assert(Seq::new(
                            schema@.len(),
                            |t: int|
                                decoded_cell(
                                    colsdv[index_of_bytes(hdr, encode_utf8(schema@[t].name@))],
                                    schema@[t].optional,
                                ).unwrap(),
                        ) =~= recdv);
                    }
                }
                out.push(rec);
                proof {
                    assert(out.deep_view() =~~= odv.push(recdv));
                    match parse_table_rows(schema@, hdr, c, e as int, delim, q, rownum + 1) {
                        Ok(rs) => {
                            assert(odv + (seq![recdv] + rs) =~= odv.push(recdv) + rs);
                        },
                        Err(_) => {},
                    }
                }
                pos = e;
                rownum = rownum + 1;
            },
        }
    }
    proof {
        assert(parse_table_rows(schema@, hdr, c, pos as int, delim, q, rownum as int) == Ok::<
            _,
            FgError,
        >(Seq::<Seq<Option<Seq<char>>>>::empty()));
        assert(out.deep_view() + Seq::<Seq<Option<Seq<char>>>>::empty() =~= out.deep_view());
    }
    Ok(out)
}

} // verus!
