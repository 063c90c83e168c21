//! The delimited text grammar: rendering and parsing of rows of byte cells.
//!
//! A row is its cells joined by a single delimiter byte and terminated by a
//! newline byte. When quoting is on, a written cell that holds the delimiter,
//! a quote, or a line-terminator byte is wrapped in double quotes with inner
//! quotes doubled, and a read cell that opens with a quote is unescaped.

use vstd::prelude::*;

verus! {

/// A cell's bytes with every quote doubled.
pub open spec fn escape_quotes(v: Seq<u8>) -> Seq<u8>
    decreases v.len(),
{
    if v.len() == 0 {
        seq![]
    } else if v[0] == 34 {
        seq![34u8, 34u8] + escape_quotes(v.drop_first())
    } else {
        seq![v[0]] + escape_quotes(v.drop_first())
    }
}

/// True when a cell written unquoted would corrupt the row shape.
pub open spec fn needs_quotes(v: Seq<u8>, delim: u8) -> bool {
    exists|i: int| 0 <= i < v.len() && (v[i] == delim || v[i] == 34 || v[i] == 10 || v[i] == 13)
}

/// A cell as written: quoted and escaped exactly when quoting is on and the
/// raw bytes need it; raw bytes otherwise, whatever they hold.
pub open spec fn render_field(v: Seq<u8>, delim: u8, quote: bool) -> Seq<u8> {
    if quote && needs_quotes(v, delim) {
        seq![34u8] + escape_quotes(v) + seq![34u8]
    } else {
        v
    }
}

/// A row's cells as written: rendered cells joined by the delimiter.
pub open spec fn render_cells(vals: Seq<Seq<u8>>, delim: u8, quote: bool) -> Seq<u8>
    decreases vals.len(),
{
    if vals.len() == 0 {
        seq![]
    } else if vals.len() == 1 {
        render_field(vals[0], delim, quote)
    } else {
        render_cells(vals.drop_last(), delim, quote) + seq![delim] + render_field(
            vals.last(),
            delim,
            quote,
        )
    }
}

/// A whole row as written: joined cells and the newline terminator.
pub open spec fn render_row(vals: Seq<Seq<u8>>, delim: u8, quote: bool) -> Seq<u8> {
    render_cells(vals, delim, quote) + seq![10u8]
}

/// The inside of a quoted cell from position `p` (just past the opening
/// quote) to its closing quote: the unescaped bytes and the position just
/// past the closing quote, or `None` when the quote never closes.
pub open spec fn parse_quoted(data: Seq<u8>, p: int) -> Option<(Seq<u8>, int)>
    decreases data.len() - p,
{
    if p >= data.len() {
        None
    } else if data[p] == 34 {
        if p + 1 < data.len() && data[p + 1] == 34 {
            match parse_quoted(data, p + 2) {
                Some(ve) => Some((seq![34u8] + ve.0, ve.1)),
                None => None,
            }
        } else {
            Some((seq![], p + 1))
        }
    } else {
        match parse_quoted(data, p + 1) {
            Some(ve) => Some((seq![data[p]] + ve.0, ve.1)),
            None => None,
        }
    }
}

/// An unquoted cell from position `p`: every byte up to the next delimiter or
/// newline (or the end), and the position of that stopping byte.
pub open spec fn parse_raw(data: Seq<u8>, p: int, delim: u8) -> (Seq<u8>, int)
    decreases data.len() - p,
{
    if p >= data.len() {
        (seq![], p)
    } else if data[p] == delim || data[p] == 10 {
        (seq![], p)
    } else {
        let ve = parse_raw(data, p + 1, delim);
        (seq![data[p]] + ve.0, ve.1)
    }
}

/// One cell from position `p`. With quoting on, a cell that opens with a
/// quote is read quoted and must close directly before a delimiter, newline,
/// or the end; any other cell is read raw.
pub open spec fn parse_field(data: Seq<u8>, p: int, delim: u8, q: bool) -> Option<(Seq<u8>, int)> {
    if q && p < data.len() && data[p] == 34 {
        match parse_quoted(data, p + 1) {
            Some(ve) => if ve.1 >= data.len() || data[ve.1] == delim || data[ve.1] == 10 {
                Some(ve)
            } else {
                None
            },
            None => None,
        }
    } else {
        Some(parse_raw(data, p, delim))
    }
}

/// A quoted cell ends past its opening position and, started in range, ends
/// in range.
pub proof fn lemma_parse_quoted_pos(data: Seq<u8>, p: int)
    ensures
        parse_quoted(data, p) matches Some(ve) ==> p < ve.1,
        parse_quoted(data, p) matches Some(ve) ==> (0 <= p ==> ve.1 <= data.len()),
    decreases data.len() - p,
{
    if p >= data.len() {
    } else if data[p] == 34 {
        if p + 1 < data.len() && data[p + 1] == 34 {
            lemma_parse_quoted_pos(data, p + 2);
        }
    } else {
        lemma_parse_quoted_pos(data, p + 1);
    }
}

/// A raw cell ends at or past its starting position and, started in range,
/// ends in range.
pub proof fn lemma_parse_raw_pos(data: Seq<u8>, p: int, delim: u8)
    ensures
        p <= parse_raw(data, p, delim).1,
        p <= data.len() ==> parse_raw(data, p, delim).1 <= data.len(),
        p < data.len() && data[p] != delim && data[p] != 10 ==> p < parse_raw(data, p, delim).1,
    decreases data.len() - p,
{
    if p < data.len() && data[p] != delim && data[p] != 10 {
        lemma_parse_raw_pos(data, p + 1, delim);
    }
}

/// A cell ends at or past its starting position and, started in range, ends
/// in range.
pub proof fn lemma_parse_field_pos(data: Seq<u8>, p: int, delim: u8, q: bool)
    ensures
        parse_field(data, p, delim, q) matches Some(ve) ==> p <= ve.1,
        parse_field(data, p, delim, q) matches Some(ve) ==> (0 <= p <= data.len() ==> ve.1
            <= data.len()),
        parse_field(data, p, delim, q) matches Some(ve) ==> (p < data.len() && data[p] != delim
            && data[p] != 10 ==> p < ve.1),
{
    lemma_parse_quoted_pos(data, p + 1);
    lemma_parse_raw_pos(data, p, delim);
}

/// One row from position `p`: its cells and the position just past the row's
/// newline terminator (or the end), or `None` on malformed quoting.
pub open spec fn parse_row(data: Seq<u8>, p: int, delim: u8, q: bool) -> Option<(Seq<Seq<u8>>, int)>
    decreases data.len() - p,
    via parse_row_decreases
{
    match parse_field(data, p, delim, q) {
        Some(ve) => if ve.1 < data.len() && data[ve.1] == delim {
            match parse_row(data, ve.1 + 1, delim, q) {
                Some(re) => Some((seq![ve.0] + re.0, re.1)),
                None => None,
            }
        } else if ve.1 < data.len() && data[ve.1] == 10 {
            Some((seq![ve.0], ve.1 + 1))
        } else {
            Some((seq![ve.0], ve.1))
        },
        None => None,
    }
}

#[via_fn]
proof fn parse_row_decreases(data: Seq<u8>, p: int, delim: u8, q: bool) {
    lemma_parse_field_pos(data, p, delim, q);
}

/// A row ends at or past its starting position, strictly past it when it
/// starts in range, and in range when started in range.
pub proof fn lemma_parse_row_pos(data: Seq<u8>, p: int, delim: u8, q: bool)
    ensures
        parse_row(data, p, delim, q) matches Some(re) ==> p <= re.1,
        parse_row(data, p, delim, q) matches Some(re) ==> (0 <= p < data.len() ==> p < re.1),
        parse_row(data, p, delim, q) matches Some(re) ==> (0 <= p <= data.len() ==> re.1
            <= data.len()),
    decreases data.len() - p,
{
    lemma_parse_field_pos(data, p, delim, q);
    match parse_field(data, p, delim, q) {
        Some(ve) => {
            if ve.1 < data.len() && data[ve.1] == delim {
                lemma_parse_row_pos(data, ve.1 + 1, delim, q);
            }
        },
        None => {},
    }
}

/// A scan that stops at the first delimiter or newline at or after `p` reads
/// exactly the raw cell.
pub proof fn lemma_parse_raw_is(data: Seq<u8>, p: int, j: int, delim: u8)
    requires
        0 <= p <= j <= data.len(),
        forall|t: int| p <= t < j ==> data[t] != delim && #[trigger] data[t] != 10,
        j < data.len() ==> (data[j] == delim || data[j] == 10),
    ensures
        parse_raw(data, p, delim) == (data.subrange(p, j), j),
    decreases j - p,
{
    if p == j {
        assert(data.subrange(p, j) =~= Seq::<u8>::empty());
    } else {
        assert(data[p] != delim && data[p] != 10);
        lemma_parse_raw_is(data, p + 1, j, delim);
        assert(seq![data[p]] + data.subrange(p + 1, j) =~= data.subrange(p, j));
    }
}

/// Index of the first cell in `xs` equal to `key`, or -1 when absent.
pub open spec fn index_of_bytes(xs: Seq<Seq<u8>>, key: Seq<u8>) -> int
    decreases xs.len(),
{
    if xs.len() == 0 {
        -1
    } else if xs[0] == key {
        0
    } else {
        let r = index_of_bytes(xs.drop_first(), key);
        if r == -1 {
            -1
        } else {
            1 + r
        }
    }
}

/// `index_of_bytes` lands in range, on the key, with none before it; -1 means
/// the key is absent.
pub proof fn lemma_index_of_bytes(xs: Seq<Seq<u8>>, key: Seq<u8>)
    ensures
        -1 <= index_of_bytes(xs, key) < xs.len(),
        index_of_bytes(xs, key) >= 0 ==> xs[index_of_bytes(xs, key)] == key,
        forall|j: int| 0 <= j < index_of_bytes(xs, key) ==> xs[j] != key,
        index_of_bytes(xs, key) == -1 ==> forall|j: int| 0 <= j < xs.len() ==> xs[j] != key,
    decreases xs.len(),
{
    if xs.len() > 0 && xs[0] != key {
        lemma_index_of_bytes(xs.drop_first(), key);
        assert forall|j: int| 0 <= j < index_of_bytes(xs, key) implies xs[j] != key by {
            if j > 0 {
                assert(xs.drop_first()[j - 1] == xs[j]);
            }
        }
        if index_of_bytes(xs, key) == -1 {
            assert forall|j: int| 0 <= j < xs.len() implies xs[j] != key by {
                if j > 0 {
                    assert(xs.drop_first()[j - 1] == xs[j]);
                }
            }
        }
    }
}

/// An index that carries the key with none before it is `index_of_bytes`.
pub proof fn lemma_index_of_bytes_is(xs: Seq<Seq<u8>>, key: Seq<u8>, k: int)
    requires
        0 <= k < xs.len(),
        xs[k] == key,
        forall|j: int| 0 <= j < k ==> xs[j] != key,
    ensures
        index_of_bytes(xs, key) == k,
    decreases xs.len(),
{
    if xs.len() > 0 && xs[0] != key {
        assert(k > 0);
        assert forall|j: int| 0 <= j < k - 1 implies xs.drop_first()[j] != key by {
            assert(xs.drop_first()[j] == xs[j + 1]);
        }
        assert(xs.drop_first()[k - 1] == xs[k]);
        lemma_index_of_bytes_is(xs.drop_first(), key, k - 1);
    }
}

} // verus!
