//! Executable rendering and parsing of single delimited rows, verified
//! against the grammar.

use vstd::prelude::*;

use crate::delim::{
    escape_quotes, lemma_parse_raw_is, needs_quotes, parse_field, parse_quoted, parse_row,
    render_cells, render_field, render_row,
};

verus! {

/// A parse result with earlier cell bytes put back in front.
pub open spec fn prepend_bytes(pre: Seq<u8>, r: Option<(Seq<u8>, int)>) -> Option<(Seq<u8>, int)> {
    match r {
        Some(ve) => Some((pre + ve.0, ve.1)),
        None => None,
    }
}

/// A row parse result with earlier cells put back in front.
pub open spec fn prepend_cells(pre: Seq<Seq<u8>>, r: Option<(Seq<Seq<u8>>, int)>) -> Option<
    (Seq<Seq<u8>>, int),
> {
    match r {
        Some(re) => Some((pre + re.0, re.1)),
        None => None,
    }
}

/// A fresh copy of the given bytes.
pub fn copy_bytes(v: &Vec<u8>) -> (r: Vec<u8>)
    ensures
        r@ == v@,
{
    let mut out: Vec<u8> = Vec::new();
    let mut t: usize = 0;
    while t < v.len()
        invariant
            t <= v@.len(),
            out@ == v@.subrange(0, t as int),
        decreases v@.len() - t,
    {
        let b = v[t];
        out.push(b);
        proof {
            assert(v@.subrange(0, t as int + 1) =~= v@.subrange(0, t as int).push(v@[t as int]));
        }
        t = t + 1;
    }
    proof {
        assert(v@.subrange(0, v@.len() as int) =~= v@);
    }
    out
}

/// Byte-for-byte equality of two byte vectors.
pub fn bytes_eq(a: &Vec<u8>, b: &Vec<u8>) -> (r: bool)
    ensures
        r == (a@ == b@),
{
    if a.len() != b.len() {
        return false;
    }
    let mut t: usize = 0;
    while t < a.len()
        invariant
            t <= a@.len(),
            a@.len() == b@.len(),
            forall|u: int| 0 <= u < t ==> a@[u] == b@[u],
        decreases a@.len() - t,
    {
        if a[t] != b[t] {
            return false;
        }
        t = t + 1;
    }
    proof {
        assert(a@ =~= b@);
    }
    true
}

/// Appending one byte extends the escaped form by that byte's escaping.
proof fn lemma_escape_push(s: Seq<u8>, b: u8)
    ensures
        b == 34 ==> escape_quotes(s.push(b)) == escape_quotes(s) + seq![34u8, 34u8],
        b != 34 ==> escape_quotes(s.push(b)) == escape_quotes(s) + seq![b],
    decreases s.len(),
{
    let tail: Seq<u8> = if b == 34 {
        seq![34u8, 34u8]
    } else {
        seq![b]
    };
    if s.len() == 0 {
        let one = s.push(b);
        assert(one[0] == b);
        if b == 34 {
            assert(escape_quotes(one) == seq![34u8, 34u8] + escape_quotes(one.drop_first()));
        } else {
            assert(escape_quotes(one) == seq![one[0]] + escape_quotes(one.drop_first()));
        }
        assert(one.drop_first() =~= Seq::<u8>::empty());
        assert(escape_quotes(one.drop_first()).len() == 0);
        assert(escape_quotes(one) =~= escape_quotes(s) + tail);
    } else {
        assert(s.push(b)[0] == s[0]);
        assert(s.push(b).drop_first() =~= s.drop_first().push(b));
        lemma_escape_push(s.drop_first(), b);
        assert(escape_quotes(s.push(b)) =~= escape_quotes(s) + tail);
    }
}

/// Whether the cell must be quoted under the given delimiter.
fn needs_quotes_exec(v: &Vec<u8>, delim: u8) -> (r: bool)
    ensures
        r == needs_quotes(v@, delim),
{
    let mut t: usize = 0;
    while t < v.len()
        invariant
            t <= v@.len(),
            forall|u: int|
                0 <= u < t ==> v@[u] != delim && #[trigger] v@[u] != 34 && v@[u] != 10 && v@[u]
                    != 13,
        decreases v@.len() - t,
    {
        let b = v[t];
        if b == delim || b == 34 || b == 10 || b == 13 {
            return true;
        }
        t = t + 1;
    }
    false
}

/// Appends one rendered cell to `out`.
fn render_field_into(v: &Vec<u8>, delim: u8, quote: bool, out: &mut Vec<u8>)
    ensures
        final(out)@ == old(out)@ + render_field(v@, delim, quote),
{
    if quote && needs_quotes_exec(v, delim) {
        out.push(34);
        let ghost base = out@;
        let mut t: usize = 0;
        while t < v.len()
            invariant
                t <= v@.len(),
                out@ == base + escape_quotes(v@.subrange(0, t as int)),
            decreases v@.len() - t,
        {
            let b = v[t];
            proof {
                lemma_escape_push(v@.subrange(0, t as int), v@[t as int]);
                assert(v@.subrange(0, t as int + 1) =~= v@.subrange(0, t as int).push(
                    v@[t as int],
                ));
            }
            if b == 34 {
                out.push(34);
                out.push(34);
            } else {
                out.push(b);
            }
            t = t + 1;
        }
        out.push(34);
        proof {
            assert(v@.subrange(0, v@.len() as int) =~= v@);
            assert(old(out)@ + render_field(v@, delim, quote) =~= out@);
        }
    } else {
        let mut t: usize = 0;
        while t < v.len()
            invariant
                t <= v@.len(),
                out@ == old(out)@ + v@.subrange(0, t as int),
            decreases v@.len() - t,
        {
            let b = v[t];
            out.push(b);
            proof {
                assert(v@.subrange(0, t as int + 1) =~= v@.subrange(0, t as int).push(
                    v@[t as int],
                ));
            }
            t = t + 1;
        }
        proof {
            assert(v@.subrange(0, v@.len() as int) =~= v@);
        }
    }
}

/// Appends one rendered row — the joined cells and the newline terminator —
/// to `out`.
pub fn render_row_into(cells: &Vec<Vec<u8>>, delim: u8, quote: bool, out: &mut Vec<u8>)
    requires
        cells@.len() > 0,
    ensures
        final(out)@ == old(out)@ + render_row(cells.deep_view(), delim, quote),
{
    let ghost cdv = cells.deep_view();
    let mut i: usize = 0;
    while i < cells.len()
        invariant
            i <= cells@.len(),
            cdv == cells.deep_view(),
            out@ == old(out)@ + render_cells(cdv.take(i as int), delim, quote),
        decreases cells@.len() - i,
    {
        if i > 0 {
            out.push(delim);
        }
        render_field_into(&cells[i], delim, quote, out);
        proof {
            let pre = cdv.take(i as int);
            let cur = cdv.take(i as int + 1);
            assert(cdv[i as int] == cells@[i as int].deep_view());
            assert(cells@[i as int].deep_view() =~= cells@[i as int]@);
            assert(cur.drop_last() =~= pre);
            assert(cur.last() == cdv[i as int]);
            if i == 0 {
                assert(render_cells(cur, delim, quote) == render_field(cdv[0], delim, quote));
                assert(old(out)@ + render_cells(pre, delim, quote) =~= old(out)@);
            } else {
                assert(render_cells(cur, delim, quote) == render_cells(pre, delim, quote)
                    + seq![delim] + render_field(cdv[i as int], delim, quote));
            }
            assert(out@ =~= old(out)@ + render_cells(cur, delim, quote));
        }
        i = i + 1;
    }
    out.push(10);
    proof {
        assert(cdv.take(cells@.len() as int) =~= cdv);
        assert(out@ =~= old(out)@ + render_row(cdv, delim, quote));
    }
}

/// Reads one cell starting at `p`, as the grammar defines it.
pub fn parse_field_exec(content: &Vec<u8>, p: usize, delim: u8, q: bool) -> (r: Option<
    (Vec<u8>, usize),
>)
    requires
        p <= content@.len(),
    ensures
        r matches Some(ve) ==> parse_field(content@, p as int, delim, q) == Some(
            (ve.0@, ve.1 as int),
        ) && p <= ve.1 <= content@.len(),
        r is None ==> parse_field(content@, p as int, delim, q) is None,
{
    let ghost c = content@;
    if q && p < content.len() && content[p] == 34 {
        let mut out: Vec<u8> = Vec::new();
        let mut i = p + 1;
        loop
            invariant
                p + 1 <= i <= c.len(),
                c == content@,
                p < c.len(),
                c[p as int] == 34,
                q,
                parse_quoted(c, p as int + 1) == prepend_bytes(out@, parse_quoted(c, i as int)),
            decreases c.len() - i,
        {
            if i == content.len() {
                return None;
            }
            let b = content[i];
            if b == 34 {
                if i + 1 < content.len() && content[i + 1] == 34 {
                    let ghost obase = out@;
                    out.push(34);
                    proof {
                        match parse_quoted(c, i as int + 2) {
                            Some(ve) => {
                                assert(obase + (seq![34u8] + ve.0) =~= out@ + ve.0);
                            },
                            None => {},
                        }
                    }
                    i = i + 2;
                } else {
                    proof {
                        assert(parse_quoted(c, i as int) == Some((Seq::<u8>::empty(), i as int
                            + 1)));
                        assert(out@ + Seq::<u8>::empty() =~= out@);
                    }
                    let e = i + 1;
                    if e == content.len() || content[e] == delim || content[e] == 10 {
                        return Some((out, e));
                    } else {
                        return None;
                    }
                }
            } else {
                let ghost obase = out@;
                out.push(b);
                proof {
                    match parse_quoted(c, i as int + 1) {
                        Some(ve) => {
                            assert(obase + (seq![c[i as int]] + ve.0) =~= out@ + ve.0);
                        },
                        None => {},
                    }
                }
                i = i + 1;
            }
        }
    } else {
        let mut j = p;
        while j < content.len() && content[j] != delim && content[j] != 10
            invariant
                p <= j <= c.len(),
                c == content@,
                forall|t: int| p <= t < j ==> c[t] != delim && #[trigger] c[t] != 10,
            decreases c.len() - j,
        {
            j = j + 1;
        }
        let mut out: Vec<u8> = Vec::new();
        let mut t = p;
        while t < j
            invariant
                p <= t <= j <= c.len(),
                c == content@,
                out@ == c.subrange(p as int, t as int),
            decreases j - t,
        {
            let b = content[t];
            out.push(b);
            proof {
                assert(c.subrange(p as int, t as int + 1) =~= c.subrange(p as int, t as int).push(
                    c[t as int],
                ));
            }
            t = t + 1;
        }
        proof {
            lemma_parse_raw_is(c, p as int, j as int, delim);
        }
        Some((out, j))
    }
}

/// Reads one row starting at `p`, as the grammar defines it.
pub fn parse_row_exec(content: &Vec<u8>, p: usize, delim: u8, q: bool) -> (r: Option<
    (Vec<Vec<u8>>, usize),
>)
    requires
        p <= content@.len(),
    ensures
        r matches Some(re) ==> parse_row(content@, p as int, delim, q) == Some(
            (re.0.deep_view(), re.1 as int),
        ) && p <= re.1 <= content@.len(),
        r is None ==> parse_row(content@, p as int, delim, q) is None,
{
    let ghost c = content@;
    let mut cells: Vec<Vec<u8>> = Vec::new();
    let mut pos = p;
    loop
        invariant
            p <= pos <= c.len(),
            c == content@,
            parse_row(c, p as int, delim, q) == prepend_cells(
                cells.deep_view(),
                parse_row(c, pos as int, delim, q),
            ),
        decreases c.len() - pos,
    {
        let ghost cdv = cells.deep_view();
        match parse_field_exec(content, pos, delim, q) {
            None => {
                return None;
            },
            Some((v, e)) => {
                if e < content.len() && content[e] == delim {
                    cells.push(v);
                    proof {
                        assert(cells.deep_view() =~~= cdv.push(v@));
                        match parse_row(c, e as int + 1, delim, q) {
                            Some(re) => {
                                assert(cdv + (seq![v@] + re.0) =~= cdv.push(v@) + re.0);
                            },
                            None => {},
                        }
                    }
                    pos = e + 1;
                } else if e < content.len() && content[e] == 10 {
                    cells.push(v);
                    proof {
                        assert(cells.deep_view() =~~= cdv.push(v@));
                        assert(parse_row(c, pos as int, delim, q) == Some(
                            (seq![v@], e as int + 1),
                        ));
                        assert(cdv + seq![v@] =~= cdv.push(v@));
                    }
                    return Some((cells, e + 1));
                } else {
                    cells.push(v);
                    proof {
                        assert(cells.deep_view() =~~= cdv.push(v@));
                        assert(parse_row(c, pos as int, delim, q) == Some((seq![v@], e as int)));
                        assert(cdv + seq![v@] =~= cdv.push(v@));
                    }
                    return Some((cells, e));
                }
            },
        }
    }
}

} // verus!
