//! Byte-level model of line-oriented file content.
//!
//! Writing appends each line's UTF-8 bytes followed by a single newline byte;
//! reading splits on newline bytes, strips one trailing carriage return from
//! each line, and drops no content otherwise (content that ends in a final
//! newline yields no trailing empty line).

use vstd::prelude::*;
use vstd::utf8::*;

verus! {

/// The bytes written for the given lines: each line UTF-8 encoded, newline
/// terminated.
pub open spec fn encode_lines(lines: Seq<Seq<char>>) -> Seq<u8>
    decreases lines.len(),
{
    if lines.len() == 0 {
        seq![]
    } else {
        encode_utf8(lines[0]) + seq![10u8] + encode_lines(lines.drop_first())
    }
}

/// Index of the first newline byte in `data`, or `data.len()` when absent.
pub open spec fn first_nl(data: Seq<u8>) -> int
    decreases data.len(),
{
    if data.len() == 0 {
        0
    } else if data[0] == 10 {
        0
    } else {
        1 + first_nl(data.drop_first())
    }
}

/// `first_nl` lands in range, on a newline, with none before it.
pub proof fn lemma_first_nl(data: Seq<u8>)
    ensures
        0 <= first_nl(data) <= data.len(),
        first_nl(data) < data.len() ==> data[first_nl(data)] == 10,
        forall|j: int| 0 <= j < first_nl(data) ==> data[j] != 10,
    decreases data.len(),
{
    if data.len() > 0 && data[0] != 10 {
        lemma_first_nl(data.drop_first());
        assert forall|j: int| 0 <= j < first_nl(data) implies data[j] != 10 by {
            if j > 0 {
                assert(data.drop_first()[j - 1] == data[j]);
            }
        }
    }
}

/// An index before which no newline stands, and which is the end or a newline,
/// is `first_nl`.
pub proof fn lemma_first_nl_is(data: Seq<u8>, k: int)
    requires
        0 <= k <= data.len(),
        k < data.len() ==> data[k] == 10,
        forall|j: int| 0 <= j < k ==> data[j] != 10,
    ensures
        first_nl(data) == k,
    decreases data.len(),
{
    if data.len() == 0 {
    } else if data[0] == 10 {
        assert(k == 0);
    } else {
        assert(k > 0);
        assert forall|j: int| 0 <= j < k - 1 implies data.drop_first()[j] != 10 by {
            assert(data.drop_first()[j] == data[j + 1]);
        }
        lemma_first_nl_is(data.drop_first(), k - 1);
    }
}

/// One line as read back: a trailing carriage return is stripped.
pub open spec fn strip_cr(s: Seq<u8>) -> Seq<u8> {
    if s.len() > 0 && s[s.len() - 1] == 13 {
        s.drop_last()
    } else {
        s
    }
}

/// The byte chunks a reader sees: split on newline bytes, one trailing
/// carriage return stripped per chunk, no empty trailing chunk for content
/// that ends in a newline.
pub open spec fn split_lines(data: Seq<u8>) -> Seq<Seq<u8>>
    decreases data.len(),
    via split_lines_decreases
{
    if data.len() == 0 {
        seq![]
    } else {
        let i = first_nl(data);
        if i == data.len() {
            seq![strip_cr(data)]
        } else {
            seq![strip_cr(data.subrange(0, i))] + split_lines(
                data.subrange(i + 1, data.len() as int),
            )
        }
    }
}

#[via_fn]
proof fn split_lines_decreases(data: Seq<u8>) {
    lemma_first_nl(data);
}

/// The decoded lines of raw content, when every chunk is valid UTF-8.
pub open spec fn lines_of_bytes(data: Seq<u8>) -> Option<Seq<Seq<char>>> {
    let chunks = split_lines(data);
    if forall|i: int| 0 <= i < chunks.len() ==> valid_utf8(#[trigger] chunks[i]) {
        Some(Seq::new(chunks.len(), |i: int| decode_utf8(chunks[i])))
    } else {
        None
    }
}

/// A line that writing then reading keeps: it holds no newline and does not
/// end in a carriage return.
pub open spec fn line_ok(l: Seq<char>) -> bool {
    &&& !l.contains('\n')
    &&& (l.len() > 0 ==> l[l.len() - 1] != '\r')
}

/// All lines of a sequence round-trip safely.
pub open spec fn lines_ok(lines: Seq<Seq<char>>) -> bool {
    forall|i: int| 0 <= i < lines.len() ==> line_ok(#[trigger] lines[i])
}

/// Every byte of a character's UTF-8 encoding that is a newline or carriage
/// return byte comes from that very character.
proof fn lemma_encode_scalar_ctl(c: char)
    ensures
        forall|k: int|
            0 <= k < encode_scalar(c as u32).len() ==> {
                &&& (#[trigger] encode_scalar(c as u32)[k] == 10 ==> c == '\n')
                &&& (encode_scalar(c as u32)[k] == 13 ==> c == '\r')
            },
{
    broadcast use char_is_scalar, char_u32_cast;

    let s = c as u32;
    if has_width_1_encoding(s) {
        assert(s <= 0x7f ==> (s & 0x7F) == s) by (bit_vector);
        assert(encode_scalar(s) =~= seq![(s & 0x7F) as u8]);
        if (s & 0x7F) as u8 == 10 {
            assert(s == 10);
            assert(('\n' as u32) == 10);
        }
        if (s & 0x7F) as u8 == 13 {
            assert(s == 13);
            assert(('\r' as u32) == 13);
        }
    } else {
        assert((0xC0u8 | ((s >> 6) & 0x1F) as u8) >= 0x80) by (bit_vector);
        assert((0xE0u8 | ((s >> 12) & 0x0F) as u8) >= 0x80) by (bit_vector);
        assert((0xF0u8 | ((s >> 18) & 0x7) as u8) >= 0x80) by (bit_vector);
        assert((0x80u8 | (s & 0x3F) as u8) >= 0x80) by (bit_vector);
        assert((0x80u8 | ((s >> 6) & 0x3F) as u8) >= 0x80) by (bit_vector);
        assert((0x80u8 | ((s >> 12) & 0x3F) as u8) >= 0x80) by (bit_vector);
    }
}

/// The UTF-8 bytes of a safe line hold no newline byte and do not end in a
/// carriage return byte.
proof fn lemma_encode_line_bytes(l: Seq<char>)
    requires
        line_ok(l),
    ensures
        forall|k: int| 0 <= k < encode_utf8(l).len() ==> #[trigger] encode_utf8(l)[k] != 10,
        encode_utf8(l).len() > 0 ==> encode_utf8(l)[encode_utf8(l).len() - 1] != 13,
    decreases l.len(),
{
    if l.len() > 0 {
        let first = encode_scalar(l[0] as u32);
        let rest = l.drop_first();
        assert(l.contains(l[0])) by {
            assert(l[0] == l[0]);
        }
        lemma_encode_scalar_ctl(l[0]);
        assert(line_ok(rest)) by {
            assert forall|c: char| rest.contains(c) implies l.contains(c) by {
                let j = choose|j: int| 0 <= j < rest.len() && rest[j] == c;
                assert(l[j + 1] == c);
            }
            if rest.len() > 0 {
                assert(rest[rest.len() - 1] == l[l.len() - 1]);
            }
        }
        lemma_encode_line_bytes(rest);
        assert(encode_utf8(l) == first + encode_utf8(rest));
        if l[0] == '\n' {
            assert(l.contains('\n'));
        }
        assert(encode_scalar(l[0] as u32).len() > 0);
        if encode_utf8(rest).len() == 0 {
            // the last byte of the whole encoding is the last byte of `first`
            if rest.len() > 0 {
                lemma_encode_utf8_len(rest);
                assert(false);
            }
            assert(l.len() == 1);
            assert(l[l.len() - 1] == l[0]);
            if first[first.len() - 1] == 13 {
                assert(l[0] == '\r');
            }
        }
    }
}

/// A UTF-8 encoding is at least as long as its character sequence.
pub proof fn lemma_encode_utf8_len(l: Seq<char>)
    ensures
        encode_utf8(l).len() >= l.len(),
    decreases l.len(),
{
    if l.len() > 0 {
        lemma_encode_utf8_len(l.drop_first());
        assert(encode_scalar(l[0] as u32).len() >= 1);
    }
}

/// Splitting the written bytes of safe lines gives back each line's encoding.
proof fn lemma_split_encode_lines(lines: Seq<Seq<char>>)
    requires
        lines_ok(lines),
    ensures
        split_lines(encode_lines(lines)) =~= lines.map_values(|l: Seq<char>| encode_utf8(l)),
    decreases lines.len(),
{
    if lines.len() > 0 {
        let b0 = encode_utf8(lines[0]);
        let rest = encode_lines(lines.drop_first());
        let data = encode_lines(lines);
        assert(lines[0] == lines[0]);
        lemma_encode_line_bytes(lines[0]);
        assert(data =~= b0 + seq![10u8] + rest);
        assert forall|j: int| 0 <= j < b0.len() implies data[j] != 10 by {
            assert(data[j] == b0[j]);
        }
        assert(data[b0.len() as int] == 10);
        lemma_first_nl_is(data, b0.len() as int);
        assert(data.subrange(0, b0.len() as int) =~= b0);
        assert(strip_cr(b0) =~= b0);
        assert(data.subrange(b0.len() as int + 1, data.len() as int) =~= rest);
        assert(lines_ok(lines.drop_first())) by {
            assert(forall|i: int|
                0 <= i < lines.drop_first().len() ==> #[trigger] lines.drop_first()[i]
                    == lines[i + 1]);
        }
        lemma_split_encode_lines(lines.drop_first());
        assert(split_lines(data) =~= seq![b0] + split_lines(rest));
    }
}

/// Appending one line extends the written bytes by that line's encoding and a
/// newline.
pub proof fn lemma_encode_lines_push(s: Seq<Seq<char>>, l: Seq<char>)
    ensures
        encode_lines(s.push(l)) == encode_lines(s) + encode_utf8(l) + seq![10u8],
    decreases s.len(),
{
    if s.len() == 0 {
        let one = s.push(l);
        assert(one[0] == l);
        assert(encode_lines(one) == encode_utf8(one[0]) + seq![10u8] + encode_lines(
            one.drop_first(),
        ));
        assert(one.drop_first() =~= Seq::<Seq<char>>::empty());
        assert(encode_lines(one.drop_first()).len() == 0);
        assert(encode_lines(one) =~= encode_lines(s) + encode_utf8(l) + seq![10u8]);
    } else {
        assert(s.push(l)[0] == s[0]);
        assert(s.push(l).drop_first() =~= s.drop_first().push(l));
        lemma_encode_lines_push(s.drop_first(), l);
        assert(encode_lines(s.push(l)) =~= encode_lines(s) + encode_utf8(l) + seq![10u8]);
    }
}

/// Reading back the written bytes of safe lines yields exactly those lines.
pub proof fn lemma_lines_round_trip(lines: Seq<Seq<char>>)
    requires
        lines_ok(lines),
    ensures
        lines_of_bytes(encode_lines(lines)) == Some(lines),
{
    broadcast use encode_utf8_valid_utf8, encode_utf8_decode_utf8;

    lemma_split_encode_lines(lines);
    let chunks = split_lines(encode_lines(lines));
    assert(forall|i: int| 0 <= i < chunks.len() ==> valid_utf8(#[trigger] chunks[i]));
    assert(Seq::new(chunks.len(), |i: int| decode_utf8(chunks[i])) =~= lines);
}

} // verus!
