//! The stream gateway: path-driven, compression-transparent line content.
//!
//! `Io` classifies a path by its final extension and encodes or decodes whole
//! line-oriented file images accordingly: plain bytes, a gzip member, or a
//! zstd frame. The callers that own real file handles hand raw file bytes in
//! and take raw file bytes out.

use vstd::prelude::*;
use vstd::string::StrSliceExecFns;
use vstd::utf8::{decode_utf8, valid_utf8};

use crate::FgError;
use crate::compress::{
    gunzip_of, gzip_compress, gzip_decompress, gzip_of, unzstd_of, vec_to_string, zstd_compress,
    zstd_decompress, zstd_of,
};
use crate::ext::{has_extension, path_has_extension};
use crate::lines::{
    encode_lines, lemma_encode_lines_push, lemma_lines_round_trip, lines_of_bytes, lines_ok,
    split_lines,
};

verus! {

/// The default buffer size callers are advised to use around raw files.
pub const BUFFER_SIZE: usize = 64 * 1024;

/// The gzip extensions.
pub open spec fn gzip_extensions() -> Seq<Seq<char>> {
    seq![seq!['g', 'z'], seq!['b', 'g', 'z']]
}

/// The zstd extension.
pub open spec fn zstd_extensions() -> Seq<Seq<char>> {
    seq![seq!['z', 's', 't']]
}

/// The FASTQ extensions.
pub open spec fn fastq_extensions() -> Seq<Seq<char>> {
    seq![seq!['f', 'a', 's', 't', 'q'], seq!['f', 'q']]
}

/// True when the path names gzip-compressed content.
pub open spec fn is_gzip_spec(p: Seq<char>) -> bool {
    exists|i: int| 0 <= i < gzip_extensions().len() && has_extension(p, #[trigger] gzip_extensions()[i])
}

/// True when the path names zstd-compressed content.
pub open spec fn is_zstd_spec(p: Seq<char>) -> bool {
    exists|i: int| 0 <= i < zstd_extensions().len() && has_extension(p, #[trigger] zstd_extensions()[i])
}

/// True when the path names FASTQ-like content (a hint only: it never affects
/// how content is encoded).
pub open spec fn is_fastq_spec(p: Seq<char>) -> bool {
    exists|i: int| 0 <= i < fastq_extensions().len() && has_extension(p, #[trigger] fastq_extensions()[i])
}

/// The file image written for the given lines at the given path: the newline
/// joined UTF-8 bytes, compressed as the path's extension directs.
pub open spec fn encoded_file(p: Seq<char>, lines: Seq<Seq<char>>, level: int) -> Seq<u8> {
    if is_gzip_spec(p) {
        gzip_of(encode_lines(lines), level)
    } else if is_zstd_spec(p) {
        zstd_of(encode_lines(lines))
    } else {
        encode_lines(lines)
    }
}

/// The lines read back from a file image at the given path, or `None` when
/// the bytes do not decompress or a line is not valid UTF-8.
pub open spec fn decoded_file(p: Seq<char>, data: Seq<u8>) -> Option<Seq<Seq<char>>> {
    if is_gzip_spec(p) {
        match gunzip_of(data) {
            Some(c) => lines_of_bytes(c),
            None => None,
        }
    } else if is_zstd_spec(p) {
        match unzstd_of(data) {
            Some(c) => lines_of_bytes(c),
            None => None,
        }
    } else {
        lines_of_bytes(data)
    }
}

/// Reading and writing of line-oriented content with transparent,
/// extension-driven compression.
///
/// The compression level applies to gzip output only: zstd output is always
/// written at the codec's default level. This asymmetry is deliberate and
/// kept as the interface's contract.
pub struct Io {
    compression: u32,
    buffer_size: usize,
}

impl Io {
    /// The gzip compression level this instance writes with.
    pub closed spec fn spec_level(&self) -> u32 {
        self.compression
    }

    /// The advisory buffer size this instance carries for stream builders.
    pub closed spec fn spec_buffer_size(&self) -> usize {
        self.buffer_size
    }

    /// A well-formed instance holds a gzip level in the range 0 through 9.
    pub open spec fn wf(&self) -> bool {
        self.spec_level() <= 9
    }

    /// Creates an instance with the given gzip compression level and advisory
    /// buffer size.
    pub fn new(compression: u32, buffer_size: usize) -> (r: Io)
        requires
            compression <= 9,
        ensures
            r.spec_level() == compression,
            r.spec_buffer_size() == buffer_size,
            r.wf(),
    {
        Io { compression, buffer_size }
    }

    /// The gzip compression level, for callers building real encoders.
    pub fn compression_level(&self) -> (r: u32)
        ensures
            r == self.spec_level(),
    {
        self.compression
    }

    /// The advisory buffer size, for callers building real streams.
    pub fn buffer_size(&self) -> (r: usize)
        ensures
            r == self.spec_buffer_size(),
    {
        self.buffer_size
    }

    /// True when the path ends in a recognized gzip extension.
    pub fn is_gzip_path(p: &str) -> (r: bool)
        ensures
            r == is_gzip_spec(p@),
    {
        proof {
            reveal_strlit("gz");
            reveal_strlit("bgz");
            assert("gz"@ =~= gzip_extensions()[0]);
            assert("bgz"@ =~= gzip_extensions()[1]);
        }
        let r = path_has_extension(p, "gz") || path_has_extension(p, "bgz");
        proof {
            if !r {
                assert forall|i: int| 0 <= i < gzip_extensions().len() implies !has_extension(
                    p@,
                    #[trigger] gzip_extensions()[i],
                ) by {
                    if i == 0 {
                    } else {
                        assert(i == 1);
                    }
                }
            }
        }
        r
    }

    /// True when the path ends in the recognized zstd extension.
    pub fn is_zstd_path(p: &str) -> (r: bool)
        ensures
            r == is_zstd_spec(p@),
    {
        proof {
            reveal_strlit("zst");
            assert("zst"@ =~= zstd_extensions()[0]);
        }
        let r = path_has_extension(p, "zst");
        proof {
            if !r {
                assert forall|i: int| 0 <= i < zstd_extensions().len() implies !has_extension(
                    p@,
                    #[trigger] zstd_extensions()[i],
                ) by {
                    assert(i == 0);
                }
            }
        }
        r
    }

    /// True when the path ends in a recognized FASTQ extension.
    pub fn is_fastq_path(p: &str) -> (r: bool)
        ensures
            r == is_fastq_spec(p@),
    {
        proof {
            reveal_strlit("fastq");
            reveal_strlit("fq");
            assert("fastq"@ =~= fastq_extensions()[0]);
            assert("fq"@ =~= fastq_extensions()[1]);
        }
        let r = path_has_extension(p, "fastq") || path_has_extension(p, "fq");
        proof {
            if !r {
                assert forall|i: int| 0 <= i < fastq_extensions().len() implies !has_extension(
                    p@,
                    #[trigger] fastq_extensions()[i],
                ) by {
                    if i == 0 {
                    } else {
                        assert(i == 1);
                    }
                }
            }
        }
        r
    }

    /// Encodes the given lines into the file image for the path: each line is
    /// written followed by a newline, and the whole is compressed as the
    /// extension directs (gzip at this instance's level, zstd at the codec's
    /// default level). Writing can only fail on a zstd path, and reading the
    /// image back yields exactly the given lines whenever they are safe (no
    /// embedded newline, no trailing carriage return).
    pub fn write_lines(&self, p: &str, lines: &Vec<String>) -> (r: Result<Vec<u8>, FgError>)
        requires
            self.wf(),
        ensures
            r matches Ok(bytes) ==> bytes@ == encoded_file(
                p@,
                lines.deep_view(),
                self.spec_level() as int,
            ),
            r matches Ok(bytes) ==> (lines_ok(lines.deep_view()) ==> decoded_file(p@, bytes@)
                == Some(lines.deep_view())),
            r matches Err(e) ==> e == FgError::IoError && is_zstd_spec(p@),
    {
        let content = join_lines(lines);
        proof {
            if lines_ok(lines.deep_view()) {
                lemma_lines_round_trip(lines.deep_view());
            }
        }
        if Io::is_gzip_path(p) {
            Ok(gzip_compress(&content, self.compression))
        } else if Io::is_zstd_path(p) {
            match zstd_compress(&content) {
                Some(v) => Ok(v),
                None => Err(FgError::IoError),
            }
        } else {
            Ok(content)
        }
    }

    /// Decodes a file image at the path back into its lines: the bytes are
    /// decompressed as the extension directs and split on newlines. Errors
    /// exactly when the bytes do not decompress or a line is not valid UTF-8.
    pub fn read_lines(&self, p: &str, data: &Vec<u8>) -> (r: Result<Vec<String>, FgError>)
        ensures
            r matches Ok(lines) ==> decoded_file(p@, data@) == Some(lines.deep_view()),
            r matches Err(e) ==> e == FgError::IoError && decoded_file(p@, data@) is None,
    {
        if Io::is_gzip_path(p) {
            match gzip_decompress(data) {
                Some(c) => decode_content(&c),
                None => Err(FgError::IoError),
            }
        } else if Io::is_zstd_path(p) {
            match zstd_decompress(data) {
                Some(c) => decode_content(&c),
                None => Err(FgError::IoError),
            }
        } else {
            decode_content(data)
        }
    }
}

impl Default for Io {
    /// The default instance: gzip level 5 and the default buffer size.
    fn default() -> (r: Io)
        ensures
            r.spec_level() == 5,
            r.spec_buffer_size() == BUFFER_SIZE,
            r.wf(),
    {
        Io::new(5, BUFFER_SIZE)
    }
}

/// Joins the lines into raw uncompressed content: each line's UTF-8 bytes
/// followed by one newline byte.
pub fn join_lines(lines: &Vec<String>) -> (r: Vec<u8>)
    ensures
        r@ == encode_lines(lines.deep_view()),
{
    let mut out: Vec<u8> = Vec::new();
    let mut k: usize = 0;
    while k < lines.len()
        invariant
            k <= lines.len(),
            out@ == encode_lines(lines.deep_view().take(k as int)),
        decreases lines.len() - k,
    {
        let mut bs = lines[k].as_str().as_bytes_vec();
        proof {
            lemma_encode_lines_push(
                lines.deep_view().take(k as int),
                lines.deep_view()[k as int],
            );
            assert(lines.deep_view().take(k as int + 1) =~= lines.deep_view().take(
                k as int,
            ).push(lines.deep_view()[k as int]));
            assert(lines.deep_view()[k as int] == lines@[k as int]@);
        }
        out.append(&mut bs);
        out.push(10u8);
        k = k + 1;
    }
    proof {
        assert(lines.deep_view().take(lines@.len() as int) =~= lines.deep_view());
    }
    out
}

/// Splits raw uncompressed content on newlines and decodes each chunk, or
/// reports the byte-level error when a chunk is not valid UTF-8.
fn decode_content(content: &Vec<u8>) -> (r: Result<Vec<String>, FgError>)
    ensures
        r matches Ok(lines) ==> lines_of_bytes(content@) == Some(lines.deep_view()),
        r matches Err(e) ==> e == FgError::IoError && lines_of_bytes(content@) is None,
{
    let ghost c = content@;
    let ghost chunks = split_lines(c);
    let mut out: Vec<String> = Vec::new();
    let mut pos: usize = 0;
    proof {
        assert(chunks.skip(0) =~= chunks);
        assert(c.subrange(0, c.len() as int) =~= c);
    }
    while pos < content.len()
        invariant
            pos <= c.len(),
            c == content@,
            chunks == split_lines(c),
            out@.len() <= chunks.len(),
            chunks.skip(out@.len() as int) == split_lines(c.subrange(pos as int, c.len() as int)),
            forall|t: int|
                0 <= t < out@.len() ==> valid_utf8(#[trigger] chunks[t]) && out.deep_view()[t]
                    == decode_utf8(chunks[t]),
        decreases c.len() - pos,
    {
        let ghost n = out@.len() as int;
        let mut j: usize = pos;
        while j < content.len() && content[j] != 10
            invariant
                pos <= j <= c.len(),
                c == content@,
                forall|t: int| pos <= t < j ==> c[t] != 10,
            decreases c.len() - j,
        {
            j = j + 1;
        }
        let end = if j > pos && content[j - 1] == 13 {
            j - 1
        } else {
            j
        };
        let mut chunk: Vec<u8> = Vec::new();
        let mut t: usize = pos;
        while t < end
            invariant
                pos <= t <= end,
                end <= c.len(),
                c == content@,
                chunk@ == c.subrange(pos as int, t as int),
            decreases end - t,
        {
            let b = content[t];
            chunk.push(b);
            proof {
                assert(c.subrange(pos as int, t as int + 1) =~= c.subrange(
                    pos as int,
                    t as int,
                ).push(c[t as int]));
            }
            t = t + 1;
        }
        proof {
            let s = c.subrange(pos as int, c.len() as int);
            assert forall|u: int| 0 <= u < j - pos implies s[u] != 10 by {
                assert(s[u] == c[pos + u]);
            }
            if j < c.len() {
                assert(s[j - pos] == c[j as int]);
            }
            crate::lines::lemma_first_nl_is(s, j as int - pos as int);
            let raw = s.subrange(0, j as int - pos as int);
            assert(raw =~= c.subrange(pos as int, j as int));
            assert(chunk@ =~= crate::lines::strip_cr(raw));
            if j == c.len() {
                assert(raw =~= s);
                assert(split_lines(s) =~= seq![crate::lines::strip_cr(s)]);
            } else {
                assert(s.subrange(j - pos + 1, s.len() as int) =~= c.subrange(
                    j + 1,
                    c.len() as int,
                ));
            }
            assert(split_lines(s)[0] == chunk@);
            assert(chunks.skip(n) == split_lines(s));
            assert(chunks.skip(n).len() >= 1);
            assert(0 <= n < chunks.len());
            assert(chunks.skip(n)[0] == chunks[n]);
            assert(chunks[n] == chunk@);
        }
        match vec_to_string(chunk) {
            None => {
                proof {
                    assert(!valid_utf8(chunks[n]));
                    assert(0 <= n < chunks.len()) by {
                        assert(chunks.skip(n).len() >= 1);
                    }
                    assert(lines_of_bytes(c) is None);
                }
                return Err(FgError::IoError);
            },
            Some(s) => {
                let ghost odv = out.deep_view();
                out.push(s);
                proof {
                    assert(out.deep_view() =~= odv.push(s@));
                    let s2 = c.subrange(pos as int, c.len() as int);
                    if j == c.len() {
                        assert(split_lines(s2).skip(1) =~= split_lines(
                            c.subrange(c.len() as int, c.len() as int),
                        ));
                    } else {
                        assert(split_lines(s2).skip(1) =~= split_lines(
                            c.subrange(j + 1, c.len() as int),
                        ));
                    }
                    assert(chunks.skip(n + 1) =~= chunks.skip(n).skip(1));
                }
            },
        }
        pos = if j < content.len() {
            j + 1
        } else {
            j
        };
    }
    proof {
        assert(c.subrange(c.len() as int, c.len() as int) =~= Seq::<u8>::empty());
        assert(chunks.skip(out@.len() as int).len() == 0);
        assert(out@.len() == chunks.len());
        assert(Seq::new(chunks.len(), |i: int| decode_utf8(chunks[i])) =~= out.deep_view());
    }
    Ok(out)
}

} // verus!
