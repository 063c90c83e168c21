use fgoxide::gateway::Io;

fn strings(xs: &[&str]) -> Vec<String> {
    let mut v = Vec::new();
    for x in xs {
        v.push(x.to_string());
    }
    v
}

#[test]
fn test_reading_and_writing_lines_to_file() {
    let lines = strings(&["foo", "bar,splat,whee", "baz\twhoopsie"]);
    let io = Io::default();

    let f1 = io.write_lines("strs.txt", &lines).unwrap();
    let f2 = io.write_lines("Strings.txt", &lines).unwrap();

    let r1 = io.read_lines("strs.txt", &f1).unwrap();
    let r2 = io.read_lines("Strings.txt", &f2).unwrap();

    assert_eq!(r1, lines);
    assert_eq!(r2, lines);
}

#[test]
fn test_reading_and_writing_gzip_files() {
    let lines = strings(&["foo", "bar", "baz"]);
    let io = Io::default();

    let text = io.write_lines("text.txt", &lines).unwrap();
    let gzipped = io.write_lines("gzipped.txt.gz", &lines).unwrap();

    let r1 = io.read_lines("text.txt", &text).unwrap();
    let r2 = io.read_lines("gzipped.txt.gz", &gzipped).unwrap();

    assert_eq!(r1, lines);
    assert_eq!(r2, lines);

    // Also check that we actually wrote gzipped data to the gzip file!
    assert_ne!(text.len(), gzipped.len());
}

#[test]
fn test_reading_and_writing_zstd_files() {
    let lines = strings(&["foo", "bar", "baz"]);

    assert_eq!(Io::is_zstd_path("text.txt"), false);
    assert_eq!(Io::is_zstd_path("zstd_compressed.txt.zst"), true);

    let io = Io::default();
    let text = io.write_lines("text.txt", &lines).unwrap();
    let zstd_compressed = io.write_lines("zstd_compressed.txt.zst", &lines).unwrap();

    let r1 = io.read_lines("text.txt", &text).unwrap();
    let r2 = io.read_lines("zstd_compressed.txt.zst", &zstd_compressed).unwrap();

    assert_eq!(r1, lines);
    assert_eq!(r2, lines);

    // Check whether the two files are different
    assert_ne!(text.len(), zstd_compressed.len());
}

#[test]
fn test_empty_line_sequence_round_trips() {
    let io = Io::default();
    let lines: Vec<String> = Vec::new();
    let bytes = io.write_lines("empty.txt", &lines).unwrap();
    assert_eq!(bytes.len(), 0);
    let back = io.read_lines("empty.txt", &bytes).unwrap();
    assert_eq!(back, lines);
}

#[test]
fn test_write_lines_exact_plain_bytes() {
    let io = Io::default();
    let lines = strings(&["foo", "bar"]);
    let bytes = io.write_lines("plain.txt", &lines).unwrap();
    assert_eq!(bytes, b"foo\nbar\n".to_vec());
}

#[test]
fn test_lines_with_quotes_round_trip() {
    let io = Io::default();
    let lines = strings(&["a \"quoted\" line", "comma, and tab\t here"]);
    let bytes = io.write_lines("q.txt", &lines).unwrap();
    assert_eq!(io.read_lines("q.txt", &bytes).unwrap(), lines);
}

#[test]
fn test_concatenated_gzip_members_decode_as_one_stream() {
    let io = Io::default();
    let first = io.write_lines("a.gz", &strings(&["foo", "bar"])).unwrap();
    let second = io.write_lines("a.gz", &strings(&["baz"])).unwrap();
    let mut both = first.clone();
    both.extend_from_slice(&second);
    let back = io.read_lines("a.gz", &both).unwrap();
    assert_eq!(back, strings(&["foo", "bar", "baz"]));
}

#[test]
fn test_reading_corrupt_gzip_is_io_error() {
    let io = Io::default();
    let garbage = vec![1u8, 2, 3, 4, 5];
    let err = io.read_lines("x.gz", &garbage).unwrap_err();
    assert!(err.is_io_error());
}

#[test]
fn test_reading_invalid_utf8_is_io_error() {
    let io = Io::default();
    let bytes = vec![0xffu8, 0xfe, 10];
    let err = io.read_lines("x.txt", &bytes).unwrap_err();
    assert!(err.is_io_error());
}

#[test]
fn test_crlf_line_endings_are_stripped() {
    let io = Io::default();
    let bytes = b"foo\r\nbar\r\n".to_vec();
    let lines = io.read_lines("dos.txt", &bytes).unwrap();
    assert_eq!(lines, strings(&["foo", "bar"]));
}

#[test]
fn test_content_without_final_newline_keeps_last_line() {
    let io = Io::default();
    let bytes = b"foo\nbar".to_vec();
    let lines = io.read_lines("nofinal.txt", &bytes).unwrap();
    assert_eq!(lines, strings(&["foo", "bar"]));
}

// ############################################################################################
// Tests is_gzip_path()
// ############################################################################################

#[test]
fn test_is_gzip_path() {
    assert_eq!(Io::is_gzip_path("test_fastq.fq.gz"), true); // .fq.gz is valid gzip
    assert_eq!(Io::is_gzip_path("test_fastq.fq.bgz"), true); // .fq.bgz is valid gzip
    assert_eq!(Io::is_gzip_path("test_fastq.fq.tar"), false); // .fq.tar is invalid gzip
}

// ############################################################################################
// Tests is_zstd_path()
// ############################################################################################

#[test]
fn test_is_zstd_path() {
    assert_eq!(Io::is_zstd_path("test_fastq.fq"), false); // .fq is invalid zstd
    assert_eq!(Io::is_zstd_path("test_fastq.fq.gz"), false); // .fq.gz is invalid zstd
    assert_eq!(Io::is_zstd_path("test_fastq.fq.bgz"), false); // .fq.bgz is invalid zstd
    assert_eq!(Io::is_zstd_path("test_fastq.fq.tar"), false); // .fq.tar is invalid zstd
    assert_eq!(Io::is_zstd_path("test_fastq.fq.zst"), true); // .fq.zst is valid zstd
}

// ############################################################################################
// Tests is_fastq_path()
// ############################################################################################

#[test]
fn test_is_fastq_path() {
    assert_eq!(Io::is_fastq_path("test_fastq.fq"), true); // .fq is valid fastq
    assert_eq!(Io::is_fastq_path("test_fastq.fastq"), true); // .fastq is valid fastq
    assert_eq!(Io::is_fastq_path("test_fastq.sam"), false); // .sam is invalid fastq
}

#[test]
fn test_extension_rules_follow_the_file_name() {
    // directories and hidden files do not contribute extensions
    assert_eq!(Io::is_gzip_path("dir.gz/file.txt"), false);
    assert_eq!(Io::is_gzip_path(".gz"), false);
    assert_eq!(Io::is_gzip_path("dir/.gz"), false);
    assert_eq!(Io::is_gzip_path("dir/a.gz"), true);
    // matching is case-sensitive and exact
    assert_eq!(Io::is_gzip_path("a.GZ"), false);
    assert_eq!(Io::is_gzip_path("a.gzx"), false);
    assert_eq!(Io::is_fastq_path("a.fq.gz"), false);
}
