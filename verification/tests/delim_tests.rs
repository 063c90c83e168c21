use fgoxide::delim_file::DelimFile;
use fgoxide::table::Field;
use fgoxide::FgError;

/// The schema of the record type used in testing DelimFile: a text field, a
/// count, a flag, and an optional number.
fn rec_schema() -> Vec<Field> {
    vec![
        Field { name: "s".to_string(), optional: false },
        Field { name: "i".to_string(), optional: false },
        Field { name: "b".to_string(), optional: false },
        Field { name: "o".to_string(), optional: true },
    ]
}

fn rec(s: &str, i: &str, b: &str, o: Option<&str>) -> Vec<Option<String>> {
    vec![
        Some(s.to_string()),
        Some(i.to_string()),
        Some(b.to_string()),
        o.map(|x| x.to_string()),
    ]
}

#[test]
fn test_reading_and_writing_empty_delim_file() {
    let recs: Vec<Vec<Option<String>>> = vec![];
    let schema = rec_schema();

    let df = DelimFile::default();
    let csv = df.write_csv("recs.csv", &schema, &recs).unwrap();
    let tsv = df.write_tsv("recs.tsv.gz", &schema, &recs).unwrap();
    let from_csv = df.read_csv("recs.csv", &schema, &csv).unwrap();
    let from_tsv = df.read_tsv("recs.tsv.gz", &schema, &tsv).unwrap();

    assert_eq!(from_csv, recs);
    assert_eq!(from_tsv, recs);
}

#[test]
fn test_reading_and_writing_delim_file() {
    let recs = vec![
        rec("Hello", "123", "true", None),
        rec("A,B,C", "456", "false", Some("123.45")),
    ];
    let schema = rec_schema();

    let df = DelimFile::default();
    let csv = df.write_csv("recs.csv", &schema, &recs).unwrap();
    let tsv = df.write_tsv("recs.tsv.gz", &schema, &recs).unwrap();
    let from_csv = df.read_csv("recs.csv", &schema, &csv).unwrap();
    let from_tsv = df.read_tsv("recs.tsv.gz", &schema, &tsv).unwrap();

    assert_eq!(from_csv, recs);
    assert_eq!(from_tsv, recs);
}

#[test]
fn test_empty_table_still_writes_header() {
    let schema = rec_schema();
    let df = DelimFile::default();
    let bytes = df.write_csv("recs.csv", &schema, &vec![]).unwrap();
    assert_eq!(bytes, b"s,i,b,o\n".to_vec());
}

#[test]
fn test_quote_mode_never_writes_delimiters_verbatim() {
    let schema = vec![Field { name: "a".to_string(), optional: false }];
    let recs = vec![vec![Some("x,y".to_string())]];
    let df = DelimFile::default();
    let bytes = df.write("unquoted.csv", &schema, &recs, 44, false).unwrap();
    assert_eq!(bytes, b"a\nx,y\n".to_vec());
}

#[test]
fn test_quoting_survives_delimiters_quotes_and_newlines() {
    let schema = vec![
        Field { name: "a".to_string(), optional: false },
        Field { name: "b".to_string(), optional: false },
    ];
    let recs = vec![vec![
        Some("he said \"hi, there\"".to_string()),
        Some("two\nlines".to_string()),
    ]];
    let df = DelimFile::default();
    let bytes = df.write_csv("quoted.csv", &schema, &recs).unwrap();
    let back = df.read_csv("quoted.csv", &schema, &bytes).unwrap();
    assert_eq!(back, recs);
}

#[test]
fn test_absent_optional_field_round_trips_as_absent() {
    let schema = rec_schema();
    let recs = vec![rec("x", "1", "true", None)];
    let df = DelimFile::default();
    let bytes = df.write_csv("recs.csv", &schema, &recs).unwrap();
    let back = df.read_csv("recs.csv", &schema, &bytes).unwrap();
    assert_eq!(back[0][3], None);
}

#[test]
fn test_columns_are_matched_by_header_name_not_position() {
    let schema = vec![
        Field { name: "a".to_string(), optional: false },
        Field { name: "b".to_string(), optional: false },
    ];
    let df = DelimFile::default();
    let bytes = b"b,a\n1,2\n".to_vec();
    let back = df.read_csv("recs.csv", &schema, &bytes).unwrap();
    assert_eq!(back, vec![vec![Some("2".to_string()), Some("1".to_string())]]);
}

#[test]
fn test_unknown_and_missing_header_names_are_schema_mismatches() {
    let schema = vec![
        Field { name: "a".to_string(), optional: false },
        Field { name: "b".to_string(), optional: false },
    ];
    let df = DelimFile::default();
    let unknown = b"a,c\n1,2\n".to_vec();
    assert_eq!(
        df.read_csv("recs.csv", &schema, &unknown).unwrap_err(),
        FgError::ConversionError { row: 0 }
    );
    let missing = b"a\n1\n".to_vec();
    assert_eq!(
        df.read_csv("recs.csv", &schema, &missing).unwrap_err(),
        FgError::ConversionError { row: 0 }
    );
}

#[test]
fn test_empty_content_has_no_header() {
    let schema = rec_schema();
    let df = DelimFile::default();
    let err = df.read_csv("recs.csv", &schema, &vec![]).unwrap_err();
    assert_eq!(err, FgError::ConversionError { row: 0 });
}

#[test]
fn test_bad_row_reports_its_row_number() {
    let schema = vec![
        Field { name: "a".to_string(), optional: false },
        Field { name: "b".to_string(), optional: false },
    ];
    let df = DelimFile::default();
    let bytes = b"a,b\n1,2\n3\n".to_vec();
    let err = df.read_csv("recs.csv", &schema, &bytes).unwrap_err();
    assert_eq!(err, FgError::ConversionError { row: 2 });
}

#[test]
fn test_writing_record_of_wrong_shape_is_a_conversion_error() {
    let schema = rec_schema();
    let df = DelimFile::default();
    // too few fields
    let short = vec![vec![Some("x".to_string())]];
    assert_eq!(
        df.write_csv("recs.csv", &schema, &short).unwrap_err(),
        FgError::ConversionError { row: 1 }
    );
    // a required field absent, in the second record
    let bad = vec![rec("x", "1", "true", None), vec![None, None, None, None]];
    assert_eq!(
        df.write_csv("recs.csv", &schema, &bad).unwrap_err(),
        FgError::ConversionError { row: 2 }
    );
}

#[test]
fn test_compressed_table_is_compressed_and_reads_back() {
    let schema = rec_schema();
    let mut recs = Vec::new();
    for i in 0..50 {
        recs.push(rec("sample", &format!("{}", i), "true", Some("0.5")));
    }
    let df = DelimFile::default();
    let plain = df.write_csv("recs.csv", &schema, &recs).unwrap();
    let zipped = df.write_csv("recs.csv.gz", &schema, &recs).unwrap();
    let zstded = df.write_csv("recs.csv.zst", &schema, &recs).unwrap();
    assert_ne!(plain.len(), zipped.len());
    assert_ne!(plain.len(), zstded.len());
    assert_eq!(df.read_csv("recs.csv.gz", &schema, &zipped).unwrap(), recs);
    assert_eq!(df.read_csv("recs.csv.zst", &schema, &zstded).unwrap(), recs);
}

#[test]
fn test_corrupt_compressed_table_is_io_error() {
    let schema = rec_schema();
    let df = DelimFile::default();
    let garbage = vec![9u8, 9, 9];
    assert_eq!(df.read_csv("recs.csv.gz", &schema, &garbage).unwrap_err(), FgError::IoError);
    assert_eq!(df.read_csv("recs.csv.zst", &schema, &garbage).unwrap_err(), FgError::IoError);
}
