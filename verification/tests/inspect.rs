use peakrs::meta::CsvMeta;
use peakrs::numeric::classify_cell;
use peakrs::render::view_csv;
use peakrs::scan::{cell_address, get_byte_array_frequency_distribution, locate_row, skip_white_space};
use peakrs::sniff::{get_column_name, get_csv_sample, sample_rows, InspectError};
use peakrs::stats::max_column_width;
use peakrs::text::usize_to_string;
use peakrs::writer::write_csv;

fn inspect(data: &[u8], rows: i32) -> (Vec<u8>, CsvMeta) {
    get_csv_sample(&data.to_vec(), rows).expect("inspection should succeed")
}

#[test]
fn comma_dialect_round_trip() {
    let data = b"a,b,c\n1,2,3\n4,5,6\n";
    let (csv, meta) = inspect(data, 2);
    assert_eq!(meta.delimiter, b',');
    assert_eq!(meta.total_column, 3);
    assert_eq!(meta.column_name, vec!["a", "b", "c"]);
    assert_eq!(meta.validate_row, 2);
    assert_eq!(meta.file_size, 18);
    assert!(meta.is_line_br_10_exist);
    assert!(!meta.is_line_br_13_exist);
    assert_eq!(csv, b"1,2,3\n4,5,6\n".to_vec());
    assert_eq!(meta.error_message, "");
    // the sample writer reproduces the header and the sampled rows
    let out = write_csv(&csv, &meta);
    assert_eq!(out, b"a,b,c\r\n1,2,3\n4,5,6\n".to_vec());
    let text = String::from_utf8(out).unwrap();
    let mut lines = text.split("\r\n");
    let header = lines.next().unwrap();
    assert_eq!(header.split(',').collect::<Vec<_>>(), vec!["a", "b", "c"]);
    assert_eq!(lines.next().unwrap(), "1,2,3\n4,5,6\n");
}

#[test]
fn row_estimate_heuristic() {
    let data = b"a,b,c\n1,2,3\n4,5,6\n";
    let (_, meta) = inspect(data, 2);
    // 18 bytes / (12 sampled bytes / 2 rows)
    assert_eq!(meta.estimate_row, 3);
}

#[test]
fn crlf_terminators_detected() {
    let data = b"a,b\r\n1,2\r\n3,4\r\n";
    let (_, meta) = inspect(data, 2);
    assert!(meta.is_line_br_13_exist);
    assert!(meta.is_line_br_10_exist);
    assert_eq!(meta.delimiter, b',');
    assert_eq!(meta.total_column, 2);
    assert_eq!(meta.column_name, vec!["a", "b"]);
}

#[test]
fn lf_only_terminators_detected() {
    let data = b"a,b\n1,2\n3,4\n";
    let (_, meta) = inspect(data, 2);
    assert!(!meta.is_line_br_13_exist);
    assert!(meta.is_line_br_10_exist);
}

#[test]
fn single_survivor_is_selected() {
    let data = b"x;y\n1;2\n3;4\n";
    let (_, meta) = inspect(data, 2);
    assert_eq!(meta.delimiter, b';');
    assert_eq!(meta.total_column, 2);
    assert_eq!(meta.column_name, vec!["x", "y"]);
    assert_eq!(meta.error_message, "");
}

#[test]
fn comma_takes_precedence_over_other_survivors() {
    // both the comma and the semicolon survive every row with count 1
    let data = b"a,b;c\nd,e;f\ng,h;i\n";
    let (_, meta) = inspect(data, 2);
    assert_eq!(meta.delimiter, b',');
    assert_eq!(meta.total_column, 2);
    assert_eq!(meta.error_message, "");
}

#[test]
fn ambiguous_delimiter_reported_with_candidates() {
    // ';' (59) and '|' (124) both survive with count 1; no comma
    let data = b"a;b|c\nd;e|f\ng;h|i\n";
    let (_, meta) = inspect(data, 2);
    assert_eq!(meta.delimiter, 0);
    assert_eq!(meta.total_column, 0);
    let expected = "** More than one possible delimiter ** \n\
                    \x20  ASCII59 (;)\n\
                    \x20  ASCII124 (|)\n\
                    ** Fail to count number of column ** \n\
                    ** Number of column name is 1, but number of column is 0 ** \n";
    assert_eq!(meta.error_message, expected);
}

#[test]
fn header_mismatch_spelled_out() {
    // quote-delimited cells: the quote byte survives as the delimiter, but
    // the header scan cuts more cells than the surviving count suggests
    let data = b"\"a\"x\"b\"\n\"c\"x\"d\"\n\"e\"x\"f\"\n";
    let (_, meta) = inspect(data, 2);
    assert_eq!(meta.delimiter, b'"');
    assert_eq!(meta.total_column, 3);
    assert_eq!(meta.column_name, vec!["", "a", "x", "b", ""]);
    assert!(meta
        .error_message
        .contains("** Number of column name is 5, but number of column is 3 ** \n"));
}

#[test]
fn numeric_cells_classified() {
    let v = b"12".to_vec();
    assert_eq!(classify_cell(&v, 0, 2), (true, 2, 0));
    let v = b"-5".to_vec();
    assert_eq!(classify_cell(&v, 0, 2), (true, 1, 0));
    let v = b"(7)".to_vec();
    assert_eq!(classify_cell(&v, 0, 3), (true, 1, 0));
    // the column maximum over ["12", "-5", "(7)"] is 2 integer digits
    let widths = [2, 1, 1];
    assert_eq!(*widths.iter().max().unwrap(), 2);
    let v = b"x".to_vec();
    assert_eq!(classify_cell(&v, 0, 1).0, false);
    let v = b"3.25".to_vec();
    assert_eq!(classify_cell(&v, 0, 4), (true, 1, 2));
    let v = b".5".to_vec();
    assert_eq!(classify_cell(&v, 0, 2).0, false);
    let v = b"1.2.3".to_vec();
    assert_eq!(classify_cell(&v, 0, 5).0, false);
    let v = b"(-5)".to_vec();
    assert_eq!(classify_cell(&v, 0, 4).0, false);
}

#[test]
fn numeric_column_with_text_cell_is_textual() {
    let data = b"v,w\n12,a\nx,b\n";
    let (csv, meta) = inspect(data, 2);
    let (zero, widths) = max_column_width(&csv, &meta);
    assert!(!zero);
    // column v saw "12" and "x": textual, widest cell 2, header 1
    assert_eq!(widths[0], 2);
    assert_eq!(widths[1], 1);
}

#[test]
fn render_numeric_table_bytes() {
    let data = b"a,b,c\n1,2,3\n4,5,6\n";
    let (csv, meta) = inspect(data, 2);
    let out = view_csv(&csv, &meta);
    let expected = b"\n  a  b  c  \r\n  1  2  3  \r\n  4  5  6  \r\n\n";
    assert_eq!(out, expected.to_vec());
}

#[test]
fn no_surviving_candidate_leaves_delimiter_unset() {
    let data = b"n\n1.5\n12.25\n10.1\n12.25\n11.5\n10.1\n12.25\n11.5\n10.1\n12.25\n";
    let (csv, meta) = inspect(&data[..], 0);
    assert_eq!(meta.delimiter, 0);
    assert_eq!(meta.total_column, 0);
    assert!(meta.error_message.contains("** Fail to find delimiter ** \n"));
    // without columns the renderer emits nothing rather than guessing
    let out = view_csv(&csv, &meta);
    assert_eq!(out, Vec::<u8>::new());
}

#[test]
fn render_aligns_decimal_points() {
    let data = b"h,n\nx,1.5\ny,12.25\n";
    let (csv, meta) = inspect(&data[..], 2);
    assert_eq!(meta.total_column, 2);
    let out = view_csv(&csv, &meta);
    let text = String::from_utf8(out).unwrap();
    let expected = "\n  h      n  \r\n  x   1.5   \r\n  y  12.25  \r\n\n";
    assert_eq!(text, expected);
}

#[test]
fn render_empty_buffer_is_empty() {
    let meta = CsvMeta {
        total_column: 2,
        validate_row: 0,
        estimate_row: 0,
        is_line_br_13_exist: false,
        is_line_br_10_exist: true,
        column_name: vec!["a".to_string(), "b".to_string()],
        file_size: 0,
        delimiter: b',',
        error_message: String::new(),
    };
    let out = view_csv(&Vec::new(), &meta);
    assert_eq!(out, Vec::<u8>::new());
}

#[test]
fn wide_table_splits_into_two_blocks() {
    let long_a = "a".repeat(60);
    let long_b = "b".repeat(60);
    let header = format!("{},{}\n", long_a, long_b);
    let file = format!("{}1,2\n3,4\n", header);
    let (csv, meta) = inspect(file.as_bytes(), 2);
    assert_eq!(meta.total_column, 2);
    // both sampling offsets land before the second data row, so the first
    // data row is sampled twice
    assert_eq!(csv, b"1,2\n1,2\n".to_vec());
    let out = view_csv(&csv, &meta);
    let text = String::from_utf8(out).unwrap();
    // total width 120 > 100: two blocks, one column each
    let pad = " ".repeat(59);
    let expected = format!(
        "\n  {}  \r\n  {}1  \r\n  {}1  \r\n\n  {}  \r\n  {}2  \r\n  {}2  \r\n\n",
        long_a, pad, pad, long_b, pad, pad
    );
    assert_eq!(text, expected);
}

#[test]
fn inspect_twice_is_identical() {
    let data = b"a,b,c\n1,2,3\n4,5,6\n7,8,9\n";
    let (csv1, meta1) = inspect(data, 3);
    let (csv2, meta2) = inspect(data, 3);
    assert_eq!(csv1, csv2);
    assert_eq!(meta1, meta2);
}

#[test]
fn no_complete_row_is_fatal() {
    let r = get_csv_sample(&b"no line feed at all".to_vec(), 2);
    assert_eq!(r.unwrap_err(), InspectError::SampleWindowExhausted);
}

#[test]
fn header_without_line_feed_is_incomplete() {
    let r = get_column_name(&b"abc".to_vec(), b',');
    assert_eq!(r.unwrap_err(), InspectError::HeaderRowIncomplete);
}

#[test]
fn invalid_header_text_is_fatal() {
    let data = b"\xFFa,b\n1,2\n3,4\n";
    let r = get_csv_sample(&data.to_vec(), 2);
    assert_eq!(r.unwrap_err(), InspectError::HeaderNotText);
}

#[test]
fn header_names_are_trimmed() {
    let names = get_column_name(&b" a , b \n1,2\n".to_vec(), b',').unwrap();
    assert_eq!(names, vec!["a", "b"]);
}

#[test]
fn whitespace_trimming_bounds() {
    let v = b"  x  ".to_vec();
    assert_eq!(skip_white_space(&v, 0, 5), (2, 3));
    let v = b"     ".to_vec();
    assert_eq!(skip_white_space(&v, 0, 5), (5, 5));
}

#[test]
fn frequency_distribution_counts() {
    let v = b"a,b,a\n".to_vec();
    let freq = get_byte_array_frequency_distribution(&v);
    assert_eq!(freq[b'a' as usize], 2);
    assert_eq!(freq[b',' as usize], 2);
    assert_eq!(freq[b'b' as usize], 1);
    assert_eq!(freq[10], 1);
    assert_eq!(freq[0], 0);
}

#[test]
fn locate_row_skips_partial_row() {
    let v = b"aaa\nbbb\nccc\n".to_vec();
    // from a mid-row offset the locator returns the next complete row
    assert_eq!(locate_row(&v, 1, false), Some(b"bbb\n".to_vec()));
    assert_eq!(locate_row(&v, 0, true), Some(b"aaa\n".to_vec()));
    assert_eq!(locate_row(&b"no end".to_vec(), 0, true), None);
}

#[test]
fn locate_row_strips_quoted_spans() {
    let v = b"h\na,\"x,y\",b\nz\n".to_vec();
    // quoted content is dropped; the closing quote byte stays
    assert_eq!(locate_row(&v, 0, false), Some(b"a,\",b\n".to_vec()));
}

#[test]
fn cell_offsets_mark_boundaries() {
    let v = b"1,2\n4,5\n".to_vec();
    let addr = cell_address(&v, b',');
    assert_eq!(addr, vec![0, 2, 4, 6, 8]);
    let v = b"a,\"x,y\",b\n".to_vec();
    let addr = cell_address(&v, b',');
    // the comma inside the quoted span marks no boundary
    assert_eq!(addr, vec![0, 2, 8, 10]);
}

#[test]
fn sample_row_defaults() {
    assert_eq!(sample_rows(0, 50_000), 10);
    assert_eq!(sample_rows(7, 50_000), 7);
    assert_eq!(sample_rows(7, 5_000), 10);
    assert_eq!(sample_rows(1, 50_000), 2);
    assert_eq!(sample_rows(50, 800), 2);
}

#[test]
fn decimal_rendering() {
    assert_eq!(usize_to_string(0), "0");
    assert_eq!(usize_to_string(59), "59");
    assert_eq!(usize_to_string(1234567), "1234567");
}

#[test]
fn metadata_getters() {
    let (_, meta) = inspect(b"a,b\n1,2\n3,4\n", 2);
    assert_eq!(meta.get_total_column(), 2);
    assert_eq!(meta.get_validate_row(), 2);
    assert_eq!(meta.get_file_size(), 12);
    assert_eq!(meta.get_delimiter(), b',');
    assert!(meta.get_is_line_br_10_exist());
    assert!(!meta.get_is_line_br_13_exist());
    assert_eq!(meta.get_column_name(), &vec!["a".to_string(), "b".to_string()]);
    assert_eq!(meta.get_error_message(), "");
    assert!(meta.get_estimate_row() > 0);
}
