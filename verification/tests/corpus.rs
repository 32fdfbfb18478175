use wordfreq::aggregate::{process_lines, should_skip_file};
use wordfreq::errors::AggError;
use wordfreq::export::export_table;
use wordfreq::parse::parse_line;
use wordfreq::render::{render_export, u64_to_dec};
use wordfreq::table::reset_table;

fn lines(v: &[&str]) -> Vec<String> {
    v.iter().map(|s| s.to_string()).collect()
}

fn fresh_table() -> rusqlite::Connection {
    let mut conn = rusqlite::Connection::open_in_memory().unwrap();
    reset_table(&mut conn).unwrap();
    conn
}

const HEADER: [&str; 5] = ["@@@@@", "@@@@@", "@@@@@", "@@@@@", "@@@@@"];

fn file_with(data: &[&str]) -> Vec<String> {
    let mut v = lines(&HEADER);
    v.extend(lines(data));
    v
}

#[test]
fn single_file_counts_and_export() {
    let mut conn = fresh_table();
    let file = file_with(&["foo\t3", "bar\t1", "foo\t2"]);
    let total = process_lines(&mut conn, &file).unwrap();
    assert_eq!(total, 6);
    let e = export_table(&conn).unwrap();
    assert_eq!(e.size, 6);
    assert_eq!(e.size_1, 5);
    assert_eq!(e.by_count.len(), 1);
    assert_eq!(e.by_count[0].word, "foo");
    assert_eq!(e.by_count[0].count, 5);
    assert_eq!(e.by_word.len(), 1);
    assert_eq!(e.by_word[0].word, "foo");
    assert_eq!(e.by_word[0].count, 5);
}

#[test]
fn missing_header_aborts_before_any_commit() {
    let mut conn = fresh_table();
    let file = lines(&["foo\t3", "@@@@@", "@@@@@", "@@@@@", "@@@@@", "bar\t2"]);
    assert_eq!(process_lines(&mut conn, &file), Err(AggError::MalformedHeader));
    let e = export_table(&conn).unwrap();
    assert_eq!(e.size, 0);
    assert_eq!(e.size_1, 0);
    assert!(e.by_count.is_empty());
    assert!(e.by_word.is_empty());
}

#[test]
fn bad_header_later_line_aborts() {
    let mut conn = fresh_table();
    let file = lines(&["@@@@@", "@@@@@", "no-at-sign", "@@@@@", "@@@@@"]);
    assert_eq!(process_lines(&mut conn, &file), Err(AggError::MalformedHeader));
}

#[test]
fn two_files_accumulate() {
    let mut conn = fresh_table();
    let file1 = file_with(&["word\t4"]);
    let file2 = file_with(&["word\t4"]);
    assert_eq!(process_lines(&mut conn, &file1).unwrap(), 4);
    assert_eq!(process_lines(&mut conn, &file2).unwrap(), 4);
    let e = export_table(&conn).unwrap();
    assert_eq!(e.size, 8);
    assert_eq!(e.size_1, 8);
    assert_eq!(e.by_count.len(), 1);
    assert_eq!(e.by_count[0].word, "word");
    assert_eq!(e.by_count[0].count, 8);
}

#[test]
fn rerun_after_reset_reproduces_identical_lines() {
    let mut conn = fresh_table();
    let file1 = file_with(&["foo\t3", "bar\t2", "baz\t2", "foo\t1"]);
    let file2 = file_with(&["qux\t7", "bar\t5"]);
    process_lines(&mut conn, &file1).unwrap();
    process_lines(&mut conn, &file2).unwrap();
    let e1 = export_table(&conn).unwrap();
    let a1 = render_export(e1.size, e1.size_1, &e1.by_count);
    let b1 = render_export(e1.size, e1.size_1, &e1.by_word);

    reset_table(&mut conn).unwrap();
    process_lines(&mut conn, &file1).unwrap();
    process_lines(&mut conn, &file2).unwrap();
    let e2 = export_table(&conn).unwrap();
    let a2 = render_export(e2.size, e2.size_1, &e2.by_count);
    let b2 = render_export(e2.size, e2.size_1, &e2.by_word);

    assert_eq!(a1, a2);
    assert_eq!(b1, b2);
}

#[test]
fn file_order_does_not_change_counts() {
    let file1 = file_with(&["foo\t3", "bar\t2"]);
    let file2 = file_with(&["bar\t5", "baz\t2"]);

    let mut conn = fresh_table();
    process_lines(&mut conn, &file1).unwrap();
    process_lines(&mut conn, &file2).unwrap();
    let e1 = export_table(&conn).unwrap();
    let a1 = render_export(e1.size, e1.size_1, &e1.by_count);

    let mut conn2 = fresh_table();
    process_lines(&mut conn2, &file2).unwrap();
    process_lines(&mut conn2, &file1).unwrap();
    let e2 = export_table(&conn2).unwrap();
    let a2 = render_export(e2.size, e2.size_1, &e2.by_count);

    assert_eq!(a1, a2);
}

#[test]
fn exports_sorted_and_filtered() {
    let mut conn = fresh_table();
    let file = file_with(&[
        "delta\t9", "alpha\t2", "carol\t2", "bravo\t2", "echo\t1", "zero\t0",
    ]);
    process_lines(&mut conn, &file).unwrap();
    let e = export_table(&conn).unwrap();
    assert_eq!(e.size, 16);
    assert_eq!(e.size_1, 15);
    // count descending, ties by ascending word; count-one and count-zero
    // records are excluded
    let by_count: Vec<(String, u64)> =
        e.by_count.iter().map(|r| (r.word.clone(), r.count)).collect();
    assert_eq!(
        by_count,
        vec![
            ("delta".to_string(), 9),
            ("alpha".to_string(), 2),
            ("bravo".to_string(), 2),
            ("carol".to_string(), 2),
        ]
    );
    let by_word: Vec<(String, u64)> =
        e.by_word.iter().map(|r| (r.word.clone(), r.count)).collect();
    assert_eq!(
        by_word,
        vec![
            ("alpha".to_string(), 2),
            ("bravo".to_string(), 2),
            ("carol".to_string(), 2),
            ("delta".to_string(), 9),
        ]
    );
}

#[test]
fn empty_table_renders_metadata_only() {
    let conn = fresh_table();
    let e = export_table(&conn).unwrap();
    let out = render_export(e.size, e.size_1, &e.by_count);
    assert_eq!(out, vec!["@size\t0".to_string(), "@size-1\t0".to_string()]);
}

#[test]
fn rendered_lines_match_format() {
    let mut conn = fresh_table();
    let file = file_with(&["foo\t3", "bar\t1", "foo\t2"]);
    process_lines(&mut conn, &file).unwrap();
    let e = export_table(&conn).unwrap();
    let out = render_export(e.size, e.size_1, &e.by_count);
    assert_eq!(
        out,
        vec![
            "@size\t6".to_string(),
            "@size-1\t5".to_string(),
            "foo\t5".to_string(),
        ]
    );
}

#[test]
fn header_only_file_is_empty() {
    let mut conn = fresh_table();
    let file = lines(&HEADER);
    assert_eq!(process_lines(&mut conn, &file).unwrap(), 0);
    let short = lines(&["@one", "@two"]);
    assert_eq!(process_lines(&mut conn, &short).unwrap(), 0);
}

#[test]
fn count_too_large_for_storage_aborts() {
    let mut conn = fresh_table();
    // fits the count type but not the table's signed 64-bit storage
    let file = file_with(&["w\t18446744073709551615"]);
    assert_eq!(process_lines(&mut conn, &file), Err(AggError::CountOverflow));
    // accumulation past the storage limit also aborts
    let mut conn2 = fresh_table();
    let file2 = file_with(&["w\t9223372036854775807", "w\t1"]);
    assert_eq!(process_lines(&mut conn2, &file2), Err(AggError::CountOverflow));
}

#[test]
fn parse_header_lines() {
    assert!(matches!(parse_line("@meta line", 0), Ok(None)));
    assert!(matches!(parse_line("@", 4), Ok(None)));
    assert_eq!(
        parse_line("foo\t3", 0).unwrap_err(),
        AggError::MalformedHeader
    );
    assert_eq!(parse_line("", 2).unwrap_err(), AggError::MalformedHeader);
}

#[test]
fn parse_data_lines() {
    let p = parse_line("foo\t3", 5).unwrap().unwrap();
    assert_eq!(p.word, "foo");
    assert_eq!(p.count, 3);
    // extra tokens are ignored; any whitespace separates
    let p = parse_line("  foo   42  junk", 9).unwrap().unwrap();
    assert_eq!(p.word, "foo");
    assert_eq!(p.count, 42);
    let p = parse_line("@word\t7", 5).unwrap().unwrap();
    assert_eq!(p.word, "@word");
    assert_eq!(p.count, 7);
}

#[test]
fn parse_unicode_whitespace() {
    // any Unicode whitespace separates tokens, as str::split_whitespace does
    let p = parse_line("foo\u{00A0}42", 5).unwrap().unwrap();
    assert_eq!(p.word, "foo");
    assert_eq!(p.count, 42);
    let p = parse_line("\u{2003}foo\u{3000}7\u{2028}x", 5).unwrap().unwrap();
    assert_eq!(p.word, "foo");
    assert_eq!(p.count, 7);
}

#[test]
fn parse_data_errors() {
    assert_eq!(parse_line("", 5).unwrap_err(), AggError::MissingWord);
    assert_eq!(parse_line("   ", 6).unwrap_err(), AggError::MissingWord);
    assert_eq!(
        parse_line("foo", 5).unwrap_err(),
        AggError::MissingOrInvalidCount
    );
    assert_eq!(
        parse_line("foo\tx", 5).unwrap_err(),
        AggError::MissingOrInvalidCount
    );
    assert_eq!(
        parse_line("foo\t12x", 5).unwrap_err(),
        AggError::MissingOrInvalidCount
    );
    assert_eq!(
        parse_line("foo\t-1", 5).unwrap_err(),
        AggError::MissingOrInvalidCount
    );
    // past the u64 range
    assert_eq!(
        parse_line("foo\t99999999999999999999", 5).unwrap_err(),
        AggError::MissingOrInvalidCount
    );
}

#[test]
fn malformed_data_line_aborts_run() {
    let mut conn = fresh_table();
    let file = file_with(&["good\t2", "bad line", "later\t3"]);
    assert_eq!(
        process_lines(&mut conn, &file),
        Err(AggError::MissingOrInvalidCount)
    );
    let file2 = file_with(&["good\t2", "", "later\t3"]);
    let mut conn2 = fresh_table();
    assert_eq!(process_lines(&mut conn2, &file2), Err(AggError::MissingWord));
}

#[test]
fn decimal_rendering() {
    assert_eq!(u64_to_dec(0), "0");
    assert_eq!(u64_to_dec(7), "7");
    assert_eq!(u64_to_dec(10), "10");
    assert_eq!(u64_to_dec(1234567890), "1234567890");
    assert_eq!(u64_to_dec(u64::MAX), "18446744073709551615");
}

#[test]
fn store_failure_is_reported() {
    let mut conn = fresh_table();
    // pull the table out from under the run: every store call now fails
    conn.execute("DROP TABLE freqs", ()).unwrap();
    let file = file_with(&["foo\t3"]);
    assert_eq!(process_lines(&mut conn, &file), Err(AggError::Store));
    assert!(matches!(export_table(&conn), Err(AggError::Store)));
}

#[test]
fn skip_list() {
    assert!(should_skip_file(".DS_Store"));
    assert!(!should_skip_file("corpus"));
    assert!(!should_skip_file(""));
}
