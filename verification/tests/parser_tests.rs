use mdsync::table::{parse_table, ParseError};
use mdsync::text::split_lines;

fn doc(lines: &[&str]) -> Vec<String> {
    lines.iter().map(|l| l.to_string()).collect()
}

#[test]
fn no_pipe_lines_yields_no_records() {
    let lines = doc(&["# Title", "", "Some prose.", "more prose"]);
    let records = parse_table(&lines, &"Name".to_string()).unwrap();
    assert!(records.is_empty());
}

#[test]
fn empty_document_yields_no_records() {
    let lines: Vec<String> = Vec::new();
    let records = parse_table(&lines, &"Name".to_string()).unwrap();
    assert!(records.is_empty());
}

#[test]
fn key_column_resolved_at_its_position() {
    let lines = doc(&["| A | Name | B |", "|---|---|---|", "| 1 | k1 | 2 |"]);
    let records = parse_table(&lines, &"Name".to_string()).unwrap();
    assert_eq!(records.len(), 1);
    assert_eq!(records[0].key, "k1");
}

#[test]
fn missing_key_column_is_fatal() {
    let lines = doc(&["| A | B |", "|---|---|", "| 1 | 2 |"]);
    let r = parse_table(&lines, &"Name".to_string());
    assert_eq!(r.unwrap_err(), ParseError::KeyColumnNotFound);
}

#[test]
fn duplicate_key_column_uses_first_match() {
    let lines = doc(&["| X | X |", "|---|---|", "| a | b |"]);
    let records = parse_table(&lines, &"X".to_string()).unwrap();
    assert_eq!(records[0].key, "a");
}

#[test]
fn separator_row_is_discarded() {
    let lines = doc(&["| Name |", "|---|"]);
    let records = parse_table(&lines, &"Name".to_string()).unwrap();
    assert!(records.is_empty());
}

#[test]
fn separator_with_colons_is_discarded() {
    let lines = doc(&["| Name | Color |", "| :--- | ---: |", "| Apple | Red |"]);
    let records = parse_table(&lines, &"Name".to_string()).unwrap();
    assert_eq!(records.len(), 1);
    assert_eq!(records[0].key, "Apple");
}

#[test]
fn separator_like_row_later_is_also_discarded() {
    let lines = doc(&["| Name |", "|---|", "| a |", "|:-:|", "| b |"]);
    let records = parse_table(&lines, &"Name".to_string()).unwrap();
    assert_eq!(records.len(), 2);
    assert_eq!(records[0].key, "a");
    assert_eq!(records[1].key, "b");
}

#[test]
fn document_with_and_without_separator_parse_alike() {
    let with = doc(&["| Name | Color |", "|---|---|", "| Apple | Red |"]);
    let without = doc(&["| Name | Color |", "| Apple | Red |"]);
    let key = "Name".to_string();
    let a = parse_table(&with, &key).unwrap();
    let b = parse_table(&without, &key).unwrap();
    assert_eq!(a.len(), b.len());
    assert_eq!(a[0].key, b[0].key);
    assert_eq!(a[0].fields, b[0].fields);
}

#[test]
fn ambiguous_separator_is_a_data_row() {
    // a separator-like row that fails the all-dash/colon test is data
    let lines = doc(&["| Name |", "| --x |"]);
    let records = parse_table(&lines, &"Name".to_string()).unwrap();
    assert_eq!(records.len(), 1);
    assert_eq!(records[0].key, "--x");
}

#[test]
fn example_one_record_with_key_and_color() {
    let lines = doc(&["| Name | Color |", "|---|---|", "| Apple | Red |"]);
    let records = parse_table(&lines, &"Name".to_string()).unwrap();
    assert_eq!(records.len(), 1);
    assert_eq!(records[0].key, "Apple");
    assert_eq!(
        records[0].fields,
        vec![
            ("Name".to_string(), "Apple".to_string()),
            ("Color".to_string(), "Red".to_string()),
        ]
    );
}

#[test]
fn short_row_yields_fewer_pairs() {
    let lines = doc(&["| A | B | C |", "|---|---|---|", "| 1 | 2 |"]);
    let records = parse_table(&lines, &"A".to_string()).unwrap();
    assert_eq!(records.len(), 1);
    assert_eq!(records[0].key, "1");
    assert_eq!(
        records[0].fields,
        vec![("A".to_string(), "1".to_string()), ("B".to_string(), "2".to_string())]
    );
}

#[test]
fn row_without_key_cell_is_fatal() {
    let lines = doc(&["| A | B | C |", "|---|---|---|", "| 1 | 2 |"]);
    let r = parse_table(&lines, &"C".to_string());
    assert_eq!(r.unwrap_err(), ParseError::KeyCellMissing);
}

#[test]
fn long_row_is_truncated_to_header_width() {
    let lines = doc(&["| A | B |", "|---|---|", "| 1 | 2 | 3 |"]);
    let records = parse_table(&lines, &"A".to_string()).unwrap();
    assert_eq!(
        records[0].fields,
        vec![("A".to_string(), "1".to_string()), ("B".to_string(), "2".to_string())]
    );
}

#[test]
fn table_ends_at_first_non_pipe_line() {
    let lines = doc(&["| K |", "|---|", "| a |", "prose", "| b |"]);
    let records = parse_table(&lines, &"K".to_string()).unwrap();
    assert_eq!(records.len(), 1);
    assert_eq!(records[0].key, "a");
}

#[test]
fn lines_before_the_table_are_ignored() {
    let lines = doc(&["intro", "", "| K | V |", "|---|---|", "| a | 1 |"]);
    let records = parse_table(&lines, &"K".to_string()).unwrap();
    assert_eq!(records.len(), 1);
    assert_eq!(records[0].key, "a");
}

#[test]
fn surrounding_whitespace_is_trimmed() {
    let lines = doc(&["  | Name | Color |  ", "\t|---|---|", "|  Apple\t| Red |"]);
    let records = parse_table(&lines, &"Name".to_string()).unwrap();
    assert_eq!(records[0].key, "Apple");
    assert_eq!(
        records[0].fields,
        vec![
            ("Name".to_string(), "Apple".to_string()),
            ("Color".to_string(), "Red".to_string()),
        ]
    );
}

#[test]
fn records_come_in_document_order() {
    let lines = doc(&["| K |", "|---|", "| a |", "| b |", "| c |"]);
    let records = parse_table(&lines, &"K".to_string()).unwrap();
    let keys: Vec<&str> = records.iter().map(|r| r.key.as_str()).collect();
    assert_eq!(keys, vec!["a", "b", "c"]);
}

#[test]
fn split_lines_handles_line_endings() {
    let lines = split_lines("a\nb\r\nc\n");
    assert_eq!(lines, vec!["a".to_string(), "b".to_string(), "c".to_string()]);
}

#[test]
fn split_lines_keeps_empty_lines() {
    let lines = split_lines("a\n\nb");
    assert_eq!(lines, vec!["a".to_string(), "".to_string(), "b".to_string()]);
}

#[test]
fn split_lines_of_empty_text_is_empty() {
    let lines = split_lines("");
    assert!(lines.is_empty());
}

#[test]
fn fetch_then_parse_round_trip() {
    let text = "# Fruits\n\n| Name | Color |\n|---|---|\n| Apple | Red |\n| Plum | Blue |\n";
    let lines = split_lines(text);
    let records = parse_table(&lines, &"Name".to_string()).unwrap();
    assert_eq!(records.len(), 2);
    assert_eq!(records[0].key, "Apple");
    assert_eq!(records[1].key, "Plum");
}
