use graph_stats::edges::{parse_edge_line, parse_number, Line};

#[test]
fn line_with_two_numbers_is_an_edge() {
    assert_eq!(parse_edge_line(b"12\t345"), Line::Edge(12, 345));
    assert_eq!(parse_edge_line(b"0\t0"), Line::Edge(0, 0));
    assert_eq!(parse_edge_line(b"+7\t007"), Line::Edge(7, 7));
    assert_eq!(parse_edge_line(b"4294967295\t1"), Line::Edge(4294967295, 1));
}

#[test]
fn line_without_two_columns_is_skipped() {
    assert_eq!(parse_edge_line(b""), Line::Skipped);
    assert_eq!(parse_edge_line(b"12 345"), Line::Skipped);
    assert_eq!(parse_edge_line(b"1\t2\t3"), Line::Skipped);
    assert_eq!(parse_edge_line(b"# FromNodeId ToNodeId"), Line::Skipped);
    assert_eq!(parse_edge_line(b"a\tb\tc"), Line::Skipped);
}

#[test]
fn two_columns_that_are_not_numbers_are_malformed() {
    assert_eq!(parse_edge_line(b"a\tb"), Line::Malformed);
    assert_eq!(parse_edge_line(b"1\t"), Line::Malformed);
    assert_eq!(parse_edge_line(b"\t"), Line::Malformed);
    assert_eq!(parse_edge_line(b"1\t 2"), Line::Malformed);
    assert_eq!(parse_edge_line(b"-1\t2"), Line::Malformed);
    assert_eq!(parse_edge_line(b"+\t2"), Line::Malformed);
    assert_eq!(parse_edge_line(b"4294967296\t1"), Line::Malformed);
    assert_eq!(parse_edge_line(b"1\t99999999999999999999999999"), Line::Malformed);
}

#[test]
fn parse_number_agrees_with_the_standard_parser() {
    let texts: Vec<&str> = vec![
        "0", "1", "+1", "++1", "", "+", "0000000000000000000000012", "4294967295",
        "4294967296", "42949672950", "12a", "a12", " 12", "12 ", "-0", "1_000",
    ];
    for text in texts {
        let bytes = text.as_bytes();
        assert_eq!(parse_number(bytes, 0, bytes.len()), text.parse::<u32>().ok(), "{:?}", text);
    }
}

#[test]
fn parse_number_reads_only_the_given_range() {
    let bytes = b"ab123cd";
    assert_eq!(parse_number(bytes, 2, 5), Some(123));
    assert_eq!(parse_number(bytes, 2, 6), None);
    assert_eq!(parse_number(bytes, 3, 3), None);
}
