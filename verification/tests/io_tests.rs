use squareknot::graph::undirected::UnGraph;
use squareknot::io::pair_iter::{parse_number, parse_pair};
use squareknot::{
    AbstractGraph, AdjacencyMatrix, DimacsFormat, FakeDimacs, GraphFormat, PairIterator,
    SimpleGraph,
};

fn parse(text: &str) -> Result<SimpleGraph, ()> {
    FakeDimacs::parse_graph(text.as_bytes())
}

fn number(token: &str) -> Option<usize> {
    parse_number(token.as_bytes(), 0, token.len())
}

fn pair(line: &str) -> Option<(usize, usize)> {
    parse_pair(line.as_bytes(), 0, line.len())
}

#[test]
fn numbers_are_decimal() {
    assert_eq!(number("0"), Some(0));
    assert_eq!(number("7"), Some(7));
    assert_eq!(number("1234567890"), Some(1234567890));
    assert_eq!(number("007"), Some(7));
    assert_eq!(number("+42"), Some(42));
    assert_eq!(number(""), None);
    assert_eq!(number("+"), None);
    assert_eq!(number("-1"), None);
    assert_eq!(number("++1"), None);
    assert_eq!(number("1+"), None);
    assert_eq!(number("12a"), None);
    assert_eq!(number("a12"), None);
    assert_eq!(number("1.5"), None);
    assert_eq!(number("0x10"), None);
}

#[test]
fn numbers_stop_at_the_machine_range() {
    let max = usize::MAX.to_string();
    assert_eq!(number(&max), Some(usize::MAX));
    let mut over = max.clone().into_bytes();
    let last = over.len() - 1;
    over[last] += 1;
    let over = String::from_utf8(over).unwrap();
    assert_eq!(number(&over), None);
    assert_eq!(number(&format!("{}0", max)), None);
    assert_eq!(number(&format!("000{}", max)), Some(usize::MAX));
    assert_eq!(number("99999999999999999999999999999999999999999"), None);
}

#[test]
fn number_within_a_line() {
    let line = b"ab 123 cd";
    assert_eq!(parse_number(line, 3, 6), Some(123));
    assert_eq!(parse_number(line, 3, 5), Some(12));
    assert_eq!(parse_number(line, 3, 3), None);
    assert_eq!(parse_number(line, 2, 6), None);
}

#[test]
fn pairs_are_the_first_two_tokens() {
    assert_eq!(pair("3 4"), Some((3, 4)));
    assert_eq!(pair("4 3"), Some((4, 3)));
    assert_eq!(pair("  3\t\t4  "), Some((3, 4)));
    assert_eq!(pair("3 4\r"), Some((3, 4)));
    assert_eq!(pair("3 4 5"), Some((3, 4)));
    assert_eq!(pair("3 4 five"), Some((3, 4)));
    assert_eq!(pair("+3 +4"), Some((3, 4)));
    assert_eq!(pair("\x0b3\x0c4"), Some((3, 4)));
    assert_eq!(pair(""), None);
    assert_eq!(pair("   "), None);
    assert_eq!(pair("3"), None);
    assert_eq!(pair("3 x"), None);
    assert_eq!(pair("x 3"), None);
    assert_eq!(pair("x 3 4"), None);
    assert_eq!(pair("3 x 4"), None);
    assert_eq!(pair("3,4"), None);
    assert_eq!(pair("3 -4"), None);
    assert_eq!(pair("3\u{a0}4"), None);
    assert_eq!(pair("3 4\u{a0}"), None);
    assert_eq!(pair("\u{e9} 3 4"), None);
}

#[test]
fn what_follows_the_second_token_is_not_read() {
    assert_eq!(pair("3 4 caf\u{e9}"), Some((3, 4)));
    assert_eq!(pair("3 4 \u{2028}5"), Some((3, 4)));
    assert_eq!(parse_pair(b"3 4 \xff\xfe", 0, 6), Some((3, 4)));
    assert_eq!(parse_pair(b"3 \xff4", 0, 4), None);
    let g = parse("3 2\n0 1 \u{2190} first\n1 2 \u{2190} second\n").unwrap();
    assert_eq!(g.size(), 2);
    assert!(g.has_edge(0, 1) && g.has_edge(1, 2));
}

#[test]
fn pair_iterator_reads_line_by_line() {
    let text = "1 2\n\n3 4\nfive 6\n7 8";
    let mut pairs = PairIterator::new(text.as_bytes());
    assert_eq!(pairs.next(), Some((1, 2)));
    assert_eq!(pairs.next(), None);
    assert_eq!(pairs.next(), Some((3, 4)));
    assert_eq!(pairs.next(), None);
    assert_eq!(pairs.next(), Some((7, 8)));
    assert_eq!(pairs.next(), None);
    assert_eq!(pairs.next(), None);
    let mut ended = PairIterator::new("9 9\n".as_bytes());
    assert_eq!(ended.next(), Some((9, 9)));
    assert_eq!(ended.next(), None);
    let mut empty = PairIterator::new(b"");
    assert_eq!(empty.next(), None);
}

#[test]
fn graph_from_text() {
    let g = parse("4 3\n0 1\n1 2\n3 0\n").unwrap();
    assert_eq!(g.order(), 4);
    assert_eq!(g.size(), 3);
    assert_eq!(g.neighbor_iterator(0), Some(vec![1, 3]));
    assert_eq!(g.neighbor_iterator(1), Some(vec![0, 2]));
    assert_eq!(g.neighbor_iterator(2), Some(vec![1]));
    assert_eq!(g.neighbor_iterator(3), Some(vec![0]));
}

#[test]
fn graph_text_without_a_header_is_refused() {
    assert!(parse("").is_err());
    assert!(parse("\n3 1\n0 1").is_err());
    assert!(parse("3\n0 1").is_err());
    assert!(parse("three 1\n0 1").is_err());
    assert!(parse("p edge 3 1\n0 1").is_err());
}

#[test]
fn graph_text_with_a_vertex_out_of_range_is_refused() {
    assert!(parse("3 1\n0 3").is_err());
    assert!(parse("3 1\n3 0").is_err());
    assert!(parse("3 2\n0 1\n1 7").is_err());
    assert!(parse("0 1\n0 0").is_err());
    assert!(parse("3 1\n0 2").is_ok());
}

#[test]
fn graph_text_reads_no_more_edges_than_announced() {
    let g = parse("3 1\n0 1\n1 2\n0 9").unwrap();
    assert_eq!(g.size(), 1);
    assert!(g.has_edge(0, 1));
    assert!(!g.has_edge(1, 2));
    let none = parse("3 0\n0 9").unwrap();
    assert_eq!(none.size(), 0);
}

#[test]
fn graph_text_ends_at_the_first_line_without_a_pair() {
    let g = parse("3 5\n0 1\n\n1 2").unwrap();
    assert_eq!(g.size(), 1);
    assert!(!g.has_edge(1, 2));
    let short = parse("3 5\n0 1\n1 2").unwrap();
    assert_eq!(short.size(), 2);
    let bad = parse("3 5\n0 1\nx y\n0 9").unwrap();
    assert_eq!(bad.size(), 1);
}

#[test]
fn graph_text_keeps_repeated_edges() {
    let g = parse("2 3\n0 1\n1 0\n0 1").unwrap();
    assert_eq!(g.size(), 3);
    assert_eq!(g.neighbor_iterator(0), Some(vec![1, 1, 1]));
    assert_eq!(g.neighbor_iterator(1), Some(vec![0, 0, 0]));
}

#[test]
fn graph_text_for_other_graph_types() {
    let g: UnGraph<AdjacencyMatrix> =
        DimacsFormat::parse_graph("3 2\n0 1\n1 2".as_bytes()).unwrap();
    assert_eq!(g.order(), 3);
    assert_eq!(g.size(), 2);
    assert_eq!(g.neighbor_iterator(1), Some(vec![0, 2]));
    let too_many = format!("{} 0\n", usize::MAX);
    let refused: Result<UnGraph<AdjacencyMatrix>, ()> = FakeDimacs::parse_graph(too_many.as_bytes());
    assert!(refused.is_err());
}
