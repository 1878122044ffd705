use graph_stats::edge_list::{parse_row, Row};

fn row(text: &str) -> Row {
    parse_row(&text.as_bytes().to_vec())
}

#[test]
fn header_row_is_recognised_by_its_first_field() {
    assert_eq!(row("from,to"), Row::Header);
    assert_eq!(row("from"), Row::Header);
    assert_eq!(row("from,1,2"), Row::Header);
    assert_eq!(row("fromage,1"), Row::Malformed);
    assert_eq!(row("From,to"), Row::Malformed);
    assert_eq!(row("fro,to"), Row::Malformed);
}

#[test]
fn rows_with_two_numbers_are_edges() {
    assert_eq!(row("1,2"), Row::Edge(1, 2));
    assert_eq!(row("-3,+4"), Row::Edge(-3, 4));
    assert_eq!(row("007,0"), Row::Edge(7, 0));
    assert_eq!(row("-0,12345"), Row::Edge(0, 12345));
    assert_eq!(row("1,2,3"), Row::Edge(1, 2));
    assert_eq!(row("1,2,"), Row::Edge(1, 2));
}

#[test]
fn numbers_at_the_ends_of_the_range() {
    assert_eq!(row("2147483647,-2147483648"), Row::Edge(i32::MAX, i32::MIN));
    assert_eq!(row("2147483648,0"), Row::Malformed);
    assert_eq!(row("0,-2147483649"), Row::Malformed);
    assert_eq!(row("99999999999999999999999,1"), Row::Malformed);
    assert_eq!(row("0000000000000000000000001,1"), Row::Edge(1, 1));
}

#[test]
fn other_rows_are_malformed() {
    assert_eq!(row(""), Row::Malformed);
    assert_eq!(row("1"), Row::Malformed);
    assert_eq!(row("1,"), Row::Malformed);
    assert_eq!(row(",1"), Row::Malformed);
    assert_eq!(row("1, 2"), Row::Malformed);
    assert_eq!(row(" 1,2"), Row::Malformed);
    assert_eq!(row("a,b"), Row::Malformed);
    assert_eq!(row("-,1"), Row::Malformed);
    assert_eq!(row("+,1"), Row::Malformed);
    assert_eq!(row("1-2,3"), Row::Malformed);
    assert_eq!(row("1.5,3"), Row::Malformed);
}
