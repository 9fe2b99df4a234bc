use bridge_encodings::pbn::{board_to_pbn, parse_tag_pair, read_pbn, write_pbn};
use bridge_encodings::{Board, Deal, Direction, Vulnerability};

#[test]
fn test_parse_tag_pair() {
    let tag = parse_tag_pair("[Board \"1\"]").unwrap();
    assert_eq!(tag.name, "Board");
    assert_eq!(tag.value, "1");

    let tag = parse_tag_pair("[Vulnerable \"NS\"]").unwrap();
    assert_eq!(tag.name, "Vulnerable");
    assert_eq!(tag.value, "NS");
}

#[test]
fn test_read_simple_pbn() {
    let pbn = r#"
[Board "1"]
[Dealer "N"]
[Vulnerable "None"]
[Deal "N:K843.T542.J6.863 AQJ7.K.Q75.AT942 962.AJ7.KT82.J75 T5.Q9863.A943.KQ"]
"#;
    let boards = read_pbn(pbn).unwrap();
    assert_eq!(boards.len(), 1);
    assert_eq!(boards[0].number, Some(1));
    assert_eq!(boards[0].dealer, Some(Direction::North));
    assert_eq!(boards[0].vulnerable, Vulnerability::Neither);
}

#[test]
fn test_read_multiple_boards() {
    let pbn = r#"
[Board "1"]
[Dealer "N"]
[Vulnerable "None"]
[Deal "N:K843.T542.J6.863 AQJ7.K.Q75.AT942 962.AJ7.KT82.J75 T5.Q9863.A943.KQ"]

[Board "2"]
[Dealer "E"]
[Vulnerable "NS"]
[Deal "E:Q7.AKT9.JT3.JT96 J653.QJ8.A.AQ732 K92.654.K954.K84 AT84.732.Q8762.5"]
"#;
    let boards = read_pbn(pbn).unwrap();
    assert_eq!(boards.len(), 2);
    assert_eq!(boards[0].number, Some(1));
    assert_eq!(boards[1].number, Some(2));
    assert_eq!(boards[1].dealer, Some(Direction::East));
    assert_eq!(boards[1].vulnerable, Vulnerability::NorthSouth);
}

#[test]
fn test_read_pbn_with_commentary() {
    let pbn = r#"
[Board "1"]
[Dealer "N"]
[Vulnerable "None"]
[Deal "N:K843.T542.J6.863 AQJ7.K.Q75.AT942 962.AJ7.KT82.J75 T5.Q9863.A943.KQ"]
{This is a multi-line
commentary that spans
several lines.}

[Board "2"]
[Dealer "E"]
[Vulnerable "NS"]
[Deal "E:Q7.AKT9.JT3.JT96 J653.QJ8.A.AQ732 K92.654.K954.K84 AT84.732.Q8762.5"]
"#;
    let boards = read_pbn(pbn).unwrap();
    assert_eq!(boards.len(), 2);
}

#[test]
fn test_write_simple_board() {
    let deal =
        Deal::from_pbn("N:K843.T542.J6.863 AQJ7.K.Q75.AT942 962.AJ7.KT82.J75 T5.Q9863.A943.KQ")
            .unwrap();
    let board = Board::new()
        .with_number(1)
        .with_dealer(Direction::North)
        .with_vulnerability(Vulnerability::Neither)
        .with_deal(deal);

    let pbn = board_to_pbn(&board);

    assert!(pbn.contains("[Board \"1\"]"));
    assert!(pbn.contains("[Dealer \"N\"]"));
    assert!(pbn.contains("[Vulnerable \"None\"]"));
    assert!(pbn.contains(
        "[Deal \"N:K843.T542.J6.863 AQJ7.K.Q75.AT942 962.AJ7.KT82.J75 T5.Q9863.A943.KQ\"]"
    ));
}

#[test]
fn test_write_pbn_header() {
    let boards: Vec<Board> = vec![];
    let pbn = write_pbn(&boards);

    assert!(pbn.starts_with("% PBN 2.1\n"));
    assert!(pbn.contains("% EXPORT"));
}

#[test]
fn writer_test_round_trip() {
    let deal =
        Deal::from_pbn("N:K843.T542.J6.863 AQJ7.K.Q75.AT942 962.AJ7.KT82.J75 T5.Q9863.A943.KQ")
            .unwrap();
    let board = Board::new()
        .with_number(1)
        .with_dealer(Direction::North)
        .with_vulnerability(Vulnerability::Neither)
        .with_deal(deal);

    let pbn = write_pbn(&vec![board]);
    let boards = read_pbn(&pbn).unwrap();

    assert_eq!(boards.len(), 1);
    assert_eq!(boards[0].number, Some(1));
    assert_eq!(boards[0].dealer, Some(Direction::North));
}

#[test]
fn test_malformed_tag_lines_rejected() {
    assert!(parse_tag_pair("no brackets at all").is_none());
    assert!(parse_tag_pair("[Lonely]").is_none());
    assert!(parse_tag_pair("[Deal \"]").is_none());
    assert!(parse_tag_pair("[Name noquotes]").is_none());
}

#[test]
fn test_deal_tag_round_trip_text() {
    let text = "N:K843.T542.J6.863 AQJ7.K.Q75.AT942 962.AJ7.KT82.J75 T5.Q9863.A943.KQ";
    let deal = Deal::from_pbn(text).unwrap();
    assert_eq!(deal.to_pbn(Direction::North), text);
}

#[test]
fn test_vulnerability_codes() {
    assert_eq!(Vulnerability::from_pbn("None"), Vulnerability::Neither);
    assert_eq!(Vulnerability::from_pbn("NS"), Vulnerability::NorthSouth);
    assert_eq!(Vulnerability::from_pbn("EW"), Vulnerability::EastWest);
    assert_eq!(Vulnerability::from_pbn("All"), Vulnerability::Both);
    // an unrecognized code reads as none rather than failing
    assert_eq!(Vulnerability::from_pbn("garbled"), Vulnerability::Neither);
    assert_eq!(Vulnerability::Both.to_pbn(), "All");
}
