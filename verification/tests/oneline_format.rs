use bridge_encodings::oneline::{format_oneline, parse_oneline};
use bridge_encodings::{Direction, Suit};

#[test]
fn test_parse_oneline() {
    let input = "n AKQT3.J6.KJ42.95 e 652.AK42.AQ87.T4 s J74.QT95.T.AK863 w 98.873.9653.QJ72";

    let deal = parse_oneline(input).unwrap();

    let north = deal.hand(Direction::North);
    assert_eq!(north.len(), 13);
    assert_eq!(north.suit_length(Suit::Spades), 5);
    assert_eq!(north.suit_length(Suit::Hearts), 2);
    assert_eq!(north.suit_length(Suit::Diamonds), 4);
    assert_eq!(north.suit_length(Suit::Clubs), 2);
}

#[test]
fn test_format_oneline() {
    let input = "n AKQT3.J6.KJ42.95 e 652.AK42.AQ87.T4 s J74.QT95.T.AK863 w 98.873.9653.QJ72";

    let deal = parse_oneline(input).unwrap();
    let output = format_oneline(&deal);

    // Parse both and compare
    let reparsed = parse_oneline(&output).unwrap();

    // Verify same HCP for each hand
    for dir in Direction::all() {
        assert_eq!(deal.hand(dir).hcp(), reparsed.hand(dir).hcp());
    }
}

#[test]
fn test_parse_void_suit() {
    // Spades void in south hand
    let input = "n AKQT3.J6.KJ42.95 e 652.AK42.AQ87.T4 s .QJ8.Q95432.AQ97 w J74.T953.T6.K863";

    let deal = parse_oneline(input).unwrap();
    let south = deal.hand(Direction::South);

    assert_eq!(south.suit_length(Suit::Spades), 0);
    assert_eq!(south.len(), 13);
}

#[test]
fn oneline_test_round_trip() {
    let input = "n A754.7642.KJ2.A9 e QT.AK95.87.K8652 s K93.J83.QT6543.T w J862.QT.A9.QJ743";

    let deal = parse_oneline(input).unwrap();
    let output = format_oneline(&deal);
    let reparsed = parse_oneline(&output).unwrap();

    // Verify HCP matches
    for dir in Direction::all() {
        assert_eq!(deal.hand(dir).hcp(), reparsed.hand(dir).hcp());
        assert_eq!(deal.hand(dir).len(), reparsed.hand(dir).len());
    }
}

#[test]
fn test_format_oneline_exact_text() {
    let input = "n AKQT3.J6.KJ42.95 e 652.AK42.AQ87.T4 s J74.QT95.T.AK863 w 98.873.9653.QJ72";
    let deal = parse_oneline(input).unwrap();
    let output = format_oneline(&deal);
    assert_eq!(
        output,
        "n AKQT3.J6.KJ42.95 e 652.AK42.AQ87.T4 s J74.QT95.T.AK863 w 98.873.9653.QJ72\n"
    );
}

#[test]
fn test_parse_oneline_wrong_token_count() {
    let err = parse_oneline("n AKQT3.J6.KJ42.95 e 652.AK42.AQ87.T4").unwrap_err();
    assert!(matches!(err, bridge_encodings::ParseError::Oneline(_)));
}

#[test]
fn test_parse_oneline_bad_direction() {
    // the leading token is not a single-letter direction
    let err =
        parse_oneline("F2 AKQT3.J6.KJ42.95 e 652.AK42.AQ87.T4 s J74.QT95.T.AK863 w 98.873.9653.QJ72")
            .unwrap_err();
    assert!(matches!(err, bridge_encodings::ParseError::Oneline(_)));
}

#[test]
fn test_parse_oneline_bad_rank_character() {
    let err =
        parse_oneline("n AKQT3.J6.KJ42.9X e 652.AK42.AQ87.T4 s J74.QT95.T.AK863 w 98.873.9653.QJ72")
            .unwrap_err();
    assert!(matches!(err, bridge_encodings::ParseError::Oneline(_)));
}

#[test]
fn test_parse_oneline_repeated_direction_keeps_last() {
    // the same seat named twice: the hand written last wins
    let input = "n AKQT3.J6.KJ42.95 n 652.AK42.AQ87.T4 s J74.QT95.T.AK863 w 98.873.9653.QJ72";
    let deal = parse_oneline(input).unwrap();
    assert_eq!(deal.hand(Direction::North).suit_length(Suit::Spades), 3);
    assert_eq!(deal.hand(Direction::East).len(), 0);
}

#[test]
fn test_parse_oneline_case_insensitive_directions() {
    let input = "N AKQT3.J6.KJ42.95 E 652.AK42.AQ87.T4 S J74.QT95.T.AK863 W 98.873.9653.QJ72";
    let deal = parse_oneline(input).unwrap();
    assert_eq!(deal.hand(Direction::North).len(), 13);
    assert_eq!(deal.hand(Direction::West).len(), 13);
}
