use bridge_encodings::printall::{format_printall, parse_printall, parse_printall_string};
use bridge_encodings::{Card, Deal, Direction, Rank, Suit};

fn sample_deal() -> Deal {
    // Create a known deal for testing
    let pbn = "N:J73.3.KQJT985.T5 98.9642.7.987432 AQ542.KJ87.32.AK KT6.AQT5.A64.QJ6";
    Deal::from_pbn(pbn).unwrap()
}

#[test]
fn test_format_printall() {
    let deal = sample_deal();
    let output = format_printall(&deal, 1);

    assert!(output.starts_with("   1.\n"));
    // 6 lines: board number, 4 suits, blank
    assert_eq!(output.lines().count(), 6);
}

#[test]
fn printall_test_round_trip() {
    let deal = sample_deal();
    let output = format_printall(&deal, 1);
    let lines: Vec<&str> = output.lines().collect();
    let (parsed, _) = parse_printall(&lines).unwrap();

    // Verify all hands match
    for dir in Direction::all() {
        let orig = deal.hand(dir);
        let round = parsed.hand(dir);
        assert_eq!(orig.len(), round.len(), "Hand length mismatch for {:?}", dir);
        assert_eq!(orig.hcp(), round.hcp(), "HCP mismatch for {:?}", dir);
        for suit in [Suit::Spades, Suit::Hearts, Suit::Diamonds, Suit::Clubs] {
            assert_eq!(
                orig.suit_length(suit),
                round.suit_length(suit),
                "Suit length mismatch for {:?} {:?}",
                dir,
                suit
            );
        }
    }
}

#[test]
fn test_parse_printall_string_multiple_boards() {
    let deal1 = sample_deal();
    let deal2 =
        Deal::from_pbn("N:AKQ.AKQ.AKQ.AKQJ T98.T98.T98.T987 765.765.765.654 J432.J432.J432.32")
            .unwrap();

    let output = format!(
        "{}{}",
        format_printall(&deal1, 1),
        format_printall(&deal2, 2)
    );
    let deals = parse_printall_string(&output).unwrap();
    assert_eq!(deals.len(), 2);
}

#[test]
fn test_parse_with_stats_lines() {
    let deal = sample_deal();
    let output = format!(
        "{}Generated 100 hands\nProduced 5 hands\nInitial random seed 42\nTime needed    0.123 sec\n",
        format_printall(&deal, 1)
    );
    let deals = parse_printall_string(&output).unwrap();
    assert_eq!(deals.len(), 1);
}

#[test]
fn test_format_with_void() {
    // Realistic deal with void suits (6-4-3-0 and 5-4-4-0 shapes)
    let deal =
        Deal::from_pbn("N:AKQ976.KJ84.T32. J84.Q97.AK4.QJ87 T53.AT65..AT9654 2.32.QJ98765.K32")
            .unwrap();
    let output = format_printall(&deal, 1);

    // Void should appear as "- "
    assert!(output.contains("- "));

    // Round-trip
    let lines: Vec<&str> = output.lines().collect();
    let (parsed, _) = parse_printall(&lines).unwrap();
    for dir in Direction::all() {
        assert_eq!(
            deal.hand(dir).len(),
            parsed.hand(dir).len(),
            "Hand length mismatch for {:?}",
            dir
        );
        assert_eq!(
            deal.hand(dir).hcp(),
            parsed.hand(dir).hcp(),
            "HCP mismatch for {:?}",
            dir
        );
    }
}

#[test]
fn test_decode_fixed_columns() {
    // slots are fixed 20-character columns, sliced by absolute offset
    let lines: Vec<&str> = vec![
        "   1.",
        "J 7 3               9 8                 A Q 5 4 2           K T 6",
        "3                   9 6 4 2             K J 8 7             A Q T 5",
        "K Q J T 9 8 5       7                   3 2                 A 6 4",
        "T 5                 9 8 7 4 3 2         A K                 Q J 6",
        "",
    ];
    let (deal, consumed) = parse_printall(&lines).unwrap();
    assert_eq!(consumed, 6);
    for dir in Direction::all() {
        assert_eq!(deal.hand(dir).len(), 13);
    }
    let north = deal.hand(Direction::North);
    assert!(north.has_card(Card::new(Suit::Spades, Rank::Jack)));
    assert!(north.has_card(Card::new(Suit::Hearts, Rank::Three)));
    assert!(north.has_card(Card::new(Suit::Diamonds, Rank::King)));
    assert!(north.has_card(Card::new(Suit::Clubs, Rank::Ten)));
    let east = deal.hand(Direction::East);
    assert_eq!(east.suit_length(Suit::Hearts), 4);
    assert!(east.has_card(Card::new(Suit::Diamonds, Rank::Seven)));
    let south = deal.hand(Direction::South);
    assert!(south.has_card(Card::new(Suit::Clubs, Rank::Ace)));
    assert_eq!(south.suit_length(Suit::Diamonds), 2);
    let west = deal.hand(Direction::West);
    assert!(west.has_card(Card::new(Suit::Clubs, Rank::Queen)));
    assert_eq!(west.suit_length(Suit::Spades), 3);
}

#[test]
fn test_round_trip_exact_membership() {
    let deal = sample_deal();
    let output = format_printall(&deal, 7);
    let lines: Vec<&str> = output.lines().collect();
    let (parsed, _) = parse_printall(&lines).unwrap();
    for dir in Direction::all() {
        for suit in Suit::all() {
            for rc in ['2', '3', '4', '5', '6', '7', '8', '9', 'T', 'J', 'Q', 'K', 'A'] {
                let card = Card::new(suit, Rank::from_char(rc).unwrap());
                assert_eq!(
                    deal.hand(dir).has_card(card),
                    parsed.hand(dir).has_card(card)
                );
            }
        }
    }
}

#[test]
fn test_wide_board_number_header() {
    let deal = sample_deal();
    let output = format_printall(&deal, 12345);
    assert!(output.starts_with("12345.\n"));
    let deals = parse_printall_string(&output).unwrap();
    assert_eq!(deals.len(), 1);
}

#[test]
fn test_parse_printall_errors() {
    let empty: Vec<&str> = vec!["", "   "];
    let err = parse_printall(&empty).unwrap_err();
    assert!(matches!(err, bridge_encodings::ParseError::Pbn(_)));

    let no_header: Vec<&str> = vec!["not a header", "x", "y", "z", "w"];
    assert!(parse_printall(&no_header).is_err());

    let truncated: Vec<&str> = vec!["   1.", "J 7 3"];
    assert!(parse_printall(&truncated).is_err());

    let bad_rank: Vec<&str> = vec![
        "   1.",
        "J 7 Z               9 8                 A Q 5 4 2           K T 6",
        "3                   9 6 4 2             K J 8 7             A Q T 5",
        "K Q J T 9 8 5       7                   3 2                 A 6 4",
        "T 5                 9 8 7 4 3 2         A K                 Q J 6",
    ];
    assert!(parse_printall(&bad_rank).is_err());
}
