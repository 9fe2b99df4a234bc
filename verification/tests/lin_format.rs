use bridge_encodings::lin::{parse_card, parse_lin, parse_lin_hand, parse_sv};
use bridge_encodings::{Card, Direction, Rank, Suit, Vulnerability};

fn chars(s: &str) -> Vec<char> {
    s.chars().collect()
}

#[test]
fn test_parse_card() {
    let card = parse_card(&chars("SA")).unwrap();
    assert_eq!(card.suit, Suit::Spades);
    assert_eq!(card.rank, Rank::Ace);

    let card = parse_card(&chars("D2")).unwrap();
    assert_eq!(card.suit, Suit::Diamonds);
    assert_eq!(card.rank, Rank::Two);

    let card = parse_card(&chars("HT")).unwrap();
    assert_eq!(card.suit, Suit::Hearts);
    assert_eq!(card.rank, Rank::Ten);
}

#[test]
fn test_parse_sv() {
    assert_eq!(parse_sv(&chars("o")), Vulnerability::Neither);
    assert_eq!(parse_sv(&chars("b")), Vulnerability::Both);
    assert_eq!(parse_sv(&chars("n")), Vulnerability::NorthSouth);
    assert_eq!(parse_sv(&chars("e")), Vulnerability::EastWest);
}

#[test]
fn test_parse_lin_hand() {
    let hand = parse_lin_hand(&chars("SAKQHJT9D8765C432")).unwrap();
    assert_eq!(hand.suit_length(Suit::Spades), 3);
    assert_eq!(hand.suit_length(Suit::Hearts), 3);
    assert_eq!(hand.suit_length(Suit::Diamonds), 4);
    assert_eq!(hand.suit_length(Suit::Clubs), 3);
}

#[test]
fn test_parse_lin_basic() {
    let lin = "pn|South,West,North,East|md|3SAKHJD876C5432,S2HQT9DKQ5CKQJT9,SQJT9HA32DAJ2CA8,|sv|o|ah|Board+1|mb|1C|mb|p|pc|D2|pc|DA|pc|D3|pc|D8|";

    let data = parse_lin(lin).unwrap();
    assert_eq!(data.player_names[0], "South");
    assert_eq!(data.player_names[2], "North");
    assert_eq!(data.dealer, Direction::North);
    assert_eq!(data.vulnerability, Vulnerability::Neither);
    assert_eq!(data.board_header, Some("Board 1".to_string()));
    assert_eq!(data.auction.len(), 2);
    assert_eq!(data.auction[0].bid, "1C");
    assert_eq!(data.play.len(), 4);
}

#[test]
fn test_format_cardplay_by_trick() {
    let lin = "pn|S,W,N,E|md|3SAKHJD876C5432,S2HQT9DKQ5CKQJT9,SQJT9HA32DAJ2CA8,|sv|o|pc|D2|pc|DA|pc|D3|pc|D8|pc|H2|pc|H4|pc|HJ|pc|HQ|";
    let data = parse_lin(lin).unwrap();
    let cardplay = data.format_cardplay_by_trick();
    assert_eq!(cardplay, "D2 DA D3 D8|H2 H4 HJ HQ");
}

#[test]
fn test_parse_lin_with_alerts() {
    let lin = "pn|S,W,N,E|md|1SAKHJD876C5432,,,|sv|b|mb|1C!|an|could+be+short|mb|p|mb|1H!|an|5+hearts|";
    let data = parse_lin(lin).unwrap();

    assert_eq!(data.auction.len(), 3);
    assert!(data.auction[0].alert);
    assert_eq!(
        data.auction[0].annotation,
        Some("could be short".to_string())
    );
    assert!(!data.auction[1].alert);
    assert!(data.auction[2].alert);
    assert_eq!(data.auction[2].annotation, Some("5 hearts".to_string()));
}

#[test]
fn test_md_infers_fourth_hand() {
    // east's hand is computed as the remainder of the deck; the full deal
    // holds all 52 cards, each in exactly one hand
    let lin = "md|3SAKHJD876C5432,S2HQT9DKQ5CKQJT9,SQJT9HA32DAJ2CA8,|";
    let data = parse_lin(lin).unwrap();
    assert_eq!(data.dealer, Direction::North);
    let mut total = 0;
    for suit in Suit::all() {
        for rank_char in ['2', '3', '4', '5', '6', '7', '8', '9', 'T', 'J', 'Q', 'K', 'A'] {
            let rank = Rank::from_char(rank_char).unwrap();
            let card = Card::new(suit, rank);
            let mut holders = 0;
            for dir in Direction::all() {
                if data.deal.hand(dir).has_card(card) {
                    holders += 1;
                }
            }
            assert_eq!(holders, 1);
            total += 1;
        }
    }
    assert_eq!(total, 52);
}

#[test]
fn test_parse_lin_file_skips_blank_lines() {
    let content = "pn|S,W,N,E|md|1SAKHJD876C5432,,,|sv|b|\n\npn|A,B,C,D|sv|e|\n";
    let boards = bridge_encodings::lin::parse_lin_file(content).unwrap();
    assert_eq!(boards.len(), 2);
    assert_eq!(boards[0].vulnerability, Vulnerability::Both);
    assert_eq!(boards[1].vulnerability, Vulnerability::EastWest);
    assert_eq!(boards[1].player_names[3], "D");
}

#[test]
fn test_parse_lin_claim() {
    let lin = "md|1SAKHJD876C5432,,,|mc|9|";
    let data = parse_lin(lin).unwrap();
    assert_eq!(data.claim, Some(9));

    let lin = "md|1SAKHJD876C5432,,,|mc|way+too+many|";
    let data = parse_lin(lin).unwrap();
    assert_eq!(data.claim, None);
}
