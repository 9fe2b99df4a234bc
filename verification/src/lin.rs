//! The pipe-tokenized hand-record notation: `key|value|key|value|...`, one
//! whole record per line, carrying player names, the deal, the auction and
//! the play.
//!
//! The `md` value gives the dealer digit and up to three hands; any hand left
//! implicit is inferred as the remainder of the 52-card deck.

use vstd::prelude::*;
use vstd::string::StringExecFns;

use crate::cards::{
    all_cards, card_of_index, rank_char, rank_from_char, suit_char, suit_from_char, Card, Deal,
    DealModel, Direction, Hand, Rank, Suit, Vulnerability,
};
use crate::error::ParseError;
use crate::text::{
    chars_of, chars_eq_str, lower_eq_str, lower_seq, parse_usize_chars, parse_usize_seq,
    split_char, split_seq, string_of, subrange_vec, to_upper, trim, trim_seq, upper_char,
};

verus! {

/// The mathematical model of one auction entry.
#[verifier::ext_equal]
pub struct BidModel {
    pub bid: Seq<char>,
    pub alert: bool,
    pub annotation: Option<Seq<char>>,
}

/// One auction entry: the bid token, whether it was alerted, and the
/// annotation attached to it, if any.
#[derive(Debug, Clone)]
pub struct BidWithAnnotation {
    /// The bid token, with any alert marks removed.
    pub bid: String,
    /// Whether the bid carried a trailing alert mark.
    pub alert: bool,
    /// The annotation that followed the bid, with `+` decoded to space.
    pub annotation: Option<String>,
}

impl View for BidWithAnnotation {
    type V = BidModel;

    open spec fn view(&self) -> BidModel {
        BidModel {
            bid: self.bid@,
            alert: self.alert,
            annotation: match self.annotation {
                Some(ref a) => Some(a@),
                None => None,
            },
        }
    }
}

/// The mathematical model of a whole record.
#[verifier::ext_equal]
pub struct LinModel {
    pub names: Seq<Seq<char>>,
    pub dealer: Direction,
    pub deal: DealModel,
    pub vulnerability: Vulnerability,
    pub board_header: Option<Seq<char>>,
    pub auction: Seq<BidModel>,
    pub play: Seq<Card>,
    pub claim: Option<u8>,
}

/// One decoded record.
#[derive(Debug, Clone)]
pub struct LinData {
    /// Player names in south, west, north, east order.
    pub player_names: Vec<String>,
    /// The dealer.
    pub dealer: Direction,
    /// The deal, with any implicit hand inferred.
    pub deal: Deal,
    /// The vulnerability; an unrecognized code reads as none.
    pub vulnerability: Vulnerability,
    /// The board header, with `+` decoded to space.
    pub board_header: Option<String>,
    /// The auction, in calling order.
    pub auction: Vec<BidWithAnnotation>,
    /// Every played card, in play order.
    pub play: Vec<Card>,
    /// The claimed trick count, where the record ends in a claim.
    pub claim: Option<u8>,
}

impl View for LinData {
    type V = LinModel;

    open spec fn view(&self) -> LinModel {
        LinModel {
            names: Seq::new(self.player_names@.len() as nat, |i: int| self.player_names@[i]@),
            dealer: self.dealer,
            deal: self.deal@,
            vulnerability: self.vulnerability,
            board_header: match self.board_header {
                Some(ref h) => Some(h@),
                None => None,
            },
            auction: Seq::new(self.auction@.len() as nat, |i: int| self.auction@[i]@),
            play: self.play@,
            claim: self.claim,
        }
    }
}

/// `+` decoded to space, character for character.
pub open spec fn plus_to_space(s: Seq<char>) -> Seq<char> {
    s.map_values(|c: char| if c == '+' { ' ' } else { c })
}

fn replace_plus(v: &Vec<char>) -> (r: Vec<char>)
    ensures
        r@ == plus_to_space(v@),
{
    let mut r: Vec<char> = Vec::new();
    let mut i: usize = 0;
    while i < v.len()
        invariant
            0 <= i <= v@.len(),
            r@ == plus_to_space(v@.take(i as int)),
        decreases v.len() - i,
    {
        let c = v[i];
        if c == '+' {
            r.push(' ');
        } else {
            r.push(c);
        }
        i += 1;
        proof {
            assert(r@ =~= plus_to_space(v@.take(i as int)));
        }
    }
    proof {
        assert(v@.take(v@.len() as int) =~= v@);
    }
    r
}

/// The vulnerability a code names, compared without regard to case; an
/// unrecognized code reads as none rather than failing.
pub open spec fn vul_of(s: Seq<char>) -> Vulnerability {
    let t = lower_seq(s);
    if t == "o"@ || t == "0"@ || t == "-"@ {
        Vulnerability::Neither
    } else if t == "n"@ || t == "ns"@ {
        Vulnerability::NorthSouth
    } else if t == "e"@ || t == "ew"@ {
        Vulnerability::EastWest
    } else if t == "b"@ || t == "both"@ || t == "all"@ {
        Vulnerability::Both
    } else {
        Vulnerability::Neither
    }
}

/// Reads a vulnerability code.
pub fn parse_sv(v: &Vec<char>) -> (r: Vulnerability)
    ensures
        r == vul_of(v@),
{
    if lower_eq_str(v, "o") || lower_eq_str(v, "0") || lower_eq_str(v, "-") {
        Vulnerability::Neither
    } else if lower_eq_str(v, "n") || lower_eq_str(v, "ns") {
        Vulnerability::NorthSouth
    } else if lower_eq_str(v, "e") || lower_eq_str(v, "ew") {
        Vulnerability::EastWest
    } else if lower_eq_str(v, "b") || lower_eq_str(v, "both") || lower_eq_str(v, "all") {
        Vulnerability::Both
    } else {
        Vulnerability::Neither
    }
}

/// The card a two-character token names: a suit letter then a rank
/// character; anything after the second character is ignored.
pub open spec fn lin_card(s: Seq<char>) -> Option<Card> {
    if s.len() >= 2 && suit_from_char(s[0]) is Some && rank_from_char(s[1]) is Some {
        Some(Card { suit: suit_from_char(s[0])->0, rank: rank_from_char(s[1])->0 })
    } else {
        None
    }
}

/// Reads one played-card token.
pub fn parse_card(v: &Vec<char>) -> (r: Option<Card>)
    ensures
        r == lin_card(v@),
{
    if v.len() < 2 {
        return None;
    }
    let suit = match Suit::from_char(v[0]) {
        Some(s) => s,
        None => {
            return None;
        },
    };
    let rank = match Rank::from_char(v[1]) {
        Some(r) => r,
        None => {
            return None;
        },
    };
    Some(Card { suit, rank })
}

/// Reading a hand token from position `i` on: a suit letter, in either case,
/// opens that suit; a rank character adds a card of the open suit; anything
/// else is passed over.
pub open spec fn lin_hand_from(s: Seq<char>, i: int, cur: Option<Suit>, acc: Seq<Card>) -> Seq<
    Card,
>
    decreases s.len() - i,
{
    if i < 0 || i >= s.len() {
        acc
    } else {
        let u = upper_char(s[i]);
        if u == 'S' {
            lin_hand_from(s, i + 1, Some(Suit::Spades), acc)
        } else if u == 'H' {
            lin_hand_from(s, i + 1, Some(Suit::Hearts), acc)
        } else if u == 'D' {
            lin_hand_from(s, i + 1, Some(Suit::Diamonds), acc)
        } else if u == 'C' {
            lin_hand_from(s, i + 1, Some(Suit::Clubs), acc)
        } else if cur is Some && rank_from_char(s[i]) is Some {
            lin_hand_from(s, i + 1, cur, acc.push(Card { suit: cur->0, rank: rank_from_char(s[i])->0 }))
        } else {
            lin_hand_from(s, i + 1, cur, acc)
        }
    }
}

/// The cards a hand token spells.
pub open spec fn lin_hand_cards(s: Seq<char>) -> Seq<Card> {
    lin_hand_from(s, 0, None::<Suit>, Seq::empty())
}

/// Reads one hand token: suit letters open a suit, rank characters add a
/// card of it, anything else is passed over.
pub fn parse_lin_hand(v: &Vec<char>) -> (r: Option<Hand>)
    ensures
        r is Some,
        r->0@ == lin_hand_cards(v@),
{
    let mut cards: Vec<Card> = Vec::new();
    let mut cur: Option<Suit> = None;
    let mut i: usize = 0;
    while i < v.len()
        invariant
            0 <= i <= v@.len(),
            lin_hand_cards(v@) == lin_hand_from(v@, i as int, cur, cards@),
        decreases v.len() - i,
    {
        let c = to_upper(v[i]);
        if c == 'S' {
            cur = Some(Suit::Spades);
        } else if c == 'H' {
            cur = Some(Suit::Hearts);
        } else if c == 'D' {
            cur = Some(Suit::Diamonds);
        } else if c == 'C' {
            cur = Some(Suit::Clubs);
        } else {
            match cur {
                Some(suit) => {
                    match Rank::from_char(v[i]) {
                        Some(rank) => {
                            cards.push(Card { suit, rank });
                        },
                        None => {},
                    }
                },
                None => {},
            }
        }
        i += 1;
    }
    Some(Hand::from_cards(cards))
}

/// Whether some direction other than `d` holds the card.
pub open spec fn held_by_other(m: DealModel, d: Direction, c: Card) -> bool {
    ||| (d != Direction::North && m.north.contains(c))
    ||| (d != Direction::East && m.east.contains(c))
    ||| (d != Direction::South && m.south.contains(c))
    ||| (d != Direction::West && m.west.contains(c))
}

/// The cards no direction but `d` holds, in canonical deck order.
pub open spec fn absent_cards(m: DealModel, d: Direction) -> Seq<Card> {
    all_cards().filter(|c: Card| !held_by_other(m, d, c))
}

/// Computes the hand left implicit as the remainder of the 52-card deck:
/// exactly the cards held by none of the other three directions.
///
/// This is a plain complement over the deck, not a guess: it yields a
/// 13-card hand exactly when the other three hands are disjoint and hold 39
/// distinct cards between them; no cross-check is performed here.
pub fn calculate_fourth_hand(deal: &Deal, fourth_dir: Direction) -> (h: Hand)
    ensures
        h@ == absent_cards(deal@, fourth_dir),
        forall|c: Card| h@.contains(c) <==> !held_by_other(deal@, fourth_dir, c),
{
    let mut cards: Vec<Card> = Vec::new();
    let mut i: usize = 0;
    while i < 52
        invariant
            0 <= i <= 52,
            cards@ == all_cards().take(i as int).filter(
                |c: Card| !held_by_other(deal@, fourth_dir, c),
            ),
        decreases 52 - i,
    {
        let suit: Suit = if i / 13 == 0 {
            Suit::Clubs
        } else if i / 13 == 1 {
            Suit::Diamonds
        } else if i / 13 == 2 {
            Suit::Hearts
        } else {
            Suit::Spades
        };
        let ri = i % 13;
        let rank: Rank = if ri == 0 {
            Rank::Two
        } else if ri == 1 {
            Rank::Three
        } else if ri == 2 {
            Rank::Four
        } else if ri == 3 {
            Rank::Five
        } else if ri == 4 {
            Rank::Six
        } else if ri == 5 {
            Rank::Seven
        } else if ri == 6 {
            Rank::Eight
        } else if ri == 7 {
            Rank::Nine
        } else if ri == 8 {
            Rank::Ten
        } else if ri == 9 {
            Rank::Jack
        } else if ri == 10 {
            Rank::Queen
        } else if ri == 11 {
            Rank::King
        } else {
            Rank::Ace
        };
        let card = Card { suit, rank };
        proof {
            assert(card == card_of_index(i as int));
            assert(all_cards()[i as int] == card);
        }
        let mut found = false;
        if fourth_dir != Direction::North && deal.hand(Direction::North).has_card(card) {
            found = true;
        }
        if fourth_dir != Direction::East && deal.hand(Direction::East).has_card(card) {
            found = true;
        }
        if fourth_dir != Direction::South && deal.hand(Direction::South).has_card(card) {
            found = true;
        }
        if fourth_dir != Direction::West && deal.hand(Direction::West).has_card(card) {
            found = true;
        }
        proof {
            assert(found == held_by_other(deal@, fourth_dir, card));
            reveal(Seq::filter);
            assert(all_cards().take(i + 1 as int).drop_last() =~= all_cards().take(i as int));
            assert(all_cards().take(i + 1 as int).last() == card);
        }
        if !found {
            cards.push(card);
        }
        i += 1;
    }
    proof {
        assert(all_cards().take(52) =~= all_cards());
        let pred = |c: Card| !held_by_other(deal@, fourth_dir, c);
        let f = all_cards().filter(pred);
        crate::cards::lemma_card_index_bijective();
        assert forall|c: Card| f.contains(c) <==> pred(c) by {
            broadcast use vstd::seq_lib::group_filter_ensures;

            let idx = crate::cards::card_index(c);
            assert(all_cards()[idx] == c);
            if pred(c) {
                assert(f.contains(all_cards()[idx]));
            }
            if f.contains(c) {
                let j = choose|j: int| 0 <= j < f.len() && f[j] == c;
                assert(pred(f[j]));
            }
        }
    }
    Hand::from_cards(cards)
}

/// The dealer a leading digit names: `1` south, `2` west, `3` north, `4`
/// east.
pub open spec fn dealer_of_digit(c: char) -> Option<Direction> {
    match c {
        '1' => Some(Direction::South),
        '2' => Some(Direction::West),
        '3' => Some(Direction::North),
        '4' => Some(Direction::East),
        _ => None,
    }
}

/// Whether an `md` value can be read: a dealer digit, then at least three
/// comma-separated hands.
pub open spec fn md_ok(s: Seq<char>) -> bool {
    s.len() > 0 && dealer_of_digit(s[0]) is Some && split_seq(
        s.subrange(1, s.len() as int),
        ',',
    ).len() >= 3
}

/// The deal an `md` value spells: the first three hands go to south, west
/// and north, and east is inferred as the remainder of the deck.
pub open spec fn md_deal(s: Seq<char>) -> DealModel {
    let hs = split_seq(s.subrange(1, s.len() as int), ',');
    let explicit = DealModel::empty().with_hand(
        Direction::South,
        lin_hand_cards(hs[0]),
    ).with_hand(Direction::West, lin_hand_cards(hs[1])).with_hand(
        Direction::North,
        lin_hand_cards(hs[2]),
    );
    explicit.with_hand(Direction::East, absent_cards(explicit, Direction::East))
}

/// Reads an `md` value: the dealer and the deal, with east inferred.
pub fn parse_md(v: &Vec<char>) -> (r: Option<(Direction, Deal)>)
    ensures
        r is Some <==> md_ok(v@),
        r is Some ==> ({
            let p = r->0;
            &&& p.0 == dealer_of_digit(v@[0])->0
            &&& p.1@ == md_deal(v@)
        }),
{
    if v.len() == 0 {
        return None;
    }
    let dealer = match v[0] {
        '1' => Direction::South,
        '2' => Direction::West,
        '3' => Direction::North,
        '4' => Direction::East,
        _ => {
            return None;
        },
    };
    let rest = subrange_vec(v, 1, v.len());
    let hs = split_char(&rest, ',');
    if hs.len() < 3 {
        return None;
    }
    let h0 = match parse_lin_hand(&hs[0]) {
        Some(h) => h,
        None => {
            return None;
        },
    };
    let h1 = match parse_lin_hand(&hs[1]) {
        Some(h) => h,
        None => {
            return None;
        },
    };
    let h2 = match parse_lin_hand(&hs[2]) {
        Some(h) => h,
        None => {
            return None;
        },
    };
    let mut deal = Deal::new();
    deal.set_hand(Direction::South, h0);
    deal.set_hand(Direction::West, h1);
    deal.set_hand(Direction::North, h2);
    let fourth = calculate_fourth_hand(&deal, Direction::East);
    deal.set_hand(Direction::East, fourth);
    proof {
        let hsp = split_seq(v@.subrange(1, v@.len() as int), ',');
        let explicit = DealModel::empty().with_hand(
            Direction::South,
            lin_hand_cards(hsp[0]),
        ).with_hand(Direction::West, lin_hand_cards(hsp[1])).with_hand(
            Direction::North,
            lin_hand_cards(hsp[2]),
        );
        assert(deal@ =~= explicit.with_hand(
            Direction::East,
            absent_cards(explicit, Direction::East),
        ));
    }
    Some((dealer, deal))
}

/// The bid token with its trailing alert marks removed.
pub open spec fn bangless(s: Seq<char>) -> Seq<char>
    decreases s.len(),
{
    if s.len() > 0 && s.last() == '!' {
        bangless(s.drop_last())
    } else {
        s
    }
}

/// The auction entry an `mb` value spells.
pub open spec fn bid_of(s: Seq<char>) -> BidModel {
    if s.len() > 0 && s.last() == '!' {
        BidModel { bid: bangless(s), alert: true, annotation: None }
    } else {
        BidModel { bid: s, alert: false, annotation: None }
    }
}

/// The value `s` read as a claimed trick count, as a plain decimal numeral
/// that fits in a `u8`.
pub open spec fn claim_of(s: Seq<char>) -> Option<u8> {
    if parse_usize_seq(s) is Some && parse_usize_seq(s)->0 <= 255 {
        Some(parse_usize_seq(s)->0 as u8)
    } else {
        None
    }
}

/// The record's model before any token is read.
pub open spec fn lin_init() -> LinModel {
    LinModel {
        names: seq![Seq::empty(), Seq::empty(), Seq::empty(), Seq::empty()],
        dealer: Direction::North,
        deal: DealModel::empty(),
        vulnerability: Vulnerability::Neither,
        board_header: None,
        auction: Seq::empty(),
        play: Seq::empty(),
        claim: None,
    }
}

/// Player names applied from a `pn` value: its comma-separated entries fill
/// the seats in order, at most four.
pub open spec fn apply_pn(st: LinModel, val: Seq<char>) -> LinModel {
    let names = split_seq(val, ',');
    LinModel {
        names: Seq::new(
            st.names.len(),
            |j: int|
                if j < 4 && j < names.len() {
                    names[j]
                } else {
                    st.names[j]
                },
        ),
        ..st
    }
}

/// A record read from token `i` on, with `st` read so far.  Each recognized
/// key consumes its following value token; an unrecognized token is passed
/// over.
pub open spec fn lin_from(toks: Seq<Seq<char>>, i: int, st: LinModel) -> LinModel
    decreases toks.len() - i,
{
    if i < 0 || i >= toks.len() {
        st
    } else {
        let key = trim_seq(toks[i]);
        let has_val = i + 1 < toks.len();
        if key == "pn"@ && has_val {
            lin_from(toks, i + 2, apply_pn(st, toks[i + 1]))
        } else if key == "md"@ && has_val {
            lin_from(
                toks,
                i + 2,
                if md_ok(toks[i + 1]) {
                    LinModel {
                        dealer: dealer_of_digit(toks[i + 1][0])->0,
                        deal: md_deal(toks[i + 1]),
                        ..st
                    }
                } else {
                    st
                },
            )
        } else if key == "sv"@ && has_val {
            lin_from(toks, i + 2, LinModel { vulnerability: vul_of(toks[i + 1]), ..st })
        } else if key == "ah"@ && has_val {
            lin_from(toks, i + 2, LinModel { board_header: Some(plus_to_space(toks[i + 1])), ..st })
        } else if key == "mb"@ && has_val {
            lin_from(toks, i + 2, LinModel { auction: st.auction.push(bid_of(toks[i + 1])), ..st })
        } else if key == "an"@ && has_val {
            lin_from(
                toks,
                i + 2,
                if st.auction.len() > 0 {
                    LinModel {
                        auction: st.auction.update(
                            st.auction.len() - 1,
                            BidModel {
                                annotation: Some(plus_to_space(toks[i + 1])),
                                ..st.auction.last()
                            },
                        ),
                        ..st
                    }
                } else {
                    st
                },
            )
        } else if key == "pc"@ && has_val {
            lin_from(
                toks,
                i + 2,
                match lin_card(toks[i + 1]) {
                    Some(c) => LinModel { play: st.play.push(c), ..st },
                    None => st,
                },
            )
        } else if key == "mc"@ && has_val {
            lin_from(toks, i + 2, LinModel { claim: claim_of(toks[i + 1]), ..st })
        } else {
            lin_from(toks, i + 1, st)
        }
    }
}

/// The record a whole line spells.
pub open spec fn lin_of(s: Seq<char>) -> LinModel {
    lin_from(split_seq(s, '|'), 0, lin_init())
}

fn bangless_vec(v: &Vec<char>) -> (r: Vec<char>)
    ensures
        r@ == bangless(v@),
{
    let mut j: usize = v.len();
    proof {
        assert(v@.take(v@.len() as int) =~= v@);
    }
    while j > 0 && v[j - 1] == '!'
        invariant
            0 <= j <= v@.len(),
            bangless(v@) == bangless(v@.take(j as int)),
        decreases j,
    {
        j -= 1;
        proof {
            assert(v@.take(j + 1 as int).drop_last() =~= v@.take(j as int));
        }
    }
    proof {
        assert(bangless(v@.take(j as int)) == v@.take(j as int));
    }
    subrange_vec(v, 0, j)
}

/// Decodes one pipe-tokenized record.  Never fails: unrecognized keys and
/// unreadable values are passed over, and fields a record does not set keep
/// their defaults.
#[verifier::rlimit(80)]
pub fn parse_lin(lin_str: &str) -> (r: Result<LinData, ParseError>)
    ensures
        r is Ok,
        r->Ok_0@ == lin_of(lin_str@),
{
    let v = chars_of(lin_str);
    let toks = split_char(&v, '|');
    let ghost gt = split_seq(lin_str@, '|');
    let mut names: Vec<String> = Vec::new();
    names.push(String::new());
    names.push(String::new());
    names.push(String::new());
    names.push(String::new());
    let mut data = LinData {
        player_names: names,
        dealer: Direction::North,
        deal: Deal::new(),
        vulnerability: Vulnerability::Neither,
        board_header: None,
        auction: Vec::new(),
        play: Vec::new(),
        claim: None,
    };
    proof {
        assert(data@ =~= lin_init());
    }
    let mut i: usize = 0;
    while i < toks.len()
        invariant
            0 <= i <= toks@.len(),
            toks@.len() == gt.len(),
            forall|k: int| 0 <= k < toks@.len() ==> toks@[k]@ == gt[k],
            data.player_names@.len() == 4,
            lin_of(lin_str@) == lin_from(gt, i as int, data@),
        decreases toks.len() - i,
    {
        let ghost pre = data@;
        let ghost gi = i as int;
        let key = trim(&toks[i]);
        let has_val = i + 1 < toks.len();
        if chars_eq_str(&key, "pn") && has_val {
            let parts = split_char(&toks[i + 1], ',');
            let mut j: usize = 0;
            let limit: usize = if parts.len() < 4 {
                parts.len()
            } else {
                4
            };
            while j < limit
                invariant
                    0 <= j <= limit,
                    limit == (if parts@.len() < 4 {
                        parts@.len() as int
                    } else {
                        4
                    }),
                    parts@.len() == split_seq(gt[gi + 1], ',').len(),
                    forall|k: int|
                        0 <= k < parts@.len() ==> parts@[k]@ == split_seq(gt[gi + 1], ',')[k],
                    data.player_names@.len() == 4,
                    forall|k: int|
                        0 <= k < j ==> data.player_names@[k]@ == split_seq(gt[gi + 1], ',')[k],
                    forall|k: int|
                        j <= k < 4 ==> data.player_names@[k]@ == pre.names[k],
                    data.dealer == pre.dealer,
                    data.deal@ == pre.deal,
                    data.vulnerability == pre.vulnerability,
                    data@.board_header == pre.board_header,
                    data@.auction == pre.auction,
                    data.play@ == pre.play,
                    data.claim == pre.claim,
                decreases limit - j,
            {
                let name = string_of(&parts[j]);
                data.player_names.set(j, name);
                j += 1;
            }
            proof {
                assert(data@ =~= apply_pn(pre, gt[gi + 1]));
            }
            i += 2;
        } else if chars_eq_str(&key, "md") && has_val {
            match parse_md(&toks[i + 1]) {
                Some((dealer, deal)) => {
                    data.dealer = dealer;
                    data.deal = deal;
                },
                None => {},
            }
            proof {
                if md_ok(gt[gi + 1]) {
                    assert(data@ =~= LinModel {
                        dealer: dealer_of_digit(gt[gi + 1][0])->0,
                        deal: md_deal(gt[gi + 1]),
                        ..pre
                    });
                } else {
                    assert(data@ =~= pre);
                }
            }
            i += 2;
        } else if chars_eq_str(&key, "sv") && has_val {
            data.vulnerability = parse_sv(&toks[i + 1]);
            proof {
                assert(data@ =~= LinModel { vulnerability: vul_of(gt[gi + 1]), ..pre });
            }
            i += 2;
        } else if chars_eq_str(&key, "ah") && has_val {
            let decoded = replace_plus(&toks[i + 1]);
            data.board_header = Some(string_of(&decoded));
            proof {
                assert(data@ =~= LinModel {
                    board_header: Some(plus_to_space(gt[gi + 1])),
                    ..pre
                });
            }
            i += 2;
        } else if chars_eq_str(&key, "mb") && has_val {
            let tok = &toks[i + 1];
            let n = tok.len();
            let alert = n > 0 && tok[n - 1] == '!';
            let bid_chars = bangless_vec(tok);
            proof {
                if !alert {
                    assert(bangless(tok@) == tok@);
                }
            }
            let entry = BidWithAnnotation {
                bid: string_of(&bid_chars),
                alert,
                annotation: None,
            };
            proof {
                assert(entry@ =~= bid_of(gt[gi + 1]));
            }
            data.auction.push(entry);
            proof {
                assert(data@ =~= LinModel { auction: pre.auction.push(bid_of(gt[gi + 1])), ..pre });
            }
            i += 2;
        } else if chars_eq_str(&key, "an") && has_val {
            if data.auction.len() > 0 {
                let decoded = replace_plus(&toks[i + 1]);
                let last = match data.auction.pop() {
                    Some(b) => b,
                    None => {
                        proof {
                            assert(false);
                        }
                        BidWithAnnotation { bid: String::new(), alert: false, annotation: None }
                    },
                };
                let updated = BidWithAnnotation {
                    bid: last.bid,
                    alert: last.alert,
                    annotation: Some(string_of(&decoded)),
                };
                data.auction.push(updated);
                proof {
                    assert(data@ =~= LinModel {
                        auction: pre.auction.update(
                            pre.auction.len() - 1,
                            BidModel {
                                annotation: Some(plus_to_space(gt[gi + 1])),
                                ..pre.auction.last()
                            },
                        ),
                        ..pre
                    });
                }
            }
            i += 2;
        } else if chars_eq_str(&key, "pc") && has_val {
            match parse_card(&toks[i + 1]) {
                Some(c) => {
                    data.play.push(c);
                    proof {
                        assert(data@ =~= LinModel { play: pre.play.push(c), ..pre });
                    }
                },
                None => {},
            }
            i += 2;
        } else if chars_eq_str(&key, "mc") && has_val {
            let parsed = parse_usize_chars(&toks[i + 1]);
            data.claim = match parsed {
                Some(n) if n <= 255 => Some(n as u8),
                _ => None,
            };
            proof {
                assert(data.claim == claim_of(gt[gi + 1]));
                assert(data@ =~= LinModel { claim: claim_of(gt[gi + 1]), ..pre });
            }
            i += 2;
        } else {
            i += 1;
            proof {
                assert(data@ =~= pre);
            }
        }
    }
    Ok(data)
}

/// The separator written before played card `k` of the trick-by-trick text.
pub open spec fn play_sep(k: int) -> Seq<char> {
    if k == 0 {
        Seq::empty()
    } else if k % 4 == 0 {
        seq!['|']
    } else {
        seq![' ']
    }
}

/// One played card written as its suit letter then its rank character.
pub open spec fn card_token(c: Card) -> Seq<char> {
    seq![suit_char(c.suit), rank_char(c.rank)]
}

/// The play written trick by trick: cards in play order, a space between
/// cards of one trick, a bar between tricks of four.
pub open spec fn cardplay_from(play: Seq<Card>, k: int, acc: Seq<char>) -> Seq<char>
    decreases play.len() - k,
{
    if k < 0 || k >= play.len() {
        acc
    } else {
        cardplay_from(play, k + 1, acc + play_sep(k) + card_token(play[k]))
    }
}

pub open spec fn cardplay_text(play: Seq<Card>) -> Seq<char> {
    cardplay_from(play, 0, Seq::empty())
}

impl LinData {
    /// Writes the play trick by trick: `D2 DA D6 D5|S3 S2 SQ SA|...`.
    pub fn format_cardplay_by_trick(&self) -> (r: String)
        ensures
            r@ == cardplay_text(self.play@),
    {
        let mut out: Vec<char> = Vec::new();
        proof {
            assert(out@ =~= Seq::<char>::empty());
        }
        let mut k: usize = 0;
        while k < self.play.len()
            invariant
                0 <= k <= self.play@.len(),
                cardplay_text(self.play@) == cardplay_from(self.play@, k as int, out@),
            decreases self.play.len() - k,
        {
            let ghost pre = out@;
            if k > 0 {
                if k % 4 == 0 {
                    out.push('|');
                } else {
                    out.push(' ');
                }
            }
            let c = self.play[k];
            out.push(c.suit.to_char());
            out.push(c.rank.to_char());
            k += 1;
            proof {
                assert(out@ =~= pre + play_sep(k - 1) + card_token(self.play@[k - 1]));
            }
        }
        string_of(&out)
    }
}

/// The records of a whole text, one per non-blank line.
pub open spec fn lin_file_models(lines: Seq<Seq<char>>, i: int) -> Seq<LinModel>
    decreases lines.len() - i,
{
    if i < 0 || i >= lines.len() {
        Seq::empty()
    } else if trim_seq(lines[i]).len() == 0 {
        lin_file_models(lines, i + 1)
    } else {
        seq![lin_of(trim_seq(lines[i]))] + lin_file_models(lines, i + 1)
    }
}

/// The record models of a vector of records.
pub open spec fn lin_models_of(v: Vec<LinData>) -> Seq<LinModel> {
    Seq::new(v@.len() as nat, |i: int| v@[i]@)
}

/// Decodes a whole text of records, one per line; blank lines are passed
/// over.  Never fails.
pub fn parse_lin_file(content: &str) -> (r: Result<Vec<LinData>, ParseError>)
    ensures
        r is Ok,
        lin_models_of(r->Ok_0) == lin_file_models(crate::text::lines_of(content@), 0),
{
    let v = chars_of(content);
    let lines = crate::text::split_lines(&v);
    let ghost gl = crate::text::seqs_of(lines);
    let mut boards: Vec<LinData> = Vec::new();
    let mut pos: usize = 0;
    while pos < lines.len()
        invariant
            0 <= pos <= lines@.len(),
            gl == crate::text::seqs_of(lines),
            gl == crate::text::lines_of(content@),
            lin_models_of(boards) + lin_file_models(gl, pos as int) == lin_file_models(gl, 0),
        decreases lines.len() - pos,
    {
        let ghost pre = lin_models_of(boards);
        let t = trim(&lines[pos]);
        if t.len() > 0 {
            let line = string_of(&t);
            match parse_lin(line.as_str()) {
                Ok(data) => {
                    boards.push(data);
                    proof {
                        assert(lin_models_of(boards) =~= pre.push(lin_of(trim_seq(gl[pos as int]))));
                        assert(lin_models_of(boards) + lin_file_models(gl, pos + 1) =~= pre + (seq![
                            lin_of(trim_seq(gl[pos as int])),
                        ] + lin_file_models(gl, pos + 1)));
                    }
                },
                Err(_) => {
                    proof {
                        assert(false);
                    }
                },
            }
        }
        pos += 1;
    }
    proof {
        assert(lin_models_of(boards) =~= lin_models_of(boards) + lin_file_models(
            gl,
            pos as int,
        ));
    }
    Ok(boards)
}


/// The cards held by the three directions other than `d`, in compass order.
pub open spec fn other_cards(m: DealModel, d: Direction) -> Seq<Card> {
    (if d != Direction::North {
        m.north
    } else {
        Seq::empty()
    }) + (if d != Direction::East {
        m.east
    } else {
        Seq::empty()
    }) + (if d != Direction::South {
        m.south
    } else {
        Seq::empty()
    }) + (if d != Direction::West {
        m.west
    } else {
        Seq::empty()
    })
}

/// How many of a deal's four hands hold the card.
pub open spec fn holds_count(m: DealModel, c: Card) -> int {
    (if m.north.contains(c) {
        1int
    } else {
        0int
    }) + (if m.east.contains(c) {
        1int
    } else {
        0int
    }) + (if m.south.contains(c) {
        1int
    } else {
        0int
    }) + (if m.west.contains(c) {
        1int
    } else {
        0int
    })
}

/// The size of a deal: how many cards its four hands hold between them.
pub open spec fn deal_size(m: DealModel) -> int {
    (m.north.len() as int) + (m.east.len() as int) + (m.south.len() as int) + (m.west.len() as int)
}

/// Fourth-hand inference is exact: where the other three hands hold 39
/// pairwise-distinct cards between them, the inferred hand is precisely the
/// complementary 13-card set, and the finished deal is complete — 52 cards,
/// each held by exactly one direction.
pub proof fn lemma_fourth_hand_complete(m: DealModel, d: Direction)
    requires
        other_cards(m, d).no_duplicates(),
        other_cards(m, d).len() == 39,
    ensures
        absent_cards(m, d).no_duplicates(),
        absent_cards(m, d).len() == 13,
        forall|c: Card| #[trigger]
            absent_cards(m, d).contains(c) <==> !other_cards(m, d).contains(c),
        forall|c: Card| #[trigger] holds_count(m.with_hand(d, absent_cards(m, d)), c) == 1,
        deal_size(m.with_hand(d, absent_cards(m, d))) == 52,
{
    let others = other_cards(m, d);
    let pred = |c: Card| !held_by_other(m, d, c);
    let absent = absent_cards(m, d);
    crate::cards::lemma_all_cards_complete();

    let segn = if d != Direction::North {
        m.north
    } else {
        Seq::<Card>::empty()
    };
    let sege = if d != Direction::East {
        m.east
    } else {
        Seq::<Card>::empty()
    };
    let segs = if d != Direction::South {
        m.south
    } else {
        Seq::<Card>::empty()
    };
    let segw = if d != Direction::West {
        m.west
    } else {
        Seq::<Card>::empty()
    };
    assert(others == segn + sege + segs + segw);
    crate::cards::lemma_concat_no_dup(segn + sege + segs, segw);
    crate::cards::lemma_concat_no_dup(segn + sege, segs);
    crate::cards::lemma_concat_no_dup(segn, sege);
    crate::cards::lemma_concat_contains(segn, sege);
    crate::cards::lemma_concat_contains(segn + sege, segs);
    crate::cards::lemma_concat_contains(segn + sege + segs, segw);

    // membership in the three other hands is membership in their concatenation
    assert forall|c: Card| held_by_other(m, d, c) == others.contains(c) by {
        if held_by_other(m, d, c) {
            if d != Direction::North && m.north.contains(c) {
                let j = choose|j: int| 0 <= j < segn.len() && segn[j] == c;
                assert(others[j] == c);
            } else if d != Direction::East && m.east.contains(c) {
                let j = choose|j: int| 0 <= j < sege.len() && sege[j] == c;
                assert(others[segn.len() + j] == c);
            } else if d != Direction::South && m.south.contains(c) {
                let j = choose|j: int| 0 <= j < segs.len() && segs[j] == c;
                assert(others[segn.len() + sege.len() + j] == c);
            } else {
                let j = choose|j: int| 0 <= j < segw.len() && segw[j] == c;
                assert(others[segn.len() + sege.len() + segs.len() + j] == c);
            }
        }
        if others.contains(c) {
            let j = choose|j: int| 0 <= j < others.len() && others[j] == c;
            if j < segn.len() {
                assert(segn[j] == c);
            } else if j < segn.len() + sege.len() {
                assert(sege[j - segn.len()] == c);
            } else if j < segn.len() + sege.len() + segs.len() {
                assert(segs[j - segn.len() - sege.len()] == c);
            } else {
                assert(segw[j - segn.len() - sege.len() - segs.len()] == c);
            }
        }
    }

    // the complement holds exactly the missing cards, without duplicates
    crate::cards::lemma_filter_elements(all_cards(), pred);
    assert forall|c: Card| #[trigger] absent.contains(c) <==> !others.contains(c) by {
        assert(all_cards().contains(c));
    }

    // counting: the members of `others` filter out 39 of the 52 cards
    crate::cards::lemma_filter_partition(all_cards(), pred);
    crate::cards::lemma_filter_congruence(
        all_cards(),
        |c: Card| !pred(c),
        |c: Card| others.contains(c),
    );
    assert forall|c: Card| others.contains(c) implies all_cards().contains(c) by {}
    crate::cards::lemma_filter_member_count(all_cards(), others);
    assert(absent.len() == 13);

    // the finished deal holds every card exactly once
    let full = m.with_hand(d, absent);
    assert forall|c: Card| #[trigger] holds_count(full, c) == 1 by {
        if others.contains(c) {
            let j = choose|j: int| 0 <= j < others.len() && others[j] == c;
            assert(!absent.contains(c));
            if j < segn.len() {
                assert(segn.contains(c));
                assert(!sege.contains(c) && !segs.contains(c) && !segw.contains(c));
            } else if j < segn.len() + sege.len() {
                assert(sege[j - segn.len()] == c);
                assert(sege.contains(c));
                assert(!segn.contains(c) && !segs.contains(c) && !segw.contains(c));
            } else if j < segn.len() + sege.len() + segs.len() {
                assert(segs[j - segn.len() - sege.len()] == c);
                assert(segs.contains(c));
                assert(!segn.contains(c) && !sege.contains(c) && !segw.contains(c));
            } else {
                assert(segw[j - segn.len() - sege.len() - segs.len()] == c);
                assert(segw.contains(c));
                assert(!segn.contains(c) && !sege.contains(c) && !segs.contains(c));
            }
        } else {
            assert(absent.contains(c));
            assert(!segn.contains(c) && !sege.contains(c) && !segs.contains(c) && !segw.contains(
                c,
            ));
        }
    }
    assert(deal_size(full) == 52);
}

} // verus!
