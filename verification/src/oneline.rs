//! The single-line dot notation: four direction letters, each followed by a
//! hand written as four dot-separated suit groups in spade, heart, diamond,
//! club order.
//!
//! ```text
//! n AKQT3.J6.KJ42.95 e 652.AK42.AQ87.T4 s J74.QT95.T.AK863 w 98.873.9653.QJ72
//! ```

use vstd::prelude::*;
use vstd::string::StringExecFns;

use crate::cards::{
    dir_from_char, rank_char, rank_from_char, Card, Deal, DealModel, Direction, Hand,
    Rank, Suit,
};
use crate::error::ParseError;
use crate::text::{
    chars_of, fields, fields_of, split_char, split_seq, string_of, to_upper, upper_char,
};

verus! {

/// Whether every character of a suit group is a rank character.
pub open spec fn group_ok(g: Seq<char>) -> bool {
    forall|k: int| 0 <= k < g.len() ==> rank_from_char(g[k]) is Some
}

/// The cards a suit group spells, in writing order.
pub open spec fn group_cards(g: Seq<char>, suit: Suit) -> Seq<Card> {
    Seq::new(g.len(), |k: int| Card { suit, rank: rank_from_char(g[k])->0 })
}

/// Whether a hand token is four dot-separated groups of rank characters.
pub open spec fn hand_token_ok(t: Seq<char>) -> bool {
    let gs = split_seq(t, '.');
    gs.len() == 4 && group_ok(gs[0]) && group_ok(gs[1]) && group_ok(gs[2]) && group_ok(gs[3])
}

/// The cards a hand token spells: its groups stand for spades, hearts,
/// diamonds and clubs, in that order.
pub open spec fn hand_token_cards(t: Seq<char>) -> Seq<Card> {
    let gs = split_seq(t, '.');
    group_cards(gs[0], Suit::Spades) + group_cards(gs[1], Suit::Hearts) + group_cards(
        gs[2],
        Suit::Diamonds,
    ) + group_cards(gs[3], Suit::Clubs)
}

/// Whether a token is a single direction letter, in either case.
pub open spec fn dir_token_ok(t: Seq<char>) -> bool {
    t.len() == 1 && dir_from_char(upper_char(t[0])) is Some
}

pub open spec fn dir_token_dir(t: Seq<char>) -> Direction {
    dir_from_char(upper_char(t[0]))->0
}

/// Whether a line is a well-formed single-line record: exactly eight
/// whitespace-separated tokens, alternating direction letters and hands.
pub open spec fn oneline_ok(s: Seq<char>) -> bool {
    let ps = fields_of(s);
    ps.len() == 8 && dir_token_ok(ps[0]) && hand_token_ok(ps[1]) && dir_token_ok(ps[2])
        && hand_token_ok(ps[3]) && dir_token_ok(ps[4]) && hand_token_ok(ps[5]) && dir_token_ok(
        ps[6],
    ) && hand_token_ok(ps[7])
}

/// The deal a well-formed single-line record spells; a direction named twice
/// keeps the hand written last.
pub open spec fn oneline_model(s: Seq<char>) -> DealModel {
    let ps = fields_of(s);
    DealModel::empty().with_hand(dir_token_dir(ps[0]), hand_token_cards(ps[1])).with_hand(
        dir_token_dir(ps[2]),
        hand_token_cards(ps[3]),
    ).with_hand(dir_token_dir(ps[4]), hand_token_cards(ps[5])).with_hand(
        dir_token_dir(ps[6]),
        hand_token_cards(ps[7]),
    )
}

/// Reads a single direction token, in either case.
fn parse_direction_char(t: &Vec<char>) -> (r: Option<Direction>)
    ensures
        match r {
            Some(d) => dir_token_ok(t@) && d == dir_token_dir(t@),
            None => !dir_token_ok(t@),
        },
{
    if t.len() != 1 {
        return None;
    }
    Direction::from_char(to_upper(t[0]))
}

/// Appends the cards of one suit group; `false` on a character that is not a
/// rank, with the appended cards then unspecified.
fn parse_group(g: &Vec<char>, suit: Suit, cards: &mut Vec<Card>) -> (ok: bool)
    ensures
        ok == group_ok(g@),
        ok ==> final(cards)@ == old(cards)@ + group_cards(g@, suit),
{
    let mut j: usize = 0;
    while j < g.len()
        invariant
            0 <= j <= g@.len(),
            forall|k: int| 0 <= k < j ==> rank_from_char(g@[k]) is Some,
            cards@ == old(cards)@ + group_cards(g@.take(j as int), suit),
        decreases g.len() - j,
    {
        let rank = match Rank::from_char(g[j]) {
            Some(rk) => rk,
            None => {
                return false;
            },
        };
        cards.push(Card { suit, rank });
        j += 1;
        proof {
            assert(group_cards(g@.take(j as int), suit) =~= group_cards(
                g@.take(j - 1),
                suit,
            ).push(Card { suit, rank }));
        }
    }
    proof {
        assert(g@.take(g@.len() as int) =~= g@);
    }
    true
}

/// Reads one hand token into a hand.
pub(crate) fn parse_hand(t: &Vec<char>) -> (r: Option<Hand>)
    ensures
        match r {
            Some(h) => hand_token_ok(t@) && h@ == hand_token_cards(t@),
            None => !hand_token_ok(t@),
        },
{
    let gs = split_char(t, '.');
    if gs.len() != 4 {
        return None;
    }
    let mut cards: Vec<Card> = Vec::new();
    if !parse_group(&gs[0], Suit::Spades, &mut cards) {
        return None;
    }
    if !parse_group(&gs[1], Suit::Hearts, &mut cards) {
        return None;
    }
    if !parse_group(&gs[2], Suit::Diamonds, &mut cards) {
        return None;
    }
    if !parse_group(&gs[3], Suit::Clubs, &mut cards) {
        return None;
    }
    Some(Hand::from_cards(cards))
}

/// Decodes a single-line record.
///
/// Succeeds exactly on lines of eight whitespace-separated tokens that
/// alternate a direction letter and a well-formed hand; the resulting deal
/// holds, for each named direction, the cards its hand token spells.
pub fn parse_oneline(input: &str) -> (r: Result<Deal, ParseError>)
    ensures
        match r {
            Ok(d) => oneline_ok(input@) && d@ == oneline_model(input@),
            Err(e) => !oneline_ok(input@) && (e matches ParseError::Oneline(_)),
        },
{
    let v = chars_of(input);
    parse_oneline_chars(&v)
}

/// Decodes a single-line record given as characters.
pub(crate) fn parse_oneline_chars(v: &Vec<char>) -> (r: Result<Deal, ParseError>)
    ensures
        match r {
            Ok(d) => oneline_ok(v@) && d@ == oneline_model(v@),
            Err(e) => !oneline_ok(v@) && (e matches ParseError::Oneline(_)),
        },
{
    let parts = fields(v);
    if parts.len() != 8 {
        return Err(ParseError::Oneline(String::from_str("expected 8 whitespace-separated tokens")));
    }
    let d0 = match parse_direction_char(&parts[0]) {
        Some(d) => d,
        None => {
            return Err(ParseError::Oneline(String::from_str("invalid direction character")));
        },
    };
    let h0 = match parse_hand(&parts[1]) {
        Some(h) => h,
        None => {
            return Err(ParseError::Oneline(String::from_str("invalid hand token")));
        },
    };
    let d1 = match parse_direction_char(&parts[2]) {
        Some(d) => d,
        None => {
            return Err(ParseError::Oneline(String::from_str("invalid direction character")));
        },
    };
    let h1 = match parse_hand(&parts[3]) {
        Some(h) => h,
        None => {
            return Err(ParseError::Oneline(String::from_str("invalid hand token")));
        },
    };
    let d2 = match parse_direction_char(&parts[4]) {
        Some(d) => d,
        None => {
            return Err(ParseError::Oneline(String::from_str("invalid direction character")));
        },
    };
    let h2 = match parse_hand(&parts[5]) {
        Some(h) => h,
        None => {
            return Err(ParseError::Oneline(String::from_str("invalid hand token")));
        },
    };
    let d3 = match parse_direction_char(&parts[6]) {
        Some(d) => d,
        None => {
            return Err(ParseError::Oneline(String::from_str("invalid direction character")));
        },
    };
    let h3 = match parse_hand(&parts[7]) {
        Some(h) => h,
        None => {
            return Err(ParseError::Oneline(String::from_str("invalid hand token")));
        },
    };
    let mut deal = Deal::new();
    deal.set_hand(d0, h0);
    deal.set_hand(d1, h1);
    deal.set_hand(d2, h2);
    deal.set_hand(d3, h3);
    proof {
        assert(deal@ =~= oneline_model(v@));
    }
    Ok(deal)
}

/// The count of cards of one exact suit and rank among `cards`.
pub open spec fn count_card(cards: Seq<Card>, c: Card) -> nat
    decreases cards.len(),
{
    if cards.len() == 0 {
        0
    } else {
        count_card(cards.drop_last(), c) + (if cards.last() == c {
            1nat
        } else {
            0nat
        })
    }
}

fn count_of(cards: &Vec<Card>, c: Card) -> (n: usize)
    ensures
        n == count_card(cards@, c),
{
    let mut n: usize = 0;
    let mut i: usize = 0;
    while i < cards.len()
        invariant
            0 <= i <= cards@.len(),
            n == count_card(cards@.take(i as int), c),
            n <= i,
        decreases cards.len() - i,
    {
        proof {
            assert(cards@.take(i + 1 as int).drop_last() =~= cards@.take(i as int));
            assert(cards@.take(i + 1 as int).last() == cards@[i as int]);
        }
        if cards[i] == c {
            n += 1;
        }
        i += 1;
    }
    proof {
        assert(cards@.take(cards@.len() as int) =~= cards@);
    }
    n
}

/// The rank characters of one suit among `cards`, highest first; a card held
/// several times over appears as often as it is held.
pub open spec fn desc_ranks_upto(cards: Seq<Card>, suit: Suit, r: int) -> Seq<char>
    decreases r,
{
    if r <= 0 {
        Seq::empty()
    } else {
        let rk = crate::cards::rank_of_index(r - 1);
        Seq::new(count_card(cards, Card { suit, rank: rk }), |i: int| rank_char(rk))
            + desc_ranks_upto(cards, suit, r - 1)
    }
}

/// The rank characters of one suit among `cards`, highest first.
pub open spec fn desc_ranks(cards: Seq<Card>, suit: Suit) -> Seq<char> {
    desc_ranks_upto(cards, suit, 13)
}

/// Writes the rank characters of one suit, highest first, onto `out`.
pub fn push_desc_ranks(cards: &Vec<Card>, suit: Suit, out: &mut Vec<char>)
    ensures
        final(out)@ == old(out)@ + desc_ranks(cards@, suit),
{
    let ranks_desc: [Rank; 13] = [
        Rank::Ace,
        Rank::King,
        Rank::Queen,
        Rank::Jack,
        Rank::Ten,
        Rank::Nine,
        Rank::Eight,
        Rank::Seven,
        Rank::Six,
        Rank::Five,
        Rank::Four,
        Rank::Three,
        Rank::Two,
    ];
    let mut ri: usize = 0;
    while ri < 13
        invariant
            0 <= ri <= 13,
            ranks_desc@ =~= Seq::new(13, |i: int| crate::cards::rank_of_index(12 - i)),
            out@ + desc_ranks_upto(cards@, suit, 13 - ri) == old(out)@ + desc_ranks(cards@, suit),
        decreases 13 - ri,
    {
        let rk = ranks_desc[ri];
        proof {
            assert(rk == crate::cards::rank_of_index(12 - ri));
        }
        let cnt = count_of(cards, Card { suit, rank: rk });
        let ch = rk.to_char();
        let ghost mid = out@;
        let mut j: usize = 0;
        while j < cnt
            invariant
                0 <= j <= cnt,
                cnt == count_card(cards@, Card { suit, rank: rk }),
                ch == rank_char(rk),
                out@ == mid + Seq::new(j as nat, |i: int| rank_char(rk)),
            decreases cnt - j,
        {
            out.push(ch);
            j += 1;
            proof {
                assert(out@ =~= mid + Seq::new(j as nat, |i: int| rank_char(rk)));
            }
        }
        ri += 1;
        proof {
            assert(desc_ranks_upto(cards@, suit, 13 - ri + 1) == Seq::new(
                count_card(cards@, Card { suit, rank: rk }),
                |i: int| rank_char(rk),
            ) + desc_ranks_upto(cards@, suit, 13 - ri));
            assert(out@ + desc_ranks_upto(cards@, suit, 13 - ri) =~= mid + desc_ranks_upto(
                cards@,
                suit,
                13 - ri + 1,
            ));
        }
    }
    proof {
        assert(out@ =~= out@ + desc_ranks_upto(cards@, suit, 0));
    }
}

/// A hand written as four dot-separated suit groups, spades first, each
/// group's ranks highest first.
pub open spec fn hand_text(cards: Seq<Card>) -> Seq<char> {
    desc_ranks(cards, Suit::Spades) + seq!['.'] + desc_ranks(cards, Suit::Hearts) + seq!['.']
        + desc_ranks(cards, Suit::Diamonds) + seq!['.'] + desc_ranks(cards, Suit::Clubs)
}

/// Writes a hand in dot notation onto `out`.
pub fn push_hand_text(h: &Hand, out: &mut Vec<char>)
    ensures
        final(out)@ == old(out)@ + hand_text(h@),
{
    push_desc_ranks(&h.cards, Suit::Spades, out);
    out.push('.');
    push_desc_ranks(&h.cards, Suit::Hearts, out);
    out.push('.');
    push_desc_ranks(&h.cards, Suit::Diamonds, out);
    out.push('.');
    push_desc_ranks(&h.cards, Suit::Clubs, out);
    proof {
        assert(out@ =~= old(out)@ + hand_text(h@));
    }
}

/// The text of a whole deal in single-line notation.
pub open spec fn oneline_text(m: DealModel) -> Seq<char> {
    seq!['n', ' '] + hand_text(m.north) + seq![' ', 'e', ' '] + hand_text(m.east) + seq![
        ' ',
        's',
        ' ',
    ] + hand_text(m.south) + seq![' ', 'w', ' '] + hand_text(m.west) + seq!['\n']
}

/// Encodes a deal in single-line notation, hands in north, east, south, west
/// order, each suit's ranks highest first, ending in a newline.
pub fn format_oneline(deal: &Deal) -> (r: String)
    ensures
        r@ == oneline_text(deal@),
{
    let mut out: Vec<char> = Vec::new();
    out.push('n');
    out.push(' ');
    push_hand_text(deal.hand(Direction::North), &mut out);
    out.push(' ');
    out.push('e');
    out.push(' ');
    push_hand_text(deal.hand(Direction::East), &mut out);
    out.push(' ');
    out.push('s');
    out.push(' ');
    push_hand_text(deal.hand(Direction::South), &mut out);
    out.push(' ');
    out.push('w');
    out.push(' ');
    push_hand_text(deal.hand(Direction::West), &mut out);
    out.push('\n');
    proof {
        assert(out@ =~= oneline_text(deal@));
    }
    string_of(&out)
}


/// Whether a line reads as a single-line record, and what it spells, is
/// unchanged by trimming it.
pub proof fn lemma_oneline_trim(s: Seq<char>)
    ensures
        oneline_ok(crate::text::trim_seq(s)) == oneline_ok(s),
        oneline_ok(s) ==> oneline_model(crate::text::trim_seq(s)) == oneline_model(s),
{
    crate::text::lemma_fields_trim(s);
}


/// A hand holds a card exactly when its count there is positive.
pub proof fn lemma_count_positive(cards: Seq<Card>, c: Card)
    ensures
        count_card(cards, c) > 0 <==> cards.contains(c),
    decreases cards.len(),
{
    if cards.len() > 0 {
        lemma_count_positive(cards.drop_last(), c);
        if cards.contains(c) && cards.last() != c {
            let j = choose|j: int| 0 <= j < cards.len() && cards[j] == c;
            assert(cards.drop_last()[j] == c);
            assert(cards.drop_last().contains(c));
        }
        if cards.drop_last().contains(c) {
            let j = choose|j: int| 0 <= j < cards.drop_last().len() && cards.drop_last()[j] == c;
            assert(cards[j] == c);
        }
    }
}

/// Every character a suit listing writes is a rank character.
pub proof fn lemma_desc_chars(cards: Seq<Card>, suit: Suit, r: int)
    ensures
        forall|k: int|
            0 <= k < desc_ranks_upto(cards, suit, r).len() ==> rank_from_char(
                #[trigger] desc_ranks_upto(cards, suit, r)[k],
            ) is Some,
    decreases r,
{
    if r > 0 {
        lemma_desc_chars(cards, suit, r - 1);
        let rk = crate::cards::rank_of_index(r - 1);
        let head = Seq::new(
            count_card(cards, Card { suit, rank: rk }),
            |i: int| rank_char(rk),
        );
        assert forall|k: int|
            0 <= k < desc_ranks_upto(cards, suit, r).len() implies rank_from_char(
            #[trigger] desc_ranks_upto(cards, suit, r)[k],
        ) is Some by {
            if k < head.len() {
                assert(desc_ranks_upto(cards, suit, r)[k] == rank_char(rk));
            } else {
                assert(desc_ranks_upto(cards, suit, r)[k] == desc_ranks_upto(
                    cards,
                    suit,
                    r - 1,
                )[k - head.len()]);
            }
        }
    }
}

/// A suit listing names a rank character exactly when the hand holds that
/// suit's card of that rank, among the ranks the listing covers.
pub proof fn lemma_desc_contains(cards: Seq<Card>, suit: Suit, r: int, rk: Rank)
    requires
        0 <= r <= 13,
    ensures
        desc_ranks_upto(cards, suit, r).contains(rank_char(rk)) <==> crate::cards::rank_index(rk)
            < r && cards.contains(Card { suit, rank: rk }),
    decreases r,
{
    lemma_count_positive(cards, Card { suit, rank: rk });
    if r > 0 {
        lemma_desc_contains(cards, suit, r - 1, rk);
        let top = crate::cards::rank_of_index(r - 1);
        let head = Seq::new(
            count_card(cards, Card { suit, rank: top }),
            |i: int| rank_char(top),
        );
        let tail = desc_ranks_upto(cards, suit, r - 1);
        crate::cards::lemma_concat_contains(head, tail);
        assert(desc_ranks_upto(cards, suit, r) == head + tail);
        if head.contains(rank_char(rk)) {
            let j = choose|j: int| 0 <= j < head.len() && head[j] == rank_char(rk);
            assert(rank_char(top) == rank_char(rk));
            assert(top == rk);
        }
        if crate::cards::rank_index(rk) < r && cards.contains(Card { suit, rank: rk }) {
            if rk == top {
                assert(head.len() > 0);
                assert(head[0] == rank_char(rk));
                assert(head.contains(rank_char(rk)));
            }
        }
    }
}

} // verus!
