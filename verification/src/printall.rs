//! The fixed-column "newspaper" layout: one header line carrying the board's
//! running number, then four body lines, one per suit in spade, heart,
//! diamond, club order.  Each body line is four fixed slots of 20 characters,
//! one per direction in north, east, south, west order; a slot lists that
//! hand's ranks for the suit, highest first, one space between them, and `-`
//! for a void.
//!
//! ```text
//!    1.
//! J 7 3               9 8                 A Q 5 4 2           K T 6
//! 3                   9 6 4 2             K J 8 7             A Q T 5
//! K Q J T 9 8 5       7                   3 2                 A 6 4
//! T 5                 9 8 7 4 3 2         A K                 Q J 6
//! ```
//!
//! Slot boundaries are always multiples of 20 characters: the decoder slices
//! by absolute character offset, never by splitting the whole line on
//! whitespace.

use vstd::prelude::*;
use vstd::string::StringExecFns;

use crate::cards::{rank_from_char, Card, Deal, DealModel, Direction, Hand, Rank, Suit};
use crate::error::ParseError;
use crate::oneline::{desc_ranks, group_cards, group_ok, push_desc_ranks};
use crate::text::{
    blank_line, chars_of, digits, is_blank, is_space, parse_usize_chars, parse_usize_seq,
    seqs_of, spec_digits, split_lines, string_of, strs_of, subrange_vec, trim, trim_seq,
};

verus! {

/// Slot `k` of a body line: the characters from offset `20 k` up to the next
/// slot boundary or the end of the line.
pub open spec fn slot_of(line: Seq<char>, k: int) -> Seq<char> {
    let lo = k * 20;
    let hi = if (k + 1) * 20 < line.len() {
        (k + 1) * 20
    } else {
        line.len() as int
    };
    if lo < line.len() {
        line.subrange(lo, hi)
    } else {
        Seq::empty()
    }
}

/// Whether a slot denotes a void suit: nothing but space, or a lone `-`.
pub open spec fn slot_void(line: Seq<char>, k: int) -> bool {
    let t = trim_seq(slot_of(line, k));
    t.len() == 0 || t == seq!['-']
}

/// The non-space characters of a slot, in order.
pub open spec fn slot_chars(line: Seq<char>, k: int) -> Seq<char> {
    slot_of(line, k).filter(|c: char| !is_space(c))
}

/// Whether a slot is readable: a void marker, or rank characters throughout.
pub open spec fn slot_ok(line: Seq<char>, k: int) -> bool {
    slot_void(line, k) || group_ok(slot_chars(line, k))
}

/// The cards a slot contributes for the given suit.
pub open spec fn slot_cards(line: Seq<char>, k: int, suit: Suit) -> Seq<Card> {
    if slot_void(line, k) {
        Seq::empty()
    } else {
        group_cards(slot_chars(line, k), suit)
    }
}

/// The trimmed header with its trailing dots removed.
pub open spec fn dotless(s: Seq<char>) -> Seq<char>
    decreases s.len(),
{
    if s.len() > 0 && s.last() == '.' {
        dotless(s.drop_last())
    } else {
        s
    }
}

/// Whether a line is a block header: it ends in `.` and, with the trailing
/// dots gone, is a plain non-negative decimal number.
pub open spec fn header_ok(line: Seq<char>) -> bool {
    let t = trim_seq(line);
    t.len() > 0 && t.last() == '.' && parse_usize_seq(trim_seq(dotless(t))) is Some
}

/// The first line index at or after `i` whose line is not blank.
pub open spec fn first_nonblank(lines: Seq<Seq<char>>, i: int) -> int
    decreases lines.len() - i,
{
    if 0 <= i < lines.len() && blank_line(lines[i]) {
        first_nonblank(lines, i + 1)
    } else {
        i
    }
}

pub proof fn lemma_first_nonblank(lines: Seq<Seq<char>>, i: int)
    requires
        0 <= i <= lines.len(),
    ensures
        i <= first_nonblank(lines, i) <= lines.len(),
        forall|k: int| i <= k < first_nonblank(lines, i) ==> blank_line(lines[k]),
        first_nonblank(lines, i) < lines.len() ==> !blank_line(lines[first_nonblank(lines, i)]),
    decreases lines.len() - i,
{
    if i < lines.len() && blank_line(lines[i]) {
        lemma_first_nonblank(lines, i + 1);
    }
}

/// Whether a whole block can be decoded starting at line `start`: after any
/// blank lines a header, then four body lines present and readable.
pub open spec fn block_ok(lines: Seq<Seq<char>>, start: int) -> bool {
    let h = first_nonblank(lines, start);
    &&& h < lines.len()
    &&& header_ok(lines[h])
    &&& h + 4 < lines.len()
    &&& forall|row: int, col: int| 0 <= row < 4 && 0 <= col < 4 ==> #[trigger] slot_ok(lines[h + 1 + row], col)
}

/// How many lines a decoded block consumes: the blanks, the header, the four
/// body lines, and one trailing blank line if one follows.
pub open spec fn block_consumed(lines: Seq<Seq<char>>, start: int) -> int {
    let h = first_nonblank(lines, start);
    if h + 5 < lines.len() && blank_line(lines[h + 5]) {
        h + 6 - start
    } else {
        h + 5 - start
    }
}

/// One direction's cards in a decoded block: its slot of each body line, in
/// spade, heart, diamond, club order.
pub open spec fn block_hand(lines: Seq<Seq<char>>, base: int, col: int) -> Seq<Card> {
    slot_cards(lines[base], col, Suit::Spades) + slot_cards(lines[base + 1], col, Suit::Hearts)
        + slot_cards(lines[base + 2], col, Suit::Diamonds) + slot_cards(
        lines[base + 3],
        col,
        Suit::Clubs,
    )
}

/// The deal a block decodes to.
pub open spec fn block_model(lines: Seq<Seq<char>>, start: int) -> DealModel {
    let h = first_nonblank(lines, start);
    DealModel {
        north: block_hand(lines, h + 1, 0),
        east: block_hand(lines, h + 1, 1),
        south: block_hand(lines, h + 1, 2),
        west: block_hand(lines, h + 1, 3),
    }
}

/// Reads the board number of a header line; `None` where the line is no
/// header.
pub(crate) fn header_number(line: &Vec<char>) -> (r: Option<usize>)
    ensures
        r is Some <==> header_ok(line@),
{
    let t = trim(line);
    if t.len() == 0 {
        return None;
    }
    if t[t.len() - 1] != '.' {
        return None;
    }
    let mut j: usize = t.len();
    proof {
        assert(t@.take(t@.len() as int) =~= t@);
    }
    while j > 0 && t[j - 1] == '.'
        invariant
            0 <= j <= t@.len(),
            dotless(t@) == dotless(t@.take(j as int)),
        decreases j,
    {
        j -= 1;
        proof {
            assert(t@.take(j + 1 as int).drop_last() =~= t@.take(j as int));
        }
    }
    proof {
        assert(t@.take(t@.len() as int) =~= t@);
        assert(dotless(t@.take(j as int)) == t@.take(j as int));
    }
    let u = subrange_vec(&t, 0, j);
    let w = trim(&u);
    parse_usize_chars(&w)
}

/// Appends the cards of one 20-character slot; `false` where the slot holds
/// a character that is neither space nor a rank, with the appended cards
/// then unspecified.
fn parse_slot(line: &Vec<char>, col: usize, suit: Suit, out: &mut Vec<Card>) -> (ok: bool)
    requires
        col < 4,
    ensures
        ok == slot_ok(line@, col as int),
        ok ==> final(out)@ == old(out)@ + slot_cards(line@, col as int, suit),
{
    let lo = col * 20;
    if lo >= line.len() {
        proof {
            assert(slot_of(line@, col as int) =~= Seq::<char>::empty());
            reveal(Seq::filter);
            assert(trim_seq(Seq::<char>::empty()).len() == 0);
            assert(final(out)@ =~= old(out)@ + slot_cards(line@, col as int, suit));
        }
        return true;
    }
    let hi = if lo + 20 < line.len() {
        lo + 20
    } else {
        line.len()
    };
    let slot = subrange_vec(line, lo, hi);
    proof {
        assert(slot@ == slot_of(line@, col as int));
    }
    let t = trim(&slot);
    if t.len() == 0 {
        proof {
            assert(final(out)@ =~= old(out)@ + slot_cards(line@, col as int, suit));
        }
        return true;
    }
    if t.len() == 1 && t[0] == '-' {
        proof {
            assert(t@ =~= seq!['-']);
            assert(final(out)@ =~= old(out)@ + slot_cards(line@, col as int, suit));
        }
        return true;
    }
    proof {
        assert(!slot_void(line@, col as int)) by {
            if trim_seq(slot@) == seq!['-'] {
                assert(t@.len() == 1 && t@[0] == '-');
            }
        }
    }
    let ghost g = slot_chars(line@, col as int);
    let mut i: usize = 0;
    while i < slot.len()
        invariant
            0 <= i <= slot@.len(),
            slot@ == slot_of(line@, col as int),
            !slot_void(line@, col as int),
            group_ok(slot@.take(i as int).filter(|c: char| !is_space(c))),
            out@ == old(out)@ + group_cards(slot@.take(i as int).filter(|c: char| !is_space(c)), suit),
        decreases slot.len() - i,
    {
        let c = slot[i];
        let ghost pre = slot@.take(i as int).filter(|c: char| !is_space(c));
        proof {
            reveal(Seq::filter);
            assert(slot@.take(i + 1 as int).drop_last() =~= slot@.take(i as int));
            assert(slot@.take(i + 1 as int).last() == slot@[i as int]);
        }
        if c == ' ' || c == '\t' || c == '\r' || c == '\n' {
            proof {
                assert(slot@.take(i + 1 as int).filter(|c: char| !is_space(c)) =~= pre);
            }
        } else {
            let rank = match Rank::from_char(c) {
                Some(rk) => rk,
                None => {
                    proof {
                        let post = slot@.take(i + 1 as int).filter(|c: char| !is_space(c));
                        assert(post =~= pre.push(c));
                        assert(rank_from_char(post[post.len() - 1]) is None);
                        assert(!group_ok(post));
                        assert(slot_chars(line@, col as int).len() >= post.len()
                            && slot_chars(line@, col as int).take(post.len() as int) =~= post) by {
                            assert(slot@ =~= slot@.take(i + 1 as int) + slot@.subrange(
                                i + 1,
                                slot@.len() as int,
                            ));
                            Seq::filter_distributes_over_add(
                                slot@.take(i + 1 as int),
                                slot@.subrange(i + 1, slot@.len() as int),
                                |c: char| !is_space(c),
                            );
                        }
                        assert(!group_ok(slot_chars(line@, col as int))) by {
                            let n = post.len() as int;
                            assert(rank_from_char(slot_chars(line@, col as int)[n - 1]) is None);
                        }
                    }
                    return false;
                },
            };
            out.push(Card { suit, rank });
            proof {
                let post = slot@.take(i + 1 as int).filter(|c: char| !is_space(c));
                assert(post =~= pre.push(c));
                assert(group_cards(post, suit) =~= group_cards(pre, suit).push(
                    Card { suit, rank },
                ));
                assert(out@ =~= old(out)@ + group_cards(post, suit));
            }
        }
        i += 1;
    }
    proof {
        assert(slot@.take(slot@.len() as int) =~= slot@);
    }
    true
}

/// Appends each direction's cards from one body line; `false` where any slot
/// is unreadable.
pub(crate) fn parse_body_line(
    line: &Vec<char>,
    suit: Suit,
    hn: &mut Vec<Card>,
    he: &mut Vec<Card>,
    hs: &mut Vec<Card>,
    hw: &mut Vec<Card>,
) -> (ok: bool)
    ensures
        ok == (slot_ok(line@, 0) && slot_ok(line@, 1) && slot_ok(line@, 2) && slot_ok(line@, 3)),
        ok ==> final(hn)@ == old(hn)@ + slot_cards(line@, 0, suit) && final(he)@ == old(he)@
            + slot_cards(line@, 1, suit) && final(hs)@ == old(hs)@ + slot_cards(line@, 2, suit)
            && final(hw)@ == old(hw)@ + slot_cards(line@, 3, suit),
{
    if !parse_slot(line, 0, suit, hn) {
        return false;
    }
    if !parse_slot(line, 1, suit, he) {
        return false;
    }
    if !parse_slot(line, 2, suit, hs) {
        return false;
    }
    if !parse_slot(line, 3, suit, hw) {
        return false;
    }
    true
}

/// Decodes one block from `lines`, starting at line `start`.
///
/// On success the result carries the deal and how many lines were consumed:
/// any leading blanks, the header, the four body lines, and one trailing
/// blank line if present.
pub(crate) fn parse_printall_at(lines: &Vec<Vec<char>>, start: usize) -> (r: Result<
    (Deal, usize),
    ParseError,
>)
    requires
        start <= lines@.len(),
    ensures
        match r {
            Ok((d, consumed)) => block_ok(seqs_of(*lines), start as int) && d@ == block_model(
                seqs_of(*lines),
                start as int,
            ) && consumed == block_consumed(seqs_of(*lines), start as int),
            Err(e) => !block_ok(seqs_of(*lines), start as int) && (e matches ParseError::Pbn(_)),
        },
{
    let ghost gl = seqs_of(*lines);
    proof {
        lemma_first_nonblank(gl, start as int);
    }
    let mut h: usize = start;
    while h < lines.len() && is_blank(&lines[h])
        invariant
            start <= h <= lines@.len(),
            gl == seqs_of(*lines),
            first_nonblank(gl, start as int) == first_nonblank(gl, h as int),
        decreases lines.len() - h,
    {
        h += 1;
    }
    proof {
        assert(first_nonblank(gl, start as int) == h);
    }
    if h >= lines.len() {
        return Err(ParseError::Pbn(String::from_str("no column-layout data found")));
    }
    if header_number(&lines[h]).is_none() {
        return Err(ParseError::Pbn(String::from_str("expected a board number line")));
    }
    if lines.len() - h < 5 {
        // the four body lines must all be present
        return Err(ParseError::Pbn(String::from_str("body line missing before end of input")));
    }
    let mut hn: Vec<Card> = Vec::new();
    let mut he: Vec<Card> = Vec::new();
    let mut hs: Vec<Card> = Vec::new();
    let mut hw: Vec<Card> = Vec::new();
    if !parse_body_line(&lines[h + 1], Suit::Spades, &mut hn, &mut he, &mut hs, &mut hw) {
        proof {
            assert(!block_ok(gl, start as int)) by {
                if block_ok(gl, start as int) {
                    assert(gl[h + 1 + 0] == lines@[h + 1]@);
                    assert(slot_ok(gl[h + 1 + 0], 0));
                    assert(slot_ok(gl[h + 1 + 0], 1));
                    assert(slot_ok(gl[h + 1 + 0], 2));
                    assert(slot_ok(gl[h + 1 + 0], 3));
                }
            }
        }
        return Err(ParseError::Pbn(String::from_str("unrecognized rank character in a slot")));
    }
    if !parse_body_line(&lines[h + 2], Suit::Hearts, &mut hn, &mut he, &mut hs, &mut hw) {
        proof {
            assert(!block_ok(gl, start as int)) by {
                if block_ok(gl, start as int) {
                    assert(gl[h + 1 + 1] == lines@[h + 2]@);
                    assert(slot_ok(gl[h + 1 + 1], 0));
                    assert(slot_ok(gl[h + 1 + 1], 1));
                    assert(slot_ok(gl[h + 1 + 1], 2));
                    assert(slot_ok(gl[h + 1 + 1], 3));
                }
            }
        }
        return Err(ParseError::Pbn(String::from_str("unrecognized rank character in a slot")));
    }
    if !parse_body_line(&lines[h + 3], Suit::Diamonds, &mut hn, &mut he, &mut hs, &mut hw) {
        proof {
            assert(!block_ok(gl, start as int)) by {
                if block_ok(gl, start as int) {
                    assert(gl[h + 1 + 2] == lines@[h + 3]@);
                    assert(slot_ok(gl[h + 1 + 2], 0));
                    assert(slot_ok(gl[h + 1 + 2], 1));
                    assert(slot_ok(gl[h + 1 + 2], 2));
                    assert(slot_ok(gl[h + 1 + 2], 3));
                }
            }
        }
        return Err(ParseError::Pbn(String::from_str("unrecognized rank character in a slot")));
    }
    if !parse_body_line(&lines[h + 4], Suit::Clubs, &mut hn, &mut he, &mut hs, &mut hw) {
        proof {
            assert(!block_ok(gl, start as int)) by {
                if block_ok(gl, start as int) {
                    assert(gl[h + 1 + 3] == lines@[h + 4]@);
                    assert(slot_ok(gl[h + 1 + 3], 0));
                    assert(slot_ok(gl[h + 1 + 3], 1));
                    assert(slot_ok(gl[h + 1 + 3], 2));
                    assert(slot_ok(gl[h + 1 + 3], 3));
                }
            }
        }
        return Err(ParseError::Pbn(String::from_str("unrecognized rank character in a slot")));
    }
    let consumed: usize = if h + 5 < lines.len() && is_blank(&lines[h + 5]) {
        h + 6 - start
    } else {
        h + 5 - start
    };
    let mut deal = Deal::new();
    deal.set_hand(Direction::North, Hand::from_cards(hn));
    deal.set_hand(Direction::East, Hand::from_cards(he));
    deal.set_hand(Direction::South, Hand::from_cards(hs));
    deal.set_hand(Direction::West, Hand::from_cards(hw));
    proof {
        assert(deal@ =~= block_model(gl, start as int));
    }
    Ok((deal, consumed))
}

/// Decodes one block from a slice of lines.
///
/// Succeeds exactly when, after any leading blank lines, a header line with
/// a board number is followed by four readable body lines; the deal then
/// holds, for each direction and suit, the cards of that direction's
/// 20-character slot, and the count says how many lines were consumed.
pub fn parse_printall(lines: &Vec<&str>) -> (r: Result<(Deal, usize), ParseError>)
    ensures
        match r {
            Ok((d, consumed)) => block_ok(strs_of(*lines), 0) && d@ == block_model(
                strs_of(*lines),
                0,
            ) && consumed == block_consumed(strs_of(*lines), 0),
            Err(e) => !block_ok(strs_of(*lines), 0) && (e matches ParseError::Pbn(_)),
        },
{
    let mut owned: Vec<Vec<char>> = Vec::new();
    let mut i: usize = 0;
    while i < lines.len()
        invariant
            0 <= i <= lines@.len(),
            owned@.len() == i,
            forall|k: int| 0 <= k < i ==> owned@[k]@ == lines@[k]@,
        decreases lines.len() - i,
    {
        owned.push(chars_of(lines[i]));
        i += 1;
    }
    proof {
        assert(seqs_of(owned) =~= strs_of(*lines));
    }
    parse_printall_at(&owned, 0)
}

/// Whether a line is one of the statistics banners a deal generator prints.
pub open spec fn stats_line(s: Seq<char>) -> bool {
    let t = trim_seq(s);
    crate::text::has_prefix(t, "Generated "@) || crate::text::has_prefix(t, "Produced "@)
        || crate::text::has_prefix(t, "Initial "@) || crate::text::has_prefix(t, "Time "@)
}

fn is_stats_line(v: &Vec<char>) -> (b: bool)
    ensures
        b == stats_line(v@),
{
    let t = trim(v);
    if crate::text::starts_with_str(&t, "Generated ") {
        return true;
    }
    if crate::text::starts_with_str(&t, "Produced ") {
        return true;
    }
    if crate::text::starts_with_str(&t, "Initial ") {
        return true;
    }
    crate::text::starts_with_str(&t, "Time ")
}

/// The deals read by scanning a whole text: blank lines, statistics banners
/// and other unrecognized lines are passed over; each decodable block counts
/// once and its lines are consumed together.
pub open spec fn scan_deals(lines: Seq<Seq<char>>, pos: int) -> Seq<DealModel>
    decreases lines.len() - pos when 0 <= pos <= lines.len()
    via scan_deals_decreases
{
    if pos < 0 || pos >= lines.len() {
        Seq::empty()
    } else if blank_line(lines[pos]) || stats_line(lines[pos]) {
        scan_deals(lines, pos + 1)
    } else if block_ok(lines, pos) {
        seq![block_model(lines, pos)] + scan_deals(lines, pos + block_consumed(lines, pos))
    } else {
        scan_deals(lines, pos + 1)
    }
}

#[via_fn]
proof fn scan_deals_decreases(lines: Seq<Seq<char>>, pos: int) {
    if 0 <= pos < lines.len() && !blank_line(lines[pos]) && !stats_line(lines[pos]) && block_ok(
        lines,
        pos,
    ) {
        lemma_first_nonblank(lines, pos);
    }
}

/// The deal models of a vector of deals.
pub open spec fn models_of(v: Vec<Deal>) -> Seq<DealModel> {
    Seq::new(v@.len() as nat, |i: int| v@[i]@)
}

/// Decodes every block in a text that may also hold blank lines, statistics
/// banners and other noise.  Never fails: an unrecognized line is skipped.
pub fn parse_printall_string(content: &str) -> (r: Result<Vec<Deal>, ParseError>)
    ensures
        r is Ok,
        models_of(r->Ok_0) == scan_deals(lines_of_content(content@), 0),
{
    let v = chars_of(content);
    let lines = split_lines(&v);
    let ghost gl = seqs_of(lines);
    let mut deals: Vec<Deal> = Vec::new();
    let mut pos: usize = 0;
    while pos < lines.len()
        invariant
            0 <= pos <= lines@.len(),
            gl == seqs_of(lines),
            gl == lines_of_content(content@),
            models_of(deals) + scan_deals(gl, pos as int) == scan_deals(gl, 0),
        decreases lines.len() - pos,
    {
        let ghost pre = models_of(deals);
        if is_blank(&lines[pos]) {
            pos += 1;
            continue;
        }
        if is_stats_line(&lines[pos]) {
            pos += 1;
            continue;
        }
        match parse_printall_at(&lines, pos) {
            Ok((deal, consumed)) => {
                deals.push(deal);
                proof {
                    lemma_first_nonblank(gl, pos as int);
                    assert(models_of(deals) =~= pre.push(deal@));
                    assert(models_of(deals) + scan_deals(gl, pos + consumed) =~= pre + (seq![
                        block_model(gl, pos as int),
                    ] + scan_deals(gl, pos + block_consumed(gl, pos as int))));
                }
                pos += consumed;
            },
            Err(_) => {
                pos += 1;
            },
        }
    }
    proof {
        assert(models_of(deals) =~= models_of(deals) + scan_deals(gl, pos as int));
    }
    Ok(deals)
}

/// The lines of a text, as the whole-text decoder sees them.
pub open spec fn lines_of_content(s: Seq<char>) -> Seq<Seq<char>> {
    crate::text::lines_of(s)
}

/// `n` spaces.
pub open spec fn pad_spaces(n: int) -> Seq<char> {
    if n <= 0 {
        Seq::empty()
    } else {
        Seq::new(n as nat, |i: int| ' ')
    }
}

/// Rank characters written out with one space after each, `X X X `.
pub open spec fn interleave(r: Seq<char>) -> Seq<char> {
    Seq::new(2 * r.len(), |i: int| if i % 2 == 0 { r[i / 2] } else { ' ' })
}

/// The text of one slot before padding: the suit's ranks highest first, or
/// `- ` for a void.
pub open spec fn slot_text(cards: Seq<Card>, suit: Suit) -> Seq<char> {
    let rs = desc_ranks(cards, suit);
    if rs.len() == 0 {
        seq!['-', ' ']
    } else {
        interleave(rs)
    }
}

/// A slot padded with spaces out to the 20-character boundary.
pub open spec fn padded(s: Seq<char>) -> Seq<char> {
    s + pad_spaces(20 - s.len())
}

/// One body line: the four directions' slots, the last unpadded.
pub open spec fn body_line_text(m: DealModel, suit: Suit) -> Seq<char> {
    padded(slot_text(m.north, suit)) + padded(slot_text(m.east, suit)) + padded(
        slot_text(m.south, suit),
    ) + slot_text(m.west, suit)
}

/// The header line: the board number right-justified in four characters,
/// then a dot.
pub open spec fn header_text(n: int) -> Seq<char> {
    pad_spaces(4 - spec_digits(n).len()) + spec_digits(n) + seq!['.', '\n']
}

/// A whole encoded block: header, four body lines, a closing blank line.
pub open spec fn printall_text(m: DealModel, n: int) -> Seq<char> {
    header_text(n) + body_line_text(m, Suit::Spades) + seq!['\n'] + body_line_text(m, Suit::Hearts)
        + seq!['\n'] + body_line_text(m, Suit::Diamonds) + seq!['\n'] + body_line_text(
        m,
        Suit::Clubs,
    ) + seq!['\n'] + seq!['\n']
}

/// Writes one padded or unpadded slot onto `out`.
fn push_slot(h: &Hand, suit: Suit, pad: bool, out: &mut Vec<char>)
    ensures
        final(out)@ == old(out)@ + (if pad {
            padded(slot_text(h@, suit))
        } else {
            slot_text(h@, suit)
        }),
{
    let mut rs: Vec<char> = Vec::new();
    push_desc_ranks(&h.cards, suit, &mut rs);
    proof {
        assert(rs@ =~= desc_ranks(h@, suit));
    }
    let ghost base = out@;
    let n_ranks = rs.len();
    if rs.len() == 0 {
        out.push('-');
        out.push(' ');
        proof {
            assert(out@ =~= base + slot_text(h@, suit));
        }
    } else {
        let mut j: usize = 0;
        while j < rs.len()
            invariant
                0 <= j <= rs@.len(),
                rs@ == desc_ranks(h@, suit),
                rs@.len() > 0,
                out@ == base + interleave(rs@).take(2 * j as int),
            decreases rs.len() - j,
        {
            out.push(rs[j]);
            out.push(' ');
            j += 1;
            proof {
                assert(out@ =~= base + interleave(rs@).take(2 * j as int));
            }
        }
        proof {
            assert(interleave(rs@).take(interleave(rs@).len() as int) =~= interleave(rs@));
            assert(out@ == base + slot_text(h@, suit));
        }
    }
    if pad {
        let ghost mid = out@;
        let ghost st = slot_text(h@, suit);
        if n_ranks < 10 {
            let w: usize = if n_ranks == 0 {
                2
            } else {
                2 * n_ranks
            };
            proof {
                assert(w == st.len());
                assert(out@ =~= mid + pad_spaces(w - st.len()));
            }
            let mut k: usize = w;
            while k < 20
                invariant
                    st.len() == w as int,
                    w <= k <= 20,
                    out@ == mid + pad_spaces(k - st.len()),
                decreases 20 - k,
            {
                out.push(' ');
                k += 1;
                proof {
                    assert(out@ =~= mid + pad_spaces(k - st.len()));
                }
            }
            proof {
                assert(out@ =~= base + padded(st));
            }
        } else {
            proof {
                assert(st.len() >= 20);
                assert(pad_spaces(20 - st.len()) =~= Seq::<char>::empty());
                assert(out@ =~= base + padded(st));
            }
        }
    }
}

/// Writes one body line and its newline onto `out`.
fn push_body_line(deal: &Deal, suit: Suit, out: &mut Vec<char>)
    ensures
        final(out)@ == old(out)@ + body_line_text(deal@, suit) + seq!['\n'],
{
    push_slot(deal.hand(Direction::North), suit, true, out);
    push_slot(deal.hand(Direction::East), suit, true, out);
    push_slot(deal.hand(Direction::South), suit, true, out);
    push_slot(deal.hand(Direction::West), suit, false, out);
    out.push('\n');
    proof {
        assert(out@ =~= old(out)@ + body_line_text(deal@, suit) + seq!['\n']);
    }
}

/// Encodes a deal as one column-layout block, carrying the given board
/// number: a header line, four body lines of four 20-character slots, and a
/// closing blank line.
pub fn format_printall(deal: &Deal, board_number: usize) -> (r: String)
    ensures
        r@ == printall_text(deal@, board_number as int),
{
    let mut out: Vec<char> = Vec::new();
    let ds = digits(board_number);
    let mut p: usize = ds.len();
    while p < 4
        invariant
            out@ == pad_spaces(4 - spec_digits(board_number as int).len()).take(
                p - ds@.len(),
            ),
            ds@ == spec_digits(board_number as int),
            ds@.len() <= p,
            p <= 4 || p == ds@.len(),
        decreases 4 - p,
    {
        out.push(' ');
        p += 1;
        proof {
            assert(out@ =~= pad_spaces(4 - spec_digits(board_number as int).len()).take(
                p - ds@.len(),
            ));
        }
    }
    proof {
        let padn = pad_spaces(4 - spec_digits(board_number as int).len());
        assert(padn.take(padn.len() as int) =~= padn);
        assert(out@ == padn);
    }
    let mut i: usize = 0;
    while i < ds.len()
        invariant
            0 <= i <= ds@.len(),
            ds@ == spec_digits(board_number as int),
            out@ == pad_spaces(4 - spec_digits(board_number as int).len()) + ds@.take(i as int),
        decreases ds.len() - i,
    {
        out.push(ds[i]);
        i += 1;
        proof {
            assert(out@ =~= pad_spaces(4 - spec_digits(board_number as int).len()) + ds@.take(
                i as int,
            ));
        }
    }
    out.push('.');
    out.push('\n');
    proof {
        assert(ds@.take(ds@.len() as int) =~= ds@);
        assert(out@ =~= header_text(board_number as int));
    }
    push_body_line(deal, Suit::Spades, &mut out);
    push_body_line(deal, Suit::Hearts, &mut out);
    push_body_line(deal, Suit::Diamonds, &mut out);
    push_body_line(deal, Suit::Clubs, &mut out);
    out.push('\n');
    proof {
        assert(out@ =~= printall_text(deal@, board_number as int));
    }
    string_of(&out)
}


/// Removing trailing dots leaves a prefix of the string, and leaves at
/// least one character where the string does not open with a dot.
pub proof fn lemma_dotless_prefix(s: Seq<char>)
    ensures
        dotless(s).len() <= s.len(),
        forall|k: int| 0 <= k < dotless(s).len() ==> dotless(s)[k] == s[k],
        s.len() > 0 && s[0] != '.' ==> dotless(s).len() >= 1,
    decreases s.len(),
{
    if s.len() > 0 && s.last() == '.' {
        lemma_dotless_prefix(s.drop_last());
        assert forall|k: int| 0 <= k < dotless(s).len() implies dotless(s)[k] == s[k] by {
            assert(dotless(s) == dotless(s.drop_last()));
            assert(dotless(s.drop_last())[k] == s.drop_last()[k]);
        }
    }
}


proof fn lemma_filter_space_only(s: Seq<char>)
    requires
        forall|k: int| 0 <= k < s.len() ==> is_space(#[trigger] s[k]),
    ensures
        s.filter(|c: char| !is_space(c)) == Seq::<char>::empty(),
    decreases s.len(),
{
    reveal(Seq::filter);
    if s.len() > 0 {
        lemma_filter_space_only(s.drop_last());
    } else {
        assert(s.filter(|c: char| !is_space(c)) =~= Seq::<char>::empty());
    }
}

proof fn lemma_interleave_filter(rs: Seq<char>)
    requires
        forall|k: int| 0 <= k < rs.len() ==> !is_space(#[trigger] rs[k]),
    ensures
        interleave(rs).filter(|c: char| !is_space(c)) == rs,
    decreases rs.len(),
{
    reveal(Seq::filter);
    if rs.len() == 0 {
        assert(interleave(rs) =~= Seq::<char>::empty());
        assert(interleave(rs).filter(|c: char| !is_space(c)) =~= Seq::<char>::empty());
    } else {
        let rs0 = rs.drop_last();
        let x = rs.last();
        lemma_interleave_filter(rs0);
        assert(interleave(rs) =~= interleave(rs0) + seq![x, ' ']);
        Seq::filter_distributes_over_add(interleave(rs0), seq![x, ' '], |c: char| !is_space(c));
        assert(seq![x, ' '].filter(|c: char| !is_space(c)) =~= seq![x]) by {
            assert(seq![x, ' '].drop_last() =~= seq![x]);
            assert(seq![x].drop_last() =~= Seq::<char>::empty());
            assert(seq![x].filter(|c: char| !is_space(c)) =~= seq![x]);
        }
        assert(rs0 + seq![x] =~= rs);
    }
}

/// A slot the encoder wrote, padded or not, decodes to exactly the cards of
/// its suit that the encoded hand holds.
proof fn lemma_slot_decode(cards: Seq<Card>, suit: Suit, line: Seq<char>, col: int, p: int)
    requires
        0 <= col < 4,
        slot_of(line, col) == slot_text(cards, suit) + pad_spaces(p),
    ensures
        slot_ok(line, col),
        forall|c: Card| #[trigger]
            slot_cards(line, col, suit).contains(c) <==> c.suit == suit && cards.contains(c),
{
    let rs = desc_ranks(cards, suit);
    let sl = slot_of(line, col);
    crate::oneline::lemma_desc_chars(cards, suit, 13);
    assert forall|k: int| 0 <= k < rs.len() implies !is_space(#[trigger] rs[k]) && rs[k] != '-'
        && rs[k] != '\n' by {
        assert(rank_from_char(rs[k]) is Some);
    }
    if rs.len() == 0 {
        // a void suit: the slot is a lone dash
        assert(sl == seq!['-', ' '] + pad_spaces(p));
        assert(sl[0] == '-' && sl.len() >= 2);
        assert(forall|k: int| 1 <= k < sl.len() ==> is_space(#[trigger] sl[k]));
        crate::text::lemma_trim_bounds(sl, 0, 1);
        assert(trim_seq(sl) =~= seq!['-']);
        assert(slot_void(line, col));
        assert forall|c: Card| #[trigger]
            slot_cards(line, col, suit).contains(c) <==> c.suit == suit && cards.contains(c) by {
            if c.suit == suit && cards.contains(c) {
                crate::oneline::lemma_desc_contains(cards, suit, 13, c.rank);
                assert(rs.contains(crate::cards::rank_char(c.rank)));
            }
        }
    } else {
        assert(sl == interleave(rs) + pad_spaces(p));
        assert(sl.len() == 2 * rs.len() + (if p <= 0 {
            0int
        } else {
            p
        }));
        let b = 2 * rs.len() - 1;
        assert(sl[0] == interleave(rs)[0] == rs[0]);
        assert(!is_space(sl[b - 1])) by {
            assert(sl[2 * rs.len() - 2] == interleave(rs)[2 * rs.len() - 2]);
            assert(interleave(rs)[2 * rs.len() - 2] == rs[rs.len() - 1]);
        }
        assert forall|k: int| b <= k < sl.len() implies is_space(#[trigger] sl[k]) by {
            if k < 2 * rs.len() {
                assert(sl[k] == interleave(rs)[k]);
                assert(k % 2 == 1);
            } else {
                assert(sl[k] == pad_spaces(p)[k - 2 * rs.len()]);
            }
        }
        crate::text::lemma_trim_bounds(sl, 0, b);
        let t = trim_seq(sl);
        assert(t[0] == rs[0]);
        assert(!slot_void(line, col)) by {
            assert(t.len() > 0);
            if t == seq!['-'] {
                assert(t[0] == '-');
            }
        }
        // the slot's non-space characters are exactly the listed ranks
        assert(slot_chars(line, col) == rs) by {
            lemma_interleave_filter(rs);
            assert(forall|k: int|
                0 <= k < pad_spaces(p).len() ==> is_space(#[trigger] pad_spaces(p)[k]));
            lemma_filter_space_only(pad_spaces(p));
            Seq::filter_distributes_over_add(interleave(rs), pad_spaces(p), |c: char| !is_space(c));
            assert(slot_chars(line, col) =~= rs);
        }
        assert(group_ok(rs));
        assert forall|c: Card| #[trigger]
            slot_cards(line, col, suit).contains(c) <==> c.suit == suit && cards.contains(c) by {
            crate::oneline::lemma_desc_contains(cards, suit, 13, c.rank);
            let g = group_cards(rs, suit);
            assert(slot_cards(line, col, suit) == g);
            if g.contains(c) {
                let k = choose|k: int| 0 <= k < g.len() && g[k] == c;
                assert(c == Card { suit, rank: rank_from_char(rs[k])->0 });
                assert(rs[k] == crate::cards::rank_char(c.rank)) by {
                    let rk = rank_from_char(rs[k])->0;
                    assert(rank_from_char(rs[k]) is Some);
                    assert(crate::cards::rank_char(rk) == rs[k]);
                }
                assert(rs.contains(crate::cards::rank_char(c.rank)));
            }
            if c.suit == suit && cards.contains(c) {
                assert(rs.contains(crate::cards::rank_char(c.rank)));
                let k = choose|k: int|
                    0 <= k < rs.len() && rs[k] == crate::cards::rank_char(c.rank);
                assert(g[k] == Card { suit, rank: rank_from_char(rs[k])->0 });
                assert(rank_from_char(crate::cards::rank_char(c.rank)) == Some(c.rank));
                assert(g[k] == c);
                assert(g.contains(c));
            }
        }
    }
}


/// Every character a slot writes is a space, a dash or a rank character,
/// the slot is at least two characters, and it ends in a space.
proof fn lemma_slot_text_chars(cards: Seq<Card>, suit: Suit)
    ensures
        forall|k: int|
            0 <= k < slot_text(cards, suit).len() ==> (#[trigger] slot_text(cards, suit)[k] == ' '
                || slot_text(cards, suit)[k] == '-' || rank_from_char(
                slot_text(cards, suit)[k],
            ) is Some),
        slot_text(cards, suit).len() >= 2,
        slot_text(cards, suit).last() == ' ',
{
    let rs = desc_ranks(cards, suit);
    crate::oneline::lemma_desc_chars(cards, suit, 13);
    if rs.len() > 0 {
        assert forall|k: int|
            0 <= k < slot_text(cards, suit).len() implies (#[trigger] slot_text(cards, suit)[k]
            == ' ' || slot_text(cards, suit)[k] == '-' || rank_from_char(
            slot_text(cards, suit)[k],
        ) is Some) by {
            if k % 2 == 0 {
                assert(slot_text(cards, suit)[k] == rs[k / 2]);
                assert(rank_from_char(rs[k / 2]) is Some);
            }
        }
        assert(slot_text(cards, suit).last() == interleave(rs)[2 * rs.len() - 1]);
    }
}

/// The padded form of a slot whose listing fits its column is exactly 20
/// characters.
proof fn lemma_padded_len(cards: Seq<Card>, suit: Suit)
    requires
        desc_ranks(cards, suit).len() <= 10,
    ensures
        padded(slot_text(cards, suit)).len() == 20,
        slot_text(cards, suit).len() <= 20,
{
    lemma_slot_text_chars(cards, suit);
}

/// One body line decodes slot by slot: each direction's slot is readable
/// and yields exactly that hand's cards of the line's suit.
proof fn lemma_body_line_decodes(m: DealModel, suit: Suit)
    requires
        forall|d: Direction| #[trigger] desc_ranks(m.hand_seq(d), suit).len() <= 10,
    ensures
        slot_ok(body_line_text(m, suit), 0),
        slot_ok(body_line_text(m, suit), 1),
        slot_ok(body_line_text(m, suit), 2),
        slot_ok(body_line_text(m, suit), 3),
        forall|c: Card| #[trigger]
            slot_cards(body_line_text(m, suit), 0, suit).contains(c) <==> c.suit == suit
                && m.north.contains(c),
        forall|c: Card| #[trigger]
            slot_cards(body_line_text(m, suit), 1, suit).contains(c) <==> c.suit == suit
                && m.east.contains(c),
        forall|c: Card| #[trigger]
            slot_cards(body_line_text(m, suit), 2, suit).contains(c) <==> c.suit == suit
                && m.south.contains(c),
        forall|c: Card| #[trigger]
            slot_cards(body_line_text(m, suit), 3, suit).contains(c) <==> c.suit == suit
                && m.west.contains(c),
{
    let b = body_line_text(m, suit);
    let p0 = padded(slot_text(m.north, suit));
    let p1 = padded(slot_text(m.east, suit));
    let p2 = padded(slot_text(m.south, suit));
    let s3 = slot_text(m.west, suit);
    assert(desc_ranks(m.north, suit).len() <= 10 && desc_ranks(m.east, suit).len() <= 10
        && desc_ranks(m.south, suit).len() <= 10 && desc_ranks(m.west, suit).len() <= 10) by {
        assert(m.hand_seq(Direction::North) == m.north);
        assert(m.hand_seq(Direction::East) == m.east);
        assert(m.hand_seq(Direction::South) == m.south);
        assert(m.hand_seq(Direction::West) == m.west);
    }
    lemma_padded_len(m.north, suit);
    lemma_padded_len(m.east, suit);
    lemma_padded_len(m.south, suit);
    lemma_padded_len(m.west, suit);
    lemma_slot_text_chars(m.west, suit);
    assert(b.len() == 60 + s3.len() && s3.len() >= 2 && s3.len() <= 20);
    assert(slot_of(b, 0) =~= p0 + pad_spaces(0)) by {
        assert(pad_spaces(0) =~= Seq::<char>::empty());
    }
    assert(slot_of(b, 1) =~= p1 + pad_spaces(0));
    assert(slot_of(b, 2) =~= p2 + pad_spaces(0));
    assert(slot_of(b, 3) =~= s3 + pad_spaces(0));
    assert(p0 + pad_spaces(0) =~= slot_text(m.north, suit) + pad_spaces(
        20 - slot_text(m.north, suit).len(),
    ));
    assert(p1 + pad_spaces(0) =~= slot_text(m.east, suit) + pad_spaces(
        20 - slot_text(m.east, suit).len(),
    ));
    assert(p2 + pad_spaces(0) =~= slot_text(m.south, suit) + pad_spaces(
        20 - slot_text(m.south, suit).len(),
    ));
    lemma_slot_decode(m.north, suit, b, 0, 20 - slot_text(m.north, suit).len());
    lemma_slot_decode(m.east, suit, b, 1, 20 - slot_text(m.east, suit).len());
    lemma_slot_decode(m.south, suit, b, 2, 20 - slot_text(m.south, suit).len());
    lemma_slot_decode(m.west, suit, b, 3, 0);
}


/// No character of a body line is a newline or carriage return, and the
/// line ends in a space.
proof fn lemma_body_line_chars(m: DealModel, suit: Suit)
    ensures
        forall|k: int|
            0 <= k < body_line_text(m, suit).len() ==> #[trigger] body_line_text(m, suit)[k]
                != '\n' && body_line_text(m, suit)[k] != '\r',
        body_line_text(m, suit).len() >= 2,
        body_line_text(m, suit).last() == ' ',
{
    let b = body_line_text(m, suit);
    let p0 = padded(slot_text(m.north, suit));
    let p1 = padded(slot_text(m.east, suit));
    let p2 = padded(slot_text(m.south, suit));
    let s3 = slot_text(m.west, suit);
    lemma_slot_text_chars(m.north, suit);
    lemma_slot_text_chars(m.east, suit);
    lemma_slot_text_chars(m.south, suit);
    lemma_slot_text_chars(m.west, suit);
    assert forall|k: int|
        0 <= k < b.len() implies #[trigger] b[k] != '\n' && b[k] != '\r' by {
        let fine = |c: char| c == ' ' || c == '-' || rank_from_char(c) is Some;
        assert forall|st: Seq<Card>, j: int|
            0 <= j < padded(slot_text(st, suit)).len() implies fine(
            #[trigger] padded(slot_text(st, suit))[j],
        ) by {
            if j < slot_text(st, suit).len() {
                lemma_slot_text_chars(st, suit);
                assert(padded(slot_text(st, suit))[j] == slot_text(st, suit)[j]);
            } else {
                assert(padded(slot_text(st, suit))[j] == pad_spaces(
                    20 - slot_text(st, suit).len(),
                )[j - slot_text(st, suit).len()]);
            }
        }
        let c = b[k];
        assert(fine(c)) by {
            if k < p0.len() {
                assert(c == p0[k]);
            } else if k < p0.len() + p1.len() {
                assert(c == p1[k - p0.len()]);
            } else if k < p0.len() + p1.len() + p2.len() {
                assert(c == p2[k - p0.len() - p1.len()]);
            } else {
                assert(c == s3[k - p0.len() - p1.len() - p2.len()]);
            }
        }
        if rank_from_char(c) is Some {
            assert(c != '\n' && c != '\r');
        }
    }
    assert(b.last() == s3.last());
}

/// The header line before its newline: the board number right-justified in
/// four characters, then a dot.
pub open spec fn header_line(n: int) -> Seq<char> {
    pad_spaces(4 - spec_digits(n).len()) + spec_digits(n) + seq!['.']
}

/// The header line is a well-formed board-number line, free of newlines.
proof fn lemma_header_line(n: int)
    requires
        0 <= n <= usize::MAX as int,
    ensures
        header_ok(header_line(n)),
        forall|k: int|
            0 <= k < header_line(n).len() ==> #[trigger] header_line(n)[k] != '\n' && header_line(
                n,
            )[k] != '\r',
        header_line(n).last() == '.',
        !crate::text::blank_line(header_line(n)),
{
    let ds = spec_digits(n);
    let pad = pad_spaces(4 - ds.len());
    let h = header_line(n);
    crate::text::lemma_digits_chars(n);
    crate::text::lemma_parse_digits(n);
    assert(ds.len() >= 1);
    assert(h.last() == '.');
    assert forall|k: int|
        0 <= k < h.len() implies #[trigger] h[k] != '\n' && h[k] != '\r' by {
        if k < pad.len() {
            assert(h[k] == ' ');
        } else if k < pad.len() + ds.len() {
            assert(h[k] == ds[k - pad.len()]);
            assert(crate::text::is_digit(h[k]));
        } else {
            assert(h[k] == '.');
        }
    }
    // trimming strips exactly the leading pad
    assert(!crate::text::is_space(h[pad.len() as int])) by {
        assert(h[pad.len() as int] == ds[0]);
        assert(crate::text::is_digit(ds[0]));
    }
    assert(forall|k: int| 0 <= k < pad.len() ==> crate::text::is_space(#[trigger] h[k]));
    crate::text::lemma_trim_bounds(h, pad.len() as int, h.len() as int);
    let t = trim_seq(h);
    assert(t =~= ds + seq!['.']);
    assert(t.last() == '.');
    assert(dotless(t) == ds) by {
        assert(t.drop_last() =~= ds);
        assert(dotless(t) == dotless(ds));
        assert(!crate::text::is_digit('.')) by {}
        assert(ds.last() != '.') by {
            assert(crate::text::is_digit(ds[ds.len() - 1]));
        }
    }
    assert(trim_seq(ds) == ds) by {
        assert(!crate::text::is_space(ds[0]) && !crate::text::is_space(ds[ds.len() - 1]));
        if ds.len() == 1 {
            crate::text::lemma_trim_bounds(ds, 0, 1);
        } else {
            crate::text::lemma_trim_bounds(ds, 0, ds.len() as int);
        }
        assert(ds.subrange(0, ds.len() as int) =~= ds);
    }
    assert(crate::text::parse_usize_seq(trim_seq(dotless(t))) == Some(n));
    assert(!crate::text::blank_line(h)) by {
        assert(!crate::text::is_space(h[h.len() - 1]));
    }
}

/// The lines of an encoded block: its header, its four body lines, and one
/// closing blank line.
#[verifier::rlimit(100)]
#[verifier::spinoff_prover]
proof fn lemma_printall_lines(m: DealModel, n: int)
    requires
        0 <= n <= usize::MAX as int,
    ensures
        crate::text::lines_of(printall_text(m, n)) =~~= seq![
            header_line(n),
            body_line_text(m, Suit::Spades),
            body_line_text(m, Suit::Hearts),
            body_line_text(m, Suit::Diamonds),
            body_line_text(m, Suit::Clubs),
            Seq::<char>::empty(),
        ],
{
    let text = printall_text(m, n);
    let h = header_line(n);
    let b1 = body_line_text(m, Suit::Spades);
    let b2 = body_line_text(m, Suit::Hearts);
    let b3 = body_line_text(m, Suit::Diamonds);
    let b4 = body_line_text(m, Suit::Clubs);
    lemma_header_line(n);
    lemma_body_line_chars(m, Suit::Spades);
    lemma_body_line_chars(m, Suit::Hearts);
    lemma_body_line_chars(m, Suit::Diamonds);
    lemma_body_line_chars(m, Suit::Clubs);
    let nl = seq!['\n'];
    let r4 = nl;
    let r3 = b4 + nl + r4;
    let r2 = b3 + nl + r3;
    let r1 = b2 + nl + r2;
    let r0 = b1 + nl + r1;
    assert(text =~= h + nl + r0);
    let e = Seq::<char>::empty();
    let ea = Seq::<Seq<char>>::empty();
    crate::text::lemma_split_line(h, r0, '\n', e, ea);
    crate::text::lemma_split_line(b1, r1, '\n', e, ea.push(e + h));
    crate::text::lemma_split_line(b2, r2, '\n', e, ea.push(e + h).push(e + b1));
    crate::text::lemma_split_line(b3, r3, '\n', e, ea.push(e + h).push(e + b1).push(e + b2));
    crate::text::lemma_split_line(
        b4,
        r4,
        '\n',
        e,
        ea.push(e + h).push(e + b1).push(e + b2).push(e + b3),
    );
    let acc5 = ea.push(e + h).push(e + b1).push(e + b2).push(e + b3).push(e + b4);
    assert(crate::text::split_seq(text, '\n') == crate::text::split_from(
        nl,
        '\n',
        0,
        e,
        acc5,
    )) by {
        assert(crate::text::split_seq(text, '\n') == crate::text::split_from(text, '\n', 0, e, ea));
    }
    assert(crate::text::split_from(nl, '\n', 0, e, acc5) == acc5.push(e).push(e)) by {
        assert(crate::text::split_from(nl, '\n', 0, e, acc5) == crate::text::split_from(
            nl,
            '\n',
            1,
            e,
            acc5.push(e),
        ));
    }
    assert(text.len() > 0 && text.last() == '\n') by {
        assert(text[text.len() - 1] == '\n');
    }
    let parts = crate::text::split_seq(text, '\n');
    let kept = parts.drop_last();
    assert(kept =~~= seq![e + h, e + b1, e + b2, e + b3, e + b4, e]);
    assert(e + h =~= h);
    assert(e + b1 =~= b1);
    assert(e + b2 =~= b2);
    assert(e + b3 =~= b3);
    assert(e + b4 =~= b4);
    assert(crate::text::lines_of(text) == kept.map_values(
        |p: Seq<char>|
            if p.len() > 0 && p.last() == '\r' {
                p.drop_last()
            } else {
                p
            },
    ));
    assert(crate::text::lines_of(text) =~~= seq![h, b1, b2, b3, b4, e]) by {
        assert(kept.len() == 6);
        assert(kept[0] == h && h.last() != '\r');
        assert(kept[1] == b1 && b1.last() != '\r');
        assert(kept[2] == b2 && b2.last() != '\r');
        assert(kept[3] == b3 && b3.last() != '\r');
        assert(kept[4] == b4 && b4.last() != '\r');
        assert(kept[5] == e);
    }
}


/// Round trip: decoding any block the encoder wrote — with every suit
/// listing fitting its 20-character column — succeeds, consumes the whole
/// six-line block, and reproduces, for every direction, exactly the card
/// membership of the encoded deal.
#[verifier::rlimit(100)]
#[verifier::spinoff_prover]
pub proof fn lemma_printall_round_trip(m: DealModel, n: int)
    requires
        0 <= n <= usize::MAX as int,
        forall|d: Direction, suit: Suit| #[trigger] desc_ranks(m.hand_seq(d), suit).len() <= 10,
    ensures
        block_ok(crate::text::lines_of(printall_text(m, n)), 0),
        block_consumed(crate::text::lines_of(printall_text(m, n)), 0) == 6,
        forall|d: Direction, c: Card| #[trigger]
            block_model(crate::text::lines_of(printall_text(m, n)), 0).hand_seq(d).contains(c)
                <==> m.hand_seq(d).contains(c),
{
    let lines = crate::text::lines_of(printall_text(m, n));
    lemma_printall_lines(m, n);
    lemma_header_line(n);
    assert(lines.len() == 6);
    assert(lines[0] == header_line(n));
    assert(lines[1] == body_line_text(m, Suit::Spades));
    assert(lines[2] == body_line_text(m, Suit::Hearts));
    assert(lines[3] == body_line_text(m, Suit::Diamonds));
    assert(lines[4] == body_line_text(m, Suit::Clubs));
    assert(lines[5] =~= Seq::<char>::empty());
    assert(forall|d: Direction| #[trigger] desc_ranks(m.hand_seq(d), Suit::Spades).len() <= 10);
    assert(forall|d: Direction| #[trigger] desc_ranks(m.hand_seq(d), Suit::Hearts).len() <= 10);
    assert(forall|d: Direction| #[trigger] desc_ranks(m.hand_seq(d), Suit::Diamonds).len() <= 10);
    assert(forall|d: Direction| #[trigger] desc_ranks(m.hand_seq(d), Suit::Clubs).len() <= 10);
    lemma_body_line_decodes(m, Suit::Spades);
    lemma_body_line_decodes(m, Suit::Hearts);
    lemma_body_line_decodes(m, Suit::Diamonds);
    lemma_body_line_decodes(m, Suit::Clubs);
    assert(first_nonblank(lines, 0) == 0);
    assert(block_ok(lines, 0)) by {
        assert forall|row: int, col: int|
            0 <= row < 4 && 0 <= col < 4 implies #[trigger] slot_ok(lines[0 + 1 + row], col) by {
            if row == 0 {
                assert(slot_ok(lines[1], col));
            } else if row == 1 {
                assert(slot_ok(lines[2], col));
            } else if row == 2 {
                assert(slot_ok(lines[3], col));
            } else {
                assert(slot_ok(lines[4], col));
            }
        }
    }
    assert(crate::text::blank_line(lines[5]));
    assert(block_consumed(lines, 0) == 6);
    let bm = block_model(lines, 0);
    assert forall|d: Direction, c: Card| #[trigger]
        bm.hand_seq(d).contains(c) <==> m.hand_seq(d).contains(c) by {
        let col = crate::cards::dir_index(d);
        let sc1 = slot_cards(lines[1], col, Suit::Spades);
        let sc2 = slot_cards(lines[2], col, Suit::Hearts);
        let sc3 = slot_cards(lines[3], col, Suit::Diamonds);
        let sc4 = slot_cards(lines[4], col, Suit::Clubs);
        assert(bm.hand_seq(d) == sc1 + sc2 + sc3 + sc4) by {
            assert(bm.hand_seq(d) == block_hand(lines, 1, col));
        }
        crate::cards::lemma_concat_contains(sc1, sc2);
        crate::cards::lemma_concat_contains(sc1 + sc2, sc3);
        crate::cards::lemma_concat_contains(sc1 + sc2 + sc3, sc4);
        let hand = m.hand_seq(d);
        assert(sc1.contains(c) <==> c.suit == Suit::Spades && hand.contains(c));
        assert(sc2.contains(c) <==> c.suit == Suit::Hearts && hand.contains(c));
        assert(sc3.contains(c) <==> c.suit == Suit::Diamonds && hand.contains(c));
        assert(sc4.contains(c) <==> c.suit == Suit::Clubs && hand.contains(c));
        assert(c.suit == Suit::Spades || c.suit == Suit::Hearts || c.suit == Suit::Diamonds
            || c.suit == Suit::Clubs);
    }
}

} // verus!
