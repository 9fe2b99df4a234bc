//! The streaming auto-detecting reader: a forward-only pass over the lines
//! of a text, trying the notations in a fixed order on each line and
//! yielding the deals it recognizes.
//!
//! Per line: a blank line is passed over; a single-line record is decoded;
//! a `[Deal "..."]` tag is decoded opportunistically, with no surrounding
//! file structure asked for; a board-number header pulls the next four lines
//! unconditionally as a column-layout block — they cannot be handed back, so
//! a block that then fails to decode ends the sequence silently; anything
//! else is passed over.

use vstd::prelude::*;

use crate::cards::{Deal, DealModel, Direction, Hand, Suit};
use crate::oneline::{oneline_model, oneline_ok, parse_oneline_chars};
use crate::pbn::{parse_pbn_deal_chars, pbn_deal_model, pbn_deal_ok};
use crate::printall::{block_hand, header_number, header_ok, parse_body_line, slot_ok};
use crate::text::{blank_line, chars_of, has_prefix, is_blank, seqs_of, split_lines, trim, trim_seq};

verus! {

/// The deal a `[Deal "..."]` tag line carries, if any: the bracketed body
/// must read `Deal`, a space, and a double-quoted deal value.
pub open spec fn deal_tag_deal(t: Seq<char>) -> Option<DealModel> {
    if t.len() >= 2 && t[0] == '[' && t.last() == ']' {
        let inner = t.subrange(1, t.len() - 1);
        if has_prefix(inner, "Deal "@) {
            let rest = inner.skip(5);
            if rest.len() >= 2 && rest[0] == '"' && rest.last() == '"' {
                let value = rest.subrange(1, rest.len() - 1);
                if pbn_deal_ok(value) {
                    Some(pbn_deal_model(value))
                } else {
                    None
                }
            } else {
                None
            }
        } else {
            None
        }
    } else {
        None
    }
}

/// Reads the deal of one `[Deal "..."]` tag line, given trimmed.
fn parse_deal_tag(t: &Vec<char>) -> (r: Option<Deal>)
    ensures
        r is Some <==> deal_tag_deal(t@) is Some,
        r is Some ==> r->0@ == deal_tag_deal(t@)->0,
{
    if t.len() < 2 {
        return None;
    }
    if t[0] != '[' {
        return None;
    }
    if t[t.len() - 1] != ']' {
        return None;
    }
    let inner = crate::text::subrange_vec(t, 1, t.len() - 1);
    proof {
        assert(inner@ == t@.subrange(1, t@.len() - 1));
    }
    if !crate::text::starts_with_str(&inner, "Deal ") {
        proof {
            reveal_strlit("Deal ");
        }
        return None;
    }
    proof {
        reveal_strlit("Deal ");
    }
    let rest = crate::text::subrange_vec(&inner, 5, inner.len());
    proof {
        assert(rest@ =~= inner@.skip(5));
    }
    if rest.len() < 2 {
        return None;
    }
    if rest[0] != '"' {
        return None;
    }
    if rest[rest.len() - 1] != '"' {
        return None;
    }
    let value = crate::text::subrange_vec(&rest, 1, rest.len() - 1);
    parse_pbn_deal_chars(&value)
}

/// Whether the four lines pulled after a header at `i` all decode.
pub open spec fn pulled_ok(lines: Seq<Seq<char>>, i: int) -> bool {
    forall|row: int, col: int|
        0 <= row < 4 && 0 <= col < 4 ==> #[trigger] slot_ok(lines[i + 1 + row], col)
}

/// The deal of the four lines pulled after a header at `i`.
pub open spec fn pulled_model(lines: Seq<Seq<char>>, i: int) -> DealModel {
    DealModel {
        north: block_hand(lines, i + 1, 0),
        east: block_hand(lines, i + 1, 1),
        south: block_hand(lines, i + 1, 2),
        west: block_hand(lines, i + 1, 3),
    }
}

/// What one pass of the reader does from line `i`: either it emits a deal
/// and stands on the next unread line, or the sequence is over and it
/// stands where it stopped.
pub enum ScanStep {
    Emit(DealModel, int),
    End(int),
}

/// The reader's scan from line `i`: blank and unrecognized lines are passed
/// over; a single-line record, a deal tag or a decodable block emits a deal;
/// a header without four following lines, a block that fails to decode, or
/// the end of input ends the sequence.
pub open spec fn spec_scan(lines: Seq<Seq<char>>, i: int) -> ScanStep
    decreases lines.len() - i,
{
    if i < 0 || i >= lines.len() {
        ScanStep::End(lines.len() as int)
    } else {
        let t = trim_seq(lines[i]);
        if t.len() == 0 {
            spec_scan(lines, i + 1)
        } else if oneline_ok(t) {
            ScanStep::Emit(oneline_model(t), i + 1)
        } else if deal_tag_deal(t) is Some {
            ScanStep::Emit(deal_tag_deal(t)->0, i + 1)
        } else if header_ok(t) {
            if i + 5 <= lines.len() {
                if pulled_ok(lines, i) {
                    ScanStep::Emit(pulled_model(lines, i), i + 5)
                } else {
                    ScanStep::End(i + 5)
                }
            } else {
                ScanStep::End(lines.len() as int)
            }
        } else {
            spec_scan(lines, i + 1)
        }
    }
}

/// A scan only moves forward, and never past the end of input.
pub proof fn lemma_scan_bounds(lines: Seq<Seq<char>>, i: int)
    requires
        0 <= i <= lines.len(),
    ensures
        match spec_scan(lines, i) {
            ScanStep::Emit(m, p) => i < p <= lines.len(),
            ScanStep::End(p) => i <= p <= lines.len(),
        },
    decreases lines.len() - i,
{
    if i < lines.len() {
        let t = trim_seq(lines[i]);
        if t.len() == 0 || !(oneline_ok(t) || deal_tag_deal(t) is Some || header_ok(t)) {
            lemma_scan_bounds(lines, i + 1);
        }
    }
}

/// Every deal the scan emits from line `i` on, in order.
pub open spec fn emitted_deals(lines: Seq<Seq<char>>, i: int) -> Seq<DealModel>
    decreases lines.len() - i when 0 <= i <= lines.len()
    via emitted_deals_decreases
{
    match spec_scan(lines, i) {
        ScanStep::Emit(m, p) => seq![m] + emitted_deals(lines, p),
        ScanStep::End(p) => Seq::empty(),
    }
}

#[via_fn]
proof fn emitted_deals_decreases(lines: Seq<Seq<char>>, i: int) {
    lemma_scan_bounds(lines, i);
}

/// Reads deals from a text, notation detected line by line.
///
/// Unrecognized lines — metadata tags, statistics banners, comments — are
/// passed over without an error, so raw deal-generator output can be fed in
/// whole.
pub struct DealReader {
    pub lines: Vec<Vec<char>>,
    pub pos: usize,
    pub deals_read: usize,
    pub done: bool,
}

impl DealReader {
    /// The lines the reader walks.
    pub open spec fn lines_model(&self) -> Seq<Seq<char>> {
        seqs_of(self.lines)
    }

    /// The reader never stands past its input, and cannot have read more
    /// deals than lines.
    pub open spec fn wf(&self) -> bool {
        self.pos <= self.lines@.len() && self.deals_read <= self.pos
    }

    /// A reader over the lines of the given text, standing on the first.
    pub fn new(input: &str) -> (r: DealReader)
        ensures
            r.lines_model() == crate::text::lines_of(input@),
            r.pos == 0,
            r.deals_read == 0,
            !r.done,
            r.wf(),
    {
        let v = chars_of(input);
        let lines = split_lines(&v);
        DealReader { lines, pos: 0, deals_read: 0, done: false }
    }

    /// How many deals have been read so far.
    pub fn deals_read(&self) -> (n: usize)
        ensures
            n == self.deals_read,
    {
        self.deals_read
    }

    /// How many input lines have been consumed so far.
    pub fn line_number(&self) -> (n: usize)
        ensures
            n == self.pos,
    {
        self.pos
    }

    /// Reads the next deal, consuming lines until one is recognized; `None`
    /// once the sequence is over, and on every call after that.
    pub fn next_deal(&mut self) -> (r: Option<Deal>)
        requires
            old(self).wf(),
        ensures
            final(self).wf(),
            final(self).lines == old(self).lines,
            final(self).deals_read <= old(self).deals_read + 1,
            old(self).done ==> r is None && *final(self) == *old(self),
            !old(self).done ==> match spec_scan(old(self).lines_model(), old(self).pos as int) {
                ScanStep::Emit(m, p) => {
                    &&& r is Some
                    &&& r->0@ == m
                    &&& final(self).pos == p
                    &&& final(self).deals_read == old(self).deals_read + 1
                    &&& !final(self).done
                },
                ScanStep::End(p) => {
                    &&& r is None
                    &&& final(self).pos == p
                    &&& final(self).deals_read == old(self).deals_read
                    &&& final(self).done
                },
            },
    {
        if self.done {
            return None;
        }
        let ghost gl = self.lines_model();
        let ghost pos0 = self.pos as int;
        while self.pos < self.lines.len()
            invariant
                self.lines == old(self).lines,
                gl == self.lines_model(),
                gl == old(self).lines_model(),
                pos0 == old(self).pos as int,
                pos0 <= self.pos as int <= gl.len(),
                self.deals_read == old(self).deals_read <= pos0,
                !self.done,
                !old(self).done,
                spec_scan(gl, pos0) == spec_scan(gl, self.pos as int),
            decreases self.lines.len() - self.pos,
        {
            let t = trim(&self.lines[self.pos]);
            if t.len() == 0 {
                self.pos += 1;
                continue;
            }
            match parse_oneline_chars(&t) {
                Ok(deal) => {
                    self.pos += 1;
                    self.deals_read += 1;
                    return Some(deal);
                },
                Err(_) => {},
            }
            match parse_deal_tag(&t) {
                Some(deal) => {
                    self.pos += 1;
                    self.deals_read += 1;
                    return Some(deal);
                },
                None => {},
            }
            if header_number(&t).is_some() {
                if self.lines.len() - self.pos < 5 {
                    self.pos = self.lines.len();
                    self.done = true;
                    return None;
                }
                let ghost h = self.pos as int;
                let mut hn: Vec<crate::cards::Card> = Vec::new();
                let mut he: Vec<crate::cards::Card> = Vec::new();
                let mut hs: Vec<crate::cards::Card> = Vec::new();
                let mut hw: Vec<crate::cards::Card> = Vec::new();
                let ok1 = parse_body_line(
                    &self.lines[self.pos + 1],
                    Suit::Spades,
                    &mut hn,
                    &mut he,
                    &mut hs,
                    &mut hw,
                );
                let ok2 = ok1 && parse_body_line(
                    &self.lines[self.pos + 2],
                    Suit::Hearts,
                    &mut hn,
                    &mut he,
                    &mut hs,
                    &mut hw,
                );
                let ok3 = ok2 && parse_body_line(
                    &self.lines[self.pos + 3],
                    Suit::Diamonds,
                    &mut hn,
                    &mut he,
                    &mut hs,
                    &mut hw,
                );
                let ok4 = ok3 && parse_body_line(
                    &self.lines[self.pos + 4],
                    Suit::Clubs,
                    &mut hn,
                    &mut he,
                    &mut hs,
                    &mut hw,
                );
                if !ok4 {
                    proof {
                        assert(!pulled_ok(gl, h)) by {
                            if pulled_ok(gl, h) {
                                assert forall|row: int, col: int|
                                    0 <= row < 4 && 0 <= col < 4 implies #[trigger] slot_ok(
                                    self.lines@[h + 1 + row]@,
                                    col,
                                ) by {
                                    assert(slot_ok(gl[h + 1 + row], col));
                                }
                                assert(h + 1 + 0 == h + 1 && h + 1 + 1 == h + 2 && h + 1 + 2 == h
                                    + 3 && h + 1 + 3 == h + 4);
                            }
                        }
                    }
                    self.pos += 5;
                    self.done = true;
                    return None;
                }
                let mut deal = Deal::new();
                deal.set_hand(Direction::North, Hand::from_cards(hn));
                deal.set_hand(Direction::East, Hand::from_cards(he));
                deal.set_hand(Direction::South, Hand::from_cards(hs));
                deal.set_hand(Direction::West, Hand::from_cards(hw));
                proof {
                    assert(deal@ =~= pulled_model(gl, h));
                }
                self.pos += 5;
                self.deals_read += 1;
                return Some(deal);
            }
            self.pos += 1;
        }
        self.done = true;
        None
    }

    /// Reads every remaining deal, in order; nothing once the sequence is
    /// over.
    pub fn read_all(&mut self) -> (deals: Vec<Deal>)
        requires
            old(self).wf(),
        ensures
            final(self).wf(),
            old(self).done ==> deals@.len() == 0,
            !old(self).done ==> crate::printall::models_of(deals) == emitted_deals(
                old(self).lines_model(),
                old(self).pos as int,
            ),
    {
        let ghost gl = self.lines_model();
        let mut deals: Vec<Deal> = Vec::new();
        if self.done {
            return deals;
        }
        proof {
            lemma_scan_bounds(gl, self.pos as int);
        }
        loop
            invariant
                self.wf(),
                gl == self.lines_model(),
                self.pos <= gl.len(),
                !self.done,
                !old(self).done,
                crate::printall::models_of(deals) + emitted_deals(gl, self.pos as int)
                    == emitted_deals(old(self).lines_model(), old(self).pos as int),
            decreases gl.len() - self.pos + 1,
        {
            let ghost pre_pos = self.pos as int;
            let ghost pre = crate::printall::models_of(deals);
            proof {
                lemma_scan_bounds(gl, pre_pos);
            }
            match self.next_deal() {
                Some(deal) => {
                    deals.push(deal);
                    proof {
                        assert(crate::printall::models_of(deals) =~= pre.push(deal@));
                        assert(crate::printall::models_of(deals) + emitted_deals(
                            gl,
                            self.pos as int,
                        ) =~= pre + emitted_deals(gl, pre_pos));
                    }
                },
                None => {
                    proof {
                        assert(emitted_deals(gl, pre_pos) =~= Seq::<DealModel>::empty());
                        assert(crate::printall::models_of(deals) =~= pre + emitted_deals(
                            gl,
                            pre_pos,
                        ));
                    }
                    return deals;
                },
            }
        }
    }
}

/// Whether a line is a board-number header, `"   1."`: it ends in a dot
/// and, with the trailing dots gone, is a plain non-negative number.
pub fn is_board_number_line(line: &str) -> (b: bool)
    ensures
        b == header_ok(line@),
{
    let v = chars_of(line);
    header_number(&v).is_some()
}


/// The records of a sequence of lines, each read directly on its own.
pub open spec fn oneline_records(lines: Seq<Seq<char>>, i: int) -> Seq<DealModel>
    decreases lines.len() - i,
{
    if i < 0 || i >= lines.len() {
        Seq::empty()
    } else if oneline_ok(lines[i]) {
        seq![oneline_model(lines[i])] + oneline_records(lines, i + 1)
    } else {
        oneline_records(lines, i + 1)
    }
}

/// Over an input of nothing but blank lines and valid single-line records,
/// the reader emits one deal per record, in order, and each emitted deal is
/// exactly what decoding that line directly yields.
pub proof fn lemma_oneline_stream(lines: Seq<Seq<char>>, i: int)
    requires
        0 <= i <= lines.len(),
        forall|k: int|
            i <= k < lines.len() ==> #[trigger] blank_line(lines[k]) || oneline_ok(lines[k]),
    ensures
        emitted_deals(lines, i) == oneline_records(lines, i),
    decreases lines.len() - i,
{
    if i < lines.len() {
        let t = trim_seq(lines[i]);
        crate::oneline::lemma_oneline_trim(lines[i]);
        crate::text::lemma_trim_all_space(lines[i]);
        lemma_oneline_stream(lines, i + 1);
        if oneline_ok(lines[i]) {
            assert(t.len() > 0) by {
                if blank_line(lines[i]) {
                    crate::text::lemma_fields_trim(lines[i]);
                    crate::text::lemma_fields_space_tail(
                        lines[i],
                        0,
                        Seq::empty(),
                        Seq::empty(),
                    );
                }
            }
            assert(spec_scan(lines, i) == ScanStep::Emit(oneline_model(lines[i]), i + 1));
        } else {
            assert(blank_line(lines[i]));
            assert(t.len() == 0);
            assert(spec_scan(lines, i) == spec_scan(lines, i + 1));
            assert(emitted_deals(lines, i) == emitted_deals(lines, i + 1));
        }
    }
}

/// A statistics banner — a line opening with `Generated `, `Produced `,
/// `Initial ` or `Time ` — never contributes an emitted deal and never ends
/// the sequence: the reader's scan passes straight over it.
pub proof fn lemma_banner_line_skipped(lines: Seq<Seq<char>>, i: int)
    requires
        0 <= i < lines.len(),
        has_prefix(lines[i], "Generated "@) || has_prefix(lines[i], "Produced "@) || has_prefix(
            lines[i],
            "Initial "@,
        ) || has_prefix(lines[i], "Time "@),
    ensures
        spec_scan(lines, i) == spec_scan(lines, i + 1),
        emitted_deals(lines, i) == emitted_deals(lines, i + 1),
{
    reveal_strlit("Generated ");
    reveal_strlit("Produced ");
    reveal_strlit("Initial ");
    reveal_strlit("Time ");
    let s = lines[i];
    let c0 = s[0];
    let c1 = s[1];
    if has_prefix(s, "Generated "@) {
        assert(s.len() >= 10);
        assert(s.take(10)[0] == s[0] && s.take(10)[1] == s[1]);
        assert(c0 == 'G' && c1 == 'e');
    } else if has_prefix(s, "Produced "@) {
        assert(s.len() >= 9);
        assert(s.take(9)[0] == s[0] && s.take(9)[1] == s[1]);
        assert(c0 == 'P' && c1 == 'r');
    } else if has_prefix(s, "Initial "@) {
        assert(s.len() >= 8);
        assert(s.take(8)[0] == s[0] && s.take(8)[1] == s[1]);
        assert(c0 == 'I' && c1 == 'n');
    } else {
        assert(s.len() >= 5);
        assert(s.take(5)[0] == s[0] && s.take(5)[1] == s[1]);
        assert(c0 == 'T' && c1 == 'i');
    }
    assert(s.len() >= 5);
    assert(c0 == 'G' || c0 == 'P' || c0 == 'I' || c0 == 'T');
    assert(!crate::text::is_space(c0) && !crate::text::is_space(c1));
    let t = trim_seq(s);
    crate::text::lemma_start_idx(s, 0);
    crate::text::lemma_end_idx(s, s.len() as int);
    let b = crate::text::end_idx(s, s.len() as int);
    assert(b >= 2) by {
        if b <= 1 {
            assert(crate::text::is_space(s[1]));
        }
    }
    assert(t == s.subrange(0, b));
    assert(t.len() >= 2 && t[0] == c0 && t[1] == c1);

    // not a single-line record: its first field has at least two characters
    assert(!oneline_ok(t)) by {
        let e = Seq::<char>::empty();
        let ea = Seq::<Seq<char>>::empty();
        assert(crate::text::fields_of(t) == crate::text::fields_from(t, 1, e.push(c0), ea));
        assert(crate::text::fields_from(t, 1, e.push(c0), ea) == crate::text::fields_from(
            t,
            2,
            e.push(c0).push(c1),
            ea,
        ));
        assert(e.push(c0).push(c1) =~= seq![c0, c1]);
        crate::text::lemma_fields_first(t, 2, seq![c0, c1], ea);
        let ps = crate::text::fields_of(t);
        assert(ps.len() > 0 && ps[0].len() >= 2);
    }

    // not a deal tag: it does not open with a bracket
    assert(deal_tag_deal(t) is None);

    // not a block header: with the trailing dots gone it opens with a letter
    assert(!header_ok(t)) by {
        let u = crate::printall::dotless(trim_seq(t));
        assert(trim_seq(t) == t) by {
            crate::text::lemma_start_idx(t, 0);
            crate::text::lemma_end_idx(t, t.len() as int);
            assert(crate::text::trim_seq(t) =~= t.subrange(0, t.len() as int));
            assert(t.subrange(0, t.len() as int) =~= t);
        }
        crate::printall::lemma_dotless_prefix(t);
        assert(u.len() >= 1 && u[0] == c0);
        let w = trim_seq(u);
        crate::text::lemma_start_idx(u, 0);
        crate::text::lemma_end_idx(u, u.len() as int);
        assert(crate::text::end_idx(u, u.len() as int) >= 1) by {
            if crate::text::end_idx(u, u.len() as int) < 1 {
                assert(crate::text::is_space(u[0]));
            }
        }
        assert(w.len() >= 1 && w[0] == c0);
        assert(!crate::text::is_digit(w[0]));
        assert(crate::text::parse_usize_seq(w) is None);
    }

    assert(spec_scan(lines, i) == spec_scan(lines, i + 1));
}

} // verus!
