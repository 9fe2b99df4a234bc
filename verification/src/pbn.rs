//! The tag-based board notation: one `[TagName "value"]` pair per line, a
//! blank line between boards, `{...}` spans as opaque commentary, and `%` or
//! `;` lines as directives and comments.

use vstd::prelude::*;
use vstd::string::StringExecFns;

use crate::cards::{
    dir_char, dir_from_char, dir_index, dir_of_index, Card, Deal, DealModel,
    Direction, Hand, Vulnerability,
};
use crate::error::ParseError;
use crate::oneline::{hand_text, hand_token_cards, hand_token_ok, parse_hand, push_hand_text};
use crate::text::{
    chars_of, digits, fields, fields_of, parse_usize_chars, parse_usize_seq, spec_digits,
    split_lines,
    string_of, subrange_vec, to_upper, trim, trim_seq, upper_char,
};

verus! {

/// The mathematical model of a tag pair.
#[verifier::ext_equal]
pub struct TagModel {
    pub name: Seq<char>,
    pub value: Seq<char>,
}

/// One parsed tag pair: its name and its quoted value.
#[derive(Debug, Clone)]
pub struct TagPair {
    pub name: String,
    pub value: String,
}

impl View for TagPair {
    type V = TagModel;

    open spec fn view(&self) -> TagModel {
        TagModel { name: self.name@, value: self.value@ }
    }
}

/// The first position at or after `i` holding a plain space.
pub open spec fn find_space(s: Seq<char>, i: int) -> int
    decreases s.len() - i,
{
    if 0 <= i < s.len() {
        if s[i] == ' ' {
            i
        } else {
            find_space(s, i + 1)
        }
    } else {
        i
    }
}

pub proof fn lemma_find_space(s: Seq<char>, i: int)
    requires
        0 <= i <= s.len(),
    ensures
        i <= find_space(s, i) <= s.len(),
        forall|k: int| i <= k < find_space(s, i) ==> s[k] != ' ',
        find_space(s, i) < s.len() ==> s[find_space(s, i)] == ' ',
    decreases s.len() - i,
{
    if i < s.len() && s[i] != ' ' {
        lemma_find_space(s, i + 1);
    }
}

/// The tag pair a line spells: in brackets after trimming, a name before
/// the first space, then a double-quoted value; `None` for anything else.
pub open spec fn tag_of(line: Seq<char>) -> Option<TagModel> {
    let t = trim_seq(line);
    if t.len() >= 2 && t[0] == '[' && t.last() == ']' {
        let inner = t.subrange(1, t.len() - 1);
        let sp = find_space(inner, 0);
        if sp < inner.len() {
            let name = trim_seq(inner.take(sp));
            let rest = trim_seq(inner.skip(sp));
            if rest.len() >= 2 && rest[0] == '"' && rest.last() == '"' {
                Some(TagModel { name, value: rest.subrange(1, rest.len() - 1) })
            } else {
                None
            }
        } else {
            None
        }
    } else {
        None
    }
}

/// Reads one `[TagName "value"]` line; `None` where the line is not a
/// well-formed tag pair.
pub fn parse_tag_pair(line: &str) -> (r: Option<TagPair>)
    ensures
        match r {
            Some(tag) => tag_of(line@) is Some && tag@ == tag_of(line@)->0,
            None => tag_of(line@) is None,
        },
{
    let v = chars_of(line);
    let t = trim(&v);
    if t.len() < 2 {
        return None;
    }
    if t[0] != '[' {
        return None;
    }
    if t[t.len() - 1] != ']' {
        return None;
    }
    let inner = subrange_vec(&t, 1, t.len() - 1);
    proof {
        lemma_find_space(inner@, 0);
    }
    let mut sp: usize = 0;
    while sp < inner.len() && inner[sp] != ' '
        invariant
            0 <= sp <= inner@.len(),
            find_space(inner@, 0) == find_space(inner@, sp as int),
        decreases inner.len() - sp,
    {
        sp += 1;
    }
    proof {
        assert(find_space(inner@, sp as int) == sp);
    }
    if sp >= inner.len() {
        return None;
    }
    let name_part = subrange_vec(&inner, 0, sp);
    let name = trim(&name_part);
    let rest_part = subrange_vec(&inner, sp, inner.len());
    let rest = trim(&rest_part);
    proof {
        assert(name_part@ =~= inner@.take(sp as int));
        assert(rest_part@ =~= inner@.skip(sp as int));
    }
    if rest.len() < 2 {
        return None;
    }
    if rest[0] != '"' {
        return None;
    }
    if rest[rest.len() - 1] != '"' {
        return None;
    }
    let value = subrange_vec(&rest, 1, rest.len() - 1);
    Some(TagPair { name: string_of(&name), value: string_of(&value) })
}

/// Whether a deal value can be read: a direction letter, a colon, then four
/// whitespace-separated hand tokens.
pub open spec fn pbn_deal_ok(s: Seq<char>) -> bool {
    let hs = fields_of(s.skip(2));
    s.len() >= 2 && dir_from_char(upper_char(s[0])) is Some && s[1] == ':' && hs.len() == 4
        && hand_token_ok(hs[0]) && hand_token_ok(hs[1]) && hand_token_ok(hs[2]) && hand_token_ok(
        hs[3],
    )
}

/// The deal a deal value spells: the named direction takes the first hand,
/// and the rest follow clockwise.
pub open spec fn pbn_deal_model(s: Seq<char>) -> DealModel {
    let d0 = dir_from_char(upper_char(s[0]))->0;
    let d1 = dir_of_index((dir_index(d0) + 1) % 4);
    let d2 = dir_of_index((dir_index(d1) + 1) % 4);
    let d3 = dir_of_index((dir_index(d2) + 1) % 4);
    let hs = fields_of(s.skip(2));
    DealModel::empty().with_hand(d0, hand_token_cards(hs[0])).with_hand(
        d1,
        hand_token_cards(hs[1]),
    ).with_hand(d2, hand_token_cards(hs[2])).with_hand(d3, hand_token_cards(hs[3]))
}

/// Reads a deal value, `"N:hand hand hand hand"`.
pub(crate) fn parse_pbn_deal_chars(v: &Vec<char>) -> (r: Option<Deal>)
    ensures
        r is Some <==> pbn_deal_ok(v@),
        r is Some ==> r->0@ == pbn_deal_model(v@),
{
    if v.len() < 2 {
        return None;
    }
    let d0 = match Direction::from_char(to_upper(v[0])) {
        Some(d) => d,
        None => {
            return None;
        },
    };
    if v[1] != ':' {
        return None;
    }
    let rest = subrange_vec(v, 2, v.len());
    proof {
        assert(rest@ =~= v@.skip(2));
    }
    let hs = fields(&rest);
    if hs.len() != 4 {
        return None;
    }
    let h0 = match parse_hand(&hs[0]) {
        Some(h) => h,
        None => {
            return None;
        },
    };
    let h1 = match parse_hand(&hs[1]) {
        Some(h) => h,
        None => {
            return None;
        },
    };
    let h2 = match parse_hand(&hs[2]) {
        Some(h) => h,
        None => {
            return None;
        },
    };
    let h3 = match parse_hand(&hs[3]) {
        Some(h) => h,
        None => {
            return None;
        },
    };
    let d1 = d0.clockwise();
    let d2 = d1.clockwise();
    let d3 = d2.clockwise();
    let mut deal = Deal::new();
    deal.set_hand(d0, h0);
    deal.set_hand(d1, h1);
    deal.set_hand(d2, h2);
    deal.set_hand(d3, h3);
    proof {
        assert(deal@ =~= pbn_deal_model(v@));
    }
    Some(deal)
}

/// The deal value's text for a deal, starting from the given direction.
pub open spec fn pbn_deal_text(m: DealModel, first: Direction) -> Seq<char> {
    let d1 = dir_of_index((dir_index(first) + 1) % 4);
    let d2 = dir_of_index((dir_index(d1) + 1) % 4);
    let d3 = dir_of_index((dir_index(d2) + 1) % 4);
    seq![dir_char(first), ':'] + hand_text(m.hand_seq(first)) + seq![' '] + hand_text(
        m.hand_seq(d1),
    ) + seq![' '] + hand_text(m.hand_seq(d2)) + seq![' '] + hand_text(m.hand_seq(d3))
}

impl Deal {
    /// Reads a deal from a deal value, `"N:hand hand hand hand"`: the named
    /// direction takes the first hand and the rest follow clockwise.
    pub fn from_pbn(value: &str) -> (r: Option<Deal>)
        ensures
            r is Some <==> pbn_deal_ok(value@),
            r is Some ==> r->0@ == pbn_deal_model(value@),
    {
        let v = chars_of(value);
        parse_pbn_deal_chars(&v)
    }

    /// Writes the deal as a deal value, starting from the given direction.
    pub fn to_pbn(&self, first: Direction) -> (r: String)
        ensures
            r@ == pbn_deal_text(self@, first),
    {
        let mut out: Vec<char> = Vec::new();
        out.push(first.to_char());
        out.push(':');
        push_hand_text(self.hand(first), &mut out);
        let d1 = first.clockwise();
        out.push(' ');
        push_hand_text(self.hand(d1), &mut out);
        let d2 = d1.clockwise();
        out.push(' ');
        push_hand_text(self.hand(d2), &mut out);
        let d3 = d2.clockwise();
        out.push(' ');
        push_hand_text(self.hand(d3), &mut out);
        proof {
            assert(out@ =~= pbn_deal_text(self@, first));
        }
        string_of(&out)
    }
}

/// The vulnerability a tag value names; an unrecognized value reads as none.
pub open spec fn vul_pbn_of(s: Seq<char>) -> Vulnerability {
    if s == "None"@ || s == "Love"@ || s == "-"@ {
        Vulnerability::Neither
    } else if s == "NS"@ {
        Vulnerability::NorthSouth
    } else if s == "EW"@ {
        Vulnerability::EastWest
    } else if s == "All"@ || s == "Both"@ {
        Vulnerability::Both
    } else {
        Vulnerability::Neither
    }
}

/// The tag value that names a vulnerability.
pub open spec fn vul_pbn_text(v: Vulnerability) -> Seq<char> {
    match v {
        Vulnerability::Neither => "None"@,
        Vulnerability::NorthSouth => "NS"@,
        Vulnerability::EastWest => "EW"@,
        Vulnerability::Both => "All"@,
    }
}

impl Vulnerability {
    /// Reads a vulnerability tag value; an unrecognized value reads as none.
    pub fn from_pbn(value: &str) -> (r: Vulnerability)
        ensures
            r == vul_pbn_of(value@),
    {
        let v = chars_of(value);
        if crate::text::chars_eq_str(&v, "None") || crate::text::chars_eq_str(&v, "Love")
            || crate::text::chars_eq_str(&v, "-") {
            Vulnerability::Neither
        } else if crate::text::chars_eq_str(&v, "NS") {
            Vulnerability::NorthSouth
        } else if crate::text::chars_eq_str(&v, "EW") {
            Vulnerability::EastWest
        } else if crate::text::chars_eq_str(&v, "All") || crate::text::chars_eq_str(&v, "Both") {
            Vulnerability::Both
        } else {
            Vulnerability::Neither
        }
    }

    /// Writes the vulnerability as its tag value.
    pub fn to_pbn(&self) -> (r: &'static str)
        ensures
            r@ == vul_pbn_text(*self),
    {
        match self {
            Vulnerability::Neither => "None",
            Vulnerability::NorthSouth => "NS",
            Vulnerability::EastWest => "EW",
            Vulnerability::Both => "All",
        }
    }
}

/// The mathematical model of a board record.
#[verifier::ext_equal]
pub struct BoardModel {
    pub number: Option<u32>,
    pub dealer: Option<Direction>,
    pub vulnerable: Vulnerability,
    pub deal: DealModel,
    pub event: Option<Seq<char>>,
    pub site: Option<Seq<char>>,
    pub date: Option<Seq<char>>,
    pub double_dummy_tricks: Option<Seq<char>>,
    pub optimum_score: Option<Seq<char>>,
    pub par_contract: Option<Seq<char>>,
}

impl BoardModel {
    /// A board with nothing set.
    pub open spec fn init() -> BoardModel {
        BoardModel {
            number: None,
            dealer: None,
            vulnerable: Vulnerability::Neither,
            deal: DealModel::empty(),
            event: None,
            site: None,
            date: None,
            double_dummy_tricks: None,
            optimum_score: None,
            par_contract: None,
        }
    }
}

/// One board record, as read from or written to the tag-based notation.
#[derive(Debug, Clone)]
pub struct Board {
    pub number: Option<u32>,
    pub dealer: Option<Direction>,
    pub vulnerable: Vulnerability,
    pub deal: Deal,
    pub event: Option<String>,
    pub site: Option<String>,
    pub date: Option<String>,
    pub double_dummy_tricks: Option<String>,
    pub optimum_score: Option<String>,
    pub par_contract: Option<String>,
}

pub open spec fn opt_str_view(o: Option<String>) -> Option<Seq<char>> {
    match o {
        Some(s) => Some(s@),
        None => None,
    }
}

impl View for Board {
    type V = BoardModel;

    open spec fn view(&self) -> BoardModel {
        BoardModel {
            number: self.number,
            dealer: self.dealer,
            vulnerable: self.vulnerable,
            deal: self.deal@,
            event: opt_str_view(self.event),
            site: opt_str_view(self.site),
            date: opt_str_view(self.date),
            double_dummy_tricks: opt_str_view(self.double_dummy_tricks),
            optimum_score: opt_str_view(self.optimum_score),
            par_contract: opt_str_view(self.par_contract),
        }
    }
}

impl Board {
    /// A board with nothing set.
    pub fn new() -> (b: Board)
        ensures
            b@ == BoardModel::init(),
    {
        let b = Board {
            number: None,
            dealer: None,
            vulnerable: Vulnerability::Neither,
            deal: Deal::new(),
            event: None,
            site: None,
            date: None,
            double_dummy_tricks: None,
            optimum_score: None,
            par_contract: None,
        };
        proof {
            assert(b@ =~= BoardModel::init());
        }
        b
    }

    pub fn with_number(self, number: u32) -> (b: Board)
        ensures
            b@ == (BoardModel { number: Some(number), ..self@ }),
    {
        let b = Board { number: Some(number), ..self };
        proof {
            assert(b@ =~= (BoardModel { number: Some(number), ..self@ }));
        }
        b
    }

    pub fn with_dealer(self, dealer: Direction) -> (b: Board)
        ensures
            b@ == (BoardModel { dealer: Some(dealer), ..self@ }),
    {
        let b = Board { dealer: Some(dealer), ..self };
        proof {
            assert(b@ =~= (BoardModel { dealer: Some(dealer), ..self@ }));
        }
        b
    }

    pub fn with_vulnerability(self, vulnerable: Vulnerability) -> (b: Board)
        ensures
            b@ == (BoardModel { vulnerable, ..self@ }),
    {
        let b = Board { vulnerable, ..self };
        proof {
            assert(b@ =~= (BoardModel { vulnerable, ..self@ }));
        }
        b
    }

    pub fn with_deal(self, deal: Deal) -> (b: Board)
        ensures
            b@ == (BoardModel { deal: deal@, ..self@ }),
    {
        let ghost pre = self@;
        let b = Board { deal, ..self };
        proof {
            assert(b@ =~= (BoardModel { deal: b.deal@, ..pre }));
        }
        b
    }
}

/// The number a tag value names, where it is a plain decimal that fits in a
/// `u32`.
pub open spec fn board_number_of(s: Seq<char>) -> Option<u32> {
    if parse_usize_seq(s) is Some && parse_usize_seq(s)->0 <= u32::MAX {
        Some(parse_usize_seq(s)->0 as u32)
    } else {
        None
    }
}

/// One tag applied to the board being gathered; an unrecognized tag, or a
/// value that cannot be read, leaves the board as it was.
pub open spec fn apply_tag(b: BoardModel, tag: TagModel) -> BoardModel {
    if tag.name == "Board"@ {
        match board_number_of(tag.value) {
            Some(n) => BoardModel { number: Some(n), ..b },
            None => b,
        }
    } else if tag.name == "Dealer"@ {
        if tag.value.len() > 0 {
            BoardModel { dealer: dir_from_char(tag.value[0]), ..b }
        } else {
            b
        }
    } else if tag.name == "Vulnerable"@ {
        BoardModel { vulnerable: vul_pbn_of(tag.value), ..b }
    } else if tag.name == "Deal"@ {
        if pbn_deal_ok(tag.value) {
            BoardModel { deal: pbn_deal_model(tag.value), ..b }
        } else {
            b
        }
    } else if tag.name == "Event"@ {
        if tag.value.len() > 0 {
            BoardModel { event: Some(tag.value), ..b }
        } else {
            b
        }
    } else if tag.name == "Site"@ {
        if tag.value.len() > 0 {
            BoardModel { site: Some(tag.value), ..b }
        } else {
            b
        }
    } else if tag.name == "Date"@ {
        if tag.value.len() > 0 {
            BoardModel { date: Some(tag.value), ..b }
        } else {
            b
        }
    } else if tag.name == "DoubleDummyTricks"@ {
        BoardModel { double_dummy_tricks: Some(tag.value), ..b }
    } else if tag.name == "OptimumScore"@ {
        BoardModel { optimum_score: Some(tag.value), ..b }
    } else if tag.name == "ParContract"@ {
        BoardModel { par_contract: Some(tag.value), ..b }
    } else {
        b
    }
}

#[verifier::rlimit(100)]
fn apply_tag_to_board(b: Board, tag: &TagPair) -> (r: Board)
    ensures
        r@ == apply_tag(b@, tag@),
{
    let ghost pre = b@;
    let mut board = b;
    let name = chars_of(tag.name.as_str());
    if crate::text::chars_eq_str(&name, "Board") {
        let num = chars_of(tag.value.as_str());
        match parse_usize_chars(&num) {
            Some(n) if n <= u32::MAX as usize => {
                board.number = Some(n as u32);
            },
            _ => {},
        }
        proof {
            assert(board@ =~~= apply_tag(pre, tag@));
        }
    } else if crate::text::chars_eq_str(&name, "Dealer") {
        let v = chars_of(tag.value.as_str());
        if v.len() > 0 {
            board.dealer = Direction::from_char(v[0]);
        }
        proof {
            assert(board@ =~~= apply_tag(pre, tag@));
        }
    } else if crate::text::chars_eq_str(&name, "Vulnerable") {
        board.vulnerable = Vulnerability::from_pbn(tag.value.as_str());
    } else if crate::text::chars_eq_str(&name, "Deal") {
        match Deal::from_pbn(tag.value.as_str()) {
            Some(deal) => {
                board.deal = deal;
            },
            None => {},
        }
    } else if crate::text::chars_eq_str(&name, "Event") {
        let val = chars_of(tag.value.as_str());
        if val.len() > 0 {
            board.event = Some(string_of(&val));
        }
    } else if crate::text::chars_eq_str(&name, "Site") {
        let val = chars_of(tag.value.as_str());
        if val.len() > 0 {
            board.site = Some(string_of(&val));
        }
    } else if crate::text::chars_eq_str(&name, "Date") {
        let val = chars_of(tag.value.as_str());
        if val.len() > 0 {
            board.date = Some(string_of(&val));
        }
    } else if crate::text::chars_eq_str(&name, "DoubleDummyTricks") {
        board.double_dummy_tricks = Some(String::from_str(tag.value.as_str()));
    } else if crate::text::chars_eq_str(&name, "OptimumScore") {
        board.optimum_score = Some(String::from_str(tag.value.as_str()));
    } else if crate::text::chars_eq_str(&name, "ParContract") {
        board.par_contract = Some(String::from_str(tag.value.as_str()));
    }
    proof {
        assert(board@ =~~= apply_tag(pre, tag@));
    }
    board
}

/// Whether a sequence holds the given character.
pub open spec fn seq_has_char(s: Seq<char>, c: char) -> bool {
    exists|k: int| 0 <= k < s.len() && s[k] == c
}

fn has_char(v: &Vec<char>, c: char) -> (b: bool)
    ensures
        b == seq_has_char(v@, c),
{
    let mut i: usize = 0;
    while i < v.len()
        invariant
            0 <= i <= v@.len(),
            forall|k: int| 0 <= k < i ==> v@[k] != c,
        decreases v.len() - i,
    {
        if v[i] == c {
            return true;
        }
        i += 1;
    }
    false
}

/// The reader's state while gathering boards.
#[verifier::ext_equal]
pub struct PbnState {
    pub boards: Seq<BoardModel>,
    pub cur: BoardModel,
    pub has_content: bool,
    pub in_commentary: bool,
}

impl PbnState {
    pub open spec fn init() -> PbnState {
        PbnState {
            boards: Seq::empty(),
            cur: BoardModel::init(),
            has_content: false,
            in_commentary: false,
        }
    }
}

/// One line applied to the reader's state: commentary spans are skipped
/// whole, a blank line closes a gathered board, comment and directive lines
/// are passed over, and a tag line is applied to the board being gathered.
pub open spec fn pbn_step(st: PbnState, line: Seq<char>) -> PbnState {
    let t = trim_seq(line);
    if st.in_commentary {
        if seq_has_char(t, '}') {
            PbnState { in_commentary: false, ..st }
        } else {
            st
        }
    } else if t.len() > 0 && t[0] == '{' {
        if !seq_has_char(t, '}') {
            PbnState { in_commentary: true, ..st }
        } else {
            st
        }
    } else if t.len() == 0 {
        if st.has_content {
            PbnState { boards: st.boards.push(st.cur), cur: BoardModel::init(), has_content: false, ..st }
        } else {
            st
        }
    } else if t[0] == ';' || t[0] == '%' {
        st
    } else if t[0] == '[' {
        match tag_of(t) {
            Some(tag) => PbnState { cur: apply_tag(st.cur, tag), has_content: true, ..st },
            None => st,
        }
    } else {
        st
    }
}

/// The boards gathered from the lines from `i` on: each line applied in
/// turn, and a board still being gathered at the end kept.
pub open spec fn pbn_boards(lines: Seq<Seq<char>>, i: int, st: PbnState) -> Seq<BoardModel>
    decreases lines.len() - i,
{
    if i < 0 || i >= lines.len() {
        if st.has_content {
            st.boards.push(st.cur)
        } else {
            st.boards
        }
    } else {
        pbn_boards(lines, i + 1, pbn_step(st, lines[i]))
    }
}

/// The board models of a vector of boards.
pub open spec fn board_models_of(v: Vec<Board>) -> Seq<BoardModel> {
    Seq::new(v@.len() as nat, |i: int| v@[i]@)
}

/// Reads every board of a tag-based text.  Never fails: a malformed line is
/// ignored at the single-line granularity.
pub fn read_pbn(content: &str) -> (r: Result<Vec<Board>, ParseError>)
    ensures
        r is Ok,
        board_models_of(r->Ok_0) == pbn_boards(crate::text::lines_of(content@), 0, PbnState::init()),
{
    let v = chars_of(content);
    let lines = split_lines(&v);
    let ghost gl = crate::text::seqs_of(lines);
    let mut boards: Vec<Board> = Vec::new();
    let mut cur = Board::new();
    let mut has_content = false;
    let mut in_commentary = false;
    proof {
        let st0 = PbnState {
            boards: board_models_of(boards),
            cur: cur@,
            has_content: has_content,
            in_commentary: in_commentary,
        };
        assert(st0 =~= PbnState::init());
    }
    let mut i: usize = 0;
    while i < lines.len()
        invariant
            0 <= i <= lines@.len(),
            gl == crate::text::seqs_of(lines),
            pbn_boards(gl, 0, PbnState::init()) == pbn_boards(
                gl,
                i as int,
                PbnState {
                    boards: board_models_of(boards),
                    cur: cur@,
                    has_content: has_content,
                    in_commentary: in_commentary,
                },
            ),
        decreases lines.len() - i,
    {
        let ghost pre = PbnState {
            boards: board_models_of(boards),
            cur: cur@,
            has_content: has_content,
            in_commentary: in_commentary,
        };
        let t = trim(&lines[i]);
        if in_commentary {
            if has_char(&t, '}') {
                in_commentary = false;
            }
        } else if t.len() > 0 && t[0] == '{' {
            if !has_char(&t, '}') {
                in_commentary = true;
            }
        } else if t.len() == 0 {
            if has_content {
                let ghost preb = board_models_of(boards);
                boards.push(cur);
                cur = Board::new();
                has_content = false;
                proof {
                    assert(board_models_of(boards) =~= preb.push(pre.cur));
                }
            }
        } else if t[0] == ';' || t[0] == '%' {
        } else if t[0] == '[' {
            let line = string_of(&t);
            match parse_tag_pair(line.as_str()) {
                Some(tag) => {
                    cur = apply_tag_to_board(cur, &tag);
                    has_content = true;
                },
                None => {},
            }
        }
        i += 1;
        proof {
            let st_now = PbnState {
                boards: board_models_of(boards),
                cur: cur@,
                has_content: has_content,
                in_commentary: in_commentary,
            };
            assert(st_now =~= pbn_step(pre, gl[i - 1]));
        }
    }
    if has_content {
        let ghost preb = board_models_of(boards);
        boards.push(cur);
        proof {
            assert(board_models_of(boards) =~= preb.push(cur@));
        }
    }
    Ok(boards)
}

/// One `[Name "value"]` line.
#[verifier::opaque]
pub open spec fn tag_line(name: Seq<char>, value: Seq<char>) -> Seq<char> {
    seq!['['] + name + seq![' ', '"'] + value + seq!['"', ']']
}

fn push_tag_line(name: &str, value: &Vec<char>, out: &mut Vec<char>)
    ensures
        final(out)@ == old(out)@ + tag_line(name@, value@) + seq!['\n'],
{
    out.push('[');
    let n = chars_of(name);
    let ghost base = out@;
    let mut i: usize = 0;
    while i < n.len()
        invariant
            0 <= i <= n@.len(),
            out@ == base + n@.take(i as int),
        decreases n.len() - i,
    {
        out.push(n[i]);
        i += 1;
        proof {
            assert(out@ =~= base + n@.take(i as int));
        }
    }
    proof {
        assert(n@.take(n@.len() as int) =~= n@);
    }
    out.push(' ');
    out.push('"');
    let ghost base2 = out@;
    let mut j: usize = 0;
    while j < value.len()
        invariant
            0 <= j <= value@.len(),
            out@ == base2 + value@.take(j as int),
        decreases value.len() - j,
    {
        out.push(value[j]);
        j += 1;
        proof {
            assert(out@ =~= base2 + value@.take(j as int));
        }
    }
    proof {
        assert(value@.take(value@.len() as int) =~= value@);
    }
    out.push('"');
    out.push(']');
    out.push('\n');
    proof {
        reveal(tag_line);
        assert(out@ =~= old(out)@ + tag_line(name@, value@) + seq!['\n']);
    }
}

/// The value written for an optional text field: the text, or nothing.
pub open spec fn opt_text(o: Option<Seq<char>>) -> Seq<char> {
    match o {
        Some(s) => s,
        None => Seq::empty(),
    }
}

/// The opening tag lines of one board: event, site and date, the board
/// number where one is set, and the four empty player-name placeholders.
pub open spec fn board_head_text(b: BoardModel) -> Seq<char> {
    tag_line("Event"@, opt_text(b.event)) + seq!['\n'] + tag_line("Site"@, opt_text(b.site))
        + seq!['\n'] + tag_line("Date"@, opt_text(b.date)) + seq!['\n'] + (match b.number {
        Some(n) => tag_line("Board"@, spec_digits(n as int)) + seq!['\n'],
        None => Seq::empty(),
    }) + tag_line("West"@, Seq::empty()) + seq!['\n'] + tag_line("North"@, Seq::empty())
        + seq!['\n'] + tag_line("East"@, Seq::empty()) + seq!['\n'] + tag_line(
        "South"@,
        Seq::empty(),
    ) + seq!['\n']
}

/// The middle tag lines of one board: the dealer where one is set, the
/// vulnerability, the deal written from the dealer's seat (north's where no
/// dealer is set), and the empty scoring placeholders.
pub open spec fn board_mid_text(b: BoardModel) -> Seq<char> {
    let first = match b.dealer {
        Some(d) => d,
        None => Direction::North,
    };
    (match b.dealer {
        Some(d) => tag_line("Dealer"@, seq![dir_char(d)]) + seq!['\n'],
        None => Seq::empty(),
    }) + tag_line("Vulnerable"@, vul_pbn_text(b.vulnerable)) + seq!['\n'] + tag_line(
        "Deal"@,
        pbn_deal_text(b.deal, first),
    ) + seq!['\n'] + tag_line("Scoring"@, Seq::empty()) + seq!['\n'] + tag_line(
        "Declarer"@,
        Seq::empty(),
    ) + seq!['\n'] + tag_line("Contract"@, Seq::empty()) + seq!['\n'] + tag_line(
        "Result"@,
        Seq::empty(),
    ) + seq!['\n']
}

/// The closing tag lines of one board: the analysis tags that are set.
pub open spec fn board_tail_text(b: BoardModel) -> Seq<char> {
    (match b.double_dummy_tricks {
        Some(s) => tag_line("DoubleDummyTricks"@, s) + seq!['\n'],
        None => Seq::empty(),
    }) + (match b.optimum_score {
        Some(s) => tag_line("OptimumScore"@, s) + seq!['\n'],
        None => Seq::empty(),
    }) + (match b.par_contract {
        Some(s) => tag_line("ParContract"@, s) + seq!['\n'],
        None => Seq::empty(),
    })
}

/// The text of one board: its tags in fixed order, each on its own line.
/// Placeholder tags are written empty; the board number and dealer lines
/// appear only where those fields are set; the deal is written from the
/// dealer's seat, or north's where no dealer is set.
#[verifier::opaque]
pub open spec fn board_pbn_text(b: BoardModel) -> Seq<char> {
    board_head_text(b) + board_mid_text(b) + board_tail_text(b)
}

#[verifier::rlimit(100)]
fn push_board_head(board: &Board, out: &mut Vec<char>)
    ensures
        final(out)@ == old(out)@ + board_head_text(board@),
{
    let empty: Vec<char> = Vec::new();
    match board.event {
        Some(ref e) => push_tag_line("Event", &chars_of(e.as_str()), out),
        None => push_tag_line("Event", &empty, out),
    }
    match board.site {
        Some(ref e) => push_tag_line("Site", &chars_of(e.as_str()), out),
        None => push_tag_line("Site", &empty, out),
    }
    match board.date {
        Some(ref e) => push_tag_line("Date", &chars_of(e.as_str()), out),
        None => push_tag_line("Date", &empty, out),
    }
    match board.number {
        Some(n) => push_tag_line("Board", &digits(n as usize), out),
        None => {},
    }
    push_tag_line("West", &empty, out);
    push_tag_line("North", &empty, out);
    push_tag_line("East", &empty, out);
    push_tag_line("South", &empty, out);
    proof {
        assert(out@ =~= old(out)@ + board_head_text(board@));
    }
}

#[verifier::rlimit(100)]
fn push_board_mid(board: &Board, out: &mut Vec<char>)
    ensures
        final(out)@ == old(out)@ + board_mid_text(board@),
{
    let empty: Vec<char> = Vec::new();
    match board.dealer {
        Some(d) => {
            let mut dv: Vec<char> = Vec::new();
            dv.push(d.to_char());
            proof {
                assert(dv@ =~= seq![dir_char(d)]);
            }
            push_tag_line("Dealer", &dv, out);
        },
        None => {},
    }
    push_tag_line("Vulnerable", &chars_of(board.vulnerable.to_pbn()), out);
    let first = match board.dealer {
        Some(d) => d,
        None => Direction::North,
    };
    let deal_value = board.deal.to_pbn(first);
    push_tag_line("Deal", &chars_of(deal_value.as_str()), out);
    push_tag_line("Scoring", &empty, out);
    push_tag_line("Declarer", &empty, out);
    push_tag_line("Contract", &empty, out);
    push_tag_line("Result", &empty, out);
    proof {
        assert(out@ =~= old(out)@ + board_mid_text(board@));
    }
}

#[verifier::rlimit(100)]
fn push_board_tail(board: &Board, out: &mut Vec<char>)
    ensures
        final(out)@ == old(out)@ + board_tail_text(board@),
{
    match board.double_dummy_tricks {
        Some(ref e) => push_tag_line("DoubleDummyTricks", &chars_of(e.as_str()), out),
        None => {},
    }
    match board.optimum_score {
        Some(ref e) => push_tag_line("OptimumScore", &chars_of(e.as_str()), out),
        None => {},
    }
    match board.par_contract {
        Some(ref e) => push_tag_line("ParContract", &chars_of(e.as_str()), out),
        None => {},
    }
    proof {
        assert(out@ =~= old(out)@ + board_tail_text(board@));
    }
}

/// Writes one board as its tag lines.
pub fn board_to_pbn(board: &Board) -> (r: String)
    ensures
        r@ == board_pbn_text(board@),
{
    let mut out: Vec<char> = Vec::new();
    push_board_head(board, &mut out);
    push_board_mid(board, &mut out);
    push_board_tail(board, &mut out);
    proof {
        reveal(board_pbn_text);
        assert(out@ =~= board_pbn_text(board@));
    }
    string_of(&out)
}

/// The text of a whole file from board `i` on: each board's text, a blank
/// line between boards.
pub open spec fn boards_text(bs: Seq<BoardModel>, i: int) -> Seq<char>
    decreases bs.len() - i,
{
    if i < 0 || i >= bs.len() {
        Seq::empty()
    } else if i == 0 {
        board_pbn_text(bs[0]) + boards_text(bs, 1)
    } else {
        seq!['\n'] + board_pbn_text(bs[i]) + boards_text(bs, i + 1)
    }
}

/// The text of a whole file: the format header, then every board.
pub open spec fn pbn_file_text(bs: Seq<BoardModel>) -> Seq<char> {
    "% PBN 2.1\n% EXPORT\n\n"@ + boards_text(bs, 0)
}

/// Writes a whole file: the format header, then every board, a blank line
/// between boards.
pub fn write_pbn(boards: &Vec<Board>) -> (r: String)
    ensures
        r@ == pbn_file_text(board_models_of(*boards)),
{
    let ghost gb = board_models_of(*boards);
    let mut out = String::from_str("% PBN 2.1\n% EXPORT\n\n");
    let mut i: usize = 0;
    while i < boards.len()
        invariant
            0 <= i <= boards@.len(),
            gb == board_models_of(*boards),
            out@ + boards_text(gb, i as int) == pbn_file_text(gb),
        decreases boards.len() - i,
    {
        let ghost pre = out@;
        if i > 0 {
            out.push('\n');
        }
        let text = board_to_pbn(&boards[i]);
        out.append(text.as_str());
        i += 1;
        proof {
            if i - 1 == 0 {
                assert(out@ =~= pre + board_pbn_text(gb[0]));
            } else {
                assert(out@ =~= pre + (seq!['\n'] + board_pbn_text(gb[i - 1])));
            }
            assert(out@ + boards_text(gb, i as int) =~= pre + boards_text(gb, i - 1));
        }
    }
    proof {
        assert(out@ =~= out@ + boards_text(gb, boards@.len() as int));
    }
    out
}

} // verus!
