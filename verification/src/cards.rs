//! The card model: suits, ranks, cards, compass directions, hands and deals.
//!
//! All values are small immutable records.  Suits and ranks map bijectively to
//! their single display character; a hand is the sequence of cards added to
//! it; a deal assigns one hand to each of the four directions.

use vstd::prelude::*;

verus! {

/// One of the four suits, in ascending storage order.
#[derive(Clone, Copy, PartialEq, Eq, Structural, Debug)]
pub enum Suit {
    Clubs,
    Diamonds,
    Hearts,
    Spades,
}

/// One of the thirteen ranks, ascending from two to ace.
#[derive(Clone, Copy, PartialEq, Eq, Structural, Debug)]
pub enum Rank {
    Two,
    Three,
    Four,
    Five,
    Six,
    Seven,
    Eight,
    Nine,
    Ten,
    Jack,
    Queen,
    King,
    Ace,
}

/// A playing card: one of the 52 suit and rank combinations.
#[derive(Clone, Copy, PartialEq, Eq, Structural, Debug)]
pub struct Card {
    pub suit: Suit,
    pub rank: Rank,
}

/// A compass position at the table, in clockwise order.
#[derive(Clone, Copy, PartialEq, Eq, Structural, Debug)]
pub enum Direction {
    North,
    East,
    South,
    West,
}

/// Which sides are vulnerable on a board.
#[derive(Clone, Copy, PartialEq, Eq, Structural, Debug)]
pub enum Vulnerability {
    Neither,
    NorthSouth,
    EastWest,
    Both,
}

pub open spec fn suit_index(s: Suit) -> int {
    match s {
        Suit::Clubs => 0,
        Suit::Diamonds => 1,
        Suit::Hearts => 2,
        Suit::Spades => 3,
    }
}

pub open spec fn suit_of_index(i: int) -> Suit {
    if i == 0 {
        Suit::Clubs
    } else if i == 1 {
        Suit::Diamonds
    } else if i == 2 {
        Suit::Hearts
    } else {
        Suit::Spades
    }
}

pub open spec fn rank_index(r: Rank) -> int {
    match r {
        Rank::Two => 0,
        Rank::Three => 1,
        Rank::Four => 2,
        Rank::Five => 3,
        Rank::Six => 4,
        Rank::Seven => 5,
        Rank::Eight => 6,
        Rank::Nine => 7,
        Rank::Ten => 8,
        Rank::Jack => 9,
        Rank::Queen => 10,
        Rank::King => 11,
        Rank::Ace => 12,
    }
}

pub open spec fn rank_of_index(i: int) -> Rank {
    if i == 0 {
        Rank::Two
    } else if i == 1 {
        Rank::Three
    } else if i == 2 {
        Rank::Four
    } else if i == 3 {
        Rank::Five
    } else if i == 4 {
        Rank::Six
    } else if i == 5 {
        Rank::Seven
    } else if i == 6 {
        Rank::Eight
    } else if i == 7 {
        Rank::Nine
    } else if i == 8 {
        Rank::Ten
    } else if i == 9 {
        Rank::Jack
    } else if i == 10 {
        Rank::Queen
    } else if i == 11 {
        Rank::King
    } else {
        Rank::Ace
    }
}

pub open spec fn dir_index(d: Direction) -> int {
    match d {
        Direction::North => 0,
        Direction::East => 1,
        Direction::South => 2,
        Direction::West => 3,
    }
}

pub open spec fn dir_of_index(i: int) -> Direction {
    if i == 0 {
        Direction::North
    } else if i == 1 {
        Direction::East
    } else if i == 2 {
        Direction::South
    } else {
        Direction::West
    }
}

/// A card's position in the canonical enumeration of the 52-card universe.
pub open spec fn card_index(c: Card) -> int {
    suit_index(c.suit) * 13 + rank_index(c.rank)
}

pub open spec fn card_of_index(i: int) -> Card {
    Card { suit: suit_of_index(i / 13), rank: rank_of_index(i % 13) }
}

/// The 52-card universe in canonical order.
pub open spec fn all_cards() -> Seq<Card> {
    Seq::new(52, |i: int| card_of_index(i))
}

pub proof fn lemma_card_index_bijective()
    ensures
        forall|c: Card| 0 <= #[trigger] card_index(c) < 52 && card_of_index(card_index(c)) == c,
        forall|i: int| 0 <= i < 52 ==> card_index(#[trigger] card_of_index(i)) == i,
{
    assert forall|c: Card| 0 <= #[trigger] card_index(c) < 52 && card_of_index(card_index(c))
        == c by {
        let s = suit_index(c.suit);
        let r = rank_index(c.rank);
        assert(0 <= s < 4 && 0 <= r < 13);
        assert((s * 13 + r) / 13 == s && (s * 13 + r) % 13 == r) by (nonlinear_arith)
            requires
                0 <= s < 4 && 0 <= r < 13,
        ;
        assert(suit_of_index(s) == c.suit);
        assert(rank_of_index(r) == c.rank);
    }
    assert forall|i: int| 0 <= i < 52 implies card_index(#[trigger] card_of_index(i)) == i by {
        let s = i / 13;
        let r = i % 13;
        assert(0 <= s < 4 && 0 <= r < 13 && s * 13 + r == i) by (nonlinear_arith)
            requires
                0 <= i < 52,
                s == i / 13,
                r == i % 13,
        ;
        assert(suit_index(suit_of_index(s)) == s);
        assert(rank_index(rank_of_index(r)) == r);
    }
}

/// The canonical enumeration lists every card exactly once.
pub proof fn lemma_all_cards_complete()
    ensures
        all_cards().len() == 52,
        all_cards().no_duplicates(),
        forall|c: Card| all_cards().contains(c),
{
    lemma_card_index_bijective();
    assert forall|c: Card| all_cards().contains(c) by {
        assert(all_cards()[card_index(c)] == c);
    }
    assert forall|i: int, j: int|
        0 <= i < 52 && 0 <= j < 52 && i != j implies all_cards()[i] != all_cards()[j] by {
        assert(card_index(all_cards()[i]) == i);
        assert(card_index(all_cards()[j]) == j);
    }
}

/// The display character of a rank.
pub open spec fn rank_char(r: Rank) -> char {
    match r {
        Rank::Two => '2',
        Rank::Three => '3',
        Rank::Four => '4',
        Rank::Five => '5',
        Rank::Six => '6',
        Rank::Seven => '7',
        Rank::Eight => '8',
        Rank::Nine => '9',
        Rank::Ten => 'T',
        Rank::Jack => 'J',
        Rank::Queen => 'Q',
        Rank::King => 'K',
        Rank::Ace => 'A',
    }
}

/// The rank a display character stands for, if any.
pub open spec fn rank_from_char(c: char) -> Option<Rank> {
    match c {
        '2' => Some(Rank::Two),
        '3' => Some(Rank::Three),
        '4' => Some(Rank::Four),
        '5' => Some(Rank::Five),
        '6' => Some(Rank::Six),
        '7' => Some(Rank::Seven),
        '8' => Some(Rank::Eight),
        '9' => Some(Rank::Nine),
        'T' => Some(Rank::Ten),
        'J' => Some(Rank::Jack),
        'Q' => Some(Rank::Queen),
        'K' => Some(Rank::King),
        'A' => Some(Rank::Ace),
        _ => None,
    }
}

pub open spec fn suit_char(s: Suit) -> char {
    match s {
        Suit::Clubs => 'C',
        Suit::Diamonds => 'D',
        Suit::Hearts => 'H',
        Suit::Spades => 'S',
    }
}

pub open spec fn suit_from_char(c: char) -> Option<Suit> {
    match c {
        'C' => Some(Suit::Clubs),
        'D' => Some(Suit::Diamonds),
        'H' => Some(Suit::Hearts),
        'S' => Some(Suit::Spades),
        _ => None,
    }
}

pub open spec fn dir_char(d: Direction) -> char {
    match d {
        Direction::North => 'N',
        Direction::East => 'E',
        Direction::South => 'S',
        Direction::West => 'W',
    }
}

pub open spec fn dir_from_char(c: char) -> Option<Direction> {
    match c {
        'N' => Some(Direction::North),
        'E' => Some(Direction::East),
        'S' => Some(Direction::South),
        'W' => Some(Direction::West),
        _ => None,
    }
}

impl Rank {
    pub fn to_char(self) -> (c: char)
        ensures
            c == rank_char(self),
    {
        match self {
            Rank::Two => '2',
            Rank::Three => '3',
            Rank::Four => '4',
            Rank::Five => '5',
            Rank::Six => '6',
            Rank::Seven => '7',
            Rank::Eight => '8',
            Rank::Nine => '9',
            Rank::Ten => 'T',
            Rank::Jack => 'J',
            Rank::Queen => 'Q',
            Rank::King => 'K',
            Rank::Ace => 'A',
        }
    }

    pub fn from_char(c: char) -> (r: Option<Rank>)
        ensures
            r == rank_from_char(c),
    {
        match c {
            '2' => Some(Rank::Two),
            '3' => Some(Rank::Three),
            '4' => Some(Rank::Four),
            '5' => Some(Rank::Five),
            '6' => Some(Rank::Six),
            '7' => Some(Rank::Seven),
            '8' => Some(Rank::Eight),
            '9' => Some(Rank::Nine),
            'T' => Some(Rank::Ten),
            'J' => Some(Rank::Jack),
            'Q' => Some(Rank::Queen),
            'K' => Some(Rank::King),
            'A' => Some(Rank::Ace),
            _ => None,
        }
    }
}

impl Suit {
    pub fn to_char(self) -> (c: char)
        ensures
            c == suit_char(self),
    {
        match self {
            Suit::Clubs => 'C',
            Suit::Diamonds => 'D',
            Suit::Hearts => 'H',
            Suit::Spades => 'S',
        }
    }

    pub fn from_char(c: char) -> (s: Option<Suit>)
        ensures
            s == suit_from_char(c),
    {
        match c {
            'C' => Some(Suit::Clubs),
            'D' => Some(Suit::Diamonds),
            'H' => Some(Suit::Hearts),
            'S' => Some(Suit::Spades),
            _ => None,
        }
    }

    /// The four suits in ascending storage order.
    pub fn all() -> (a: [Suit; 4])
        ensures
            a@ =~= seq![Suit::Clubs, Suit::Diamonds, Suit::Hearts, Suit::Spades],
    {
        [Suit::Clubs, Suit::Diamonds, Suit::Hearts, Suit::Spades]
    }
}

impl Direction {
    pub fn to_char(self) -> (c: char)
        ensures
            c == dir_char(self),
    {
        match self {
            Direction::North => 'N',
            Direction::East => 'E',
            Direction::South => 'S',
            Direction::West => 'W',
        }
    }

    pub fn from_char(c: char) -> (d: Option<Direction>)
        ensures
            d == dir_from_char(c),
    {
        match c {
            'N' => Some(Direction::North),
            'E' => Some(Direction::East),
            'S' => Some(Direction::South),
            'W' => Some(Direction::West),
            _ => None,
        }
    }

    /// The next position clockwise: north, east, south, west, and round again.
    pub fn clockwise(self) -> (d: Direction)
        ensures
            d == dir_of_index((dir_index(self) + 1) % 4),
    {
        match self {
            Direction::North => Direction::East,
            Direction::East => Direction::South,
            Direction::South => Direction::West,
            Direction::West => Direction::North,
        }
    }

    /// The four directions in clockwise order.
    pub fn all() -> (a: [Direction; 4])
        ensures
            a@ =~= seq![Direction::North, Direction::East, Direction::South, Direction::West],
    {
        [Direction::North, Direction::East, Direction::South, Direction::West]
    }
}

impl Card {
    pub fn new(suit: Suit, rank: Rank) -> (c: Card)
        ensures
            c == (Card { suit, rank }),
    {
        Card { suit, rank }
    }
}

/// The high-card points a rank is worth: ace four, king three, queen two,
/// jack one, anything lower nothing.
pub open spec fn rank_points(r: Rank) -> nat {
    match r {
        Rank::Ace => 4,
        Rank::King => 3,
        Rank::Queen => 2,
        Rank::Jack => 1,
        _ => 0,
    }
}

/// The high-card points of a sequence of cards.
pub open spec fn spec_hcp(s: Seq<Card>) -> nat
    decreases s.len(),
{
    if s.len() == 0 {
        0
    } else {
        spec_hcp(s.drop_last()) + rank_points(s.last().rank)
    }
}

/// The set of cards a direction holds within a deal.
#[derive(Clone, Debug)]
pub struct Hand {
    pub cards: Vec<Card>,
}

impl View for Hand {
    type V = Seq<Card>;

    open spec fn view(&self) -> Seq<Card> {
        self.cards@
    }
}

impl Hand {
    pub fn new() -> (h: Hand)
        ensures
            h@ == Seq::<Card>::empty(),
    {
        Hand { cards: Vec::new() }
    }

    pub fn from_cards(cards: Vec<Card>) -> (h: Hand)
        ensures
            h@ == cards@,
    {
        Hand { cards }
    }

    /// Appends a card.  The caller must not add a card the hand already
    /// holds: a duplicate is accepted and silently breaks the size invariant.
    pub fn add_card(&mut self, c: Card)
        ensures
            final(self)@ == old(self)@.push(c),
    {
        self.cards.push(c);
    }

    pub fn len(&self) -> (n: usize)
        ensures
            n == self@.len(),
    {
        self.cards.len()
    }

    pub fn has_card(&self, c: Card) -> (b: bool)
        ensures
            b == self@.contains(c),
    {
        let mut i: usize = 0;
        while i < self.cards.len()
            invariant
                0 <= i <= self.cards.len(),
                forall|k: int| 0 <= k < i ==> self.cards@[k] != c,
            decreases self.cards.len() - i,
        {
            if self.cards[i] == c {
                return true;
            }
            i += 1;
        }
        false
    }

    /// The cards of one suit, in the order they were added.
    pub fn cards_in_suit(&self, suit: Suit) -> (v: Vec<Card>)
        ensures
            v@ == self@.filter(|c: Card| c.suit == suit),
    {
        let mut v: Vec<Card> = Vec::new();
        let mut i: usize = 0;
        while i < self.cards.len()
            invariant
                0 <= i <= self.cards.len(),
                v@ == self.cards@.take(i as int).filter(|c: Card| c.suit == suit),
            decreases self.cards.len() - i,
        {
            let ghost pre = self.cards@.take(i as int);
            let c = self.cards[i];
            if c.suit == suit {
                v.push(c);
            }
            i += 1;
            proof {
                reveal(Seq::filter);
                assert(self.cards@.take(i as int).drop_last() =~= pre);
                assert(self.cards@.take(i as int).last() == c);
            }
        }
        proof {
            assert(self.cards@.take(self.cards@.len() as int) =~= self.cards@);
        }
        v
    }

    /// How many cards of one suit the hand holds.
    pub fn suit_length(&self, suit: Suit) -> (n: usize)
        ensures
            n == self@.filter(|c: Card| c.suit == suit).len(),
    {
        let v = self.cards_in_suit(suit);
        v.len()
    }

    /// The hand's high-card points.  Asks for a hand no larger than the
    /// deck, which every decoded hand satisfies.
    pub fn hcp(&self) -> (n: u64)
        requires
            self@.len() <= 52,
        ensures
            n == spec_hcp(self@),
    {
        let mut n: u64 = 0;
        let mut i: usize = 0;
        while i < self.cards.len()
            invariant
                0 <= i <= self.cards.len(),
                self.cards@.len() <= 52,
                n == spec_hcp(self.cards@.take(i as int)),
                n <= 4 * i,
            decreases self.cards.len() - i,
        {
            let p: u64 = match self.cards[i].rank {
                Rank::Ace => 4,
                Rank::King => 3,
                Rank::Queen => 2,
                Rank::Jack => 1,
                _ => 0,
            };
            proof {
                assert(self.cards@.take(i + 1 as int).drop_last() =~= self.cards@.take(i as int));
                assert(self.cards@.take(i + 1 as int).last() == self.cards@[i as int]);
            }
            n = n + p;
            i += 1;
        }
        proof {
            assert(self.cards@.take(self.cards@.len() as int) =~= self.cards@);
        }
        n
    }
}

/// The mathematical model of a deal: the card sequence each direction holds.
#[verifier::ext_equal]
pub struct DealModel {
    pub north: Seq<Card>,
    pub east: Seq<Card>,
    pub south: Seq<Card>,
    pub west: Seq<Card>,
}

impl DealModel {
    pub open spec fn empty() -> DealModel {
        DealModel {
            north: Seq::empty(),
            east: Seq::empty(),
            south: Seq::empty(),
            west: Seq::empty(),
        }
    }

    pub open spec fn hand_seq(self, d: Direction) -> Seq<Card> {
        match d {
            Direction::North => self.north,
            Direction::East => self.east,
            Direction::South => self.south,
            Direction::West => self.west,
        }
    }

    pub open spec fn with_hand(self, d: Direction, cards: Seq<Card>) -> DealModel {
        match d {
            Direction::North => DealModel { north: cards, ..self },
            Direction::East => DealModel { east: cards, ..self },
            Direction::South => DealModel { south: cards, ..self },
            Direction::West => DealModel { west: cards, ..self },
        }
    }

    /// Whether some direction holds the card.
    pub open spec fn holds(self, c: Card) -> bool {
        self.north.contains(c) || self.east.contains(c) || self.south.contains(c)
            || self.west.contains(c)
    }
}

/// The assignment of one hand to each of the four directions.
#[derive(Clone, Debug)]
pub struct Deal {
    pub north: Hand,
    pub east: Hand,
    pub south: Hand,
    pub west: Hand,
}

impl View for Deal {
    type V = DealModel;

    open spec fn view(&self) -> DealModel {
        DealModel { north: self.north@, east: self.east@, south: self.south@, west: self.west@ }
    }
}

impl Deal {
    /// A deal with four empty hands.
    pub fn new() -> (d: Deal)
        ensures
            d@ == DealModel::empty(),
    {
        let d = Deal { north: Hand::new(), east: Hand::new(), south: Hand::new(), west: Hand::new() };
        proof {
            assert(d@ =~= DealModel::empty());
        }
        d
    }

    pub fn hand(&self, dir: Direction) -> (h: &Hand)
        ensures
            h@ == self@.hand_seq(dir),
    {
        match dir {
            Direction::North => &self.north,
            Direction::East => &self.east,
            Direction::South => &self.south,
            Direction::West => &self.west,
        }
    }

    /// Replaces the hand held by one direction; any prior hand is overwritten.
    pub fn set_hand(&mut self, dir: Direction, h: Hand)
        ensures
            final(self)@ == old(self)@.with_hand(dir, h@),
    {
        match dir {
            Direction::North => {
                self.north = h;
            },
            Direction::East => {
                self.east = h;
            },
            Direction::South => {
                self.south = h;
            },
            Direction::West => {
                self.west = h;
            },
        }
        proof {
            assert(self@ =~= old(self)@.with_hand(dir, h@));
        }
    }
}


/// Two predicates that agree on a sequence's elements filter it alike.
pub proof fn lemma_filter_congruence<A>(s: Seq<A>, p: spec_fn(A) -> bool, q: spec_fn(A) -> bool)
    requires
        forall|i: int| 0 <= i < s.len() ==> p(s[i]) == q(s[i]),
    ensures
        s.filter(p) == s.filter(q),
    decreases s.len(),
{
    reveal(Seq::filter);
    if s.len() > 0 {
        lemma_filter_congruence(s.drop_last(), p, q);
        assert(s.filter(p) =~= s.filter(q));
    } else {
        assert(s.filter(p) =~= s.filter(q));
    }
}

/// A predicate and its negation split a sequence's length between them.
pub proof fn lemma_filter_partition<A>(s: Seq<A>, p: spec_fn(A) -> bool)
    ensures
        s.filter(p).len() + s.filter(|x: A| !p(x)).len() == s.len(),
    decreases s.len(),
{
    reveal(Seq::filter);
    if s.len() > 0 {
        lemma_filter_partition(s.drop_last(), p);
    }
}

/// Filtering keeps only elements of the sequence, keeps distinctness, and
/// keeps every element the predicate accepts.
pub proof fn lemma_filter_elements<A>(s: Seq<A>, p: spec_fn(A) -> bool)
    ensures
        forall|x: A| #[trigger] s.filter(p).contains(x) <==> s.contains(x) && p(x),
        s.no_duplicates() ==> s.filter(p).no_duplicates(),
    decreases s.len(),
{
    reveal(Seq::filter);
    if s.len() == 0 {
        assert forall|x: A| #[trigger] s.filter(p).contains(x) implies s.contains(x) && p(x) by {
            reveal(Seq::filter);
        }
    } else {
        let dl = s.drop_last();
        lemma_filter_elements(dl, p);
        assert forall|x: A| #[trigger] s.filter(p).contains(x) implies s.contains(x) && p(x) by {
            reveal(Seq::filter);
            let i = choose|i: int| 0 <= i < s.filter(p).len() && s.filter(p)[i] == x;
            if i < dl.filter(p).len() {
                assert(dl.filter(p)[i] == x);
                assert(dl.filter(p).contains(x));
                let j = choose|j: int| 0 <= j < dl.len() && dl[j] == x;
                assert(s[j] == x);
            } else {
                assert(x == s.last() && p(x));
            }
        }
        assert forall|x: A| s.contains(x) && p(x) implies #[trigger] s.filter(p).contains(x) by {
            reveal(Seq::filter);
            let j = choose|j: int| 0 <= j < s.len() && s[j] == x;
            if j < dl.len() {
                assert(dl[j] == x);
                assert(dl.contains(x));
                assert(dl.filter(p).contains(x));
                let k = choose|k: int| 0 <= k < dl.filter(p).len() && dl.filter(p)[k] == x;
                assert(s.filter(p)[k] == x);
            } else {
                assert(x == s.last());
                assert(s.filter(p).last() == x);
            }
        }
        if s.no_duplicates() {
            assert(dl.no_duplicates());
            if p(s.last()) {
                assert(!dl.contains(s.last()));
                assert(!dl.filter(p).contains(s.last()));
                let f = dl.filter(p).push(s.last());
                assert forall|i: int, j: int| 0 <= i < j < f.len() implies f[i] != f[j] by {
                    if j == f.len() - 1 {
                        if f[i] == s.last() {
                            assert(dl.filter(p).contains(s.last()));
                        }
                    }
                }
            }
        }
    }
}

/// Widening a predicate by one element the sequence holds, and the
/// predicate rejects, grows the filtered length by exactly one.
pub proof fn lemma_filter_widen<A>(s: Seq<A>, p: spec_fn(A) -> bool, q: spec_fn(A) -> bool, x: A)
    requires
        s.no_duplicates(),
        s.contains(x),
        !p(x),
        forall|y: A| #[trigger] q(y) == (p(y) || y == x),
    ensures
        s.filter(q).len() == s.filter(p).len() + 1,
    decreases s.len(),
{
    reveal(Seq::filter);
    let dl = s.drop_last();
    if s.last() == x {
        assert(!dl.contains(x));
        assert forall|i: int| 0 <= i < dl.len() implies q(dl[i]) == p(dl[i]) by {
            assert(dl[i] == s[i]);
            if dl[i] == x {
                assert(dl.contains(x));
            }
        }
        lemma_filter_congruence(dl, q, p);
        assert(q(s.last()));
    } else {
        assert(dl.contains(x)) by {
            let j = choose|j: int| 0 <= j < s.len() && s[j] == x;
            assert(dl[j] == x);
        }
        lemma_filter_widen(dl, p, q, x);
    }
}

/// Over a duplicate-free sequence holding every element of a duplicate-free
/// `h`, membership in `h` filters exactly `h.len()` elements out.
pub proof fn lemma_filter_member_count(s: Seq<Card>, h: Seq<Card>)
    requires
        s.no_duplicates(),
        h.no_duplicates(),
        forall|c: Card| h.contains(c) ==> s.contains(c),
    ensures
        s.filter(|c: Card| h.contains(c)).len() == h.len(),
    decreases h.len(),
{
    if h.len() == 0 {
        let p = |c: Card| h.contains(c);
        lemma_filter_elements(s, p);
        if s.filter(p).len() > 0 {
            let y = s.filter(p)[0];
            assert(s.filter(p).contains(y));
            assert(h.contains(y));
            assert(false);
        }
    } else {
        let x = h.last();
        let h0 = h.drop_last();
        assert(!h0.contains(x));
        assert forall|i: int|
            0 <= i < s.len() implies (h.contains(s[i]) == (h0.contains(s[i]) || s[i] == x)) by {
            if h.contains(s[i]) {
                let j = choose|j: int| 0 <= j < h.len() && h[j] == s[i];
                if j < h0.len() {
                    assert(h0[j] == s[i]);
                }
            }
            if h0.contains(s[i]) {
                let j = choose|j: int| 0 <= j < h0.len() && h0[j] == s[i];
                assert(h[j] == s[i]);
            }
        }
        lemma_filter_congruence(
            s,
            |c: Card| h.contains(c),
            |c: Card| h0.contains(c) || c == x,
        );
        assert(s.contains(x));
        assert(!h0.contains(x));
        lemma_filter_widen(
            s,
            |c: Card| h0.contains(c),
            |c: Card| h0.contains(c) || c == x,
            x,
        );
        assert forall|c: Card| h0.contains(c) implies s.contains(c) by {
            let j = choose|j: int| 0 <= j < h0.len() && h0[j] == c;
            assert(h[j] == c);
        }
        lemma_filter_member_count(s, h0);
    }
}

/// Concatenated duplicate-free sequences with no duplicates are disjoint.
pub proof fn lemma_concat_no_dup<A>(a: Seq<A>, b: Seq<A>)
    requires
        (a + b).no_duplicates(),
    ensures
        a.no_duplicates(),
        b.no_duplicates(),
        forall|x: A| !(a.contains(x) && b.contains(x)),
{
    assert forall|i: int, j: int| 0 <= i < j < a.len() implies a[i] != a[j] by {
        assert((a + b)[i] == a[i] && (a + b)[j] == a[j]);
    }
    assert forall|i: int, j: int| 0 <= i < j < b.len() implies b[i] != b[j] by {
        assert((a + b)[a.len() + i] == b[i] && (a + b)[a.len() + j] == b[j]);
    }
    assert forall|x: A| !(a.contains(x) && b.contains(x)) by {
        if a.contains(x) && b.contains(x) {
            let i = choose|i: int| 0 <= i < a.len() && a[i] == x;
            let j = choose|j: int| 0 <= j < b.len() && b[j] == x;
            assert((a + b)[i] == x && (a + b)[a.len() + j] == x);
        }
    }
}


/// Membership in a concatenation is membership in either part.
pub proof fn lemma_concat_contains<A>(a: Seq<A>, b: Seq<A>)
    ensures
        forall|x: A| #[trigger] (a + b).contains(x) == (a.contains(x) || b.contains(x)),
{
    assert forall|x: A| #[trigger] (a + b).contains(x) == (a.contains(x) || b.contains(x)) by {
        if (a + b).contains(x) {
            let j = choose|j: int| 0 <= j < (a + b).len() && (a + b)[j] == x;
            if j < a.len() {
                assert(a[j] == x);
            } else {
                assert(b[j - a.len()] == x);
            }
        }
        if a.contains(x) {
            let j = choose|j: int| 0 <= j < a.len() && a[j] == x;
            assert((a + b)[j] == x);
        }
        if b.contains(x) {
            let j = choose|j: int| 0 <= j < b.len() && b[j] == x;
            assert((a + b)[a.len() + j] == x);
        }
    }
}

} // verus!
