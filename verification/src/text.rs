//! Character-level text utilities the notation decoders share: conversion
//! between strings and character vectors, trimming, splitting on a separator
//! or on whitespace runs, decimal numbers, and ASCII case folding.

use vstd::prelude::*;

verus! {

/// Relies on String::push: appends the given character to the end of the string.
pub assume_specification[ String::push ](s: &mut String, ch: char)
    ensures
        final(s)@ == old(s)@.push(ch),
;

/// The characters the decoders treat as blank space.
pub open spec fn is_space(c: char) -> bool {
    c == ' ' || c == '\t' || c == '\r' || c == '\n'
}

pub fn space(c: char) -> (b: bool)
    ensures
        b == is_space(c),
{
    c == ' ' || c == '\t' || c == '\r' || c == '\n'
}

/// The characters of a string, in order.
pub fn chars_of(s: &str) -> (v: Vec<char>)
    ensures
        v@ == s@,
{
    let n = s.unicode_len();
    let mut v: Vec<char> = Vec::new();
    let mut i: usize = 0;
    while i < n
        invariant
            n == s@.len(),
            0 <= i <= n,
            v@ == s@.take(i as int),
        decreases n - i,
    {
        let c = s.get_char(i);
        v.push(c);
        i += 1;
        proof {
            assert(v@ =~= s@.take(i as int));
        }
    }
    proof {
        assert(s@.take(n as int) =~= s@);
    }
    v
}

/// The string holding the given characters, in order.
pub fn string_of(v: &Vec<char>) -> (s: String)
    ensures
        s@ == v@,
{
    let mut s = String::new();
    let mut i: usize = 0;
    while i < v.len()
        invariant
            0 <= i <= v.len(),
            s@ == v@.take(i as int),
        decreases v.len() - i,
    {
        s.push(v[i]);
        i += 1;
        proof {
            assert(s@ =~= v@.take(i as int));
        }
    }
    proof {
        assert(v@.take(v@.len() as int) =~= v@);
    }
    s
}

/// A copy of the characters from position `a` (inclusive) to `b` (exclusive).
pub fn subrange_vec(v: &Vec<char>, a: usize, b: usize) -> (r: Vec<char>)
    requires
        a <= b <= v@.len(),
    ensures
        r@ == v@.subrange(a as int, b as int),
{
    let mut r: Vec<char> = Vec::new();
    let mut i: usize = a;
    while i < b
        invariant
            a <= i <= b <= v@.len(),
            r@ == v@.subrange(a as int, i as int),
        decreases b - i,
    {
        r.push(v[i]);
        i += 1;
        proof {
            assert(r@ =~= v@.subrange(a as int, i as int));
        }
    }
    r
}

/// The position of the first non-space character at or after `i`.
pub open spec fn start_idx(s: Seq<char>, i: int) -> int
    decreases s.len() - i,
{
    if 0 <= i < s.len() && is_space(s[i]) {
        start_idx(s, i + 1)
    } else {
        i
    }
}

/// The position one past the last non-space character before `j`.
pub open spec fn end_idx(s: Seq<char>, j: int) -> int
    decreases j,
{
    if 0 < j <= s.len() && is_space(s[j - 1]) {
        end_idx(s, j - 1)
    } else {
        j
    }
}

/// The string with leading and trailing space removed.
pub open spec fn trim_seq(s: Seq<char>) -> Seq<char> {
    let a = start_idx(s, 0);
    let b = end_idx(s, s.len() as int);
    if a <= b {
        s.subrange(a, b)
    } else {
        Seq::empty()
    }
}

pub proof fn lemma_start_idx(s: Seq<char>, i: int)
    requires
        0 <= i <= s.len(),
    ensures
        i <= start_idx(s, i) <= s.len(),
        forall|k: int| i <= k < start_idx(s, i) ==> is_space(s[k]),
        start_idx(s, i) < s.len() ==> !is_space(s[start_idx(s, i)]),
    decreases s.len() - i,
{
    if i < s.len() && is_space(s[i]) {
        lemma_start_idx(s, i + 1);
    }
}

pub proof fn lemma_end_idx(s: Seq<char>, j: int)
    requires
        0 <= j <= s.len(),
    ensures
        0 <= end_idx(s, j) <= j,
        forall|k: int| end_idx(s, j) <= k < j ==> is_space(s[k]),
        end_idx(s, j) > 0 ==> !is_space(s[end_idx(s, j) - 1]),
    decreases j,
{
    if 0 < j && is_space(s[j - 1]) {
        lemma_end_idx(s, j - 1);
    }
}

/// A trimmed string is empty exactly when the original is all space.
pub proof fn lemma_trim_all_space(s: Seq<char>)
    ensures
        trim_seq(s).len() == 0 <==> (forall|k: int| 0 <= k < s.len() ==> is_space(s[k])),
{
    lemma_start_idx(s, 0);
    lemma_end_idx(s, s.len() as int);
    let a = start_idx(s, 0);
    let b = end_idx(s, s.len() as int);
    if forall|k: int| 0 <= k < s.len() ==> is_space(s[k]) {
        assert(a == s.len()) by {
            if a < s.len() {
                assert(is_space(s[a]));
            }
        }
    } else {
        let w = choose|k: int| 0 <= k < s.len() && !is_space(s[k]);
        assert(a <= w && w < b);
    }
}

/// The characters with leading and trailing space removed.
pub fn trim(v: &Vec<char>) -> (r: Vec<char>)
    ensures
        r@ == trim_seq(v@),
{
    proof {
        lemma_start_idx(v@, 0);
        lemma_end_idx(v@, v@.len() as int);
    }
    let mut a: usize = 0;
    while a < v.len() && space(v[a])
        invariant
            0 <= a <= v@.len(),
            start_idx(v@, 0) == start_idx(v@, a as int),
            forall|k: int| 0 <= k < a ==> is_space(v@[k]),
        decreases v.len() - a,
    {
        a += 1;
    }
    proof {
        assert(start_idx(v@, a as int) == a);
    }
    let mut b: usize = v.len();
    while b > a && space(v[b - 1])
        invariant
            a <= b <= v@.len(),
            end_idx(v@, v@.len() as int) == end_idx(v@, b as int),
            a == start_idx(v@, 0),
            forall|k: int| 0 <= k < a ==> is_space(v@[k]),
            forall|k: int| b <= k < v@.len() ==> is_space(v@[k]),
        decreases b,
    {
        b -= 1;
    }
    proof {
        if b > a {
            assert(end_idx(v@, b as int) == b);
        } else {
            // everything from a on is space, and everything before a is space
            assert(forall|k: int| 0 <= k < v@.len() ==> is_space(v@[k]));
            lemma_trim_all_space(v@);
        }
    }
    if b > a {
        subrange_vec(v, a, b)
    } else {
        Vec::new()
    }
}

/// Splitting on a separator, scanned from position `i` with the current
/// segment `cur` and the finished segments `acc`.
pub open spec fn split_from(
    s: Seq<char>,
    sep: char,
    i: int,
    cur: Seq<char>,
    acc: Seq<Seq<char>>,
) -> Seq<Seq<char>>
    decreases s.len() - i,
{
    if i < 0 || i >= s.len() {
        acc.push(cur)
    } else if s[i] == sep {
        split_from(s, sep, i + 1, Seq::empty(), acc.push(cur))
    } else {
        split_from(s, sep, i + 1, cur.push(s[i]), acc)
    }
}

/// The segments of `s` between occurrences of `sep`; empty segments are kept.
pub open spec fn split_seq(s: Seq<char>, sep: char) -> Seq<Seq<char>> {
    split_from(s, sep, 0, Seq::empty(), Seq::empty())
}

pub fn split_char(v: &Vec<char>, sep: char) -> (r: Vec<Vec<char>>)
    ensures
        r@.len() == split_seq(v@, sep).len(),
        forall|k: int| 0 <= k < r@.len() ==> r@[k]@ == split_seq(v@, sep)[k],
        r@.len() >= 1,
{
    let mut acc: Vec<Vec<char>> = Vec::new();
    let mut cur: Vec<char> = Vec::new();
    proof {
        assert(acc.deep_view() =~~= Seq::<Seq<char>>::empty());
        assert(cur@ =~= Seq::<char>::empty());
    }
    let mut i: usize = 0;
    while i < v.len()
        invariant
            0 <= i <= v@.len(),
            split_seq(v@, sep) == split_from(v@, sep, i as int, cur@, acc.deep_view()),
        decreases v.len() - i,
    {
        let ghost pre_acc = acc.deep_view();
        let ghost pre_cur = cur@;
        let c = v[i];
        if c == sep {
            acc.push(cur);
            cur = Vec::new();
            proof {
                assert(acc.deep_view() =~~= pre_acc.push(pre_cur));
            }
        } else {
            cur.push(c);
        }
        i += 1;
    }
    let ghost pre_acc = acc.deep_view();
    acc.push(cur);
    proof {
        assert(acc.deep_view() =~~= pre_acc.push(cur@));
        assert forall|k: int| 0 <= k < acc@.len() implies acc@[k]@ == split_seq(v@, sep)[k] by {
            assert(acc.deep_view()[k] == acc@[k].deep_view());
            assert(acc@[k].deep_view() =~= acc@[k]@);
        }
    }
    acc
}

/// Whitespace-separated fields, scanned from position `i` with the current
/// field `cur` and the finished fields `acc`.
pub open spec fn fields_from(s: Seq<char>, i: int, cur: Seq<char>, acc: Seq<Seq<char>>) -> Seq<
    Seq<char>,
>
    decreases s.len() - i,
{
    if i < 0 || i >= s.len() {
        if cur.len() > 0 {
            acc.push(cur)
        } else {
            acc
        }
    } else if is_space(s[i]) {
        if cur.len() > 0 {
            fields_from(s, i + 1, Seq::empty(), acc.push(cur))
        } else {
            fields_from(s, i + 1, Seq::empty(), acc)
        }
    } else {
        fields_from(s, i + 1, cur.push(s[i]), acc)
    }
}

/// The maximal runs of non-space characters of `s`, in order.
pub open spec fn fields_of(s: Seq<char>) -> Seq<Seq<char>> {
    fields_from(s, 0, Seq::empty(), Seq::empty())
}

pub fn fields(v: &Vec<char>) -> (r: Vec<Vec<char>>)
    ensures
        r@.len() == fields_of(v@).len(),
        forall|k: int| 0 <= k < r@.len() ==> r@[k]@ == fields_of(v@)[k],
{
    let mut acc: Vec<Vec<char>> = Vec::new();
    let mut cur: Vec<char> = Vec::new();
    proof {
        assert(acc.deep_view() =~~= Seq::<Seq<char>>::empty());
        assert(cur@ =~= Seq::<char>::empty());
    }
    let mut i: usize = 0;
    while i < v.len()
        invariant
            0 <= i <= v@.len(),
            fields_of(v@) == fields_from(v@, i as int, cur@, acc.deep_view()),
        decreases v.len() - i,
    {
        let ghost gi = i as int;
        let ghost pre_acc = acc.deep_view();
        let ghost pre_cur = cur@;
        let c = v[i];
        if space(c) {
            if cur.len() > 0 {
                acc.push(cur);
                cur = Vec::new();
                proof {
                    assert(acc.deep_view() =~~= pre_acc.push(pre_cur));
                    assert(cur@ =~= Seq::<char>::empty());
                }
            }
        } else {
            cur.push(c);
        }
        i += 1;
        proof {
            if is_space(v@[gi]) && pre_cur.len() == 0 {
                assert(pre_cur =~= Seq::<char>::empty());
            }
            assert(fields_from(v@, gi, pre_cur, pre_acc) == fields_from(
                v@,
                gi + 1,
                cur@,
                acc.deep_view(),
            ));
        }
    }
    if cur.len() > 0 {
        let ghost pre_acc = acc.deep_view();
        acc.push(cur);
        proof {
            assert(acc.deep_view() =~~= pre_acc.push(cur@));
        }
    }
    proof {
        assert forall|k: int| 0 <= k < acc@.len() implies acc@[k]@ == fields_of(v@)[k] by {
            assert(acc.deep_view()[k] == acc@[k].deep_view());
            assert(acc@[k].deep_view() =~= acc@[k]@);
        }
    }
    acc
}

pub open spec fn is_digit(c: char) -> bool {
    c == '0' || c == '1' || c == '2' || c == '3' || c == '4' || c == '5' || c == '6' || c == '7'
        || c == '8' || c == '9'
}

pub open spec fn digit_val(c: char) -> int {
    if c == '0' {
        0
    } else if c == '1' {
        1
    } else if c == '2' {
        2
    } else if c == '3' {
        3
    } else if c == '4' {
        4
    } else if c == '5' {
        5
    } else if c == '6' {
        6
    } else if c == '7' {
        7
    } else if c == '8' {
        8
    } else {
        9
    }
}

/// Reading a decimal number from position `i` on, with `acc` already read:
/// `None` on a non-digit or once the value no longer fits in a `usize`.
pub open spec fn number_from(s: Seq<char>, i: int, acc: int) -> Option<int>
    decreases s.len() - i,
{
    if i < 0 || i >= s.len() {
        Some(acc)
    } else if !is_digit(s[i]) {
        None
    } else if acc * 10 + digit_val(s[i]) > usize::MAX as int {
        None
    } else {
        number_from(s, i + 1, acc * 10 + digit_val(s[i]))
    }
}

/// The value of `s` read as a plain decimal numeral: `None` unless `s` is
/// one or more digits and nothing else, with a value that fits in a `usize`.
pub open spec fn parse_usize_seq(s: Seq<char>) -> Option<int> {
    if s.len() == 0 {
        None
    } else {
        number_from(s, 0, 0)
    }
}

fn digit_of(c: char) -> (d: Option<usize>)
    ensures
        match d {
            Some(n) => is_digit(c) && n == digit_val(c) && n <= 9,
            None => !is_digit(c),
        },
{
    match c {
        '0' => Some(0),
        '1' => Some(1),
        '2' => Some(2),
        '3' => Some(3),
        '4' => Some(4),
        '5' => Some(5),
        '6' => Some(6),
        '7' => Some(7),
        '8' => Some(8),
        '9' => Some(9),
        _ => None,
    }
}

pub fn parse_usize_chars(v: &Vec<char>) -> (r: Option<usize>)
    ensures
        match r {
            Some(n) => parse_usize_seq(v@) == Some(n as int),
            None => parse_usize_seq(v@) is None,
        },
{
    if v.len() == 0 {
        return None;
    }
    let mut acc: usize = 0;
    let mut i: usize = 0;
    while i < v.len()
        invariant
            0 <= i <= v@.len(),
            v@.len() > 0,
            number_from(v@, 0, 0) == number_from(v@, i as int, acc as int),
        decreases v.len() - i,
    {
        let d = match digit_of(v[i]) {
            Some(d) => d,
            None => {
                return None;
            },
        };
        if acc > (usize::MAX - d) / 10 {
            proof {
                assert(acc * 10 + d > usize::MAX) by (nonlinear_arith)
                    requires
                        acc > (usize::MAX - d) / 10,
                        d <= 9,
                ;
            }
            return None;
        }
        proof {
            assert(acc * 10 + d <= usize::MAX) by (nonlinear_arith)
                requires
                    acc <= (usize::MAX - d) / 10,
                    d <= 9,
            ;
        }
        acc = acc * 10 + d;
        i += 1;
    }
    Some(acc)
}

pub open spec fn digit_char_of(d: int) -> char {
    if d == 0 {
        '0'
    } else if d == 1 {
        '1'
    } else if d == 2 {
        '2'
    } else if d == 3 {
        '3'
    } else if d == 4 {
        '4'
    } else if d == 5 {
        '5'
    } else if d == 6 {
        '6'
    } else if d == 7 {
        '7'
    } else if d == 8 {
        '8'
    } else {
        '9'
    }
}

/// The decimal numeral of a non-negative number, most significant digit
/// first, with no leading zeros (a lone zero for zero itself).
pub open spec fn spec_digits(n: int) -> Seq<char>
    decreases n,
{
    if n <= 9 {
        seq![digit_char_of(n)]
    } else {
        spec_digits(n / 10).push(digit_char_of(n % 10))
    }
}

fn digit_char(d: usize) -> (c: char)
    requires
        d <= 9,
    ensures
        c == digit_char_of(d as int),
{
    if d == 0 {
        '0'
    } else if d == 1 {
        '1'
    } else if d == 2 {
        '2'
    } else if d == 3 {
        '3'
    } else if d == 4 {
        '4'
    } else if d == 5 {
        '5'
    } else if d == 6 {
        '6'
    } else if d == 7 {
        '7'
    } else if d == 8 {
        '8'
    } else {
        '9'
    }
}

pub fn digits(n: usize) -> (v: Vec<char>)
    ensures
        v@ == spec_digits(n as int),
        v@.len() >= 1,
    decreases n,
{
    if n <= 9 {
        let mut v: Vec<char> = Vec::new();
        v.push(digit_char(n));
        proof {
            assert(v@ =~= spec_digits(n as int));
        }
        v
    } else {
        let mut v = digits(n / 10);
        v.push(digit_char(n % 10));
        v
    }
}

/// ASCII lower-casing of one character; anything but a capital letter is kept.
pub open spec fn lower_char(c: char) -> char {
    match c {
        'A' => 'a',
        'B' => 'b',
        'C' => 'c',
        'D' => 'd',
        'E' => 'e',
        'F' => 'f',
        'G' => 'g',
        'H' => 'h',
        'I' => 'i',
        'J' => 'j',
        'K' => 'k',
        'L' => 'l',
        'M' => 'm',
        'N' => 'n',
        'O' => 'o',
        'P' => 'p',
        'Q' => 'q',
        'R' => 'r',
        'S' => 's',
        'T' => 't',
        'U' => 'u',
        'V' => 'v',
        'W' => 'w',
        'X' => 'x',
        'Y' => 'y',
        'Z' => 'z',
        _ => c,
    }
}

pub fn to_lower(c: char) -> (r: char)
    ensures
        r == lower_char(c),
{
    match c {
        'A' => 'a',
        'B' => 'b',
        'C' => 'c',
        'D' => 'd',
        'E' => 'e',
        'F' => 'f',
        'G' => 'g',
        'H' => 'h',
        'I' => 'i',
        'J' => 'j',
        'K' => 'k',
        'L' => 'l',
        'M' => 'm',
        'N' => 'n',
        'O' => 'o',
        'P' => 'p',
        'Q' => 'q',
        'R' => 'r',
        'S' => 's',
        'T' => 't',
        'U' => 'u',
        'V' => 'v',
        'W' => 'w',
        'X' => 'x',
        'Y' => 'y',
        'Z' => 'z',
        _ => c,
    }
}

/// ASCII upper-casing of one character; anything but a small letter is kept.
pub open spec fn upper_char(c: char) -> char {
    match c {
        'a' => 'A',
        'b' => 'B',
        'c' => 'C',
        'd' => 'D',
        'e' => 'E',
        'f' => 'F',
        'g' => 'G',
        'h' => 'H',
        'i' => 'I',
        'j' => 'J',
        'k' => 'K',
        'l' => 'L',
        'm' => 'M',
        'n' => 'N',
        'o' => 'O',
        'p' => 'P',
        'q' => 'Q',
        'r' => 'R',
        's' => 'S',
        't' => 'T',
        'u' => 'U',
        'v' => 'V',
        'w' => 'W',
        'x' => 'X',
        'y' => 'Y',
        'z' => 'Z',
        _ => c,
    }
}

pub fn to_upper(c: char) -> (r: char)
    ensures
        r == upper_char(c),
{
    match c {
        'a' => 'A',
        'b' => 'B',
        'c' => 'C',
        'd' => 'D',
        'e' => 'E',
        'f' => 'F',
        'g' => 'G',
        'h' => 'H',
        'i' => 'I',
        'j' => 'J',
        'k' => 'K',
        'l' => 'L',
        'm' => 'M',
        'n' => 'N',
        'o' => 'O',
        'p' => 'P',
        'q' => 'Q',
        'r' => 'R',
        's' => 'S',
        't' => 'T',
        'u' => 'U',
        'v' => 'V',
        'w' => 'W',
        'x' => 'X',
        'y' => 'Y',
        'z' => 'Z',
        _ => c,
    }
}

/// The string ASCII lower-cased character by character.
pub open spec fn lower_seq(s: Seq<char>) -> Seq<char> {
    s.map_values(|c: char| lower_char(c))
}

/// Whether `p` is a prefix of `s`.
pub open spec fn has_prefix(s: Seq<char>, p: Seq<char>) -> bool {
    p.len() <= s.len() && s.take(p.len() as int) == p
}

pub fn starts_with_str(v: &Vec<char>, p: &str) -> (b: bool)
    ensures
        b == has_prefix(v@, p@),
{
    let n = p.unicode_len();
    if n > v.len() {
        return false;
    }
    let mut i: usize = 0;
    while i < n
        invariant
            n == p@.len() <= v@.len(),
            0 <= i <= n,
            forall|k: int| 0 <= k < i ==> v@[k] == p@[k],
        decreases n - i,
    {
        if v[i] != p.get_char(i) {
            assert(v@.take(p@.len() as int)[i as int] != p@[i as int]);
            return false;
        }
        i += 1;
    }
    proof {
        assert(v@.take(p@.len() as int) =~= p@);
    }
    true
}

pub fn chars_eq_str(v: &Vec<char>, p: &str) -> (b: bool)
    ensures
        b == (v@ == p@),
{
    let n = p.unicode_len();
    if n != v.len() {
        return false;
    }
    let mut i: usize = 0;
    while i < n
        invariant
            n == p@.len() == v@.len(),
            0 <= i <= n,
            forall|k: int| 0 <= k < i ==> v@[k] == p@[k],
        decreases n - i,
    {
        if v[i] != p.get_char(i) {
            return false;
        }
        i += 1;
    }
    proof {
        assert(v@ =~= p@);
    }
    true
}

/// Whether the characters, lower-cased, spell exactly `p`.
pub fn lower_eq_str(v: &Vec<char>, p: &str) -> (b: bool)
    ensures
        b == (lower_seq(v@) == p@),
{
    let n = p.unicode_len();
    if n != v.len() {
        proof {
            assert(lower_seq(v@).len() == v@.len());
        }
        return false;
    }
    let mut i: usize = 0;
    while i < n
        invariant
            n == p@.len() == v@.len(),
            0 <= i <= n,
            forall|k: int| 0 <= k < i ==> lower_char(v@[k]) == p@[k],
        decreases n - i,
    {
        if to_lower(v[i]) != p.get_char(i) {
            assert(lower_seq(v@)[i as int] != p@[i as int]);
            return false;
        }
        i += 1;
    }
    proof {
        assert(lower_seq(v@) =~= p@);
    }
    true
}


/// Whether a line holds nothing but space.
pub open spec fn blank_line(s: Seq<char>) -> bool {
    forall|k: int| 0 <= k < s.len() ==> is_space(s[k])
}

pub fn is_blank(v: &Vec<char>) -> (b: bool)
    ensures
        b == blank_line(v@),
{
    let mut i: usize = 0;
    while i < v.len()
        invariant
            0 <= i <= v@.len(),
            forall|k: int| 0 <= k < i ==> is_space(v@[k]),
        decreases v.len() - i,
    {
        if !space(v[i]) {
            return false;
        }
        i += 1;
    }
    true
}

/// The character sequences of a vector of character vectors.
pub open spec fn seqs_of(v: Vec<Vec<char>>) -> Seq<Seq<char>> {
    Seq::new(v@.len() as nat, |i: int| v@[i]@)
}

/// The character sequences of a vector of string slices.
pub open spec fn strs_of(v: Vec<&str>) -> Seq<Seq<char>> {
    Seq::new(v@.len() as nat, |i: int| v@[i]@)
}

/// The lines of a text, split on newlines: the final newline ends the last
/// line rather than opening an empty one, and a carriage return directly
/// before a newline is dropped.
pub open spec fn lines_of(s: Seq<char>) -> Seq<Seq<char>> {
    if s.len() == 0 {
        Seq::empty()
    } else {
        let parts = split_seq(s, '\n');
        let kept = if s.last() == '\n' {
            parts.drop_last()
        } else {
            parts
        };
        kept.map_values(
            |p: Seq<char>|
                if p.len() > 0 && p.last() == '\r' {
                    p.drop_last()
                } else {
                    p
                },
        )
    }
}

/// Splits a text into its lines.
pub fn split_lines(v: &Vec<char>) -> (r: Vec<Vec<char>>)
    ensures
        seqs_of(r) == lines_of(v@),
{
    let mut r: Vec<Vec<char>> = Vec::new();
    if v.len() == 0 {
        proof {
            assert(seqs_of(r) =~= lines_of(v@));
        }
        return r;
    }
    let mut parts = split_char(v, '\n');
    let ghost raw = split_seq(v@, '\n');
    if v[v.len() - 1] == '\n' {
        proof {
            assert(v@.last() == '\n');
        }
        parts.pop();
    }
    let ghost kept = if v@.last() == '\n' {
        raw.drop_last()
    } else {
        raw
    };
    proof {
        assert(parts@.len() == kept.len());
        assert(forall|k: int| 0 <= k < parts@.len() ==> parts@[k]@ == kept[k]);
    }
    let mut i: usize = 0;
    while i < parts.len()
        invariant
            0 <= i <= parts@.len(),
            parts@.len() == kept.len(),
            forall|k: int| i <= k < parts@.len() ==> parts@[k]@ == kept[k],
            forall|k: int|
                0 <= k < i ==> parts@[k]@ == (if kept[k].len() > 0 && kept[k].last() == '\r' {
                    kept[k].drop_last()
                } else {
                    kept[k]
                }),
        decreases parts.len() - i,
    {
        let n = parts[i].len();
        if n > 0 && parts[i][n - 1] == '\r' {
            let whole = &parts[i];
            let clipped = subrange_vec(whole, 0, n - 1);
            proof {
                assert(clipped@ =~= kept[i as int].drop_last());
            }
            parts.set(i, clipped);
        }
        i += 1;
    }
    proof {
        assert(seqs_of(parts) =~= lines_of(v@));
    }
    parts
}


/// Field scanning is unchanged by dropping an already-passed prefix.
pub proof fn lemma_fields_shift(s: Seq<char>, j: int, i: int, cur: Seq<char>, acc: Seq<Seq<char>>)
    requires
        0 <= j <= i <= s.len(),
    ensures
        fields_from(s, i, cur, acc) == fields_from(s.skip(j), i - j, cur, acc),
    decreases s.len() - i,
{
    if i < s.len() {
        assert(s.skip(j)[i - j] == s[i]);
        if is_space(s[i]) {
            if cur.len() > 0 {
                lemma_fields_shift(s, j, i + 1, Seq::empty(), acc.push(cur));
            } else {
                lemma_fields_shift(s, j, i + 1, Seq::empty(), acc);
            }
        } else {
            lemma_fields_shift(s, j, i + 1, cur.push(s[i]), acc);
        }
    }
}

/// Leading space before the scan position contributes no field.
pub proof fn lemma_fields_leading_spaces(s: Seq<char>, i: int, j: int, acc: Seq<Seq<char>>)
    requires
        0 <= i <= j <= s.len(),
        forall|k: int| i <= k < j ==> is_space(s[k]),
    ensures
        fields_from(s, i, Seq::empty(), acc) == fields_from(s, j, Seq::empty(), acc),
    decreases j - i,
{
    if i < j {
        lemma_fields_leading_spaces(s, i + 1, j, acc);
    }
}

/// A scan standing before nothing but space finishes at once.
pub proof fn lemma_fields_space_tail(s: Seq<char>, i: int, cur: Seq<char>, acc: Seq<Seq<char>>)
    requires
        0 <= i <= s.len(),
        forall|k: int| i <= k < s.len() ==> is_space(s[k]),
    ensures
        fields_from(s, i, cur, acc) == (if cur.len() > 0 {
            acc.push(cur)
        } else {
            acc
        }),
    decreases s.len() - i,
{
    if i < s.len() {
        if cur.len() > 0 {
            lemma_fields_space_tail(s, i + 1, Seq::empty(), acc.push(cur));
        } else {
            lemma_fields_space_tail(s, i + 1, Seq::empty(), acc);
        }
    }
}

/// A tail of nothing but space can be cut off without changing the fields.
pub proof fn lemma_fields_cut_tail(s: Seq<char>, m: int, i: int, cur: Seq<char>, acc: Seq<Seq<char>>)
    requires
        0 <= i <= m <= s.len(),
        forall|k: int| m <= k < s.len() ==> is_space(s[k]),
    ensures
        fields_from(s, i, cur, acc) == fields_from(s.take(m), i, cur, acc),
    decreases m - i,
{
    if i < m {
        assert(s.take(m)[i] == s[i]);
        if is_space(s[i]) {
            if cur.len() > 0 {
                lemma_fields_cut_tail(s, m, i + 1, Seq::empty(), acc.push(cur));
            } else {
                lemma_fields_cut_tail(s, m, i + 1, Seq::empty(), acc);
            }
        } else {
            lemma_fields_cut_tail(s, m, i + 1, cur.push(s[i]), acc);
        }
    } else {
        lemma_fields_space_tail(s, i, cur, acc);
    }
}

/// Trimming a string does not change its whitespace-separated fields.
pub proof fn lemma_fields_trim(s: Seq<char>)
    ensures
        fields_of(trim_seq(s)) == fields_of(s),
{
    let a = start_idx(s, 0);
    let b = end_idx(s, s.len() as int);
    lemma_start_idx(s, 0);
    lemma_end_idx(s, s.len() as int);
    let e = Seq::<char>::empty();
    let ea = Seq::<Seq<char>>::empty();
    if a <= b {
        lemma_fields_leading_spaces(s, 0, a, ea);
        lemma_fields_cut_tail(s, b, a, e, ea);
        assert(forall|k: int| a <= k < s.take(b).len() ==> s.take(b)[k] == s[k]);
        lemma_fields_shift(s.take(b), a, a, e, ea);
        assert(s.take(b).skip(a) =~= trim_seq(s));
    } else {
        // the string is nothing but space
        assert(forall|k: int| 0 <= k < s.len() ==> is_space(s[k])) by {
            if exists|k: int| 0 <= k < s.len() && !is_space(s[k]) {
                let w = choose|k: int| 0 <= k < s.len() && !is_space(s[k]);
                assert(a <= w && w < b);
            }
        }
        lemma_fields_space_tail(s, 0, e, ea);
        lemma_trim_all_space(s);
        assert(trim_seq(s).len() == 0);
        lemma_fields_space_tail(trim_seq(s), 0, e, ea);
    }
}

/// A scan leaves the fields already finished untouched, in place.
pub proof fn lemma_fields_acc_prefix(s: Seq<char>, i: int, cur: Seq<char>, acc: Seq<Seq<char>>)
    requires
        0 <= i <= s.len(),
    ensures
        fields_from(s, i, cur, acc).len() >= acc.len(),
        forall|k: int| 0 <= k < acc.len() ==> fields_from(s, i, cur, acc)[k] == acc[k],
    decreases s.len() - i,
{
    if i < s.len() {
        if is_space(s[i]) {
            if cur.len() > 0 {
                lemma_fields_acc_prefix(s, i + 1, Seq::empty(), acc.push(cur));
                assert forall|k: int|
                    0 <= k < acc.len() implies fields_from(s, i, cur, acc)[k] == acc[k] by {
                    assert(fields_from(s, i + 1, Seq::empty(), acc.push(cur))[k] == acc.push(
                        cur,
                    )[k]);
                }
            } else {
                lemma_fields_acc_prefix(s, i + 1, Seq::empty(), acc);
                assert forall|k: int|
                    0 <= k < acc.len() implies fields_from(s, i, cur, acc)[k] == acc[k] by {
                    assert(fields_from(s, i + 1, Seq::empty(), acc)[k] == acc[k]);
                }
            }
        } else {
            lemma_fields_acc_prefix(s, i + 1, cur.push(s[i]), acc);
            assert forall|k: int|
                0 <= k < acc.len() implies fields_from(s, i, cur, acc)[k] == acc[k] by {
                assert(fields_from(s, i + 1, cur.push(s[i]), acc)[k] == acc[k]);
            }
        }
    }
}

/// The field being gathered opens the next finished field.
pub proof fn lemma_fields_first(s: Seq<char>, i: int, cur: Seq<char>, acc: Seq<Seq<char>>)
    requires
        0 <= i <= s.len(),
        cur.len() > 0,
    ensures
        fields_from(s, i, cur, acc).len() > acc.len(),
        fields_from(s, i, cur, acc)[acc.len() as int].len() >= cur.len(),
        fields_from(s, i, cur, acc)[acc.len() as int].take(cur.len() as int) == cur,
    decreases s.len() - i,
{
    let r = fields_from(s, i, cur, acc);
    if i >= s.len() {
        assert(r == acc.push(cur));
        assert(r[acc.len() as int] == cur);
        assert(cur.take(cur.len() as int) =~= cur);
    } else if is_space(s[i]) {
        lemma_fields_acc_prefix(s, i + 1, Seq::empty(), acc.push(cur));
        assert(r[acc.len() as int] == acc.push(cur)[acc.len() as int]);
        assert(cur.take(cur.len() as int) =~= cur);
    } else {
        lemma_fields_first(s, i + 1, cur.push(s[i]), acc);
        assert(r[acc.len() as int].take(cur.push(s[i]).len() as int).take(cur.len() as int)
            =~= r[acc.len() as int].take(cur.len() as int));
        assert(cur.push(s[i]).take(cur.len() as int) =~= cur);
    }
}


/// Splitting is unchanged by dropping an already-passed prefix.
pub proof fn lemma_split_shift(s: Seq<char>, sep: char, j: int, i: int, cur: Seq<char>, acc: Seq<Seq<char>>)
    requires
        0 <= j <= i <= s.len(),
    ensures
        split_from(s, sep, i, cur, acc) == split_from(s.skip(j), sep, i - j, cur, acc),
    decreases s.len() - i,
{
    if i < s.len() {
        assert(s.skip(j)[i - j] == s[i]);
        if s[i] == sep {
            lemma_split_shift(s, sep, j, i + 1, Seq::empty(), acc.push(cur));
        } else {
            lemma_split_shift(s, sep, j, i + 1, cur.push(s[i]), acc);
        }
    }
}

/// Splitting text that opens with a separator-free line: the line closes the
/// current segment and splitting goes on after the separator.
pub proof fn lemma_split_line(line: Seq<char>, rest: Seq<char>, sep: char, cur: Seq<char>, acc: Seq<Seq<char>>)
    requires
        forall|k: int| 0 <= k < line.len() ==> line[k] != sep,
    ensures
        split_from(line + seq![sep] + rest, sep, 0, cur, acc) == split_from(
            rest,
            sep,
            0,
            Seq::empty(),
            acc.push(cur + line),
        ),
    decreases line.len(),
{
    let u = line + seq![sep] + rest;
    if line.len() == 0 {
        assert(u[0] == sep);
        assert(split_from(u, sep, 0, cur, acc) == split_from(u, sep, 1, Seq::empty(), acc.push(cur)));
        lemma_split_shift(u, sep, 1, 1, Seq::empty(), acc.push(cur));
        assert(u.skip(1) =~= rest);
        assert(cur + line =~= cur);
    } else {
        let c = line[0];
        assert(u[0] == c && c != sep);
        assert(split_from(u, sep, 0, cur, acc) == split_from(u, sep, 1, cur.push(c), acc));
        lemma_split_shift(u, sep, 1, 1, cur.push(c), acc);
        assert(u.skip(1) =~= line.skip(1) + seq![sep] + rest);
        lemma_split_line(line.skip(1), rest, sep, cur.push(c), acc);
        assert(cur.push(c) + line.skip(1) =~= cur + line);
    }
}

/// Every character of a written numeral is a digit.
pub proof fn lemma_digits_chars(n: int)
    ensures
        forall|k: int| 0 <= k < spec_digits(n).len() ==> is_digit(#[trigger] spec_digits(n)[k]),
    decreases n,
{
    if n <= 9 {
        assert forall|k: int| 0 <= k < spec_digits(n).len() implies is_digit(
            #[trigger] spec_digits(n)[k],
        ) by {
            assert(spec_digits(n)[k] == digit_char_of(n));
        }
    } else {
        lemma_digits_chars(n / 10);
        assert forall|k: int| 0 <= k < spec_digits(n).len() implies is_digit(
            #[trigger] spec_digits(n)[k],
        ) by {
            if k < spec_digits(n / 10).len() {
                assert(spec_digits(n)[k] == spec_digits(n / 10)[k]);
            } else {
                assert(spec_digits(n)[k] == digit_char_of(n % 10));
            }
        }
    }
}

/// Reading one more digit multiplies the value read so far by ten.
pub proof fn lemma_number_append(s: Seq<char>, c: char, i: int, acc: int)
    requires
        0 <= i <= s.len(),
    ensures
        number_from(s.push(c), i, acc) == (match number_from(s, i, acc) {
            Some(v) => {
                if is_digit(c) && v * 10 + digit_val(c) <= usize::MAX as int {
                    Some(v * 10 + digit_val(c))
                } else {
                    None
                }
            },
            None => None::<int>,
        }),
    decreases s.len() - i,
{
    assert(s.push(c).len() == s.len() + 1);
    if i < s.len() {
        assert(s.push(c)[i] == s[i]);
        if is_digit(s[i]) && acc * 10 + digit_val(s[i]) <= usize::MAX as int {
            lemma_number_append(s, c, i + 1, acc * 10 + digit_val(s[i]));
        } else {
            assert(number_from(s, i, acc) is None);
            assert(number_from(s.push(c), i, acc) is None);
        }
    } else {
        assert(s.push(c)[i] == c);
        assert(number_from(s, i, acc) == Some(acc));
        if is_digit(c) && acc * 10 + digit_val(c) <= usize::MAX as int {
            assert(number_from(s.push(c), i + 1, acc * 10 + digit_val(c)) == Some(
                acc * 10 + digit_val(c),
            ));
        }
    }
}

/// Writing a number and reading it back returns the number.
pub proof fn lemma_parse_digits(n: int)
    requires
        0 <= n <= usize::MAX as int,
    ensures
        parse_usize_seq(spec_digits(n)) == Some(n),
    decreases n,
{
    if n <= 9 {
        assert(spec_digits(n) == seq![digit_char_of(n)]);
        let s1 = seq![digit_char_of(n)];
        assert(is_digit(s1[0]) && digit_val(s1[0]) == n);
        assert(number_from(s1, 1, n) == Some(n));
        assert(number_from(s1, 0, 0) == Some(n));
    } else {
        lemma_parse_digits(n / 10);
        let ds = spec_digits(n / 10);
        let c = digit_char_of(n % 10);
        lemma_number_append(ds, c, 0, 0);
        assert(ds.len() > 0);
        assert((n / 10) * 10 + n % 10 == n) by (nonlinear_arith)
            requires
                n >= 0,
        ;
    }
}

/// A string made of space, then content with non-space ends, then space,
/// trims to exactly the content.
pub proof fn lemma_trim_bounds(s: Seq<char>, a: int, b: int)
    requires
        0 <= a < b <= s.len(),
        forall|k: int| 0 <= k < a ==> is_space(s[k]),
        !is_space(s[a]),
        !is_space(s[b - 1]),
        forall|k: int| b <= k < s.len() ==> is_space(s[k]),
    ensures
        trim_seq(s) == s.subrange(a, b),
{
    lemma_start_idx(s, 0);
    lemma_end_idx(s, s.len() as int);
    let sa = start_idx(s, 0);
    let eb = end_idx(s, s.len() as int);
    assert(sa == a) by {
        if sa < a {
            assert(is_space(s[sa]));
        }
        if sa > a {
            assert(is_space(s[a]));
        }
    }
    assert(eb == b) by {
        if eb < b {
            assert(is_space(s[b - 1]));
        }
        if eb > b {
            assert(is_space(s[eb - 1]));
        }
    }
}

} // verus!
