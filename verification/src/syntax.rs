//! The concrete syntax of queries: a text is read into a tree that both
//! logics share.
//!
//! ```text
//! query   := "PHI" "=" formula
//! formula := "true" | "false" | name
//!          | ("!" | "X" | "F" | "G") "(" formula ")"
//!          | "(" formula ")" ("&" | "|" | "U" | "R") "(" formula ")"
//!          | "P" "(" formula "," ("<" | "<=" | ">" | ">=") number ")"
//! name    := a lower-case letter or "_", then lower-case letters, digits and "_"
//! number  := digits, then "." and digits where wanted
//! ```
//!
//! Blanks may stand between the parts.

use crate::comp::{Comp, ONE};
use vstd::prelude::*;
use vstd::string::StringExecFns;

verus! {

/// What a syntax tree is, mathematically.
pub enum Tree {
    True,
    False,
    Ap(Seq<char>),
    Not(Box<Tree>),
    Next(Box<Tree>),
    Ev(Box<Tree>),
    Alw(Box<Tree>),
    And(Box<Tree>, Box<Tree>),
    Or(Box<Tree>, Box<Tree>),
    Until(Box<Tree>, Box<Tree>),
    Release(Box<Tree>, Box<Tree>),
    Prob(Box<Tree>, Comp, u64),
}

/// The syntax tree of a formula.
#[derive(Debug, PartialEq, Eq)]
pub enum Syntax {
    True,
    False,
    Ap(String),
    Not(Box<Syntax>),
    Next(Box<Syntax>),
    Ev(Box<Syntax>),
    Alw(Box<Syntax>),
    And(Box<Syntax>, Box<Syntax>),
    Or(Box<Syntax>, Box<Syntax>),
    Until(Box<Syntax>, Box<Syntax>),
    Release(Box<Syntax>, Box<Syntax>),
    /// A bound on a probability in parts per billion.
    Prob(Box<Syntax>, Comp, u64),
}

impl Syntax {
    /// The tree as a mathematical value.
    pub open spec fn model(&self) -> Tree
        decreases self,
    {
        match self {
            Syntax::True => Tree::True,
            Syntax::False => Tree::False,
            Syntax::Ap(name) => Tree::Ap(name@),
            Syntax::Not(x) => Tree::Not(Box::new(x.model())),
            Syntax::Next(x) => Tree::Next(Box::new(x.model())),
            Syntax::Ev(x) => Tree::Ev(Box::new(x.model())),
            Syntax::Alw(x) => Tree::Alw(Box::new(x.model())),
            Syntax::And(l, r) => Tree::And(Box::new(l.model()), Box::new(r.model())),
            Syntax::Or(l, r) => Tree::Or(Box::new(l.model()), Box::new(r.model())),
            Syntax::Until(l, r) => Tree::Until(Box::new(l.model()), Box::new(r.model())),
            Syntax::Release(l, r) => Tree::Release(Box::new(l.model()), Box::new(r.model())),
            Syntax::Prob(x, c, q) => Tree::Prob(Box::new(x.model()), *c, *q),
        }
    }
}

impl View for Syntax {
    type V = Tree;

    open spec fn view(&self) -> Tree {
        self.model()
    }
}

pub open spec fn is_blank(c: char) -> bool {
    c == ' ' || c == '\t' || c == '\n' || c == '\r'
}

pub open spec fn is_digit(c: char) -> bool {
    '0' <= c && c <= '9'
}

pub open spec fn starts_name(c: char) -> bool {
    ('a' <= c && c <= 'z') || c == '_'
}

pub open spec fn in_name(c: char) -> bool {
    starts_name(c) || is_digit(c)
}

/// The first place from `i` on that holds no blank.
pub open spec fn skip(s: Seq<char>, i: int) -> int
    decreases s.len() - i,
{
    if 0 <= i < s.len() && is_blank(s[i]) {
        skip(s, i + 1)
    } else {
        i
    }
}

/// The first place from `i` on that holds no character of a name.
pub open spec fn name_end(s: Seq<char>, i: int) -> int
    decreases s.len() - i,
{
    if 0 <= i < s.len() && in_name(s[i]) {
        name_end(s, i + 1)
    } else {
        i
    }
}

/// The first place from `i` on that holds no digit.
pub open spec fn digits_end(s: Seq<char>, i: int) -> int
    decreases s.len() - i,
{
    if 0 <= i < s.len() && is_digit(s[i]) {
        digits_end(s, i + 1)
    } else {
        i
    }
}

/// The number that a digit stands for.
pub open spec fn digit_value(c: char) -> int {
    c as int - '0' as int
}

/// The number that the digits from `from` up to `to` stand for; from two
/// on, the number is taken for two: no probability is that large.
pub open spec fn whole(s: Seq<char>, from: int, to: int) -> int
    decreases to - from,
{
    if to <= from {
        0
    } else {
        let v = whole(s, from, to - 1) * 10 + digit_value(s[to - 1]);
        if v >= 2 {
            2
        } else {
            v
        }
    }
}

/// The parts per billion that the digits from `from` up to `to` stand for
/// behind the point; `unit` is what the first digit weighs. Digits beyond
/// the ninth count for nothing.
pub open spec fn fraction(s: Seq<char>, from: int, to: int, unit: int) -> int
    decreases to - from,
{
    if to <= from {
        0
    } else {
        digit_value(s[from]) * unit + fraction(s, from + 1, to, unit / 10)
    }
}

/// The place behind the number that starts at `i`, and none where no
/// number starts at `i`.
pub open spec fn number_end(s: Seq<char>, i: int) -> Option<int> {
    let a = digits_end(s, i);
    if a == i {
        None
    } else if a < s.len() && s[a] == '.' {
        let b = digits_end(s, a + 1);
        if b == a + 1 {
            None
        } else {
            Some(b)
        }
    } else {
        Some(a)
    }
}

/// The parts per billion that the number from `i` on stands for.
pub open spec fn number_value(s: Seq<char>, i: int) -> int {
    let a = digits_end(s, i);
    if a < s.len() && s[a] == '.' {
        whole(s, i, a) * ONE + fraction(s, a + 1, digits_end(s, a + 1), 100_000_000)
    } else {
        whole(s, i, a) * ONE
    }
}

/// The comparison operator at place `i` with the place behind it.
pub open spec fn comp_at(s: Seq<char>, i: int) -> Option<(Comp, int)> {
    if 0 <= i < s.len() && s[i] == '<' {
        if i + 1 < s.len() && s[i + 1] == '=' {
            Some((Comp::Leq, i + 2))
        } else {
            Some((Comp::Less, i + 1))
        }
    } else if 0 <= i < s.len() && s[i] == '>' {
        if i + 1 < s.len() && s[i + 1] == '=' {
            Some((Comp::Geq, i + 2))
        } else {
            Some((Comp::Greater, i + 1))
        }
    } else {
        None
    }
}

/// Character `c` stands, after blanks, from place `i` on.
pub open spec fn token(s: Seq<char>, i: int, c: char) -> bool {
    0 <= skip(s, i) < s.len() && s[skip(s, i)] == c
}

/// The tree of the operator `op` over one formula.
pub open spec fn unary(op: char, x: Tree) -> Tree {
    if op == '!' {
        Tree::Not(Box::new(x))
    } else if op == 'X' {
        Tree::Next(Box::new(x))
    } else if op == 'F' {
        Tree::Ev(Box::new(x))
    } else {
        Tree::Alw(Box::new(x))
    }
}

/// The tree of the operator `op` over two formulae.
pub open spec fn binary(op: char, l: Tree, r: Tree) -> Tree {
    if op == '&' {
        Tree::And(Box::new(l), Box::new(r))
    } else if op == '|' {
        Tree::Or(Box::new(l), Box::new(r))
    } else if op == 'U' {
        Tree::Until(Box::new(l), Box::new(r))
    } else {
        Tree::Release(Box::new(l), Box::new(r))
    }
}

pub open spec fn is_unary(c: char) -> bool {
    c == '!' || c == 'X' || c == 'F' || c == 'G'
}

pub open spec fn is_binary(c: char) -> bool {
    c == '&' || c == '|' || c == 'U' || c == 'R'
}

/// The name `true`.
pub open spec fn word_true() -> Seq<char> {
    seq!['t', 'r', 'u', 'e']
}

/// The name `false`.
pub open spec fn word_false() -> Seq<char> {
    seq!['f', 'a', 'l', 's', 'e']
}

/// The formula that starts, after blanks, at place `i`, with the place
/// behind it; none where no formula starts there.
pub open spec fn formula_at(s: Seq<char>, i: int) -> Option<(Tree, int)>
    decreases s.len() - i,
{
    let a = skip(s, i);
    if a < i || a < 0 || a >= s.len() {
        None
    } else if s[a] == '(' {
        match formula_at(s, a + 1) {
            None => None,
            Some((l, b)) => {
                if !token(s, b, ')') {
                    None
                } else {
                    let c = skip(s, skip(s, b) + 1);
                    if !(0 <= c < s.len() && is_binary(s[c])) || !token(s, c + 1, '(') {
                        None
                    } else {
                        let d = skip(s, c + 1) + 1;
                        if d <= i {
                            None
                        } else {
                            match formula_at(s, d) {
                                None => None,
                                Some((r, e)) => if token(s, e, ')') {
                                    Some((binary(s[c], l, r), skip(s, e) + 1))
                                } else {
                                    None
                                },
                            }
                        }
                    }
                }
            },
        }
    } else if is_unary(s[a]) {
        if !token(s, a + 1, '(') {
            None
        } else {
            let b = skip(s, a + 1) + 1;
            if b <= i {
                None
            } else {
                match formula_at(s, b) {
                    None => None,
                    Some((x, c)) => if token(s, c, ')') {
                        Some((unary(s[a], x), skip(s, c) + 1))
                    } else {
                        None
                    },
                }
            }
        }
    } else if s[a] == 'P' {
        if !token(s, a + 1, '(') {
            None
        } else {
            let b = skip(s, a + 1) + 1;
            if b <= i {
                None
            } else {
                match formula_at(s, b) {
                    None => None,
                    Some((x, c)) => {
                        if !token(s, c, ',') {
                            None
                        } else {
                            match comp_at(s, skip(s, skip(s, c) + 1)) {
                                None => None,
                                Some((comp, d)) => {
                                    let e = skip(s, d);
                                    match number_end(s, e) {
                                        None => None,
                                        Some(f) => if token(s, f, ')') && 0 <= number_value(s, e) <= ONE {
                                            Some(
                                                (
                                                    Tree::Prob(
                                                        Box::new(x),
                                                        comp,
                                                        number_value(s, e) as u64,
                                                    ),
                                                    skip(s, f) + 1,
                                                ),
                                            )
                                        } else {
                                            None
                                        },
                                    }
                                },
                            }
                        }
                    },
                }
            }
        }
    } else if starts_name(s[a]) {
        let b = name_end(s, a);
        let name = s.subrange(a, b);
        if name == word_true() {
            Some((Tree::True, b))
        } else if name == word_false() {
            Some((Tree::False, b))
        } else {
            Some((Tree::Ap(name), b))
        }
    } else {
        None
    }
}

/// The formula of a query: the text `PHI`, the sign `=`, and a formula up
/// to the end of the text.
pub open spec fn query_of(s: Seq<char>) -> Option<Tree> {
    let a = skip(s, 0);
    if !(a + 3 <= s.len() && s[a] == 'P' && s[a + 1] == 'H' && s[a + 2] == 'I') || !token(s, a + 3, '=') {
        None
    } else {
        match formula_at(s, skip(s, a + 3) + 1) {
            None => None,
            Some((t, b)) => if skip(s, b) == s.len() {
                Some(t)
            } else {
                None
            },
        }
    }
}

pub proof fn lemma_name_end_range(s: Seq<char>, i: int)
    requires
        0 <= i <= s.len(),
    ensures
        i <= name_end(s, i) <= s.len(),
    decreases s.len() - i,
{
    if i < s.len() && in_name(s[i]) {
        lemma_name_end_range(s, i + 1);
    }
}

/// Whether the character is a blank.
fn blank(c: char) -> (res: bool)
    ensures
        res == is_blank(c),
{
    c == ' ' || c == '\t' || c == '\n' || c == '\r'
}

/// Whether the character is a digit.
fn digit(c: char) -> (res: bool)
    ensures
        res == is_digit(c),
{
    (c as u32) >= 48 && (c as u32) <= 57
}

/// Whether the character can start a name.
fn name_start(c: char) -> (res: bool)
    ensures
        res == starts_name(c),
{
    ((c as u32) >= 97 && (c as u32) <= 122) || c == '_'
}

/// Whether the character can stand in a name.
fn name_part(c: char) -> (res: bool)
    ensures
        res == in_name(c),
{
    name_start(c) || digit(c)
}

/// The first place from `i` on that holds no blank.
fn skip_blanks(s: &str, n: usize, i: usize) -> (res: usize)
    requires
        n == s@.len(),
        i <= n,
    ensures
        res == skip(s@, i as int),
        i <= res <= n,
{
    let mut j = i;
    while j < n
        invariant
            n == s@.len(),
            i <= j <= n,
            skip(s@, i as int) == skip(s@, j as int),
        decreases n - j,
    {
        if !blank(s.get_char(j)) {
            return j;
        }
        j = j + 1;
    }
    j
}

/// The first place from `i` on that holds no character of a name.
fn scan_name(s: &str, n: usize, i: usize) -> (res: usize)
    requires
        n == s@.len(),
        i <= n,
    ensures
        res == name_end(s@, i as int),
        i <= res <= n,
{
    let mut j = i;
    while j < n
        invariant
            n == s@.len(),
            i <= j <= n,
            name_end(s@, i as int) == name_end(s@, j as int),
        decreases n - j,
    {
        if !name_part(s.get_char(j)) {
            return j;
        }
        j = j + 1;
    }
    j
}

/// The first place from `i` on that holds no digit.
fn scan_digits(s: &str, n: usize, i: usize) -> (res: usize)
    requires
        n == s@.len(),
        i <= n,
    ensures
        res == digits_end(s@, i as int),
        i <= res <= n,
        forall|k: int| i <= k < res ==> is_digit(#[trigger] s@[k]),
{
    let mut j = i;
    while j < n
        invariant
            n == s@.len(),
            i <= j <= n,
            digits_end(s@, i as int) == digits_end(s@, j as int),
            forall|k: int| i <= k < j ==> is_digit(#[trigger] s@[k]),
        decreases n - j,
    {
        if !digit(s.get_char(j)) {
            return j;
        }
        j = j + 1;
    }
    j
}

/// The number that the digits from `from` up to `to` stand for, taken for
/// two from two on.
fn read_whole(s: &str, from: usize, to: usize) -> (res: u64)
    requires
        from <= to <= s@.len(),
        forall|k: int| from <= k < to ==> is_digit(#[trigger] s@[k]),
    ensures
        res == whole(s@, from as int, to as int),
        res <= 2,
{
    let mut v: u64 = 0;
    let mut j = from;
    while j < to
        invariant
            from <= j <= to,
            to <= s@.len(),
            forall|k: int| from <= k < to ==> is_digit(#[trigger] s@[k]),
            v == whole(s@, from as int, j as int),
            v <= 2,
        decreases to - j,
    {
        let c = s.get_char(j);
        assert(is_digit(s@[j as int]));
        let d = ((c as u32) - 48) as u64;
        v = v * 10 + d;
        if v >= 2 {
            v = 2;
        }
        j = j + 1;
    }
    v
}

/// The parts per billion that the digits from `from` up to `to` stand for
/// behind the point.
fn read_fraction(s: &str, from: usize, to: usize) -> (res: u64)
    requires
        from <= to <= s@.len(),
        forall|k: int| from <= k < to ==> is_digit(#[trigger] s@[k]),
    ensures
        res == fraction(s@, from as int, to as int, 100_000_000),
        res < ONE,
{
    let mut v: u64 = 0;
    let mut unit: u64 = 100_000_000;
    let mut j = from;
    while j < to
        invariant
            from <= j <= to,
            to <= s@.len(),
            forall|k: int| from <= k < to ==> is_digit(#[trigger] s@[k]),
            v + fraction(s@, j as int, to as int, unit as int) == fraction(
                s@,
                from as int,
                to as int,
                100_000_000,
            ),
            unit == 100_000_000 || unit == 10_000_000 || unit == 1_000_000 || unit == 100_000
                || unit == 10_000 || unit == 1_000 || unit == 100 || unit == 10 || unit == 1
                || unit == 0,
            (unit >= 1 && v + 10 * unit <= 1_000_000_000) || (unit == 0 && v <= 999_999_999),
        decreases to - j,
    {
        let c = s.get_char(j);
        assert(is_digit(s@[j as int]));
        let d = ((c as u32) - 48) as u64;
        assert(d * unit <= 9 * unit) by (nonlinear_arith)
            requires
                d <= 9,
        ;
        v = v + d * unit;
        unit = unit / 10;
        j = j + 1;
    }
    v
}

/// The place of character `c` where it stands, after blanks, from place
/// `i` on.
fn find_token(s: &str, n: usize, i: usize, c: char) -> (res: Option<usize>)
    requires
        n == s@.len(),
        i <= n,
    ensures
        res is Some <==> token(s@, i as int, c),
        res matches Some(p) ==> p == skip(s@, i as int) && i <= p < n,
{
    let p = skip_blanks(s, n, i);
    if p < n && s.get_char(p) == c {
        Some(p)
    } else {
        None
    }
}

/// The comparison operator at place `i` with the place behind it.
fn read_comp(s: &str, n: usize, i: usize) -> (res: Option<(Comp, usize)>)
    requires
        n == s@.len(),
        i <= n,
    ensures
        res is Some <==> comp_at(s@, i as int) is Some,
        res matches Some(r) ==> r.0 == comp_at(s@, i as int).unwrap().0 && r.1 == comp_at(
            s@,
            i as int,
        ).unwrap().1 && i < r.1 <= n,
{
    if i >= n {
        return None;
    }
    let c = s.get_char(i);
    if c == '<' {
        if i + 1 < n && s.get_char(i + 1) == '=' {
            Some((Comp::Leq, i + 2))
        } else {
            Some((Comp::Less, i + 1))
        }
    } else if c == '>' {
        if i + 1 < n && s.get_char(i + 1) == '=' {
            Some((Comp::Geq, i + 2))
        } else {
            Some((Comp::Greater, i + 1))
        }
    } else {
        None
    }
}

/// The number that starts at place `i`, in parts per billion, with the
/// place behind it.
fn read_number(s: &str, n: usize, i: usize) -> (res: Option<(u64, usize)>)
    requires
        n == s@.len(),
        i <= n,
    ensures
        res is Some <==> number_end(s@, i as int) is Some,
        res matches Some(r) ==> r.0 == number_value(s@, i as int) && r.1 == number_end(
            s@,
            i as int,
        ).unwrap() && i < r.1 <= n,
{
    let a = scan_digits(s, n, i);
    if a == i {
        return None;
    }
    let w = read_whole(s, i, a);
    if a < n && s.get_char(a) == '.' {
        let b = scan_digits(s, n, a + 1);
        if b == a + 1 {
            return None;
        }
        let f = read_fraction(s, a + 1, b);
        Some((w * ONE + f, b))
    } else {
        Some((w * ONE, a))
    }
}

/// Whether the characters from `a` up to `b` are the name `true`.
fn names_true(s: &str, a: usize, b: usize) -> (res: bool)
    requires
        a <= b <= s@.len(),
    ensures
        res == (s@.subrange(a as int, b as int) == word_true()),
{
    if b - a != 4 {
        assert(word_true().len() == 4);
        assert(s@.subrange(a as int, b as int).len() == b - a);
        return false;
    }
    let r = s.get_char(a) == 't' && s.get_char(a + 1) == 'r' && s.get_char(a + 2) == 'u'
        && s.get_char(a + 3) == 'e';
    proof {
        let sub = s@.subrange(a as int, b as int);
        if r {
            assert(sub =~= word_true());
        } else {
            assert(sub[0] == s@[a as int]);
            assert(sub[1] == s@[a + 1]);
            assert(sub[2] == s@[a + 2]);
            assert(sub[3] == s@[a + 3]);
        }
    }
    r
}

/// Whether the characters from `a` up to `b` are the name `false`.
fn names_false(s: &str, a: usize, b: usize) -> (res: bool)
    requires
        a <= b <= s@.len(),
    ensures
        res == (s@.subrange(a as int, b as int) == word_false()),
{
    if b - a != 5 {
        assert(word_false().len() == 5);
        assert(s@.subrange(a as int, b as int).len() == b - a);
        return false;
    }
    let r = s.get_char(a) == 'f' && s.get_char(a + 1) == 'a' && s.get_char(a + 2) == 'l'
        && s.get_char(a + 3) == 's' && s.get_char(a + 4) == 'e';
    proof {
        let sub = s@.subrange(a as int, b as int);
        if r {
            assert(sub =~= word_false());
        } else {
            assert(sub[0] == s@[a as int]);
            assert(sub[1] == s@[a + 1]);
            assert(sub[2] == s@[a + 2]);
            assert(sub[3] == s@[a + 3]);
            assert(sub[4] == s@[a + 4]);
        }
    }
    r
}

/// The tree of a unary operator.
fn make_unary(op: char, x: Syntax) -> (res: Syntax)
    requires
        is_unary(op),
    ensures
        res@ == unary(op, x@),
{
    if op == '!' {
        Syntax::Not(Box::new(x))
    } else if op == 'X' {
        Syntax::Next(Box::new(x))
    } else if op == 'F' {
        Syntax::Ev(Box::new(x))
    } else {
        Syntax::Alw(Box::new(x))
    }
}

/// The tree of a binary operator.
fn make_binary(op: char, l: Syntax, r: Syntax) -> (res: Syntax)
    requires
        is_binary(op),
    ensures
        res@ == binary(op, l@, r@),
{
    if op == '&' {
        Syntax::And(Box::new(l), Box::new(r))
    } else if op == '|' {
        Syntax::Or(Box::new(l), Box::new(r))
    } else if op == 'U' {
        Syntax::Until(Box::new(l), Box::new(r))
    } else {
        Syntax::Release(Box::new(l), Box::new(r))
    }
}

/// What the reader gives is what `formula_at` says of place `i`.
pub open spec fn reads(res: Option<(Syntax, usize)>, s: Seq<char>, i: int) -> bool {
    match formula_at(s, i) {
        None => res is None,
        Some((t, e)) => res matches Some(r) && r.0@ == t && r.1 == e && i < e <= s.len(),
    }
}

/// The formula that starts, after blanks, at place `i`, with the place
/// behind it.
pub fn parse_at(s: &str, n: usize, i: usize) -> (res: Option<(Syntax, usize)>)
    requires
        n == s@.len(),
        i <= n,
    ensures
        reads(res, s@, i as int),
    decreases n - i,
{
    let a = skip_blanks(s, n, i);
    if a >= n {
        return None;
    }
    let first = s.get_char(a);
    if first == '(' {
        let (l, b) = match parse_at(s, n, a + 1) {
            None => {
                return None;
            },
            Some(r) => r,
        };
        let close = match find_token(s, n, b, ')') {
            None => {
                return None;
            },
            Some(p) => p,
        };
        let c = skip_blanks(s, n, close + 1);
        if c >= n {
            return None;
        }
        let op = s.get_char(c);
        if !(op == '&' || op == '|' || op == 'U' || op == 'R') {
            return None;
        }
        let open = match find_token(s, n, c + 1, '(') {
            None => {
                return None;
            },
            Some(p) => p,
        };
        let (r, e) = match parse_at(s, n, open + 1) {
            None => {
                return None;
            },
            Some(r) => r,
        };
        match find_token(s, n, e, ')') {
            None => None,
            Some(p) => Some((make_binary(op, l, r), p + 1)),
        }
    } else if first == '!' || first == 'X' || first == 'F' || first == 'G' {
        let open = match find_token(s, n, a + 1, '(') {
            None => {
                return None;
            },
            Some(p) => p,
        };
        let (x, c) = match parse_at(s, n, open + 1) {
            None => {
                return None;
            },
            Some(r) => r,
        };
        match find_token(s, n, c, ')') {
            None => None,
            Some(p) => Some((make_unary(first, x), p + 1)),
        }
    } else if first == 'P' {
        let open = match find_token(s, n, a + 1, '(') {
            None => {
                return None;
            },
            Some(p) => p,
        };
        let (x, c) = match parse_at(s, n, open + 1) {
            None => {
                return None;
            },
            Some(r) => r,
        };
        let comma = match find_token(s, n, c, ',') {
            None => {
                return None;
            },
            Some(p) => p,
        };
        let at = skip_blanks(s, n, comma + 1);
        let (comp, d) = match read_comp(s, n, at) {
            None => {
                return None;
            },
            Some(r) => r,
        };
        let e = skip_blanks(s, n, d);
        let (value, f) = match read_number(s, n, e) {
            None => {
                return None;
            },
            Some(r) => r,
        };
        match find_token(s, n, f, ')') {
            None => None,
            Some(p) => if value <= ONE {
                Some((Syntax::Prob(Box::new(x), comp, value), p + 1))
            } else {
                None
            },
        }
    } else if name_start(first) {
        let b = scan_name(s, n, a);
        proof {
            assert(name_end(s@, a as int) == name_end(s@, a as int + 1));
            lemma_name_end_range(s@, a as int + 1);
        }
        if names_true(s, a, b) {
            Some((Syntax::True, b))
        } else if names_false(s, a, b) {
            Some((Syntax::False, b))
        } else {
            let name = String::from_str(s.substring_char(a, b));
            Some((Syntax::Ap(name), b))
        }
    } else {
        None
    }
}

/// Reads a query: the text `PHI`, the sign `=`, and a formula up to the
/// end of the text.
pub fn read_query(content: &str) -> (res: Option<Syntax>)
    ensures
        match query_of(content@) {
            None => res is None,
            Some(t) => res matches Some(x) && x@ == t,
        },
{
    let n = content.unicode_len();
    let a = skip_blanks(content, n, 0);
    if !(n - a >= 3 && content.get_char(a) == 'P' && content.get_char(a + 1) == 'H'
        && content.get_char(a + 2) == 'I') {
        return None;
    }
    let eq = match find_token(content, n, a + 3, '=') {
        None => {
            return None;
        },
        Some(p) => p,
    };
    let (t, b) = match parse_at(content, n, eq + 1) {
        None => {
            return None;
        },
        Some(r) => r,
    };
    if skip_blanks(content, n, b) == n {
        Some(t)
    } else {
        None
    }
}

} // verus!
