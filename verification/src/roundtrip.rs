//! Reading what was written down gives back what was written down: the
//! text of a formula is read as that formula.

use crate::comp::{Comp, ONE};
use crate::logic::{first_mark, formula_text, ltl_of, ltl_query_of, ltl_text, marked_at, pctl_text};
use crate::ltl::formula::{conj, disj, negation, Ltl};
use crate::pctl::{path_of, state_of, Pctl, PctlPath};
use crate::render::{
    around, between, bound_text, comp_text, digit_text, ltl_text_of, number_text, path_text,
    places_text, state_text,
};
use crate::syntax::{
    binary, comp_at, digit_value, digits_end, formula_at, fraction, in_name, is_binary, is_blank,
    is_digit, is_unary, name_end, number_end, number_value, query_of, skip, starts_name, unary,
    whole, word_false, word_true, Tree,
};
use vstd::prelude::*;

verus! {

/// The text `text` stands in `s` at place `i`.
pub open spec fn at(s: Seq<char>, i: int, text: Seq<char>) -> bool {
    &&& 0 <= i
    &&& i + text.len() <= s.len()
    &&& forall|k: int| 0 <= k < text.len() ==> s[i + k] == #[trigger] text[k]
}

/// A text that stands in `s` has its parts standing in `s`.
pub proof fn lemma_at_split(s: Seq<char>, i: int, a: Seq<char>, b: Seq<char>)
    requires
        at(s, i, a + b),
    ensures
        at(s, i, a),
        at(s, i + a.len(), b),
{
    assert forall|k: int| 0 <= k < a.len() implies s[i + k] == #[trigger] a[k] by {
        assert((a + b)[k] == a[k]);
    }
    assert forall|k: int| 0 <= k < b.len() implies s[i + a.len() + k] == #[trigger] b[k] by {
        assert((a + b)[a.len() + k] == b[k]);
    }
}

/// The characters of the texts that the syntax is made of.
pub proof fn lemma_words()
    ensures
        "true"@ == word_true(),
        "false"@ == word_false(),
        "!"@ == seq!['!'],
        "X"@ == seq!['X'],
        "F"@ == seq!['F'],
        "G"@ == seq!['G'],
        "U"@ == seq!['U'],
        "R"@ == seq!['R'],
        "&"@ == seq!['&'],
        "|"@ == seq!['|'],
        "("@ == seq!['('],
        ")"@ == seq![')'],
        ") "@ == seq![')', ' '],
        " ("@ == seq![' ', '('],
        "P("@ == seq!['P', '('],
        ", "@ == seq![',', ' '],
        " "@ == seq![' '],
        "."@ == seq!['.'],
        "<"@ == seq!['<'],
        "<="@ == seq!['<', '='],
        ">"@ == seq!['>'],
        ">="@ == seq!['>', '='],
        "PHI = "@ == seq!['P', 'H', 'I', ' ', '=', ' '],
{
    reveal_strlit("true");
    reveal_strlit("false");
    reveal_strlit("!");
    reveal_strlit("X");
    reveal_strlit("F");
    reveal_strlit("G");
    reveal_strlit("U");
    reveal_strlit("R");
    reveal_strlit("&");
    reveal_strlit("|");
    reveal_strlit("(");
    reveal_strlit(")");
    reveal_strlit(") ");
    reveal_strlit(" (");
    reveal_strlit("P(");
    reveal_strlit(", ");
    reveal_strlit(" ");
    reveal_strlit(".");
    reveal_strlit("<");
    reveal_strlit("<=");
    reveal_strlit(">");
    reveal_strlit(">=");
    reveal_strlit("PHI = ");
    assert("true"@ =~= word_true());
    assert("false"@ =~= word_false());
    assert("!"@ =~= seq!['!']);
    assert("X"@ =~= seq!['X']);
    assert("F"@ =~= seq!['F']);
    assert("G"@ =~= seq!['G']);
    assert("U"@ =~= seq!['U']);
    assert("R"@ =~= seq!['R']);
    assert("&"@ =~= seq!['&']);
    assert("|"@ =~= seq!['|']);
    assert("("@ =~= seq!['(']);
    assert(")"@ =~= seq![')']);
    assert(") "@ =~= seq![')', ' ']);
    assert(" ("@ =~= seq![' ', '(']);
    assert("P("@ =~= seq!['P', '(']);
    assert(", "@ =~= seq![',', ' ']);
    assert(" "@ =~= seq![' ']);
    assert("."@ =~= seq!['.']);
    assert("<"@ =~= seq!['<']);
    assert("<="@ =~= seq!['<', '=']);
    assert(">"@ =~= seq!['>']);
    assert(">="@ =~= seq!['>', '=']);
    assert("PHI = "@ =~= seq!['P', 'H', 'I', ' ', '=', ' ']);
}

/// The text of a digit is one character, the digit.
pub proof fn lemma_digit(d: int)
    requires
        0 <= d <= 9,
    ensures
        digit_text(d).len() == 1,
        is_digit(digit_text(d)[0]),
        digit_value(digit_text(d)[0]) == d,
{
    reveal_strlit("0");
    reveal_strlit("1");
    reveal_strlit("2");
    reveal_strlit("3");
    reveal_strlit("4");
    reveal_strlit("5");
    reveal_strlit("6");
    reveal_strlit("7");
    reveal_strlit("8");
    reveal_strlit("9");
}

/// The number of digits from the one that weighs `unit` down.
pub open spec fn places_len(unit: int) -> int
    decreases unit,
{
    if unit <= 0 {
        0
    } else {
        1 + places_len(unit / 10)
    }
}

/// `unit` is a power of ten up to a hundred million, or zero.
pub open spec fn is_unit(unit: int) -> bool {
    unit == 100_000_000 || unit == 10_000_000 || unit == 1_000_000 || unit == 100_000 || unit
        == 10_000 || unit == 1_000 || unit == 100 || unit == 10 || unit == 1 || unit == 0
}

/// What the digits from the one that weighs `unit` down are worth.
pub proof fn lemma_digit_weights(v: int, unit: int)
    requires
        0 <= v,
        is_unit(unit),
        unit >= 1,
    ensures
        0 <= (v / unit) % 10 <= 9,
        ((v / unit) % 10) * unit + v % unit == v % (10 * unit),
{
    vstd::arithmetic::div_mod::lemma_mod_breakdown(v, unit, 10);
    assert(unit * 10 == 10 * unit);
    assert(unit * ((v / unit) % 10) == ((v / unit) % 10) * unit) by (nonlinear_arith);
}

/// The digits of a number are digits, as many as there are places, and
/// they are worth the number.
pub proof fn lemma_places(s: Seq<char>, p: int, v: int, unit: int)
    requires
        0 <= v,
        is_unit(unit),
        at(s, p, places_text(v, unit)),
    ensures
        places_text(v, unit).len() == places_len(unit),
        forall|k: int| p <= k < p + places_len(unit) ==> is_digit(#[trigger] s[k]),
        unit >= 1 ==> fraction(s, p, p + places_len(unit), unit) == v % (10 * unit),
        unit == 0 ==> fraction(s, p, p + places_len(unit), unit) == 0,
    decreases unit,
{
    if unit >= 1 {
        let d = (v / unit) % 10;
        lemma_digit_weights(v, unit);
        assert(unit == 1 || 10 * (unit / 10) == unit);
        assert(unit == 1 ==> v % unit == 0);
        lemma_digit(d);
        let rest = places_text(v, unit / 10);
        lemma_at_split(s, p, digit_text(d), rest);
        lemma_places(s, p + 1, v, unit / 10);
        assert(s[p + 0] == digit_text(d)[0]);
        assert forall|k: int| p <= k < p + places_len(unit) implies is_digit(#[trigger] s[k]) by {
            if k > p {
                assert(p + 1 <= k < p + 1 + places_len(unit / 10));
            }
        }
        let to = p + places_len(unit);
        assert(fraction(s, p, to, unit) == digit_value(s[p]) * unit + fraction(
            s,
            p + 1,
            to,
            unit / 10,
        ));
    }
}

/// A run of digits ends where the digits end.
pub proof fn lemma_digits_run(s: Seq<char>, p: int, len: int)
    requires
        0 <= p,
        0 <= len,
        p + len <= s.len(),
        forall|k: int| p <= k < p + len ==> is_digit(#[trigger] s[k]),
        p + len == s.len() || !is_digit(s[p + len]),
    ensures
        digits_end(s, p) == p + len,
    decreases len,
{
    if len > 0 {
        assert(is_digit(s[p]));
        lemma_digits_run(s, p + 1, len - 1);
    }
}

/// A run of characters of a name ends where they end.
pub proof fn lemma_name_run(s: Seq<char>, p: int, len: int)
    requires
        0 <= p,
        0 <= len,
        p + len <= s.len(),
        forall|k: int| p <= k < p + len ==> in_name(#[trigger] s[k]),
        p + len == s.len() || !in_name(s[p + len]),
    ensures
        name_end(s, p) == p + len,
    decreases len,
{
    if len > 0 {
        assert(in_name(s[p]));
        lemma_name_run(s, p + 1, len - 1);
    }
}

/// The text of a probability of at most one is read as that probability.
pub proof fn lemma_number(s: Seq<char>, e: int, q: u64)
    requires
        q <= ONE,
        at(s, e, number_text(q)),
        e + number_text(q).len() == s.len() || !is_digit(s[e + number_text(q).len()]),
    ensures
        number_text(q).len() == 11,
        number_end(s, e) == Some(e + 11),
        number_value(s, e) == q,
        is_digit(s[e]),
{
    lemma_words();
    let d0 = (q / ONE) as int % 10;
    let v = (q % ONE) as int;
    lemma_digit(d0);
    let tail = places_text(v, 100_000_000);
    let head = digit_text(d0) + "."@;
    assert(number_text(q) == head + tail);
    lemma_at_split(s, e, head, tail);
    lemma_at_split(s, e, digit_text(d0), "."@);
    assert(head.len() == 2);
    lemma_places(s, e + 2, v, 100_000_000);
    assert(places_len(100_000_000) == 9) by {
        reveal_with_fuel(places_len, 11);
    }
    assert(s[e + 0] == digit_text(d0)[0]);
    assert(s[e + 1 + 0] == "."@[0]);
    assert(s[e + 1] == '.');
    lemma_digits_run(s, e, 1);
    lemma_digits_run(s, e + 2, 9);
    assert(whole(s, e, e + 1) == d0) by {
        reveal_with_fuel(whole, 3);
    }
}

/// A name that can be read: it starts as a name starts, is made of the
/// characters of names, and is none of the two constants.
pub open spec fn valid_name(n: Seq<char>) -> bool {
    &&& n.len() > 0
    &&& starts_name(n[0])
    &&& forall|k: int| 0 <= k < n.len() ==> in_name(#[trigger] n[k])
    &&& n != word_true()
    &&& n != word_false()
}

/// A tree that can be written down and read again: its names can be read,
/// and its probabilities are at most one.
pub open spec fn tree_ok(t: Tree) -> bool
    decreases t,
{
    match t {
        Tree::True => true,
        Tree::False => true,
        Tree::Ap(n) => valid_name(n),
        Tree::Not(x) => tree_ok(*x),
        Tree::Next(x) => tree_ok(*x),
        Tree::Ev(x) => tree_ok(*x),
        Tree::Alw(x) => tree_ok(*x),
        Tree::And(l, r) => tree_ok(*l) && tree_ok(*r),
        Tree::Or(l, r) => tree_ok(*l) && tree_ok(*r),
        Tree::Until(l, r) => tree_ok(*l) && tree_ok(*r),
        Tree::Release(l, r) => tree_ok(*l) && tree_ok(*r),
        Tree::Prob(x, _, q) => q <= ONE && tree_ok(*x),
    }
}

/// The text of a syntax tree.
pub open spec fn tree_text(t: Tree) -> Seq<char>
    decreases t,
{
    match t {
        Tree::True => "true"@,
        Tree::False => "false"@,
        Tree::Ap(n) => n,
        Tree::Not(x) => around("!"@, tree_text(*x)),
        Tree::Next(x) => around("X"@, tree_text(*x)),
        Tree::Ev(x) => around("F"@, tree_text(*x)),
        Tree::Alw(x) => around("G"@, tree_text(*x)),
        Tree::And(l, r) => between(tree_text(*l), "&"@, tree_text(*r)),
        Tree::Or(l, r) => between(tree_text(*l), "|"@, tree_text(*r)),
        Tree::Until(l, r) => between(tree_text(*l), "U"@, tree_text(*r)),
        Tree::Release(l, r) => between(tree_text(*l), "R"@, tree_text(*r)),
        Tree::Prob(x, c, q) => bound_text(tree_text(*x), c, q),
    }
}

/// The text of a tree starts with a character that is no blank.
pub proof fn lemma_text_starts(t: Tree)
    requires
        tree_ok(t),
    ensures
        tree_text(t).len() > 0,
        !is_blank(tree_text(t)[0]),
{
    lemma_words();
    match t {
        Tree::Ap(n) => {
            assert(in_name(n[0]));
        },
        _ => {},
    }
}

/// Where no blank stands, no blank is skipped.
pub proof fn lemma_skip_none(s: Seq<char>, i: int)
    requires
        0 <= i < s.len(),
        !is_blank(s[i]),
    ensures
        skip(s, i) == i,
{
}

/// One blank is skipped.
pub proof fn lemma_skip_one(s: Seq<char>, i: int)
    requires
        0 <= i,
        i + 1 < s.len(),
        s[i] == ' ',
        !is_blank(s[i + 1]),
    ensures
        skip(s, i) == i + 1,
{
    assert(skip(s, i) == skip(s, i + 1));
}

/// The text of an operator over one formula is read as the operator over
/// what the text of the formula is read as.
pub proof fn lemma_reads_unary(op: char, x: Tree, xt: Seq<char>, s: Seq<char>, i0: int, i: int)
    requires
        is_unary(op),
        0 <= i0 <= i,
        skip(s, i0) == i,
        at(s, i, around(seq![op], xt)),
        formula_at(s, i + 2) == Some((x, i + 2 + xt.len())),
    ensures
        around(seq![op], xt).len() == xt.len() + 3,
        formula_at(s, i0) == Some((unary(op, x), i + xt.len() + 3)),
{
    lemma_words();
    let text = around(seq![op], xt);
    let head = seq![op] + "("@;
    lemma_at_split(s, i, head + xt, ")"@);
    lemma_at_split(s, i, head, xt);
    lemma_at_split(s, i, seq![op], "("@);
    assert(s[i + 0] == seq![op][0]);
    assert(s[i + 1 + 0] == "("@[0]);
    let c = i + 2 + xt.len();
    assert(s[c + 0] == ")"@[0]);
    lemma_skip_none(s, i + 1);
    lemma_skip_none(s, c);
}

/// The text of an operator between two formulae is read as the operator
/// between what the texts of the formulae are read as.
pub proof fn lemma_reads_binary(
    op: char,
    l: Tree,
    lt: Seq<char>,
    r: Tree,
    rt: Seq<char>,
    s: Seq<char>,
    i0: int,
    i: int,
)
    requires
        is_binary(op),
        0 <= i0 <= i,
        skip(s, i0) == i,
        at(s, i, between(lt, seq![op], rt)),
        formula_at(s, i + 1) == Some((l, i + 1 + lt.len())),
        formula_at(s, i + lt.len() + 6) == Some((r, i + lt.len() + 6 + rt.len())),
    ensures
        between(lt, seq![op], rt).len() == lt.len() + rt.len() + 7,
        formula_at(s, i0) == Some((binary(op, l, r), i + lt.len() + rt.len() + 7)),
{
    lemma_words();
    let a = "("@ + lt;
    let b = a + ") "@;
    let c = b + seq![op];
    let d = c + " ("@;
    let e = d + rt;
    lemma_at_split(s, i, e, ")"@);
    lemma_at_split(s, i, d, rt);
    lemma_at_split(s, i, c, " ("@);
    lemma_at_split(s, i, b, seq![op]);
    lemma_at_split(s, i, a, ") "@);
    lemma_at_split(s, i, "("@, lt);
    let close = i + 1 + lt.len();
    assert(s[i + 0] == "("@[0]);
    assert(s[close + 0] == ") "@[0]);
    assert(s[close + 1] == ") "@[1]);
    assert(s[close + 2 + 0] == seq![op][0]);
    assert(s[close + 3 + 0] == " ("@[0]);
    assert(s[close + 3 + 1] == " ("@[1]);
    let end = i + lt.len() + 6 + rt.len();
    assert(s[end + 0] == ")"@[0]);
    lemma_skip_none(s, close);
    lemma_skip_one(s, close + 1);
    lemma_skip_one(s, close + 3);
    lemma_skip_none(s, end);
}

/// The text of a comparison operator, with a blank behind it, is read as
/// the operator.
pub proof fn lemma_reads_comp(c: Comp, s: Seq<char>, p: int)
    requires
        at(s, p, comp_text(c) + " "@),
    ensures
        1 <= comp_text(c).len() <= 2,
        comp_at(s, p) == Some((c, p + comp_text(c).len())),
        s[p + comp_text(c).len()] == ' ',
        !is_blank(s[p]),
{
    lemma_words();
    lemma_at_split(s, p, comp_text(c), " "@);
    let n = comp_text(c).len() as int;
    assert(s[p + n + 0] == " "@[0]);
    assert(s[p + 0] == comp_text(c)[0]);
    if n == 2 {
        assert(s[p + 1] == comp_text(c)[1]);
    }
}

/// The text of a probability bound is read as the bound on what the text
/// of the formula is read as.
pub proof fn lemma_reads_bound(
    x: Tree,
    xt: Seq<char>,
    c: Comp,
    q: u64,
    s: Seq<char>,
    i0: int,
    i: int,
)
    requires
        q <= ONE,
        0 <= i0 <= i,
        skip(s, i0) == i,
        at(s, i, bound_text(xt, c, q)),
        formula_at(s, i + 2) == Some((x, i + 2 + xt.len())),
    ensures
        bound_text(xt, c, q).len() == xt.len() + comp_text(c).len() + 17,
        formula_at(s, i0) == Some(
            (Tree::Prob(Box::new(x), c, q), i + xt.len() + comp_text(c).len() + 17),
        ),
{
    lemma_words();
    let a = "P("@ + xt;
    let b = a + ", "@;
    let cc = b + comp_text(c);
    let d = cc + " "@;
    let e = d + number_text(q);
    lemma_at_split(s, i, e, ")"@);
    lemma_at_split(s, i, d, number_text(q));
    lemma_at_split(s, i, cc, " "@);
    lemma_at_split(s, i, b, comp_text(c));
    lemma_at_split(s, i, a, ", "@);
    lemma_at_split(s, i, "P("@, xt);
    assert(s[i + 0] == "P("@[0]);
    assert(s[i + 1] == "P("@[1]);
    let comma = i + 2 + xt.len();
    assert(s[comma + 0] == ", "@[0]);
    assert(s[comma + 1] == ", "@[1]);
    let cp = comma + 2;
    let n = comp_text(c).len() as int;
    assert(at(s, cp, comp_text(c) + " "@)) by {
        assert forall|k: int| 0 <= k < (comp_text(c) + " "@).len() implies s[cp + k] == #[trigger] (
        comp_text(c) + " "@)[k] by {
            if k < n {
                assert(s[cp + k] == comp_text(c)[k]);
            } else {
                assert(s[cp + n + (k - n)] == " "@[k - n]);
            }
        }
    }
    lemma_reads_comp(c, s, cp);
    let np = cp + n + 1;
    let end = np + number_text(q).len();
    assert(s[end + 0] == ")"@[0]);
    lemma_number(s, np, q);
    lemma_skip_none(s, i + 1);
    lemma_skip_none(s, comma);
    lemma_skip_one(s, comma + 1);
    lemma_skip_one(s, cp + n);
    lemma_skip_none(s, end);
    assert(skip(s, cp + n) == np);
}

/// The text of a tree is read as the tree: where the text stands behind
/// blanks and no character of a name stands behind it, the tree is read,
/// up to the end of the text.
pub proof fn lemma_reads_back(t: Tree, s: Seq<char>, i0: int, i: int)
    requires
        tree_ok(t),
        0 <= i0 <= i,
        skip(s, i0) == i,
        at(s, i, tree_text(t)),
        i + tree_text(t).len() == s.len() || !in_name(s[i + tree_text(t).len()]),
    ensures
        formula_at(s, i0) == Some((t, i + tree_text(t).len())),
    decreases t, 1int,
{
    match t {
        Tree::True => {
            lemma_words();
            lemma_reads_name(word_true(), s, i0, i);
        },
        Tree::False => {
            lemma_words();
            lemma_reads_name(word_false(), s, i0, i);
        },
        Tree::Ap(n) => {
            lemma_reads_name(n, s, i0, i);
        },
        Tree::Not(x) => {
            lemma_words();
            lemma_back_unary(t, '!', *x, s, i0, i);
        },
        Tree::Next(x) => {
            lemma_words();
            lemma_back_unary(t, 'X', *x, s, i0, i);
        },
        Tree::Ev(x) => {
            lemma_words();
            lemma_back_unary(t, 'F', *x, s, i0, i);
        },
        Tree::Alw(x) => {
            lemma_words();
            lemma_back_unary(t, 'G', *x, s, i0, i);
        },
        Tree::And(l, r) => {
            lemma_words();
            lemma_back_binary(t, '&', *l, *r, s, i0, i);
        },
        Tree::Or(l, r) => {
            lemma_words();
            lemma_back_binary(t, '|', *l, *r, s, i0, i);
        },
        Tree::Until(l, r) => {
            lemma_words();
            lemma_back_binary(t, 'U', *l, *r, s, i0, i);
        },
        Tree::Release(l, r) => {
            lemma_words();
            lemma_back_binary(t, 'R', *l, *r, s, i0, i);
        },
        Tree::Prob(x, c, q) => {
            lemma_back_bound(t, *x, c, q, s, i0, i);
        },
    }
}

/// The text of an operator over the text of a tree is read as the operator
/// over the tree.
pub proof fn lemma_back_unary(t: Tree, op: char, x: Tree, s: Seq<char>, i0: int, i: int)
    requires
        t == unary(op, x),
        is_unary(op),
        tree_ok(x),
        0 <= i0 <= i,
        skip(s, i0) == i,
        at(s, i, around(seq![op], tree_text(x))),
    ensures
        formula_at(s, i0) == Some((unary(op, x), i + around(seq![op], tree_text(x)).len())),
    decreases t, 0int,
{
    lemma_inner_unary(op, x, s, i);
    match t {
        Tree::Not(b) => {
            lemma_reads_back(*b, s, i + 2, i + 2);
        },
        Tree::Next(b) => {
            lemma_reads_back(*b, s, i + 2, i + 2);
        },
        Tree::Ev(b) => {
            lemma_reads_back(*b, s, i + 2, i + 2);
        },
        Tree::Alw(b) => {
            lemma_reads_back(*b, s, i + 2, i + 2);
        },
        _ => {},
    }
    lemma_reads_unary(op, x, tree_text(x), s, i0, i);
}

/// The text of an operator between the texts of two trees is read as the
/// operator between the trees.
pub proof fn lemma_back_binary(t: Tree, op: char, l: Tree, r: Tree, s: Seq<char>, i0: int, i: int)
    requires
        t == binary(op, l, r),
        is_binary(op),
        tree_ok(l),
        tree_ok(r),
        0 <= i0 <= i,
        skip(s, i0) == i,
        at(s, i, between(tree_text(l), seq![op], tree_text(r))),
    ensures
        formula_at(s, i0) == Some(
            (binary(op, l, r), i + between(tree_text(l), seq![op], tree_text(r)).len()),
        ),
    decreases t, 0int,
{
    lemma_inner_binary(op, l, r, s, i);
    let at_r = i + tree_text(l).len() + 6;
    match t {
        Tree::And(a, b) => {
            lemma_reads_back(*a, s, i + 1, i + 1);
            lemma_reads_back(*b, s, at_r, at_r);
        },
        Tree::Or(a, b) => {
            lemma_reads_back(*a, s, i + 1, i + 1);
            lemma_reads_back(*b, s, at_r, at_r);
        },
        Tree::Until(a, b) => {
            lemma_reads_back(*a, s, i + 1, i + 1);
            lemma_reads_back(*b, s, at_r, at_r);
        },
        Tree::Release(a, b) => {
            lemma_reads_back(*a, s, i + 1, i + 1);
            lemma_reads_back(*b, s, at_r, at_r);
        },
        _ => {},
    }
    lemma_reads_binary(op, l, tree_text(l), r, tree_text(r), s, i0, i);
}

/// The text of a bound on the text of a tree is read as the bound on the
/// tree.
pub proof fn lemma_back_bound(t: Tree, x: Tree, c: Comp, q: u64, s: Seq<char>, i0: int, i: int)
    requires
        t == Tree::Prob(Box::new(x), c, q),
        q <= ONE,
        tree_ok(x),
        0 <= i0 <= i,
        skip(s, i0) == i,
        at(s, i, bound_text(tree_text(x), c, q)),
    ensures
        formula_at(s, i0) == Some(
            (Tree::Prob(Box::new(x), c, q), i + bound_text(tree_text(x), c, q).len()),
        ),
    decreases t, 0int,
{
    lemma_inner_bound(x, c, q, s, i);
    match t {
        Tree::Prob(b, _, _) => {
            lemma_reads_back(*b, s, i + 2, i + 2);
        },
        _ => {},
    }
    lemma_reads_bound(x, tree_text(x), c, q, s, i0, i);
}

/// A name, or one of the two constants, is read back.
pub proof fn lemma_reads_name(n: Seq<char>, s: Seq<char>, i0: int, i: int)
    requires
        n.len() > 0,
        starts_name(n[0]),
        forall|k: int| 0 <= k < n.len() ==> in_name(#[trigger] n[k]),
        0 <= i0 <= i,
        skip(s, i0) == i,
        at(s, i, n),
        i + n.len() == s.len() || !in_name(s[i + n.len()]),
    ensures
        n == word_true() ==> formula_at(s, i0) == Some((Tree::True, i + n.len())),
        n == word_false() ==> formula_at(s, i0) == Some((Tree::False, i + n.len())),
        n != word_true() && n != word_false() ==> formula_at(s, i0) == Some(
            (Tree::Ap(n), i + n.len()),
        ),
{
    assert(s[i + 0] == n[0]);
    assert forall|k: int| i <= k < i + n.len() implies in_name(#[trigger] s[k]) by {
        assert(s[i + (k - i)] == n[k - i]);
    }
    lemma_name_run(s, i, n.len() as int);
    assert(s.subrange(i, i + n.len()) =~= n) by {
        assert forall|k: int| 0 <= k < n.len() implies s.subrange(i, i + n.len())[k] == n[k] by {
            assert(s[i + k] == n[k]);
        }
    }
}

/// Where the text of an operator over one formula stands, the text of the
/// formula stands behind the operator and its bracket, with a bracket
/// behind it.
pub proof fn lemma_inner_unary(op: char, x: Tree, s: Seq<char>, i: int)
    requires
        tree_ok(x),
        at(s, i, around(seq![op], tree_text(x))),
    ensures
        at(s, i + 2, tree_text(x)),
        skip(s, i + 2) == i + 2,
        i + 2 + tree_text(x).len() < s.len(),
        !in_name(s[i + 2 + tree_text(x).len()]),
{
    lemma_words();
    let xt = tree_text(x);
    let head = seq![op] + "("@;
    lemma_at_split(s, i, head + xt, ")"@);
    lemma_at_split(s, i, head, xt);
    let c = i + 2 + xt.len();
    assert(s[c + 0] == ")"@[0]);
    lemma_text_starts(x);
    assert(s[i + 2 + 0] == xt[0]);
    lemma_skip_none(s, i + 2);
}

/// Where the text of an operator between two formulae stands, the texts
/// of the formulae stand in their brackets.
pub proof fn lemma_inner_binary(op: char, l: Tree, r: Tree, s: Seq<char>, i: int)
    requires
        tree_ok(l),
        tree_ok(r),
        at(s, i, between(tree_text(l), seq![op], tree_text(r))),
    ensures
        at(s, i + 1, tree_text(l)),
        skip(s, i + 1) == i + 1,
        i + 1 + tree_text(l).len() < s.len(),
        !in_name(s[i + 1 + tree_text(l).len()]),
        at(s, i + tree_text(l).len() + 6, tree_text(r)),
        skip(s, i + tree_text(l).len() + 6) == i + tree_text(l).len() + 6,
        i + tree_text(l).len() + 6 + tree_text(r).len() < s.len(),
        !in_name(s[i + tree_text(l).len() + 6 + tree_text(r).len()]),
{
    lemma_words();
    let lt = tree_text(l);
    let rt = tree_text(r);
    let a = "("@ + lt;
    let b = a + ") "@;
    let c = b + seq![op];
    let d = c + " ("@;
    let e = d + rt;
    lemma_at_split(s, i, e, ")"@);
    lemma_at_split(s, i, d, rt);
    lemma_at_split(s, i, c, " ("@);
    lemma_at_split(s, i, b, seq![op]);
    lemma_at_split(s, i, a, ") "@);
    lemma_at_split(s, i, "("@, lt);
    let close = i + 1 + lt.len();
    assert(s[close + 0] == ") "@[0]);
    let end = i + lt.len() + 6 + rt.len();
    assert(s[end + 0] == ")"@[0]);
    lemma_text_starts(l);
    lemma_text_starts(r);
    assert(s[i + 1 + 0] == lt[0]);
    assert(s[i + lt.len() + 6 + 0] == rt[0]);
    lemma_skip_none(s, i + 1);
    lemma_skip_none(s, i + lt.len() + 6);
}

/// Where the text of a probability bound stands, the text of the formula
/// stands behind the bracket, with a comma behind it.
pub proof fn lemma_inner_bound(x: Tree, c: Comp, q: u64, s: Seq<char>, i: int)
    requires
        tree_ok(x),
        at(s, i, bound_text(tree_text(x), c, q)),
    ensures
        at(s, i + 2, tree_text(x)),
        skip(s, i + 2) == i + 2,
        i + 2 + tree_text(x).len() < s.len(),
        !in_name(s[i + 2 + tree_text(x).len()]),
{
    lemma_words();
    let xt = tree_text(x);
    let a = "P("@ + xt;
    let b = a + ", "@;
    let cc = b + comp_text(c);
    let d = cc + " "@;
    let e = d + number_text(q);
    lemma_at_split(s, i, e, ")"@);
    lemma_at_split(s, i, d, number_text(q));
    lemma_at_split(s, i, cc, " "@);
    lemma_at_split(s, i, b, comp_text(c));
    lemma_at_split(s, i, a, ", "@);
    lemma_at_split(s, i, "P("@, xt);
    let comma = i + 2 + xt.len();
    assert(s[comma + 0] == ", "@[0]);
    lemma_text_starts(x);
    assert(s[i + 2 + 0] == xt[0]);
    lemma_skip_none(s, i + 2);
}

/// The characters up to the end of a name are characters of names.
pub proof fn lemma_name_chars(s: Seq<char>, a: int, k: int)
    requires
        0 <= a <= k < name_end(s, a),
    ensures
        k < s.len(),
        in_name(s[k]),
    decreases k - a,
{
    if a < s.len() && in_name(s[a]) {
        if a < k {
            lemma_name_chars(s, a + 1, k);
        }
    }
}

/// A tree that is read can be written down and read again.
pub proof fn lemma_parsed_ok(s: Seq<char>, i: int)
    requires
        formula_at(s, i) is Some,
    ensures
        tree_ok(formula_at(s, i).unwrap().0),
    decreases s.len() - i,
{
    let a = skip(s, i);
    let t = formula_at(s, i).unwrap().0;
    if s[a] == '(' {
        lemma_parsed_ok(s, a + 1);
        let l = formula_at(s, a + 1).unwrap().0;
        let b = formula_at(s, a + 1).unwrap().1;
        let c = skip(s, skip(s, b) + 1);
        let d = skip(s, c + 1) + 1;
        lemma_parsed_ok(s, d);
        let r = formula_at(s, d).unwrap().0;
        assert(t == binary(s[c], l, r));
        assert(tree_ok(l) && tree_ok(r));
        assert(tree_ok(binary(s[c], l, r)));
    } else if is_unary(s[a]) {
        let b = skip(s, a + 1) + 1;
        lemma_parsed_ok(s, b);
        let x = formula_at(s, b).unwrap().0;
        assert(t == unary(s[a], x));
        assert(tree_ok(unary(s[a], x)));
    } else if s[a] == 'P' {
        let b = skip(s, a + 1) + 1;
        lemma_parsed_ok(s, b);
        let x = formula_at(s, b).unwrap().0;
        assert(t matches Tree::Prob(y, _, q) && *y == x && q <= ONE);
    } else {
        let b = name_end(s, a);
        assert(starts_name(s[a]));
        assert(name_end(s, a) == name_end(s, a + 1));
        crate::syntax::lemma_name_end_range(s, a + 1);
        let name = s.subrange(a, b);
        assert forall|k: int| 0 <= k < name.len() implies in_name(#[trigger] name[k]) by {
            lemma_name_chars(s, a, a + k);
        }
        assert(name[0] == s[a]);
        if name != word_true() && name != word_false() {
            assert(t == Tree::Ap(name));
            assert(valid_name(name));
        }
    }
}

/// A state formula that can be written down and read again: its names can
/// be read, and its probabilities are at most one.
pub open spec fn pctl_ok(p: Pctl) -> bool
    decreases p,
{
    match p {
        Pctl::True => true,
        Pctl::AP(n) => valid_name(n),
        Pctl::Not(x) => pctl_ok(*x),
        Pctl::And(l, r) => pctl_ok(*l) && pctl_ok(*r),
        Pctl::Prob(path, _, q) => q <= ONE && match *path {
            PctlPath::Next(x) => pctl_ok(*x),
            PctlPath::Until(l, r) => pctl_ok(*l) && pctl_ok(*r),
        },
    }
}

/// The syntax tree of a state formula.
pub open spec fn pctl_tree(p: Pctl) -> Tree
    decreases p,
{
    match p {
        Pctl::True => Tree::True,
        Pctl::AP(n) => Tree::Ap(n),
        Pctl::Not(x) => Tree::Not(Box::new(pctl_tree(*x))),
        Pctl::And(l, r) => Tree::And(Box::new(pctl_tree(*l)), Box::new(pctl_tree(*r))),
        Pctl::Prob(path, c, q) => match *path {
            PctlPath::Next(x) => Tree::Prob(Box::new(Tree::Next(Box::new(pctl_tree(*x)))), c, q),
            PctlPath::Until(l, r) => Tree::Prob(
                Box::new(Tree::Until(Box::new(pctl_tree(*l)), Box::new(pctl_tree(*r)))),
                c,
                q,
            ),
        },
    }
}

/// The tree of a state formula has the text of the formula and stands for
/// the formula.
pub proof fn lemma_pctl_tree(p: Pctl)
    requires
        pctl_ok(p),
    ensures
        tree_ok(pctl_tree(p)),
        tree_text(pctl_tree(p)) == state_text(p),
        state_of(pctl_tree(p)) == Some(p),
    decreases p,
{
    reveal_with_fuel(tree_ok, 3);
    reveal_with_fuel(tree_text, 3);
    reveal_with_fuel(state_of, 3);
    reveal_with_fuel(path_of, 3);
    match p {
        Pctl::True => {},
        Pctl::AP(_) => {},
        Pctl::Not(x) => {
            lemma_pctl_tree(*x);
        },
        Pctl::And(l, r) => {
            lemma_pctl_tree(*l);
            lemma_pctl_tree(*r);
        },
        Pctl::Prob(path, c, q) => {
            match *path {
                PctlPath::Next(x) => {
                    lemma_pctl_tree(*x);
                    let t = Tree::Next(Box::new(pctl_tree(*x)));
                    assert(path_of(t) == Some(PctlPath::Next(Box::new(*x))));
                    assert(tree_text(t) == path_text(*path));
                },
                PctlPath::Until(l, r) => {
                    lemma_pctl_tree(*l);
                    lemma_pctl_tree(*r);
                    let t = Tree::Until(Box::new(pctl_tree(*l)), Box::new(pctl_tree(*r)));
                    assert(path_of(t) == Some(PctlPath::Until(Box::new(*l), Box::new(*r))));
                    assert(tree_text(t) == path_text(*path));
                },
            }
        },
    }
}

/// What a tree that can be written down stands for can be written down.
pub proof fn lemma_state_ok(t: Tree)
    requires
        tree_ok(t),
        state_of(t) is Some,
    ensures
        pctl_ok(state_of(t).unwrap()),
    decreases t,
{
    reveal_with_fuel(tree_ok, 3);
    reveal_with_fuel(state_of, 3);
    reveal_with_fuel(path_of, 3);
    reveal_with_fuel(pctl_ok, 4);
    match t {
        Tree::Not(x) => {
            lemma_state_ok(*x);
        },
        Tree::And(l, r) => {
            lemma_state_ok(*l);
            lemma_state_ok(*r);
        },
        Tree::Or(l, r) => {
            lemma_state_ok(*l);
            lemma_state_ok(*r);
        },
        Tree::Prob(x, c, q) => {
            match *x {
                Tree::Alw(y) => {
                    lemma_state_ok(*y);
                },
                Tree::Next(y) => {
                    lemma_state_ok(*y);
                },
                Tree::Ev(y) => {
                    lemma_state_ok(*y);
                },
                Tree::Until(l, r) => {
                    lemma_state_ok(*l);
                    lemma_state_ok(*r);
                },
                _ => {},
            }
        },
        _ => {},
    }
}

/// The text holds no `H`.
pub open spec fn no_h(text: Seq<char>) -> bool {
    forall|k: int| 0 <= k < text.len() ==> #[trigger] text[k] != 'H'
}

pub proof fn lemma_no_h_join(a: Seq<char>, b: Seq<char>)
    requires
        no_h(a),
        no_h(b),
    ensures
        no_h(a + b),
{
    assert forall|k: int| 0 <= k < (a + b).len() implies #[trigger] (a + b)[k] != 'H' by {
        if k < a.len() {
            assert((a + b)[k] == a[k]);
        } else {
            assert((a + b)[k] == b[k - a.len()]);
        }
    }
}

pub proof fn lemma_no_h_places(v: int, unit: int)
    requires
        0 <= v,
        is_unit(unit),
    ensures
        no_h(places_text(v, unit)),
    decreases unit,
{
    if unit >= 1 {
        let d = (v / unit) % 10;
        lemma_digit_weights(v, unit);
        lemma_digit(d);
        lemma_no_h_places(v, unit / 10);
        assert(no_h(digit_text(d))) by {
            assert(is_digit(digit_text(d)[0]));
        }
        lemma_no_h_join(digit_text(d), places_text(v, unit / 10));
    }
}

pub proof fn lemma_no_h_bound(x: Seq<char>, c: Comp, q: u64)
    requires
        no_h(x),
    ensures
        no_h(bound_text(x, c, q)),
{
    lemma_words();
    let d0 = (q / ONE) as int % 10;
    lemma_digit(d0);
    assert(no_h(digit_text(d0))) by {
        assert(is_digit(digit_text(d0)[0]));
    }
    lemma_no_h_places((q % ONE) as int, 100_000_000);
    lemma_no_h_join(digit_text(d0), "."@);
    lemma_no_h_join(digit_text(d0) + "."@, places_text((q % ONE) as int, 100_000_000));
    lemma_no_h_join("P("@, x);
    lemma_no_h_join("P("@ + x, ", "@);
    lemma_no_h_join("P("@ + x + ", "@, comp_text(c));
    lemma_no_h_join("P("@ + x + ", "@ + comp_text(c), " "@);
    lemma_no_h_join("P("@ + x + ", "@ + comp_text(c) + " "@, number_text(q));
    lemma_no_h_join("P("@ + x + ", "@ + comp_text(c) + " "@ + number_text(q), ")"@);
}

pub proof fn lemma_no_h_around(op: Seq<char>, x: Seq<char>)
    requires
        no_h(op),
        no_h(x),
    ensures
        no_h(around(op, x)),
{
    lemma_words();
    lemma_no_h_join(op, "("@);
    lemma_no_h_join(op + "("@, x);
    lemma_no_h_join(op + "("@ + x, ")"@);
}

pub proof fn lemma_no_h_between(l: Seq<char>, op: Seq<char>, r: Seq<char>)
    requires
        no_h(l),
        no_h(op),
        no_h(r),
    ensures
        no_h(between(l, op, r)),
{
    lemma_words();
    lemma_no_h_join("("@, l);
    lemma_no_h_join("("@ + l, ") "@);
    lemma_no_h_join("("@ + l + ") "@, op);
    lemma_no_h_join("("@ + l + ") "@ + op, " ("@);
    lemma_no_h_join("("@ + l + ") "@ + op + " ("@, r);
    lemma_no_h_join("("@ + l + ") "@ + op + " ("@ + r, ")"@);
}

/// The text of a tree holds no `H`.
pub proof fn lemma_no_h(t: Tree)
    requires
        tree_ok(t),
    ensures
        no_h(tree_text(t)),
    decreases t,
{
    lemma_words();
    match t {
        Tree::True => {},
        Tree::False => {},
        Tree::Ap(n) => {
            assert forall|k: int| 0 <= k < n.len() implies #[trigger] n[k] != 'H' by {
                assert(in_name(n[k]));
            }
        },
        Tree::Not(x) => {
            lemma_no_h(*x);
            lemma_no_h_around("!"@, tree_text(*x));
        },
        Tree::Next(x) => {
            lemma_no_h(*x);
            lemma_no_h_around("X"@, tree_text(*x));
        },
        Tree::Ev(x) => {
            lemma_no_h(*x);
            lemma_no_h_around("F"@, tree_text(*x));
        },
        Tree::Alw(x) => {
            lemma_no_h(*x);
            lemma_no_h_around("G"@, tree_text(*x));
        },
        Tree::And(l, r) => {
            lemma_no_h(*l);
            lemma_no_h(*r);
            lemma_no_h_between(tree_text(*l), "&"@, tree_text(*r));
        },
        Tree::Or(l, r) => {
            lemma_no_h(*l);
            lemma_no_h(*r);
            lemma_no_h_between(tree_text(*l), "|"@, tree_text(*r));
        },
        Tree::Until(l, r) => {
            lemma_no_h(*l);
            lemma_no_h(*r);
            lemma_no_h_between(tree_text(*l), "U"@, tree_text(*r));
        },
        Tree::Release(l, r) => {
            lemma_no_h(*l);
            lemma_no_h(*r);
            lemma_no_h_between(tree_text(*l), "R"@, tree_text(*r));
        },
        Tree::Prob(x, c, q) => {
            lemma_no_h(*x);
            lemma_no_h_bound(tree_text(*x), c, q);
        },
    }
}

/// Where the marker stands nowhere from place `k` on, none is found.
pub proof fn lemma_no_mark(s: Seq<char>, k: int)
    requires
        0 <= k,
        forall|j: int| k <= j < s.len() ==> !marked_at(s, j),
    ensures
        first_mark(s, k) == s.len(),
    decreases s.len() - k,
{
    if k < s.len() {
        lemma_no_mark(s, k + 1);
    }
}

/// The text of a query is read as the tree of which it is the text.
pub proof fn lemma_query_back(t: Tree)
    requires
        tree_ok(t),
    ensures
        formula_text("PHI = "@ + tree_text(t)) == Some("PHI = "@ + tree_text(t)),
        query_of("PHI = "@ + tree_text(t)) == Some(t),
{
    lemma_words();
    let text = tree_text(t);
    let r = "PHI = "@ + text;
    lemma_no_h(t);
    lemma_text_starts(t);
    assert(r[0] == 'P' && r[1] == 'H' && r[2] == 'I' && r[3] == ' ' && r[4] == '=' && r[5] == ' ');
    assert forall|k: int| 0 <= k < text.len() implies r[6 + k] == #[trigger] text[k] by {}
    assert(at(r, 6, text));
    assert(marked_at(r, 0));
    assert(first_mark(r, 0) == 0);
    assert forall|j: int| 3 <= j < r.len() implies !marked_at(r, j) by {
        if j + 3 <= r.len() {
            if j + 1 >= 6 {
                assert(r[6 + (j + 1 - 6)] == text[j + 1 - 6]);
            }
        }
    }
    lemma_no_mark(r, 3);
    assert(r.subrange(0, r.len() as int) =~= r);
    lemma_skip_none(r, 0);
    lemma_skip_one(r, 3);
    assert(r[6int + 0] == text[0]);
    lemma_skip_one(r, 5);
    lemma_reads_back(t, r, 5, 6);
    assert(skip(r, r.len() as int) == r.len());
}

/// Reading is idempotent for PCTL: where a text is read as a query, the
/// text that is written for the query is read as the same query.
pub proof fn pctl_reading_is_idempotent(s: Seq<char>)
    requires
        pctl_text(s) is Some,
    ensures
        pctl_text("PHI = "@ + state_text(pctl_text(s).unwrap())) == pctl_text(s),
{
    let p = pctl_text(s).unwrap();
    let txt = formula_text(s).unwrap();
    let a = skip(txt, 0);
    let start = skip(txt, a + 3) + 1;
    lemma_parsed_ok(txt, start);
    let tree = query_of(txt).unwrap();
    lemma_state_ok(tree);
    lemma_pctl_tree(p);
    lemma_query_back(pctl_tree(p));
}

/// An LTL formula whose names can be read.
pub open spec fn ltl_ok(f: Ltl) -> bool
    decreases f,
{
    match f {
        Ltl::True => true,
        Ltl::False => true,
        Ltl::Not(n) => valid_name(n),
        Ltl::AP(n) => valid_name(n),
        Ltl::Until(l, r) => ltl_ok(*l) && ltl_ok(*r),
        Ltl::Next(x) => ltl_ok(*x),
        Ltl::Release(l, r) => ltl_ok(*l) && ltl_ok(*r),
        Ltl::And(l, r) => ltl_ok(*l) && ltl_ok(*r),
        Ltl::Or(l, r) => ltl_ok(*l) && ltl_ok(*r),
    }
}

/// An LTL formula in which no conjunction and no disjunction can be made
/// simpler: no conjunction joins a formula with itself, and none joins
/// with a constant, nor does a disjunction.
pub open spec fn plain(f: Ltl) -> bool
    decreases f,
{
    match f {
        Ltl::Until(l, r) => plain(*l) && plain(*r),
        Ltl::Next(x) => plain(*x),
        Ltl::Release(l, r) => plain(*l) && plain(*r),
        Ltl::And(l, r) => plain(*l) && plain(*r) && conj(*l, *r) == f,
        Ltl::Or(l, r) => plain(*l) && plain(*r) && disj(*l, *r) == f,
        _ => true,
    }
}

/// The syntax tree of an LTL formula.
pub open spec fn ltl_tree(f: Ltl) -> Tree
    decreases f,
{
    match f {
        Ltl::True => Tree::True,
        Ltl::False => Tree::False,
        Ltl::Not(n) => Tree::Not(Box::new(Tree::Ap(n))),
        Ltl::AP(n) => Tree::Ap(n),
        Ltl::Until(l, r) => Tree::Until(Box::new(ltl_tree(*l)), Box::new(ltl_tree(*r))),
        Ltl::Next(x) => Tree::Next(Box::new(ltl_tree(*x))),
        Ltl::Release(l, r) => Tree::Release(Box::new(ltl_tree(*l)), Box::new(ltl_tree(*r))),
        Ltl::And(l, r) => Tree::And(Box::new(ltl_tree(*l)), Box::new(ltl_tree(*r))),
        Ltl::Or(l, r) => Tree::Or(Box::new(ltl_tree(*l)), Box::new(ltl_tree(*r))),
    }
}

/// The tree of a plain LTL formula has the text of the formula and stands
/// for the formula.
pub proof fn lemma_ltl_tree(f: Ltl)
    requires
        ltl_ok(f),
        plain(f),
    ensures
        tree_ok(ltl_tree(f)),
        tree_text(ltl_tree(f)) == ltl_text_of(f),
        ltl_of(ltl_tree(f)) == Some(f),
    decreases f,
{
    reveal_with_fuel(tree_ok, 3);
    reveal_with_fuel(tree_text, 3);
    reveal_with_fuel(ltl_of, 3);
    match f {
        Ltl::Not(n) => {
            assert(ltl_of(Tree::Ap(n)) == Some(Ltl::AP(n)));
            assert(tree_text(Tree::Ap(n)) == n);
        },
        Ltl::Until(l, r) => {
            lemma_ltl_tree(*l);
            lemma_ltl_tree(*r);
        },
        Ltl::Next(x) => {
            lemma_ltl_tree(*x);
        },
        Ltl::Release(l, r) => {
            lemma_ltl_tree(*l);
            lemma_ltl_tree(*r);
        },
        Ltl::And(l, r) => {
            lemma_ltl_tree(*l);
            lemma_ltl_tree(*r);
        },
        Ltl::Or(l, r) => {
            lemma_ltl_tree(*l);
            lemma_ltl_tree(*r);
        },
        _ => {},
    }
}

/// The negation of a formula whose names can be read has names that can be
/// read.
pub proof fn lemma_negation_ok(f: Ltl)
    requires
        ltl_ok(f),
    ensures
        ltl_ok(negation(f)),
    decreases f,
{
    match f {
        Ltl::Until(l, r) => {
            lemma_negation_ok(*l);
            lemma_negation_ok(*r);
        },
        Ltl::Next(x) => {
            lemma_negation_ok(*x);
        },
        Ltl::Release(l, r) => {
            lemma_negation_ok(*l);
            lemma_negation_ok(*r);
        },
        Ltl::And(l, r) => {
            lemma_negation_ok(*l);
            lemma_negation_ok(*r);
        },
        Ltl::Or(l, r) => {
            lemma_negation_ok(*l);
            lemma_negation_ok(*r);
        },
        _ => {},
    }
}

/// What a tree that can be written down stands for, as an LTL formula,
/// has names that can be read.
pub proof fn lemma_ltl_ok(t: Tree)
    requires
        tree_ok(t),
        ltl_of(t) is Some,
    ensures
        ltl_ok(ltl_of(t).unwrap()),
    decreases t,
{
    reveal_with_fuel(ltl_ok, 3);
    match t {
        Tree::Not(x) => {
            lemma_ltl_ok(*x);
            lemma_negation_ok(ltl_of(*x).unwrap());
        },
        Tree::Next(x) => {
            lemma_ltl_ok(*x);
        },
        Tree::Ev(x) => {
            lemma_ltl_ok(*x);
        },
        Tree::Alw(x) => {
            lemma_ltl_ok(*x);
        },
        Tree::And(l, r) => {
            lemma_ltl_ok(*l);
            lemma_ltl_ok(*r);
        },
        Tree::Or(l, r) => {
            lemma_ltl_ok(*l);
            lemma_ltl_ok(*r);
        },
        Tree::Until(l, r) => {
            lemma_ltl_ok(*l);
            lemma_ltl_ok(*r);
        },
        Tree::Release(l, r) => {
            lemma_ltl_ok(*l);
            lemma_ltl_ok(*r);
        },
        _ => {},
    }
}

/// Reading is idempotent for LTL: where a text is read as a query whose
/// formula is plain, the text that is written for the query is read as
/// the same query. (The negation of a disjunction of a formula with itself
/// is a conjunction that is not plain: it is read back as the formula
/// once.)
pub proof fn ltl_reading_is_idempotent(s: Seq<char>)
    requires
        ltl_text(s) is Some,
        plain(ltl_text(s).unwrap().0),
    ensures
        ltl_text(
            "PHI = "@ + bound_text(
                ltl_text_of(ltl_text(s).unwrap().0),
                ltl_text(s).unwrap().1,
                ltl_text(s).unwrap().2,
            ),
        ) == ltl_text(s),
{
    let (f, c, q) = ltl_text(s).unwrap();
    let txt = formula_text(s).unwrap();
    let a = skip(txt, 0);
    let start = skip(txt, a + 3) + 1;
    lemma_parsed_ok(txt, start);
    let tree = query_of(txt).unwrap();
    match tree {
        Tree::Prob(x, _, _) => {
            lemma_ltl_ok(*x);
        },
        _ => {},
    }
    lemma_ltl_tree(f);
    let back = Tree::Prob(Box::new(ltl_tree(f)), c, q);
    lemma_query_back(back);
    assert(ltl_query_of(back) == Some((f, c, q)));
}

} // verus!
