//! Input texts of growing size: the description of a net that forks into
//! two chains of places, with a query, in the syntax in which nets are read.

use crate::render::{digit_str, digit_text};
use vstd::prelude::*;
use vstd::string::StringExecFns;

verus! {

/// The decimal digits of a number.
pub open spec fn decimal(n: nat) -> Seq<char>
    decreases n,
{
    if n < 10 {
        digit_text(n as int)
    } else {
        decimal(n / 10) + digit_text((n % 10) as int)
    }
}

/// The decimal digits of a number.
pub fn decimal_string(n: usize) -> (res: String)
    ensures
        res@ == decimal(n as nat),
    decreases n,
{
    if n < 10 {
        String::from_str(digit_str(n as u64))
    } else {
        let mut res = decimal_string(n / 10);
        res.append(digit_str((n % 10) as u64));
        res
    }
}

/// The names with the numbers from `i` up to, but without, `n`, each
/// followed by a comma and a blank.
pub open spec fn names_text(prefix: Seq<char>, i: nat, n: nat) -> Seq<char>
    decreases n - i,
{
    if i >= n {
        Seq::empty()
    } else {
        prefix + decimal(i) + ", "@ + names_text(prefix, i + 1, n)
    }
}

/// The line that gives `key` the names with the numbers from one to `n`.
pub open spec fn names_line(key: Seq<char>, prefix: Seq<char>, n: nat) -> Seq<char> {
    key + " = {"@ + names_text(prefix, 1, n) + prefix + decimal(n) + "}\n"@
}

/// The line that gives `key` the names with the numbers from one to `n`.
fn names(key: &str, prefix: &str, n: usize) -> (res: String)
    ensures
        res@ == names_line(key@, prefix@, n as nat),
{
    let mut res = String::from_str(key);
    res.append(" = {");
    let ghost head = res@;
    let mut i: usize = 1;
    while i < n
        invariant
            1 <= i,
            res@ + names_text(prefix@, i as nat, n as nat) == head + names_text(prefix@, 1, n as nat),
        decreases n - i,
    {
        let ghost before = res@;
        res.append(prefix);
        res.append(decimal_string(i).as_str());
        res.append(", ");
        proof {
            assert(res@ + names_text(prefix@, (i + 1) as nat, n as nat) =~= before + names_text(
                prefix@,
                i as nat,
                n as nat,
            ));
        }
        i = i + 1;
    }
    proof {
        assert(res@ + names_text(prefix@, i as nat, n as nat) =~= res@);
    }
    res.append(prefix);
    res.append(decimal_string(n).as_str());
    res.append("}\n");
    res
}

/// The line that names `n` places.
pub fn format_places(n: usize) -> (res: String)
    ensures
        res@ == names_line("P"@, "P"@, n as nat),
{
    names("P", "P", n)
}

/// The line that names the first `n` transitions as those that can be
/// chosen.
pub fn format_controllables(n: usize) -> (res: String)
    ensures
        res@ == names_line("C"@, "t"@, n as nat),
{
    names("C", "t", n)
}

/// The first `k` numbers of the list, with a comma and a blank between
/// them.
pub open spec fn listed(m: Seq<usize>, k: int) -> Seq<char>
    decreases k,
{
    if k <= 0 {
        Seq::empty()
    } else if k == 1 {
        decimal(m[0] as nat)
    } else {
        listed(m, k - 1) + ", "@ + decimal(m[k - 1] as nat)
    }
}

/// The numbers of the list in round brackets.
pub open spec fn tuple_text(m: Seq<usize>) -> Seq<char> {
    "("@ + listed(m, m.len() as int) + ")"@
}

/// The numbers of the list in round brackets.
fn tuple_string(m: &Vec<usize>) -> (res: String)
    requires
        m@.len() > 0,
    ensures
        res@ == tuple_text(m@),
{
    let mut res = String::from_str("(");
    res.append(decimal_string(m[0]).as_str());
    let mut i: usize = 1;
    while i < m.len()
        invariant
            1 <= i <= m@.len(),
            res@ == "("@ + listed(m@, i as int),
        decreases m@.len() - i,
    {
        let ghost before = res@;
        res.append(", ");
        res.append(decimal_string(m[i]).as_str());
        proof {
            assert(res@ =~= "("@ + listed(m@, i as int + 1));
        }
        i = i + 1;
    }
    res.append(")");
    res
}

/// The numbers of the list in round brackets.
pub fn format_tuple(m: Vec<usize>) -> (res: String)
    requires
        m@.len() > 0,
    ensures
        res@ == tuple_text(m@),
{
    tuple_string(&m)
}

/// The line that gives the initial marking.
pub fn format_initial(initial: Vec<usize>) -> (res: String)
    requires
        initial@.len() > 0,
    ensures
        res@ == "M = "@ + tuple_text(initial@) + "\n"@,
{
    let mut res = String::from_str("M = ");
    res.append(tuple_string(&initial).as_str());
    res.append("\n");
    res
}

/// The line that gives the rates of the transitions.
pub fn format_lambdas(lambdas: Vec<usize>) -> (res: String)
    requires
        lambdas@.len() > 0,
    ensures
        res@ == "L = "@ + tuple_text(lambdas@) + "\n"@,
{
    let mut res = String::from_str("L = ");
    res.append(tuple_string(&lambdas).as_str());
    res.append("\n");
    res
}

/// An atomic proposition and the markings at which it holds.
pub struct AP {
    pub name: String,
    pub markings: Vec<Vec<usize>>,
}

/// The lists as values.
pub open spec fn rows(ms: Seq<Vec<usize>>) -> Seq<Seq<usize>> {
    Seq::new(ms.len(), |i: int| ms[i]@)
}

impl View for AP {
    type V = (Seq<char>, Seq<Seq<usize>>);

    open spec fn view(&self) -> (Seq<char>, Seq<Seq<usize>>) {
        (self.name@, rows(self.markings@))
    }
}

/// The first `k` markings, with a comma and a blank between them.
pub open spec fn tuples_text(ms: Seq<Seq<usize>>, k: int) -> Seq<char>
    decreases k,
{
    if k <= 0 {
        Seq::empty()
    } else if k == 1 {
        tuple_text(ms[0])
    } else {
        tuples_text(ms, k - 1) + ", "@ + tuple_text(ms[k - 1])
    }
}

/// The entry of one proposition: its name and its markings.
pub open spec fn ap_text(ap: (Seq<char>, Seq<Seq<usize>>)) -> Seq<char> {
    "\t("@ + ap.0 + ", {"@ + tuples_text(ap.1, ap.1.len() as int) + "})"@
}

/// The entries of the first `k` propositions, with a comma between them.
pub open spec fn aps_text(aps: Seq<(Seq<char>, Seq<Seq<usize>>)>, k: int) -> Seq<char>
    decreases k,
{
    if k <= 0 {
        Seq::empty()
    } else if k == 1 {
        ap_text(aps[0])
    } else {
        aps_text(aps, k - 1) + ","@ + ap_text(aps[k - 1])
    }
}

/// The propositions as values.
pub open spec fn ap_views(aps: Seq<AP>) -> Seq<(Seq<char>, Seq<Seq<usize>>)> {
    Seq::new(aps.len(), |i: int| aps[i]@)
}

/// No proposition is without markings, and no marking is empty.
pub open spec fn aps_filled(aps: Seq<AP>) -> bool {
    forall|i: int|
        0 <= i < aps.len() ==> (#[trigger] aps[i]).markings@.len() > 0 && forall|j: int|
            0 <= j < aps[i].markings@.len() ==> (#[trigger] aps[i].markings@[j])@.len() > 0
}

/// The entry of one proposition.
fn ap_string(ap: &AP) -> (res: String)
    requires
        ap.markings@.len() > 0,
        forall|j: int| 0 <= j < ap.markings@.len() ==> (#[trigger] ap.markings@[j])@.len() > 0,
    ensures
        res@ == ap_text(ap@),
{
    let mut res = String::from_str("\t(");
    res.append(ap.name.as_str());
    res.append(", {");
    let ghost head = res@;
    let ghost ms = rows(ap.markings@);
    res.append(tuple_string(&ap.markings[0]).as_str());
    let mut j: usize = 1;
    proof {
        assert(ms[0] == ap.markings@[0]@);
    }
    while j < ap.markings.len()
        invariant
            1 <= j <= ap.markings@.len(),
            ms == rows(ap.markings@),
            forall|x: int| 0 <= x < ap.markings@.len() ==> (#[trigger] ap.markings@[x])@.len() > 0,
            res@ == head + tuples_text(ms, j as int),
        decreases ap.markings@.len() - j,
    {
        res.append(", ");
        res.append(tuple_string(&ap.markings[j]).as_str());
        proof {
            assert(ms[j as int] == ap.markings@[j as int]@);
            assert(res@ =~= head + tuples_text(ms, j as int + 1));
        }
        j = j + 1;
    }
    res.append("})");
    proof {
        assert(res@ =~= ap_text(ap@));
    }
    res
}

/// The lines that give the propositions and the markings at which they
/// hold.
pub fn format_ap(aps: Vec<AP>) -> (res: String)
    requires
        aps@.len() > 0,
        aps_filled(aps@),
    ensures
        res@ == "AP = {\n"@ + aps_text(ap_views(aps@), aps@.len() as int) + "\n}\n"@,
{
    let mut res = String::from_str("AP = {\n");
    let ghost views = ap_views(aps@);
    res.append(ap_string(&aps[0]).as_str());
    proof {
        assert(views[0] == aps@[0]@);
    }
    let mut i: usize = 1;
    while i < aps.len()
        invariant
            1 <= i <= aps@.len(),
            views == ap_views(aps@),
            aps_filled(aps@),
            res@ == "AP = {\n"@ + aps_text(views, i as int),
        decreases aps@.len() - i,
    {
        res.append(",");
        res.append(ap_string(&aps[i]).as_str());
        proof {
            assert(views[i as int] == aps@[i as int]@);
            assert(res@ =~= "AP = {\n"@ + aps_text(views, i as int + 1));
        }
        i = i + 1;
    }
    res.append("\n}\n");
    res
}

/// A transition of a net: its name, the places that it takes tokens from
/// and those that it gives tokens to, each list with the numbers of tokens.
pub struct Transition {
    pub name: String,
    pub pre: Vec<String>,
    pub pre_markings: Vec<usize>,
    pub post: Vec<String>,
    pub post_markings: Vec<usize>,
}

/// The places with their numbers of tokens, as far as both lists reach.
pub open spec fn arcs(places: Seq<String>, weights: Seq<usize>) -> Seq<(Seq<char>, usize)> {
    Seq::new(
        if places.len() <= weights.len() {
            places.len()
        } else {
            weights.len()
        },
        |i: int| (places[i]@, weights[i]),
    )
}

impl View for Transition {
    type V = (Seq<char>, Seq<(Seq<char>, usize)>, Seq<(Seq<char>, usize)>);

    open spec fn view(&self) -> (Seq<char>, Seq<(Seq<char>, usize)>, Seq<(Seq<char>, usize)>) {
        (self.name@, arcs(self.pre@, self.pre_markings@), arcs(self.post@, self.post_markings@))
    }
}

/// One place with its number of tokens.
pub open spec fn arc_text(a: (Seq<char>, usize)) -> Seq<char> {
    "P"@ + a.0 + "("@ + decimal(a.1 as nat) + ")"@
}

/// The first `k` places with their numbers of tokens, with a comma and a
/// blank between them.
pub open spec fn arcs_text(a: Seq<(Seq<char>, usize)>, k: int) -> Seq<char>
    decreases k,
{
    if k <= 0 {
        Seq::empty()
    } else if k == 1 {
        arc_text(a[0])
    } else {
        arcs_text(a, k - 1) + ", "@ + arc_text(a[k - 1])
    }
}

/// The entry of one transition.
pub open spec fn transition_text(t: (Seq<char>, Seq<(Seq<char>, usize)>, Seq<(Seq<char>, usize)>)) -> Seq<
    char,
> {
    "\t{"@ + arcs_text(t.1, t.1.len() as int) + "} -> "@ + t.0 + " -> {"@ + arcs_text(
        t.2,
        t.2.len() as int,
    ) + "}"@
}

/// The entries of the first `k` transitions, with a comma and a line break
/// between them.
pub open spec fn transitions_text(
    ts: Seq<(Seq<char>, Seq<(Seq<char>, usize)>, Seq<(Seq<char>, usize)>)>,
    k: int,
) -> Seq<char>
    decreases k,
{
    if k <= 0 {
        Seq::empty()
    } else if k == 1 {
        transition_text(ts[0])
    } else {
        transitions_text(ts, k - 1) + ",\n"@ + transition_text(ts[k - 1])
    }
}

/// The transitions as values.
pub open spec fn transition_views(ts: Seq<Transition>) -> Seq<
    (Seq<char>, Seq<(Seq<char>, usize)>, Seq<(Seq<char>, usize)>),
> {
    Seq::new(ts.len(), |i: int| ts[i]@)
}

/// Each transition has as many numbers of tokens as places that it takes
/// from, and a number of tokens for a place that it gives to, if it gives to
/// any.
pub open spec fn transitions_filled(ts: Seq<Transition>) -> bool {
    forall|i: int|
        0 <= i < ts.len() ==> (#[trigger] ts[i]).pre@.len() == ts[i].pre_markings@.len() && (
        ts[i].post@.len() > 0 ==> ts[i].post_markings@.len() > 0)
}

/// The places with their numbers of tokens.
fn arcs_string(places: &Vec<String>, weights: &Vec<usize>) -> (res: String)
    ensures
        res@ == arcs_text(arcs(places@, weights@), arcs(places@, weights@).len() as int),
{
    let n = if places.len() <= weights.len() {
        places.len()
    } else {
        weights.len()
    };
    let ghost a = arcs(places@, weights@);
    let mut res = String::from_str("");
    proof {
        reveal_strlit("");
        assert(res@ =~= arcs_text(a, 0));
    }
    let mut i: usize = 0;
    while i < n
        invariant
            i <= n,
            n == a.len(),
            n <= places@.len(),
            n <= weights@.len(),
            a == arcs(places@, weights@),
            res@ == arcs_text(a, i as int),
        decreases n - i,
    {
        if i > 0 {
            res.append(", ");
        }
        res.append("P");
        res.append(places[i].as_str());
        res.append("(");
        res.append(decimal_string(weights[i]).as_str());
        res.append(")");
        proof {
            assert(a[i as int] == (places@[i as int]@, weights@[i as int]));
            assert(res@ =~= arcs_text(a, i as int + 1));
        }
        i = i + 1;
    }
    res
}

/// The entry of one transition.
fn transition_string(t: &Transition) -> (res: String)
    ensures
        res@ == transition_text(t@),
{
    let mut res = String::from_str("\t{");
    res.append(arcs_string(&t.pre, &t.pre_markings).as_str());
    res.append("} -> ");
    res.append(t.name.as_str());
    res.append(" -> {");
    res.append(arcs_string(&t.post, &t.post_markings).as_str());
    res.append("}");
    proof {
        assert(res@ =~= transition_text(t@));
    }
    res
}

/// The lines that give the transitions.
pub fn format_transitions(transitions: Vec<Transition>) -> (res: String)
    requires
        transitions_filled(transitions@),
    ensures
        res@ == "G = {\n"@ + transitions_text(
            transition_views(transitions@),
            transitions@.len() as int,
        ) + "\n}\n"@,
{
    let mut res = String::from_str("G = {\n");
    let ghost views = transition_views(transitions@);
    proof {
        assert(res@ =~= "G = {\n"@ + transitions_text(views, 0));
    }
    let mut i: usize = 0;
    while i < transitions.len()
        invariant
            i <= transitions@.len(),
            views == transition_views(transitions@),
            res@ == "G = {\n"@ + transitions_text(views, i as int),
        decreases transitions@.len() - i,
    {
        if i > 0 {
            res.append(",\n");
        }
        res.append(transition_string(&transitions[i]).as_str());
        proof {
            assert(views[i as int] == transitions@[i as int]@);
            assert(res@ =~= "G = {\n"@ + transitions_text(views, i as int + 1));
        }
        i = i + 1;
    }
    res.append("\n}\n");
    res
}

/// A marking of `len` places with one token at place `a` and none
/// elsewhere.
pub open spec fn unit(len: nat, a: int) -> Seq<usize> {
    Seq::new(len, |x: int| if x == a { 1usize } else { 0usize })
}

/// A marking of `len` places with one token at each of the places `a` and
/// `b` and none elsewhere.
pub open spec fn pair(len: nat, a: int, b: int) -> Seq<usize> {
    Seq::new(len, |x: int| if x == a || x == b { 1usize } else { 0usize })
}

/// A marking of `len` places with one token at each of the places `a` and
/// `b` and none elsewhere.
fn tokens_at(len: usize, a: usize, b: usize) -> (res: Vec<usize>)
    ensures
        res@ == pair(len as nat, a as int, b as int),
{
    let mut res: Vec<usize> = Vec::new();
    let mut x: usize = 0;
    while x < len
        invariant
            x <= len,
            res@.len() == x,
            forall|y: int| 0 <= y < x ==> #[trigger] res@[y] == if y == a || y == b { 1usize } else { 0usize },
        decreases len - x,
    {
        res.push(if x == a || x == b { 1 } else { 0 });
        x = x + 1;
    }
    assert(res@ =~= pair(len as nat, a as int, b as int));
    res
}

/// Transition number `k` of the net with a fork: the first leads from the
/// first place to the heads of both chains, each other one leads one place
/// on in its chain.
pub open spec fn chain_transition(k: nat) -> (Seq<char>, Seq<(Seq<char>, usize)>, Seq<(Seq<char>, usize)>) {
    if k == 1 {
        ("t1"@, seq![("1"@, 1usize)], seq![("2"@, 1usize), ("3"@, 1usize)])
    } else {
        ("t"@ + decimal(k), seq![(decimal(k), 1usize)], seq![(decimal(k + 2), 1usize)])
    }
}

/// The transitions of the net with a fork and chains of `n` places.
pub open spec fn chain_transitions(n: nat) -> Seq<
    (Seq<char>, Seq<(Seq<char>, usize)>, Seq<(Seq<char>, usize)>),
> {
    Seq::new((2 * n - 1) as nat, |j: int| chain_transition((j + 1) as nat))
}

/// The markings with a token at place `a` of the first chain and a token
/// at one of the first `j` places of the second.
pub open spec fn chain(len: nat, a: int, j: nat) -> Seq<Seq<usize>>
    decreases j,
{
    if j == 0 {
        Seq::empty()
    } else {
        chain(len, a, (j - 1) as nat).push(pair(len, a, 2 * j as int))
    }
}

/// The markings at which the first proposition holds, as far as the token
/// of the first chain is at one of its first `i` places: the initial
/// marking, and each marking with a token in either chain but the one with
/// both tokens at the ends.
pub open spec fn chains(len: nat, n: nat, i: nat) -> Seq<Seq<usize>>
    decreases i,
{
    if i == 0 {
        seq![unit(len, 0)]
    } else {
        chains(len, n, (i - 1) as nat) + chain(
            len,
            2 * i - 1,
            if i == n {
                (n - 1) as nat
            } else {
                n
            },
        )
    }
}

/// The propositions of the net with a fork: the first holds until both
/// tokens are at the ends of the chains, the second holds then.
pub open spec fn fork_aps(n: nat) -> Seq<(Seq<char>, Seq<Seq<usize>>)> {
    seq![
        ("phione"@, chains(2 * n + 1, n, n)),
        ("phitwo"@, seq![pair(2 * n + 1, 2 * n - 1, 2 * n as int)]),
    ]
}

/// The description of the net with a fork and chains of `n` places, with
/// the query whether the ends are reached with probability one half.
pub open spec fn fork_text(n: nat) -> Seq<char> {
    names_line("P"@, "P"@, 2 * n + 1) + ("G = {\n"@ + transitions_text(
        chain_transitions(n),
        2 * n - 1,
    ) + "\n}\n"@) + names_line("C"@, "t"@, (2 * n - 1) as nat) + ("M = "@ + tuple_text(
        unit(2 * n + 1, 0),
    ) + "\n"@) + ("L = "@ + tuple_text(unit((2 * n - 1) as nat, 0)) + "\n"@) + ("AP = {\n"@ + aps_text(
        fork_aps(n),
        2,
    ) + "\n}\n"@) + "PHI = P((phione) U (phitwo), >= 0.5)"@
}

/// The first transition of the net with a fork.
fn fork() -> (res: Transition)
    ensures
        res@ == chain_transition(1),
        res.pre@.len() == res.pre_markings@.len(),
        res.post_markings@.len() > 0,
{
    let mut pre: Vec<String> = Vec::new();
    pre.push(String::from_str("1"));
    let mut pre_markings: Vec<usize> = Vec::new();
    pre_markings.push(1);
    let mut post: Vec<String> = Vec::new();
    post.push(String::from_str("2"));
    post.push(String::from_str("3"));
    let mut post_markings: Vec<usize> = Vec::new();
    post_markings.push(1);
    post_markings.push(1);
    let res = Transition { name: String::from_str("t1"), pre, pre_markings, post, post_markings };
    proof {
        assert(arcs(res.pre@, res.pre_markings@) =~= seq![("1"@, 1usize)]);
        assert(arcs(res.post@, res.post_markings@) =~= seq![("2"@, 1usize), ("3"@, 1usize)]);
    }
    res
}

/// Transition number `k` of the net with a fork, for `k` above one.
fn step(k: usize) -> (res: Transition)
    requires
        2 <= k,
        k + 2 <= usize::MAX,
    ensures
        res@ == chain_transition(k as nat),
        res.pre@.len() == res.pre_markings@.len(),
        res.post_markings@.len() > 0,
{
    let mut name = String::from_str("t");
    name.append(decimal_string(k).as_str());
    let mut pre: Vec<String> = Vec::new();
    pre.push(decimal_string(k));
    let mut pre_markings: Vec<usize> = Vec::new();
    pre_markings.push(1);
    let mut post: Vec<String> = Vec::new();
    post.push(decimal_string(k + 2));
    let mut post_markings: Vec<usize> = Vec::new();
    post_markings.push(1);
    let res = Transition { name, pre, pre_markings, post, post_markings };
    proof {
        assert(arcs(res.pre@, res.pre_markings@) =~= seq![(decimal(k as nat), 1usize)]);
        assert(arcs(res.post@, res.post_markings@) =~= seq![(decimal((k + 2) as nat), 1usize)]);
    }
    res
}

/// The net with a fork and two chains of places.
pub struct PN1;

/// A second net, of which there is the name only.
pub struct PN2;

impl PN1 {
    /// The description of the net with chains of `n` places, with its
    /// query.
    pub fn get_input(n: usize) -> (res: String)
        requires
            n > 0,
            2 * n + 3 <= usize::MAX,
        ensures
            res@ == fork_text(n as nat),
    {
        let mut res = Self::get_pn(n);
        res.append(Self::get_transitions(n).as_str());
        res.append(Self::get_controllables(n).as_str());
        res.append(Self::get_initial(n).as_str());
        res.append(Self::get_lambdas(n).as_str());
        res.append(Self::get_aps(n).as_str());
        res.append(Self::get_formula(n).as_str());
        res
    }

    fn get_formula(_n: usize) -> (res: String)
        ensures
            res@ == "PHI = P((phione) U (phitwo), >= 0.5)"@,
    {
        String::from_str("PHI = P((phione) U (phitwo), >= 0.5)")
    }

    fn get_pn(n: usize) -> (res: String)
        requires
            2 * n + 1 <= usize::MAX,
        ensures
            res@ == names_line("P"@, "P"@, (2 * n + 1) as nat),
    {
        format_places(2 * n + 1)
    }

    fn get_transitions(n: usize) -> (res: String)
        requires
            n > 0,
            2 * n + 3 <= usize::MAX,
        ensures
            res@ == "G = {\n"@ + transitions_text(chain_transitions(n as nat), 2 * n - 1) + "\n}\n"@,
    {
        let mut transitions: Vec<Transition> = Vec::new();
        transitions.push(fork());
        let mut i: usize = 1;
        while i < n
            invariant
                1 <= i <= n,
                2 * n + 3 <= usize::MAX,
                transitions@.len() == 2 * i - 1,
                transitions_filled(transitions@),
                forall|j: int|
                    0 <= j < transitions@.len() ==> (#[trigger] transitions@[j])@ == chain_transition(
                        (j + 1) as nat,
                    ),
            decreases n - i,
        {
            let k = 2 * i;
            transitions.push(step(k));
            transitions.push(step(k + 1));
            i = i + 1;
        }
        proof {
            assert(transition_views(transitions@) =~= chain_transitions(n as nat));
        }
        format_transitions(transitions)
    }

    fn get_controllables(n: usize) -> (res: String)
        requires
            n > 0,
            2 * n <= usize::MAX,
        ensures
            res@ == names_line("C"@, "t"@, (2 * n - 1) as nat),
    {
        format_controllables(2 * n - 1)
    }

    fn get_initial(n: usize) -> (res: String)
        requires
            2 * n + 1 <= usize::MAX,
        ensures
            res@ == "M = "@ + tuple_text(unit((2 * n + 1) as nat, 0)) + "\n"@,
    {
        let initials = tokens_at(2 * n + 1, 0, 0);
        proof {
            assert(initials@ =~= unit((2 * n + 1) as nat, 0));
        }
        format_initial(initials)
    }

    fn get_lambdas(n: usize) -> (res: String)
        requires
            n > 0,
            2 * n <= usize::MAX,
        ensures
            res@ == "L = "@ + tuple_text(unit((2 * n - 1) as nat, 0)) + "\n"@,
    {
        let lambdas = tokens_at(2 * n - 1, 0, 0);
        proof {
            assert(lambdas@ =~= unit((2 * n - 1) as nat, 0));
        }
        format_lambdas(lambdas)
    }

    fn get_aps(n: usize) -> (res: String)
        requires
            n > 0,
            2 * n + 1 <= usize::MAX,
        ensures
            res@ == "AP = {\n"@ + aps_text(fork_aps(n as nat), 2) + "\n}\n"@,
    {
        let len = 2 * n + 1;
        let mut markings: Vec<Vec<usize>> = Vec::new();
        markings.push(tokens_at(len, 0, 0));
        proof {
            assert(markings@[0]@ =~= unit(len as nat, 0));
            assert(rows(markings@) =~= seq![unit(len as nat, 0)]);
        }
        let mut i: usize = 1;
        while i <= n
            invariant
                1 <= i <= n + 1,
                len == 2 * n + 1,
                len <= usize::MAX,
                markings@.len() > 0,
                forall|x: int| 0 <= x < markings@.len() ==> (#[trigger] markings@[x])@.len() == len,
                rows(markings@) == chains(len as nat, n as nat, (i - 1) as nat),
            decreases n + 1 - i,
        {
            let a = 2 * i - 1;
            let limit = if i == n {
                n - 1
            } else {
                n
            };
            let ghost before = rows(markings@);
            let mut j: usize = 1;
            proof {
                assert(before + chain(len as nat, a as int, 0) =~= before);
            }
            while j <= limit
                invariant
                    1 <= j <= limit + 1,
                    limit <= n,
                    len == 2 * n + 1,
                    len <= usize::MAX,
                    markings@.len() > 0,
                    forall|x: int| 0 <= x < markings@.len() ==> (#[trigger] markings@[x])@.len() == len,
                    rows(markings@) == before + chain(len as nat, a as int, (j - 1) as nat),
                decreases limit + 1 - j,
            {
                let ghost old_rows = rows(markings@);
                let m = tokens_at(len, a, 2 * j);
                markings.push(m);
                proof {
                    assert(rows(markings@) =~= old_rows.push(pair(len as nat, a as int, 2 * j)));
                    assert(rows(markings@) =~= before + chain(len as nat, a as int, j as nat));
                }
                j = j + 1;
            }
            i = i + 1;
        }
        let mut ends: Vec<Vec<usize>> = Vec::new();
        ends.push(tokens_at(len, len - 2, len - 1));
        let mut aps: Vec<AP> = Vec::new();
        aps.push(AP { name: String::from_str("phione"), markings });
        aps.push(AP { name: String::from_str("phitwo"), markings: ends });
        proof {
            assert(rows(ends@) =~= seq![pair(len as nat, 2 * n - 1, 2 * n)]);
            assert(ap_views(aps@) =~= fork_aps(n as nat));
        }
        format_ap(aps)
    }
}

} // verus!
