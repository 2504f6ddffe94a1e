//! Büchi automata over all sets of letters: each transition is taken under
//! every set of letters that holds what its label asks for.

use crate::listset::{distinct, elems, occurs, put, Element};
use crate::ltl::ba::BA;
use crate::ltl::common::{Alphabet, SimpleTransition};
use crate::ltl::formula::{Ltl, PhiOp};
use crate::utils::{picked, pow2, powerset, taken_from};
use vstd::prelude::*;

verus! {

/// A Büchi automaton whose symbols are all sets of letters.
#[derive(Debug)]
#[allow(clippy::upper_case_acronyms)]
pub struct PowerBA {
    pub initials: Vec<usize>,
    pub symbols: Vec<Alphabet>,
    pub transitions: Vec<Vec<SimpleTransition>>,
    pub finals: Vec<usize>,
}

/// One of the symbols holds the letter.
pub open spec fn lettered(symbols: Seq<Alphabet>, f: Ltl) -> bool {
    exists|k: int| 0 <= k < symbols.len() && (#[trigger] symbols[k])@.contains(f)
}

/// One of the first `k` symbols, or one of the first `i` letters of symbol
/// `k`, is the letter.
pub open spec fn lettered_upto(symbols: Seq<Alphabet>, k: int, i: int, f: Ltl) -> bool {
    exists|x: int, y: int|
        0 <= x < symbols.len() && 0 <= y < symbols[x].0@.len() && (x < k || x == k && y < i) && (
        #[trigger] symbols[x].0@[y])@ == f
}

/// The letters of the symbols, each once.
pub fn letters_of(symbols: &Vec<Alphabet>) -> (res: Vec<PhiOp>)
    ensures
        distinct(res@),
        forall|f: Ltl| #[trigger] occurs(res@, f) <==> lettered(symbols@, f),
{
    let mut res: Vec<PhiOp> = Vec::new();
    let mut k: usize = 0;
    while k < symbols.len()
        invariant
            k <= symbols@.len(),
            distinct(res@),
            forall|f: Ltl| #[trigger] occurs(res@, f) <==> lettered_upto(symbols@, k as int, 0, f),
        decreases symbols@.len() - k,
    {
        let list = &symbols[k].0;
        let mut i: usize = 0;
        while i < list.len()
            invariant
                k < symbols@.len(),
                list@ == symbols@[k as int].0@,
                i <= list@.len(),
                distinct(res@),
                forall|f: Ltl| #[trigger] occurs(res@, f) <==> lettered_upto(symbols@, k as int, i as int, f),
            decreases list@.len() - i,
        {
            let ghost before = res@;
            put(&mut res, list[i].duplicate());
            proof {
                assert forall|f: Ltl| #[trigger]
                    occurs(res@, f) <==> lettered_upto(symbols@, k as int, i as int + 1, f) by {
                    assert(occurs(before, f) <==> elems(before).contains(f));
                    assert(occurs(res@, f) <==> elems(res@).contains(f));
                    if lettered_upto(symbols@, k as int, i as int, f) {
                        let (x, y) = choose|x: int, y: int|
                            0 <= x < symbols@.len() && 0 <= y < symbols@[x].0@.len() && (x < k || x == k && y
                                < i) && (#[trigger] symbols@[x].0@[y])@ == f;
                        assert(0 <= x < symbols@.len() && 0 <= y < symbols@[x].0@.len() && (x < k || x == k
                            && y < i + 1) && symbols@[x].0@[y]@ == f);
                    }
                    if f == list@[i as int]@ {
                        assert(0 <= k < symbols@.len() && 0 <= i < symbols@[k as int].0@.len() && (k < k
                            || k == k && i < i + 1) && symbols@[k as int].0@[i as int]@ == f);
                    }
                    if lettered_upto(symbols@, k as int, i as int + 1, f) {
                        let (x, y) = choose|x: int, y: int|
                            0 <= x < symbols@.len() && 0 <= y < symbols@[x].0@.len() && (x < k || x == k && y
                                < i + 1) && (#[trigger] symbols@[x].0@[y])@ == f;
                        if x == k && y == i {
                        } else {
                            assert(0 <= x < symbols@.len() && 0 <= y < symbols@[x].0@.len() && (x < k || x
                                == k && y < i) && symbols@[x].0@[y]@ == f);
                        }
                    }
                }
            }
            i = i + 1;
        }
        proof {
            assert forall|f: Ltl| #[trigger]
                occurs(res@, f) <==> lettered_upto(symbols@, k as int + 1, 0, f) by {
                if lettered_upto(symbols@, k as int, i as int, f) {
                    let (x, y) = choose|x: int, y: int|
                        0 <= x < symbols@.len() && 0 <= y < symbols@[x].0@.len() && (x < k || x == k && y < i)
                            && (#[trigger] symbols@[x].0@[y])@ == f;
                    assert(0 <= x < symbols@.len() && 0 <= y < symbols@[x].0@.len() && (x < k + 1 || x == k
                        + 1 && y < 0) && symbols@[x].0@[y]@ == f);
                }
                if lettered_upto(symbols@, k as int + 1, 0, f) {
                    let (x, y) = choose|x: int, y: int|
                        0 <= x < symbols@.len() && 0 <= y < symbols@[x].0@.len() && (x < k + 1 || x == k + 1
                            && y < 0) && (#[trigger] symbols@[x].0@[y])@ == f;
                    assert(0 <= x < symbols@.len() && 0 <= y < symbols@[x].0@.len() && (x < k || x == k && y
                        < i) && symbols@[x].0@[y]@ == f);
                }
            }
        }
        k = k + 1;
    }
    proof {
        assert forall|f: Ltl| #[trigger] occurs(res@, f) <==> lettered(symbols@, f) by {
            if lettered_upto(symbols@, k as int, 0, f) {
                let (x, y) = choose|x: int, y: int|
                    0 <= x < symbols@.len() && 0 <= y < symbols@[x].0@.len() && (x < k || x == k && y < 0) && (
                    #[trigger] symbols@[x].0@[y])@ == f;
                assert(symbols@[x].0@[y].elem() == f);
                assert(occurs(symbols@[x].0@, f));
                assert(symbols@[x]@.contains(f));
            }
            if lettered(symbols@, f) {
                let x = choose|x: int| 0 <= x < symbols@.len() && (#[trigger] symbols@[x])@.contains(f);
                assert(occurs(symbols@[x].0@, f));
                let y = choose|y: int| 0 <= y < symbols@[x].0@.len() && (#[trigger] symbols@[x].0@[y]).elem() == f;
                assert(0 <= x < symbols@.len() && 0 <= y < symbols@[x].0@.len() && (x < k || x == k && y < 0)
                    && symbols@[x].0@[y]@ == f);
            }
        }
    }
    res
}

/// The set of the letters at the places.
pub open spec fn letters_at(letters: Seq<PhiOp>, places: Seq<int>) -> Set<Ltl> {
    Set::new(|f: Ltl| exists|k: int| 0 <= k < places.len() && letters[#[trigger] places[k]]@ == f)
}

/// The set of letters with number `bits`: it holds the letter at place `t`
/// exactly if bit `t` of `bits` is set.
pub open spec fn letter_set(letters: Seq<PhiOp>, bits: nat) -> Set<Ltl> {
    letters_at(letters, picked(letters.len() as int, 0, bits))
}

/// The letters as a symbol.
fn symbol_of(sub: &Vec<&PhiOp>, Ghost(letters): Ghost<Seq<PhiOp>>, Ghost(places): Ghost<Seq<int>>) -> (res:
    Alphabet)
    requires
        taken_from(sub@, letters, places),
    ensures
        res@ == letters_at(letters, places),
{
    let mut list: Vec<PhiOp> = Vec::new();
    let mut k: usize = 0;
    while k < sub.len()
        invariant
            k <= sub@.len(),
            taken_from(sub@, letters, places),
            forall|f: Ltl| #[trigger]
                occurs(list@, f) <==> exists|x: int| 0 <= x < k && letters[#[trigger] places[x]]@ == f,
        decreases sub@.len() - k,
    {
        let ghost before = list@;
        put(&mut list, sub[k].duplicate());
        proof {
            assert(*sub@[k as int] == letters[places[k as int]]);
            assert forall|f: Ltl| #[trigger]
                occurs(list@, f) <==> exists|x: int| 0 <= x < k + 1 && letters[#[trigger] places[x]]@ == f by {
                assert(occurs(before, f) <==> elems(before).contains(f));
                assert(occurs(list@, f) <==> elems(list@).contains(f));
                if occurs(before, f) {
                    let x = choose|x: int| 0 <= x < k && letters[#[trigger] places[x]]@ == f;
                    assert(0 <= x < k + 1 && letters[places[x]]@ == f);
                }
                if exists|x: int| 0 <= x < k + 1 && letters[#[trigger] places[x]]@ == f {
                    let x = choose|x: int| 0 <= x < k + 1 && letters[#[trigger] places[x]]@ == f;
                    if x < k {
                        assert(occurs(before, f));
                    }
                }
            }
        }
        k = k + 1;
    }
    let res = Alphabet(list);
    proof {
        assert(res@ =~= letters_at(letters, places));
    }
    res
}

/// All sets of letters, if they can be counted: set number `i` holds the
/// letter at place `t` exactly if bit `t` of `i` is set.
pub fn power_symbols(letters: &Vec<PhiOp>) -> (res: Option<Vec<Alphabet>>)
    ensures
        res is None <==> pow2(letters@.len()) > usize::MAX,
        res matches Some(symbols) ==> symbols@.len() == pow2(letters@.len()) && forall|i: int|
            0 <= i < symbols@.len() ==> (#[trigger] symbols@[i])@ == letter_set(letters@, i as nat),
{
    let n = letters.len();
    let mut count: usize = 1;
    let mut t: usize = 0;
    while t < n
        invariant
            t <= n,
            n == letters@.len(),
            count == pow2(t as nat),
        decreases n - t,
    {
        if count > usize::MAX / 2 {
            proof {
                crate::utils::lemma_pow2_mono(t as nat + 1, n as nat);
            }
            return None;
        }
        count = count * 2;
        t = t + 1;
    }
    let subsets = powerset(letters.as_slice());
    let mut symbols: Vec<Alphabet> = Vec::new();
    let mut i: usize = 0;
    while i < subsets.len()
        invariant
            i <= subsets@.len(),
            n == letters@.len(),
            subsets@.len() == pow2(n as nat),
            forall|j: int|
                0 <= j < subsets@.len() ==> taken_from(
                    (#[trigger] subsets@[j])@,
                    letters@,
                    picked(n as int, 0, j as nat),
                ),
            symbols@.len() == i,
            forall|j: int| 0 <= j < i ==> (#[trigger] symbols@[j])@ == letter_set(letters@, j as nat),
        decreases subsets@.len() - i,
    {
        let symbol = symbol_of(&subsets[i], Ghost(letters@), Ghost(picked(n as int, 0, i as nat)));
        symbols.push(symbol);
        i = i + 1;
    }
    Some(symbols)
}

/// Transition `m` is a transition of the list, taken under a symbol that
/// holds what its label asks for.
pub open spec fn widened(list: Seq<SimpleTransition>, symbols: Seq<Alphabet>, m: (Set<Ltl>, usize)) -> bool {
    exists|k: int, i: int|
        0 <= k < list.len() && 0 <= i < symbols.len() && (#[trigger] list[k]).props@.subset_of(
            (#[trigger] symbols[i])@,
        ) && m == (symbols[i]@, list[k].target)
}

/// Transition `m` is one of the first `k` transitions of the list, or
/// transition `k`, taken under one of the symbols, or of the first `i`
/// symbols, that hold what its label asks for.
pub open spec fn widened_upto(
    list: Seq<SimpleTransition>,
    symbols: Seq<Alphabet>,
    k: int,
    i: int,
    m: (Set<Ltl>, usize),
) -> bool {
    exists|x: int, y: int|
        0 <= x < list.len() && 0 <= y < symbols.len() && (x < k || x == k && y < i) && (
        #[trigger] list[x]).props@.subset_of((#[trigger] symbols[y])@) && m == (symbols[y]@, list[x].target)
}

/// The transitions of the list, each taken under every symbol that holds
/// what its label asks for.
pub fn widen(list: &Vec<SimpleTransition>, symbols: &Vec<Alphabet>) -> (res: Vec<SimpleTransition>)
    ensures
        distinct(res@),
        forall|m: (Set<Ltl>, usize)| #[trigger] occurs(res@, m) <==> widened(list@, symbols@, m),
{
    let mut res: Vec<SimpleTransition> = Vec::new();
    let mut k: usize = 0;
    while k < list.len()
        invariant
            k <= list@.len(),
            distinct(res@),
            forall|m: (Set<Ltl>, usize)| #[trigger]
                occurs(res@, m) <==> widened_upto(list@, symbols@, k as int, 0, m),
        decreases list@.len() - k,
    {
        let t = &list[k];
        let mut i: usize = 0;
        while i < symbols.len()
            invariant
                k < list@.len(),
                *t == list@[k as int],
                i <= symbols@.len(),
                distinct(res@),
                forall|m: (Set<Ltl>, usize)| #[trigger]
                    occurs(res@, m) <==> widened_upto(list@, symbols@, k as int, i as int, m),
            decreases symbols@.len() - i,
        {
            let ghost before = res@;
            let fits = crate::listset::included(&t.props.0, &symbols[i].0);
            if fits {
                put(&mut res, SimpleTransition { props: symbols[i].copy_elem(), target: t.target });
            }
            proof {
                assert(symbols@[i as int].elem() == symbols@[i as int]@);
                assert forall|m: (Set<Ltl>, usize)| #[trigger]
                    occurs(res@, m) <==> widened_upto(list@, symbols@, k as int, i as int + 1, m) by {
                    assert(occurs(before, m) <==> elems(before).contains(m));
                    assert(occurs(res@, m) <==> elems(res@).contains(m));
                    if widened_upto(list@, symbols@, k as int, i as int, m) {
                        let (x, y) = choose|x: int, y: int|
                            0 <= x < list@.len() && 0 <= y < symbols@.len() && (x < k || x == k && y < i) && (
                            #[trigger] list@[x]).props@.subset_of((#[trigger] symbols@[y])@) && m == (
                                symbols@[y]@,
                                list@[x].target,
                            );
                        assert(0 <= x < list@.len() && 0 <= y < symbols@.len() && (x < k || x == k && y < i
                            + 1) && list@[x].props@.subset_of(symbols@[y]@) && m == (
                            symbols@[y]@,
                            list@[x].target,
                        ));
                    }
                    if fits && m == (symbols@[i as int]@, t.target) {
                        assert(0 <= k < list@.len() && 0 <= i < symbols@.len() && (k < k || k == k && i < i
                            + 1) && list@[k as int].props@.subset_of(symbols@[i as int]@) && m == (
                            symbols@[i as int]@,
                            list@[k as int].target,
                        ));
                    }
                    if widened_upto(list@, symbols@, k as int, i as int + 1, m) {
                        let (x, y) = choose|x: int, y: int|
                            0 <= x < list@.len() && 0 <= y < symbols@.len() && (x < k || x == k && y < i + 1)
                                && (#[trigger] list@[x]).props@.subset_of((#[trigger] symbols@[y])@) && m == (
                                symbols@[y]@,
                                list@[x].target,
                            );
                        if x == k && y == i {
                        } else {
                            assert(0 <= x < list@.len() && 0 <= y < symbols@.len() && (x < k || x == k && y
                                < i) && list@[x].props@.subset_of(symbols@[y]@) && m == (
                                symbols@[y]@,
                                list@[x].target,
                            ));
                        }
                    }
                }
            }
            i = i + 1;
        }
        proof {
            assert forall|m: (Set<Ltl>, usize)| #[trigger]
                occurs(res@, m) <==> widened_upto(list@, symbols@, k as int + 1, 0, m) by {
                if widened_upto(list@, symbols@, k as int, i as int, m) {
                    let (x, y) = choose|x: int, y: int|
                        0 <= x < list@.len() && 0 <= y < symbols@.len() && (x < k || x == k && y < i) && (
                        #[trigger] list@[x]).props@.subset_of((#[trigger] symbols@[y])@) && m == (
                            symbols@[y]@,
                            list@[x].target,
                        );
                    assert(0 <= x < list@.len() && 0 <= y < symbols@.len() && (x < k + 1 || x == k + 1 && y
                        < 0) && list@[x].props@.subset_of(symbols@[y]@) && m == (
                        symbols@[y]@,
                        list@[x].target,
                    ));
                }
                if widened_upto(list@, symbols@, k as int + 1, 0, m) {
                    let (x, y) = choose|x: int, y: int|
                        0 <= x < list@.len() && 0 <= y < symbols@.len() && (x < k + 1 || x == k + 1 && y < 0)
                            && (#[trigger] list@[x]).props@.subset_of((#[trigger] symbols@[y])@) && m == (
                            symbols@[y]@,
                            list@[x].target,
                        );
                    assert(0 <= x < list@.len() && 0 <= y < symbols@.len() && (x < k || x == k && y < i)
                        && list@[x].props@.subset_of(symbols@[y]@) && m == (symbols@[y]@, list@[x].target));
                }
            }
        }
        k = k + 1;
    }
    proof {
        assert forall|m: (Set<Ltl>, usize)| #[trigger] occurs(res@, m) <==> widened(list@, symbols@, m) by {
            if widened_upto(list@, symbols@, k as int, 0, m) {
                let (x, y) = choose|x: int, y: int|
                    0 <= x < list@.len() && 0 <= y < symbols@.len() && (x < k || x == k && y < 0) && (
                    #[trigger] list@[x]).props@.subset_of((#[trigger] symbols@[y])@) && m == (
                        symbols@[y]@,
                        list@[x].target,
                    );
                assert(0 <= x < list@.len() && 0 <= y < symbols@.len() && list@[x].props@.subset_of(
                    symbols@[y]@,
                ) && m == (symbols@[y]@, list@[x].target));
            }
            if widened(list@, symbols@, m) {
                let (x, y) = choose|x: int, y: int|
                    0 <= x < list@.len() && 0 <= y < symbols@.len() && (#[trigger] list@[x]).props@.subset_of(
                        (#[trigger] symbols@[y])@,
                    ) && m == (symbols@[y]@, list@[x].target);
                assert(0 <= x < list@.len() && 0 <= y < symbols@.len() && (x < k || x == k && y < 0)
                    && list@[x].props@.subset_of(symbols@[y]@) && m == (symbols@[y]@, list@[x].target));
            }
        }
    }
    res
}

impl PowerBA {
    /// The automaton is the automaton `ba` over all sets of the letters
    /// `letters`: the letters are those of the symbols of `ba`, each once;
    /// the symbols are all sets of letters; each state has the transitions
    /// of `ba`, each taken under every symbol that holds what its label
    /// asks for; and the initial and the final states are those of `ba`.
    pub open spec fn widens(&self, ba: &BA, letters: Seq<PhiOp>) -> bool {
        &&& distinct(letters)
        &&& forall|f: Ltl| #[trigger] occurs(letters, f) <==> lettered(ba.symbols@, f)
        &&& self.symbols@.len() == pow2(letters.len())
        &&& forall|i: int|
            0 <= i < self.symbols@.len() ==> (#[trigger] self.symbols@[i])@ == letter_set(letters, i as nat)
        &&& self.transitions@.len() == ba.transitions@.len()
        &&& forall|s: int, m: (Set<Ltl>, usize)|
            0 <= s < self.transitions@.len() ==> (#[trigger] occurs(self.transitions@[s]@, m) <==> widened(
                ba.transitions@[s]@,
                self.symbols@,
                m,
            ))
        &&& self.initials@ == ba.initials@
        &&& self.finals@ == ba.finals@
    }
}

/// The numbers of the list.
fn copy_numbers(list: &Vec<usize>) -> (res: Vec<usize>)
    ensures
        res@ == list@,
{
    let mut res: Vec<usize> = Vec::new();
    let mut i: usize = 0;
    while i < list.len()
        invariant
            i <= list@.len(),
            res@ == list@.take(i as int),
        decreases list@.len() - i,
    {
        res.push(list[i]);
        assert(res@ =~= list@.take(i as int + 1));
        i = i + 1;
    }
    assert(list@.take(i as int) =~= list@);
    res
}

/// The automaton over all sets of the letters of its symbols; none where
/// the sets of letters are too many to be counted.
pub fn to_powerba(ba: &BA) -> (res: Option<PowerBA>)
    ensures
        res matches Some(p) ==> exists|letters: Seq<PhiOp>| #[trigger] p.widens(ba, letters),
        res is None ==> exists|letters: Seq<PhiOp>|
            #[trigger] distinct(letters) && (forall|f: Ltl| #[trigger]
                occurs(letters, f) <==> lettered(ba.symbols@, f)) && pow2(letters.len()) > usize::MAX,
{
    let letters = letters_of(&ba.symbols);
    let symbols = match power_symbols(&letters) {
        None => {
            return None;
        },
        Some(s) => s,
    };
    let mut transitions: Vec<Vec<SimpleTransition>> = Vec::new();
    let mut s: usize = 0;
    while s < ba.transitions.len()
        invariant
            s <= ba.transitions@.len(),
            transitions@.len() == s,
            forall|x: int, m: (Set<Ltl>, usize)|
                0 <= x < s ==> (#[trigger] occurs(transitions@[x]@, m) <==> widened(
                    ba.transitions@[x]@,
                    symbols@,
                    m,
                )),
        decreases ba.transitions@.len() - s,
    {
        let row = widen(&ba.transitions[s], &symbols);
        let ghost before = transitions@;
        transitions.push(row);
        proof {
            assert forall|x: int, m: (Set<Ltl>, usize)| 0 <= x < s + 1 implies (#[trigger] occurs(
                transitions@[x]@,
                m,
            ) <==> widened(ba.transitions@[x]@, symbols@, m)) by {
                if x < s {
                    assert(transitions@[x] == before[x]);
                }
            }
        }
        s = s + 1;
    }
    let res = PowerBA {
        initials: copy_numbers(&ba.initials),
        symbols,
        transitions,
        finals: copy_numbers(&ba.finals),
    };
    let ghost witness = letters@;
    let out = Some(res);
    proof {
        assert(out.unwrap().widens(ba, witness));
    }
    out
}

} // verus!
