//! Small tools: subsets of a list, the labelling read by node, and a record
//! of running times.

use crate::pctl::{named, ApMap};
use vstd::prelude::*;

verus! {

/// Two to the power `n`.
pub open spec fn pow2(n: nat) -> nat
    decreases n,
{
    if n == 0 {
        1
    } else {
        2 * pow2((n - 1) as nat)
    }
}

/// The places from `from` up to `len` whose bit is set in `bits`; the
/// lowest bit of `bits` belongs to place `from`.
pub open spec fn picked(len: int, from: int, bits: nat) -> Seq<int>
    decreases len - from,
{
    if from < 0 || from >= len {
        Seq::empty()
    } else if bits % 2 == 1 {
        seq![from] + picked(len, from + 1, bits / 2)
    } else {
        picked(len, from + 1, bits / 2)
    }
}

/// The list `sub` holds the members of `s` at the places `places`, in
/// order.
pub open spec fn taken_from<T>(sub: Seq<&T>, s: Seq<T>, places: Seq<int>) -> bool {
    sub.len() == places.len() && forall|k: int|
        0 <= k < sub.len() ==> 0 <= #[trigger] places[k] < s.len() && *sub[k] == s[places[k]]
}

/// The subset of `s` with number `bits`.
fn subset<'a, T>(s: &'a [T], bits: usize) -> (res: Vec<&'a T>)
    ensures
        taken_from(res@, s@, picked(s@.len() as int, 0, bits as nat)),
{
    let mut res: Vec<&'a T> = Vec::new();
    let mut rest = bits;
    let mut t: usize = 0;
    let ghost mut places: Seq<int> = Seq::empty();
    assert(places + picked(s@.len() as int, 0, rest as nat) =~= picked(s@.len() as int, 0, bits as nat));
    while t < s.len()
        invariant
            t <= s@.len(),
            places + picked(s@.len() as int, t as int, rest as nat) == picked(
                s@.len() as int,
                0,
                bits as nat,
            ),
            taken_from(res@, s@, places),
        decreases s@.len() - t,
    {
        let ghost before = places;
        let ghost old_res = res@;
        if rest % 2 == 1 {
            let item = &s[t];
            assert(*item == s@[t as int]);
            res.push(item);
            proof {
                places = places.push(t as int);
                assert(res@[old_res.len() as int] == item);
                assert forall|k: int| 0 <= k < res@.len() implies 0 <= #[trigger] places[k] < s@.len()
                    && *res@[k] == s@[places[k]] by {
                    if k < old_res.len() {
                        assert(res@[k] == old_res[k]);
                        assert(places[k] == before[k]);
                    }
                }
                assert(places + picked(s@.len() as int, t as int + 1, (rest / 2) as nat) =~= before
                    + picked(s@.len() as int, t as int, rest as nat));
            }
        }
        rest = rest / 2;
        t = t + 1;
    }
    assert(places + picked(s@.len() as int, t as int, rest as nat) =~= places);
    res
}

/// All subsets of a list: subset number `i` holds the member at place `t`
/// exactly if bit `t` of `i` is set.
pub fn powerset<T>(s: &[T]) -> (res: Vec<Vec<&T>>)
    requires
        pow2(s@.len()) <= usize::MAX,
    ensures
        res@.len() == pow2(s@.len()),
        forall|i: int|
            0 <= i < res@.len() ==> taken_from(
                (#[trigger] res@[i])@,
                s@,
                picked(s@.len() as int, 0, i as nat),
            ),
{
    let mut count: usize = 1;
    let mut t: usize = 0;
    while t < s.len()
        invariant
            t <= s@.len(),
            count == pow2(t as nat),
            pow2(s@.len()) <= usize::MAX,
        decreases s@.len() - t,
    {
        proof {
            lemma_pow2_mono(t as nat + 1, s@.len());
        }
        count = count * 2;
        t = t + 1;
    }
    let mut res: Vec<Vec<&T>> = Vec::new();
    let mut i: usize = 0;
    while i < count
        invariant
            i <= count,
            res@.len() == i,
            forall|j: int|
                0 <= j < i ==> taken_from(
                    (#[trigger] res@[j])@,
                    s@,
                    picked(s@.len() as int, 0, j as nat),
                ),
        decreases count - i,
    {
        res.push(subset(s, i));
        i = i + 1;
    }
    res
}

pub proof fn lemma_pow2_mono(a: nat, b: nat)
    requires
        a <= b,
    ensures
        pow2(a) <= pow2(b),
    decreases b - a,
{
    if a < b {
        lemma_pow2_mono(a, (b - 1) as nat);
    }
}

/// The labelling read the other way round: for each of `n` nodes, the
/// propositions that hold at it.
pub fn reverse_map(map: &ApMap, n: usize) -> (res: Vec<Vec<String>>)
    requires
        map.wf(),
    ensures
        res@.len() == n,
        forall|v: int, k: int|
            0 <= v < n && 0 <= k < res@[v]@.len() ==> map@.dom().contains((#[trigger] res@[v]@[k])@)
                && map@[res@[v]@[k]@].contains(v),
        forall|v: int, name: Seq<char>|
            0 <= v < n && map@.dom().contains(name) && map@[name].contains(v) ==> #[trigger] named(
                res@[v]@,
                name,
            ),
{
    let mut res: Vec<Vec<String>> = Vec::new();
    let mut v: usize = 0;
    while v < n
        invariant
            map.wf(),
            v <= n,
            res@.len() == v,
            forall|w: int, k: int|
                0 <= w < v && 0 <= k < res@[w]@.len() ==> map@.dom().contains(
                    (#[trigger] res@[w]@[k])@,
                ) && map@[res@[w]@[k]@].contains(w),
            forall|w: int, name: Seq<char>|
                0 <= w < v && map@.dom().contains(name) && map@[name].contains(w) ==> #[trigger] named(
                    res@[w]@,
                    name,
                ),
        decreases n - v,
    {
        let ghost before = res@;
        res.push(map.names_at(v));
        assert forall|w: int, k: int| 0 <= w < v + 1 && 0 <= k < res@[w]@.len() implies map@.dom().contains(
            (#[trigger] res@[w]@[k])@,
        ) && map@[res@[w]@[k]@].contains(w) by {
            if w < v {
                assert(res@[w] == before[w]);
            }
        }
        assert forall|w: int, name: Seq<char>|
            0 <= w < v + 1 && map@.dom().contains(name) && map@[name].contains(
                w,
            ) implies #[trigger] named(res@[w]@, name) by {
            if w < v {
                assert(res@[w] == before[w]);
            }
        }
        v = v + 1;
    }
    res
}

/// Running times in microseconds, in two series: that of reading the
/// formula and that of answering the query.
#[derive(Debug, Default)]
pub struct TimeMeasurements {
    pub vwaa_times: Vec<u128>,
    pub gba_times: Vec<u128>,
}

impl TimeMeasurements {
    /// The record without times.
    pub fn new() -> (res: TimeMeasurements)
        ensures
            res.vwaa_times@.len() == 0,
            res.gba_times@.len() == 0,
    {
        TimeMeasurements { vwaa_times: Vec::new(), gba_times: Vec::new() }
    }

    /// Adds a time to series `t`: zero is the first series, one the second.
    pub fn add_time(&mut self, t: usize, microseconds: u128)
        requires
            t < 2,
        ensures
            t == 0 ==> final(self).vwaa_times@ == old(self).vwaa_times@.push(microseconds)
                && final(self).gba_times@ == old(self).gba_times@,
            t == 1 ==> final(self).gba_times@ == old(self).gba_times@.push(microseconds)
                && final(self).vwaa_times@ == old(self).vwaa_times@,
    {
        if t == 0 {
            self.vwaa_times.push(microseconds);
        } else {
            self.gba_times.push(microseconds);
        }
    }
}

} // verus!
