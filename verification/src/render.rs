//! Writing formulae down in the syntax in which they are read.

use crate::comp::{Comp, ONE};
use crate::logic::LtlQuery;
use crate::ltl::formula::{Ltl, PhiOp};
use crate::pctl::{PathPhi, Pctl, PctlFormula, PctlPath, StatePhi};
use vstd::prelude::*;
use vstd::string::StringExecFns;

verus! {

/// The text of a digit.
pub open spec fn digit_text(d: int) -> Seq<char> {
    if d == 0 {
        "0"@
    } else if d == 1 {
        "1"@
    } else if d == 2 {
        "2"@
    } else if d == 3 {
        "3"@
    } else if d == 4 {
        "4"@
    } else if d == 5 {
        "5"@
    } else if d == 6 {
        "6"@
    } else if d == 7 {
        "7"@
    } else if d == 8 {
        "8"@
    } else {
        "9"@
    }
}

/// The text of the decimal digits of `v` from the one that weighs `unit`
/// down to the lowest.
pub open spec fn places_text(v: int, unit: int) -> Seq<char>
    decreases unit,
{
    if unit <= 0 {
        Seq::empty()
    } else {
        digit_text((v / unit) % 10) + places_text(v, unit / 10)
    }
}

/// The text of a probability in parts per billion: one digit, the point, and
/// nine digits.
pub open spec fn number_text(q: u64) -> Seq<char> {
    digit_text((q / ONE) as int % 10) + "."@ + places_text((q % ONE) as int, 100_000_000)
}

/// The text of a comparison operator.
pub open spec fn comp_text(c: Comp) -> Seq<char> {
    match c {
        Comp::Less => "<"@,
        Comp::Leq => "<="@,
        Comp::Greater => ">"@,
        Comp::Geq => ">="@,
    }
}

/// The text of an operator over one formula.
pub open spec fn around(op: Seq<char>, x: Seq<char>) -> Seq<char> {
    op + "("@ + x + ")"@
}

/// The text of an operator between two formulae.
pub open spec fn between(l: Seq<char>, op: Seq<char>, r: Seq<char>) -> Seq<char> {
    "("@ + l + ") "@ + op + " ("@ + r + ")"@
}

/// The text of a probability bound.
pub open spec fn bound_text(x: Seq<char>, c: Comp, q: u64) -> Seq<char> {
    "P("@ + x + ", "@ + comp_text(c) + " "@ + number_text(q) + ")"@
}

/// The text of a path formula.
pub open spec fn path_text(p: PctlPath) -> Seq<char>
    decreases p,
{
    match p {
        PctlPath::Next(x) => around("X"@, state_text(*x)),
        PctlPath::Until(l, r) => between(state_text(*l), "U"@, state_text(*r)),
    }
}

/// The text of a state formula.
pub open spec fn state_text(f: Pctl) -> Seq<char>
    decreases f,
{
    match f {
        Pctl::True => "true"@,
        Pctl::AP(name) => name,
        Pctl::Not(x) => around("!"@, state_text(*x)),
        Pctl::And(l, r) => between(state_text(*l), "&"@, state_text(*r)),
        Pctl::Prob(p, c, q) => bound_text(path_text(*p), c, q),
    }
}

/// The text of an LTL formula.
pub open spec fn ltl_text_of(f: Ltl) -> Seq<char>
    decreases f,
{
    match f {
        Ltl::True => "true"@,
        Ltl::False => "false"@,
        Ltl::Not(name) => around("!"@, name),
        Ltl::AP(name) => name,
        Ltl::Until(l, r) => between(ltl_text_of(*l), "U"@, ltl_text_of(*r)),
        Ltl::Next(x) => around("X"@, ltl_text_of(*x)),
        Ltl::Release(l, r) => between(ltl_text_of(*l), "R"@, ltl_text_of(*r)),
        Ltl::And(l, r) => between(ltl_text_of(*l), "&"@, ltl_text_of(*r)),
        Ltl::Or(l, r) => between(ltl_text_of(*l), "|"@, ltl_text_of(*r)),
    }
}

/// The text of a digit.
pub fn digit_str(d: u64) -> (res: &'static str)
    requires
        d <= 9,
    ensures
        res@ == digit_text(d as int),
{
    if d == 0 {
        "0"
    } else if d == 1 {
        "1"
    } else if d == 2 {
        "2"
    } else if d == 3 {
        "3"
    } else if d == 4 {
        "4"
    } else if d == 5 {
        "5"
    } else if d == 6 {
        "6"
    } else if d == 7 {
        "7"
    } else if d == 8 {
        "8"
    } else {
        "9"
    }
}

/// The text of a probability in parts per billion.
pub fn number_string(q: u64) -> (res: String)
    ensures
        res@ == number_text(q),
{
    let mut res = String::from_str(digit_str((q / ONE) % 10));
    res.append(".");
    let v = q % ONE;
    let ghost front = res@;
    let mut unit: u64 = 100_000_000;
    while unit > 0
        invariant
            res@ + places_text(v as int, unit as int) == front + places_text(v as int, 100_000_000),
        decreases unit,
    {
        let ghost before = res@;
        res.append(digit_str((v / unit) % 10));
        proof {
            assert(res@ + places_text(v as int, (unit / 10) as int) =~= before + places_text(
                v as int,
                unit as int,
            ));
        }
        unit = unit / 10;
    }
    proof {
        assert(res@ + places_text(v as int, 0) =~= res@);
    }
    res
}

/// The text of a comparison operator.
pub fn comp_str(c: &Comp) -> (res: &'static str)
    ensures
        res@ == comp_text(*c),
{
    match c {
        Comp::Less => "<",
        Comp::Leq => "<=",
        Comp::Greater => ">",
        Comp::Geq => ">=",
    }
}

/// The text of an operator over one formula.
fn wrap(op: &str, x: &String) -> (res: String)
    ensures
        res@ == around(op@, x@),
{
    let mut res = String::from_str(op);
    res.append("(");
    res.append(x.as_str());
    res.append(")");
    res
}

/// The text of an operator between two formulae.
fn join(l: &String, op: &str, r: &String) -> (res: String)
    ensures
        res@ == between(l@, op@, r@),
{
    let mut res = String::from_str("(");
    res.append(l.as_str());
    res.append(") ");
    res.append(op);
    res.append(" (");
    res.append(r.as_str());
    res.append(")");
    res
}

/// The text of a probability bound.
fn bound(x: &String, c: &Comp, q: u64) -> (res: String)
    ensures
        res@ == bound_text(x@, *c, q),
{
    let mut res = String::from_str("P(");
    res.append(x.as_str());
    res.append(", ");
    res.append(comp_str(c));
    res.append(" ");
    let number = number_string(q);
    res.append(number.as_str());
    res.append(")");
    res
}

impl PathPhi {
    /// The path formula in the syntax in which it is read.
    pub fn fmt(&self) -> (res: String)
        ensures
            res@ == path_text(self.model()),
        decreases self,
    {
        match self {
            PathPhi::Next(n) => wrap("X", &n.phi.fmt()),
            PathPhi::Until(u) => join(&u.prev.fmt(), "U", &u.until.fmt()),
        }
    }
}

impl StatePhi {
    /// The state formula in the syntax in which it is read.
    pub fn fmt(&self) -> (res: String)
        ensures
            res@ == state_text(self.model()),
        decreases self,
    {
        match self {
            StatePhi::True(_) => String::from_str("true"),
            StatePhi::AP(a) => a.value.clone(),
            StatePhi::Not(n) => wrap("!", &n.phi.fmt()),
            StatePhi::And(a) => join(&a.left_phi.fmt(), "&", &a.right_phi.fmt()),
            StatePhi::Prob(p) => bound(&p.phi.fmt(), &p.comp, p.probability),
        }
    }
}

impl PctlFormula {
    /// The query in the syntax in which it is read.
    pub fn fmt(&self) -> (res: String)
        ensures
            res@ == "PHI = "@ + state_text(self.0.model()),
    {
        let mut res = String::from_str("PHI = ");
        res.append(self.0.fmt().as_str());
        res
    }
}

impl PhiOp {
    /// The formula in the syntax in which it is read.
    pub fn fmt(&self) -> (res: String)
        ensures
            res@ == ltl_text_of(self@),
        decreases self,
    {
        match self {
            PhiOp::True(_) => String::from_str("true"),
            PhiOp::False(_) => String::from_str("false"),
            PhiOp::Not(n) => wrap("!", &n.ap.value),
            PhiOp::AP(a) => a.value.clone(),
            PhiOp::Until(u) => join(&u.left_phi.fmt(), "U", &u.right_phi.fmt()),
            PhiOp::Next(n) => wrap("X", &n.phi.fmt()),
            PhiOp::Release(r) => join(&r.left_phi.fmt(), "R", &r.right_phi.fmt()),
            PhiOp::And(a) => join(&a.left_phi.fmt(), "&", &a.right_phi.fmt()),
            PhiOp::Or(o) => join(&o.left_phi.fmt(), "|", &o.right_phi.fmt()),
        }
    }
}

impl LtlQuery {
    /// The query in the syntax in which it is read.
    pub fn fmt(&self) -> (res: String)
        ensures
            res@ == "PHI = "@ + bound_text(ltl_text_of(self.phi@), self.comp, self.probability),
    {
        let mut res = String::from_str("PHI = ");
        res.append(bound(&self.phi.fmt(), &self.comp, self.probability).as_str());
        res
    }
}

} // verus!
