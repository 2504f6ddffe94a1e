//! LTL formulae in negation normal form: negation stands before atomic
//! propositions only.

use vstd::prelude::*;

verus! {

/// What a formula is, mathematically.
pub enum Ltl {
    True,
    False,
    Not(Seq<char>),
    AP(Seq<char>),
    Until(Box<Ltl>, Box<Ltl>),
    Next(Box<Ltl>),
    Release(Box<Ltl>, Box<Ltl>),
    And(Box<Ltl>, Box<Ltl>),
    Or(Box<Ltl>, Box<Ltl>),
}

/// The formula that always holds.
#[derive(Debug, PartialEq, Eq)]
pub struct True;

/// The formula that never holds.
#[derive(Debug, PartialEq, Eq)]
pub struct False;

/// A negated atomic proposition.
#[derive(Debug, PartialEq, Eq)]
pub struct Not {
    pub ap: AP,
}

/// An atomic proposition.
#[derive(Debug, PartialEq, Eq)]
pub struct AP {
    pub value: String,
}

/// `left_phi` holds until `right_phi` does, and `right_phi` does hold at
/// some time.
#[derive(Debug, PartialEq, Eq)]
pub struct Until {
    pub left_phi: Box<PhiOp>,
    pub right_phi: Box<PhiOp>,
}

/// `phi` holds at the next step.
#[derive(Debug, PartialEq, Eq)]
pub struct Next {
    pub phi: Box<PhiOp>,
}

/// `right_phi` holds up to and including the step at which `left_phi`
/// holds, or for ever.
#[derive(Debug, PartialEq, Eq)]
pub struct Release {
    pub left_phi: Box<PhiOp>,
    pub right_phi: Box<PhiOp>,
}

/// Both formulae hold.
#[derive(Debug, PartialEq, Eq)]
pub struct And {
    pub left_phi: Box<PhiOp>,
    pub right_phi: Box<PhiOp>,
}

/// One of the formulae holds.
#[derive(Debug, PartialEq, Eq)]
pub struct Or {
    pub left_phi: Box<PhiOp>,
    pub right_phi: Box<PhiOp>,
}

/// An LTL formula.
#[derive(Debug, PartialEq, Eq)]
pub enum PhiOp {
    True(True),
    False(False),
    Not(Not),
    AP(AP),
    Until(Until),
    Next(Next),
    Release(Release),
    And(And),
    Or(Or),
}

impl PhiOp {
    /// The formula as a mathematical value.
    pub open spec fn model(&self) -> Ltl
        decreases self,
    {
        match self {
            PhiOp::True(_) => Ltl::True,
            PhiOp::False(_) => Ltl::False,
            PhiOp::Not(n) => Ltl::Not(n.ap.value@),
            PhiOp::AP(a) => Ltl::AP(a.value@),
            PhiOp::Until(u) => Ltl::Until(
                Box::new(u.left_phi.model()),
                Box::new(u.right_phi.model()),
            ),
            PhiOp::Next(n) => Ltl::Next(Box::new(n.phi.model())),
            PhiOp::Release(r) => Ltl::Release(
                Box::new(r.left_phi.model()),
                Box::new(r.right_phi.model()),
            ),
            PhiOp::And(a) => Ltl::And(Box::new(a.left_phi.model()), Box::new(a.right_phi.model())),
            PhiOp::Or(o) => Ltl::Or(Box::new(o.left_phi.model()), Box::new(o.right_phi.model())),
        }
    }
}

impl View for PhiOp {
    type V = Ltl;

    open spec fn view(&self) -> Ltl {
        self.model()
    }
}

/// The place of a formula's outermost operator in the order of formulae.
pub open spec fn rank(f: Ltl) -> int {
    match f {
        Ltl::True => 0,
        Ltl::False => 1,
        Ltl::Not(_) => 2,
        Ltl::AP(_) => 3,
        Ltl::Until(_, _) => 4,
        Ltl::Next(_) => 5,
        Ltl::Release(_, _) => 6,
        Ltl::And(_, _) => 7,
        Ltl::Or(_, _) => 8,
    }
}

/// Compares two names letter by letter, by the letters' code points:
/// negative where `a` comes first, zero where they are equal, positive
/// where `b` comes first.
pub open spec fn name_order(a: Seq<char>, b: Seq<char>) -> int
    decreases a.len(),
{
    if a.len() == 0 {
        if b.len() == 0 {
            0
        } else {
            -1
        }
    } else if b.len() == 0 {
        1
    } else if (a[0] as int) < (b[0] as int) {
        -1
    } else if (a[0] as int) > (b[0] as int) {
        1
    } else {
        name_order(a.skip(1), b.skip(1))
    }
}

/// The order of formulae: by the outermost operator first (constants,
/// literals, until, next, release, and, or), then by the operands from left
/// to right. Negative where `a` comes first, zero where the formulae are
/// equal, positive where `b` comes first.
pub open spec fn order(a: Ltl, b: Ltl) -> int
    decreases a,
{
    if rank(a) != rank(b) {
        if rank(a) < rank(b) {
            -1
        } else {
            1
        }
    } else {
        match (a, b) {
            (Ltl::Not(x), Ltl::Not(y)) => name_order(x, y),
            (Ltl::AP(x), Ltl::AP(y)) => name_order(x, y),
            (Ltl::Next(x), Ltl::Next(y)) => order(*x, *y),
            (Ltl::Until(x1, x2), Ltl::Until(y1, y2)) => if order(*x1, *y1) != 0 {
                order(*x1, *y1)
            } else {
                order(*x2, *y2)
            },
            (Ltl::Release(x1, x2), Ltl::Release(y1, y2)) => if order(*x1, *y1) != 0 {
                order(*x1, *y1)
            } else {
                order(*x2, *y2)
            },
            (Ltl::And(x1, x2), Ltl::And(y1, y2)) => if order(*x1, *y1) != 0 {
                order(*x1, *y1)
            } else {
                order(*x2, *y2)
            },
            (Ltl::Or(x1, x2), Ltl::Or(y1, y2)) => if order(*x1, *y1) != 0 {
                order(*x1, *y1)
            } else {
                order(*x2, *y2)
            },
            _ => 0,
        }
    }
}

/// Names are in order zero exactly if they are equal.
pub proof fn lemma_name_order_zero(a: Seq<char>, b: Seq<char>)
    ensures
        name_order(a, b) == 0 <==> a == b,
    decreases a.len(),
{
    if a.len() > 0 && b.len() > 0 {
        lemma_name_order_zero(a.skip(1), b.skip(1));
        if a[0] == b[0] && a.skip(1) == b.skip(1) {
            assert(a =~= seq![a[0]] + a.skip(1));
            assert(b =~= seq![b[0]] + b.skip(1));
        }
        if a == b {
            assert(a.skip(1) == b.skip(1));
        }
    } else {
        if name_order(a, b) == 0 {
            assert(a =~= b);
        }
    }
}

/// Formulae are in order zero exactly if they are equal.
pub proof fn lemma_order_zero(a: Ltl, b: Ltl)
    ensures
        order(a, b) == 0 <==> a == b,
    decreases a,
{
    if rank(a) == rank(b) {
        match (a, b) {
            (Ltl::Not(x), Ltl::Not(y)) => {
                lemma_name_order_zero(x, y);
            },
            (Ltl::AP(x), Ltl::AP(y)) => {
                lemma_name_order_zero(x, y);
            },
            (Ltl::Next(x), Ltl::Next(y)) => {
                lemma_order_zero(*x, *y);
            },
            (Ltl::Until(x1, x2), Ltl::Until(y1, y2)) => {
                lemma_order_zero(*x1, *y1);
                lemma_order_zero(*x2, *y2);
            },
            (Ltl::Release(x1, x2), Ltl::Release(y1, y2)) => {
                lemma_order_zero(*x1, *y1);
                lemma_order_zero(*x2, *y2);
            },
            (Ltl::And(x1, x2), Ltl::And(y1, y2)) => {
                lemma_order_zero(*x1, *y1);
                lemma_order_zero(*x2, *y2);
            },
            (Ltl::Or(x1, x2), Ltl::Or(y1, y2)) => {
                lemma_order_zero(*x1, *y1);
                lemma_order_zero(*x2, *y2);
            },
            _ => {},
        }
    }
}

/// Swapping two names turns their order round.
pub proof fn lemma_name_order_flip(a: Seq<char>, b: Seq<char>)
    ensures
        name_order(b, a) == -name_order(a, b),
        -1 <= name_order(a, b) <= 1,
    decreases a.len(),
{
    if a.len() > 0 && b.len() > 0 {
        lemma_name_order_flip(a.skip(1), b.skip(1));
    }
}

/// The order of names is transitive.
pub proof fn lemma_name_order_chain(a: Seq<char>, b: Seq<char>, c: Seq<char>)
    requires
        name_order(a, b) <= 0,
        name_order(b, c) <= 0,
    ensures
        name_order(a, c) <= 0,
        name_order(a, b) < 0 || name_order(b, c) < 0 ==> name_order(a, c) < 0,
    decreases a.len(),
{
    if a.len() > 0 && b.len() > 0 && c.len() > 0 {
        if a[0] == b[0] && b[0] == c[0] {
            lemma_name_order_chain(a.skip(1), b.skip(1), c.skip(1));
        }
    }
}

/// Swapping two formulae turns their order round.
pub proof fn lemma_order_flip(a: Ltl, b: Ltl)
    ensures
        order(b, a) == -order(a, b),
        -1 <= order(a, b) <= 1,
    decreases a,
{
    if rank(a) == rank(b) {
        match (a, b) {
            (Ltl::Not(x), Ltl::Not(y)) => {
                lemma_name_order_flip(x, y);
            },
            (Ltl::AP(x), Ltl::AP(y)) => {
                lemma_name_order_flip(x, y);
            },
            (Ltl::Next(x), Ltl::Next(y)) => {
                lemma_order_flip(*x, *y);
            },
            (Ltl::Until(x1, x2), Ltl::Until(y1, y2)) => {
                lemma_order_flip(*x1, *y1);
                lemma_order_flip(*x2, *y2);
            },
            (Ltl::Release(x1, x2), Ltl::Release(y1, y2)) => {
                lemma_order_flip(*x1, *y1);
                lemma_order_flip(*x2, *y2);
            },
            (Ltl::And(x1, x2), Ltl::And(y1, y2)) => {
                lemma_order_flip(*x1, *y1);
                lemma_order_flip(*x2, *y2);
            },
            (Ltl::Or(x1, x2), Ltl::Or(y1, y2)) => {
                lemma_order_flip(*x1, *y1);
                lemma_order_flip(*x2, *y2);
            },
            _ => {},
        }
    }
}

/// The order of two pairs of formulae, by the first members and then by the
/// second, is transitive where the order of the members is.
proof fn lemma_pair_chain(a1: Ltl, a2: Ltl, b1: Ltl, b2: Ltl, c1: Ltl, c2: Ltl)
    requires
        (if order(a1, b1) != 0 {
            order(a1, b1)
        } else {
            order(a2, b2)
        }) <= 0,
        (if order(b1, c1) != 0 {
            order(b1, c1)
        } else {
            order(b2, c2)
        }) <= 0,
        order(a1, b1) <= 0 && order(b1, c1) <= 0 ==> order(a1, c1) <= 0 && (order(a1, b1) < 0
            || order(b1, c1) < 0 ==> order(a1, c1) < 0),
        order(a2, b2) <= 0 && order(b2, c2) <= 0 ==> order(a2, c2) <= 0 && (order(a2, b2) < 0
            || order(b2, c2) < 0 ==> order(a2, c2) < 0),
    ensures
        (if order(a1, c1) != 0 {
            order(a1, c1)
        } else {
            order(a2, c2)
        }) <= 0,
        ((if order(a1, b1) != 0 {
            order(a1, b1)
        } else {
            order(a2, b2)
        }) < 0 || (if order(b1, c1) != 0 {
            order(b1, c1)
        } else {
            order(b2, c2)
        }) < 0) ==> (if order(a1, c1) != 0 {
            order(a1, c1)
        } else {
            order(a2, c2)
        }) < 0,
{
    lemma_order_zero(a1, b1);
    lemma_order_zero(b1, c1);
    lemma_order_zero(a1, c1);
}

/// The order of formulae is transitive.
pub proof fn lemma_order_chain(a: Ltl, b: Ltl, c: Ltl)
    requires
        order(a, b) <= 0,
        order(b, c) <= 0,
    ensures
        order(a, c) <= 0,
        order(a, b) < 0 || order(b, c) < 0 ==> order(a, c) < 0,
    decreases a,
{
    if rank(a) == rank(b) && rank(b) == rank(c) {
        match (a, b, c) {
            (Ltl::Not(x), Ltl::Not(y), Ltl::Not(z)) => {
                lemma_name_order_chain(x, y, z);
            },
            (Ltl::AP(x), Ltl::AP(y), Ltl::AP(z)) => {
                lemma_name_order_chain(x, y, z);
            },
            (Ltl::Next(x), Ltl::Next(y), Ltl::Next(z)) => {
                lemma_order_chain(*x, *y, *z);
            },
            (Ltl::Until(x1, x2), Ltl::Until(y1, y2), Ltl::Until(z1, z2)) => {
                if order(*x1, *y1) <= 0 && order(*y1, *z1) <= 0 {
                    lemma_order_chain(*x1, *y1, *z1);
                }
                if order(*x2, *y2) <= 0 && order(*y2, *z2) <= 0 {
                    lemma_order_chain(*x2, *y2, *z2);
                }
                lemma_pair_chain(*x1, *x2, *y1, *y2, *z1, *z2);
            },
            (Ltl::Release(x1, x2), Ltl::Release(y1, y2), Ltl::Release(z1, z2)) => {
                if order(*x1, *y1) <= 0 && order(*y1, *z1) <= 0 {
                    lemma_order_chain(*x1, *y1, *z1);
                }
                if order(*x2, *y2) <= 0 && order(*y2, *z2) <= 0 {
                    lemma_order_chain(*x2, *y2, *z2);
                }
                lemma_pair_chain(*x1, *x2, *y1, *y2, *z1, *z2);
            },
            (Ltl::And(x1, x2), Ltl::And(y1, y2), Ltl::And(z1, z2)) => {
                if order(*x1, *y1) <= 0 && order(*y1, *z1) <= 0 {
                    lemma_order_chain(*x1, *y1, *z1);
                }
                if order(*x2, *y2) <= 0 && order(*y2, *z2) <= 0 {
                    lemma_order_chain(*x2, *y2, *z2);
                }
                lemma_pair_chain(*x1, *x2, *y1, *y2, *z1, *z2);
            },
            (Ltl::Or(x1, x2), Ltl::Or(y1, y2), Ltl::Or(z1, z2)) => {
                if order(*x1, *y1) <= 0 && order(*y1, *z1) <= 0 {
                    lemma_order_chain(*x1, *y1, *z1);
                }
                if order(*x2, *y2) <= 0 && order(*y2, *z2) <= 0 {
                    lemma_order_chain(*x2, *y2, *z2);
                }
                lemma_pair_chain(*x1, *x2, *y1, *y2, *z1, *z2);
            },
            _ => {},
        }
    }
}

/// The negation of a formula, in negation normal form.
pub open spec fn negation(f: Ltl) -> Ltl
    decreases f,
{
    match f {
        Ltl::True => Ltl::False,
        Ltl::False => Ltl::True,
        Ltl::Not(p) => Ltl::AP(p),
        Ltl::AP(p) => Ltl::Not(p),
        Ltl::Until(l, r) => Ltl::Release(Box::new(negation(*l)), Box::new(negation(*r))),
        Ltl::Next(x) => Ltl::Next(Box::new(negation(*x))),
        Ltl::Release(l, r) => Ltl::Until(Box::new(negation(*l)), Box::new(negation(*r))),
        Ltl::And(l, r) => Ltl::Or(Box::new(negation(*l)), Box::new(negation(*r))),
        Ltl::Or(l, r) => Ltl::And(Box::new(negation(*l)), Box::new(negation(*r))),
    }
}

/// A formula that is no conjunction and no disjunction.
pub open spec fn temporal(f: Ltl) -> bool {
    !(f is And) && !(f is Or)
}

/// A constant or a literal.
pub open spec fn atomic(f: Ltl) -> bool {
    f is True || f is False || f is Not || f is AP
}

/// The conjunction of two formulae, made simpler where it can be: equal
/// formulae give one of them, a constant operand decides or vanishes.
pub open spec fn conj(l: Ltl, r: Ltl) -> Ltl {
    if l == r {
        l
    } else if l is True {
        r
    } else if r is True {
        l
    } else if l is False || r is False {
        Ltl::False
    } else {
        Ltl::And(Box::new(l), Box::new(r))
    }
}

/// The disjunction of two formulae, made simpler where an operand is a
/// constant.
pub open spec fn disj(l: Ltl, r: Ltl) -> Ltl {
    if l is True || r is True {
        Ltl::True
    } else if l is False {
        r
    } else if r is False {
        l
    } else {
        Ltl::Or(Box::new(l), Box::new(r))
    }
}

/// The operands of a formula's outermost operator.
pub open spec fn operands(f: Ltl) -> Seq<Ltl> {
    match f {
        Ltl::True => seq![],
        Ltl::False => seq![],
        Ltl::Not(p) => seq![Ltl::AP(p)],
        Ltl::AP(_) => seq![],
        Ltl::Until(l, r) => seq![*l, *r],
        Ltl::Next(x) => seq![*x],
        Ltl::Release(l, r) => seq![*l, *r],
        Ltl::And(l, r) => seq![*l, *r],
        Ltl::Or(l, r) => seq![*l, *r],
    }
}

/// Negating twice gives the formula back.
pub proof fn negation_is_involution(f: Ltl)
    ensures
        negation(negation(f)) == f,
    decreases f,
{
    match f {
        Ltl::Until(l, r) => {
            negation_is_involution(*l);
            negation_is_involution(*r);
        },
        Ltl::Next(x) => {
            negation_is_involution(*x);
        },
        Ltl::Release(l, r) => {
            negation_is_involution(*l);
            negation_is_involution(*r);
        },
        Ltl::And(l, r) => {
            negation_is_involution(*l);
            negation_is_involution(*r);
        },
        Ltl::Or(l, r) => {
            negation_is_involution(*l);
            negation_is_involution(*r);
        },
        _ => {},
    }
}

/// Compares two names by `name_order`.
pub fn compare_names(a: &String, b: &String) -> (res: i8)
    ensures
        res == name_order(a@, b@),
        -1 <= res <= 1,
{
    let la = a.as_str().unicode_len();
    let lb = b.as_str().unicode_len();
    let mut i: usize = 0;
    assert(a@.skip(0) =~= a@);
    assert(b@.skip(0) =~= b@);
    while i < la && i < lb
        invariant
            la == a@.len(),
            lb == b@.len(),
            i <= la,
            i <= lb,
            name_order(a@, b@) == name_order(a@.skip(i as int), b@.skip(i as int)),
        decreases la - i,
    {
        let x = a.as_str().get_char(i);
        let y = b.as_str().get_char(i);
        proof {
            assert(a@.skip(i as int)[0] == x);
            assert(b@.skip(i as int)[0] == y);
            assert(a@.skip(i as int).skip(1) =~= a@.skip(i as int + 1));
            assert(b@.skip(i as int).skip(1) =~= b@.skip(i as int + 1));
        }
        if (x as u32) < (y as u32) {
            return -1;
        }
        if (x as u32) > (y as u32) {
            return 1;
        }
        i = i + 1;
    }
    if i < lb {
        -1
    } else if i < la {
        1
    } else {
        0
    }
}

impl True {
    pub fn create() -> (res: PhiOp)
        ensures
            res@ == Ltl::True,
    {
        PhiOp::True(True)
    }
}

impl False {
    pub fn create() -> (res: PhiOp)
        ensures
            res@ == Ltl::False,
    {
        PhiOp::False(False)
    }
}

impl Not {
    pub fn create(ap: AP) -> (res: PhiOp)
        ensures
            res@ == Ltl::Not(ap.value@),
    {
        PhiOp::Not(Not { ap })
    }
}

impl AP {
    pub fn create(value: String) -> (res: PhiOp)
        ensures
            res@ == Ltl::AP(value@),
    {
        PhiOp::AP(AP { value })
    }
}

impl Until {
    pub fn create(left_phi: PhiOp, right_phi: PhiOp) -> (res: PhiOp)
        ensures
            res@ == Ltl::Until(Box::new(left_phi@), Box::new(right_phi@)),
    {
        PhiOp::Until(Until { left_phi: Box::new(left_phi), right_phi: Box::new(right_phi) })
    }
}

impl Next {
    pub fn create(phi: PhiOp) -> (res: PhiOp)
        ensures
            res@ == Ltl::Next(Box::new(phi@)),
    {
        PhiOp::Next(Next { phi: Box::new(phi) })
    }
}

impl Release {
    pub fn create(left_phi: PhiOp, right_phi: PhiOp) -> (res: PhiOp)
        ensures
            res@ == Ltl::Release(Box::new(left_phi@), Box::new(right_phi@)),
    {
        PhiOp::Release(Release { left_phi: Box::new(left_phi), right_phi: Box::new(right_phi) })
    }
}

impl And {
    /// The conjunction, made simpler where it can be.
    pub fn create(left_phi: PhiOp, right_phi: PhiOp) -> (res: PhiOp)
        ensures
            res@ == conj(left_phi@, right_phi@),
    {
        if left_phi.same(&right_phi) {
            return left_phi;
        }
        if left_phi.is_true() {
            return right_phi;
        }
        if right_phi.is_true() {
            return left_phi;
        }
        if left_phi.is_false() || right_phi.is_false() {
            return PhiOp::False(False);
        }
        PhiOp::And(And { left_phi: Box::new(left_phi), right_phi: Box::new(right_phi) })
    }
}

impl Or {
    /// The disjunction, made simpler where an operand is a constant.
    pub fn create(left_phi: PhiOp, right_phi: PhiOp) -> (res: PhiOp)
        ensures
            res@ == disj(left_phi@, right_phi@),
    {
        if left_phi.is_true() || right_phi.is_true() {
            return PhiOp::True(True);
        }
        if left_phi.is_false() {
            return right_phi;
        }
        if right_phi.is_false() {
            return left_phi;
        }
        PhiOp::Or(Or { left_phi: Box::new(left_phi), right_phi: Box::new(right_phi) })
    }
}

impl PhiOp {
    pub fn is_true(&self) -> (res: bool)
        ensures
            res == (self@ is True),
    {
        matches!(self, PhiOp::True(_))
    }

    pub fn is_false(&self) -> (res: bool)
        ensures
            res == (self@ is False),
    {
        matches!(self, PhiOp::False(_))
    }

    /// The place of the outermost operator in the order of formulae.
    pub fn rank_of(&self) -> (res: u8)
        ensures
            res == rank(self@),
    {
        match self {
            PhiOp::True(_) => 0,
            PhiOp::False(_) => 1,
            PhiOp::Not(_) => 2,
            PhiOp::AP(_) => 3,
            PhiOp::Until(_) => 4,
            PhiOp::Next(_) => 5,
            PhiOp::Release(_) => 6,
            PhiOp::And(_) => 7,
            PhiOp::Or(_) => 8,
        }
    }

    /// Compares two formulae by `order`.
    pub fn compare(&self, other: &PhiOp) -> (res: i8)
        ensures
            res == order(self@, other@),
            -1 <= res <= 1,
        decreases self,
    {
        let ra = self.rank_of();
        let rb = other.rank_of();
        if ra != rb {
            return if ra < rb {
                -1
            } else {
                1
            };
        }
        match (self, other) {
            (PhiOp::Not(x), PhiOp::Not(y)) => compare_names(&x.ap.value, &y.ap.value),
            (PhiOp::AP(x), PhiOp::AP(y)) => compare_names(&x.value, &y.value),
            (PhiOp::Next(x), PhiOp::Next(y)) => x.phi.compare(&y.phi),
            (PhiOp::Until(x), PhiOp::Until(y)) => {
                let c = x.left_phi.compare(&y.left_phi);
                if c != 0 {
                    c
                } else {
                    x.right_phi.compare(&y.right_phi)
                }
            },
            (PhiOp::Release(x), PhiOp::Release(y)) => {
                let c = x.left_phi.compare(&y.left_phi);
                if c != 0 {
                    c
                } else {
                    x.right_phi.compare(&y.right_phi)
                }
            },
            (PhiOp::And(x), PhiOp::And(y)) => {
                let c = x.left_phi.compare(&y.left_phi);
                if c != 0 {
                    c
                } else {
                    x.right_phi.compare(&y.right_phi)
                }
            },
            (PhiOp::Or(x), PhiOp::Or(y)) => {
                let c = x.left_phi.compare(&y.left_phi);
                if c != 0 {
                    c
                } else {
                    x.right_phi.compare(&y.right_phi)
                }
            },
            _ => 0,
        }
    }

    /// Whether two formulae are equal.
    pub fn same(&self, other: &PhiOp) -> (res: bool)
        ensures
            res == (self@ == other@),
    {
        proof {
            lemma_order_zero(self@, other@);
        }
        self.compare(other) == 0
    }

    /// A copy of the formula.
    pub fn duplicate(&self) -> (res: PhiOp)
        ensures
            res@ == self@,
        decreases self,
    {
        match self {
            PhiOp::True(_) => PhiOp::True(True),
            PhiOp::False(_) => PhiOp::False(False),
            PhiOp::Not(n) => PhiOp::Not(Not { ap: AP { value: n.ap.value.clone() } }),
            PhiOp::AP(a) => PhiOp::AP(AP { value: a.value.clone() }),
            PhiOp::Until(u) => PhiOp::Until(
                Until {
                    left_phi: Box::new(u.left_phi.duplicate()),
                    right_phi: Box::new(u.right_phi.duplicate()),
                },
            ),
            PhiOp::Next(n) => PhiOp::Next(Next { phi: Box::new(n.phi.duplicate()) }),
            PhiOp::Release(r) => PhiOp::Release(
                Release {
                    left_phi: Box::new(r.left_phi.duplicate()),
                    right_phi: Box::new(r.right_phi.duplicate()),
                },
            ),
            PhiOp::And(a) => PhiOp::And(
                And {
                    left_phi: Box::new(a.left_phi.duplicate()),
                    right_phi: Box::new(a.right_phi.duplicate()),
                },
            ),
            PhiOp::Or(o) => PhiOp::Or(
                Or {
                    left_phi: Box::new(o.left_phi.duplicate()),
                    right_phi: Box::new(o.right_phi.duplicate()),
                },
            ),
        }
    }

    /// The negation of the formula, in negation normal form.
    pub fn negate(&self) -> (res: PhiOp)
        ensures
            res@ == negation(self@),
        decreases self,
    {
        match self {
            PhiOp::True(_) => PhiOp::False(False),
            PhiOp::False(_) => PhiOp::True(True),
            PhiOp::Not(n) => PhiOp::AP(AP { value: n.ap.value.clone() }),
            PhiOp::AP(a) => PhiOp::Not(Not { ap: AP { value: a.value.clone() } }),
            PhiOp::Until(u) => PhiOp::Release(
                Release {
                    left_phi: Box::new(u.left_phi.negate()),
                    right_phi: Box::new(u.right_phi.negate()),
                },
            ),
            PhiOp::Next(n) => PhiOp::Next(Next { phi: Box::new(n.phi.negate()) }),
            PhiOp::Release(r) => PhiOp::Until(
                Until {
                    left_phi: Box::new(r.left_phi.negate()),
                    right_phi: Box::new(r.right_phi.negate()),
                },
            ),
            PhiOp::And(a) => PhiOp::Or(
                Or {
                    left_phi: Box::new(a.left_phi.negate()),
                    right_phi: Box::new(a.right_phi.negate()),
                },
            ),
            PhiOp::Or(o) => PhiOp::And(
                And {
                    left_phi: Box::new(o.left_phi.negate()),
                    right_phi: Box::new(o.right_phi.negate()),
                },
            ),
        }
    }

    /// Whether the formula is no conjunction and no disjunction.
    pub fn is_temporal(&self) -> (res: bool)
        ensures
            res == temporal(self@),
    {
        match self {
            PhiOp::And(_) => false,
            PhiOp::Or(_) => false,
            _ => true,
        }
    }

    /// Whether the formula is a constant or a literal.
    pub fn is_atomic(&self) -> (res: bool)
        ensures
            res == atomic(self@),
    {
        match self {
            PhiOp::True(_) => true,
            PhiOp::False(_) => true,
            PhiOp::Not(_) => true,
            PhiOp::AP(_) => true,
            _ => false,
        }
    }

    /// The operands of the outermost operator: the proposition of a negated
    /// one, none for a constant or a proposition.
    pub fn get_subformula(&self) -> (res: Vec<PhiOp>)
        ensures
            res@.len() == operands(self@).len(),
            forall|i: int| 0 <= i < res@.len() ==> (#[trigger] res@[i])@ == operands(self@)[i],
    {
        let mut res: Vec<PhiOp> = Vec::new();
        match self {
            PhiOp::True(_) => {},
            PhiOp::False(_) => {},
            PhiOp::Not(n) => {
                res.push(PhiOp::AP(AP { value: n.ap.value.clone() }));
            },
            PhiOp::AP(_) => {},
            PhiOp::Until(u) => {
                res.push(u.left_phi.duplicate());
                res.push(u.right_phi.duplicate());
            },
            PhiOp::Next(n) => {
                res.push(n.phi.duplicate());
            },
            PhiOp::Release(r) => {
                res.push(r.left_phi.duplicate());
                res.push(r.right_phi.duplicate());
            },
            PhiOp::And(a) => {
                res.push(a.left_phi.duplicate());
                res.push(a.right_phi.duplicate());
            },
            PhiOp::Or(o) => {
                res.push(o.left_phi.duplicate());
                res.push(o.right_phi.duplicate());
            },
        }
        res
    }
}

} // verus!
