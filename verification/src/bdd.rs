//! A reduced ordered binary decision diagram over item variables.
//!
//! A node denotes a Boolean function of variable assignments; an assignment
//! is modelled as the set of item names (byte views) that are `true`.  The
//! well-formedness invariant `wf` demands strictly increasing variables on
//! every path (`ordered`) and no branch with equivalent children
//! (`collapsed`); under it, structure is canonical: two well-formed nodes
//! computing the same function are structurally equivalent
//! (`lemma_canonical`).

use vstd::prelude::*;

use crate::items::Item;
use crate::order::{lemma_lex_connected, lemma_lex_irrefl, lemma_lex_trans, lex_lt};

verus! {

/// A decision-diagram node: a constant leaf or a branch on one variable.
#[derive(Debug)]
pub enum Node {
    /// The constant `false` function.
    FalseLeaf,
    /// The constant `true` function.
    TrueLeaf,
    /// `Branch(var, low, high)`: `low` when `var` is absent, `high` when present.
    Branch(Item, Box<Node>, Box<Node>),
}

impl Node {
    /// The function the node denotes, on the assignment `s` (the set of
    /// variables that are `true`).
    pub open spec fn sat(self, s: Set<Seq<u8>>) -> bool
        decreases self,
    {
        match self {
            Node::FalseLeaf => false,
            Node::TrueLeaf => true,
            Node::Branch(it, lo, hi) => if s.contains(it@) {
                hi.sat(s)
            } else {
                lo.sat(s)
            },
        }
    }

    /// Structural equivalence: same shape, variables equal by byte view.
    pub open spec fn eqv(self, other: Node) -> bool
        decreases self,
    {
        match (self, other) {
            (Node::FalseLeaf, Node::FalseLeaf) => true,
            (Node::TrueLeaf, Node::TrueLeaf) => true,
            (Node::Branch(i1, l1, h1), Node::Branch(i2, l2, h2)) => i1@ == i2@ && l1.eqv(*l2)
                && h1.eqv(*h2),
            _ => false,
        }
    }

    /// Every branch variable in `self` comes strictly after `v`.
    pub open spec fn above(self, v: Seq<u8>) -> bool
        decreases self,
    {
        match self {
            Node::Branch(it, lo, hi) => lex_lt(v, it@) && lo.above(v) && hi.above(v),
            _ => true,
        }
    }

    /// Variables strictly increase along every path.
    pub open spec fn ordered(self) -> bool
        decreases self,
    {
        match self {
            Node::Branch(it, lo, hi) => lo.above(it@) && hi.above(it@) && lo.ordered()
                && hi.ordered(),
            _ => true,
        }
    }

    /// No branch has equivalent children.
    pub open spec fn collapsed(self) -> bool
        decreases self,
    {
        match self {
            Node::Branch(it, lo, hi) => !lo.eqv(*hi) && lo.collapsed() && hi.collapsed(),
            _ => true,
        }
    }

    /// The canonical-form invariant.
    pub open spec fn wf(self) -> bool {
        self.ordered() && self.collapsed()
    }

    pub open spec fn height(self) -> nat
        decreases self,
    {
        match self {
            Node::Branch(_, lo, hi) => 1 + if lo.height() > hi.height() {
                lo.height()
            } else {
                hi.height()
            },
            _ => 0,
        }
    }
}

pub proof fn lemma_eqv_refl(a: Node)
    ensures
        a.eqv(a),
    decreases a,
{
    if let Node::Branch(_, lo, hi) = a {
        lemma_eqv_refl(*lo);
        lemma_eqv_refl(*hi);
    }
}

pub proof fn lemma_eqv_sym(a: Node, b: Node)
    requires
        a.eqv(b),
    ensures
        b.eqv(a),
    decreases a,
{
    if let Node::Branch(_, l1, h1) = a {
        if let Node::Branch(_, l2, h2) = b {
            lemma_eqv_sym(*l1, *l2);
            lemma_eqv_sym(*h1, *h2);
        }
    }
}

pub proof fn lemma_eqv_trans(a: Node, b: Node, c: Node)
    requires
        a.eqv(b),
        b.eqv(c),
    ensures
        a.eqv(c),
    decreases a,
{
    if let Node::Branch(_, l1, h1) = a {
        if let Node::Branch(_, l2, h2) = b {
            if let Node::Branch(_, l3, h3) = c {
                lemma_eqv_trans(*l1, *l2, *l3);
                lemma_eqv_trans(*h1, *h2, *h3);
            }
        }
    }
}

/// Equivalent nodes denote the same function and share the invariants.
pub proof fn lemma_eqv_props(a: Node, b: Node)
    requires
        a.eqv(b),
    ensures
        forall|s: Set<Seq<u8>>| a.sat(s) == b.sat(s),
        a.ordered() == b.ordered(),
        a.collapsed() == b.collapsed(),
        forall|v: Seq<u8>| a.above(v) == b.above(v),
    decreases a,
{
    if let Node::Branch(i1, l1, h1) = a {
        if let Node::Branch(i2, l2, h2) = b {
            lemma_eqv_props(*l1, *l2);
            lemma_eqv_props(*h1, *h2);
            assert forall|s: Set<Seq<u8>>| a.sat(s) == b.sat(s) by {
                assert(l1.sat(s) == l2.sat(s));
                assert(h1.sat(s) == h2.sat(s));
            }
            assert forall|v: Seq<u8>| a.above(v) == b.above(v) by {
                assert(l1.above(v) == l2.above(v));
                assert(h1.above(v) == h2.above(v));
            }
            assert forall|w: Node| l1.eqv(w) implies l2.eqv(w) by {
                lemma_eqv_sym(*l1, *l2);
                lemma_eqv_trans(*l2, *l1, w);
            }
            assert forall|w: Node| l2.eqv(w) implies l1.eqv(w) by {
                lemma_eqv_trans(*l1, *l2, w);
            }
            assert(l1.eqv(*h1) == l2.eqv(*h2)) by {
                if l1.eqv(*h1) {
                    lemma_eqv_sym(*h1, *h2);
                    lemma_eqv_trans(*l1, *h1, *h2);
                }
                if l2.eqv(*h2) {
                    lemma_eqv_sym(*l1, *l2);
                    lemma_eqv_trans(*l1, *l2, *h2);
                    lemma_eqv_sym(*h1, *h2);
                    lemma_eqv_trans(*l1, *h2, *h1);
                }
            };
        }
    }
}

/// A node whose variables all come after `v` ignores `v` in assignments.
pub proof fn lemma_above_indep(n: Node, v: Seq<u8>, s: Set<Seq<u8>>)
    requires
        n.above(v),
    ensures
        n.sat(s.insert(v)) == n.sat(s),
        n.sat(s.remove(v)) == n.sat(s),
    decreases n,
{
    if let Node::Branch(it, lo, hi) = n {
        lemma_lex_irrefl(v);
        assert(it@ != v);
        lemma_above_indep(*lo, v, s);
        lemma_above_indep(*hi, v, s);
    }
}

/// `above` is downward closed along the variable order.
pub proof fn lemma_above_lower(n: Node, v: Seq<u8>, w: Seq<u8>)
    requires
        n.above(w),
        lex_lt(v, w),
    ensures
        n.above(v),
    decreases n,
{
    if let Node::Branch(it, lo, hi) = n {
        lemma_lex_trans(v, w, it@);
        lemma_above_lower(*lo, v, w);
        lemma_above_lower(*hi, v, w);
    }
}

/// Decide structural equivalence of two nodes.
pub fn node_eq(a: &Node, b: &Node) -> (r: bool)
    ensures
        r == a.eqv(*b),
    decreases *a,
{
    match (a, b) {
        (Node::FalseLeaf, Node::FalseLeaf) => true,
        (Node::TrueLeaf, Node::TrueLeaf) => true,
        (Node::Branch(i1, l1, h1), Node::Branch(i2, l2, h2)) => {
            crate::items::item_eq(i1, i2) && node_eq(l1, l2) && node_eq(h1, h2)
        },
        _ => false,
    }
}

impl Clone for Node {
    fn clone(&self) -> (r: Node)
        ensures
            r.eqv(*self),
        decreases *self,
    {
        match self {
            Node::FalseLeaf => Node::FalseLeaf,
            Node::TrueLeaf => Node::TrueLeaf,
            Node::Branch(it, lo, hi) => Node::Branch(
                it.clone(),
                Box::new((**lo).clone()),
                Box::new((**hi).clone()),
            ),
        }
    }
}

impl PartialEq for Node {
    fn eq(&self, other: &Node) -> (r: bool) {
        node_eq(self, other)
    }
}

impl vstd::std_specs::cmp::PartialEqSpecImpl for Node {
    open spec fn obeys_eq_spec() -> bool {
        true
    }

    open spec fn eq_spec(&self, other: &Node) -> bool {
        self.eqv(*other)
    }
}

impl Node {
    /// The constant `true` node.
    pub fn true_leaf() -> (r: Node)
        ensures
            r == Node::TrueLeaf,
    {
        Node::TrueLeaf
    }

    /// The constant `false` node.
    pub fn false_leaf() -> (r: Node)
        ensures
            r == Node::FalseLeaf,
    {
        Node::FalseLeaf
    }

    /// Raw branch constructor; applies no reduction.
    pub fn branch(item: &Item, low: Node, high: Node) -> (r: Node)
        ensures
            forall|s: Set<Seq<u8>>|
                #[trigger] r.sat(s) == if s.contains(item@) {
                    high.sat(s)
                } else {
                    low.sat(s)
                },
            low.wf() && high.wf() && low.above(item@) && high.above(item@) && !low.eqv(high)
                ==> r.wf(),
    {
        Node::Branch(item.clone(), Box::new(low), Box::new(high))
    }

    /// The function that is `true` exactly when `item` is chosen.
    pub fn positive_branch(item: &Item) -> (r: Node)
        ensures
            r.wf(),
            forall|s: Set<Seq<u8>>| #[trigger] r.sat(s) == s.contains(item@),
            forall|v: Seq<u8>| lex_lt(v, item@) ==> #[trigger] r.above(v),
    {
        let c = item.clone();
        let r = Node::Branch(c, Box::new(Node::FalseLeaf), Box::new(Node::TrueLeaf));
        proof {
            lemma_leaf_facts();
            assert(r.ordered());
            assert(r.collapsed());
            assert forall|s: Set<Seq<u8>>| #[trigger] r.sat(s) == s.contains(item@) by {
                assert(c@ == item@);
                assert(r.sat(s) == if s.contains(c@) {
                    Node::TrueLeaf.sat(s)
                } else {
                    Node::FalseLeaf.sat(s)
                });
            }
            assert forall|v: Seq<u8>| lex_lt(v, item@) implies #[trigger] r.above(v) by {
                assert(Node::TrueLeaf.above(v));
                assert(Node::FalseLeaf.above(v));
            }
        }
        r
    }

    /// The function that is `true` exactly when `item` is not chosen.
    pub fn negative_branch(item: &Item) -> (r: Node)
        ensures
            r.wf(),
            forall|s: Set<Seq<u8>>| #[trigger] r.sat(s) == !s.contains(item@),
            forall|v: Seq<u8>| lex_lt(v, item@) ==> #[trigger] r.above(v),
    {
        let c = item.clone();
        let r = Node::Branch(c, Box::new(Node::TrueLeaf), Box::new(Node::FalseLeaf));
        proof {
            lemma_leaf_facts();
            assert(r.ordered());
            assert(r.collapsed());
            assert forall|s: Set<Seq<u8>>| #[trigger] r.sat(s) == !s.contains(item@) by {
                assert(c@ == item@);
                assert(r.sat(s) == if s.contains(c@) {
                    Node::FalseLeaf.sat(s)
                } else {
                    Node::TrueLeaf.sat(s)
                });
            }
            assert forall|v: Seq<u8>| lex_lt(v, item@) implies #[trigger] r.above(v) by {
                assert(Node::TrueLeaf.above(v));
                assert(Node::FalseLeaf.above(v));
            }
        }
        r
    }
}

/// The constant leaves are well-formed, constant, and above everything.
pub proof fn lemma_leaf_facts()
    ensures
        Node::FalseLeaf.wf(),
        Node::TrueLeaf.wf(),
        !Node::FalseLeaf.eqv(Node::TrueLeaf),
        !Node::TrueLeaf.eqv(Node::FalseLeaf),
        forall|s: Set<Seq<u8>>| !(#[trigger] Node::FalseLeaf.sat(s)),
        forall|s: Set<Seq<u8>>| #[trigger] Node::TrueLeaf.sat(s),
        forall|v: Seq<u8>| #[trigger] Node::FalseLeaf.above(v),
        forall|v: Seq<u8>| #[trigger] Node::TrueLeaf.above(v),
{
    assert forall|s: Set<Seq<u8>>| !(#[trigger] Node::FalseLeaf.sat(s)) by {}
    assert forall|s: Set<Seq<u8>>| #[trigger] Node::TrueLeaf.sat(s) by {}
    assert forall|v: Seq<u8>| #[trigger] Node::FalseLeaf.above(v) by {}
    assert forall|v: Seq<u8>| #[trigger] Node::TrueLeaf.above(v) by {}
}

/// Reducing branch constructor: collapses a branch with equivalent children.
fn mk(item: &Item, low: Node, high: Node) -> (r: Node)
    requires
        low.wf(),
        high.wf(),
        low.above(item@),
        high.above(item@),
    ensures
        r.wf(),
        forall|s: Set<Seq<u8>>|
            #[trigger] r.sat(s) == if s.contains(item@) {
                high.sat(s)
            } else {
                low.sat(s)
            },
        forall|v: Seq<u8>|
            lex_lt(v, item@) && low.above(v) && high.above(v) ==> #[trigger] r.above(v),
{
    if node_eq(&low, &high) {
        proof {
            lemma_eqv_props(low, high);
        }
        low
    } else {
        Node::Branch(item.clone(), Box::new(low), Box::new(high))
    }
}

/// The binary Boolean connectives the co-factoring engine supports.
#[derive(Clone, Copy, Debug)]
pub enum BoolOp {
    Conj,
    Disj,
    Parity,
}

pub open spec fn op_eval(op: BoolOp, x: bool, y: bool) -> bool {
    match op {
        BoolOp::Conj => x && y,
        BoolOp::Disj => x || y,
        BoolOp::Parity => x != y,
    }
}

/// Shannon co-factoring on the least variable of either operand.
fn apply(op: BoolOp, f: &Node, g: &Node) -> (r: Node)
    requires
        f.wf(),
        g.wf(),
    ensures
        r.wf(),
        forall|s: Set<Seq<u8>>| #[trigger] r.sat(s) == op_eval(op, f.sat(s), g.sat(s)),
        forall|v: Seq<u8>| f.above(v) && g.above(v) ==> #[trigger] r.above(v),
    decreases f.height() + g.height(),
{
    match (f, g) {
        (Node::FalseLeaf, Node::FalseLeaf) => leaf_of(op_eval_exec(op, false, false)),
        (Node::FalseLeaf, Node::TrueLeaf) => leaf_of(op_eval_exec(op, false, true)),
        (Node::TrueLeaf, Node::FalseLeaf) => leaf_of(op_eval_exec(op, true, false)),
        (Node::TrueLeaf, Node::TrueLeaf) => leaf_of(op_eval_exec(op, true, true)),
        (Node::Branch(fi, flo, fhi), Node::Branch(gi, glo, ghi)) => {
            if crate::items::item_eq(fi, gi) {
                let lo = apply(op, flo, glo);
                let hi = apply(op, fhi, ghi);
                let r = mk(fi, lo, hi);
                proof {
                    assert forall|s: Set<Seq<u8>>| #[trigger] r.sat(s) == op_eval(
                        op,
                        f.sat(s),
                        g.sat(s),
                    ) by {}
                    assert forall|v: Seq<u8>| f.above(v) && g.above(v) implies #[trigger] r.above(
                        v,
                    ) by {}
                }
                r
            } else if crate::items::item_lt(fi, gi) {
                proof {
                    lemma_ordered_above(*g, fi@);
                }
                let lo = apply(op, flo, g);
                let hi = apply(op, fhi, g);
                let r = mk(fi, lo, hi);
                proof {
                    assert forall|s: Set<Seq<u8>>| #[trigger] r.sat(s) == op_eval(
                        op,
                        f.sat(s),
                        g.sat(s),
                    ) by {}
                    assert forall|v: Seq<u8>| f.above(v) && g.above(v) implies #[trigger] r.above(
                        v,
                    ) by {
                        lemma_above_lower(*g, v, fi@);
                    }
                }
                r
            } else {
                proof {
                    lemma_lex_connected(fi@, gi@);
                    lemma_ordered_above(*f, gi@);
                }
                let lo = apply(op, f, glo);
                let hi = apply(op, f, ghi);
                let r = mk(gi, lo, hi);
                proof {
                    assert forall|s: Set<Seq<u8>>| #[trigger] r.sat(s) == op_eval(
                        op,
                        f.sat(s),
                        g.sat(s),
                    ) by {}
                    assert forall|v: Seq<u8>| f.above(v) && g.above(v) implies #[trigger] r.above(
                        v,
                    ) by {
                        lemma_above_lower(*f, v, gi@);
                    }
                }
                r
            }
        },
        (Node::Branch(fi, flo, fhi), _) => {
            let lo = apply(op, flo, g);
            let hi = apply(op, fhi, g);
            let r = mk(fi, lo, hi);
            proof {
                assert forall|s: Set<Seq<u8>>| #[trigger] r.sat(s) == op_eval(
                    op,
                    f.sat(s),
                    g.sat(s),
                ) by {}
                assert forall|v: Seq<u8>| f.above(v) && g.above(v) implies #[trigger] r.above(
                    v,
                ) by {}
            }
            r
        },
        (_, Node::Branch(gi, glo, ghi)) => {
            let lo = apply(op, f, glo);
            let hi = apply(op, f, ghi);
            let r = mk(gi, lo, hi);
            proof {
                assert forall|s: Set<Seq<u8>>| #[trigger] r.sat(s) == op_eval(
                    op,
                    f.sat(s),
                    g.sat(s),
                ) by {}
                assert forall|v: Seq<u8>| f.above(v) && g.above(v) implies #[trigger] r.above(
                    v,
                ) by {}
            }
            r
        },
    }
}

fn leaf_of(b: bool) -> (r: Node)
    ensures
        r.wf(),
        forall|s: Set<Seq<u8>>| #[trigger] r.sat(s) == b,
        forall|v: Seq<u8>| #[trigger] r.above(v),
{
    if b {
        Node::TrueLeaf
    } else {
        Node::FalseLeaf
    }
}

fn op_eval_exec(op: BoolOp, x: bool, y: bool) -> (r: bool)
    ensures
        r == op_eval(op, x, y),
{
    match op {
        BoolOp::Conj => x && y,
        BoolOp::Disj => x || y,
        BoolOp::Parity => x != y,
    }
}

impl Node {
    /// Conjunction of the two functions.
    pub fn and(&self, other: &Node) -> (r: Node)
        requires
            self.wf(),
            other.wf(),
        ensures
            r.wf(),
            forall|s: Set<Seq<u8>>| #[trigger] r.sat(s) == (self.sat(s) && other.sat(s)),
            forall|v: Seq<u8>| self.above(v) && other.above(v) ==> #[trigger] r.above(v),
    {
        apply(BoolOp::Conj, self, other)
    }

    /// Disjunction of the two functions.
    pub fn or(&self, other: &Node) -> (r: Node)
        requires
            self.wf(),
            other.wf(),
        ensures
            r.wf(),
            forall|s: Set<Seq<u8>>| #[trigger] r.sat(s) == (self.sat(s) || other.sat(s)),
            forall|v: Seq<u8>| self.above(v) && other.above(v) ==> #[trigger] r.above(v),
    {
        apply(BoolOp::Disj, self, other)
    }

    /// Symmetric difference of the two functions.
    pub fn xor(&self, other: &Node) -> (r: Node)
        requires
            self.wf(),
            other.wf(),
        ensures
            r.wf(),
            forall|s: Set<Seq<u8>>| #[trigger] r.sat(s) == (self.sat(s) != other.sat(s)),
            forall|v: Seq<u8>| self.above(v) && other.above(v) ==> #[trigger] r.above(v),
    {
        apply(BoolOp::Parity, self, other)
    }

    /// Complement: swaps the leaves.
    pub fn not(&self) -> (r: Node)
        requires
            self.wf(),
        ensures
            r.wf(),
            forall|s: Set<Seq<u8>>| #[trigger] r.sat(s) == !self.sat(s),
            forall|v: Seq<u8>| self.above(v) ==> #[trigger] r.above(v),
        decreases *self,
    {
        match self {
            Node::FalseLeaf => Node::TrueLeaf,
            Node::TrueLeaf => Node::FalseLeaf,
            Node::Branch(it, lo, hi) => {
                let nlo = lo.not();
                let nhi = hi.not();
                mk(it, nlo, nhi)
            },
        }
    }

    /// The co-factor of the function with `item` fixed to `value`.
    pub fn restrict(&self, item: &Item, value: bool) -> (r: Node)
        requires
            self.wf(),
        ensures
            r.wf(),
            forall|s: Set<Seq<u8>>|
                #[trigger] r.sat(s) == self.sat(
                    if value {
                        s.insert(item@)
                    } else {
                        s.remove(item@)
                    },
                ),
            forall|v: Seq<u8>| self.above(v) ==> #[trigger] r.above(v),
        decreases *self,
    {
        match self {
            Node::FalseLeaf => Node::FalseLeaf,
            Node::TrueLeaf => Node::TrueLeaf,
            Node::Branch(it, lo, hi) => {
                if crate::items::item_eq(it, item) {
                    let r = if value {
                        (**hi).clone()
                    } else {
                        (**lo).clone()
                    };
                    proof {
                        if value {
                            lemma_eqv_props(r, **hi);
                        } else {
                            lemma_eqv_props(r, **lo);
                        }
                        assert forall|s: Set<Seq<u8>>|
                            #[trigger] r.sat(s) == self.sat(
                                if value {
                                    s.insert(item@)
                                } else {
                                    s.remove(item@)
                                },
                            ) by {
                            if value {
                                lemma_above_indep(**hi, item@, s);
                            } else {
                                lemma_above_indep(**lo, item@, s);
                            }
                        }
                    }
                    r
                } else {
                    let rlo = lo.restrict(item, value);
                    let rhi = hi.restrict(item, value);
                    let r = mk(it, rlo, rhi);
                    proof {
                        assert forall|s: Set<Seq<u8>>|
                            #[trigger] r.sat(s) == self.sat(
                                if value {
                                    s.insert(item@)
                                } else {
                                    s.remove(item@)
                                },
                            ) by {
                            let s2 = if value {
                                s.insert(item@)
                            } else {
                                s.remove(item@)
                            };
                            assert(s2.contains(it@) == s.contains(it@));
                        }
                    }
                    r
                }
            },
        }
    }

    /// Re-canonicalise an ordered node; a no-op on well-formed nodes.
    pub fn reduce(&self) -> (r: Node)
        requires
            self.ordered(),
        ensures
            r.wf(),
            forall|s: Set<Seq<u8>>| #[trigger] r.sat(s) == self.sat(s),
            forall|v: Seq<u8>| self.above(v) ==> #[trigger] r.above(v),
            self.wf() ==> r.eqv(*self),
        decreases *self,
    {
        let r = match self {
            Node::FalseLeaf => Node::FalseLeaf,
            Node::TrueLeaf => Node::TrueLeaf,
            Node::Branch(it, lo, hi) => {
                let rlo = lo.reduce();
                let rhi = hi.reduce();
                mk(it, rlo, rhi)
            },
        };
        proof {
            if self.wf() {
                lemma_eqv_refl(*self);
                lemma_eqv_props(*self, *self);
                lemma_canonical(r, *self);
            }
        }
        r
    }
}

/// An ordered branch is entirely above anything below its own variable.
pub proof fn lemma_ordered_above(n: Node, v: Seq<u8>)
    requires
        n.ordered(),
        match n {
            Node::Branch(it, _, _) => lex_lt(v, it@),
            _ => true,
        },
    ensures
        n.above(v),
{
    if let Node::Branch(it, lo, hi) = n {
        lemma_above_lower(*lo, v, it@);
        lemma_above_lower(*hi, v, it@);
    }
}

/// Decide whether a node is the constant-false leaf.
pub fn node_is_false(n: &Node) -> (r: bool)
    ensures
        r == (*n is FalseLeaf),
{
    match n {
        Node::FalseLeaf => true,
        _ => false,
    }
}

/// A well-formed node other than the false leaf is satisfiable: were it
/// unsatisfiable, canonicity would force it to be the false leaf.
pub proof fn lemma_nonfalse_sat(n: Node)
    requires
        n.wf(),
        !(n is FalseLeaf),
    ensures
        exists|s: Set<Seq<u8>>| #[trigger] n.sat(s),
{
    if forall|s: Set<Seq<u8>>| !(#[trigger] n.sat(s)) {
        lemma_leaf_facts();
        lemma_canonical(n, Node::FalseLeaf);
    }
}

pub open spec fn height_max(a: Node, b: Node) -> nat {
    if a.height() > b.height() {
        a.height()
    } else {
        b.height()
    }
}

/// Canonicity: two well-formed nodes denoting the same function are
/// structurally equivalent.  Structure is determined by semantics.
pub proof fn lemma_canonical(a: Node, b: Node)
    requires
        a.wf(),
        b.wf(),
        forall|s: Set<Seq<u8>>| a.sat(s) == b.sat(s),
    ensures
        a.eqv(b),
    decreases height_max(a, b), 1nat,
{
    match (a, b) {
        (Node::FalseLeaf, Node::FalseLeaf) => {},
        (Node::TrueLeaf, Node::TrueLeaf) => {},
        (Node::FalseLeaf, Node::TrueLeaf) => {
            assert(a.sat(Set::empty()) == b.sat(Set::empty()));
        },
        (Node::TrueLeaf, Node::FalseLeaf) => {
            assert(a.sat(Set::empty()) == b.sat(Set::empty()));
        },
        (Node::Branch(i1, l1, h1), Node::Branch(i2, l2, h2)) => {
            lemma_lex_connected(i1@, i2@);
            if i1@ == i2@ {
                assert forall|s: Set<Seq<u8>>| l1.sat(s) == l2.sat(s) by {
                    let s0 = s.remove(i1@);
                    assert(!s0.contains(i1@));
                    assert(a.sat(s0) == l1.sat(s0));
                    assert(b.sat(s0) == l2.sat(s0));
                    lemma_above_indep(*l1, i1@, s);
                    lemma_above_indep(*l2, i1@, s);
                }
                assert forall|s: Set<Seq<u8>>| h1.sat(s) == h2.sat(s) by {
                    let s1 = s.insert(i1@);
                    assert(s1.contains(i1@));
                    assert(a.sat(s1) == h1.sat(s1));
                    assert(b.sat(s1) == h2.sat(s1));
                    lemma_above_indep(*h1, i1@, s);
                    lemma_above_indep(*h2, i1@, s);
                }
                lemma_canonical(*l1, *l2);
                lemma_canonical(*h1, *h2);
            } else if lex_lt(i1@, i2@) {
                lemma_ordered_above(b, i1@);
                assert forall|s: Set<Seq<u8>>|
                    (if s.contains(i1@) {
                        h1.sat(s)
                    } else {
                        l1.sat(s)
                    }) == b.sat(s) by {}
                lemma_children_equiv(i1@, *l1, *h1, b);
            } else {
                lemma_ordered_above(a, i2@);
                assert forall|s: Set<Seq<u8>>|
                    (if s.contains(i2@) {
                        h2.sat(s)
                    } else {
                        l2.sat(s)
                    }) == a.sat(s) by {}
                lemma_children_equiv(i2@, *l2, *h2, a);
            }
        },
        (Node::Branch(i1, l1, h1), _) => {
            assert forall|s: Set<Seq<u8>>|
                (if s.contains(i1@) {
                    h1.sat(s)
                } else {
                    l1.sat(s)
                }) == b.sat(s) by {}
            lemma_children_equiv(i1@, *l1, *h1, b);
        },
        (_, Node::Branch(i2, l2, h2)) => {
            assert forall|s: Set<Seq<u8>>|
                (if s.contains(i2@) {
                    h2.sat(s)
                } else {
                    l2.sat(s)
                }) == a.sat(s) by {}
            lemma_children_equiv(i2@, *l2, *h2, a);
        },
    }
}

/// When a branch on `v` denotes a function that ignores `v` (because it
/// also equals `b`, which lies entirely above `v`), its two co-factors
/// denote the same function and are therefore equivalent.
proof fn lemma_children_equiv(v: Seq<u8>, l: Node, h: Node, b: Node)
    requires
        l.wf(),
        h.wf(),
        l.above(v),
        h.above(v),
        b.above(v),
        forall|s: Set<Seq<u8>>|
            (if s.contains(v) {
                h.sat(s)
            } else {
                l.sat(s)
            }) == b.sat(s),
    ensures
        l.eqv(h),
    decreases height_max(l, h), 2nat,
{
    assert forall|s: Set<Seq<u8>>| l.sat(s) == h.sat(s) by {
        let s0 = s.remove(v);
        let s1 = s.insert(v);
        assert(!s0.contains(v));
        assert(s1.contains(v));
        assert(l.sat(s0) == b.sat(s0));
        assert(h.sat(s1) == b.sat(s1));
        lemma_above_indep(l, v, s);
        lemma_above_indep(h, v, s);
        lemma_above_indep(b, v, s);
        assert(l.sat(s) == l.sat(s0));
        assert(h.sat(s) == h.sat(s1));
        assert(b.sat(s0) == b.sat(s));
        assert(b.sat(s1) == b.sat(s));
    }
    lemma_canonical(l, h);
}

} // verus!
