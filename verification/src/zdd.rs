//! A zero-suppressed decision diagram over integer priorities.
//!
//! A node denotes a finite family of finite sets (`fam`): `Never` is the
//! empty family, `Always` the family holding only the empty set, and a
//! branch on `p` splits the family into the sets without `p` (low) and the
//! sets with `p` (high, with `p` removed).  The reduction rule collapses a
//! branch whose high child is `Never`.

use vstd::prelude::*;

verus! {

/// The position of a variable in the global order.
pub type Priority = usize;

/// A zero-suppressed decision-diagram node.
#[derive(Debug)]
pub enum Node {
    /// The empty family.
    Never,
    /// The family containing only the empty set.
    Always,
    /// `Branch(p, low, high)`: sets without `p`, and sets with `p`.
    Branch(Priority, Box<Node>, Box<Node>),
}

/// Every member set of `a`, with `p` added.
pub open spec fn fam_up(a: Set<Set<int>>, p: int) -> Set<Set<int>> {
    a.map(|s: Set<int>| s.insert(p))
}

impl Node {
    /// The family of sets the node denotes.
    pub open spec fn fam(self) -> Set<Set<int>>
        decreases self,
    {
        match self {
            Node::Never => Set::empty(),
            Node::Always => Set::empty().insert(Set::empty()),
            Node::Branch(p, lo, hi) => lo.fam().union(fam_up(hi.fam(), p as int)),
        }
    }

    /// Every branch priority in `self` is strictly greater than `v`.
    pub open spec fn above(self, v: int) -> bool
        decreases self,
    {
        match self {
            Node::Branch(p, lo, hi) => v < p && lo.above(v) && hi.above(v),
            _ => true,
        }
    }

    /// Priorities strictly increase along every path.
    pub open spec fn ordered(self) -> bool
        decreases self,
    {
        match self {
            Node::Branch(p, lo, hi) => lo.above(p as int) && hi.above(p as int) && lo.ordered()
                && hi.ordered(),
            _ => true,
        }
    }

    pub open spec fn height(self) -> nat
        decreases self,
    {
        match self {
            Node::Branch(_, lo, hi) => 1 + if lo.height() > hi.height() {
                lo.height()
            } else {
                hi.height()
            },
            _ => 0,
        }
    }
}

impl Clone for Node {
    fn clone(&self) -> (r: Node)
        ensures
            r == *self,
        decreases *self,
    {
        match self {
            Node::Never => Node::Never,
            Node::Always => Node::Always,
            Node::Branch(p, lo, hi) => Node::Branch(
                *p,
                Box::new((**lo).clone()),
                Box::new((**hi).clone()),
            ),
        }
    }
}

/// Decide structural equality.
pub fn node_eq(a: &Node, b: &Node) -> (r: bool)
    ensures
        r == (*a == *b),
    decreases *a,
{
    match (a, b) {
        (Node::Never, Node::Never) => true,
        (Node::Always, Node::Always) => true,
        (Node::Branch(p1, l1, h1), Node::Branch(p2, l2, h2)) => *p1 == *p2 && node_eq(l1, l2)
            && node_eq(h1, h2),
        _ => false,
    }
}

impl PartialEq for Node {
    fn eq(&self, other: &Node) -> (r: bool) {
        node_eq(self, other)
    }
}

impl vstd::std_specs::cmp::PartialEqSpecImpl for Node {
    open spec fn obeys_eq_spec() -> bool {
        true
    }

    open spec fn eq_spec(&self, other: &Node) -> bool {
        *self == *other
    }
}

/// `fam_up` distributes over union.
pub proof fn lemma_fam_up_union(a: Set<Set<int>>, b: Set<Set<int>>, p: int)
    ensures
        fam_up(a.union(b), p) =~= fam_up(a, p).union(fam_up(b, p)),
{
    assert forall|t: Set<int>| #[trigger] fam_up(a.union(b), p).contains(t) implies fam_up(
        a,
        p,
    ).union(fam_up(b, p)).contains(t) by {
        let s = choose|s: Set<int>| a.union(b).contains(s) && t == s.insert(p);
        if a.contains(s) {
            assert(fam_up(a, p).contains(t));
        } else {
            assert(fam_up(b, p).contains(t));
        }
    }
    assert forall|t: Set<int>| fam_up(a, p).union(fam_up(b, p)).contains(t) implies #[trigger]
    fam_up(a.union(b), p).contains(t) by {
        if fam_up(a, p).contains(t) {
            let s = choose|s: Set<int>| a.contains(s) && t == s.insert(p);
            assert(a.union(b).contains(s));
        } else {
            let s = choose|s: Set<int>| b.contains(s) && t == s.insert(p);
            assert(a.union(b).contains(s));
        }
    }
}

/// The empty family stays empty under `fam_up`.
pub proof fn lemma_fam_up_empty(p: int)
    ensures
        fam_up(Set::empty(), p) =~= Set::<Set<int>>::empty(),
{
    assert forall|t: Set<int>| !(#[trigger] fam_up(Set::<Set<int>>::empty(), p).contains(
        t,
    )) by {
        if fam_up(Set::<Set<int>>::empty(), p).contains(t) {
            let s = choose|s: Set<int>| Set::<Set<int>>::empty().contains(s) && t == s.insert(p);
        }
    }
}

/// Reducing branch constructor: a branch whose high child is the empty
/// family collapses to its low child.
pub fn mk(p: Priority, lo: Node, hi: Node) -> (r: Node)
    ensures
        r.fam() == lo.fam().union(fam_up(hi.fam(), p as int)),
        forall|v: int| v < p && lo.above(v) && hi.above(v) ==> #[trigger] r.above(v),
        lo.above(p as int) && hi.above(p as int) && lo.ordered() && hi.ordered() ==> r.ordered(),
        hi is Never ==> r == lo,
{
    match hi {
        Node::Never => {
            proof {
                lemma_fam_up_empty(p as int);
                assert(lo.fam().union(fam_up(Node::Never.fam(), p as int)) =~= lo.fam());
            }
            lo
        },
        _ => {
            let r = Node::Branch(p, Box::new(lo), Box::new(hi));
            r
        },
    }
}

/// Union of the two families.
pub fn union(f: &Node, g: &Node) -> (r: Node)
    ensures
        r.fam() == f.fam().union(g.fam()),
        forall|v: int| f.above(v) && g.above(v) ==> #[trigger] r.above(v),
        f.ordered() && g.ordered() ==> r.ordered(),
    decreases f.height() + g.height(),
{
    match (f, g) {
        (Node::Never, _) => {
            let r = g.clone();
            proof {
                assert(r.fam() =~= f.fam().union(g.fam()));
            }
            r
        },
        (_, Node::Never) => {
            let r = f.clone();
            proof {
                assert(r.fam() =~= f.fam().union(g.fam()));
            }
            r
        },
        (Node::Always, Node::Always) => {
            let r = Node::Always;
            proof {
                assert(r.fam() =~= f.fam().union(g.fam()));
            }
            r
        },
        (Node::Always, Node::Branch(p, lo, hi)) => {
            let u = union(f, lo);
            let r = mk(*p, u, (**hi).clone());
            proof {
                assert(r.fam() =~= f.fam().union(g.fam()));
            }
            r
        },
        (Node::Branch(p, lo, hi), Node::Always) => {
            let u = union(lo, g);
            let r = mk(*p, u, (**hi).clone());
            proof {
                assert(r.fam() =~= f.fam().union(g.fam()));
            }
            r
        },
        (Node::Branch(p1, l1, h1), Node::Branch(p2, l2, h2)) => {
            if *p1 == *p2 {
                let ul = union(l1, l2);
                let uh = union(h1, h2);
                let r = mk(*p1, ul, uh);
                proof {
                    lemma_fam_up_union(h1.fam(), h2.fam(), *p1 as int);
                    assert(r.fam() =~= f.fam().union(g.fam()));
                    if f.ordered() && g.ordered() {
                        assert(r.ordered());
                    }
                }
                r
            } else if *p1 < *p2 {
                let u = union(l1, g);
                let r = mk(*p1, u, (**h1).clone());
                proof {
                    assert(r.fam() =~= f.fam().union(g.fam()));
                    if f.ordered() && g.ordered() {
                        lemma_above_weaken(**l2, *p1 as int, *p2 as int);
                        lemma_above_weaken(**h2, *p1 as int, *p2 as int);
                        assert(g.above(*p1 as int));
                        assert(r.ordered());
                    }
                    assert forall|v: int| f.above(v) && g.above(v) implies #[trigger] r.above(
                        v,
                    ) by {}
                }
                r
            } else {
                let u = union(f, l2);
                let r = mk(*p2, u, (**h2).clone());
                proof {
                    assert(r.fam() =~= f.fam().union(g.fam()));
                    if f.ordered() && g.ordered() {
                        lemma_above_weaken(**l1, *p2 as int, *p1 as int);
                        lemma_above_weaken(**h1, *p2 as int, *p1 as int);
                        assert(f.above(*p2 as int));
                        assert(r.ordered());
                    }
                    assert forall|v: int| f.above(v) && g.above(v) implies #[trigger] r.above(
                        v,
                    ) by {}
                }
                r
            }
        },
    }
}

/// Sets denoted by a node above `v` contain only elements greater than `v`.
pub proof fn lemma_fam_bound(n: Node, v: int, t: Set<int>, e: int)
    requires
        n.above(v),
        n.fam().contains(t),
        t.contains(e),
    ensures
        e > v,
    decreases n,
{
    if let Node::Branch(p, lo, hi) = n {
        if lo.fam().contains(t) {
            lemma_fam_bound(*lo, v, t, e);
        } else {
            let s = choose|s: Set<int>| hi.fam().contains(s) && t == s.insert(p as int);
            if e != p as int {
                assert(s.contains(e));
                lemma_fam_bound(*hi, v, s, e);
            }
        }
    }
}

/// Intersection of the two families.
pub fn intersect(f: &Node, g: &Node) -> (r: Node)
    requires
        f.ordered(),
        g.ordered(),
    ensures
        r.fam() == f.fam().intersect(g.fam()),
        forall|v: int| f.above(v) && g.above(v) ==> #[trigger] r.above(v),
        r.ordered(),
    decreases f.height() + g.height(),
{
    match (f, g) {
        (Node::Never, _) => {
            proof {
                assert(Node::Never.fam() =~= f.fam().intersect(g.fam()));
            }
            Node::Never
        },
        (_, Node::Never) => {
            proof {
                assert(Node::Never.fam() =~= f.fam().intersect(g.fam()));
            }
            Node::Never
        },
        (Node::Always, Node::Always) => {
            proof {
                assert(Node::Always.fam() =~= f.fam().intersect(g.fam()));
            }
            Node::Always
        },
        (Node::Always, Node::Branch(p, lo, hi)) => {
            let r = intersect(f, lo);
            proof {
                assert(r.fam() =~= f.fam().intersect(g.fam())) by {
                    assert forall|t: Set<int>| #[trigger] g.fam().contains(t) && f.fam().contains(
                        t,
                    ) implies lo.fam().contains(t) by {
                        if !lo.fam().contains(t) {
                            let s = choose|s: Set<int>|
                                hi.fam().contains(s) && t == s.insert(*p as int);
                            assert(t.contains(*p as int));
                            assert(t =~= Set::<int>::empty());
                        }
                    }
                }
            }
            r
        },
        (Node::Branch(p, lo, hi), Node::Always) => {
            let r = intersect(lo, g);
            proof {
                assert(r.fam() =~= f.fam().intersect(g.fam())) by {
                    assert forall|t: Set<int>| #[trigger] f.fam().contains(t) && g.fam().contains(
                        t,
                    ) implies lo.fam().contains(t) by {
                        if !lo.fam().contains(t) {
                            let s = choose|s: Set<int>|
                                hi.fam().contains(s) && t == s.insert(*p as int);
                            assert(t.contains(*p as int));
                            assert(t =~= Set::<int>::empty());
                        }
                    }
                }
            }
            r
        },
        (Node::Branch(p1, l1, h1), Node::Branch(p2, l2, h2)) => {
            if *p1 == *p2 {
                let il = intersect(l1, l2);
                let ih = intersect(h1, h2);
                let r = mk(*p1, il, ih);
                proof {
                    let pp = *p1 as int;
                    assert(r.fam() =~= f.fam().intersect(g.fam())) by {
                        assert forall|t: Set<int>| #[trigger] r.fam().contains(t) implies
                        f.fam().contains(t) && g.fam().contains(t) by {
                            if il.fam().contains(t) {
                            } else {
                                let s = choose|s: Set<int>|
                                    ih.fam().contains(s) && t == s.insert(pp);
                                assert(h1.fam().contains(s) && h2.fam().contains(s));
                                assert(fam_up(h1.fam(), pp).contains(t));
                                assert(fam_up(h2.fam(), pp).contains(t));
                            }
                        }
                        assert forall|t: Set<int>|
                            f.fam().contains(t) && g.fam().contains(t) implies #[trigger]
                        r.fam().contains(t) by {
                            if l1.fam().contains(t) {
                                assert(l2.fam().contains(t)) by {
                                    if fam_up(h2.fam(), pp).contains(t) {
                                        let s = choose|s: Set<int>|
                                            h2.fam().contains(s) && t == s.insert(pp);
                                        assert(t.contains(pp));
                                        lemma_fam_bound(**l1, pp, t, pp);
                                    }
                                }
                            } else {
                                let s1 = choose|s1: Set<int>|
                                    h1.fam().contains(s1) && t == s1.insert(pp);
                                assert(t.contains(pp));
                                assert(!l2.fam().contains(t)) by {
                                    if l2.fam().contains(t) {
                                        lemma_fam_bound(**l2, pp, t, pp);
                                    }
                                }
                                let s2 = choose|s2: Set<int>|
                                    h2.fam().contains(s2) && t == s2.insert(pp);
                                assert(s1 =~= s2) by {
                                    assert forall|e: int| #[trigger] s1.contains(e) implies
                                    s2.contains(e) by {
                                        lemma_fam_bound(**h1, pp, s1, e);
                                        assert(t.contains(e));
                                    }
                                    assert forall|e: int| #[trigger] s2.contains(e) implies
                                    s1.contains(e) by {
                                        lemma_fam_bound(**h2, pp, s2, e);
                                        assert(t.contains(e));
                                    }
                                }
                                assert(ih.fam().contains(s1));
                                assert(fam_up(ih.fam(), pp).contains(t));
                            }
                        }
                    }
                }
                r
            } else if *p1 < *p2 {
                let r = intersect(l1, g);
                proof {
                    let pp = *p1 as int;
                    assert(r.fam() =~= f.fam().intersect(g.fam())) by {
                        assert forall|t: Set<int>|
                            f.fam().contains(t) && g.fam().contains(t) implies l1.fam().contains(
                            t,
                        ) by {
                            if !l1.fam().contains(t) {
                                let s = choose|s: Set<int>|
                                    h1.fam().contains(s) && t == s.insert(pp);
                                assert(t.contains(pp));
                                lemma_above_weaken(**l2, pp, *p2 as int);
                                lemma_above_weaken(**h2, pp, *p2 as int);
                                assert(g.above(pp));
                                lemma_fam_bound(*g, pp, t, pp);
                            }
                        }
                    }
                    assert forall|v: int| f.above(v) && g.above(v) implies #[trigger] r.above(
                        v,
                    ) by {}
                }
                r
            } else {
                let r = intersect(f, l2);
                proof {
                    let pp = *p2 as int;
                    assert(r.fam() =~= f.fam().intersect(g.fam())) by {
                        assert forall|t: Set<int>|
                            f.fam().contains(t) && g.fam().contains(t) implies l2.fam().contains(
                            t,
                        ) by {
                            if !l2.fam().contains(t) {
                                let s = choose|s: Set<int>|
                                    h2.fam().contains(s) && t == s.insert(pp);
                                assert(t.contains(pp));
                                lemma_above_weaken(**l1, pp, *p1 as int);
                                lemma_above_weaken(**h1, pp, *p1 as int);
                                assert(f.above(pp));
                                lemma_fam_bound(*f, pp, t, pp);
                            }
                        }
                    }
                    assert forall|v: int| f.above(v) && g.above(v) implies #[trigger] r.above(
                        v,
                    ) by {}
                }
                r
            }
        },
    }
}

/// The family with `e` added to every member set.
/// The member sets of `a` that contain `e`.
pub open spec fn fam_with(a: Set<Set<int>>, e: int) -> Set<Set<int>> {
    a.filter(|s: Set<int>| s.contains(e))
}

/// Filtering commutes with adding a different element everywhere.
proof fn lemma_fam_with_up(a: Set<Set<int>>, q: int, e: int)
    requires
        e != q,
    ensures
        fam_with(fam_up(a, q), e) =~= fam_up(fam_with(a, e), q),
{
    assert forall|t: Set<int>| #[trigger] fam_with(fam_up(a, q), e).contains(t) implies fam_up(
        fam_with(a, e),
        q,
    ).contains(t) by {
        let s = choose|s: Set<int>| a.contains(s) && t == s.insert(q);
        assert(s.contains(e));
        assert(fam_with(a, e).contains(s));
    }
    assert forall|t: Set<int>| #[trigger] fam_up(fam_with(a, e), q).contains(t) implies fam_with(
        fam_up(a, q),
        e,
    ).contains(t) by {
        let s = choose|s: Set<int>| fam_with(a, e).contains(s) && t == s.insert(q);
        assert(fam_up(a, q).contains(t));
        assert(t.contains(e));
    }
}

/// `e` occurs as a branch priority somewhere in the node.
pub open spec fn occurs(n: Node, e: int) -> bool
    decreases n,
{
    match n {
        Node::Branch(p, lo, hi) => p as int == e || occurs(*lo, e) || occurs(*hi, e),
        _ => false,
    }
}

/// Replace a subtree that never matched by the empty family.
pub fn reduce_branch(m: (Node, bool)) -> (r: (Node, bool))
    ensures
        r.1 == m.1,
        m.1 ==> r.0 == m.0,
        !m.1 ==> r.0 == Node::Never,
{
    match m {
        (_, false) => (Node::Never, false),
        x => x,
    }
}

/// Keep the sets containing `element`; the flag reports whether any path
/// through `element` was found at all.
#[verifier::spinoff_prover]
pub fn subset_inner(root: &Node, element: Priority) -> (r: (Node, bool))
    requires
        root.ordered(),
    ensures
        r.1 == occurs(*root, element as int),
        r.1 ==> {
            &&& r.0.fam() == fam_with(root.fam(), element as int)
            &&& r.0.ordered()
            &&& forall|v: int| root.above(v) ==> #[trigger] r.0.above(v)
        },
        !r.1 ==> fam_with(root.fam(), element as int) == Set::<Set<int>>::empty(),
        !r.1 && (*root is Branch) ==> r.0 == Node::Never,
        !(*root is Branch) ==> r.0 == *root && !r.1,
    decreases *root,
{
    match root {
        Node::Branch(q, lo, hi) => {
            if element == *q {
                let r0 = mk(*q, Node::Never, (**hi).clone());
                proof {
                    let qq = *q as int;
                    assert(Node::Never.fam() =~= Set::<Set<int>>::empty());
                    assert(Node::Never.ordered());
                    assert forall|v: int| #[trigger] Node::Never.above(v) by {}
                    assert(r0.fam() =~= fam_with(root.fam(), qq)) by {
                        assert forall|t: Set<int>| #[trigger] fam_with(root.fam(), qq).contains(
                            t,
                        ) implies r0.fam().contains(t) by {
                            if lo.fam().contains(t) {
                                lemma_fam_bound(**lo, qq, t, qq);
                            }
                        }
                        assert forall|t: Set<int>| #[trigger] r0.fam().contains(t) implies
                        fam_with(root.fam(), qq).contains(t) by {
                            let s = choose|s: Set<int>| hi.fam().contains(s) && t == s.insert(qq);
                            assert(root.fam().contains(t));
                            assert(t.contains(qq));
                        }
                    }
                }
                (r0, true)
            } else {
                let rl = reduce_branch(subset_inner(lo, element));
                let rh = reduce_branch(subset_inner(hi, element));
                let keep = rl.1 || rh.1;
                let r0 = mk(*q, rl.0, rh.0);
                proof {
                    let qq = *q as int;
                    let ee = element as int;
                    assert(Node::Never.fam() =~= Set::<Set<int>>::empty());
                    assert(Node::Never.ordered());
                    assert forall|v: int| #[trigger] Node::Never.above(v) by {}
                    lemma_fam_with_up(hi.fam(), qq, ee);
                    lemma_fam_up_empty(qq);
                    assert(fam_with(root.fam(), ee) =~= fam_with(lo.fam(), ee).union(
                        fam_up(fam_with(hi.fam(), ee), qq),
                    ));
                    if keep {
                        assert(r0.fam() =~= fam_with(root.fam(), ee));
                    } else {
                        assert(fam_with(root.fam(), ee) =~= Set::<Set<int>>::empty());
                        assert(rl.0 == Node::Never && rh.0 == Node::Never);
                        assert(r0 == Node::Never);
                    }
                }
                (r0, keep)
            }
        },
        _ => {
            let r0 = root.clone();
            proof {
                assert(fam_with(root.fam(), element as int) =~= Set::<Set<int>>::empty()) by {
                    assert forall|t: Set<int>|
                        !(#[trigger] fam_with(root.fam(), element as int).contains(t)) by {
                        if root.fam().contains(t) {
                            assert(t =~= Set::<int>::empty());
                        }
                    }
                }
            }
            (r0, false)
        },
    }
}

/// The sets of the family that contain `element`.
pub fn subset(root: Node, element: Priority) -> (r: Node)
    requires
        root.ordered(),
    ensures
        r.fam() == fam_with(root.fam(), element as int),
        r.ordered(),
        forall|v: int| root.above(v) ==> #[trigger] r.above(v),
{
    let (n, _keep) = reduce_branch(subset_inner(&root, element));
    proof {
        if !_keep {
            assert(Node::Never.fam() =~= Set::<Set<int>>::empty());
            assert(Node::Never.ordered());
            assert forall|v: int| #[trigger] Node::Never.above(v) by {}
        }
    }
    n
}

/// The sets of `a` that contain every element of `es`.
pub open spec fn fam_with_all(a: Set<Set<int>>, es: Seq<int>) -> Set<Set<int>> {
    a.filter(|s: Set<int>| forall|j: int| 0 <= j < es.len() ==> s.contains(#[trigger] es[j]))
}

/// The sets containing every listed element.
pub fn subset_all(root: Node, elements: &[Priority]) -> (r: Node)
    requires
        root.ordered(),
    ensures
        r.fam() == fam_with_all(
            root.fam(),
            elements@.map_values(|p: Priority| p as int),
        ),
        r.ordered(),
{
    let ghost es = elements@.map_values(|p: Priority| p as int);
    let mut acc = root;
    let mut i: usize = 0;
    proof {
        assert(acc.fam() =~= fam_with_all(acc.fam(), es.take(0))) by {
            assert forall|t: Set<int>| #[trigger] acc.fam().contains(t) implies fam_with_all(
                acc.fam(),
                es.take(0),
            ).contains(t) by {}
        }
    }
    let ghost whole = acc.fam();
    while i < elements.len()
        invariant
            es == elements@.map_values(|p: Priority| p as int),
            0 <= i <= elements@.len(),
            acc.ordered(),
            acc.fam() == fam_with_all(whole, es.take(i as int)),
        decreases elements@.len() - i,
    {
        let ghost prev = acc.fam();
        acc = subset(acc, elements[i]);
        proof {
            let ee = es[i as int];
            assert(elements@[i as int] as int == ee);
            assert(acc.fam() == fam_with(prev, ee));
            assert(acc.fam() =~= fam_with_all(whole, es.take(i + 1))) by {
                assert forall|t: Set<int>| #[trigger] fam_with(prev, ee).contains(t) implies
                fam_with_all(whole, es.take(i + 1)).contains(t) by {
                    assert(fam_with_all(whole, es.take(i as int)).contains(t));
                    assert forall|j: int| 0 <= j < i + 1 implies t.contains(
                        #[trigger] es.take(i + 1)[j],
                    ) by {
                        if j < i {
                            assert(t.contains(es.take(i as int)[j]));
                        }
                    }
                }
                assert forall|t: Set<int>| #[trigger] fam_with_all(whole, es.take(
                    i + 1,
                )).contains(t) implies fam_with(prev, ee).contains(t) by {
                    assert forall|j: int| 0 <= j < i implies t.contains(
                        #[trigger] es.take(i as int)[j],
                    ) by {
                        assert(t.contains(es.take(i + 1)[j]));
                    }
                    assert(fam_with_all(whole, es.take(i as int)).contains(t));
                    assert(t.contains(es.take(i + 1)[i as int]));
                }
            }
        }
        i = i + 1;
    }
    proof {
        assert(es.take(es.len() as int) =~= es);
    }
    acc
}

/// The enumerated member sets, low side first, each prefixed by `pre`.
pub open spec fn combos(n: Node, pre: Seq<int>) -> Seq<Seq<int>>
    decreases n,
{
    match n {
        Node::Never => Seq::empty(),
        Node::Always => seq![pre],
        Node::Branch(p, lo, hi) => combos(*lo, pre) + combos(*hi, pre.push(p as int)),
    }
}

/// The view of an enumeration result.
pub open spec fn combos_view(v: Seq<Vec<Priority>>) -> Seq<Seq<int>> {
    v.map_values(|x: Vec<Priority>| x@.map_values(|p: Priority| p as int))
}

/// Depth-first enumeration of the member sets under a path prefix; `None`
/// marks the empty family.
pub fn combinations_inner(root: &Node, path: &Vec<Priority>) -> (r: Option<Vec<Vec<Priority>>>)
    ensures
        (r is None) == (*root is Never),
        match r {
            Option::Some(v) => combos_view(v@) == combos(
                *root,
                path@.map_values(|p: Priority| p as int),
            ),
            Option::None => combos(*root, path@.map_values(|p: Priority| p as int)) == Seq::<
                Seq<int>,
            >::empty(),
        },
    decreases *root,
{
    let ghost pre = path@.map_values(|p: Priority| p as int);
    match root {
        Node::Never => None,
        Node::Always => {
            let mut v: Vec<Vec<Priority>> = Vec::new();
            v.push(vstd::slice::slice_to_vec(path.as_slice()));
            proof {
                assert(combos_view(v@) =~= seq![pre]) by {
                    assert(combos_view(v@).len() == 1);
                    assert(combos_view(v@)[0] =~= pre);
                }
            }
            Some(v)
        },
        Node::Branch(p, lo, hi) => {
            let low = combinations_inner(lo, path);
            let mut path2 = vstd::slice::slice_to_vec(path.as_slice());
            path2.push(*p);
            proof {
                assert(path2@.map_values(|q: Priority| q as int) =~= pre.push(*p as int));
            }
            let high = combinations_inner(hi, &path2);
            let mut out: Vec<Vec<Priority>> = match low {
                Some(v) => v,
                None => Vec::new(),
            };
            let ghost lowv = out@;
            proof {
                assert(combos_view(lowv) =~= combos(**lo, pre));
            }
            match high {
                Some(mut v2) => {
                    out.append(&mut v2);
                },
                None => {},
            }
            proof {
                assert(combos_view(out@) =~= combos(*root, pre)) by {
                    assert(combos(*root, pre) == combos(**lo, pre) + combos(
                        **hi,
                        pre.push(*p as int),
                    ));
                    assert forall|k: int|
                        0 <= k < out@.len() implies combos_view(out@)[k] == combos(
                        *root,
                        pre,
                    )[k] by {
                        if k < lowv.len() {
                            assert(out@[k] == lowv[k]);
                            assert(combos_view(lowv)[k] == combos(**lo, pre)[k]);
                        }
                    }
                }
            }
            Some(out)
        },
    }
}

/// Enumerate the family's member sets, low side first.
pub fn combinations(root: &Node) -> (r: Vec<Vec<Priority>>)
    ensures
        combos_view(r@) == combos(*root, Seq::empty()),
{
    let path: Vec<Priority> = Vec::new();
    proof {
        assert(path@.map_values(|p: Priority| p as int) =~= Seq::<int>::empty());
    }
    match combinations_inner(root, &path) {
        Some(v) => v,
        None => {
            let v: Vec<Vec<Priority>> = Vec::new();
            proof {
                assert(combos_view(v@) =~= Seq::<Seq<int>>::empty());
            }
            v
        },
    }
}

/// Node count, the measure of the iterative enumeration's work list.
pub open spec fn node_size(n: Node) -> nat
    decreases n,
{
    match n {
        Node::Branch(_, lo, hi) => 1 + node_size(*lo) + node_size(*hi),
        _ => 1,
    }
}

/// The enumeration still owed by a work list, top entry first.
pub open spec fn stack_combos(st: Seq<(Node, Vec<Priority>)>) -> Seq<Seq<int>>
    decreases st.len(),
{
    if st.len() == 0 {
        Seq::empty()
    } else {
        combos(st.last().0, st.last().1@.map_values(|p: Priority| p as int)) + stack_combos(
            st.drop_last(),
        )
    }
}

pub open spec fn stack_size(st: Seq<(Node, Vec<Priority>)>) -> nat
    decreases st.len(),
{
    if st.len() == 0 {
        0
    } else {
        node_size(st.last().0) + stack_size(st.drop_last())
    }
}

/// The iterative form of `combinations`: an explicit work list instead of
/// recursion, producing the same enumeration in the same order.
pub fn combinations_iter(root: &Node) -> (r: Vec<Vec<Priority>>)
    ensures
        combos_view(r@) == combos(*root, Seq::empty()),
{
    let mut out: Vec<Vec<Priority>> = Vec::new();
    let mut stack: Vec<(Node, Vec<Priority>)> = Vec::new();
    stack.push((root.clone(), Vec::new()));
    proof {
        assert(stack@.drop_last() =~= Seq::<(Node, Vec<Priority>)>::empty());
        assert(stack@.last().0 == *root);
        assert(stack@.last().1@.map_values(|p: Priority| p as int) =~= Seq::<int>::empty());
        assert(stack_combos(stack@) == combos(*root, Seq::empty()) + stack_combos(
            stack@.drop_last(),
        ));
        assert(stack_combos(stack@) =~= combos(*root, Seq::empty()));
        assert(combos_view(out@) =~= Seq::<Seq<int>>::empty());
        assert(combos_view(out@) + stack_combos(stack@) =~= combos(*root, Seq::empty()));
    }
    while stack.len() > 0
        invariant
            combos_view(out@) + stack_combos(stack@) == combos(*root, Seq::empty()),
        decreases stack_size(stack@),
    {
        let ghost st0 = stack@;
        let (node, path) = match stack.pop() {
            Some(top) => top,
            None => {
                proof {
                    assert(false);
                }
                vstd::pervasive::unreached()
            },
        };
        let ghost pre = path@.map_values(|p: Priority| p as int);
        proof {
            assert(st0.last() == (node, path));
            assert(stack@ == st0.drop_last());
            assert(stack_combos(st0) == combos(node, pre) + stack_combos(stack@));
            assert(stack_size(st0) == node_size(node) + stack_size(stack@));
        }
        match node {
            Node::Never => {
                proof {
                    assert(node_size(node) == 1);
                    assert(combos(Node::Never, pre) + stack_combos(stack@) =~= stack_combos(
                        stack@,
                    ));
                    assert(combos_view(out@) + stack_combos(stack@) =~= combos(
                        *root,
                        Seq::empty(),
                    ));
                }
            },
            Node::Always => {
                let ghost out0 = out@;
                out.push(path);
                proof {
                    assert(node_size(node) == 1);
                    assert(combos_view(out@) =~= combos_view(out0).push(pre)) by {
                        assert(combos_view(out@).len() == out0.len() + 1);
                        assert forall|k: int|
                            0 <= k < out@.len() implies combos_view(out@)[k] == combos_view(
                            out0,
                        ).push(pre)[k] by {
                            if k < out0.len() {
                                assert(out@[k] == out0[k]);
                            } else {
                                assert(combos_view(out@)[k] =~= pre);
                            }
                        }
                    }
                    assert(combos(Node::Always, pre) == seq![pre]);
                    assert(combos_view(out0).push(pre) + stack_combos(stack@) =~= combos_view(
                        out0,
                    ) + (seq![pre] + stack_combos(stack@)));
                    assert(combos_view(out@) + stack_combos(stack@) =~= combos(
                        *root,
                        Seq::empty(),
                    ));
                }
            },
            Node::Branch(p, lo, hi) => {
                let mut path2 = vstd::slice::slice_to_vec(path.as_slice());
                path2.push(p);
                proof {
                    assert(path2@.map_values(|q: Priority| q as int) =~= pre.push(p as int));
                }
                let ghost st1 = stack@;
                let ghost hiv = *hi;
                let ghost lov = *lo;
                stack.push((*hi, path2));
                let ghost st2 = stack@;
                stack.push((*lo, path));
                proof {
                    assert(st2.drop_last() =~= st1);
                    assert(stack@.drop_last() =~= st2);
                    assert(st2.last() == (hiv, path2));
                    assert(stack@.last() == (lov, path));
                    assert(stack_combos(st2) == combos(hiv, pre.push(p as int)) + stack_combos(
                        st1,
                    ));
                    assert(stack_combos(stack@) == combos(lov, pre) + stack_combos(st2));
                    assert(stack_size(st2) == node_size(hiv) + stack_size(st1));
                    assert(stack_size(stack@) == node_size(lov) + stack_size(st2));
                    assert(node_size(node) == 1 + node_size(lov) + node_size(hiv));
                    assert(stack_combos(stack@) == combos(*lo, pre) + (combos(
                        *hi,
                        pre.push(p as int),
                    ) + stack_combos(st1)));
                    assert(combos(Node::Branch(p, lo, hi), pre) == combos(*lo, pre) + combos(
                        *hi,
                        pre.push(p as int),
                    ));
                    assert(combos_view(out@) + stack_combos(stack@) =~= combos(
                        *root,
                        Seq::empty(),
                    ));
                    assert(stack_size(stack@) < stack_size(st0));
                }
            },
        }
    }
    proof {
        assert(stack_combos(stack@) =~= Seq::<Seq<int>>::empty());
        assert(combos_view(out@) =~= combos(*root, Seq::empty()));
    }
    out
}

/// A node above `q` is above any smaller `v`.
pub proof fn lemma_above_weaken(n: Node, v: int, q: int)
    requires
        n.above(q),
        v <= q,
    ensures
        n.above(v),
    decreases n,
{
    if let Node::Branch(p, lo, hi) = n {
        lemma_above_weaken(*lo, v, q);
        lemma_above_weaken(*hi, v, q);
    }
}

/// The enumerated sequences, each taken as a set.
pub open spec fn sets_of(cs: Seq<Seq<int>>) -> Set<Set<int>> {
    cs.map_values(|q: Seq<int>| q.to_set()).to_set()
}

/// Every member of `a` extended by `base`.
pub open spec fn fam_ext(a: Set<Set<int>>, base: Set<int>) -> Set<Set<int>> {
    a.map(|s: Set<int>| s.union(base))
}

proof fn lemma_sets_of_add(a: Seq<Seq<int>>, b: Seq<Seq<int>>)
    ensures
        sets_of(a + b) =~= sets_of(a).union(sets_of(b)),
{
    assert forall|t: Set<int>| #[trigger] sets_of(a + b).contains(t) implies sets_of(a).union(
        sets_of(b),
    ).contains(t) by {
        let m = (a + b).map_values(|q: Seq<int>| q.to_set());
        let k = choose|k: int| 0 <= k < m.len() && m[k] == t;
        if k < a.len() {
            assert(a.map_values(|q: Seq<int>| q.to_set())[k] == t);
            assert(sets_of(a).contains(t));
        } else {
            assert((a + b)[k] == b[k - a.len()]);
            assert(b.map_values(|q: Seq<int>| q.to_set())[k - a.len()] == t);
            assert(sets_of(b).contains(t));
        }
    }
    assert forall|t: Set<int>| sets_of(a).union(sets_of(b)).contains(t) implies #[trigger]
    sets_of(a + b).contains(t) by {
        if sets_of(a).contains(t) {
            let m = a.map_values(|q: Seq<int>| q.to_set());
            let k = choose|k: int| 0 <= k < m.len() && m[k] == t;
            assert((a + b)[k] == a[k]);
            assert((a + b).map_values(|q: Seq<int>| q.to_set())[k] == t);
        } else {
            let m = b.map_values(|q: Seq<int>| q.to_set());
            let k = choose|k: int| 0 <= k < m.len() && m[k] == t;
            assert((a + b)[k + a.len()] == b[k]);
            assert((a + b).map_values(|q: Seq<int>| q.to_set())[k + a.len()] == t);
        }
    }
}

proof fn lemma_fam_ext_union(a: Set<Set<int>>, b: Set<Set<int>>, base: Set<int>)
    ensures
        fam_ext(a.union(b), base) =~= fam_ext(a, base).union(fam_ext(b, base)),
{
    assert forall|t: Set<int>| #[trigger] fam_ext(a.union(b), base).contains(t) implies fam_ext(
        a,
        base,
    ).union(fam_ext(b, base)).contains(t) by {
        let w = choose|w: Set<int>| a.union(b).contains(w) && t == w.union(base);
        if a.contains(w) {
            assert(fam_ext(a, base).contains(t));
        } else {
            assert(fam_ext(b, base).contains(t));
        }
    }
    assert forall|t: Set<int>| fam_ext(a, base).union(fam_ext(b, base)).contains(t) implies
    #[trigger] fam_ext(a.union(b), base).contains(t) by {
        if fam_ext(a, base).contains(t) {
            let w = choose|w: Set<int>| a.contains(w) && t == w.union(base);
            assert(a.union(b).contains(w));
        } else {
            let w = choose|w: Set<int>| b.contains(w) && t == w.union(base);
            assert(a.union(b).contains(w));
        }
    }
}

/// Extending an element-enriched family equals extending by the enriched base.
proof fn lemma_fam_ext_up(a: Set<Set<int>>, p: int, base: Set<int>)
    ensures
        fam_ext(fam_up(a, p), base) =~= fam_ext(a, base.insert(p)),
{
    assert forall|t: Set<int>| #[trigger] fam_ext(fam_up(a, p), base).contains(t) implies
    fam_ext(a, base.insert(p)).contains(t) by {
        let w = choose|w: Set<int>| fam_up(a, p).contains(w) && t == w.union(base);
        let s0 = choose|s0: Set<int>| a.contains(s0) && w == s0.insert(p);
        assert(t =~= s0.union(base.insert(p)));
    }
    assert forall|t: Set<int>| #[trigger] fam_ext(a, base.insert(p)).contains(t) implies
    fam_ext(fam_up(a, p), base).contains(t) by {
        let s0 = choose|s0: Set<int>| a.contains(s0) && t == s0.union(base.insert(p));
        assert(fam_up(a, p).contains(s0.insert(p)));
        assert(t =~= s0.insert(p).union(base));
    }
}

/// The enumeration lists exactly the denoted family, each set extended by
/// the path prefix.
pub proof fn lemma_combos_fam(n: Node, pre: Seq<int>)
    ensures
        sets_of(combos(n, pre)) =~= fam_ext(n.fam(), pre.to_set()),
    decreases n,
{
    match n {
        Node::Never => {
            assert forall|t: Set<int>| !(#[trigger] fam_ext(n.fam(), pre.to_set()).contains(
                t,
            )) by {
                if fam_ext(n.fam(), pre.to_set()).contains(t) {
                    let w = choose|w: Set<int>|
                        n.fam().contains(w) && t == w.union(pre.to_set());
                }
            }
            assert(sets_of(combos(n, pre)) =~= fam_ext(n.fam(), pre.to_set()));
        },
        Node::Always => {
            assert(combos(n, pre) == seq![pre]);
            assert forall|t: Set<int>| #[trigger] sets_of(combos(n, pre)).contains(t) implies
            fam_ext(n.fam(), pre.to_set()).contains(t) by {
                let m = combos(n, pre).map_values(|q: Seq<int>| q.to_set());
                let k = choose|k: int| 0 <= k < m.len() && m[k] == t;
                assert(t == pre.to_set());
                assert(n.fam().contains(Set::<int>::empty()));
                assert(t =~= Set::<int>::empty().union(pre.to_set()));
            }
            assert forall|t: Set<int>| #[trigger] fam_ext(n.fam(), pre.to_set()).contains(
                t,
            ) implies sets_of(combos(n, pre)).contains(t) by {
                let w = choose|w: Set<int>| n.fam().contains(w) && t == w.union(pre.to_set());
                assert(w =~= Set::<int>::empty());
                assert(t =~= pre.to_set());
                assert(combos(n, pre).map_values(|q: Seq<int>| q.to_set())[0] == t);
            }
        },
        Node::Branch(p, lo, hi) => {
            lemma_combos_fam(*lo, pre);
            lemma_combos_fam(*hi, pre.push(p as int));
            lemma_sets_of_add(combos(*lo, pre), combos(*hi, pre.push(p as int)));
            lemma_fam_ext_union(lo.fam(), fam_up(hi.fam(), p as int), pre.to_set());
            lemma_fam_ext_up(hi.fam(), p as int, pre.to_set());
            assert(pre.push(p as int).to_set() =~= pre.to_set().insert(p as int)) by {
                assert forall|e: int| #[trigger] pre.push(p as int).to_set().contains(e) implies
                pre.to_set().insert(p as int).contains(e) by {
                    let k = choose|k: int|
                        0 <= k < pre.push(p as int).len() && pre.push(p as int)[k] == e;
                    if k < pre.len() {
                        assert(pre[k] == e);
                    }
                }
                assert forall|e: int| pre.to_set().insert(p as int).contains(e) implies #[trigger]
                pre.push(p as int).to_set().contains(e) by {
                    if e == p as int {
                        assert(pre.push(p as int)[pre.len() as int] == e);
                    } else {
                        let k = choose|k: int| 0 <= k < pre.len() && pre[k] == e;
                        assert(pre.push(p as int)[k] == e);
                    }
                }
            }
            assert(sets_of(combos(n, pre)) =~= fam_ext(n.fam(), pre.to_set()));
        },
    }
}

/// The member sets of the enumeration are exactly the denoted family.
pub proof fn lemma_combinations_denote(n: Node)
    ensures
        sets_of(combos(n, Seq::empty())) =~= n.fam(),
{
    lemma_combos_fam(n, Seq::empty());
    assert(Seq::<int>::empty().to_set() =~= Set::<int>::empty()) by {
        assert forall|e: int| !(#[trigger] Seq::<int>::empty().to_set().contains(e)) by {
            if Seq::<int>::empty().to_set().contains(e) {
                let k = choose|k: int|
                    0 <= k < Seq::<int>::empty().len() && Seq::<int>::empty()[k] == e;
            }
        }
    }
    assert forall|t: Set<int>| #[trigger] fam_ext(n.fam(), Seq::<int>::empty().to_set()).contains(
        t,
    ) implies n.fam().contains(t) by {
        let w = choose|w: Set<int>|
            n.fam().contains(w) && t == w.union(Seq::<int>::empty().to_set());
        assert(t =~= w);
    }
    assert forall|t: Set<int>| #[trigger] n.fam().contains(t) implies fam_ext(
        n.fam(),
        Seq::<int>::empty().to_set(),
    ).contains(t) by {
        assert(t =~= t.union(Seq::<int>::empty().to_set()));
    }
    assert(fam_ext(n.fam(), Seq::<int>::empty().to_set()) =~= n.fam());
}

/// The member sets of `a` that avoid `e`.
pub open spec fn fam_without(a: Set<Set<int>>, e: int) -> Set<Set<int>> {
    a.filter(|s: Set<int>| !s.contains(e))
}

/// Complement filtering commutes with adding a different element everywhere.
proof fn lemma_fam_without_up(a: Set<Set<int>>, q: int, e: int)
    requires
        e != q,
    ensures
        fam_without(fam_up(a, q), e) =~= fam_up(fam_without(a, e), q),
{
    assert forall|t: Set<int>| #[trigger] fam_without(fam_up(a, q), e).contains(t) implies
    fam_up(fam_without(a, e), q).contains(t) by {
        let w = choose|w: Set<int>| a.contains(w) && t == w.insert(q);
        assert(!w.contains(e));
        assert(fam_without(a, e).contains(w));
    }
    assert forall|t: Set<int>| #[trigger] fam_up(fam_without(a, e), q).contains(t) implies
    fam_without(fam_up(a, q), e).contains(t) by {
        let w = choose|w: Set<int>| fam_without(a, e).contains(w) && t == w.insert(q);
        assert(fam_up(a, q).contains(t));
        assert(!t.contains(e));
    }
}

/// The sets of the family that avoid `element`.
pub fn subset_not(root: Node, element: Priority) -> (r: Node)
    requires
        root.ordered(),
    ensures
        r.fam() == fam_without(root.fam(), element as int),
        r.ordered(),
        forall|v: int| root.above(v) ==> #[trigger] r.above(v),
    decreases root,
{
    match root {
        Node::Never => {
            proof {
                assert(Node::Never.fam() =~= fam_without(Node::Never.fam(), element as int));
            }
            Node::Never
        },
        Node::Always => {
            proof {
                assert forall|t: Set<int>| #[trigger] Node::Always.fam().contains(t) implies
                fam_without(Node::Always.fam(), element as int).contains(t) by {
                    assert(t =~= Set::<int>::empty());
                }
                assert(Node::Always.fam() =~= fam_without(Node::Always.fam(), element as int));
            }
            Node::Always
        },
        Node::Branch(q, lo, hi) => {
            let ee = element;
            if element == q {
                let r = *lo;
                proof {
                    let qq = q as int;
                    assert(r.fam() =~= fam_without(
                        r.fam().union(fam_up(hi.fam(), qq)),
                        qq,
                    )) by {
                        assert forall|t: Set<int>| #[trigger] r.fam().contains(t) implies
                        fam_without(r.fam().union(fam_up(hi.fam(), qq)), qq).contains(t) by {
                            if t.contains(qq) {
                                lemma_fam_bound(r, qq, t, qq);
                            }
                        }
                        assert forall|t: Set<int>|
                            #[trigger] fam_without(
                            r.fam().union(fam_up(hi.fam(), qq)),
                            qq,
                        ).contains(t) implies r.fam().contains(t) by {
                            if fam_up(hi.fam(), qq).contains(t) {
                                let w = choose|w: Set<int>|
                                    hi.fam().contains(w) && t == w.insert(qq);
                                assert(t.contains(qq));
                            }
                        }
                    }
                }
                r
            } else {
                let rl = subset_not(*lo, element);
                let rh = subset_not(*hi, element);
                let r = mk(q, rl, rh);
                proof {
                    let qq = q as int;
                    lemma_fam_without_up(hi.fam(), qq, element as int);
                    assert(r.fam() =~= fam_without(
                        lo.fam().union(fam_up(hi.fam(), qq)),
                        element as int,
                    ));
                }
                r
            }
        },
    }
}

/// The sets of `a` that avoid every element of `es`.
pub open spec fn fam_without_all(a: Set<Set<int>>, es: Seq<int>) -> Set<Set<int>> {
    a.filter(|s: Set<int>| forall|j: int| 0 <= j < es.len() ==> !s.contains(#[trigger] es[j]))
}

/// The sets avoiding every listed element.
pub fn subset_none(root: Node, elements: &[Priority]) -> (r: Node)
    requires
        root.ordered(),
    ensures
        r.fam() == fam_without_all(
            root.fam(),
            elements@.map_values(|p: Priority| p as int),
        ),
        r.ordered(),
{
    let ghost es = elements@.map_values(|p: Priority| p as int);
    let mut acc = root;
    let mut i: usize = 0;
    proof {
        assert(acc.fam() =~= fam_without_all(acc.fam(), es.take(0))) by {
            assert forall|t: Set<int>| #[trigger] acc.fam().contains(t) implies fam_without_all(
                acc.fam(),
                es.take(0),
            ).contains(t) by {}
        }
    }
    let ghost whole = acc.fam();
    while i < elements.len()
        invariant
            es == elements@.map_values(|p: Priority| p as int),
            0 <= i <= elements@.len(),
            acc.ordered(),
            acc.fam() == fam_without_all(whole, es.take(i as int)),
        decreases elements@.len() - i,
    {
        let ghost prev = acc.fam();
        acc = subset_not(acc, elements[i]);
        proof {
            let ee = es[i as int];
            assert(elements@[i as int] as int == ee);
            assert(acc.fam() == fam_without(prev, ee));
            assert(acc.fam() =~= fam_without_all(whole, es.take(i + 1))) by {
                assert forall|t: Set<int>| #[trigger] fam_without(prev, ee).contains(t) implies
                fam_without_all(whole, es.take(i + 1)).contains(t) by {
                    assert(fam_without_all(whole, es.take(i as int)).contains(t));
                    assert forall|j: int| 0 <= j < i + 1 implies !t.contains(
                        #[trigger] es.take(i + 1)[j],
                    ) by {
                        if j < i {
                            assert(!t.contains(es.take(i as int)[j]));
                        }
                    }
                }
                assert forall|t: Set<int>| #[trigger] fam_without_all(whole, es.take(
                    i + 1,
                )).contains(t) implies fam_without(prev, ee).contains(t) by {
                    assert forall|j: int| 0 <= j < i implies !t.contains(
                        #[trigger] es.take(i as int)[j],
                    ) by {
                        assert(!t.contains(es.take(i + 1)[j]));
                    }
                    assert(fam_without_all(whole, es.take(i as int)).contains(t));
                    assert(!t.contains(es.take(i + 1)[i as int]));
                }
            }
        }
        i = i + 1;
    }
    proof {
        assert(es.take(es.len() as int) =~= es);
    }
    acc
}

/// The sets not intersecting the listed elements.
pub fn offset(root: Node, elements: &[Priority]) -> (r: Node)
    requires
        root.ordered(),
    ensures
        r.fam() == fam_without_all(
            root.fam(),
            elements@.map_values(|p: Priority| p as int),
        ),
        r.ordered(),
{
    subset_none(root, elements)
}

/// The member-set predicate of a filtered enumeration: contains every
/// listed inclusion and none of the listed exclusions.
pub open spec fn outfit_pred(incl: Seq<int>, excl: Seq<int>) -> spec_fn(Seq<int>) -> bool {
    |q: Seq<int>|
        (forall|j: int| 0 <= j < incl.len() ==> q.contains(#[trigger] incl[j])) && (forall|j: int|
            0 <= j < excl.len() ==> !q.contains(#[trigger] excl[j]))
}

/// Decide membership of a priority in an enumerated set.
fn contains_priority(v: &Vec<Priority>, p: Priority) -> (r: bool)
    ensures
        r == v@.map_values(|q: Priority| q as int).contains(p as int),
{
    let ghost mv = v@.map_values(|q: Priority| q as int);
    let mut i: usize = 0;
    while i < v.len()
        invariant
            mv == v@.map_values(|q: Priority| q as int),
            0 <= i <= v@.len(),
            forall|j: int| 0 <= j < i ==> #[trigger] mv[j] != p as int,
        decreases v@.len() - i,
    {
        if v[i] == p {
            proof {
                assert(mv[i as int] == p as int);
            }
            return true;
        }
        i = i + 1;
    }
    proof {
        if mv.contains(p as int) {
            let k = choose|k: int| 0 <= k < mv.len() && mv[k] == p as int;
        }
    }
    false
}

/// Decide whether an enumerated set passes the inclusion/exclusion filter.
fn set_passes(v: &Vec<Priority>, incl: &[Priority], excl: &[Priority]) -> (r: bool)
    ensures
        r == outfit_pred(
            incl@.map_values(|p: Priority| p as int),
            excl@.map_values(|p: Priority| p as int),
        )(v@.map_values(|q: Priority| q as int)),
{
    let ghost iv = incl@.map_values(|p: Priority| p as int);
    let ghost ev = excl@.map_values(|p: Priority| p as int);
    let ghost mv = v@.map_values(|q: Priority| q as int);
    let mut j: usize = 0;
    while j < incl.len()
        invariant
            iv == incl@.map_values(|p: Priority| p as int),
            mv == v@.map_values(|q: Priority| q as int),
            0 <= j <= incl@.len(),
            forall|k: int| 0 <= k < j ==> mv.contains(#[trigger] iv[k]),
        decreases incl@.len() - j,
    {
        if !contains_priority(v, incl[j]) {
            proof {
                assert(iv[j as int] == incl@[j as int] as int);
            }
            return false;
        }
        j = j + 1;
    }
    let mut j: usize = 0;
    while j < excl.len()
        invariant
            iv == incl@.map_values(|p: Priority| p as int),
            ev == excl@.map_values(|p: Priority| p as int),
            mv == v@.map_values(|q: Priority| q as int),
            forall|k: int| 0 <= k < iv.len() ==> mv.contains(#[trigger] iv[k]),
            0 <= j <= excl@.len(),
            forall|k: int| 0 <= k < j ==> !mv.contains(#[trigger] ev[k]),
        decreases excl@.len() - j,
    {
        if contains_priority(v, excl[j]) {
            proof {
                assert(ev[j as int] == excl@[j as int] as int);
            }
            return false;
        }
        j = j + 1;
    }
    true
}

/// The enumeration, kept to the sets containing every inclusion and none of
/// the exclusions.
pub fn combinations_with(root: &Node, incl: &[Priority], excl: &[Priority]) -> (r: Vec<
    Vec<Priority>,
>)
    requires
        root.ordered(),
    ensures
        combos_view(r@) == combos(*root, Seq::empty()).filter(
            outfit_pred(
                incl@.map_values(|p: Priority| p as int),
                excl@.map_values(|p: Priority| p as int),
            ),
        ),
{
    let ghost pred = outfit_pred(
        incl@.map_values(|p: Priority| p as int),
        excl@.map_values(|p: Priority| p as int),
    );
    let all = combinations(root);
    let ghost cs = combos_view(all@);
    let mut out: Vec<Vec<Priority>> = Vec::new();
    let mut i: usize = 0;
    proof {
        reveal(Seq::filter);
        assert(combos_view(out@) =~= cs.take(0).filter(pred));
    }
    while i < all.len()
        invariant
            cs == combos_view(all@),
            cs == combos(*root, Seq::empty()),
            pred == outfit_pred(
                incl@.map_values(|p: Priority| p as int),
                excl@.map_values(|p: Priority| p as int),
            ),
            0 <= i <= all@.len(),
            combos_view(out@) == cs.take(i as int).filter(pred),
        decreases all@.len() - i,
    {
        let keep = set_passes(&all[i], incl, excl);
        let ghost before = out@;
        proof {
            assert(cs[i as int] == all@[i as int]@.map_values(|q: Priority| q as int));
            assert(keep == pred(cs[i as int]));
        }
        if keep {
            out.push(vstd::slice::slice_to_vec(all[i].as_slice()));
            proof {
                assert(combos_view(out@) =~= combos_view(before).push(cs[i as int])) by {
                    assert forall|k: int|
                        0 <= k < out@.len() implies combos_view(out@)[k] == combos_view(
                        before,
                    ).push(cs[i as int])[k] by {
                        if k < before.len() {
                            assert(out@[k] == before[k]);
                        }
                    }
                }
            }
        }
        proof {
            reveal(Seq::filter);
            assert(cs.take(i + 1).drop_last() =~= cs.take(i as int));
            assert(cs.take(i + 1).last() == cs[i as int]);
            assert(cs.take(i + 1).filter(pred) == if pred(cs[i as int]) {
                cs.take(i as int).filter(pred).push(cs[i as int])
            } else {
                cs.take(i as int).filter(pred)
            });
            assert(combos_view(out@) =~= cs.take(i + 1).filter(pred));
        }
        i = i + 1;
    }
    proof {
        assert(cs.take(cs.len() as int) =~= cs);
    }
    out
}

/// How one priority relates to the surviving member sets of a query.
#[derive(Debug, Clone, Copy, PartialEq, Eq, Structural)]
pub enum Status {
    /// Fixed by the caller's inclusions.
    Selected,
    /// Present in every surviving member set, of which there is at least one.
    Required,
    /// Present in some surviving member sets but not all.
    Available,
    /// Present in no surviving member set.
    Excluded,
}

/// Classify every universe priority against the member sets that survive
/// the inclusion/exclusion filter.
pub fn summarize(root: &Node, universe: &[Priority], incl: &[Priority], excl: &[Priority]) -> (r:
    Vec<(Priority, Status)>)
    requires
        root.ordered(),
    ensures
        ({
            let surv = combos(*root, Seq::empty()).filter(
                outfit_pred(
                    incl@.map_values(|p: Priority| p as int),
                    excl@.map_values(|p: Priority| p as int),
                ),
            );
            &&& r@.len() == universe@.len()
            &&& forall|i: int|
                0 <= i < r@.len() ==> {
                    let u = universe@[i] as int;
                    &&& (#[trigger] r@[i]).0 == universe@[i]
                    &&& (r@[i].1 == Status::Selected <==> incl@.map_values(
                        |p: Priority| p as int,
                    ).contains(u))
                    &&& (r@[i].1 == Status::Excluded <==> !incl@.map_values(
                        |p: Priority| p as int,
                    ).contains(u) && (forall|k: int|
                        0 <= k < surv.len() ==> !(#[trigger] surv[k]).contains(u)))
                    &&& (r@[i].1 == Status::Required <==> !incl@.map_values(
                        |p: Priority| p as int,
                    ).contains(u) && surv.len() > 0 && (forall|k: int|
                        0 <= k < surv.len() ==> (#[trigger] surv[k]).contains(u)))
                }
        }),
{
    let ghost iv = incl@.map_values(|p: Priority| p as int);
    let survivors = combinations_with(root, incl, excl);
    let ghost surv = combos(*root, Seq::empty()).filter(
        outfit_pred(iv, excl@.map_values(|p: Priority| p as int)),
    );
    let mut r: Vec<(Priority, Status)> = Vec::new();
    let mut i: usize = 0;
    while i < universe.len()
        invariant
            iv == incl@.map_values(|p: Priority| p as int),
            combos_view(survivors@) == surv,
            surv == combos(*root, Seq::empty()).filter(
                outfit_pred(iv, excl@.map_values(|p: Priority| p as int)),
            ),
            0 <= i <= universe@.len(),
            r@.len() == i,
            forall|i2: int|
                0 <= i2 < i ==> {
                    let u = universe@[i2] as int;
                    &&& (#[trigger] r@[i2]).0 == universe@[i2]
                    &&& (r@[i2].1 == Status::Selected <==> iv.contains(u))
                    &&& (r@[i2].1 == Status::Excluded <==> !iv.contains(u) && (forall|k: int|
                        0 <= k < surv.len() ==> !(#[trigger] surv[k]).contains(u)))
                    &&& (r@[i2].1 == Status::Required <==> !iv.contains(u) && surv.len() > 0 && (
                    forall|k: int| 0 <= k < surv.len() ==> (#[trigger] surv[k]).contains(u)))
                },
        decreases universe@.len() - i,
    {
        let u = universe[i];
        let selected = contains_priority_slice(incl, u);
        let mut any_with = false;
        let mut all_with = true;
        let mut k: usize = 0;
        while k < survivors.len()
            invariant
                combos_view(survivors@) == surv,
                0 <= k <= survivors@.len(),
                any_with == exists|k2: int|
                    0 <= k2 < k && (#[trigger] surv[k2]).contains(u as int),
                all_with == forall|k2: int|
                    0 <= k2 < k ==> (#[trigger] surv[k2]).contains(u as int),
            decreases survivors@.len() - k,
        {
            let here = contains_priority(&survivors[k], u);
            proof {
                assert(surv[k as int] == survivors@[k as int]@.map_values(
                    |q: Priority| q as int,
                ));
                if here {
                    assert((surv[k as int]).contains(u as int)) by {
                        let m = survivors@[k as int]@.map_values(|q: Priority| q as int);
                        let w = choose|w: int| 0 <= w < m.len() && m[w] == u as int;
                        assert(surv[k as int].contains(u as int)) by {
                            assert(m.contains(u as int));
                            let w2 = choose|w2: int| 0 <= w2 < m.len() && m[w2] == u as int;
                        }
                    }
                } else {
                    assert(!(surv[k as int]).contains(u as int)) by {
                        if surv[k as int].contains(u as int) {
                            let m = survivors@[k as int]@.map_values(|q: Priority| q as int);
                            let w = choose|w: int| 0 <= w < m.len() && m[w] == u as int;
                        }
                    }
                }
            }
            if here {
                any_with = true;
            } else {
                all_with = false;
            }
            proof {
                if any_with {
                    let w = choose|k2: int|
                        0 <= k2 < k + 1 && (#[trigger] surv[k2]).contains(u as int);
                }
            }
            k = k + 1;
        }
        let status = if selected {
            Status::Selected
        } else if !any_with {
            Status::Excluded
        } else if all_with {
            Status::Required
        } else {
            Status::Available
        };
        let ghost before = r@;
        r.push((u, status));
        proof {
            let uu = universe@[i as int] as int;
            assert(surv.len() == survivors@.len());
            assert(r@[i as int].0 == universe@[i as int]);
            assert(r@[i as int].1 == status);
            // the three classification cases, both directions
            if !any_with {
                assert forall|k2: int| 0 <= k2 < surv.len() implies !(
                #[trigger] surv[k2]).contains(uu) by {
                    if surv[k2].contains(uu) {
                        assert(exists|k3: int|
                            0 <= k3 < survivors@.len() && (#[trigger] surv[k3]).contains(uu));
                    }
                }
            }
            if any_with {
                let w = choose|k2: int|
                    0 <= k2 < survivors@.len() && (#[trigger] surv[k2]).contains(uu);
                assert(surv.len() > 0);
            }
            if !selected && surv.len() > 0 && (forall|k2: int|
                0 <= k2 < surv.len() ==> (#[trigger] surv[k2]).contains(uu)) {
                assert(surv[0].contains(uu));
                assert(any_with);
                assert(all_with);
            }
            assert forall|i2: int|
                0 <= i2 < i + 1 implies {
                let u2 = universe@[i2] as int;
                &&& (#[trigger] r@[i2]).0 == universe@[i2]
                &&& (r@[i2].1 == Status::Selected <==> iv.contains(u2))
                &&& (r@[i2].1 == Status::Excluded <==> !iv.contains(u2) && (forall|k2: int|
                    0 <= k2 < surv.len() ==> !(#[trigger] surv[k2]).contains(u2)))
                &&& (r@[i2].1 == Status::Required <==> !iv.contains(u2) && surv.len() > 0 && (
                forall|k2: int| 0 <= k2 < surv.len() ==> (#[trigger] surv[k2]).contains(u2)))
            } by {
                if i2 < i {
                    assert(r@[i2] == before[i2]);
                }
            }
        }
        i = i + 1;
    }
    r
}

/// Decide membership of a priority in a priority slice.
fn contains_priority_slice(v: &[Priority], p: Priority) -> (r: bool)
    ensures
        r == v@.map_values(|q: Priority| q as int).contains(p as int),
{
    let ghost mv = v@.map_values(|q: Priority| q as int);
    let mut i: usize = 0;
    while i < v.len()
        invariant
            mv == v@.map_values(|q: Priority| q as int),
            0 <= i <= v@.len(),
            forall|j: int| 0 <= j < i ==> #[trigger] mv[j] != p as int,
        decreases v@.len() - i,
    {
        if v[i] == p {
            proof {
                assert(mv[i as int] == p as int);
            }
            return true;
        }
        i = i + 1;
    }
    proof {
        if mv.contains(p as int) {
            let k = choose|k: int| 0 <= k < mv.len() && mv[k] == p as int;
        }
    }
    false
}

/// Adding `p` twice is adding it once.
proof fn lemma_fam_up_idem(a: Set<Set<int>>, p: int)
    ensures
        fam_up(fam_up(a, p), p) =~= fam_up(a, p),
{
    assert forall|t: Set<int>| #[trigger] fam_up(fam_up(a, p), p).contains(t) implies fam_up(
        a,
        p,
    ).contains(t) by {
        let w = choose|w: Set<int>| fam_up(a, p).contains(w) && t == w.insert(p);
        let s0 = choose|s0: Set<int>| a.contains(s0) && w == s0.insert(p);
        assert(t =~= s0.insert(p));
    }
    assert forall|t: Set<int>| #[trigger] fam_up(a, p).contains(t) implies fam_up(
        fam_up(a, p),
        p,
    ).contains(t) by {
        assert(t =~= t.insert(p));
    }
}

/// Additions of distinct elements commute.
proof fn lemma_fam_up_comm(a: Set<Set<int>>, p: int, q: int)
    ensures
        fam_up(fam_up(a, p), q) =~= fam_up(fam_up(a, q), p),
{
    assert forall|t: Set<int>| #[trigger] fam_up(fam_up(a, p), q).contains(t) implies fam_up(
        fam_up(a, q),
        p,
    ).contains(t) by {
        let w = choose|w: Set<int>| fam_up(a, p).contains(w) && t == w.insert(q);
        let s0 = choose|s0: Set<int>| a.contains(s0) && w == s0.insert(p);
        assert(fam_up(a, q).contains(s0.insert(q)));
        assert(t =~= s0.insert(q).insert(p));
    }
    assert forall|t: Set<int>| #[trigger] fam_up(fam_up(a, q), p).contains(t) implies fam_up(
        fam_up(a, p),
        q,
    ).contains(t) by {
        let w = choose|w: Set<int>| fam_up(a, q).contains(w) && t == w.insert(p);
        let s0 = choose|s0: Set<int>| a.contains(s0) && w == s0.insert(q);
        assert(fam_up(a, p).contains(s0.insert(p)));
        assert(t =~= s0.insert(p).insert(q));
    }
}

/// The union with the empty family on the left is the identity.
proof fn lemma_union_empty_left(a: Set<Set<int>>)
    ensures
        Set::<Set<int>>::empty().union(a) =~= a,
{
}

/// Case lemma: inserting an element shallower than the branch.
proof fn lemma_insert_shallow(b: Set<Set<int>>, e: int)
    ensures
        Set::<Set<int>>::empty().union(fam_up(b, e)) =~= fam_up(b, e),
{
}

/// Case lemma: inserting the branch's own priority.
proof fn lemma_insert_same(a: Set<Set<int>>, b: Set<Set<int>>, q: int)
    ensures
        Set::<Set<int>>::empty().union(fam_up(a.union(b), q)) =~= fam_up(
            a.union(fam_up(b, q)),
            q,
        ),
{
    lemma_fam_up_union(a, b, q);
    lemma_fam_up_union(a, fam_up(b, q), q);
    lemma_fam_up_idem(b, q);
    assert(fam_up(a.union(fam_up(b, q)), q) =~= fam_up(a, q).union(fam_up(b, q)));
    assert(fam_up(a.union(b), q) =~= fam_up(a, q).union(fam_up(b, q)));
}

/// Case lemma: inserting an element deeper than the branch.
proof fn lemma_insert_deeper(a: Set<Set<int>>, b: Set<Set<int>>, q: int, e: int)
    ensures
        fam_up(a, e).union(fam_up(fam_up(b, e), q)) =~= fam_up(a.union(fam_up(b, q)), e),
{
    lemma_fam_up_union(a, fam_up(b, q), e);
    lemma_fam_up_comm(b, e, q);
    assert(fam_up(a.union(fam_up(b, q)), e) =~= fam_up(a, e).union(fam_up(fam_up(b, q), e)));
}

/// The family with `e` added to every member set.
#[verifier::rlimit(20)]
#[verifier::spinoff_prover]
fn insert_elem(f: &Node, e: Priority) -> (r: Node)
    requires
        f.ordered(),
    ensures
        r.fam() == fam_up(f.fam(), e as int),
        r.ordered(),
        forall|v: int| v < e && f.above(v) ==> #[trigger] r.above(v),
    decreases *f,
{
    match f {
        Node::Never => {
            let r = Node::Never;
            proof {
                lemma_fam_up_empty(e as int);
                assert(r.fam() =~= fam_up(f.fam(), e as int));
                assert(r.ordered());
                assert forall|v: int| v < e && f.above(v) implies #[trigger] r.above(v) by {}
            }
            r
        },
        Node::Always => {
            let r = Node::Branch(e, Box::new(Node::Never), Box::new(Node::Always));
            proof {
                assert(Node::Never.fam() =~= Set::<Set<int>>::empty());
                assert(Node::Always.fam() == f.fam());
                assert(r.fam() == Node::Never.fam().union(fam_up(Node::Always.fam(), e as int)));
                lemma_insert_shallow(f.fam(), e as int);
                assert(Node::Never.ordered() && Node::Always.ordered());
                assert forall|v: int| #[trigger] Node::Never.above(v) && Node::Always.above(
                    v,
                ) by {}
                assert(r.ordered());
                assert forall|v: int| v < e && f.above(v) implies #[trigger] r.above(v) by {
                    assert(Node::Never.above(v) && Node::Always.above(v));
                }
            }
            r
        },
        Node::Branch(q, lo, hi) => {
            if e < *q {
                let r = Node::Branch(e, Box::new(Node::Never), Box::new(f.clone()));
                proof {
                    assert(Node::Never.fam() =~= Set::<Set<int>>::empty());
                    assert(r.fam() == Node::Never.fam().union(fam_up(f.fam(), e as int)));
                    lemma_insert_shallow(f.fam(), e as int);
                    assert(Node::Never.ordered());
                    assert forall|v: int| #[trigger] Node::Never.above(v) by {}
                    lemma_above_weaken(**lo, e as int, *q as int);
                    lemma_above_weaken(**hi, e as int, *q as int);
                    assert(f.above(e as int));
                    assert(r.ordered());
                    assert forall|v: int| v < e && f.above(v) implies #[trigger] r.above(v) by {
                        assert(Node::Never.above(v));
                    }
                }
                r
            } else if e == *q {
                let u = union(lo, hi);
                let r = Node::Branch(*q, Box::new(Node::Never), Box::new(u));
                proof {
                    assert(Node::Never.fam() =~= Set::<Set<int>>::empty());
                    assert(r.fam() == Node::Never.fam().union(fam_up(u.fam(), *q as int)));
                    lemma_insert_same(lo.fam(), hi.fam(), *q as int);
                    assert(Node::Never.ordered());
                    assert forall|v: int| #[trigger] Node::Never.above(v) by {}
                    assert(u.above(*q as int));
                    assert(r.ordered());
                    assert forall|v: int| v < e && f.above(v) implies #[trigger] r.above(v) by {
                        assert(lo.above(v) && hi.above(v));
                        assert(u.above(v));
                        assert(Node::Never.above(v));
                    }
                }
                r
            } else {
                let il = insert_elem(lo, e);
                let ih = insert_elem(hi, e);
                let r = mk(*q, il, ih);
                proof {
                    lemma_insert_deeper(lo.fam(), hi.fam(), *q as int, e as int);
                    assert(il.above(*q as int) && ih.above(*q as int));
                    assert(r.ordered());
                    assert forall|v: int| v < e && f.above(v) implies #[trigger] r.above(v) by {
                        assert(lo.above(v) && hi.above(v));
                        assert(il.above(v) && ih.above(v));
                        assert(v < *q);
                    }
                }
                r
            }
        },
    }
}

/// The family of all pairwise unions.
pub open spec fn prod_fam(a: Set<Set<int>>, b: Set<Set<int>>) -> Set<Set<int>> {
    Set::new(
        |u: Set<int>|
            exists|s: Set<int>, t: Set<int>|
                #![trigger s.union(t)]
                a.contains(s) && b.contains(t) && u == s.union(t),
    )
}

/// Case lemma: the empty family produces nothing.
proof fn lemma_prod_empty(g: Set<Set<int>>)
    ensures
        prod_fam(Set::empty(), g) =~= Set::<Set<int>>::empty(),
{
    assert forall|u: Set<int>| !(#[trigger] prod_fam(Set::<Set<int>>::empty(), g).contains(
        u,
    )) by {
        if prod_fam(Set::<Set<int>>::empty(), g).contains(u) {
            let (st, tt) = choose|st: Set<int>, tt: Set<int>|
                #![trigger st.union(tt)]
                Set::<Set<int>>::empty().contains(st) && g.contains(tt) && u == st.union(tt);
        }
    }
}

/// Case lemma: the family of only the empty set is the identity.
proof fn lemma_prod_unit(g: Set<Set<int>>)
    ensures
        prod_fam(Set::empty().insert(Set::empty()), g) =~= g,
{
    let one = Set::<Set<int>>::empty().insert(Set::<int>::empty());
    assert forall|u: Set<int>| #[trigger] prod_fam(one, g).contains(u) implies g.contains(u) by {
        let (st, tt) = choose|st: Set<int>, tt: Set<int>|
            #![trigger st.union(tt)]
            one.contains(st) && g.contains(tt) && u == st.union(tt);
        assert(st =~= Set::<int>::empty());
        assert(u =~= tt);
    }
    assert forall|u: Set<int>| #[trigger] g.contains(u) implies prod_fam(one, g).contains(u) by {
        assert(u =~= Set::<int>::empty().union(u));
        assert(one.contains(Set::<int>::empty()) && g.contains(u) && Set::<int>::empty().union(u)
            == Set::<int>::empty().union(u));
    }
}

/// Case lemma: the product distributes over a branch split.
proof fn lemma_prod_branch(
    lofam: Set<Set<int>>,
    hifam: Set<Set<int>>,
    gfam: Set<Set<int>>,
    pp: int,
)
    ensures
        prod_fam(lofam, gfam).union(fam_up(prod_fam(hifam, gfam), pp)) =~= prod_fam(
            lofam.union(fam_up(hifam, pp)),
            gfam,
        ),
{
    let ffam = lofam.union(fam_up(hifam, pp));
    let lhs = prod_fam(lofam, gfam).union(fam_up(prod_fam(hifam, gfam), pp));
    assert forall|u: Set<int>| #[trigger] lhs.contains(u) implies prod_fam(ffam, gfam).contains(
        u,
    ) by {
        if prod_fam(lofam, gfam).contains(u) {
            let (st, tt) = choose|st: Set<int>, tt: Set<int>|
                #![trigger st.union(tt)]
                lofam.contains(st) && gfam.contains(tt) && u == st.union(tt);
            assert(ffam.contains(st));
        } else {
            let w = choose|w: Set<int>| prod_fam(hifam, gfam).contains(w) && u == w.insert(pp);
            let (st, tt) = choose|st: Set<int>, tt: Set<int>|
                #![trigger st.union(tt)]
                hifam.contains(st) && gfam.contains(tt) && w == st.union(tt);
            assert(fam_up(hifam, pp).contains(st.insert(pp)));
            assert(ffam.contains(st.insert(pp)));
            assert(u =~= st.insert(pp).union(tt));
        }
    }
    assert forall|u: Set<int>| #[trigger] prod_fam(ffam, gfam).contains(u) implies lhs.contains(
        u,
    ) by {
        let (st, tt) = choose|st: Set<int>, tt: Set<int>|
            #![trigger st.union(tt)]
            ffam.contains(st) && gfam.contains(tt) && u == st.union(tt);
        if lofam.contains(st) {
            assert(prod_fam(lofam, gfam).contains(u));
        } else {
            let s0 = choose|s0: Set<int>| hifam.contains(s0) && st == s0.insert(pp);
            assert(prod_fam(hifam, gfam).contains(s0.union(tt)));
            assert(fam_up(prod_fam(hifam, gfam), pp).contains(s0.union(tt).insert(pp)));
            assert(u =~= s0.union(tt).insert(pp));
        }
    }
}

/// Product of the two families: every union of a member of `f` with a
/// member of `g`.
#[verifier::rlimit(20)]
#[verifier::spinoff_prover]
pub fn product(f: &Node, g: &Node) -> (r: Node)
    requires
        f.ordered(),
        g.ordered(),
    ensures
        r.fam() == prod_fam(f.fam(), g.fam()),
        r.ordered(),
        forall|v: int| f.above(v) && g.above(v) ==> #[trigger] r.above(v),
    decreases *f,
{
    match f {
        Node::Never => {
            proof {
                lemma_prod_empty(g.fam());
                assert(Node::Never.ordered());
                assert forall|v: int| #[trigger] Node::Never.above(v) by {}
            }
            Node::Never
        },
        Node::Always => {
            let r = g.clone();
            proof {
                lemma_prod_unit(g.fam());
            }
            r
        },
        Node::Branch(p, lo, hi) => {
            let pl = product(lo, g);
            let ph = product(hi, g);
            let pe = insert_elem(&ph, *p);
            let r = union(&pl, &pe);
            proof {
                lemma_prod_branch(lo.fam(), hi.fam(), g.fam(), *p as int);
            }
            r
        },
    }
}

/// Every member set of `a`, with `e` removed.
pub open spec fn fam_drop(a: Set<Set<int>>, e: int) -> Set<Set<int>> {
    a.map(|s: Set<int>| s.remove(e))
}

/// Dropping an element no member set contains changes nothing.
proof fn lemma_fam_drop_absent(a: Set<Set<int>>, e: int)
    requires
        forall|s: Set<int>| #[trigger] a.contains(s) ==> !s.contains(e),
    ensures
        fam_drop(a, e) =~= a,
{
    assert forall|t: Set<int>| #[trigger] fam_drop(a, e).contains(t) implies a.contains(t) by {
        let s = choose|s: Set<int>| a.contains(s) && t == s.remove(e);
        assert(t =~= s);
    }
    assert forall|t: Set<int>| #[trigger] a.contains(t) implies fam_drop(a, e).contains(t) by {
        assert(t =~= t.remove(e));
    }
}

/// Dropping the element that was added everywhere undoes the addition,
/// when no member set held it before.
proof fn lemma_fam_drop_up_same(a: Set<Set<int>>, e: int)
    requires
        forall|s: Set<int>| #[trigger] a.contains(s) ==> !s.contains(e),
    ensures
        fam_drop(fam_up(a, e), e) =~= a,
{
    assert forall|t: Set<int>| #[trigger] fam_drop(fam_up(a, e), e).contains(t) implies
    a.contains(t) by {
        let w = choose|w: Set<int>| fam_up(a, e).contains(w) && t == w.remove(e);
        let s0 = choose|s0: Set<int>| a.contains(s0) && w == s0.insert(e);
        assert(t =~= s0);
    }
    assert forall|t: Set<int>| #[trigger] a.contains(t) implies fam_drop(
        fam_up(a, e),
        e,
    ).contains(t) by {
        assert(fam_up(a, e).contains(t.insert(e)));
        assert(t =~= t.insert(e).remove(e));
    }
}

/// Dropping commutes with adding a different element everywhere.
proof fn lemma_fam_drop_up(a: Set<Set<int>>, q: int, e: int)
    requires
        e != q,
    ensures
        fam_drop(fam_up(a, q), e) =~= fam_up(fam_drop(a, e), q),
{
    assert forall|t: Set<int>| #[trigger] fam_drop(fam_up(a, q), e).contains(t) implies fam_up(
        fam_drop(a, e),
        q,
    ).contains(t) by {
        let w = choose|w: Set<int>| fam_up(a, q).contains(w) && t == w.remove(e);
        let s0 = choose|s0: Set<int>| a.contains(s0) && w == s0.insert(q);
        assert(fam_drop(a, e).contains(s0.remove(e)));
        assert(t =~= s0.remove(e).insert(q));
    }
    assert forall|t: Set<int>| #[trigger] fam_up(fam_drop(a, e), q).contains(t) implies fam_drop(
        fam_up(a, q),
        e,
    ).contains(t) by {
        let w = choose|w: Set<int>| fam_drop(a, e).contains(w) && t == w.insert(q);
        let s0 = choose|s0: Set<int>| a.contains(s0) && w == s0.remove(e);
        assert(fam_up(a, q).contains(s0.insert(q)));
        assert(t =~= s0.insert(q).remove(e));
    }
}

/// Dropping distributes over union.
proof fn lemma_fam_drop_union(a: Set<Set<int>>, b: Set<Set<int>>, e: int)
    ensures
        fam_drop(a.union(b), e) =~= fam_drop(a, e).union(fam_drop(b, e)),
{
    assert forall|t: Set<int>| #[trigger] fam_drop(a.union(b), e).contains(t) implies fam_drop(
        a,
        e,
    ).union(fam_drop(b, e)).contains(t) by {
        let s = choose|s: Set<int>| a.union(b).contains(s) && t == s.remove(e);
        if a.contains(s) {
            assert(fam_drop(a, e).contains(t));
        } else {
            assert(fam_drop(b, e).contains(t));
        }
    }
    assert forall|t: Set<int>| fam_drop(a, e).union(fam_drop(b, e)).contains(t) implies #[trigger]
    fam_drop(a.union(b), e).contains(t) by {
        if fam_drop(a, e).contains(t) {
            let s = choose|s: Set<int>| a.contains(s) && t == s.remove(e);
            assert(a.union(b).contains(s));
        } else {
            let s = choose|s: Set<int>| b.contains(s) && t == s.remove(e);
            assert(a.union(b).contains(s));
        }
    }
}

/// The family with `e` removed from every member set.
#[verifier::rlimit(20)]
#[verifier::spinoff_prover]
fn remove_elem(f: &Node, e: Priority) -> (r: Node)
    requires
        f.ordered(),
    ensures
        r.fam() == fam_drop(f.fam(), e as int),
        r.ordered(),
        forall|v: int| f.above(v) ==> #[trigger] r.above(v),
    decreases *f,
{
    match f {
        Node::Never => {
            let r = Node::Never;
            proof {
                assert forall|s: Set<int>| #[trigger] r.fam().contains(s) implies !s.contains(
                    e as int,
                ) by {}
                lemma_fam_drop_absent(r.fam(), e as int);
                assert(r.ordered());
                assert forall|v: int| f.above(v) implies #[trigger] r.above(v) by {}
            }
            r
        },
        Node::Always => {
            let r = Node::Always;
            proof {
                assert forall|s: Set<int>| #[trigger] r.fam().contains(s) implies !s.contains(
                    e as int,
                ) by {
                    assert(s =~= Set::<int>::empty());
                }
                lemma_fam_drop_absent(r.fam(), e as int);
                assert(r.ordered());
                assert forall|v: int| f.above(v) implies #[trigger] r.above(v) by {}
            }
            r
        },
        Node::Branch(q, lo, hi) => {
            if e == *q {
                let r = union(lo, hi);
                proof {
                    let qq = *q as int;
                    lemma_fam_drop_union(lo.fam(), fam_up(hi.fam(), qq), qq);
                    assert forall|s: Set<int>| #[trigger] lo.fam().contains(s) implies
                    !s.contains(qq) by {
                        if s.contains(qq) {
                            lemma_fam_bound(**lo, qq, s, qq);
                        }
                    }
                    lemma_fam_drop_absent(lo.fam(), qq);
                    assert forall|s: Set<int>| #[trigger] hi.fam().contains(s) implies
                    !s.contains(qq) by {
                        if s.contains(qq) {
                            lemma_fam_bound(**hi, qq, s, qq);
                        }
                    }
                    lemma_fam_drop_up_same(hi.fam(), qq);
                    assert(r.fam() =~= fam_drop(f.fam(), e as int));
                    assert forall|v: int| f.above(v) implies #[trigger] r.above(v) by {
                        assert(lo.above(v) && hi.above(v));
                    }
                }
                r
            } else {
                let rl = remove_elem(lo, e);
                let rh = remove_elem(hi, e);
                let r = mk(*q, rl, rh);
                proof {
                    let qq = *q as int;
                    lemma_fam_drop_union(lo.fam(), fam_up(hi.fam(), qq), e as int);
                    lemma_fam_drop_up(hi.fam(), qq, e as int);
                    assert(r.fam() =~= fam_drop(f.fam(), e as int));
                    assert(rl.above(qq) && rh.above(qq));
                    assert(r.ordered());
                    assert forall|v: int| f.above(v) implies #[trigger] r.above(v) by {
                        assert(lo.above(v) && hi.above(v));
                        assert(rl.above(v) && rh.above(v));
                    }
                }
                r
            }
        },
    }
}

/// The listed elements dropped from every member set, one after another.
pub open spec fn fam_drop_all(a: Set<Set<int>>, es: Seq<int>) -> Set<Set<int>>
    decreases es.len(),
{
    if es.len() == 0 {
        a
    } else {
        fam_drop(fam_drop_all(a, es.drop_last()), es.last())
    }
}

/// The sets containing every listed element, with those elements removed.
pub fn onset(root: Node, elements: &[Priority]) -> (r: Node)
    requires
        root.ordered(),
    ensures
        r.fam() == fam_drop_all(
            fam_with_all(root.fam(), elements@.map_values(|p: Priority| p as int)),
            elements@.map_values(|p: Priority| p as int),
        ),
        r.ordered(),
{
    let ghost es = elements@.map_values(|p: Priority| p as int);
    let kept = subset_all(root, elements);
    let ghost base = kept.fam();
    let mut acc = kept;
    let mut i: usize = 0;
    proof {
        assert(acc.fam() == fam_drop_all(base, es.take(0)));
    }
    while i < elements.len()
        invariant
            es == elements@.map_values(|p: Priority| p as int),
            0 <= i <= elements@.len(),
            acc.ordered(),
            acc.fam() == fam_drop_all(base, es.take(i as int)),
        decreases elements@.len() - i,
    {
        let ghost prev = acc.fam();
        acc = remove_elem(&acc, elements[i]);
        proof {
            assert(elements@[i as int] as int == es[i as int]);
            assert(es.take(i + 1).drop_last() =~= es.take(i as int));
            assert(es.take(i + 1).last() == es[i as int]);
            assert(acc.fam() == fam_drop_all(base, es.take(i + 1)));
        }
        i = i + 1;
    }
    proof {
        assert(es.take(es.len() as int) =~= es);
    }
    acc
}

/// The family conditioned on inclusions and exclusions: the member sets
/// containing every listed inclusion and avoiding every listed exclusion.
pub fn restrict(root: Node, incl: &[Priority], excl: &[Priority]) -> (r: Node)
    requires
        root.ordered(),
    ensures
        r.fam() == fam_without_all(
            fam_with_all(root.fam(), incl@.map_values(|p: Priority| p as int)),
            excl@.map_values(|p: Priority| p as int),
        ),
        r.ordered(),
{
    let kept = subset_all(root, incl);
    subset_none(kept, excl)
}

} // verus!
