//! A compiled catalog: the item-to-family index together with the diagram
//! root that characterises the admissible assignments.
//!
//! `select_item` and `exclude_item` condition the diagram on one variable;
//! `complete_outfit` extends a partial selection to a full admissible one.

use vstd::prelude::*;

use crate::bdd::{node_is_false, Node};
use crate::items::{families_view, item_bytes, items_view, Family, Item, Outfit};
use crate::keyed::KeyedVec;

verus! {

/// Why a `complete_outfit` query was rejected.
#[derive(Debug)]
pub enum OutfitError {
    /// Selections that are not items of the catalog.
    UnknownItems(Vec<Item>),
    /// Families with more than one selected item:
    /// `(family, its selected items in selection order)`.
    MultipleItemsPerFamily(Vec<(Family, Vec<Item>)>),
    /// A selection set that no admissible assignment extends.
    IncompatibleSelections(Vec<Item>),
}

#[derive(Debug)]
pub struct Closet {
    item_index: KeyedVec<Family>,
    root: Node,
}

impl Closet {
    /// The diagram root.
    pub closed spec fn spec_root(self) -> Node {
        self.root
    }

    pub closed spec fn item_count(self) -> nat {
        self.item_index.spec_len()
    }

    /// The item name at position `i` of the index (name order).
    pub closed spec fn item_at(self, i: int) -> Seq<u8> {
        self.item_index.key_view()[i]
    }

    pub closed spec fn home_at(self, i: int) -> Seq<u8> {
        self.item_index.val_view()[i]@
    }

    pub closed spec fn has_item(self, it: Seq<u8>) -> bool {
        self.item_index.contains_key(it)
    }

    pub closed spec fn item_pos(self, it: Seq<u8>) -> int {
        self.item_index.index_of(it)
    }

    pub closed spec fn home_of(self, it: Seq<u8>) -> Seq<u8> {
        self.item_index.val_view()[self.item_index.index_of(it)]@
    }

    pub closed spec fn inv(self) -> bool {
        self.item_index.wf() && self.root.wf()
    }

    /// The index agrees with a builder's index.
    pub open spec fn same_index(self, b: crate::closet_builder::ClosetBuilder) -> bool {
        &&& self.item_count() == b.item_count()
        &&& forall|i: int|
            0 <= i < self.item_count() ==> #[trigger] self.item_at(i) == b.item_at(i)
        &&& forall|i: int|
            0 <= i < self.item_count() ==> #[trigger] self.home_at(i) == b.home_at(i)
        &&& forall|x: Seq<u8>| #[trigger] self.has_item(x) == b.has_item(x)
        &&& forall|x: Seq<u8>| self.has_item(x) ==> #[trigger] self.home_of(x) == b.home_of(x)
    }

    /// A well-formed closet has a well-formed root.
    pub proof fn lemma_inv_root(self)
        requires
            self.inv(),
        ensures
            self.spec_root().wf(),
    {
    }

    /// The index enumerates the catalog's items in ascending name order;
    /// positions are the priorities every completion tie-break uses.
    pub proof fn lemma_index_sorted(self, i: int, j: int)
        requires
            self.inv(),
            0 <= i < j < self.item_count(),
        ensures
            crate::order::lex_lt(self.item_at(i), self.item_at(j)),
    {
        self.item_index.lemma_sorted(i, j);
    }

    pub proof fn lemma_item_witness(self, it: Seq<u8>)
        requires
            self.has_item(it),
        ensures
            0 <= self.item_pos(it) < self.item_count(),
            self.item_at(self.item_pos(it)) == it,
            self.home_of(it) == self.home_at(self.item_pos(it)),
    {
        self.item_index.lemma_contains_index(it);
    }

    pub proof fn lemma_item_at(self, i: int)
        requires
            self.inv(),
            0 <= i < self.item_count(),
        ensures
            self.has_item(self.item_at(i)),
            self.item_pos(self.item_at(i)) == i,
            self.home_of(self.item_at(i)) == self.home_at(i),
    {
        self.item_index.lemma_index_of(self.item_at(i), i);
    }

    pub fn new(item_index: KeyedVec<Family>, root: Node) -> (r: Closet)
        ensures
            r.spec_root() == root,
            r.item_count() == item_index.spec_len(),
            forall|i: int| #[trigger] r.item_at(i) == item_index.key_view()[i],
            forall|i: int| #[trigger] r.home_at(i) == item_index.val_view()[i]@,
            forall|x: Seq<u8>| #[trigger] r.has_item(x) == item_index.contains_key(x),
            forall|x: Seq<u8>|
                #[trigger] r.home_of(x) == item_index.val_view()[item_index.index_of(x)]@,
            item_index.wf() && root.wf() ==> r.inv(),
    {
        Closet { item_index, root }
    }

    pub fn root(&self) -> (r: &Node)
        ensures
            *r == self.spec_root(),
    {
        &self.root
    }

    /// The home family of `item`, when the catalog knows it.
    pub fn get_family(&self, item: &Item) -> (r: Option<&Family>)
        requires
            self.inv(),
        ensures
            match r {
                Some(f) => self.has_item(item@) && f@ == self.home_of(item@),
                None => !self.has_item(item@),
            },
    {
        self.item_index.get(item_bytes(item))
    }

    /// A closet with this closet's index and the given root.
    fn with_root(&self, root: Node) -> (r: Closet)
        requires
            self.inv(),
        ensures
            r.same_as_index_of(*self),
            r.spec_root() == root,
            root.wf() ==> r.inv(),
    {
        let r = Closet { item_index: self.item_index.duplicate(), root };
        proof {
            self.item_index.lemma_wf_lens();
            r.item_index.lemma_wf_lens();
            assert forall|i: int|
                0 <= i < r.item_count() implies #[trigger] r.home_at(i) == self.home_at(i) by {
                assert(families_view(r.item_index.val_view())[i] == families_view(
                    self.item_index.val_view(),
                )[i]);
            }
            assert forall|x: Seq<u8>|
                r.has_item(x) implies #[trigger] r.home_of(x) == self.home_of(x) by {
                r.item_index.lemma_contains_index(x);
                self.item_index.lemma_contains_index(x);
                let i = r.item_index.index_of(x);
                assert(r.item_index.key_view()[i] == x);
                assert(self.item_index.key_view()[i] == x);
                self.item_index.lemma_index_of(x, i);
                assert(families_view(r.item_index.val_view())[i] == families_view(
                    self.item_index.val_view(),
                )[i]);
            }
        }
        r
    }

    /// Condition the diagram on `item` being chosen.
    pub fn select_item(&self, item: &Item) -> (r: Closet)
        requires
            self.inv(),
        ensures
            r.inv(),
            r.same_as_index_of(*self),
            forall|s: Set<Seq<u8>>|
                #[trigger] r.spec_root().sat(s) == self.spec_root().sat(s.insert(item@)),
    {
        self.with_root(self.root.restrict(item, true))
    }

    /// Condition the diagram on `item` being rejected.
    pub fn exclude_item(&self, item: &Item) -> (r: Closet)
        requires
            self.inv(),
        ensures
            r.inv(),
            r.same_as_index_of(*self),
            forall|s: Set<Seq<u8>>|
                #[trigger] r.spec_root().sat(s) == self.spec_root().sat(s.remove(item@)),
    {
        self.with_root(self.root.restrict(item, false))
    }

    /// The index agrees with another closet's index.
    pub open spec fn same_as_index_of(self, o: Closet) -> bool {
        &&& self.item_count() == o.item_count()
        &&& forall|i: int|
            0 <= i < self.item_count() ==> #[trigger] self.item_at(i) == o.item_at(i)
        &&& forall|i: int|
            0 <= i < self.item_count() ==> #[trigger] self.home_at(i) == o.home_at(i)
        &&& forall|x: Seq<u8>| #[trigger] self.has_item(x) == o.has_item(x)
        &&& forall|x: Seq<u8>| self.has_item(x) ==> #[trigger] self.home_of(x) == o.home_of(x)
    }

    /// The selections (by view, in order) that the catalog does not know.
    pub open spec fn spec_unknowns(self, sv: Seq<Seq<u8>>) -> Seq<Seq<u8>>
        decreases sv.len(),
    {
        if sv.len() == 0 {
            Seq::empty()
        } else {
            self.spec_unknowns(sv.drop_last()) + if !self.has_item(sv.last()) {
                seq![sv.last()]
            } else {
                Seq::empty()
            }
        }
    }

    /// The selections (in order) whose home family is `f`.
    pub open spec fn sels_home(self, sv: Seq<Seq<u8>>, f: Seq<u8>) -> Seq<Seq<u8>>
        decreases sv.len(),
    {
        if sv.len() == 0 {
            Seq::empty()
        } else {
            self.sels_home(sv.drop_last(), f) + if self.has_item(sv.last()) && self.home_of(
                sv.last(),
            ) == f {
                seq![sv.last()]
            } else {
                Seq::empty()
            }
        }
    }

    /// Selections not present in the catalog, in selection order.
    fn find_unknowns(&self, selections: &Vec<Item>) -> (r: Vec<Item>)
        requires
            self.inv(),
        ensures
            items_view(r@) == self.spec_unknowns(items_view(selections@)),
    {
        let ghost sv = items_view(selections@);
        let mut r: Vec<Item> = Vec::new();
        let mut i: usize = 0;
        proof {
            assert(items_view(r@) =~= self.spec_unknowns(sv.take(0)));
        }
        while i < selections.len()
            invariant
                self.inv(),
                sv == items_view(selections@),
                0 <= i <= selections@.len(),
                items_view(r@) == self.spec_unknowns(sv.take(i as int)),
            decreases selections@.len() - i,
        {
            let ghost before = r@;
            if self.item_index.get(item_bytes(&selections[i])).is_none() {
                r.push(selections[i].clone());
                proof {
                    assert(items_view(r@) =~= items_view(before).push(sv[i as int]));
                }
            }
            proof {
                assert(sv.take(i + 1).drop_last() =~= sv.take(i as int));
                assert(sv.take(i + 1).last() == sv[i as int]);
                assert(self.spec_unknowns(sv.take(i + 1)) == self.spec_unknowns(sv.take(i as int))
                    + if !self.has_item(sv[i as int]) {
                    seq![sv[i as int]]
                } else {
                    Seq::<Seq<u8>>::empty()
                });
                assert(items_view(r@) =~= self.spec_unknowns(sv.take(i + 1)));
            }
            i = i + 1;
        }
        proof {
            assert(sv.take(sv.len() as int) =~= sv);
        }
        r
    }

    /// Group the selections by home family, selection order kept per family.
    fn group_selections(&self, selections: &Vec<Item>) -> (g: KeyedVec<Vec<Item>>)
        requires
            self.inv(),
            self.spec_unknowns(items_view(selections@)).len() == 0,
        ensures
            g.wf(),
            forall|f: Seq<u8>|
                #[trigger] g.contains_key(f) <==> self.sels_home(items_view(selections@), f).len()
                    > 0,
            forall|f: Seq<u8>|
                #[trigger] g.contains_key(f) ==> items_view(g.val_view()[g.index_of(f)]@)
                    == self.sels_home(items_view(selections@), f),
    {
        let ghost sv = items_view(selections@);
        let mut g: KeyedVec<Vec<Item>> = KeyedVec::new();
        let mut i: usize = 0;
        proof {
            assert forall|f: Seq<u8>| self.sels_home(sv.take(0), f).len() == 0 by {
                assert(sv.take(0).len() == 0);
            }
        }
        while i < selections.len()
            invariant
                self.inv(),
                sv == items_view(selections@),
                self.spec_unknowns(sv).len() == 0,
                0 <= i <= selections@.len(),
                g.wf(),
                forall|f: Seq<u8>|
                    #[trigger] g.contains_key(f) <==> self.sels_home(sv.take(i as int), f).len()
                        > 0,
                forall|f: Seq<u8>|
                    #[trigger] g.contains_key(f) ==> items_view(g.val_view()[g.index_of(f)]@)
                        == self.sels_home(sv.take(i as int), f),
            decreases selections@.len() - i,
        {
            let ghost x = sv[i as int];
            proof {
                lemma_unknowns_mem(*self, sv, i as int);
            }
            let home = match self.item_index.get(item_bytes(&selections[i])) {
                Some(h) => h,
                None => {
                    proof {
                        self.item_index.lemma_contains_index(x);
                    }
                    vstd::pervasive::unreached()
                },
            };
            let ghost pre = g;
            let ki = g.ensure_key(crate::items::family_bytes(home), Vec::new());
            proof {
                if !pre.contains_key(home@) {
                    KeyedVec::<Vec<Item>>::lemma_insert_effect(
                        pre,
                        g,
                        ki as int,
                        home@,
                        g.val_view()[ki as int],
                    );
                    assert(items_view(g.val_view()[ki as int]@) =~= Seq::<Seq<u8>>::empty());
                }
            }
            let ghost mid = g;
            g.push_item(ki, selections[i].clone());
            proof {
                mid.lemma_wf_lens();
                g.lemma_wf_lens();
                KeyedVec::<Vec<Item>>::lemma_update_effect(
                    mid,
                    g,
                    ki as int,
                    g.val_view()[ki as int],
                );
                g.lemma_index_of(home@, ki as int);
                assert(items_view(g.val_view()[ki as int]@) =~= items_view(
                    mid.val_view()[ki as int]@,
                ).push(x));
                assert(home@ == self.home_of(x));
                assert forall|f: Seq<u8>| #[trigger] self.sels_home(sv.take(i + 1), f)
                    == self.sels_home(sv.take(i as int), f) + (if self.has_item(x)
                    && self.home_of(x) == f {
                    seq![x]
                } else {
                    Seq::<Seq<u8>>::empty()
                }) by {
                    assert(sv.take(i + 1).drop_last() =~= sv.take(i as int));
                    assert(sv.take(i + 1).last() == x);
                }
                assert forall|f: Seq<u8>|
                    #[trigger] g.contains_key(f) <==> self.sels_home(sv.take(i + 1), f).len()
                        > 0 by {
                    if f == home@ {
                        assert(self.sels_home(sv.take(i + 1), f).len() > 0);
                    } else {
                        assert(self.sels_home(sv.take(i + 1), f) =~= self.sels_home(
                            sv.take(i as int),
                            f,
                        ));
                        assert(g.contains_key(f) == pre.contains_key(f));
                    }
                }
                assert forall|f: Seq<u8>|
                    #[trigger] g.contains_key(f) implies items_view(g.val_view()[g.index_of(f)]@)
                    == self.sels_home(sv.take(i + 1), f) by {
                    if f == home@ {
                        if pre.contains_key(f) {
                            pre.lemma_contains_index(f);
                            assert(mid.val_view()[ki as int] == pre.val_view()[pre.index_of(f)]);
                        } else {
                            assert(self.sels_home(sv.take(i as int), f).len() == 0);
                            assert(self.sels_home(sv.take(i as int), f) =~= Seq::<Seq<u8>>::empty());
                        }
                        assert(self.sels_home(sv.take(i + 1), f) =~= self.sels_home(
                            sv.take(i as int),
                            f,
                        ).push(x));
                    } else {
                        assert(self.sels_home(sv.take(i + 1), f) =~= self.sels_home(
                            sv.take(i as int),
                            f,
                        ));
                        assert(pre.contains_key(f));
                        pre.lemma_contains_index(f);
                        let p = pre.index_of(f);
                        assert(mid.contains_key(f));
                        if pre.contains_key(home@) {
                            assert(p != ki as int) by {
                                if p == ki as int {
                                    pre.lemma_index_of(home@, ki as int);
                                }
                            }
                            mid.lemma_index_of(f, p);
                            assert(g.val_view()[p] == mid.val_view()[p]);
                            assert(mid.val_view()[p] == pre.val_view()[p]);
                        } else {
                            let p2 = mid.index_of(f);
                            mid.lemma_contains_index(f);
                            assert(p2 != ki as int) by {
                                if p2 == ki as int {
                                    mid.lemma_index_of(home@, ki as int);
                                }
                            }
                            assert(g.val_view()[p2] == mid.val_view()[p2]);
                            assert(mid.val_view()[mid.index_of(f)]
                                == pre.val_view()[pre.index_of(f)]);
                        }
                    }
                }
            }
            i = i + 1;
        }
        proof {
            assert(sv.take(sv.len() as int) =~= sv);
        }
        g
    }

    /// Re-canonicalise the root; a no-op on well-formed closets.
    pub fn reduce(&self) -> (r: Closet)
        requires
            self.inv(),
        ensures
            r.inv(),
            r.same_as_index_of(*self),
            r.spec_root().eqv(self.spec_root()),
            forall|s: Set<Seq<u8>>| #[trigger] r.spec_root().sat(s) == self.spec_root().sat(s),
    {
        self.with_root(self.root.reduce())
    }
}

/// The first `p` entries of `ss`, as a set.
pub open spec fn prefix_set(ss: Seq<Seq<u8>>, p: int) -> Set<Seq<u8>>
    decreases p,
{
    if p <= 0 {
        Set::empty()
    } else {
        prefix_set(ss, p - 1).insert(ss[p - 1])
    }
}

/// Membership in a prefix set.
pub proof fn lemma_prefix_set_mem(ss: Seq<Seq<u8>>, p: int, x: Seq<u8>)
    ensures
        prefix_set(ss, p).contains(x) <==> exists|k: int| 0 <= k < p && ss[k] == x,
    decreases p,
{
    if p > 0 {
        lemma_prefix_set_mem(ss, p - 1, x);
        if prefix_set(ss, p).contains(x) {
            if x == ss[p - 1] {
                assert(0 <= p - 1 < p && ss[p - 1] == x);
            }
        }
        if exists|k: int| 0 <= k < p && ss[k] == x {
            let k = choose|k: int| 0 <= k < p && ss[k] == x;
            if k < p - 1 {
                assert(prefix_set(ss, p - 1).contains(x));
            }
        }
    }
}

impl Closet {
    /// Some admissible assignment extends `ps`.
    pub open spec fn compatible(self, ps: Set<Seq<u8>>) -> bool {
        exists|t: Set<Seq<u8>>| #[trigger] self.spec_root().sat(t) && ps.subset_of(t)
    }

    /// A selection's home family is `f`.
    pub open spec fn family_selected(self, sels: Set<Seq<u8>>, f: Seq<u8>) -> bool {
        exists|x: Seq<u8>| sels.contains(x) && self.has_item(x) && self.home_of(x) == f
    }

    pub open spec fn selected_of(self, sels: Set<Seq<u8>>, f: Seq<u8>) -> Seq<u8> {
        choose|x: Seq<u8>| sels.contains(x) && self.has_item(x) && self.home_of(x) == f
    }

    /// The first catalog item of family `f`, scanning the index from
    /// position `i`, whose choice stays compatible with `fixed`.  The index
    /// is sorted by item name (`lemma_index_sorted`), so this picks the
    /// compatible item with the least name: the family's lowest-priority
    /// item under the global order.
    pub open spec fn pick_from(self, f: Seq<u8>, fixed: Set<Seq<u8>>, i: int) -> Option<Seq<u8>>
        decreases self.item_count() - i,
    {
        if i < 0 || i >= self.item_count() {
            None
        } else if self.home_at(i) == f && self.compatible(fixed.insert(self.item_at(i))) {
            Some(self.item_at(i))
        } else {
            self.pick_from(f, fixed, i + 1)
        }
    }

    /// The deterministic completion: for each family in ascending name
    /// order, the selected item if any, else the lowest-priority compatible
    /// item (ascending item-name order over the index); `None` when a
    /// family cannot be filled.
    pub open spec fn complete_from(
        self,
        sels: Set<Seq<u8>>,
        fams: Seq<Seq<u8>>,
        fixed: Set<Seq<u8>>,
        fi: int,
    ) -> Option<Seq<Seq<u8>>>
        decreases fams.len() - fi,
    {
        if fi < 0 || fi >= fams.len() {
            Some(Seq::empty())
        } else {
            let cho = if self.family_selected(sels, fams[fi]) {
                Some(self.selected_of(sels, fams[fi]))
            } else {
                self.pick_from(fams[fi], fixed, 0)
            };
            match cho {
                Option::None => None,
                Option::Some(x) => match self.complete_from(sels, fams, fixed.insert(x), fi + 1) {
                    Option::None => None,
                    Option::Some(rest) => Some(seq![x] + rest),
                },
            }
        }
    }

    /// `fams` is the sorted list of the catalog's family names.
    pub open spec fn is_family_list(self, fams: Seq<Seq<u8>>) -> bool {
        &&& forall|p: int, q: int|
            0 <= p < q < fams.len() ==> crate::order::lex_lt(
                #[trigger] fams[p],
                #[trigger] fams[q],
            )
        &&& forall|x: Seq<u8>|
            #[trigger] fams.contains(x) <==> exists|i: int|
                0 <= i < self.item_count() && self.home_at(i) == x
    }

    /// The sorted family names, each with a representative `Family` value.
    fn collect_families(&self) -> (fams: KeyedVec<Family>)
        requires
            self.inv(),
        ensures
            fams.wf(),
            forall|x: Seq<u8>|
                #[trigger] fams.contains_key(x) <==> exists|i: int|
                    0 <= i < self.item_count() && self.home_at(i) == x,
    {
        let mut fams: KeyedVec<Family> = KeyedVec::new();
        let n = self.item_index.len();
        let mut i: usize = 0;
        while i < n
            invariant
                self.inv(),
                n == self.item_count(),
                0 <= i <= n,
                fams.wf(),
                forall|x: Seq<u8>|
                    #[trigger] fams.contains_key(x) <==> exists|k: int|
                        0 <= k < i && self.home_at(k) == x,
            decreases n - i,
        {
            proof {
                self.item_index.lemma_wf_lens();
            }
            let home = self.item_index.val_at(i);
            let ghost pre = fams;
            let ki = fams.ensure_key(crate::items::family_bytes(home), home.clone());
            proof {
                if !pre.contains_key(home@) {
                    KeyedVec::<Family>::lemma_insert_effect(
                        pre,
                        fams,
                        ki as int,
                        home@,
                        fams.val_view()[ki as int],
                    );
                }
                assert(home@ == self.home_at(i as int));
                assert forall|x: Seq<u8>|
                    #[trigger] fams.contains_key(x) <==> exists|k: int|
                        0 <= k < i + 1 && self.home_at(k) == x by {
                    if fams.contains_key(x) {
                        if x == home@ {
                            assert(self.home_at(i as int) == x);
                        } else {
                            assert(pre.contains_key(x));
                            let k = choose|k: int| 0 <= k < i && self.home_at(k) == x;
                            assert(0 <= k < i + 1 && self.home_at(k) == x);
                        }
                    }
                    if exists|k: int| 0 <= k < i + 1 && self.home_at(k) == x {
                        let k = choose|k: int| 0 <= k < i + 1 && self.home_at(k) == x;
                        if k < i {
                            assert(pre.contains_key(x));
                        }
                    }
                }
            }
            i = i + 1;
        }
        fams
    }

    /// The families holding two or more selections, with their selections.
    fn collect_multis(g: &KeyedVec<Vec<Item>>) -> (m: Vec<(Family, Vec<Item>)>)
        requires
            g.wf(),
        ensures
            forall|k1: int, k2: int|
                0 <= k1 < k2 < m@.len() ==> crate::order::lex_lt(
                    #[trigger] m@[k1].0@,
                    #[trigger] m@[k2].0@,
                ),
            forall|k: int|
                0 <= k < m@.len() ==> (#[trigger] g.contains_key(m@[k].0@) && items_view(
                    m@[k].1@,
                ) == items_view(g.val_view()[g.index_of(m@[k].0@)]@) && m@[k].1@.len() >= 2),
            forall|ki: int|
                0 <= ki < g.spec_len() && g.val_view()[ki]@.len() >= 2
                    ==> multi_keys(m@).contains(#[trigger] g.key_view()[ki]),
    {
        proof {
            g.lemma_wf_lens();
        }
        let mut m: Vec<(Family, Vec<Item>)> = Vec::new();
        let ghost mut rows: Seq<int> = Seq::empty();
        let n = g.len();
        let mut ki: usize = 0;
        while ki < n
            invariant
                g.wf(),
                g.val_view().len() == n,
                n == g.spec_len(),
                0 <= ki <= n,
                rows.len() == m@.len(),
                forall|k: int|
                    0 <= k < m@.len() ==> 0 <= #[trigger] rows[k] < ki && m@[k].0@
                        == g.key_view()[rows[k]],
                forall|k1: int, k2: int|
                    0 <= k1 < k2 < rows.len() ==> #[trigger] rows[k1] < #[trigger] rows[k2],
                forall|k: int|
                    0 <= k < m@.len() ==> (#[trigger] g.contains_key(m@[k].0@) && items_view(
                        m@[k].1@,
                    ) == items_view(g.val_view()[g.index_of(m@[k].0@)]@) && m@[k].1@.len() >= 2),
                forall|k2: int|
                    0 <= k2 < ki && g.val_view()[k2]@.len() >= 2 ==> multi_keys(m@).contains(
                        #[trigger] g.key_view()[k2],
                    ),
            decreases n - ki,
        {
            let list = g.val_at(ki);
            let ghost before = m@;
            if list.len() >= 2 {
                let fam = Family::from_bytes(g.key_at(ki));
                let copy = crate::items::clone_items(list);
                m.push((fam, copy));
                proof {
                    rows = rows.push(ki as int);
                    g.lemma_index_of(g.key_view()[ki as int], ki as int);
                    assert(m@[before.len() as int].0@ == g.key_view()[ki as int]);
                    assert(items_view(copy@).len() == items_view(list@).len());
                    assert forall|k: int|
                        0 <= k < m@.len() implies 0 <= #[trigger] rows[k] < ki + 1 && m@[k].0@
                        == g.key_view()[rows[k]] by {
                        if k < before.len() {
                            assert(m@[k] == before[k]);
                        }
                    }
                    assert forall|k1: int, k2: int|
                        0 <= k1 < k2 < m@.len() implies crate::order::lex_lt(
                        #[trigger] m@[k1].0@,
                        #[trigger] m@[k2].0@,
                    ) by {
                        assert(m@[k1] == if k1 < before.len() {
                            before[k1]
                        } else {
                            m@[k1]
                        });
                        g.lemma_sorted(rows[k1], rows[k2]);
                    }
                    assert forall|k: int|
                        0 <= k < m@.len() implies (#[trigger] g.contains_key(m@[k].0@)
                        && items_view(m@[k].1@) == items_view(
                        g.val_view()[g.index_of(m@[k].0@)]@,
                    ) && m@[k].1@.len() >= 2) by {
                        if k < before.len() {
                            assert(m@[k] == before[k]);
                        }
                    }
                    assert forall|k2: int|
                        0 <= k2 < ki + 1 && g.val_view()[k2]@.len() >= 2 implies multi_keys(
                        m@,
                    ).contains(#[trigger] g.key_view()[k2]) by {
                        if k2 < ki {
                            let w = choose|w: int|
                                0 <= w < multi_keys(before).len() && multi_keys(before)[w]
                                    == g.key_view()[k2];
                            assert(multi_keys(m@)[w] == multi_keys(before)[w]);
                        } else {
                            assert(multi_keys(m@)[before.len() as int] == g.key_view()[k2]);
                        }
                    }
                }
            } else {
                proof {
                    assert forall|k2: int|
                        0 <= k2 < ki + 1 && g.val_view()[k2]@.len() >= 2 implies multi_keys(
                        m@,
                    ).contains(#[trigger] g.key_view()[k2]) by {
                        assert(g.val_view()[ki as int]@.len() < 2);
                    }
                }
            }
            ki = ki + 1;
        }
        proof {
            assert forall|k1: int, k2: int|
                0 <= k1 < k2 < m@.len() implies crate::order::lex_lt(
                #[trigger] m@[k1].0@,
                #[trigger] m@[k2].0@,
            ) by {
                g.lemma_sorted(rows[k1], rows[k2]);
            }
        }
        m
    }
}

/// The family names of a multiplicity report.
pub open spec fn multi_keys(m: Seq<(Family, Vec<Item>)>) -> Seq<Seq<u8>> {
    m.map_values(|p: (Family, Vec<Item>)| p.0@)
}

/// Append the completion suffix to an already-fixed prefix.
pub open spec fn lift_completion(prefix: Seq<Seq<u8>>, rest: Option<Seq<Seq<u8>>>) -> Option<
    Seq<Seq<u8>>,
> {
    match rest {
        Option::None => Option::None,
        Option::Some(r) => Option::Some(prefix + r),
    }
}

/// A selection with home `f` occurs in `sels_home(sv, f)`.
proof fn lemma_sels_home_mem(c: Closet, sv: Seq<Seq<u8>>, f: Seq<u8>, y: Seq<u8>)
    requires
        sv.contains(y),
        c.has_item(y),
        c.home_of(y) == f,
    ensures
        c.sels_home(sv, f).contains(y),
    decreases sv.len(),
{
    let w = choose|w: int| 0 <= w < sv.len() && sv[w] == y;
    if w == sv.len() - 1 {
        let tail = if c.has_item(sv.last()) && c.home_of(sv.last()) == f {
            seq![sv.last()]
        } else {
            Seq::<Seq<u8>>::empty()
        };
        assert(tail[0] == y);
        assert(c.sels_home(sv, f)[c.sels_home(sv.drop_last(), f).len() as int] == y);
    } else {
        assert(sv.drop_last()[w] == y);
        assert(sv.drop_last().contains(y));
        lemma_sels_home_mem(c, sv.drop_last(), f, y);
        let pre = c.sels_home(sv.drop_last(), f);
        let v = choose|v: int| 0 <= v < pre.len() && pre[v] == y;
        assert(c.sels_home(sv, f)[v] == y);
    }
}

/// A sequence holding two distinct values has at least two entries.
proof fn lemma_two_mem_len(s: Seq<Seq<u8>>, a: Seq<u8>, b: Seq<u8>)
    requires
        s.contains(a),
        s.contains(b),
        a != b,
    ensures
        s.len() >= 2,
{
    let i = choose|i: int| 0 <= i < s.len() && s[i] == a;
    let j = choose|j: int| 0 <= j < s.len() && s[j] == b;
    assert(i != j);
}

impl Closet {
    /// Apply the selections one by one; stop at the first prefix
    /// that leaves the diagram unsatisfiable.
    /// One conditioning step: fix `x` to true, failing when that leaves
    /// the diagram unsatisfiable.
    #[verifier::rlimit(100)]
    #[verifier::spinoff_prover]
    fn select_step(&self, cur: Node, x: &Item, Ghost(ps): Ghost<Set<Seq<u8>>>) -> (r: Result<
        Node,
        (),
    >)
        requires
            cur.wf(),
            forall|s: Set<Seq<u8>>| #[trigger] cur.sat(s) == self.spec_root().sat(s.union(ps)),
        ensures
            match r {
                Result::Ok(c2) => {
                    &&& c2.wf()
                    &&& forall|s: Set<Seq<u8>>| #[trigger] c2.sat(s) == self.spec_root().sat(
                        s.union(ps.insert(x@)),
                    )
                    &&& self.compatible(ps.insert(x@))
                },
                Result::Err(_) => !self.compatible(ps.insert(x@)),
            },
    {
        let c2 = cur.restrict(x, true);
        proof {
            assert forall|s: Set<Seq<u8>>| #[trigger] c2.sat(s) == self.spec_root().sat(
                s.union(ps.insert(x@)),
            ) by {
                assert(c2.sat(s) == cur.sat(s.insert(x@)));
                assert(s.insert(x@).union(ps) =~= s.union(ps.insert(x@)));
            }
        }
        if node_is_false(&c2) {
            proof {
                assert(!self.compatible(ps.insert(x@))) by {
                    if self.compatible(ps.insert(x@)) {
                        let t = choose|t: Set<Seq<u8>>|
                            self.spec_root().sat(t) && ps.insert(x@).subset_of(t);
                        assert(t.union(ps.insert(x@)) =~= t);
                        assert(c2.sat(t) == self.spec_root().sat(t.union(ps.insert(x@))));
                    }
                }
            }
            Err(())
        } else {
            proof {
                crate::bdd::lemma_nonfalse_sat(c2);
                assert(self.compatible(ps.insert(x@))) by {
                    let s = choose|s: Set<Seq<u8>>| c2.sat(s);
                    let t = s.union(ps.insert(x@));
                    assert(self.spec_root().sat(t));
                    assert(ps.insert(x@).subset_of(t));
                }
            }
            Ok(c2)
        }
    }

    /// Apply the selections one by one, in selection order; stop at the
    /// first prefix that leaves the diagram unsatisfiable.
    #[verifier::rlimit(100)]
    #[verifier::spinoff_prover]
    fn apply_selections(&self, selections: &Vec<Item>) -> (r: Result<Node, Vec<Item>>)
        requires
            self.spec_root().wf(),
        ensures
            ({
                let ss = items_view(selections@);
                match r {
                    Result::Ok(cur) => {
                        &&& cur.wf()
                        &&& forall|s: Set<Seq<u8>>| #[trigger] cur.sat(s)
                            == self.spec_root().sat(s.union(prefix_set(ss, ss.len() as int)))
                        &&& self.compatible(prefix_set(ss, ss.len() as int))
                    },
                    Result::Err(v) => exists|p: int|
                        #![trigger ss.take(p)]
                        0 <= p <= ss.len() && items_view(v@) == ss.take(p) && !self.compatible(
                            prefix_set(ss, p),
                        ) && (p > 0 ==> self.compatible(prefix_set(ss, p - 1))),
                }
            }),
    {
        let ghost ss = items_view(selections@);
        let mut cur = self.root.clone();
        let mut applied: Vec<Item> = Vec::new();
        proof {
            crate::bdd::lemma_eqv_props(cur, self.root);
            assert(items_view(applied@) =~= ss.take(0));
            assert forall|s: Set<Seq<u8>>| #[trigger] cur.sat(s) == self.spec_root().sat(
                s.union(prefix_set(ss, 0)),
            ) by {
                assert(s.union(prefix_set(ss, 0)) =~= s);
            }
        }
        if node_is_false(&cur) {
            proof {
                assert(!self.compatible(prefix_set(ss, 0))) by {
                    if self.compatible(prefix_set(ss, 0)) {
                        let t = choose|t: Set<Seq<u8>>|
                            self.spec_root().sat(t) && prefix_set(ss, 0).subset_of(t);
                        assert(t.union(prefix_set(ss, 0)) =~= t);
                        assert(cur.sat(t) == self.spec_root().sat(t.union(prefix_set(ss, 0))));
                    }
                }
                assert(items_view(applied@) == ss.take(0));
                assert(exists|pw: int|
                    #![trigger ss.take(pw)]
                    0 <= pw <= ss.len() && items_view(applied@) == ss.take(pw)
                        && !self.compatible(prefix_set(ss, pw)) && (pw > 0
                        ==> self.compatible(prefix_set(ss, pw - 1)))) by {
                    assert(0 <= 0 <= ss.len() && items_view(applied@) == ss.take(0)
                        && !self.compatible(prefix_set(ss, 0)));
                };
            }
            return Err(applied);
        }
        proof {
            crate::bdd::lemma_nonfalse_sat(cur);
            assert(self.compatible(prefix_set(ss, 0))) by {
                let s = choose|s: Set<Seq<u8>>| cur.sat(s);
                let t = s.union(prefix_set(ss, 0));
                assert(self.spec_root().sat(t));
                assert(prefix_set(ss, 0).subset_of(t));
            }
        }
        let mut p: usize = 0;
        while p < selections.len()
            invariant
                ss == items_view(selections@),
                0 <= p <= selections@.len(),
                items_view(applied@) == ss.take(p as int),
                cur.wf(),
                forall|s: Set<Seq<u8>>| #[trigger] cur.sat(s) == self.spec_root().sat(
                    s.union(prefix_set(ss, p as int)),
                ),
                self.compatible(prefix_set(ss, p as int)),
            decreases selections@.len() - p,
        {
            let ghost x = ss[p as int];
            let ghost abefore = applied@;
            applied.push(selections[p].clone());
            proof {
                assert(selections@[p as int]@ == x);
                assert(items_view(applied@) =~= items_view(abefore).push(x));
                assert(ss.take(p + 1) =~= ss.take(p as int).push(x));
                assert(prefix_set(ss, p + 1) == prefix_set(ss, p as int).insert(x));
            }
            cur = match self.select_step(cur, &selections[p], Ghost(prefix_set(ss, p as int))) {
                Ok(c2) => c2,
                Err(_) => {
                    proof {
                        assert(items_view(applied@) == ss.take(p + 1));
                        assert(!self.compatible(prefix_set(ss, p + 1)));
                        assert(self.compatible(prefix_set(ss, p + 1 - 1)));
                        assert(0 <= p + 1 <= ss.len());
                        assert(exists|pw: int|
                            #![trigger ss.take(pw)]
                            0 <= pw <= ss.len() && items_view(applied@) == ss.take(pw)
                                && !self.compatible(prefix_set(ss, pw)) && (pw > 0
                                ==> self.compatible(prefix_set(ss, pw - 1)))) by {
                            assert(0 <= p + 1 <= ss.len() && items_view(applied@) == ss.take(
                                p + 1,
                            ) && !self.compatible(prefix_set(ss, p + 1)) && (p + 1 > 0
                                ==> self.compatible(prefix_set(ss, p + 1 - 1))));
                        };
                    }
                    return Err(applied);
                },
            };
            p = p + 1;
        }
        proof {
            assert(ss.take(ss.len() as int) =~= ss);
        }
        Ok(cur)
    }

    /// The unique selection whose home is the family at hand, if any.
    fn pick_selected(&self, selections: &Vec<Item>, fkey: &[u8]) -> (r: Option<Item>)
        requires
            self.inv(),
            forall|f2: Seq<u8>|
                #[trigger] self.sels_home(items_view(selections@), f2).len() <= 1,
        ensures
            ({
                let ss = items_view(selections@);
                let sels = prefix_set(ss, ss.len() as int);
                match r {
                    Option::Some(x) => self.family_selected(sels, fkey@) && self.selected_of(
                        sels,
                        fkey@,
                    ) == x@,
                    Option::None => !self.family_selected(sels, fkey@),
                }
            }),
    {
        let ghost sv = items_view(selections@);
        let ghost ss = sv;
        let ghost sels = prefix_set(ss, ss.len() as int);
        let ghost f = fkey@;
        let mut chosen: Option<Item> = None;
        let mut q: usize = 0;
        while q < selections.len() && chosen.is_none()
            invariant
                self.inv(),
                ss == items_view(selections@),
                0 <= q <= selections@.len(),
                f == fkey@,
                match chosen {
                    Option::Some(x0) => ss.contains(x0@) && self.has_item(x0@) && self.home_of(
                        x0@,
                    ) == f,
                    Option::None => forall|q2: int|
                        0 <= q2 < q ==> !(self.has_item(#[trigger] ss[q2]) && self.home_of(
                            ss[q2],
                        ) == f),
                },
            decreases selections@.len() - q, (if chosen is None {
                1int
            } else {
                0int
            }),
        {
            proof {
                assert(selections@[q as int]@ == ss[q as int]);
            }
            let mut hit = false;
            match self.get_family(&selections[q]) {
                Some(h) => {
                    if crate::order::bytes_eq(crate::items::family_bytes(h), fkey) {
                        hit = true;
                    }
                },
                None => {},
            }
            if hit {
                chosen = Some(selections[q].clone());
                proof {
                    assert(ss[q as int] == chosen->Some_0@);
                    assert(ss.contains(chosen->Some_0@));
                }
            } else {
                q = q + 1;
            }
        }
        proof {
            if chosen is Some {
                let xv = chosen->Some_0@;
                {
                    assert(ss.contains(xv) && self.has_item(xv) && self.home_of(xv) == f);
                    assert(sels.contains(xv)) by {
                        let w = choose|w: int| 0 <= w < ss.len() && ss[w] == xv;
                        lemma_prefix_set_mem(ss, ss.len() as int, xv);
                    }
                    assert(self.family_selected(sels, f)) by {
                        assert(sels.contains(xv) && self.has_item(xv) && self.home_of(xv) == f);
                    }
                    assert(self.selected_of(sels, f) == xv) by {
                        let y = self.selected_of(sels, f);
                        assert(sels.contains(y) && self.has_item(y) && self.home_of(y) == f);
                        if y != xv {
                            assert(ss.contains(y)) by {
                                lemma_prefix_set_mem(ss, ss.len() as int, y);
                                let w = choose|w: int| 0 <= w < ss.len() && ss[w] == y;
                                assert(ss[w] == y);
                            }
                            assert(sv.contains(y));
                            assert(sv.contains(xv));
                            lemma_sels_home_mem(*self, sv, f, y);
                            lemma_sels_home_mem(*self, sv, f, xv);
                            lemma_two_mem_len(self.sels_home(sv, f), y, xv);
                        }
                    }
                }
            } else {
                assert(!self.family_selected(sels, f)) by {
                    if self.family_selected(sels, f) {
                        let y = choose|y: Seq<u8>|
                            sels.contains(y) && self.has_item(y) && self.home_of(y) == f;
                        let n = ss.len() as int;
                        lemma_prefix_set_mem(ss, n, y);
                        assert(prefix_set(ss, n).contains(y));
                        let w = choose|w: int| 0 <= w < n && ss[w] == y;
                        assert(0 <= w < ss.len() && ss[w] == y);
                        assert(!(self.has_item(ss[w]) && self.home_of(ss[w]) == f));
                    }
                }
            }
        }
        chosen
    }

    /// The first catalog item of the family that keeps `cur` satisfiable.
    fn pick_compatible(
        &self,
        cur: &Node,
        fkey: &[u8],
        Ghost(fixed): Ghost<Set<Seq<u8>>>,
    ) -> (r: Option<Item>)
        requires
            self.inv(),
            cur.wf(),
            forall|s: Set<Seq<u8>>| #[trigger] cur.sat(s) == self.spec_root().sat(
                s.union(fixed),
            ),
        ensures
            match r {
                Option::Some(x) => self.pick_from(fkey@, fixed, 0) == Option::Some(x@),
                Option::None => self.pick_from(fkey@, fixed, 0) == Option::<Seq<u8>>::None,
            },
    {
        let ghost f = fkey@;
        let ni = self.item_index.len();
        let mut i: usize = 0;
        let mut found: Option<Item> = None;
        while i < ni && found.is_none()
            invariant
                self.inv(),
                ni == self.item_count(),
                0 <= i <= ni,
                f == fkey@,
                cur.wf(),
                forall|s: Set<Seq<u8>>| #[trigger] cur.sat(s) == self.spec_root().sat(
                    s.union(fixed),
                ),
                found is None ==> self.pick_from(f, fixed, 0) == self.pick_from(
                    f,
                    fixed,
                    i as int,
                ),
                match found {
                    Option::Some(it) => self.pick_from(f, fixed, 0) == Option::Some(it@),
                    Option::None => true,
                },
            decreases ni - i, (if found is None {
                1int
            } else {
                0int
            }),
        {
            proof {
                self.item_index.lemma_wf_lens();
            }
            let home = self.item_index.val_at(i);
            if crate::order::bytes_eq(crate::items::family_bytes(home), fkey) {
                let cand = Item::from_bytes(self.item_index.key_at(i));
                let trial = cur.restrict(&cand, true);
                if !node_is_false(&trial) {
                    proof {
                        crate::bdd::lemma_nonfalse_sat(trial);
                        assert(self.compatible(fixed.insert(cand@))) by {
                            let s = choose|s: Set<Seq<u8>>| trial.sat(s);
                            assert(trial.sat(s) == cur.sat(s.insert(cand@)));
                            let t = s.insert(cand@).union(fixed);
                            assert(self.spec_root().sat(t));
                            assert(fixed.insert(cand@).subset_of(t));
                        }
                        assert(self.home_at(i as int) == f);
                        assert(self.item_at(i as int) == cand@);
                    }
                    found = Some(cand);
                } else {
                    proof {
                        assert(!self.compatible(fixed.insert(cand@))) by {
                            if self.compatible(fixed.insert(cand@)) {
                                let t = choose|t: Set<Seq<u8>>|
                                    self.spec_root().sat(t) && fixed.insert(cand@).subset_of(t);
                                assert(t.insert(cand@).union(fixed) =~= t);
                                assert(trial.sat(t) == cur.sat(t.insert(cand@)));
                            }
                        }
                        assert(self.pick_from(f, fixed, i as int) == self.pick_from(
                            f,
                            fixed,
                            i + 1,
                        ));
                    }
                    i = i + 1;
                }
            } else {
                proof {
                    assert(self.home_at(i as int) != f);
                    assert(self.pick_from(f, fixed, i as int) == self.pick_from(f, fixed, i + 1));
                }
                i = i + 1;
            }
        }
        proof {
            if found is None {
                assert(self.pick_from(f, fixed, ni as int) == Option::<Seq<u8>>::None);
            }
        }
        found
    }

    /// Fill every family in name order; `Err` when some family has no
    /// compatible item left.
    fn fill_families(&self, cur0: Node, selections: &Vec<Item>) -> (r: Result<Vec<Item>, ()>)
        requires
            self.inv(),
            forall|f2: Seq<u8>|
                #[trigger] self.sels_home(items_view(selections@), f2).len() <= 1,
            cur0.wf(),
            forall|s: Set<Seq<u8>>| #[trigger] cur0.sat(s) == self.spec_root().sat(
                s.union(
                    prefix_set(
                        items_view(selections@),
                        items_view(selections@).len() as int,
                    ),
                ),
            ),
        ensures
            ({
                let ss = items_view(selections@);
                let sels = prefix_set(ss, ss.len() as int);
                match r {
                    Result::Ok(items) => exists|fams: Seq<Seq<u8>>|
                        #[trigger] self.is_family_list(fams) && self.complete_from(
                            sels,
                            fams,
                            sels,
                            0,
                        ) == Option::Some(items_view(items@)),
                    Result::Err(_) => exists|fams: Seq<Seq<u8>>|
                        #[trigger] self.is_family_list(fams) && self.complete_from(
                            sels,
                            fams,
                            sels,
                            0,
                        ) == Option::<Seq<Seq<u8>>>::None,
                }
            }),
    {
        let ghost sv = items_view(selections@);
        let ghost ss = sv;
        let ghost sels = prefix_set(ss, ss.len() as int);
        let fams = self.collect_families();
        let ghost famv = fams.key_view();
        proof {
            fams.lemma_wf_lens();
            assert(self.is_family_list(famv)) by {
                assert forall|p2: int, q2: int|
                    0 <= p2 < q2 < famv.len() implies crate::order::lex_lt(
                    #[trigger] famv[p2],
                    #[trigger] famv[q2],
                ) by {
                    fams.lemma_sorted(p2, q2);
                }
                assert forall|f: Seq<u8>| #[trigger] famv.contains(f) implies exists|i: int|
                    0 <= i < self.item_count() && self.home_at(i) == f by {
                    let w = choose|w: int| 0 <= w < famv.len() && famv[w] == f;
                    assert(fams.contains_key(f));
                }
                assert forall|f: Seq<u8>|
                    (exists|i: int| 0 <= i < self.item_count() && self.home_at(i) == f)
                        implies #[trigger] famv.contains(f) by {
                    assert(fams.contains_key(f));
                    fams.lemma_contains_index(f);
                    assert(famv[fams.index_of(f)] == f);
                }
            }
        }
        let mut cur = cur0;
        let ghost mut fixed = sels;
        let mut out_items: Vec<Item> = Vec::new();
        let nf = fams.len();
        let mut fi: usize = 0;
        proof {
            assert(self.complete_from(sels, famv, sels, 0) == lift_completion(
                items_view(out_items@),
                self.complete_from(sels, famv, fixed, 0),
            )) by {
                assert(items_view(out_items@) =~= Seq::<Seq<u8>>::empty());
                if self.complete_from(sels, famv, fixed, 0) is Some {
                    let rest = self.complete_from(sels, famv, fixed, 0)->Some_0;
                    assert(Seq::<Seq<u8>>::empty() + rest =~= rest);
                }
            }
        }
        while fi < nf
            invariant
                self.inv(),
                ss == items_view(selections@),
                sv == items_view(selections@),
                sels == prefix_set(ss, ss.len() as int),
                forall|f2: Seq<u8>| #[trigger] self.sels_home(sv, f2).len() <= 1,
                fams.wf(),
                famv == fams.key_view(),
                nf == famv.len(),
                self.is_family_list(famv),
                0 <= fi <= nf,
                sels.subset_of(fixed),
                cur.wf(),
                forall|s: Set<Seq<u8>>| #[trigger] cur.sat(s) == self.spec_root().sat(
                    s.union(fixed),
                ),
                self.complete_from(sels, famv, sels, 0) == lift_completion(
                    items_view(out_items@),
                    self.complete_from(sels, famv, fixed, fi as int),
                ),
            decreases nf - fi,
        {
            let fkey = fams.key_at(fi);
            let ghost f = famv[fi as int];
            let ghost pre_fixed = fixed;
            let ghost pre_out = out_items@;
            let sel_hit = self.pick_selected(selections, fkey);
            match sel_hit {
                Some(x0) => {
                    let ghost xv = x0@;
                    proof {
                        assert(sels.contains(xv)) by {
                            assert(self.selected_of(sels, f) == xv);
                            assert(self.family_selected(sels, f));
                            let y = self.selected_of(sels, f);
                            assert(sels.contains(y));
                        }
                        assert(fixed.insert(xv) =~= fixed);
                        lemma_step_completion(*self, sels, famv, fixed, fi as int, xv, pre_out);
                        fixed = fixed.insert(xv);
                    }
                    out_items.push(x0);
                    proof {
                        assert(items_view(out_items@) =~= items_view(pre_out).push(xv));
                    }
                },
                None => {
                    let fnd = self.pick_compatible(&cur, fkey, Ghost(fixed));
                    match fnd {
                        Some(x1) => {
                            let ghost x1v = x1@;
                            proof {
                                lemma_step_completion(
                                    *self,
                                    sels,
                                    famv,
                                    fixed,
                                    fi as int,
                                    x1v,
                                    pre_out,
                                );
                                fixed = fixed.insert(x1v);
                            }
                            cur = cur.restrict(&x1, true);
                            proof {
                                assert forall|s: Set<Seq<u8>>| #[trigger] cur.sat(s)
                                    == self.spec_root().sat(s.union(fixed)) by {
                                    assert(s.insert(x1v).union(pre_fixed) =~= s.union(fixed));
                                }
                            }
                            out_items.push(x1);
                            proof {
                                assert(items_view(out_items@) =~= items_view(pre_out).push(x1v));
                            }
                        },
                        None => {
                            proof {
                                assert(self.complete_from(sels, famv, fixed, fi as int)
                                    == Option::<Seq<Seq<u8>>>::None);
                                assert(self.complete_from(sels, famv, sels, 0) == Option::<
                                    Seq<Seq<u8>>,
                                >::None);
                            }
                            return Err(());
                        },
                    }
                },
            }
            fi = fi + 1;
        }
        proof {
            assert(self.complete_from(sels, famv, fixed, nf as int) == Option::Some(
                Seq::<Seq<u8>>::empty(),
            ));
            assert(items_view(out_items@) + Seq::<Seq<u8>>::empty() =~= items_view(out_items@));
            assert(self.complete_from(sels, famv, sels, 0) == Option::Some(
                items_view(out_items@),
            ));
        }
        Ok(out_items)
    }

    /// Extend `selections` to a full outfit: one item per family, the
    /// selections kept, every other family filled deterministically with
    /// its lowest-priority item that keeps the diagram satisfiable.
    /// Priorities are name order: families are visited in ascending
    /// family-name order and candidate items tried in ascending item-name
    /// order.  An incompatible selection set is reported as its shortest
    /// failing prefix, in selection order.
    pub fn complete_outfit(&self, selections: Vec<Item>) -> (r: Result<Outfit, OutfitError>)
        requires
            self.inv(),
        ensures
            ({
                let sv = items_view(selections@);
                let ss = sv;
                let sels = prefix_set(ss, ss.len() as int);
                match r {
                    Result::Ok(outfit) => {
                        &&& self.spec_unknowns(sv).len() == 0
                        &&& forall|f: Seq<u8>| #[trigger] self.sels_home(sv, f).len() <= 1
                        &&& self.compatible(sels)
                        &&& exists|fams: Seq<Seq<u8>>|
                            #[trigger] self.is_family_list(fams) && self.complete_from(
                                sels,
                                fams,
                                sels,
                                0,
                            ) == Option::Some(outfit@)
                    },
                    Result::Err(e) => match e {
                        OutfitError::UnknownItems(u) => self.spec_unknowns(sv).len() > 0
                            && items_view(u@) == self.spec_unknowns(sv),
                        OutfitError::MultipleItemsPerFamily(m) => {
                            &&& self.spec_unknowns(sv).len() == 0
                            &&& exists|f: Seq<u8>| #[trigger] self.sels_home(sv, f).len() >= 2
                            &&& forall|k1: int, k2: int|
                                0 <= k1 < k2 < m@.len() ==> crate::order::lex_lt(
                                    #[trigger] m@[k1].0@,
                                    #[trigger] m@[k2].0@,
                                )
                            &&& forall|k: int|
                                0 <= k < m@.len() ==> #[trigger] items_view(m@[k].1@)
                                    == self.sels_home(sv, m@[k].0@) && items_view(m@[k].1@).len()
                                    >= 2
                            &&& forall|f: Seq<u8>|
                                #[trigger] self.sels_home(sv, f).len() >= 2 ==> multi_keys(
                                    m@,
                                ).contains(f)
                        },
                        OutfitError::IncompatibleSelections(v) => {
                            &&& self.spec_unknowns(sv).len() == 0
                            &&& forall|f: Seq<u8>| #[trigger] self.sels_home(sv, f).len() <= 1
                            &&& ((exists|p: int|
                                #![trigger ss.take(p)]
                                0 <= p <= ss.len() && items_view(v@) == ss.take(p)
                                    && !self.compatible(prefix_set(ss, p)) && (p > 0
                                    ==> self.compatible(prefix_set(ss, p - 1)))) || (items_view(
                                v@,
                            ) == ss && self.compatible(sels) && exists|fams: Seq<Seq<u8>>|
                                #[trigger] self.is_family_list(fams) && self.complete_from(
                                    sels,
                                    fams,
                                    sels,
                                    0,
                                ) == Option::<Seq<Seq<u8>>>::None))
                        },
                    },
                }
            }),
    {
        let ghost sv = items_view(selections@);
        let ghost ss = sv;
        let ghost sels = prefix_set(ss, ss.len() as int);
        // unknown selections
        let unknowns = self.find_unknowns(&selections);
        if unknowns.len() > 0 {
            return Err(OutfitError::UnknownItems(unknowns));
        }
        // more than one selection in some family
        let groups = self.group_selections(&selections);
        let multis = Self::collect_multis(&groups);
        if multis.len() > 0 {
            proof {
                assert forall|k: int|
                    0 <= k < multis@.len() implies #[trigger] items_view(multis@[k].1@)
                    == self.sels_home(sv, multis@[k].0@) && items_view(multis@[k].1@).len()
                    >= 2 by {
                    assert(groups.contains_key(multis@[k].0@));
                    groups.lemma_contains_index(multis@[k].0@);
                    assert(items_view(multis@[k].1@) == items_view(
                        groups.val_view()[groups.index_of(multis@[k].0@)]@,
                    ));
                    assert(items_view(groups.val_view()[groups.index_of(multis@[k].0@)]@)
                        == self.sels_home(sv, multis@[k].0@));
                    assert(items_view(multis@[k].1@).len() == multis@[k].1@.len());
                }
                let k0 = 0int;
                assert(items_view(multis@[k0].1@) == self.sels_home(sv, multis@[k0].0@));
                assert(self.sels_home(sv, multis@[k0].0@).len() >= 2);
                assert forall|f: Seq<u8>|
                    #[trigger] self.sels_home(sv, f).len() >= 2 implies multi_keys(
                    multis@,
                ).contains(f) by {
                    assert(self.sels_home(sv, f).len() > 0);
                    assert(groups.contains_key(f));
                    groups.lemma_contains_index(f);
                    let ki = groups.index_of(f);
                    assert(items_view(groups.val_view()[ki]@) == self.sels_home(sv, f));
                    assert(items_view(groups.val_view()[ki]@).len()
                        == groups.val_view()[ki]@.len());
                    assert(groups.val_view()[ki]@.len() >= 2);
                    assert(multi_keys(multis@).contains(groups.key_view()[ki]));
                }
            }
            return Err(OutfitError::MultipleItemsPerFamily(multis));
        }
        proof {
            assert forall|f: Seq<u8>| #[trigger] self.sels_home(sv, f).len() <= 1 by {
                if self.sels_home(sv, f).len() >= 2 {
                    assert(groups.contains_key(f));
                    groups.lemma_contains_index(f);
                    let ki = groups.index_of(f);
                    assert(items_view(groups.val_view()[ki]@).len() >= 2);
                    assert(groups.val_view()[ki]@.len() >= 2);
                    assert(multi_keys(multis@).contains(groups.key_view()[ki]));
                }
            }
        }
        // condition the diagram on each selection, in selection order
        let cur = match self.apply_selections(&selections) {
            Ok(c) => c,
            Err(v) => {
                return Err(OutfitError::IncompatibleSelections(v));
            },
        };
        // fill the families in name order
        match self.fill_families(cur, &selections) {
            Ok(items) => Ok(Outfit::new(items)),
            Err(_) => {
                let all = crate::items::clone_items(&selections);
                Err(OutfitError::IncompatibleSelections(all))
            },
        }
    }
}

/// One step of the completion recursion, lifted through the prefix.
proof fn lemma_step_completion(
    c: Closet,
    sels: Set<Seq<u8>>,
    famv: Seq<Seq<u8>>,
    fixed: Set<Seq<u8>>,
    fi: int,
    x: Seq<u8>,
    pre_out: Seq<Item>,
)
    requires
        0 <= fi < famv.len(),
        ({
            let cho = if c.family_selected(sels, famv[fi]) {
                Option::Some(c.selected_of(sels, famv[fi]))
            } else {
                c.pick_from(famv[fi], fixed, 0)
            };
            cho == Option::Some(x)
        }),
        c.complete_from(sels, famv, sels, 0) == lift_completion(
            items_view(pre_out),
            c.complete_from(sels, famv, fixed, fi),
        ),
    ensures
        c.complete_from(sels, famv, sels, 0) == lift_completion(
            items_view(pre_out).push(x),
            c.complete_from(sels, famv, fixed.insert(x), fi + 1),
        ),
{
    let rest = c.complete_from(sels, famv, fixed.insert(x), fi + 1);
    match rest {
        Option::None => {
            assert(c.complete_from(sels, famv, fixed, fi) == Option::<Seq<Seq<u8>>>::None);
        },
        Option::Some(tail) => {
            assert(c.complete_from(sels, famv, fixed, fi) == Option::Some(seq![x] + tail));
            assert(items_view(pre_out) + (seq![x] + tail) =~= items_view(pre_out).push(x) + tail);
        },
    }
}

/// Every selection in a fully-known list is a catalog item.
proof fn lemma_unknowns_mem(c: Closet, sv: Seq<Seq<u8>>, i: int)
    requires
        c.spec_unknowns(sv).len() == 0,
        0 <= i < sv.len(),
    ensures
        c.has_item(sv[i]),
    decreases sv.len(),
{
    if i == sv.len() - 1 {
        assert(sv.last() == sv[i]);
    } else {
        assert(c.spec_unknowns(sv.drop_last()).len() == 0);
        assert(sv.drop_last()[i] == sv[i]);
        lemma_unknowns_mem(c, sv.drop_last(), i);
    }
}

} // verus!
