//! Building a catalog of families, items and rules, and compiling it into
//! a decision diagram.
//!
//! The builder keeps four keyed maps: family contents, the item-to-family
//! index, and the exclusion and inclusion rule lists.  `build` validates the
//! catalog and emits a `Closet` whose diagram satisfies exactly the
//! admissible assignments (`admissible`): one item per family, no excluded
//! pair, every inclusion honoured.

use vstd::prelude::*;

use crate::items::{families_view, family_bytes, item_bytes, items_contains, items_view, Family,
    Item};
use crate::bdd::Node;
use crate::closet::Closet;
use crate::keyed::KeyedVec;

verus! {

/// Why a catalog was rejected by `build`.
#[derive(Debug)]
pub enum Error {
    /// Items whose list placement disagrees with their home family:
    /// `(item, [home_family, listed_family])`.
    ConflictingFamilies(Vec<(Item, Vec<Family>)>),
    /// Same-family inclusion rules: `(family, [item_a, item_b])`.
    InclusionError(Vec<(Family, Vec<Item>)>),
    /// Same-family exclusion rules: `(family, [item_a, item_b])`.
    ExclusionError(Vec<(Family, Vec<Item>)>),
}

pub struct ClosetBuilder {
    contents: KeyedVec<Vec<Item>>,
    item_index: KeyedVec<Family>,
    exclusions: KeyedVec<Vec<Item>>,
    inclusions: KeyedVec<Vec<Item>>,
}

/// The two builders carry the same catalog (families, items, homes).
pub open spec fn same_catalog(a: ClosetBuilder, b: ClosetBuilder) -> bool {
    &&& b.family_count() == a.family_count()
    &&& forall|i: int| #[trigger] b.family_at(i) == a.family_at(i)
    &&& forall|i: int| #[trigger] b.fam_items_at(i) == a.fam_items_at(i)
    &&& forall|g: Seq<u8>| #[trigger] b.has_family(g) == a.has_family(g)
    &&& forall|g: Seq<u8>| #[trigger] b.family_index(g) == a.family_index(g)
    &&& b.item_count() == a.item_count()
    &&& forall|i: int| #[trigger] b.item_at(i) == a.item_at(i)
    &&& forall|i: int| #[trigger] b.home_at(i) == a.home_at(i)
    &&& forall|x: Seq<u8>| #[trigger] b.has_item(x) == a.has_item(x)
    &&& forall|x: Seq<u8>| #[trigger] b.home_of(x) == a.home_of(x)
}

/// The two builders carry the same exclusion rules.
pub open spec fn same_excls(a: ClosetBuilder, b: ClosetBuilder) -> bool {
    &&& b.excl_count() == a.excl_count()
    &&& forall|i: int| #[trigger] b.excl_sel_at(i) == a.excl_sel_at(i)
    &&& forall|i: int| #[trigger] b.excl_items_at(i) == a.excl_items_at(i)
    &&& forall|s: Seq<u8>| #[trigger] b.excl_has(s) == a.excl_has(s)
    &&& forall|s: Seq<u8>| #[trigger] b.excls_of(s) == a.excls_of(s)
}

/// The two builders carry the same inclusion rules.
pub open spec fn same_incls(a: ClosetBuilder, b: ClosetBuilder) -> bool {
    &&& b.incl_count() == a.incl_count()
    &&& forall|i: int| #[trigger] b.incl_sel_at(i) == a.incl_sel_at(i)
    &&& forall|i: int| #[trigger] b.incl_items_at(i) == a.incl_items_at(i)
    &&& forall|s: Seq<u8>| #[trigger] b.incl_has(s) == a.incl_has(s)
    &&& forall|s: Seq<u8>| #[trigger] b.incls_of(s) == a.incls_of(s)
}

impl ClosetBuilder {
    // --- the abstract catalog ---------------------------------------------

    /// Number of families.
    pub closed spec fn family_count(self) -> nat {
        self.contents.spec_len()
    }

    /// The family name at position `i` (families are kept in name order).
    pub closed spec fn family_at(self, i: int) -> Seq<u8> {
        self.contents.key_view()[i]
    }

    /// The items declared under the family at position `i`, declaration
    /// order preserved.
    pub closed spec fn fam_items_at(self, i: int) -> Seq<Seq<u8>> {
        items_view(self.contents.val_view()[i]@)
    }

    pub closed spec fn has_family(self, f: Seq<u8>) -> bool {
        self.contents.contains_key(f)
    }

    pub closed spec fn family_index(self, f: Seq<u8>) -> int {
        self.contents.index_of(f)
    }

    pub open spec fn items_of(self, f: Seq<u8>) -> Seq<Seq<u8>> {
        self.fam_items_at(self.family_index(f))
    }

    pub closed spec fn has_item(self, it: Seq<u8>) -> bool {
        self.item_index.contains_key(it)
    }

    /// The position of a known item in the index.
    pub closed spec fn item_pos(self, it: Seq<u8>) -> int {
        self.item_index.index_of(it)
    }

    /// The home family stored at position `i` of the index.
    pub closed spec fn home_at(self, i: int) -> Seq<u8> {
        self.item_index.val_view()[i]@
    }

    /// The home family of a known item.
    pub closed spec fn home_of(self, it: Seq<u8>) -> Seq<u8> {
        self.item_index.val_view()[self.item_index.index_of(it)]@
    }

    pub closed spec fn item_count(self) -> nat {
        self.item_index.spec_len()
    }

    /// The item name at position `i` of the index (name order).
    pub closed spec fn item_at(self, i: int) -> Seq<u8> {
        self.item_index.key_view()[i]
    }

    // --- the rule lists ----------------------------------------------------

    pub closed spec fn excl_count(self) -> nat {
        self.exclusions.spec_len()
    }

    pub closed spec fn excl_sel_at(self, i: int) -> Seq<u8> {
        self.exclusions.key_view()[i]
    }

    pub closed spec fn excl_items_at(self, i: int) -> Seq<Seq<u8>> {
        items_view(self.exclusions.val_view()[i]@)
    }

    pub closed spec fn excl_has(self, sel: Seq<u8>) -> bool {
        self.exclusions.contains_key(sel)
    }

    pub closed spec fn excl_pos(self, sel: Seq<u8>) -> int {
        self.exclusions.index_of(sel)
    }

    pub closed spec fn excls_of(self, sel: Seq<u8>) -> Seq<Seq<u8>> {
        self.excl_items_at(self.exclusions.index_of(sel))
    }

    pub closed spec fn incl_count(self) -> nat {
        self.inclusions.spec_len()
    }

    pub closed spec fn incl_sel_at(self, i: int) -> Seq<u8> {
        self.inclusions.key_view()[i]
    }

    pub closed spec fn incl_items_at(self, i: int) -> Seq<Seq<u8>> {
        items_view(self.inclusions.val_view()[i]@)
    }

    pub closed spec fn incl_has(self, sel: Seq<u8>) -> bool {
        self.inclusions.contains_key(sel)
    }

    pub closed spec fn incl_pos(self, sel: Seq<u8>) -> int {
        self.inclusions.index_of(sel)
    }

    pub closed spec fn incls_of(self, sel: Seq<u8>) -> Seq<Seq<u8>> {
        self.incl_items_at(self.inclusions.index_of(sel))
    }

    // --- invariant ---------------------------------------------------------

    /// Well-formedness: sorted unique keys everywhere, unique items inside
    /// each family list, and every listed item known to the index.
    pub closed spec fn inv(self) -> bool {
        &&& self.contents.wf()
        &&& self.item_index.wf()
        &&& self.exclusions.wf()
        &&& self.inclusions.wf()
        &&& forall|i: int, j: int, k: int|
            0 <= i < self.family_count() && 0 <= j < k < self.fam_items_at(i).len()
                ==> #[trigger] self.fam_items_at(i)[j] != #[trigger] self.fam_items_at(i)[k]
        &&& forall|i: int, j: int|
            0 <= i < self.family_count() && 0 <= j < self.fam_items_at(i).len()
                ==> self.has_item(#[trigger] self.fam_items_at(i)[j])
    }

    /// A known family's index is a valid position holding that family.
    pub proof fn lemma_family_witness(self, f: Seq<u8>)
        requires
            self.has_family(f),
        ensures
            0 <= self.family_index(f) < self.family_count(),
            self.family_at(self.family_index(f)) == f,
            self.items_of(f) == self.fam_items_at(self.family_index(f)),
    {
        self.contents.lemma_contains_index(f);
    }

    /// Conversely, every position witnesses its family.
    pub proof fn lemma_family_at(self, i: int)
        requires
            self.inv(),
            0 <= i < self.family_count(),
        ensures
            self.has_family(self.family_at(i)),
            self.family_index(self.family_at(i)) == i,
            self.items_of(self.family_at(i)) == self.fam_items_at(i),
    {
        self.contents.lemma_index_of(self.family_at(i), i);
    }

    pub proof fn lemma_item_witness(self, it: Seq<u8>)
        requires
            self.has_item(it),
        ensures
            0 <= self.item_pos(it) < self.item_count(),
            self.item_at(self.item_pos(it)) == it,
            self.home_of(it) == self.home_at(self.item_pos(it)),
    {
        self.item_index.lemma_contains_index(it);
    }

    pub proof fn lemma_item_at(self, i: int)
        requires
            self.inv(),
            0 <= i < self.item_count(),
        ensures
            self.has_item(self.item_at(i)),
            self.home_of(self.item_at(i)) == self.home_at(i),
    {
        self.item_index.lemma_index_of(self.item_at(i), i);
    }

    /// Every rule row witnesses its own selection key.
    pub proof fn lemma_excl_at(self, i: int)
        requires
            self.inv(),
            0 <= i < self.excl_count(),
        ensures
            self.excl_has(self.excl_sel_at(i)),
            self.excl_pos(self.excl_sel_at(i)) == i,
            self.excls_of(self.excl_sel_at(i)) == self.excl_items_at(i),
    {
        self.exclusions.lemma_index_of(self.excl_sel_at(i), i);
    }

    pub proof fn lemma_incl_at(self, i: int)
        requires
            self.inv(),
            0 <= i < self.incl_count(),
        ensures
            self.incl_has(self.incl_sel_at(i)),
            self.incl_pos(self.incl_sel_at(i)) == i,
            self.incls_of(self.incl_sel_at(i)) == self.incl_items_at(i),
    {
        self.inclusions.lemma_index_of(self.incl_sel_at(i), i);
    }

    /// With no inclusion rules there is nothing illegal to report.
    pub proof fn lemma_no_incls_no_illegal(self)
        requires
            self.incl_count() == 0,
        ensures
            self.spec_illegal_incls().len() == 0,
    {
        assert(illegal_from(self.inclusions, self.item_index, 0) == Seq::<(
            Seq<u8>,
            Seq<Seq<u8>>,
        )>::empty());
        assert(dedup_pairs(illegal_from(self.inclusions, self.item_index, 0)).len() == 0);
    }

    /// With no exclusion rules there is nothing illegal to report.
    pub proof fn lemma_no_excls_no_illegal(self)
        requires
            self.excl_count() == 0,
        ensures
            self.spec_illegal_excls().len() == 0,
    {
        assert(illegal_from(self.exclusions, self.item_index, 0) == Seq::<(
            Seq<u8>,
            Seq<Seq<u8>>,
        )>::empty());
        assert(dedup_pairs(illegal_from(self.exclusions, self.item_index, 0)).len() == 0);
    }

    pub proof fn lemma_excl_witness(self, sel: Seq<u8>)
        requires
            self.inv(),
            self.excl_has(sel),
        ensures
            0 <= self.excl_pos(sel) < self.excl_count(),
            self.excl_sel_at(self.excl_pos(sel)) == sel,
            self.excls_of(sel) == self.excl_items_at(self.excl_pos(sel)),
    {
        self.exclusions.lemma_contains_index(sel);
    }

    pub proof fn lemma_incl_witness(self, sel: Seq<u8>)
        requires
            self.inv(),
            self.incl_has(sel),
        ensures
            0 <= self.incl_pos(sel) < self.incl_count(),
            self.incl_sel_at(self.incl_pos(sel)) == sel,
            self.incls_of(sel) == self.incl_items_at(self.incl_pos(sel)),
    {
        self.inclusions.lemma_contains_index(sel);
    }

    // --- construction ------------------------------------------------------

    pub fn new() -> (r: ClosetBuilder)
        ensures
            r.inv(),
            r.family_count() == 0,
            r.item_count() == 0,
            r.excl_count() == 0,
            r.incl_count() == 0,
    {
        ClosetBuilder {
            contents: KeyedVec::new(),
            item_index: KeyedVec::new(),
            exclusions: KeyedVec::new(),
            inclusions: KeyedVec::new(),
        }
    }

    /// Record `item` under `family`: appended to the family's list unless
    /// already listed there, and given `family` as home unless already known.
    pub fn add_item(self, family: &Family, item: &Item) -> (r: ClosetBuilder)
        requires
            self.inv(),
        ensures
            r.inv(),
            // the item-to-family index
            forall|x: Seq<u8>| #[trigger] r.has_item(x) <==> (self.has_item(x) || x == item@),
            forall|x: Seq<u8>| #[trigger] self.has_item(x) ==> r.home_of(x) == self.home_of(x),
            !self.has_item(item@) ==> r.home_of(item@) == family@,
            // the family contents
            forall|g: Seq<u8>| #[trigger] r.has_family(g) <==> (self.has_family(g) || g
                == family@),
            forall|g: Seq<u8>|
                #[trigger] self.has_family(g) && g != family@ ==> r.items_of(g) == self.items_of(
                    g,
                ),
            r.items_of(family@) == if !self.has_family(family@) {
                seq![item@]
            } else if self.items_of(family@).contains(item@) {
                self.items_of(family@)
            } else {
                self.items_of(family@).push(item@)
            },
            // rules untouched
            same_excls(self, r),
            same_incls(self, r),
    {
        let mut r = self;
        let ghost pre = r;
        let fi = r.contents.ensure_key(family_bytes(family), Vec::new());
        proof {
            lemma_contents_step(pre, r, family@, fi as int);
            if !pre.has_family(family@) {
                assert(r.fam_items_at(fi as int) =~= Seq::<Seq<u8>>::empty());
            }
        }
        let ghost mid = r;
        let present = items_contains(r.contents.val_at(fi), item);
        if !present {
            r.contents.push_item(fi, item.clone());
            proof {
                assert(r.contents.key_view() == mid.contents.key_view());
                assert(mid.family_index(family@) == fi as int) by {
                    mid.contents.lemma_index_of(family@, fi as int);
                }
                assert forall|j: int|
                    0 <= j < mid.family_count() && j != fi as int implies r.contents.val_view()[j]
                    == mid.contents.val_view()[j] by {
                    mid.contents.lemma_wf_lens();
                    r.contents.lemma_wf_lens();
                    let upd = mid.contents.val_view().update(
                        fi as int,
                        r.contents.val_view()[fi as int],
                    );
                    assert(r.contents.val_view() == upd);
                    assert(upd[j] == mid.contents.val_view()[j]);
                }
                lemma_contents_step(mid, r, family@, fi as int);
                assert(r.fam_items_at(fi as int) =~= mid.fam_items_at(fi as int).push(item@));
            }
        }
        let ghost cdone = r;
        let ii = r.item_index.ensure_key(item_bytes(item), family.clone());
        proof {
            lemma_index_step(cdone, r, item@, ii as int);
            // contract
            assert forall|x: Seq<u8>| #[trigger] r.has_item(x) <==> (self.has_item(x) || x
                == item@) by {
                assert(cdone.has_item(x) == self.has_item(x));
            }
            assert forall|x: Seq<u8>| #[trigger] self.has_item(x) implies r.home_of(x)
                == self.home_of(x) by {
                assert(mid.has_item(x) == self.has_item(x));
                assert(cdone.has_item(x) == mid.has_item(x));
                assert(cdone.home_of(x) == self.home_of(x));
            }
            assert forall|g: Seq<u8>| #[trigger] r.has_family(g) <==> (self.has_family(g) || g
                == family@) by {}
            assert(r.items_of(family@) == if !self.has_family(family@) {
                seq![item@]
            } else if self.items_of(family@).contains(item@) {
                self.items_of(family@)
            } else {
                self.items_of(family@).push(item@)
            }) by {
                r.contents.lemma_contains_index(family@);
                assert(r.family_index(family@) == fi as int) by {
                    r.contents.lemma_index_of(family@, fi as int);
                }
                if !pre.has_family(family@) {
                    assert(Seq::<Seq<u8>>::empty().push(item@) =~= seq![item@]);
                } else {
                    pre.lemma_family_witness(family@);
                }
            }
            // invariant
            assert forall|i2: int| #[trigger] r.family_at(i2) == mid.family_at(i2) by {}
            assert forall|i2: int|
                0 <= i2 < r.family_count() && i2 != fi as int implies #[trigger] r.fam_items_at(i2)
                == mid.fam_items_at(i2) by {}
            assert(r.fam_items_at(fi as int) == mid.fam_items_at(fi as int) || (
            !mid.fam_items_at(fi as int).contains(item@) && r.fam_items_at(fi as int)
                == mid.fam_items_at(fi as int).push(item@)));
            assert forall|i: int, j: int, k: int|
                0 <= i < r.family_count() && 0 <= j < k < r.fam_items_at(i).len() implies #[trigger]
            r.fam_items_at(i)[j] != #[trigger] r.fam_items_at(i)[k] by {
                lemma_add_item_unique(pre, mid, r, family@, item@, fi as int, i, j, k);
            }
            assert forall|i: int, j: int|
                0 <= i < r.family_count() && 0 <= j < r.fam_items_at(i).len() implies r.has_item(
                #[trigger] r.fam_items_at(i)[j],
            ) by {
                lemma_add_item_known(pre, mid, cdone, r, family@, item@, fi as int, i, j);
            }
            assert(r.exclusions == self.exclusions);
            assert(r.inclusions == self.inclusions);
        }
        r
    }
}

/// The items of `add` appended to `cur` in order, skipping those already
/// present.
pub open spec fn append_missing(cur: Seq<Seq<u8>>, add: Seq<Seq<u8>>) -> Seq<Seq<u8>>
    decreases add.len(),
{
    if add.len() == 0 {
        cur
    } else {
        append_missing(
            if cur.contains(add[0]) {
                cur
            } else {
                cur.push(add[0])
            },
            add.drop_first(),
        )
    }
}

/// `append_missing` grows from the right one element at a time.
pub proof fn lemma_append_missing_snoc(cur: Seq<Seq<u8>>, a: Seq<Seq<u8>>, x: Seq<u8>)
    ensures
        append_missing(cur, a.push(x)) == (if append_missing(cur, a).contains(x) {
            append_missing(cur, a)
        } else {
            append_missing(cur, a).push(x)
        }),
    decreases a.len(),
{
    if a.len() == 0 {
        let stepx = if cur.contains(x) {
            cur
        } else {
            cur.push(x)
        };
        assert(a.push(x)[0] == x);
        assert(a.push(x).drop_first() =~= Seq::<Seq<u8>>::empty());
        assert(append_missing(cur, a.push(x)) == append_missing(stepx, Seq::<Seq<u8>>::empty()));
        assert(append_missing(stepx, Seq::<Seq<u8>>::empty()) == stepx);
        assert(append_missing(cur, a) == cur);
    } else {
        let step = if cur.contains(a[0]) {
            cur
        } else {
            cur.push(a[0])
        };
        assert(a.push(x)[0] == a[0]);
        assert(a.push(x).drop_first() =~= a.drop_first().push(x));
        assert(append_missing(cur, a.push(x)) == append_missing(step, a.drop_first().push(x)));
        assert(append_missing(cur, a) == append_missing(step, a.drop_first()));
        lemma_append_missing_snoc(step, a.drop_first(), x);
    }
}

impl ClosetBuilder {
    /// `add_item` for every element of `items`, in order.
    pub fn add_items(self, family: &Family, items: &[Item]) -> (r: ClosetBuilder)
        requires
            self.inv(),
        ensures
            r.inv(),
            same_excls(self, r),
            same_incls(self, r),
            forall|x: Seq<u8>|
                #[trigger] r.has_item(x) <==> (self.has_item(x) || items_view(items@).contains(x)),
            forall|x: Seq<u8>| #[trigger] self.has_item(x) ==> r.home_of(x) == self.home_of(x),
            forall|x: Seq<u8>|
                !self.has_item(x) && items_view(items@).contains(x) ==> #[trigger] r.home_of(x)
                    == family@,
            forall|g: Seq<u8>|
                #[trigger] r.has_family(g) <==> (self.has_family(g) || (g == family@ && items@.len()
                    > 0)),
            forall|g: Seq<u8>|
                #[trigger] self.has_family(g) && g != family@ ==> r.items_of(g) == self.items_of(
                    g,
                ),
            r.has_family(family@) ==> r.items_of(family@) == append_missing(
                if self.has_family(family@) {
                    self.items_of(family@)
                } else {
                    Seq::<Seq<u8>>::empty()
                },
                items_view(items@),
            ),
    {
        let ghost base = if self.has_family(family@) {
            self.items_of(family@)
        } else {
            Seq::<Seq<u8>>::empty()
        };
        let mut r = self;
        let mut idx: usize = 0;
        while idx < items.len()
            invariant
                self.inv(),
                r.inv(),
                0 <= idx <= items@.len(),
                base == if self.has_family(family@) {
                    self.items_of(family@)
                } else {
                    Seq::<Seq<u8>>::empty()
                },
                same_excls(self, r),
                same_incls(self, r),
                forall|x: Seq<u8>|
                    #[trigger] r.has_item(x) <==> (self.has_item(x) || items_view(
                        items@,
                    ).take(idx as int).contains(x)),
                forall|x: Seq<u8>| #[trigger] self.has_item(x) ==> r.home_of(x) == self.home_of(x),
                forall|x: Seq<u8>|
                    !self.has_item(x) && items_view(items@).take(idx as int).contains(x)
                        ==> #[trigger] r.home_of(x) == family@,
                forall|g: Seq<u8>|
                    #[trigger] r.has_family(g) <==> (self.has_family(g) || (g == family@ && idx
                        > 0)),
                forall|g: Seq<u8>|
                    #[trigger] self.has_family(g) && g != family@ ==> r.items_of(g)
                        == self.items_of(g),
                r.has_family(family@) ==> r.items_of(family@) == append_missing(
                    base,
                    items_view(items@).take(idx as int),
                ),
            decreases items@.len() - idx,
        {
            let ghost prev = r;
            let ghost pv = items_view(items@).take(idx as int);
            r = r.add_item(family, &items[idx]);
            proof {
                let it = items@[idx as int]@;
                assert(items_view(items@)[idx as int] == it);
                assert(items_view(items@).take(idx + 1) =~= pv.push(it));
                lemma_append_missing_snoc(base, pv, it);
                assert forall|x: Seq<u8>| #[trigger] self.has_item(x) implies r.home_of(x)
                    == self.home_of(x) by {
                    assert(prev.has_item(x));
                }
                assert forall|g: Seq<u8>|
                    #[trigger] self.has_family(g) && g != family@ implies r.items_of(g)
                    == self.items_of(g) by {
                    assert(prev.has_family(g));
                    assert(prev.items_of(g) == self.items_of(g));
                }
                assert forall|x: Seq<u8>|
                    #[trigger] r.has_item(x) <==> (self.has_item(x) || items_view(
                        items@,
                    ).take(idx + 1).contains(x)) by {
                    let s1 = items_view(items@).take(idx + 1);
                    assert(s1[idx as int] == it);
                    if s1.contains(x) {
                        let w = choose|w: int| 0 <= w < s1.len() && s1[w] == x;
                        if w < idx {
                            assert(pv[w] == x);
                            assert(pv.contains(x));
                        } else {
                            assert(x == it);
                        }
                    }
                    if pv.contains(x) {
                        let w = choose|w: int| 0 <= w < pv.len() && pv[w] == x;
                        assert(s1[w] == x);
                        assert(s1.contains(x));
                    }
                    if x == it {
                        assert(s1.contains(x));
                    }
                    assert(prev.has_item(x) <==> (self.has_item(x) || pv.contains(x)));
                }
                assert forall|x: Seq<u8>|
                    !self.has_item(x) && items_view(items@).take(idx + 1).contains(x)
                        implies #[trigger] r.home_of(x) == family@ by {
                    let s1 = items_view(items@).take(idx + 1);
                    if pv.contains(x) {
                        assert(prev.has_item(x));
                    } else {
                        let w = choose|w: int| 0 <= w < s1.len() && s1[w] == x;
                        assert(w == idx) by {
                            if w < idx {
                                assert(pv[w] == x);
                            }
                        }
                        assert(x == it);
                        if prev.has_item(it) {
                            assert(pv.contains(it) || self.has_item(it));
                        }
                    }
                }
                if prev.has_family(family@) {
                    assert(prev.items_of(family@) == append_missing(base, pv));
                } else {
                    assert(!self.has_family(family@)) by {
                        assert(!prev.has_family(family@));
                    }
                    assert(idx == 0) by {
                        if idx > 0 {
                            assert(prev.has_family(family@));
                        }
                    }
                    assert(pv =~= Seq::<Seq<u8>>::empty());
                    assert(base == Seq::<Seq<u8>>::empty());
                    assert(append_missing(base, pv) == base);
                    assert(seq![it] =~= base.push(it));
                }
            }
            idx = idx + 1;
        }
        proof {
            assert(items_view(items@).take(items@.len() as int) =~= items_view(items@));
        }
        r
    }
}

impl ClosetBuilder {
    /// Record the exclusion rule `(selection, exclusion)`: choosing
    /// `selection` forbids `exclusion`.  The pair is appended as stored;
    /// the compiled constraint is symmetric.
    pub fn add_exclusion_rule(self, selection: &Item, exclusion: &Item) -> (r: ClosetBuilder)
        requires
            self.inv(),
        ensures
            r.inv(),
            same_catalog(self, r),
            same_incls(self, r),
            forall|s: Seq<u8>| #[trigger] r.excl_has(s) <==> (self.excl_has(s) || s
                == selection@),
            forall|s: Seq<u8>|
                #[trigger] self.excl_has(s) && s != selection@ ==> r.excls_of(s) == self.excls_of(
                    s,
                ),
            r.excls_of(selection@) == (if self.excl_has(selection@) {
                self.excls_of(selection@)
            } else {
                Seq::<Seq<u8>>::empty()
            }).push(exclusion@),
    {
        let mut r = self;
        let ghost pre = r;
        let ki = r.exclusions.ensure_key(item_bytes(selection), Vec::new());
        proof {
            if !pre.exclusions.contains_key(selection@) {
                KeyedVec::<Vec<Item>>::lemma_insert_effect(
                    pre.exclusions,
                    r.exclusions,
                    ki as int,
                    selection@,
                    r.exclusions.val_view()[ki as int],
                );
                assert(items_view(r.exclusions.val_view()[ki as int]@) =~= Seq::<Seq<u8>>::empty());
            }
        }
        let ghost mid = r;
        r.exclusions.push_item(ki, exclusion.clone());
        proof {
            mid.exclusions.lemma_wf_lens();
            r.exclusions.lemma_wf_lens();
            KeyedVec::<Vec<Item>>::lemma_update_effect(
                mid.exclusions,
                r.exclusions,
                ki as int,
                r.exclusions.val_view()[ki as int],
            );
            assert(items_view(r.exclusions.val_view()[ki as int]@) =~= items_view(
                mid.exclusions.val_view()[ki as int]@,
            ).push(exclusion@));
            assert forall|s: Seq<u8>| #[trigger] r.excl_has(s) <==> (self.excl_has(s) || s
                == selection@) by {}
            r.exclusions.lemma_index_of(selection@, ki as int);
            assert forall|s: Seq<u8>|
                #[trigger] self.excl_has(s) && s != selection@ implies r.excls_of(s)
                == self.excls_of(s) by {
                pre.exclusions.lemma_contains_index(s);
                let i = pre.exclusions.index_of(s);
                if pre.exclusions.contains_key(selection@) {
                    mid.exclusions.lemma_index_of(s, i);
                    r.exclusions.lemma_index_of(s, i);
                    assert(i != ki as int);
                    assert(r.exclusions.val_view()[i] == pre.exclusions.val_view()[i]);
                } else {
                    assert(mid.exclusions.contains_key(s));
                    let i2 = mid.exclusions.index_of(s);
                    mid.exclusions.lemma_contains_index(s);
                    r.exclusions.lemma_index_of(s, i2);
                    assert(i2 != ki as int) by {
                        if i2 == ki as int {
                            mid.exclusions.lemma_index_of(selection@, ki as int);
                        }
                    }
                    assert(r.exclusions.val_view()[i2] == mid.exclusions.val_view()[i2]);
                    assert(mid.exclusions.val_view()[i2] == pre.exclusions.val_view()[i]);
                }
            }
            if pre.exclusions.contains_key(selection@) {
                pre.exclusions.lemma_index_of(selection@, ki as int);
            }
            assert(same_catalog(self, r));
            assert(same_incls(self, r));
        }
        r
    }

    /// `add_exclusion_rule` for every element of `exclusions`, in order.
    pub fn add_exclusion_rules(self, selection: &Item, exclusions: &[Item]) -> (r: ClosetBuilder)
        requires
            self.inv(),
        ensures
            r.inv(),
            same_catalog(self, r),
            same_incls(self, r),
            forall|s: Seq<u8>|
                #[trigger] r.excl_has(s) <==> (self.excl_has(s) || (s == selection@
                    && exclusions@.len() > 0)),
            forall|s: Seq<u8>|
                #[trigger] self.excl_has(s) && s != selection@ ==> r.excls_of(s) == self.excls_of(
                    s,
                ),
            r.excl_has(selection@) ==> r.excls_of(selection@) == (if self.excl_has(selection@) {
                self.excls_of(selection@)
            } else {
                Seq::<Seq<u8>>::empty()
            }) + items_view(exclusions@),
    {
        let ghost base = if self.excl_has(selection@) {
            self.excls_of(selection@)
        } else {
            Seq::<Seq<u8>>::empty()
        };
        let mut r = self;
        let mut idx: usize = 0;
        while idx < exclusions.len()
            invariant
                self.inv(),
                r.inv(),
                0 <= idx <= exclusions@.len(),
                base == if self.excl_has(selection@) {
                    self.excls_of(selection@)
                } else {
                    Seq::<Seq<u8>>::empty()
                },
                same_catalog(self, r),
                same_incls(self, r),
                forall|s: Seq<u8>|
                    #[trigger] r.excl_has(s) <==> (self.excl_has(s) || (s == selection@ && idx
                        > 0)),
                forall|s: Seq<u8>|
                    #[trigger] self.excl_has(s) && s != selection@ ==> r.excls_of(s)
                        == self.excls_of(s),
                r.excl_has(selection@) ==> r.excls_of(selection@) == base + items_view(
                    exclusions@,
                ).take(idx as int),
            decreases exclusions@.len() - idx,
        {
            let ghost prev = r;
            r = r.add_exclusion_rule(selection, &exclusions[idx]);
            proof {
                let it = exclusions@[idx as int]@;
                assert(items_view(exclusions@)[idx as int] == it);
                assert forall|s2: Seq<u8>|
                    #[trigger] self.excl_has(s2) && s2 != selection@ implies r.excls_of(s2)
                    == self.excls_of(s2) by {
                    assert(prev.excl_has(s2));
                    assert(prev.excls_of(s2) == self.excls_of(s2));
                }
                assert(items_view(exclusions@).take(idx + 1) =~= items_view(
                    exclusions@,
                ).take(idx as int).push(it));
                if prev.excl_has(selection@) {
                    assert(r.excls_of(selection@) == (base + items_view(exclusions@).take(
                        idx as int,
                    )).push(it));
                    assert((base + items_view(exclusions@).take(idx as int)).push(it) =~= base
                        + items_view(exclusions@).take(idx + 1));
                } else {
                    assert(!self.excl_has(selection@));
                    assert(idx == 0) by {
                        if idx > 0 {
                            assert(prev.excl_has(selection@));
                        }
                    }
                    assert(base == Seq::<Seq<u8>>::empty());
                    assert(Seq::<Seq<u8>>::empty().push(it) =~= base + items_view(
                        exclusions@,
                    ).take(1));
                }
            }
            idx = idx + 1;
        }
        proof {
            assert(items_view(exclusions@).take(exclusions@.len() as int) =~= items_view(
                exclusions@,
            ));
        }
        r
    }

    /// Record the inclusion rule `(selection, inclusion)`: choosing
    /// `selection` forces `inclusion`.
    pub fn add_inclusion_rule(self, selection: &Item, inclusion: &Item) -> (r: ClosetBuilder)
        requires
            self.inv(),
        ensures
            r.inv(),
            same_catalog(self, r),
            same_excls(self, r),
            forall|s: Seq<u8>| #[trigger] r.incl_has(s) <==> (self.incl_has(s) || s
                == selection@),
            forall|s: Seq<u8>|
                #[trigger] self.incl_has(s) && s != selection@ ==> r.incls_of(s) == self.incls_of(
                    s,
                ),
            r.incls_of(selection@) == (if self.incl_has(selection@) {
                self.incls_of(selection@)
            } else {
                Seq::<Seq<u8>>::empty()
            }).push(inclusion@),
    {
        let mut r = self;
        let ghost pre = r;
        let ki = r.inclusions.ensure_key(item_bytes(selection), Vec::new());
        proof {
            if !pre.inclusions.contains_key(selection@) {
                KeyedVec::<Vec<Item>>::lemma_insert_effect(
                    pre.inclusions,
                    r.inclusions,
                    ki as int,
                    selection@,
                    r.inclusions.val_view()[ki as int],
                );
                assert(items_view(r.inclusions.val_view()[ki as int]@) =~= Seq::<Seq<u8>>::empty());
            }
        }
        let ghost mid = r;
        r.inclusions.push_item(ki, inclusion.clone());
        proof {
            mid.inclusions.lemma_wf_lens();
            r.inclusions.lemma_wf_lens();
            KeyedVec::<Vec<Item>>::lemma_update_effect(
                mid.inclusions,
                r.inclusions,
                ki as int,
                r.inclusions.val_view()[ki as int],
            );
            assert(items_view(r.inclusions.val_view()[ki as int]@) =~= items_view(
                mid.inclusions.val_view()[ki as int]@,
            ).push(inclusion@));
            assert forall|s: Seq<u8>| #[trigger] r.incl_has(s) <==> (self.incl_has(s) || s
                == selection@) by {}
            r.inclusions.lemma_index_of(selection@, ki as int);
            assert forall|s: Seq<u8>|
                #[trigger] self.incl_has(s) && s != selection@ implies r.incls_of(s)
                == self.incls_of(s) by {
                pre.inclusions.lemma_contains_index(s);
                let i = pre.inclusions.index_of(s);
                if pre.inclusions.contains_key(selection@) {
                    mid.inclusions.lemma_index_of(s, i);
                    r.inclusions.lemma_index_of(s, i);
                    assert(i != ki as int);
                    assert(r.inclusions.val_view()[i] == pre.inclusions.val_view()[i]);
                } else {
                    assert(mid.inclusions.contains_key(s));
                    let i2 = mid.inclusions.index_of(s);
                    mid.inclusions.lemma_contains_index(s);
                    r.inclusions.lemma_index_of(s, i2);
                    assert(i2 != ki as int) by {
                        if i2 == ki as int {
                            mid.inclusions.lemma_index_of(selection@, ki as int);
                        }
                    }
                    assert(r.inclusions.val_view()[i2] == mid.inclusions.val_view()[i2]);
                    assert(mid.inclusions.val_view()[i2] == pre.inclusions.val_view()[i]);
                }
            }
            if pre.inclusions.contains_key(selection@) {
                pre.inclusions.lemma_index_of(selection@, ki as int);
            }
            assert(same_catalog(self, r));
            assert(same_excls(self, r));
        }
        r
    }

    /// `add_inclusion_rule` for every element of `inclusions`, in order.
    pub fn add_inclusion_rules(self, selection: &Item, inclusions: &[Item]) -> (r: ClosetBuilder)
        requires
            self.inv(),
        ensures
            r.inv(),
            same_catalog(self, r),
            same_excls(self, r),
            forall|s: Seq<u8>|
                #[trigger] r.incl_has(s) <==> (self.incl_has(s) || (s == selection@
                    && inclusions@.len() > 0)),
            forall|s: Seq<u8>|
                #[trigger] self.incl_has(s) && s != selection@ ==> r.incls_of(s) == self.incls_of(
                    s,
                ),
            r.incl_has(selection@) ==> r.incls_of(selection@) == (if self.incl_has(selection@) {
                self.incls_of(selection@)
            } else {
                Seq::<Seq<u8>>::empty()
            }) + items_view(inclusions@),
    {
        let ghost base = if self.incl_has(selection@) {
            self.incls_of(selection@)
        } else {
            Seq::<Seq<u8>>::empty()
        };
        let mut r = self;
        let mut idx: usize = 0;
        while idx < inclusions.len()
            invariant
                self.inv(),
                r.inv(),
                0 <= idx <= inclusions@.len(),
                base == if self.incl_has(selection@) {
                    self.incls_of(selection@)
                } else {
                    Seq::<Seq<u8>>::empty()
                },
                same_catalog(self, r),
                same_excls(self, r),
                forall|s: Seq<u8>|
                    #[trigger] r.incl_has(s) <==> (self.incl_has(s) || (s == selection@ && idx
                        > 0)),
                forall|s: Seq<u8>|
                    #[trigger] self.incl_has(s) && s != selection@ ==> r.incls_of(s)
                        == self.incls_of(s),
                r.incl_has(selection@) ==> r.incls_of(selection@) == base + items_view(
                    inclusions@,
                ).take(idx as int),
            decreases inclusions@.len() - idx,
        {
            let ghost prev = r;
            r = r.add_inclusion_rule(selection, &inclusions[idx]);
            proof {
                let it = inclusions@[idx as int]@;
                assert(items_view(inclusions@)[idx as int] == it);
                assert forall|s2: Seq<u8>|
                    #[trigger] self.incl_has(s2) && s2 != selection@ implies r.incls_of(s2)
                    == self.incls_of(s2) by {
                    assert(prev.incl_has(s2));
                    assert(prev.incls_of(s2) == self.incls_of(s2));
                }
                assert(items_view(inclusions@).take(idx + 1) =~= items_view(
                    inclusions@,
                ).take(idx as int).push(it));
                if prev.incl_has(selection@) {
                    assert(r.incls_of(selection@) == (base + items_view(inclusions@).take(
                        idx as int,
                    )).push(it));
                    assert((base + items_view(inclusions@).take(idx as int)).push(it) =~= base
                        + items_view(inclusions@).take(idx + 1));
                } else {
                    assert(!self.incl_has(selection@));
                    assert(idx == 0) by {
                        if idx > 0 {
                            assert(prev.incl_has(selection@));
                        }
                    }
                    assert(base == Seq::<Seq<u8>>::empty());
                    assert(Seq::<Seq<u8>>::empty().push(it) =~= base + items_view(
                        inclusions@,
                    ).take(1));
                }
            }
            idx = idx + 1;
        }
        proof {
            assert(items_view(inclusions@).take(inclusions@.len() as int) =~= items_view(
                inclusions@,
            ));
        }
        r
    }
}

// --- admissibility ----------------------------------------------------------

/// Exactly one of `items` is present in `s`.
pub open spec fn exactly_one_of(items: Seq<Seq<u8>>, s: Set<Seq<u8>>) -> bool {
    &&& exists|j: int| 0 <= j < items.len() && s.contains(#[trigger] items[j])
    &&& forall|j: int, k: int|
        0 <= j < k < items.len() ==> !(s.contains(#[trigger] items[j]) && s.contains(
            #[trigger] items[k],
        ))
}

/// Of the first `upto` items, exactly position `j` is present in `s`.
pub open spec fn onehot_prefix(items: Seq<Seq<u8>>, j: int, upto: int, s: Set<Seq<u8>>) -> bool {
    forall|t: int| 0 <= t < upto ==> ((t == j) == s.contains(#[trigger] items[t]))
}

pub open spec fn onehot(items: Seq<Seq<u8>>, j: int, s: Set<Seq<u8>>) -> bool {
    onehot_prefix(items, j, items.len() as int, s)
}

pub open spec fn any_onehot(items: Seq<Seq<u8>>, upto: int, s: Set<Seq<u8>>) -> bool {
    exists|j: int| 0 <= j < upto && #[trigger] onehot(items, j, s)
}

/// `exactly_one_of` coincides with "some position is one-hot".
pub proof fn lemma_exactly_one_any_onehot(items: Seq<Seq<u8>>, s: Set<Seq<u8>>)
    ensures
        exactly_one_of(items, s) == any_onehot(items, items.len() as int, s),
{
    if exactly_one_of(items, s) {
        let j = choose|j: int| 0 <= j < items.len() && s.contains(#[trigger] items[j]);
        assert(onehot(items, j, s)) by {
            assert forall|t: int| 0 <= t < items.len() implies ((t == j) == s.contains(
                #[trigger] items[t],
            )) by {
                if t < j {
                    assert(!(s.contains(items[t]) && s.contains(items[j])));
                } else if t > j {
                    assert(!(s.contains(items[j]) && s.contains(items[t])));
                }
            }
        }
        assert(any_onehot(items, items.len() as int, s));
    }
    if any_onehot(items, items.len() as int, s) {
        let j = choose|j: int| 0 <= j < items.len() && #[trigger] onehot(items, j, s);
        assert(s.contains(items[j]));
        assert forall|p: int, q: int|
            0 <= p < q < items.len() implies !(s.contains(#[trigger] items[p]) && s.contains(
            #[trigger] items[q],
        )) by {
            assert((p == j) == s.contains(items[p]));
            assert((q == j) == s.contains(items[q]));
        }
    }
}

impl ClosetBuilder {
    /// Every family contributes exactly one item, over the first `n` families.
    pub open spec fn one_per_family_upto(self, n: int, s: Set<Seq<u8>>) -> bool {
        forall|fi: int| 0 <= fi < n ==> exactly_one_of(#[trigger] self.fam_items_at(fi), s)
    }

    pub open spec fn one_per_family(self, s: Set<Seq<u8>>) -> bool {
        self.one_per_family_upto(self.family_count() as int, s)
    }

    /// Row `ki` of the exclusion table holds over its first `upto` items.
    pub open spec fn excl_row_ok(self, ki: int, upto: int, s: Set<Seq<u8>>) -> bool {
        forall|j: int|
            0 <= j < upto ==> !(s.contains(self.excl_sel_at(ki)) && s.contains(
                #[trigger] self.excl_items_at(ki)[j],
            ))
    }

    pub open spec fn excl_ok_upto(self, n: int, s: Set<Seq<u8>>) -> bool {
        forall|ki: int|
            0 <= ki < n ==> self.excl_row_ok(
                ki,
                #[trigger] self.excl_items_at(ki).len() as int,
                s,
            )
    }

    /// No exclusion rule is violated: never both the selection and one of
    /// its listed exclusions.
    pub open spec fn excl_ok(self, s: Set<Seq<u8>>) -> bool {
        self.excl_ok_upto(self.excl_count() as int, s)
    }

    pub open spec fn incl_row_ok(self, ki: int, upto: int, s: Set<Seq<u8>>) -> bool {
        forall|j: int|
            0 <= j < upto ==> (s.contains(self.incl_sel_at(ki)) ==> s.contains(
                #[trigger] self.incl_items_at(ki)[j],
            ))
    }

    pub open spec fn incl_ok_upto(self, n: int, s: Set<Seq<u8>>) -> bool {
        forall|ki: int|
            0 <= ki < n ==> self.incl_row_ok(
                ki,
                #[trigger] self.incl_items_at(ki).len() as int,
                s,
            )
    }

    /// Every inclusion rule is honoured: a chosen selection drags in all
    /// its listed inclusions.
    pub open spec fn incl_ok(self, s: Set<Seq<u8>>) -> bool {
        self.incl_ok_upto(self.incl_count() as int, s)
    }

    /// The characteristic predicate of admissible assignments.
    pub open spec fn admissible(self, s: Set<Seq<u8>>) -> bool {
        self.one_per_family(s) && self.excl_ok(s) && self.incl_ok(s)
    }

    /// Every rule endpoint is a known item of the catalog.
    pub open spec fn rules_known(self) -> bool {
        &&& forall|ki: int|
            0 <= ki < self.excl_count() ==> self.has_item(#[trigger] self.excl_sel_at(ki))
        &&& forall|ki: int, j: int|
            0 <= ki < self.excl_count() && 0 <= j < self.excl_items_at(ki).len()
                ==> self.has_item(#[trigger] self.excl_items_at(ki)[j])
        &&& forall|ki: int|
            0 <= ki < self.incl_count() ==> self.has_item(#[trigger] self.incl_sel_at(ki))
        &&& forall|ki: int, j: int|
            0 <= ki < self.incl_count() && 0 <= j < self.incl_items_at(ki).len()
                ==> self.has_item(#[trigger] self.incl_items_at(ki)[j])
    }
}

/// The exactly-one-of-this-family constraint as a diagram: the disjunction
/// over each item of "this item and no sibling".
fn sibling_relationship(items: &Vec<Item>) -> (r: Node)
    ensures
        r.wf(),
        forall|s: Set<Seq<u8>>|
            #[trigger] r.sat(s) == exactly_one_of(crate::items::items_view(items@), s),
{
    let ghost iv = items_view(items@);
    let n = items.len();
    let mut acc = Node::false_leaf();
    proof {
        crate::bdd::lemma_leaf_facts();
    }
    let mut j: usize = 0;
    while j < n
        invariant
            n == items@.len(),
            0 <= j <= n,
            iv == items_view(items@),
            acc.wf(),
            forall|s: Set<Seq<u8>>| #[trigger] acc.sat(s) == any_onehot(iv, j as int, s),
        decreases n - j,
    {
        let mut term = Node::true_leaf();
        proof {
            crate::bdd::lemma_leaf_facts();
        }
        let mut t: usize = 0;
        while t < n
            invariant
                n == items@.len(),
                0 <= t <= n,
                0 <= j < n,
                iv == items_view(items@),
                term.wf(),
                forall|s: Set<Seq<u8>>| #[trigger] term.sat(s) == onehot_prefix(
                    iv,
                    j as int,
                    t as int,
                    s,
                ),
            decreases n - t,
        {
            let lit = if t == j {
                Node::positive_branch(&items[t])
            } else {
                Node::negative_branch(&items[t])
            };
            let ghost old_term = term;
            term = old_term_and(term, &lit);
            proof {
                assert(iv[t as int] == items@[t as int]@);
                assert forall|s: Set<Seq<u8>>| #[trigger] term.sat(s) == onehot_prefix(
                    iv,
                    j as int,
                    t + 1,
                    s,
                ) by {
                    assert(term.sat(s) == (old_term.sat(s) && lit.sat(s)));
                    if term.sat(s) {
                        assert forall|u: int| 0 <= u < t + 1 implies ((u == j as int)
                            == s.contains(#[trigger] iv[u])) by {}
                    }
                    if onehot_prefix(iv, j as int, t + 1, s) {
                        assert(onehot_prefix(iv, j as int, t as int, s));
                        assert((t as int == j as int) == s.contains(iv[t as int]));
                    }
                }
            }
            t = t + 1;
        }
        let ghost old_acc = acc;
        acc = old_term_or(acc, &term);
        proof {
            assert forall|s: Set<Seq<u8>>| #[trigger] acc.sat(s) == any_onehot(iv, j + 1, s) by {
                assert(acc.sat(s) == (old_acc.sat(s) || term.sat(s)));
                assert(term.sat(s) == onehot_prefix(iv, j as int, n as int, s));
                assert(term.sat(s) == onehot(iv, j as int, s));
                if acc.sat(s) {
                    if old_acc.sat(s) {
                        let w = choose|w: int| 0 <= w < j && #[trigger] onehot(iv, w, s);
                        assert(0 <= w < j + 1 && onehot(iv, w, s));
                    } else {
                        assert(0 <= j < j + 1 && onehot(iv, j as int, s));
                    }
                }
                if any_onehot(iv, j + 1, s) {
                    let w = choose|w: int| 0 <= w < j + 1 && #[trigger] onehot(iv, w, s);
                    if w < j {
                        assert(any_onehot(iv, j as int, s));
                    }
                }
            }
        }
        j = j + 1;
    }
    proof {
        assert forall|s: Set<Seq<u8>>| #[trigger] acc.sat(s) == exactly_one_of(iv, s) by {
            lemma_exactly_one_any_onehot(iv, s);
        }
    }
    acc
}

/// `a.and(&b)` with `a` taken by value.
fn old_term_and(a: Node, b: &Node) -> (r: Node)
    requires
        a.wf(),
        b.wf(),
    ensures
        r.wf(),
        forall|s: Set<Seq<u8>>| #[trigger] r.sat(s) == (a.sat(s) && b.sat(s)),
{
    a.and(b)
}

/// `a.or(&b)` with `a` taken by value.
fn old_term_or(a: Node, b: &Node) -> (r: Node)
    requires
        a.wf(),
        b.wf(),
    ensures
        r.wf(),
        forall|s: Set<Seq<u8>>| #[trigger] r.sat(s) == (a.sat(s) || b.sat(s)),
{
    a.or(b)
}

// --- validation --------------------------------------------------------------

/// View of a conflict report list.
pub open spec fn conflicts_view(s: Seq<(Item, Vec<Family>)>) -> Seq<(Seq<u8>, Seq<Seq<u8>>)> {
    s.map_values(|p: (Item, Vec<Family>)| (p.0@, families_view(p.1@)))
}

/// View of an illegal-rule report list.
pub open spec fn pairs_view(s: Seq<(Family, Vec<Item>)>) -> Seq<(Seq<u8>, Seq<Seq<u8>>)> {
    s.map_values(|p: (Family, Vec<Item>)| (p.0@, items_view(p.1@)))
}

impl ClosetBuilder {
    /// The conflicts contributed by the suffix of family `fi`'s list that
    /// starts at `j`: items whose home disagrees with the family they are
    /// listed under, reported as `(item, [home, listed_family])`.
    pub open spec fn conflicts_in_family(self, fi: int, j: int) -> Seq<(Seq<u8>, Seq<Seq<u8>>)>
        decreases self.fam_items_at(fi).len() - j,
    {
        if j < 0 || j >= self.fam_items_at(fi).len() {
            Seq::empty()
        } else {
            let it = self.fam_items_at(fi)[j];
            let head: Seq<(Seq<u8>, Seq<Seq<u8>>)> = if self.home_of(it) != self.family_at(fi) {
                seq![(it, seq![self.home_of(it), self.family_at(fi)])]
            } else {
                Seq::empty()
            };
            head + self.conflicts_in_family(fi, j + 1)
        }
    }

    /// The conflicts contributed by families from position `fi` on.
    pub open spec fn conflicts_from(self, fi: int) -> Seq<(Seq<u8>, Seq<Seq<u8>>)>
        decreases self.family_count() - fi,
    {
        if fi < 0 || fi >= self.family_count() {
            Seq::empty()
        } else {
            self.conflicts_in_family(fi, 0) + self.conflicts_from(fi + 1)
        }
    }

    /// All conflicting-family reports, in catalog order.
    pub open spec fn spec_conflicts(self) -> Seq<(Seq<u8>, Seq<Seq<u8>>)> {
        self.conflicts_from(0)
    }

    /// Items listed under a family other than their home family.
    pub fn find_conflicting_families(&self) -> (r: Vec<(Item, Vec<Family>)>)
        requires
            self.inv(),
        ensures
            conflicts_view(r@) == self.spec_conflicts(),
    {
        let mut acc: Vec<(Item, Vec<Family>)> = Vec::new();
        let n = self.contents.len();
        let mut fi: usize = 0;
        proof {
            assert(conflicts_view(acc@) =~= Seq::empty());
            assert(self.spec_conflicts() =~= conflicts_view(acc@) + self.conflicts_from(0));
        }
        while fi < n
            invariant
                self.inv(),
                n == self.family_count(),
                0 <= fi <= n,
                self.spec_conflicts() == conflicts_view(acc@) + self.conflicts_from(fi as int),
            decreases n - fi,
        {
            let list = self.contents.val_at(fi);
            let m = list.len();
            let mut j: usize = 0;
            proof {
                assert(self.conflicts_from(fi as int) == self.conflicts_in_family(fi as int, 0)
                    + self.conflicts_from(fi + 1));
            }
            while j < m
                invariant
                    self.inv(),
                    n == self.family_count(),
                    0 <= fi < n,
                    m == self.fam_items_at(fi as int).len(),
                    list@ == self.contents.val_view()[fi as int]@,
                    0 <= j <= m,
                    self.spec_conflicts() == conflicts_view(acc@) + self.conflicts_in_family(
                        fi as int,
                        j as int,
                    ) + self.conflicts_from(fi + 1),
                decreases m - j,
            {
                let ghost it = self.fam_items_at(fi as int)[j as int];
                proof {
                    assert(it == list@[j as int]@);
                    assert(self.has_item(it));
                }
                let home = match self.item_index.get(crate::items::item_bytes(&list[j])) {
                    Some(h) => h,
                    None => {
                        proof {
                            self.item_index.lemma_contains_index(it);
                        }
                        vstd::pervasive::unreached()
                    },
                };
                let ghost before = acc@;
                proof {
                    assert(home@ == self.home_of(it));
                }
                if !crate::order::bytes_eq(
                    crate::items::family_bytes(home),
                    self.contents.key_at(fi),
                ) {
                    let fam = Family::from_bytes(self.contents.key_at(fi));
                    let mut fams: Vec<Family> = Vec::new();
                    fams.push(home.clone());
                    fams.push(fam);
                    let entry = (list[j].clone(), fams);
                    proof {
                        assert(entry.1@.len() == 2);
                        assert(entry.1@[0]@ == self.home_of(it));
                        assert(entry.1@[1]@ == self.family_at(fi as int));
                        assert(families_view(entry.1@) =~= seq![
                            self.home_of(it),
                            self.family_at(fi as int),
                        ]);
                        assert(entry.0@ == it);
                    }
                    acc.push(entry);
                    proof {
                        assert(acc@ == before.push(entry));
                        assert forall|k: int|
                            0 <= k < before.len() implies conflicts_view(acc@)[k] == conflicts_view(
                            before,
                        )[k] by {
                            assert(acc@[k] == before[k]);
                        }
                        assert(conflicts_view(acc@)[before.len() as int] == (
                            it,
                            seq![self.home_of(it), self.family_at(fi as int)],
                        ));
                        assert(conflicts_view(acc@) =~= conflicts_view(before) + seq![
                            (it, seq![self.home_of(it), self.family_at(fi as int)]),
                        ]);
                    }
                } else {
                    proof {
                        assert(self.home_of(it) == self.family_at(fi as int));
                    }
                }
                proof {
                    assert(self.conflicts_in_family(fi as int, j as int)
                        == (if self.home_of(it) != self.family_at(fi as int) {
                        seq![(it, seq![self.home_of(it), self.family_at(fi as int)])]
                    } else {
                        Seq::empty()
                    }) + self.conflicts_in_family(fi as int, j + 1));
                    assert(self.spec_conflicts() =~= conflicts_view(acc@)
                        + self.conflicts_in_family(fi as int, j + 1) + self.conflicts_from(
                        fi + 1,
                    ));
                }
                j = j + 1;
            }
            proof {
                assert(self.conflicts_in_family(fi as int, m as int) =~= Seq::<(
                    Seq<u8>,
                    Seq<Seq<u8>>,
                )>::empty());
                assert(self.spec_conflicts() =~= conflicts_view(acc@) + self.conflicts_from(
                    fi + 1,
                ));
            }
            fi = fi + 1;
        }
        proof {
            assert(self.conflicts_from(n as int) =~= Seq::<(Seq<u8>, Seq<Seq<u8>>)>::empty());
            assert(self.spec_conflicts() =~= conflicts_view(acc@));
        }
        acc
    }
}

/// The two items of a same-family rule, in name order.
pub open spec fn sorted_pair(a: Seq<u8>, b: Seq<u8>) -> Seq<Seq<u8>> {
    if crate::order::lex_lt(b, a) {
        seq![b, a]
    } else {
        seq![a, b]
    }
}

/// The home family recorded for `x` in `index`.
pub open spec fn home_in(index: KeyedVec<Family>, x: Seq<u8>) -> Seq<u8> {
    index.val_view()[index.index_of(x)]@
}

/// The same-family reports contributed by rule `(sel, items[j..])`.
pub open spec fn illegal_in_list(
    sel: Seq<u8>,
    items: Seq<Seq<u8>>,
    index: KeyedVec<Family>,
    j: int,
) -> Seq<(Seq<u8>, Seq<Seq<u8>>)>
    decreases items.len() - j,
{
    if j < 0 || j >= items.len() {
        Seq::empty()
    } else {
        let head: Seq<(Seq<u8>, Seq<Seq<u8>>)> = if home_in(index, sel) == home_in(
            index,
            items[j],
        ) {
            seq![(home_in(index, sel), sorted_pair(sel, items[j]))]
        } else {
            Seq::empty()
        };
        head + illegal_in_list(sel, items, index, j + 1)
    }
}

/// The same-family reports of all rules from row `ki` on.
pub open spec fn illegal_from(
    rules: KeyedVec<Vec<Item>>,
    index: KeyedVec<Family>,
    ki: int,
) -> Seq<(Seq<u8>, Seq<Seq<u8>>)>
    decreases rules.spec_len() - ki,
{
    if ki < 0 || ki >= rules.spec_len() {
        Seq::empty()
    } else {
        illegal_in_list(rules.key_view()[ki], items_view(rules.val_view()[ki]@), index, 0)
            + illegal_from(rules, index, ki + 1)
    }
}

/// First occurrences only, order kept.
pub open spec fn dedup_pairs(s: Seq<(Seq<u8>, Seq<Seq<u8>>)>) -> Seq<(Seq<u8>, Seq<Seq<u8>>)>
    decreases s.len(),
{
    if s.len() == 0 {
        Seq::empty()
    } else {
        let d = dedup_pairs(s.drop_last());
        if d.contains(s.last()) {
            d
        } else {
            d.push(s.last())
        }
    }
}

/// All deduplicated same-family reports of a rule table.
pub open spec fn spec_illegal(rules: KeyedVec<Vec<Item>>, index: KeyedVec<Family>) -> Seq<(
    Seq<u8>,
    Seq<Seq<u8>>,
)> {
    dedup_pairs(illegal_from(rules, index, 0))
}

/// Decide whether the report list already carries this `(family, pair)`.
fn pairs_contain(acc: &Vec<(Family, Vec<Item>)>, fam: &Family, pair: &Vec<Item>) -> (r: bool)
    ensures
        r == pairs_view(acc@).contains((fam@, items_view(pair@))),
{
    let mut i: usize = 0;
    while i < acc.len()
        invariant
            0 <= i <= acc@.len(),
            forall|k: int| 0 <= k < i ==> #[trigger] pairs_view(acc@)[k] != (fam@, items_view(
                pair@,
            )),
        decreases acc@.len() - i,
    {
        if acc[i].0 == *fam && crate::items::items_eq(&acc[i].1, pair) {
            proof {
                assert(pairs_view(acc@)[i as int] == (fam@, items_view(pair@)));
            }
            return true;
        }
        proof {
            assert(pairs_view(acc@)[i as int] != (fam@, items_view(pair@)));
        }
        i = i + 1;
    }
    proof {
        if pairs_view(acc@).contains((fam@, items_view(pair@))) {
            let w = choose|w: int|
                0 <= w < pairs_view(acc@).len() && pairs_view(acc@)[w] == (fam@, items_view(
                    pair@,
                ));
            assert(pairs_view(acc@)[w] != (fam@, items_view(pair@)));
        }
    }
    false
}

impl ClosetBuilder {
    /// The deduplicated same-family reports of a rule table: for each rule
    /// pair whose two items share a home family, `(family, sorted pair)`.
    pub fn find_illegal_rules(rules: &KeyedVec<Vec<Item>>, item_index: &KeyedVec<Family>) -> (r:
        Vec<(Family, Vec<Item>)>)
        requires
            rules.wf(),
            item_index.wf(),
            forall|ki: int|
                0 <= ki < rules.spec_len() ==> item_index.contains_key(
                    #[trigger] rules.key_view()[ki],
                ),
            forall|ki: int, j: int|
                0 <= ki < rules.spec_len() && 0 <= j < rules.val_view()[ki]@.len()
                    ==> item_index.contains_key(
                    #[trigger] items_view(rules.val_view()[ki]@)[j],
                ),
        ensures
            pairs_view(r@) == spec_illegal(*rules, *item_index),
    {
        proof {
            rules.lemma_wf_lens();
        }
        let mut acc: Vec<(Family, Vec<Item>)> = Vec::new();
        let ghost mut raw: Seq<(Seq<u8>, Seq<Seq<u8>>)> = Seq::empty();
        let n = rules.len();
        let mut ki: usize = 0;
        proof {
            assert(dedup_pairs(raw) =~= pairs_view(acc@));
            assert(illegal_from(*rules, *item_index, 0) =~= raw + illegal_from(
                *rules,
                *item_index,
                0,
            ));
        }
        while ki < n
            invariant
                rules.wf(),
                item_index.wf(),
                forall|k2: int|
                    0 <= k2 < rules.spec_len() ==> item_index.contains_key(
                        #[trigger] rules.key_view()[k2],
                    ),
                forall|k2: int, j: int|
                    0 <= k2 < rules.spec_len() && 0 <= j < rules.val_view()[k2]@.len()
                        ==> item_index.contains_key(
                        #[trigger] items_view(rules.val_view()[k2]@)[j],
                    ),
                n == rules.spec_len(),
                0 <= ki <= n,
                pairs_view(acc@) == dedup_pairs(raw),
                illegal_from(*rules, *item_index, 0) == raw + illegal_from(
                    *rules,
                    *item_index,
                    ki as int,
                ),
            decreases n - ki,
        {
            let sel_bytes = rules.key_at(ki);
            let ghost sel = rules.key_view()[ki as int];
            let sel_home = match item_index.get(sel_bytes) {
                Some(h) => h,
                None => {
                    proof {
                        item_index.lemma_contains_index(sel);
                    }
                    vstd::pervasive::unreached()
                },
            };
            let list = rules.val_at(ki);
            let ghost lv = items_view(rules.val_view()[ki as int]@);
            let m = list.len();
            let mut j: usize = 0;
            proof {
                assert(illegal_from(*rules, *item_index, ki as int) == illegal_in_list(
                    sel,
                    lv,
                    *item_index,
                    0,
                ) + illegal_from(*rules, *item_index, ki + 1));
            }
            while j < m
                invariant
                    rules.wf(),
                    item_index.wf(),
                    n == rules.spec_len(),
                    0 <= ki < n,
                    m == lv.len(),
                    list@ == rules.val_view()[ki as int]@,
                    lv == items_view(rules.val_view()[ki as int]@),
                    sel == rules.key_view()[ki as int],
                    sel_bytes@ == sel,
                    item_index.contains_key(sel),
                    sel_home@ == home_in(*item_index, sel),
                    forall|j2: int|
                        0 <= j2 < lv.len() ==> item_index.contains_key(#[trigger] lv[j2]),
                    0 <= j <= m,
                    pairs_view(acc@) == dedup_pairs(raw),
                    illegal_from(*rules, *item_index, 0) == raw + illegal_in_list(
                        sel,
                        lv,
                        *item_index,
                        j as int,
                    ) + illegal_from(*rules, *item_index, ki + 1),
                decreases m - j,
            {
                let ghost it = lv[j as int];
                proof {
                    assert(it == list@[j as int]@);
                }
                let it_home = match item_index.get(crate::items::item_bytes(&list[j])) {
                    Some(h) => h,
                    None => {
                        proof {
                            item_index.lemma_contains_index(it);
                        }
                        vstd::pervasive::unreached()
                    },
                };
                let ghost head: Seq<(Seq<u8>, Seq<Seq<u8>>)> = if home_in(*item_index, sel)
                    == home_in(*item_index, it) {
                    seq![(home_in(*item_index, sel), sorted_pair(sel, it))]
                } else {
                    Seq::<(Seq<u8>, Seq<Seq<u8>>)>::empty()
                };
                if sel_home == it_home {
                    // a same-family pair: report it, sorted, once
                    let a = Item::from_bytes(sel_bytes);
                    let b = list[j].clone();
                    proof {
                        assert(a@ == sel);
                        assert(b@ == it);
                    }
                    let mut pair: Vec<Item> = Vec::new();
                    if crate::items::item_lt(&b, &a) {
                        pair.push(b);
                        pair.push(a);
                    } else {
                        pair.push(a);
                        pair.push(b);
                    }
                    proof {
                        assert(pair@.len() == 2);
                        assert(items_view(pair@)[0] == pair@[0]@);
                        assert(items_view(pair@)[1] == pair@[1]@);
                        assert(items_view(pair@) =~= sorted_pair(sel, it));
                    }
                    let ghost prev_raw = raw;
                    proof {
                        raw = raw + head;
                        assert(raw =~= prev_raw.push((home_in(*item_index, sel), sorted_pair(
                            sel,
                            it,
                        ))));
                        assert(raw.drop_last() =~= prev_raw);
                    }
                    if !pairs_contain(&acc, sel_home, &pair) {
                        let fam = sel_home.clone();
                        acc.push((fam, pair));
                        proof {
                            assert(pairs_view(acc@) =~= dedup_pairs(prev_raw).push(
                                (home_in(*item_index, sel), sorted_pair(sel, it)),
                            ));
                            assert(pairs_view(acc@) =~= dedup_pairs(raw));
                        }
                    } else {
                        proof {
                            assert(pairs_view(acc@) =~= dedup_pairs(raw));
                        }
                    }
                } else {
                    proof {
                        assert(head =~= Seq::<(Seq<u8>, Seq<Seq<u8>>)>::empty());
                        assert(raw + head =~= raw);
                    }
                }
                proof {
                    assert(illegal_in_list(sel, lv, *item_index, j as int) == head
                        + illegal_in_list(sel, lv, *item_index, j + 1));
                    assert((raw + illegal_in_list(sel, lv, *item_index, j + 1)) + illegal_from(
                        *rules,
                        *item_index,
                        ki + 1,
                    ) =~= illegal_from(*rules, *item_index, 0));
                }
                j = j + 1;
            }
            proof {
                assert(illegal_in_list(sel, lv, *item_index, m as int) =~= Seq::<(
                    Seq<u8>,
                    Seq<Seq<u8>>,
                )>::empty());
                assert(raw + illegal_from(*rules, *item_index, ki + 1) =~= illegal_from(
                    *rules,
                    *item_index,
                    0,
                ));
            }
            ki = ki + 1;
        }
        proof {
            assert(illegal_from(*rules, *item_index, n as int) =~= Seq::<(
                Seq<u8>,
                Seq<Seq<u8>>,
            )>::empty());
            assert(raw =~= illegal_from(*rules, *item_index, 0));
        }
        acc
    }

    /// Deduplicated same-family inclusion rules.
    pub fn find_illegal_include_rules(&self) -> (r: Vec<(Family, Vec<Item>)>)
        requires
            self.inv(),
            self.rules_known(),
        ensures
            pairs_view(r@) == self.spec_illegal_incls(),
    {
        proof {
            assert forall|ki: int|
                0 <= ki < self.inclusions.spec_len() implies self.item_index.contains_key(
                #[trigger] self.inclusions.key_view()[ki],
            ) by {
                assert(self.has_item(self.incl_sel_at(ki)));
            }
            assert forall|ki: int, j: int|
                0 <= ki < self.inclusions.spec_len() && 0 <= j
                    < self.inclusions.val_view()[ki]@.len() implies self.item_index.contains_key(
                #[trigger] items_view(self.inclusions.val_view()[ki]@)[j],
            ) by {
                assert(self.incl_items_at(ki).len() == self.inclusions.val_view()[ki]@.len());
                assert(self.has_item(self.incl_items_at(ki)[j]));
            }
        }
        Self::find_illegal_rules(&self.inclusions, &self.item_index)
    }

    /// Deduplicated same-family exclusion rules.
    pub fn find_illegal_exclude_rules(&self) -> (r: Vec<(Family, Vec<Item>)>)
        requires
            self.inv(),
            self.rules_known(),
        ensures
            pairs_view(r@) == self.spec_illegal_excls(),
    {
        proof {
            assert forall|ki: int|
                0 <= ki < self.exclusions.spec_len() implies self.item_index.contains_key(
                #[trigger] self.exclusions.key_view()[ki],
            ) by {
                assert(self.has_item(self.excl_sel_at(ki)));
            }
            assert forall|ki: int, j: int|
                0 <= ki < self.exclusions.spec_len() && 0 <= j
                    < self.exclusions.val_view()[ki]@.len() implies self.item_index.contains_key(
                #[trigger] items_view(self.exclusions.val_view()[ki]@)[j],
            ) by {
                assert(self.excl_items_at(ki).len() == self.exclusions.val_view()[ki]@.len());
                assert(self.has_item(self.excl_items_at(ki)[j]));
            }
        }
        Self::find_illegal_rules(&self.exclusions, &self.item_index)
    }

    pub closed spec fn spec_illegal_incls(self) -> Seq<(Seq<u8>, Seq<Seq<u8>>)> {
        spec_illegal(self.inclusions, self.item_index)
    }

    pub closed spec fn spec_illegal_excls(self) -> Seq<(Seq<u8>, Seq<Seq<u8>>)> {
        spec_illegal(self.exclusions, self.item_index)
    }
}

// --- compilation --------------------------------------------------------------

impl ClosetBuilder {
    /// Run the three validation passes, first failure wins.
    fn validate(&self) -> (r: Result<(), Error>)
        requires
            self.inv(),
            self.rules_known(),
        ensures
            match r {
                Ok(_) => self.spec_conflicts().len() == 0 && self.spec_illegal_incls().len() == 0
                    && self.spec_illegal_excls().len() == 0,
                Err(e) => match e {
                    Error::ConflictingFamilies(v) => self.spec_conflicts().len() > 0
                        && conflicts_view(v@) == self.spec_conflicts(),
                    Error::InclusionError(v) => self.spec_conflicts().len() == 0
                        && self.spec_illegal_incls().len() > 0 && pairs_view(v@)
                        == self.spec_illegal_incls(),
                    Error::ExclusionError(v) => self.spec_conflicts().len() == 0
                        && self.spec_illegal_incls().len() == 0 && self.spec_illegal_excls().len()
                        > 0 && pairs_view(v@) == self.spec_illegal_excls(),
                },
            },
    {
        let conflicts = self.find_conflicting_families();
        if conflicts.len() > 0 {
            return Err(Error::ConflictingFamilies(conflicts));
        }
        let illegal_incl = self.find_illegal_include_rules();
        if illegal_incl.len() > 0 {
            return Err(Error::InclusionError(illegal_incl));
        }
        let illegal_excl = self.find_illegal_exclude_rules();
        if illegal_excl.len() > 0 {
            return Err(Error::ExclusionError(illegal_excl));
        }
        Ok(())
    }

    /// Compile the catalog: validate it, then conjoin one exactly-one
    /// constraint per family, one clause per exclusion pair and one per
    /// inclusion pair.  The resulting diagram satisfies exactly the
    /// admissible assignments.
    pub fn build(&self) -> (r: Result<Closet, Error>)
        requires
            self.inv(),
            self.rules_known(),
        ensures
            match r {
                Ok(c) => {
                    &&& self.spec_conflicts().len() == 0
                    &&& self.spec_illegal_incls().len() == 0
                    &&& self.spec_illegal_excls().len() == 0
                    &&& c.inv()
                    &&& c.same_index(*self)
                    &&& forall|s: Set<Seq<u8>>|
                        #[trigger] c.spec_root().sat(s) == self.admissible(s)
                },
                Err(e) => match e {
                    Error::ConflictingFamilies(v) => self.spec_conflicts().len() > 0
                        && conflicts_view(v@) == self.spec_conflicts(),
                    Error::InclusionError(v) => self.spec_conflicts().len() == 0
                        && self.spec_illegal_incls().len() > 0 && pairs_view(v@)
                        == self.spec_illegal_incls(),
                    Error::ExclusionError(v) => self.spec_conflicts().len() == 0
                        && self.spec_illegal_incls().len() == 0 && self.spec_illegal_excls().len()
                        > 0 && pairs_view(v@) == self.spec_illegal_excls(),
                },
            },
    {
        match self.validate() {
            Err(e) => {
                return Err(e);
            },
            Ok(_) => {},
        }
        let mut root = Node::true_leaf();
        proof {
            crate::bdd::lemma_leaf_facts();
        }
        let n = self.contents.len();
        let mut fi: usize = 0;
        while fi < n
            invariant
                self.inv(),
                n == self.family_count(),
                0 <= fi <= n,
                root.wf(),
                forall|s: Set<Seq<u8>>| #[trigger] root.sat(s) == self.one_per_family_upto(
                    fi as int,
                    s,
                ),
            decreases n - fi,
        {
            let sib = sibling_relationship(self.contents.val_at(fi));
            let ghost prev = root;
            root = old_term_and(root, &sib);
            proof {
                assert forall|s: Set<Seq<u8>>| #[trigger] root.sat(s)
                    == self.one_per_family_upto(fi + 1, s) by {
                    assert(root.sat(s) == (prev.sat(s) && sib.sat(s)));
                    assert(sib.sat(s) == exactly_one_of(self.fam_items_at(fi as int), s));
                    if prev.sat(s) && sib.sat(s) {
                        assert forall|f2: int|
                            0 <= f2 < fi + 1 implies exactly_one_of(
                            #[trigger] self.fam_items_at(f2),
                            s,
                        ) by {}
                    }
                    if self.one_per_family_upto(fi + 1, s) {
                        assert(exactly_one_of(self.fam_items_at(fi as int), s));
                        assert(self.one_per_family_upto(fi as int, s));
                    }
                }
            }
            fi = fi + 1;
        }
        // exclusion clauses: not selection or not excluded item
        let en = self.exclusions.len();
        let mut ki: usize = 0;
        while ki < en
            invariant
                self.inv(),
                en == self.excl_count(),
                0 <= ki <= en,
                root.wf(),
                forall|s: Set<Seq<u8>>| #[trigger] root.sat(s) == (self.one_per_family(s)
                    && self.excl_ok_upto(ki as int, s)),
            decreases en - ki,
        {
            let sel_item = Item::from_bytes(self.exclusions.key_at(ki));
            let list = self.exclusions.val_at(ki);
            let m = list.len();
            let mut j: usize = 0;
            while j < m
                invariant
                    self.inv(),
                    en == self.excl_count(),
                    0 <= ki < en,
                    m == self.excl_items_at(ki as int).len(),
                    list@ == self.exclusions.val_view()[ki as int]@,
                    sel_item@ == self.excl_sel_at(ki as int),
                    0 <= j <= m,
                    root.wf(),
                    forall|s: Set<Seq<u8>>| #[trigger] root.sat(s) == (self.one_per_family(s)
                        && self.excl_ok_upto(ki as int, s) && self.excl_row_ok(
                        ki as int,
                        j as int,
                        s,
                    )),
                decreases m - j,
            {
                let neg_sel = Node::negative_branch(&sel_item);
                let neg_it = Node::negative_branch(&list[j]);
                let clause = neg_sel.or(&neg_it);
                let ghost prev = root;
                root = old_term_and(root, &clause);
                proof {
                    assert(list@[j as int]@ == self.excl_items_at(ki as int)[j as int]);
                    assert forall|s: Set<Seq<u8>>| #[trigger] root.sat(s) == (
                    self.one_per_family(s) && self.excl_ok_upto(ki as int, s)
                        && self.excl_row_ok(ki as int, j + 1, s)) by {
                        assert(root.sat(s) == (prev.sat(s) && clause.sat(s)));
                        assert(clause.sat(s) == !(s.contains(self.excl_sel_at(ki as int))
                            && s.contains(self.excl_items_at(ki as int)[j as int])));
                        if prev.sat(s) && clause.sat(s) {
                            assert forall|j2: int|
                                0 <= j2 < j + 1 implies !(s.contains(self.excl_sel_at(ki as int))
                                && s.contains(
                                #[trigger] self.excl_items_at(ki as int)[j2],
                            )) by {}
                        }
                        if self.one_per_family(s) && self.excl_ok_upto(ki as int, s)
                            && self.excl_row_ok(ki as int, j + 1, s) {
                            assert(!(s.contains(self.excl_sel_at(ki as int)) && s.contains(
                                self.excl_items_at(ki as int)[j as int],
                            )));
                            assert(self.excl_row_ok(ki as int, j as int, s));
                        }
                    }
                }
                j = j + 1;
            }
            proof {
                assert forall|s: Set<Seq<u8>>| #[trigger] root.sat(s) == (self.one_per_family(s)
                    && self.excl_ok_upto(ki + 1, s)) by {
                    assert(root.sat(s) == (self.one_per_family(s) && self.excl_ok_upto(
                        ki as int,
                        s,
                    ) && self.excl_row_ok(ki as int, m as int, s)));
                    if root.sat(s) {
                        assert forall|k2: int|
                            0 <= k2 < ki + 1 implies self.excl_row_ok(
                            k2,
                            #[trigger] self.excl_items_at(k2).len() as int,
                            s,
                        ) by {}
                    }
                }
            }
            ki = ki + 1;
        }
        // inclusion clauses: not selection or included item
        let inn = self.inclusions.len();
        let mut ii: usize = 0;
        while ii < inn
            invariant
                self.inv(),
                inn == self.incl_count(),
                0 <= ii <= inn,
                root.wf(),
                forall|s: Set<Seq<u8>>| #[trigger] root.sat(s) == (self.one_per_family(s)
                    && self.excl_ok(s) && self.incl_ok_upto(ii as int, s)),
            decreases inn - ii,
        {
            let sel_item = Item::from_bytes(self.inclusions.key_at(ii));
            let list = self.inclusions.val_at(ii);
            let m = list.len();
            let mut j: usize = 0;
            while j < m
                invariant
                    self.inv(),
                    inn == self.incl_count(),
                    0 <= ii < inn,
                    m == self.incl_items_at(ii as int).len(),
                    list@ == self.inclusions.val_view()[ii as int]@,
                    sel_item@ == self.incl_sel_at(ii as int),
                    0 <= j <= m,
                    root.wf(),
                    forall|s: Set<Seq<u8>>| #[trigger] root.sat(s) == (self.one_per_family(s)
                        && self.excl_ok(s) && self.incl_ok_upto(ii as int, s)
                        && self.incl_row_ok(ii as int, j as int, s)),
                decreases m - j,
            {
                let neg_sel = Node::negative_branch(&sel_item);
                let pos_it = Node::positive_branch(&list[j]);
                let clause = neg_sel.or(&pos_it);
                let ghost prev = root;
                root = old_term_and(root, &clause);
                proof {
                    assert(list@[j as int]@ == self.incl_items_at(ii as int)[j as int]);
                    assert forall|s: Set<Seq<u8>>| #[trigger] root.sat(s) == (
                    self.one_per_family(s) && self.excl_ok(s) && self.incl_ok_upto(ii as int, s)
                        && self.incl_row_ok(ii as int, j + 1, s)) by {
                        assert(root.sat(s) == (prev.sat(s) && clause.sat(s)));
                        assert(clause.sat(s) == (!s.contains(self.incl_sel_at(ii as int))
                            || s.contains(self.incl_items_at(ii as int)[j as int])));
                        if prev.sat(s) && clause.sat(s) {
                            assert forall|j2: int|
                                0 <= j2 < j + 1 implies (s.contains(self.incl_sel_at(ii as int))
                                ==> s.contains(
                                #[trigger] self.incl_items_at(ii as int)[j2],
                            )) by {}
                        }
                        if self.one_per_family(s) && self.excl_ok(s) && self.incl_ok_upto(
                            ii as int,
                            s,
                        ) && self.incl_row_ok(ii as int, j + 1, s) {
                            assert(s.contains(self.incl_sel_at(ii as int)) ==> s.contains(
                                self.incl_items_at(ii as int)[j as int],
                            ));
                            assert(self.incl_row_ok(ii as int, j as int, s));
                        }
                    }
                }
                j = j + 1;
            }
            proof {
                assert forall|s: Set<Seq<u8>>| #[trigger] root.sat(s) == (self.one_per_family(s)
                    && self.excl_ok(s) && self.incl_ok_upto(ii + 1, s)) by {
                    assert(root.sat(s) == (self.one_per_family(s) && self.excl_ok(s)
                        && self.incl_ok_upto(ii as int, s) && self.incl_row_ok(
                        ii as int,
                        m as int,
                        s,
                    )));
                    if root.sat(s) {
                        assert forall|k2: int|
                            0 <= k2 < ii + 1 implies self.incl_row_ok(
                            k2,
                            #[trigger] self.incl_items_at(k2).len() as int,
                            s,
                        ) by {}
                    }
                }
            }
            ii = ii + 1;
        }
        let index_copy = self.item_index.duplicate();
        let c = Closet::new(index_copy, root);
        proof {
            self.item_index.lemma_wf_lens();
            index_copy.lemma_wf_lens();
            assert forall|i: int| 0 <= i < c.item_count() implies #[trigger] c.home_at(i)
                == self.home_at(i) by {
                assert(families_view(index_copy.val_view())[i] == families_view(
                    self.item_index.val_view(),
                )[i]);
            }
            assert forall|x: Seq<u8>| c.has_item(x) implies #[trigger] c.home_of(x)
                == self.home_of(x) by {
                index_copy.lemma_contains_index(x);
                let i = index_copy.index_of(x);
                assert(index_copy.key_view()[i] == x);
                assert(self.item_index.key_view()[i] == x);
                self.item_index.lemma_index_of(x, i);
                assert(families_view(index_copy.val_view())[i] == families_view(
                    self.item_index.val_view(),
                )[i]);
            }
            assert(c.same_index(*self));
            assert forall|s: Set<Seq<u8>>| #[trigger] c.spec_root().sat(s) == self.admissible(
                s,
            ) by {}
        }
        Ok(c)
    }

    /// `build`, for catalogs known to validate.
    pub fn must_build(self) -> (c: Closet)
        requires
            self.inv(),
            self.rules_known(),
            self.spec_conflicts().len() == 0,
            self.spec_illegal_incls().len() == 0,
            self.spec_illegal_excls().len() == 0,
        ensures
            c.inv(),
            c.same_index(self),
            forall|s: Set<Seq<u8>>| #[trigger] c.spec_root().sat(s) == self.admissible(s),
    {
        match self.build() {
            Ok(c) => c,
            Err(_) => vstd::pervasive::unreached(),
        }
    }
}

/// When the family never existed and no prefix item created it, the
/// accumulated list is still empty.
proof fn lemma_append_missing_of_empty(
    base: Seq<Seq<u8>>,
    pv: Seq<Seq<u8>>,
    prev: ClosetBuilder,
    orig: ClosetBuilder,
    f: Seq<u8>,
    idx: int,
)
    requires
        base.len() == 0,
        idx >= 0,
        !prev.has_family(f),
        forall|g: Seq<u8>| #[trigger] prev.has_family(g) <==> (orig.has_family(g) || (g == f && idx
            > 0)),
    ensures
        idx == 0,
        pv.len() == 0 ==> append_missing(base, pv) == base,
{
    assert(!(idx > 0)) by {
        if idx > 0 {
            assert(prev.has_family(f));
        }
    }
}

/// One `ensure_key`/`push_item` step on `contents`, translated to the
/// family accessors: family `f` now sits at position `fi`; every other
/// family keeps its list.
proof fn lemma_contents_step(pre: ClosetBuilder, post: ClosetBuilder, f: Seq<u8>, fi: int)
    requires
        pre.contents.wf(),
        post.contents.wf(),
        post.item_index == pre.item_index,
        post.exclusions == pre.exclusions,
        post.inclusions == pre.inclusions,
        0 <= fi < post.family_count(),
        post.family_at(fi) == f,
        pre.has_family(f) ==> {
            &&& post.contents.key_view() == pre.contents.key_view()
            &&& pre.family_index(f) == fi
            &&& forall|j: int|
                0 <= j < pre.family_count() && j != fi ==> post.contents.val_view()[j]
                    == pre.contents.val_view()[j]
        },
        !pre.has_family(f) ==> {
            &&& fi <= pre.family_count()
            &&& post.family_count() == pre.family_count() + 1
            &&& post.contents.key_view() == pre.contents.key_view().insert(fi, f)
            &&& post.contents.val_view() == pre.contents.val_view().insert(
                fi,
                post.contents.val_view()[fi],
            )
        },
    ensures
        forall|g: Seq<u8>| #[trigger] post.has_family(g) <==> (pre.has_family(g) || g == f),
        post.has_family(f),
        post.family_index(f) == fi,
        forall|g: Seq<u8>|
            #[trigger] pre.has_family(g) && g != f ==> post.has_family(g) && post.items_of(g)
                == pre.items_of(g),
        forall|i: int|
            0 <= i < post.family_count() && i != fi && pre.has_family(#[trigger] post.family_at(
                i,
            )) ==> post.fam_items_at(i) == pre.items_of(post.family_at(i)),
        post.has_item(f) == pre.has_item(f),
        forall|x: Seq<u8>| #[trigger] post.has_item(x) == pre.has_item(x),
        forall|x: Seq<u8>| #[trigger] post.home_of(x) == pre.home_of(x),
{
    post.contents.lemma_index_of(f, fi);
    if pre.has_family(f) {
        assert forall|g: Seq<u8>| #[trigger] post.has_family(g) <==> (pre.has_family(g) || g
            == f) by {
            if post.has_family(g) {
                post.contents.lemma_contains_index(g);
            }
            if pre.has_family(g) {
                pre.contents.lemma_contains_index(g);
            }
        }
        assert forall|g: Seq<u8>|
            #[trigger] pre.has_family(g) && g != f implies post.has_family(g) && post.items_of(g)
            == pre.items_of(g) by {
            pre.contents.lemma_contains_index(g);
            let i = pre.family_index(g);
            post.contents.lemma_index_of(g, i);
            assert(i != fi);
            assert(post.contents.val_view()[i] == pre.contents.val_view()[i]);
        }
        assert forall|i: int|
            0 <= i < post.family_count() && i != fi && pre.has_family(#[trigger] post.family_at(
                i,
            )) implies post.fam_items_at(i) == pre.items_of(post.family_at(i)) by {
            let g = post.family_at(i);
            pre.contents.lemma_contains_index(g);
            pre.contents.lemma_index_of(g, i);
            assert(post.contents.val_view()[i] == pre.contents.val_view()[i]);
        }
    } else {
        KeyedVec::<Vec<Item>>::lemma_insert_effect(
            pre.contents,
            post.contents,
            fi,
            f,
            post.contents.val_view()[fi],
        );
        assert forall|g: Seq<u8>|
            #[trigger] pre.has_family(g) && g != f implies post.has_family(g) && post.items_of(g)
            == pre.items_of(g) by {
            assert(post.contents.contains_key(g));
            assert(post.contents.val_view()[post.contents.index_of(g)]
                == pre.contents.val_view()[pre.contents.index_of(g)]);
        }
        assert forall|i: int|
            0 <= i < post.family_count() && i != fi && pre.has_family(#[trigger] post.family_at(
                i,
            )) implies post.fam_items_at(i) == pre.items_of(post.family_at(i)) by {
            let g = post.family_at(i);
            post.contents.lemma_index_of(g, i);
            assert(post.contents.val_view()[post.contents.index_of(g)]
                == pre.contents.val_view()[pre.contents.index_of(g)]);
        }
    }
}

/// One `ensure_key` step on the item index, translated to the accessors.
proof fn lemma_index_step(pre: ClosetBuilder, post: ClosetBuilder, it: Seq<u8>, ii: int)
    requires
        pre.item_index.wf(),
        post.item_index.wf(),
        post.contents == pre.contents,
        post.exclusions == pre.exclusions,
        post.inclusions == pre.inclusions,
        0 <= ii < post.item_count(),
        post.item_at(ii) == it,
        pre.has_item(it) ==> post.item_index == pre.item_index,
        !pre.has_item(it) ==> {
            &&& ii <= pre.item_count()
            &&& post.item_count() == pre.item_count() + 1
            &&& post.item_index.key_view() == pre.item_index.key_view().insert(ii, it)
            &&& post.item_index.val_view() == pre.item_index.val_view().insert(
                ii,
                post.item_index.val_view()[ii],
            )
        },
    ensures
        forall|x: Seq<u8>| #[trigger] post.has_item(x) <==> (pre.has_item(x) || x == it),
        post.has_item(it),
        post.home_of(it) == post.item_index.val_view()[ii]@,
        forall|x: Seq<u8>| #[trigger] pre.has_item(x) ==> post.home_of(x) == pre.home_of(x),
        forall|g: Seq<u8>| #[trigger] post.has_family(g) == pre.has_family(g),
        forall|g: Seq<u8>| #[trigger] post.items_of(g) == pre.items_of(g),
        forall|i: int| #[trigger] post.fam_items_at(i) == pre.fam_items_at(i),
        post.family_count() == pre.family_count(),
        forall|i: int| #[trigger] post.family_at(i) == pre.family_at(i),
{
    post.item_index.lemma_index_of(it, ii);
    if pre.has_item(it) {
        assert forall|x: Seq<u8>| #[trigger] post.has_item(x) <==> (pre.has_item(x) || x
            == it) by {
            if post.has_item(x) {
                post.item_index.lemma_contains_index(x);
            }
        }
    } else {
        KeyedVec::<Family>::lemma_insert_effect(
            pre.item_index,
            post.item_index,
            ii,
            it,
            post.item_index.val_view()[ii],
        );
        assert forall|x: Seq<u8>| #[trigger] pre.has_item(x) implies post.home_of(x)
            == pre.home_of(x) by {
            assert(post.item_index.val_view()[post.item_index.index_of(x)]
                == pre.item_index.val_view()[pre.item_index.index_of(x)]);
        }
    }
}

/// Uniqueness of the items in every family list, after `add_item`.
proof fn lemma_add_item_unique(
    pre: ClosetBuilder,
    mid: ClosetBuilder,
    post: ClosetBuilder,
    f: Seq<u8>,
    it: Seq<u8>,
    fi: int,
    i: int,
    j: int,
    k: int,
)
    requires
        pre.inv(),
        mid.contents.wf(),
        post.contents.wf(),
        0 <= fi < mid.family_count(),
        mid.family_at(fi) == f,
        forall|g: Seq<u8>| #[trigger] mid.has_family(g) <==> (pre.has_family(g) || g == f),
        forall|i2: int|
            0 <= i2 < mid.family_count() && i2 != fi && pre.has_family(
                #[trigger] mid.family_at(i2),
            ) ==> mid.fam_items_at(i2) == pre.items_of(mid.family_at(i2)),
        mid.fam_items_at(fi) == if pre.has_family(f) {
            pre.items_of(f)
        } else {
            Seq::<Seq<u8>>::empty()
        },
        post.family_count() == mid.family_count(),
        forall|i2: int| #[trigger] post.family_at(i2) == mid.family_at(i2),
        forall|i2: int|
            0 <= i2 < post.family_count() && i2 != fi ==> #[trigger] post.fam_items_at(i2)
                == mid.fam_items_at(i2),
        post.fam_items_at(fi) == mid.fam_items_at(fi) || (!mid.fam_items_at(fi).contains(it)
            && post.fam_items_at(fi) == mid.fam_items_at(fi).push(it)),
        0 <= i < post.family_count(),
        0 <= j < k < post.fam_items_at(i).len(),
    ensures
        post.fam_items_at(i)[j] != post.fam_items_at(i)[k],
{
    let g = post.family_at(i);
    if i != fi {
        assert(post.fam_items_at(i) == mid.fam_items_at(i));
        assert(mid.has_family(g)) by {
            mid.contents.lemma_index_of(g, i);
        }
        assert(g != f) by {
            if g == f {
                mid.contents.lemma_index_of(f, fi);
                mid.contents.lemma_keys_unique(i, fi);
            }
        }
        assert(pre.has_family(g));
        pre.lemma_family_witness(g);
        assert(mid.fam_items_at(i) == pre.items_of(g));
        assert(pre.fam_items_at(pre.family_index(g))[j] != pre.fam_items_at(
            pre.family_index(g),
        )[k]);
    } else {
        let base = mid.fam_items_at(fi);
        assert forall|p: int, q: int| 0 <= p < q < base.len() implies base[p] != base[q] by {
            if pre.has_family(f) {
                pre.lemma_family_witness(f);
            }
        }
        if post.fam_items_at(fi) == base {
        } else {
            assert(!base.contains(it));
            if k < base.len() {
            } else {
                assert(post.fam_items_at(fi)[k] == it);
                assert(post.fam_items_at(fi)[j] == base[j]);
            }
        }
    }
}

/// Every listed item is known to the index, after `add_item`.
proof fn lemma_add_item_known(
    pre: ClosetBuilder,
    mid: ClosetBuilder,
    cdone: ClosetBuilder,
    post: ClosetBuilder,
    f: Seq<u8>,
    it: Seq<u8>,
    fi: int,
    i: int,
    j: int,
)
    requires
        pre.inv(),
        mid.contents.wf(),
        cdone.contents.wf(),
        0 <= fi < mid.family_count(),
        mid.family_at(fi) == f,
        forall|i2: int|
            0 <= i2 < mid.family_count() && i2 != fi && pre.has_family(
                #[trigger] mid.family_at(i2),
            ) ==> mid.fam_items_at(i2) == pre.items_of(mid.family_at(i2)),
        forall|g: Seq<u8>| #[trigger] mid.has_family(g) <==> (pre.has_family(g) || g == f),
        mid.fam_items_at(fi) == if pre.has_family(f) {
            pre.items_of(f)
        } else {
            Seq::<Seq<u8>>::empty()
        },
        cdone.family_count() == mid.family_count(),
        forall|i2: int| #[trigger] cdone.family_at(i2) == mid.family_at(i2),
        forall|i2: int|
            0 <= i2 < cdone.family_count() && i2 != fi ==> #[trigger] cdone.fam_items_at(i2)
                == mid.fam_items_at(i2),
        cdone.fam_items_at(fi) == mid.fam_items_at(fi) || cdone.fam_items_at(fi)
            == mid.fam_items_at(fi).push(it),
        post.family_count() == cdone.family_count(),
        forall|i2: int| #[trigger] post.fam_items_at(i2) == cdone.fam_items_at(i2),
        forall|i2: int| #[trigger] post.family_at(i2) == cdone.family_at(i2),
        forall|x: Seq<u8>| #[trigger] post.has_item(x) <==> (pre.has_item(x) || x == it),
        0 <= i < post.family_count(),
        0 <= j < post.fam_items_at(i).len(),
    ensures
        post.has_item(post.fam_items_at(i)[j]),
{
    let x = post.fam_items_at(i)[j];
    let g = mid.family_at(i);
    if i != fi {
        assert(post.fam_items_at(i) == mid.fam_items_at(i));
        assert(mid.has_family(g)) by {
            mid.contents.lemma_index_of(g, i);
        }
        assert(g != f) by {
            if g == f {
                mid.contents.lemma_index_of(f, fi);
                mid.contents.lemma_keys_unique(i, fi);
            }
        }
        pre.lemma_family_witness(g);
        assert(mid.fam_items_at(i) == pre.items_of(g));
        assert(pre.has_item(pre.fam_items_at(pre.family_index(g))[j]));
    } else {
        let base = mid.fam_items_at(fi);
        if j < base.len() {
            assert(post.fam_items_at(fi)[j] == base[j]);
            if pre.has_family(f) {
                pre.lemma_family_witness(f);
                assert(pre.has_item(pre.fam_items_at(pre.family_index(f))[j]));
            }
        } else {
            assert(post.fam_items_at(fi) == base.push(it));
            assert(x == it);
        }
    }
}

} // verus!
