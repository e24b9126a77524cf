//! Catalog vocabulary: items, families, outfits and per-item status.
//!
//! An `Item` names a selectable thing and a `Family` names the partition
//! cell it belongs to.  Both are opaque identifiers modelled by their byte
//! sequence; equality and the total `order::lex_lt` order are all the engine
//! ever needs from them.

use vstd::prelude::*;
use vstd::slice::slice_to_vec;
use vstd::string::StringSliceAdditionalSpecFns;

use crate::order::{bytes_eq, bytes_lt, lex_lt};

verus! {

/// An opaque identifier for a selectable thing.
#[derive(Debug)]
pub struct Item {
    name: Vec<u8>,
}

impl View for Item {
    type V = Seq<u8>;

    closed spec fn view(&self) -> Seq<u8> {
        self.name@
    }
}

impl Item {
    pub fn new(name: &str) -> (item: Item)
        ensures
            item@ == name.spec_bytes(),
    {
        Item { name: slice_to_vec(name.as_bytes()) }
    }
}

impl Item {
    /// An item named by raw bytes.
    pub fn from_bytes(b: &[u8]) -> (item: Item)
        ensures
            item@ == b@,
    {
        Item { name: slice_to_vec(b) }
    }
}

impl Clone for Item {
    fn clone(&self) -> (other: Item)
        ensures
            other@ == self@,
    {
        Item { name: slice_to_vec(self.name.as_slice()) }
    }
}

impl PartialEq for Item {
    fn eq(&self, other: &Item) -> (r: bool) {
        bytes_eq(self.name.as_slice(), other.name.as_slice())
    }
}

impl vstd::std_specs::cmp::PartialEqSpecImpl for Item {
    open spec fn obeys_eq_spec() -> bool {
        true
    }

    open spec fn eq_spec(&self, other: &Item) -> bool {
        self@ == other@
    }
}

/// Decide whether two items have the same name.
pub fn item_eq(a: &Item, b: &Item) -> (r: bool)
    ensures
        r == (a@ == b@),
{
    bytes_eq(a.name.as_slice(), b.name.as_slice())
}

/// Borrow the item's name bytes.
pub fn item_bytes(a: &Item) -> (r: &[u8])
    ensures
        r@ == a@,
{
    a.name.as_slice()
}

/// Borrow the family's name bytes.
pub fn family_bytes(a: &Family) -> (r: &[u8])
    ensures
        r@ == a@,
{
    a.name.as_slice()
}

/// `a` comes strictly before `b` in the global identifier order.
pub fn item_lt(a: &Item, b: &Item) -> (r: bool)
    ensures
        r == lex_lt(a@, b@),
{
    bytes_lt(a.name.as_slice(), b.name.as_slice())
}

/// An opaque identifier for a partition cell of items.
#[derive(Debug)]
pub struct Family {
    name: Vec<u8>,
}

impl View for Family {
    type V = Seq<u8>;

    closed spec fn view(&self) -> Seq<u8> {
        self.name@
    }
}

impl Family {
    pub fn new(name: &str) -> (family: Family)
        ensures
            family@ == name.spec_bytes(),
    {
        Family { name: slice_to_vec(name.as_bytes()) }
    }
}

impl Family {
    /// A family named by raw bytes.
    pub fn from_bytes(b: &[u8]) -> (family: Family)
        ensures
            family@ == b@,
    {
        Family { name: slice_to_vec(b) }
    }
}

impl Clone for Family {
    fn clone(&self) -> (other: Family)
        ensures
            other@ == self@,
    {
        Family { name: slice_to_vec(self.name.as_slice()) }
    }
}

impl PartialEq for Family {
    fn eq(&self, other: &Family) -> (r: bool) {
        bytes_eq(self.name.as_slice(), other.name.as_slice())
    }
}

impl vstd::std_specs::cmp::PartialEqSpecImpl for Family {
    open spec fn obeys_eq_spec() -> bool {
        true
    }

    open spec fn eq_spec(&self, other: &Family) -> bool {
        self@ == other@
    }
}

/// The byte views of a sequence of items.
pub open spec fn items_view(s: Seq<Item>) -> Seq<Seq<u8>> {
    s.map_values(|it: Item| it@)
}

/// The byte views of a sequence of families.
pub open spec fn families_view(s: Seq<Family>) -> Seq<Seq<u8>> {
    s.map_values(|f: Family| f@)
}

/// Decide equality of two item sequences by their views.
pub fn items_eq(a: &Vec<Item>, b: &Vec<Item>) -> (r: bool)
    ensures
        r == (items_view(a@) == items_view(b@)),
{
    if a.len() != b.len() {
        proof {
            assert(items_view(a@).len() != items_view(b@).len());
        }
        return false;
    }
    let mut i: usize = 0;
    while i < a.len()
        invariant
            0 <= i <= a@.len(),
            a@.len() == b@.len(),
            forall|j: int| 0 <= j < i ==> a@[j]@ == b@[j]@,
        decreases a@.len() - i,
    {
        if !(a[i] == b[i]) {
            proof {
                assert(items_view(a@)[i as int] != items_view(b@)[i as int]);
            }
            return false;
        }
        i = i + 1;
    }
    proof {
        assert(items_view(a@) =~= items_view(b@));
    }
    true
}

/// Decide whether an item with this name occurs in the list.
pub fn items_contains(list: &Vec<Item>, item: &Item) -> (r: bool)
    ensures
        r == items_view(list@).contains(item@),
{
    let mut i: usize = 0;
    while i < list.len()
        invariant
            0 <= i <= list@.len(),
            forall|j: int| 0 <= j < i ==> items_view(list@)[j] != item@,
        decreases list@.len() - i,
    {
        if item_eq(&list[i], item) {
            proof {
                assert(items_view(list@)[i as int] == item@);
            }
            return true;
        }
        i = i + 1;
    }
    proof {
        assert forall|j: int| 0 <= j < items_view(list@).len() implies items_view(list@)[j]
            != item@ by {}
    }
    false
}

/// Copy a list of items, preserving the views.
pub fn clone_items(list: &Vec<Item>) -> (r: Vec<Item>)
    ensures
        items_view(r@) == items_view(list@),
{
    let mut r: Vec<Item> = Vec::new();
    let mut i: usize = 0;
    while i < list.len()
        invariant
            0 <= i <= list@.len(),
            r@.len() == i,
            forall|j: int| 0 <= j < i ==> #[trigger] r@[j]@ == list@[j]@,
        decreases list@.len() - i,
    {
        r.push(list[i].clone());
        i = i + 1;
    }
    proof {
        assert(items_view(r@) =~= items_view(list@));
    }
    r
}

/// A complete admissible selection: exactly one item per family.
#[derive(Debug)]
pub struct Outfit {
    items: Vec<Item>,
}

impl View for Outfit {
    type V = Seq<Seq<u8>>;

    closed spec fn view(&self) -> Seq<Seq<u8>> {
        items_view(self.items@)
    }
}

impl Outfit {
    pub fn new(items: Vec<Item>) -> (outfit: Outfit)
        ensures
            outfit@ == items_view(items@),
    {
        Outfit { items }
    }

    pub fn items(&self) -> (r: &Vec<Item>)
        ensures
            items_view(r@) == self@,
    {
        &self.items
    }
}

impl Clone for Outfit {
    fn clone(&self) -> (other: Outfit)
        ensures
            other@ == self@,
    {
        let mut items: Vec<Item> = Vec::new();
        let mut i: usize = 0;
        while i < self.items.len()
            invariant
                0 <= i <= self.items@.len(),
                items_view(items@) =~= items_view(self.items@).take(i as int),
            decreases self.items@.len() - i,
        {
            let it = self.items[i].clone();
            let ghost prev = items@;
            items.push(it);
            proof {
                assert(items@ == prev.push(it));
                assert(items_view(prev) == items_view(self.items@).take(i as int));
                assert(items_view(prev).len() == prev.len());
                assert(items_view(self.items@).take(i as int).len() == i as int);
                assert(prev.len() == i as int);
                assert(items@[i as int] == it);
                assert forall|j: int| 0 <= j < i + 1 implies items_view(items@)[j] == items_view(
                    self.items@,
                )[j] by {
                    if j < i {
                        assert(items@[j] == prev[j]);
                        assert(items_view(prev)[j] == items_view(self.items@).take(i as int)[j]);
                    } else {
                        assert(items_view(items@)[j] == it@);
                    }
                }
                assert(items_view(items@) =~= items_view(self.items@).take(i + 1));
            }
            i = i + 1;
        }
        proof {
            assert(items_view(self.items@).take(self.items@.len() as int) =~= items_view(
                self.items@,
            ));
        }
        Outfit { items }
    }
}

impl PartialEq for Outfit {
    fn eq(&self, other: &Outfit) -> (r: bool) {
        items_eq(&self.items, &other.items)
    }
}

impl vstd::std_specs::cmp::PartialEqSpecImpl for Outfit {
    open spec fn obeys_eq_spec() -> bool {
        true
    }

    open spec fn eq_spec(&self, other: &Outfit) -> bool {
        self@ == other@
    }
}

} // verus!
