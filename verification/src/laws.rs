//! The engine's algebraic laws, each proved from the public contracts of
//! the diagram operations and the compiler.

use vstd::prelude::*;

use crate::bdd::lemma_canonical;
use crate::closet::Closet;
use crate::closet_builder::ClosetBuilder;

verus! {

/// Reduction canonicality: any two well-formed roots that satisfy the
/// compiler's semantic contract for the same catalog are structurally
/// equivalent.  Building the same catalog twice yields the same diagram.
pub proof fn lemma_build_canonical(b: ClosetBuilder, c1: Closet, c2: Closet)
    requires
        c1.inv(),
        c2.inv(),
        forall|s: Set<Seq<u8>>| #[trigger] c1.spec_root().sat(s) == b.admissible(s),
        forall|s: Set<Seq<u8>>| #[trigger] c2.spec_root().sat(s) == b.admissible(s),
    ensures
        c1.spec_root().eqv(c2.spec_root()),
{
    assert forall|s: Set<Seq<u8>>| c1.spec_root().sat(s) == c2.spec_root().sat(s) by {}
    c1.lemma_inv_root();
    c2.lemma_inv_root();
    lemma_canonical(c1.spec_root(), c2.spec_root());
}

/// Select–exclude duality: conditioning on an item being chosen and on it
/// being rejected splits the original admissible set exactly.
pub proof fn lemma_select_exclude_partition(c: Closet, sel: Closet, exc: Closet, x: Seq<u8>)
    requires
        forall|s: Set<Seq<u8>>| #[trigger] sel.spec_root().sat(s) == c.spec_root().sat(
            s.insert(x),
        ),
        forall|s: Set<Seq<u8>>| #[trigger] exc.spec_root().sat(s) == c.spec_root().sat(
            s.remove(x),
        ),
    ensures
        forall|s: Set<Seq<u8>>|
            #[trigger] c.spec_root().sat(s) == if s.contains(x) {
                sel.spec_root().sat(s)
            } else {
                exc.spec_root().sat(s)
            },
{
    assert forall|s: Set<Seq<u8>>|
        #[trigger] c.spec_root().sat(s) == if s.contains(x) {
            sel.spec_root().sat(s)
        } else {
            exc.spec_root().sat(s)
        } by {
        if s.contains(x) {
            assert(s.insert(x) =~= s);
        } else {
            assert(s.remove(x) =~= s);
        }
    }
}

/// Idempotence of fixing: selecting the same item twice leaves the diagram
/// structurally unchanged.
pub proof fn lemma_select_idempotent(c: Closet, once: Closet, twice: Closet, x: Seq<u8>)
    requires
        once.inv(),
        twice.inv(),
        forall|s: Set<Seq<u8>>| #[trigger] once.spec_root().sat(s) == c.spec_root().sat(
            s.insert(x),
        ),
        forall|s: Set<Seq<u8>>| #[trigger] twice.spec_root().sat(s) == once.spec_root().sat(
            s.insert(x),
        ),
    ensures
        twice.spec_root().eqv(once.spec_root()),
{
    assert forall|s: Set<Seq<u8>>| twice.spec_root().sat(s) == once.spec_root().sat(s) by {
        assert(s.insert(x).insert(x) =~= s.insert(x));
    }
    once.lemma_inv_root();
    twice.lemma_inv_root();
    lemma_canonical(twice.spec_root(), once.spec_root());
}

/// Idempotence of rejecting: excluding the same item twice leaves the
/// diagram structurally unchanged.
pub proof fn lemma_exclude_idempotent(c: Closet, once: Closet, twice: Closet, x: Seq<u8>)
    requires
        once.inv(),
        twice.inv(),
        forall|s: Set<Seq<u8>>| #[trigger] once.spec_root().sat(s) == c.spec_root().sat(
            s.remove(x),
        ),
        forall|s: Set<Seq<u8>>| #[trigger] twice.spec_root().sat(s) == once.spec_root().sat(
            s.remove(x),
        ),
    ensures
        twice.spec_root().eqv(once.spec_root()),
{
    assert forall|s: Set<Seq<u8>>| twice.spec_root().sat(s) == once.spec_root().sat(s) by {
        assert(s.remove(x).remove(x) =~= s.remove(x));
    }
    once.lemma_inv_root();
    twice.lemma_inv_root();
    lemma_canonical(twice.spec_root(), once.spec_root());
}

/// Commutativity of fixing: selecting two items in either order yields the
/// same diagram.
pub proof fn lemma_select_commutes(
    c: Closet,
    xy: Closet,
    yx: Closet,
    mid_x: Closet,
    mid_y: Closet,
    x: Seq<u8>,
    y: Seq<u8>,
)
    requires
        xy.inv(),
        yx.inv(),
        forall|s: Set<Seq<u8>>| #[trigger] mid_x.spec_root().sat(s) == c.spec_root().sat(
            s.insert(x),
        ),
        forall|s: Set<Seq<u8>>| #[trigger] xy.spec_root().sat(s) == mid_x.spec_root().sat(
            s.insert(y),
        ),
        forall|s: Set<Seq<u8>>| #[trigger] mid_y.spec_root().sat(s) == c.spec_root().sat(
            s.insert(y),
        ),
        forall|s: Set<Seq<u8>>| #[trigger] yx.spec_root().sat(s) == mid_y.spec_root().sat(
            s.insert(x),
        ),
    ensures
        xy.spec_root().eqv(yx.spec_root()),
{
    assert forall|s: Set<Seq<u8>>| xy.spec_root().sat(s) == yx.spec_root().sat(s) by {
        assert(s.insert(y).insert(x) =~= s.insert(x).insert(y));
    }
    xy.lemma_inv_root();
    yx.lemma_inv_root();
    lemma_canonical(xy.spec_root(), yx.spec_root());
}

/// Rule semantics, exclusions: no satisfying assignment of a compiled
/// catalog holds both ends of a stored exclusion pair.
pub proof fn lemma_exclusion_respected(
    b: ClosetBuilder,
    c: Closet,
    s: Set<Seq<u8>>,
    ki: int,
    j: int,
)
    requires
        forall|t: Set<Seq<u8>>| #[trigger] c.spec_root().sat(t) == b.admissible(t),
        c.spec_root().sat(s),
        0 <= ki < b.excl_count(),
        0 <= j < b.excl_items_at(ki).len(),
    ensures
        !(s.contains(b.excl_sel_at(ki)) && s.contains(b.excl_items_at(ki)[j])),
{
    assert(b.admissible(s));
    assert(b.excl_row_ok(ki, b.excl_items_at(ki).len() as int, s));
}

/// Rule semantics, inclusions: every satisfying assignment that holds a
/// stored inclusion's selection also holds its listed inclusion.
pub proof fn lemma_inclusion_respected(
    b: ClosetBuilder,
    c: Closet,
    s: Set<Seq<u8>>,
    ki: int,
    j: int,
)
    requires
        forall|t: Set<Seq<u8>>| #[trigger] c.spec_root().sat(t) == b.admissible(t),
        c.spec_root().sat(s),
        0 <= ki < b.incl_count(),
        0 <= j < b.incl_items_at(ki).len(),
        s.contains(b.incl_sel_at(ki)),
    ensures
        s.contains(b.incl_items_at(ki)[j]),
{
    assert(b.admissible(s));
    assert(b.incl_row_ok(ki, b.incl_items_at(ki).len() as int, s));
}

/// Rule semantics, completeness: without rules, exactly the one-per-family
/// assignments satisfy a compiled catalog; in general every admissible
/// assignment does.
pub proof fn lemma_admissible_satisfies(b: ClosetBuilder, c: Closet, s: Set<Seq<u8>>)
    requires
        forall|t: Set<Seq<u8>>| #[trigger] c.spec_root().sat(t) == b.admissible(t),
        b.admissible(s),
    ensures
        c.spec_root().sat(s),
{
}

/// A successful pick is a catalog item of the requested family whose choice
/// stays compatible.
proof fn lemma_pick_from_props(c: Closet, f: Seq<u8>, fixed: Set<Seq<u8>>, i: int, x: Seq<u8>)
    requires
        c.inv(),
        c.pick_from(f, fixed, i) == Option::Some(x),
    ensures
        c.has_item(x),
        c.home_of(x) == f,
        c.compatible(fixed.insert(x)),
    decreases c.item_count() - i,
{
    if i < 0 || i >= c.item_count() {
    } else if c.home_at(i) == f && c.compatible(fixed.insert(c.item_at(i))) {
        c.lemma_item_at(i);
    } else {
        lemma_pick_from_props(c, f, fixed, i + 1, x);
    }
}

/// Outfit-completion soundness, the structural half: a completed outfit
/// names one catalog item for each family, in family-list order, and keeps
/// every selection of a family.  (That the outfit's characteristic
/// assignment also satisfies the diagram follows semantically from the
/// compiler contract but is not stated here as a machine-checked theorem.)
pub proof fn lemma_completion_covers_families(
    c: Closet,
    sels: Set<Seq<u8>>,
    fams: Seq<Seq<u8>>,
    fixed: Set<Seq<u8>>,
    fi: int,
    ov: Seq<Seq<u8>>,
)
    requires
        c.inv(),
        0 <= fi <= fams.len(),
        c.complete_from(sels, fams, fixed, fi) == Option::Some(ov),
    ensures
        ov.len() == fams.len() - fi,
        forall|k: int|
            0 <= k < ov.len() ==> c.has_item(#[trigger] ov[k]) && c.home_of(ov[k]) == fams[
                fi + k],
        forall|k: int|
            0 <= k < ov.len() && c.family_selected(sels, fams[fi + k]) ==> #[trigger] ov[k]
                == c.selected_of(sels, fams[fi + k]),
    decreases fams.len() - fi,
{
    if fi == fams.len() {
    } else {
        let cho = if c.family_selected(sels, fams[fi]) {
            Option::Some(c.selected_of(sels, fams[fi]))
        } else {
            c.pick_from(fams[fi], fixed, 0)
        };
        let x = cho->Some_0;
        let rest = c.complete_from(sels, fams, fixed.insert(x), fi + 1)->Some_0;
        assert(ov == seq![x] + rest);
        if c.family_selected(sels, fams[fi]) {
            let y = c.selected_of(sels, fams[fi]);
            assert(sels.contains(y) && c.has_item(y) && c.home_of(y) == fams[fi]);
        } else {
            lemma_pick_from_props(c, fams[fi], fixed, 0, x);
        }
        lemma_completion_covers_families(c, sels, fams, fixed.insert(x), fi + 1, rest);
        assert forall|k: int|
            0 <= k < ov.len() implies c.has_item(#[trigger] ov[k]) && c.home_of(ov[k]) == fams[
            fi + k] by {
            if k > 0 {
                assert(ov[k] == rest[k - 1]);
            }
        }
        assert forall|k: int|
            0 <= k < ov.len() && c.family_selected(sels, fams[fi + k]) implies #[trigger] ov[k]
            == c.selected_of(sels, fams[fi + k]) by {
            if k > 0 {
                assert(ov[k] == rest[k - 1]);
            }
        }
    }
}

/// The items of a completed outfit belong to pairwise distinct families:
/// together with the family coverage above, the outfit holds exactly one
/// item per catalog family.
pub proof fn lemma_completion_one_per_family(
    c: Closet,
    sels: Set<Seq<u8>>,
    fams: Seq<Seq<u8>>,
    ov: Seq<Seq<u8>>,
    k1: int,
    k2: int,
)
    requires
        c.inv(),
        c.is_family_list(fams),
        c.complete_from(sels, fams, sels, 0) == Option::Some(ov),
        0 <= k1 < k2 < ov.len(),
    ensures
        c.home_of(ov[k1]) != c.home_of(ov[k2]),
{
    lemma_completion_covers_families(c, sels, fams, sels, 0, ov);
    assert(crate::order::lex_lt(fams[k1], fams[k2]));
    crate::order::lemma_lex_irrefl(fams[k1]);
}

} // verus!
