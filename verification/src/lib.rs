//! A verified combinatorial configuration engine built on decision diagrams.
//!
//! Items are grouped into families; an admissible configuration ("outfit")
//! chooses exactly one item per family while honouring pairwise exclusion and
//! inclusion rules.  Two diagram engines carry the semantics: a reduced
//! ordered binary decision diagram (`bdd`) encoding the characteristic
//! function of admissible configurations, and a zero-suppressed decision
//! diagram (`zdd`) encoding the family of admissible sets directly.

pub mod bdd;
pub mod closet;
pub mod closet_builder;
pub mod items;
pub mod keyed;
pub mod laws;
pub mod order;
pub mod zdd;
