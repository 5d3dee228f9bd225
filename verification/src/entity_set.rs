//! Sets of entities, held in `bevy_ecs`'s `SparseSet<Entity, ()>`.
//!
//! Entities are carried through the library as the `u64` produced by `Entity::to_bits`
//! (index in the low 32 bits, generation in the high 32 bits).  A sparse set is keyed by the
//! entity *index* only, so two ids that share their low 32 bits occupy the same slot.
use bevy_ecs::entity::Entity;
use bevy_ecs::storage::SparseSet;
use vstd::prelude::*;

verus! {

#[verifier::external_type_specification]
#[verifier::external_body]
pub struct ExEntity(Entity);

#[verifier::external_type_specification]
#[verifier::external_body]
#[verifier::reject_recursive_types(I)]
#[verifier::reject_recursive_types(V)]
pub struct ExSparseSet<I, V: 'static>(SparseSet<I, V>);

/// Set of unique entities.
pub type EntitySet = SparseSet<Entity, ()>;

/// The entity ids held by a set, in the order in which they were first inserted.
pub uninterp spec fn entity_set_ids(s: SparseSet<Entity, ()>) -> Seq<u64>;

/// `id` is a bit pattern that `Entity::from_bits` accepts: a non-zero generation without the
/// placeholder flag in the high 32 bits.
pub open spec fn is_entity_bits(id: u64) -> bool {
    0x1_0000_0000u64 <= id && id < 0x8000_0000_0000_0000u64
}

/// The sparse-set slot of an entity id: its index, i.e. its low 32 bits.
pub open spec fn slot(id: u64) -> int {
    id as int % 0x1_0000_0000
}

/// Some id of `ids` occupies the slot of `id`.
pub open spec fn holds(ids: Seq<u64>, id: u64) -> bool {
    exists|i: int| 0 <= i < ids.len() && #[trigger] slot(ids[i]) == slot(id)
}

/// Every id is a valid entity bit pattern and no two ids share a slot.
pub open spec fn ids_valid(ids: Seq<u64>) -> bool {
    &&& forall|i: int| 0 <= i < ids.len() ==> is_entity_bits(#[trigger] ids[i])
    &&& forall|i: int, j: int|
        0 <= i < ids.len() && 0 <= j < ids.len() && i != j ==> slot(#[trigger] ids[i]) != slot(
            #[trigger] ids[j],
        )
}

/// What inserting `id` does to the ids of a set.
pub open spec fn inserted(ids: Seq<u64>, id: u64) -> Seq<u64> {
    if holds(ids, id) {
        ids
    } else {
        ids.push(id)
    }
}

/// Wraps `SparseSet::new`: the new set holds no id.
#[verifier::external_body]
fn sparse_set_new() -> (s: EntitySet)
    ensures
        entity_set_ids(s) == Seq::<u64>::empty(),
{
    SparseSet::new()
}

/// Wraps `SparseSet::insert` with the entity rebuilt by `Entity::from_bits`.
/// `insert` looks the slot up in the sparse array: when it is taken, only the stored value is
/// overwritten (with `()`), so the ids are unchanged; otherwise the entity is pushed at the end
/// of the dense list.  `from_bits` panics on bits that are not an entity, and `insert` panics
/// when the dense length would reach `usize::MAX`; `requires` leaves both out.
#[verifier::external_body]
pub(crate) fn set_insert(s: &mut EntitySet, id: u64)
    requires
        is_entity_bits(id),
        entity_set_ids(*old(s)).len() < usize::MAX,
    ensures
        entity_set_ids(*final(s)) == inserted(entity_set_ids(*old(s)), id),
{
    s.insert(Entity::from_bits(id), ());
}

/// Wraps `SparseSet::contains`: true when the slot of `id` is occupied.
#[verifier::external_body]
pub(crate) fn set_contains(s: &EntitySet, id: u64) -> (r: bool)
    requires
        is_entity_bits(id),
    ensures
        r == holds(entity_set_ids(*s), id),
{
    s.contains(Entity::from_bits(id))
}

/// Wraps `SparseSet::clear`: the set holds no id afterwards.
#[verifier::external_body]
pub(crate) fn set_clear(s: &mut EntitySet)
    ensures
        entity_set_ids(*final(s)) == Seq::<u64>::empty(),
{
    s.clear();
}

/// Wraps `SparseSet::is_empty`.
#[verifier::external_body]
pub(crate) fn set_is_empty(s: &EntitySet) -> (r: bool)
    ensures
        r == (entity_set_ids(*s).len() == 0),
{
    s.is_empty()
}

/// Wraps `SparseSet::indices`, turning each entity back into its bits with `Entity::to_bits`
/// (the inverse of `from_bits` on valid bits): the ids in dense order.
#[verifier::external_body]
pub(crate) fn set_ids(s: &EntitySet) -> (r: Vec<u64>)
    ensures
        r@ == entity_set_ids(*s),
{
    let mut r = Vec::new();
    for e in s.indices() {
        r.push(e.to_bits());
    }
    r
}

/// The text of the derived `Debug` of the entity with the given bits.
pub uninterp spec fn entity_debug_text(bits: u64) -> Seq<char>;

/// Wraps the derived `Debug` of `Entity`, applied to the entity rebuilt by `Entity::from_bits`
/// (which panics on bits that are not an entity); the text is named, not spelled out.
#[verifier::external_body]
pub(crate) fn entity_debug(bits: u64) -> (r: String)
    requires
        is_entity_bits(bits),
    ensures
        r@ == entity_debug_text(bits),
{
    format!("{:?}", Entity::from_bits(bits))
}

/// Create an empty sparse set for storing entities by id.
pub fn empty_set() -> (s: EntitySet)
    ensures
        entity_set_ids(s) == Seq::<u64>::empty(),
{
    sparse_set_new()
}

/// Inserting keeps the ids valid.
pub proof fn lemma_inserted_valid(ids: Seq<u64>, id: u64)
    requires
        ids_valid(ids),
        is_entity_bits(id),
    ensures
        ids_valid(inserted(ids, id)),
        holds(inserted(ids, id), id),
        forall|x: u64| holds(inserted(ids, id), x) <==> (holds(ids, x) || slot(x) == slot(id)),
{
    let r = inserted(ids, id);
    if !holds(ids, id) {
        assert(r[ids.len() as int] == id);
        assert(slot(r[ids.len() as int]) == slot(id));
        assert forall|x: u64| holds(r, x) implies (holds(ids, x) || slot(x) == slot(id)) by {
            let i = choose|i: int| 0 <= i < r.len() && slot(r[i]) == slot(x);
            if i < ids.len() {
                assert(r[i] == ids[i]);
            }
        }
        assert forall|x: u64| holds(ids, x) implies holds(r, x) by {
            let i = choose|i: int| 0 <= i < ids.len() && slot(ids[i]) == slot(x);
            assert(r[i] == ids[i]);
        }
    } else {
        let i = choose|i: int| 0 <= i < ids.len() && slot(ids[i]) == slot(id);
        assert(slot(r[i]) == slot(id));
    }
}

} // verus!
