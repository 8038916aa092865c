//! What the server tells the client: which entities there are, what they are and where.
use crate::game_path::{Address, GamePath};
use vstd::prelude::*;

verus! {

/// What an entity is.
#[derive(Debug)]
pub enum EntityKind<L> {
    /// A model; the client finds it in its own resource space.
    Mesh(GamePath),
    /// A light.
    Light(L),
}

/// An entity as the server sees it.
#[derive(Debug)]
pub struct EntityState<T, L> {
    /// Stays with the entity.
    pub id: u32,
    pub kind: EntityKind<L>,
    pub transform: T,
}

/// The world at one tick.
#[derive(Debug)]
pub struct WorldSnapshot<T, L> {
    /// Counts from one.
    pub tick: u64,
    pub entities: Vec<EntityState<T, L>>,
}

/// What an entity is, models by their address.
pub enum KindModel<L> {
    Mesh(Address),
    Light(L),
}

/// The contents of an entity.
pub struct EntityModel<T, L> {
    pub id: u32,
    pub kind: KindModel<L>,
    pub transform: T,
}

impl<L> View for EntityKind<L> {
    type V = KindModel<L>;

    open spec fn view(&self) -> KindModel<L> {
        match *self {
            EntityKind::Mesh(path) => KindModel::Mesh(path@),
            EntityKind::Light(light) => KindModel::Light(light),
        }
    }
}

impl<T, L> View for EntityState<T, L> {
    type V = EntityModel<T, L>;

    open spec fn view(&self) -> EntityModel<T, L> {
        EntityModel { id: self.id, kind: self.kind@, transform: self.transform }
    }
}

/// The contents of a list of entities.
pub open spec fn entity_models<T, L>(list: Seq<EntityState<T, L>>) -> Seq<EntityModel<T, L>> {
    list.map_values(|e: EntityState<T, L>| e@)
}

/// The same entity again.
pub fn copy_entity<T: Copy, L: Copy>(e: &EntityState<T, L>) -> (copy: EntityState<T, L>)
    ensures
        copy@ == e@,
{
    let kind = match &e.kind {
        EntityKind::Mesh(path) => EntityKind::Mesh(path.clone()),
        EntityKind::Light(light) => EntityKind::Light(*light),
    };
    EntityState { id: e.id, kind, transform: e.transform }
}

/// The same entities again.
pub fn copy_entities<T: Copy, L: Copy>(list: &Vec<EntityState<T, L>>) -> (copy: Vec<
    EntityState<T, L>,
>)
    ensures
        entity_models(copy@) == entity_models(list@),
{
    let mut copy: Vec<EntityState<T, L>> = Vec::new();
    let mut i: usize = 0;
    while i < list.len()
        invariant
            i <= list@.len(),
            entity_models(copy@) =~= entity_models(list@).take(i as int),
        decreases list@.len() - i,
    {
        let ghost before = entity_models(copy@);
        copy.push(copy_entity(&list[i]));
        proof {
            assert(entity_models(copy@) =~= before.push(list@[i as int]@));
        }
        i += 1;
    }
    proof {
        assert(entity_models(list@).take(i as int) =~= entity_models(list@));
    }
    copy
}

/// What is known of sent entities is what they are, in their order: number, placement, and the
/// address of the model or the light.
pub proof fn entities_are_seen_as_they_are<T, L>(list: Seq<EntityState<T, L>>, i: int)
    requires
        0 <= i < list.len(),
    ensures
        entity_models(list).len() == list.len(),
        entity_models(list)[i].id == list[i].id,
        entity_models(list)[i].transform == list[i].transform,
        list[i].kind matches EntityKind::Mesh(path) ==> entity_models(list)[i].kind
            == KindModel::<L>::Mesh(path@),
        list[i].kind matches EntityKind::Light(light) ==> entity_models(list)[i].kind
            == KindModel::<L>::Light(light),
{
}

} // verus!
