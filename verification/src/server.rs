//! The authoritative world: entities that move on tick by tick.
use crate::game_path::{
    parsed_address, spelled_address_reads_back, Address, GamePath, GamePathError,
};
use crate::protocol::{
    copy_entities, entity_models, EntityKind, EntityModel, EntityState, KindModel, WorldSnapshot,
};
use vstd::prelude::*;

verus! {

/// The world of the server.
#[derive(Debug)]
pub struct Server<T, L> {
    tick: u64,
    entities: Vec<EntityState<T, L>>,
}

/// The contents of the world.
pub struct WorldModel<T, L> {
    pub tick: u64,
    pub entities: Seq<EntityModel<T, L>>,
}

impl<T, L> View for Server<T, L> {
    type V = WorldModel<T, L>;

    closed spec fn view(&self) -> WorldModel<T, L> {
        WorldModel { tick: self.tick, entities: entity_models(self.entities@) }
    }
}

impl<T, L> View for WorldSnapshot<T, L> {
    type V = WorldModel<T, L>;

    open spec fn view(&self) -> WorldModel<T, L> {
        WorldModel { tick: self.tick, entities: entity_models(self.entities@) }
    }
}

/// Address of the model that turns in the test world.
pub open spec fn test_model() -> Address {
    Address { namespace: "test"@, path: "test.glb"@ }
}

/// What one tick makes of an entity: models turn, lights stay.
pub open spec fn ticked<T, L, F: Fn(T) -> T>(
    rotate: F,
    e0: EntityModel<T, L>,
    e1: EntityModel<T, L>,
) -> bool {
    &&& e1.id == e0.id
    &&& e1.kind == e0.kind
    &&& match e0.kind {
        KindModel::Mesh(_) => call_ensures(rotate, (e0.transform,), e1.transform),
        KindModel::Light(_) => e1.transform == e0.transform,
    }
}

proof fn lemma_test_model_valid()
    ensures
        parsed_address("test:test.glb"@) == Ok::<Address, GamePathError>(test_model()),
{
    reveal_strlit("test");
    reveal_strlit("test.glb");
    reveal_strlit("test:test.glb");
    let a = test_model();
    assert(a.spelled() =~= "test:test.glb"@);
    crate::game_path::lemma_plain_address_valid(a);
    spelled_address_reads_back(a);
}

impl<T: Copy, L: Copy> Server<T, L> {
    /// The test world: a directional light, a point light, an area light and a model.
    pub fn new(directional: (L, T), point: (L, T), area: (L, T), model: T) -> (s: Server<T, L>)
        ensures
            s@.tick == 0,
            s@.entities == seq![
                EntityModel { id: 1, kind: KindModel::Light(directional.0), transform: directional.1 },
                EntityModel { id: 2, kind: KindModel::Light(point.0), transform: point.1 },
                EntityModel { id: 3, kind: KindModel::Light(area.0), transform: area.1 },
                EntityModel { id: 4, kind: KindModel::Mesh(test_model()), transform: model },
            ],
    {
        let mut entities: Vec<EntityState<T, L>> = Vec::new();
        entities.push(
            EntityState {
                id: 1,
                kind: EntityKind::Light(directional.0),
                transform: directional.1,
            },
        );
        entities.push(
            EntityState { id: 2, kind: EntityKind::Light(point.0), transform: point.1 },
        );
        entities.push(EntityState { id: 3, kind: EntityKind::Light(area.0), transform: area.1 });
        proof {
            lemma_test_model_valid();
        }
        if let Ok(path) = GamePath::parse("test:test.glb") {
            entities.push(EntityState { id: 4, kind: EntityKind::Mesh(path), transform: model });
        }
        let s = Server { tick: 0, entities };
        proof {
            assert(s@.entities =~= seq![
                EntityModel { id: 1, kind: KindModel::Light(directional.0), transform: directional.1 },
                EntityModel { id: 2, kind: KindModel::Light(point.0), transform: point.1 },
                EntityModel { id: 3, kind: KindModel::Light(area.0), transform: area.1 },
                EntityModel { id: 4, kind: KindModel::Mesh(test_model()), transform: model },
            ]);
        }
        s
    }

    /// The number of ticks so far.
    pub fn ticks(&self) -> (n: u64)
        ensures
            n == self@.tick,
    {
        self.tick
    }

    /// Moves the world on by one tick, in which models turn; gives the world as it is then.
    pub fn tick<F: Fn(T) -> T>(&mut self, rotate: F) -> (snapshot: WorldSnapshot<T, L>)
        requires
            old(self)@.tick < u64::MAX,
            forall|t: T| call_requires(rotate, (t,)),
        ensures
            snapshot@ == final(self)@,
            final(self)@.tick == old(self)@.tick + 1,
            final(self)@.entities.len() == old(self)@.entities.len(),
            forall|i: int|
                0 <= i < old(self)@.entities.len() ==> ticked(
                    rotate,
                    #[trigger] old(self)@.entities[i],
                    final(self)@.entities[i],
                ),
    {
        let ghost before = self@.entities;
        self.tick = self.tick + 1;
        let mut i: usize = 0;
        while i < self.entities.len()
            invariant
                self.tick == old(self)@.tick + 1,
                before == old(self)@.entities,
                i <= self.entities@.len(),
                self.entities@.len() == before.len(),
                forall|t: T| call_requires(rotate, (t,)),
                forall|j: int|
                    0 <= j < i ==> ticked(rotate, #[trigger] before[j], self.entities@[j]@),
                forall|j: int|
                    i <= j < before.len() ==> #[trigger] before[j] == self.entities@[j]@,
            decreases before.len() - i,
        {
            let turns = match &self.entities[i].kind {
                EntityKind::Mesh(_) => true,
                EntityKind::Light(_) => false,
            };
            proof {
                assert(before[i as int] == self.entities@[i as int]@);
            }
            if turns {
                let turned = rotate(self.entities[i].transform);
                self.entities[i].transform = turned;
            }
            i += 1;
        }
        let entities = copy_entities(&self.entities);
        proof {
            assert forall|j: int| 0 <= j < before.len() implies ticked(
                rotate,
                #[trigger] before[j],
                self@.entities[j],
            ) by {
                assert(self@.entities[j] == self.entities@[j]@);
            }
        }
        WorldSnapshot { tick: self.tick, entities }
    }
}

/// A tick turns the models and leaves the lights where they are; nobody changes number or kind.
pub proof fn ticks_turn_models_only<T, L, F: Fn(T) -> T>(
    rotate: F,
    e0: EntityModel<T, L>,
    e1: EntityModel<T, L>,
)
    requires
        ticked(rotate, e0, e1),
    ensures
        e1.id == e0.id,
        e1.kind == e0.kind,
        e0.kind is Mesh ==> call_ensures(rotate, (e0.transform,), e1.transform),
        e0.kind is Light ==> e1.transform == e0.transform,
{
}

} // verus!
