use vstd::prelude::*;

verus! {

/// A handle to an entity: a generation in the high 32 bits and a storage
/// index in the low 32 bits.
#[derive(Clone, Copy, PartialEq, Eq, Structural, Hash, Debug)]
pub struct Entity(u64);

impl Entity {
    /// The generation stored in the handle.
    pub closed spec fn gen(self) -> u32 {
        (self.0 >> 32u64) as u32
    }

    /// The storage index stored in the handle.
    pub closed spec fn idx(self) -> u32 {
        self.0 as u32
    }

    /// Two handles with the same generation and index are the same handle.
    pub proof fn lemma_parts_determine(a: Entity, b: Entity)
        ensures
            (a.gen() == b.gen() && a.idx() == b.idx()) <==> a == b,
    {
        let x = a.0;
        let y = b.0;
        assert(((x >> 32u64) as u32 == (y >> 32u64) as u32 && x as u32 == y as u32) <==> x == y)
            by (bit_vector);
    }

    pub fn new(generation: u32, storage_index: u32) -> (e: Self)
        ensures
            e.gen() == generation,
            e.idx() == storage_index,
    {
        let bits: u64 = ((generation as u64) << 32u64) | (storage_index as u64);
        assert(((bits >> 32u64) as u32) == generation && (bits as u32) == storage_index)
            by (bit_vector)
            requires
                bits == ((generation as u64) << 32u64) | (storage_index as u64),
        ;
        Entity(bits)
    }

    pub fn generation(&self) -> (g: u32)
        ensures
            g == self.gen(),
    {
        (self.0 >> 32u64) as u32
    }

    pub fn index(&self) -> (i: usize)
        ensures
            i == self.idx(),
    {
        (self.0 as u32) as usize
    }
}

/// Index of a table in the world's table storage.
#[derive(Clone, Copy, PartialEq, Eq, Structural, Hash, Debug)]
pub struct TableId(pub usize);

/// Index of an archetype in the world's archetype storage.
#[derive(Clone, Copy, PartialEq, Eq, Structural, Hash, Debug)]
pub struct ArchId(pub usize);

/// Row of an entity's components in its table.
#[derive(Clone, Copy, PartialEq, Eq, Structural, Hash, Debug)]
pub struct TableRow(pub usize);

/// Row of an entity in its archetype.
#[derive(Clone, Copy, PartialEq, Eq, Structural, Hash, Debug)]
pub struct ArchRow(pub usize);

/// Where an entity's components are stored.
#[derive(Clone, Copy, PartialEq, Eq, Structural, Debug)]
pub struct MetaLocation {
    pub table_id: TableId,
    pub archetype_id: ArchId,
    pub table_row: TableRow,
    pub arch_row: ArchRow,
}

impl MetaLocation {
    pub fn new(table_id: TableId, archetype_id: ArchId, table_row: TableRow, arch_row: ArchRow) -> (l: Self)
        ensures
            l == (MetaLocation { table_id, archetype_id, table_row, arch_row }),
    {
        MetaLocation { table_id, archetype_id, table_row, arch_row }
    }
}

/// The bookkeeping of one storage slot of the allocator.
#[derive(Clone, Copy, PartialEq, Eq, Structural, Debug)]
pub struct EntityMeta {
    pub location: MetaLocation,
    pub generation: u32,
    pub free: bool,
}

impl EntityMeta {
    pub fn new(location: MetaLocation) -> (m: Self)
        ensures
            m == (EntityMeta { location, generation: 0, free: false }),
    {
        EntityMeta { location, generation: 0, free: false }
    }
}


/// The abstract state of an [`Entities`] allocator.
pub ghost struct EntitiesModel {
    /// One slot per storage index; `None` where nothing was ever stored.
    pub slots: Seq<Option<EntityMeta>>,
    /// Storage indices of despawned entities, most recent last.
    pub free: Seq<u32>,
    /// The next index handed out by `reserve` when no slot is free.
    pub reserve_index: u32,
}

/// `s` extended with empty slots up to length `n`.
pub open spec fn pad_slots(s: Seq<Option<EntityMeta>>, n: nat) -> Seq<Option<EntityMeta>> {
    if n <= s.len() {
        s
    } else {
        s + Seq::new((n - s.len()) as nat, |i: int| None::<EntityMeta>)
    }
}

impl EntitiesModel {
    /// Every index on the free list names a filled slot.
    pub open spec fn wf(self) -> bool {
        forall|i: int|
            0 <= i < self.free.len() ==> #[trigger] self.free[i] < self.slots.len()
                && self.slots[self.free[i] as int] is Some
    }

    pub open spec fn slot(self, e: Entity) -> Option<EntityMeta> {
        if (e.idx() as int) < self.slots.len() {
            self.slots[e.idx() as int]
        } else {
            None
        }
    }

    /// A handle is valid when its slot is filled, not free, and of the same generation.
    pub open spec fn is_valid(self, e: Entity) -> bool {
        self.slot(e) matches Some(m) && !m.free && m.generation == e.gen()
    }

    pub open spec fn meta(self, e: Entity) -> Option<EntityMeta> {
        if self.is_valid(e) {
            self.slot(e)
        } else {
            None
        }
    }

    /// The slot that the next `spawn` or `reserve` reuses, if any.
    pub open spec fn next_free(self) -> Option<u32> {
        if self.free.len() > 0 {
            Some(self.free.last())
        } else {
            None
        }
    }

    /// Reusing the next free slot does not overflow its generation.
    pub open spec fn can_reuse(self) -> bool {
        self.next_free() matches Some(i) ==> self.slots[i as int].unwrap().generation < u32::MAX
    }

    /// The (generation, index) of the handle that `spawn` returns.
    pub open spec fn spawn_handle(self) -> (u32, u32) {
        match self.next_free() {
            Some(i) => (self.slots[i as int].unwrap().generation, i),
            None => (0, self.slots.len() as u32),
        }
    }

    /// The state after `spawn` at `location`.
    pub open spec fn spawn(self, location: MetaLocation) -> EntitiesModel {
        match self.next_free() {
            Some(i) => {
                let m = self.slots[i as int].unwrap();
                EntitiesModel {
                    slots: self.slots.update(
                        i as int,
                        Some(EntityMeta { location, generation: (m.generation + 1) as u32, free: false }),
                    ),
                    free: self.free.drop_last(),
                    reserve_index: self.slots.len() as u32,
                }
            },
            None => {
                let slots = self.slots.push(Some(EntityMeta::spec_new(location)));
                EntitiesModel {
                    slots,
                    free: self.free,
                    reserve_index: slots.len() as u32,
                }
            },
        }
    }

    /// The state after `spawn_at`.
    pub open spec fn spawn_at(self, generation: u32, e: Entity, location: MetaLocation) -> EntitiesModel {
        let slots = pad_slots(self.slots, (e.idx() + 1) as nat).update(
            e.idx() as int,
            Some(EntityMeta { location, generation, free: false }),
        );
        EntitiesModel { slots, free: self.free, reserve_index: slots.len() as u32 }
    }

    /// The (generation, index) of the handle that `reserve` returns.
    pub open spec fn reserve_handle(self) -> (u32, u32) {
        match self.next_free() {
            Some(i) => ((self.slots[i as int].unwrap().generation + 1) as u32, i),
            None => (0, self.reserve_index),
        }
    }

    /// The state after `reserve`.
    pub open spec fn reserve(self) -> EntitiesModel {
        match self.next_free() {
            Some(i) => {
                let m = self.slots[i as int].unwrap();
                EntitiesModel {
                    slots: self.slots.update(
                        i as int,
                        Some(EntityMeta { generation: (m.generation + 1) as u32, ..m }),
                    ),
                    free: self.free.drop_last(),
                    reserve_index: self.reserve_index,
                }
            },
            None => EntitiesModel {
                reserve_index: if self.reserve_index == u32::MAX { 0 } else { (self.reserve_index + 1) as u32 },
                ..self
            },
        }
    }

    /// The state after `despawn` of a valid handle.
    pub open spec fn despawn(self, e: Entity) -> EntitiesModel {
        let m = self.slots[e.idx() as int].unwrap();
        EntitiesModel {
            slots: self.slots.update(e.idx() as int, Some(EntityMeta { free: true, ..m })),
            free: self.free.push(e.idx()),
            ..self
        }
    }

    /// The state after `set_location` of a valid handle.
    pub open spec fn set_location(self, e: Entity, location: MetaLocation) -> EntitiesModel {
        let m = self.slots[e.idx() as int].unwrap();
        EntitiesModel {
            slots: self.slots.update(e.idx() as int, Some(EntityMeta { location, ..m })),
            ..self
        }
    }
}

impl EntityMeta {
    pub open spec fn spec_new(location: MetaLocation) -> EntityMeta {
        EntityMeta { location, generation: 0, free: false }
    }
}

/// The entity allocator: hands out generational handles and records where
/// each live entity is stored.
#[derive(Debug)]
pub struct Entities {
    entities: Vec<Option<EntityMeta>>,
    reserve_index: u32,
    free_entities: Vec<u32>,
}

impl View for Entities {
    type V = EntitiesModel;

    closed spec fn view(&self) -> EntitiesModel {
        EntitiesModel {
            slots: self.entities@,
            free: self.free_entities@,
            reserve_index: self.reserve_index,
        }
    }
}

impl Entities {
    pub open spec fn wf(&self) -> bool {
        self@.wf()
    }

    pub fn new() -> (s: Self)
        ensures
            s.wf(),
            s@.slots == Seq::<Option<EntityMeta>>::empty(),
            s@.free == Seq::<u32>::empty(),
            s@.reserve_index == 0,
    {
        Entities { entities: Vec::new(), reserve_index: 0, free_entities: Vec::new() }
    }

    /// Number of storage slots.
    pub fn len(&self) -> (n: usize)
        ensures
            n == self@.slots.len(),
    {
        self.entities.len()
    }

    pub fn is_empty(&self) -> (b: bool)
        ensures
            b == (self@.slots.len() == 0),
    {
        self.len() == 0
    }

    pub fn is_valid(&self, entity: Entity) -> (b: bool)
        ensures
            b == self@.is_valid(entity),
    {
        let i = entity.index();
        if i < self.entities.len() {
            match &self.entities[i] {
                Some(m) => !m.free && m.generation == entity.generation(),
                None => false,
            }
        } else {
            false
        }
    }

    pub fn meta(&self, entity: Entity) -> (r: Option<&EntityMeta>)
        ensures
            r matches Some(m) ==> self@.meta(entity) == Some(*m),
            r is None ==> self@.meta(entity) is None,
    {
        if self.is_valid(entity) {
            self.entities[entity.index()].as_ref()
        } else {
            None
        }
    }

    pub fn meta_maybe_free(&self, entity: Entity) -> (r: Option<&EntityMeta>)
        ensures
            r matches Some(m) ==> self@.slot(entity) == Some(*m),
            r is None ==> self@.slot(entity) is None,
    {
        let i = entity.index();
        if i < self.entities.len() {
            self.entities[i].as_ref()
        } else {
            None
        }
    }

    pub fn meta_mut(&mut self, entity: Entity) -> (r: Option<&mut EntityMeta>)
        requires
            old(self).wf(),
        ensures
            r is Some == old(self)@.is_valid(entity),
            r is None ==> final(self)@ == old(self)@,
            r matches Some(m) ==> {
                &&& old(self)@.meta(entity) == Some(*m)
                &&& final(self)@ == (EntitiesModel {
                    slots: old(self)@.slots.update(entity.idx() as int, Some(*final(m))),
                    ..old(self)@
                })
            },
    {
        if self.is_valid(entity) {
            let i = entity.index();
            self.entities[i].as_mut()
        } else {
            None
        }
    }

    /// Moves a valid entity to a new location.
    pub fn set_location(&mut self, entity: Entity, location: MetaLocation)
        requires
            old(self).wf(),
            old(self)@.is_valid(entity),
        ensures
            final(self).wf(),
            final(self)@ == old(self)@.set_location(entity, location),
    {
        let i = entity.index();
        let m = self.entities[i].unwrap();
        self.entities[i] = Some(EntityMeta { location, ..m });
        proof {
            assert forall|k: int| 0 <= k < self@.free.len() implies #[trigger] self@.free[k] < self@.slots.len()
                && self@.slots[self@.free[k] as int] is Some by {
                assert(old(self)@.free[k] < old(self)@.slots.len());
            }
        }
    }

    /// Allocates an entity at `location`, reusing the most recently freed
    /// slot if there is one. A reused slot's generation is bumped, but the
    /// handle returned carries the slot's old generation, so it is not live.
    pub fn spawn(&mut self, table_id: TableId, arch_id: ArchId, table_row: TableRow, arch_row: ArchRow) -> (e: Entity)
        requires
            old(self).wf(),
            old(self)@.can_reuse(),
        ensures
            final(self).wf(),
            final(self)@ == old(self)@.spawn(MetaLocation { table_id, archetype_id: arch_id, table_row, arch_row }),
            (e.gen(), e.idx()) == old(self)@.spawn_handle(),
    {
        let location = MetaLocation::new(table_id, arch_id, table_row, arch_row);
        match self.free_entities.pop() {
            Some(free_space) => {
                let i = free_space as usize;
                let meta = self.entities[i].unwrap();
                let entity = Entity::new(meta.generation, free_space);
                self.entities[i] = Some(EntityMeta { free: false, generation: meta.generation + 1, location });
                self.reserve_index = self.entities.len() as u32;
                proof {
                    let o = old(self)@;
                    assert forall|k: int| 0 <= k < self@.free.len() implies #[trigger] self@.free[k] < self@.slots.len()
                        && self@.slots[self@.free[k] as int] is Some by {
                        assert(self@.free[k] == o.free[k]);
                    }
                }
                entity
            },
            None => {
                let index = self.entities.len();
                self.entities.push(Some(EntityMeta::new(location)));
                self.reserve_index = self.entities.len() as u32;
                Entity::new(0, index as u32)
            },
        }
    }

    /// Stores `entity` at `location` with the given generation, growing the
    /// storage if the index lies beyond it.
    pub fn spawn_at(
        &mut self,
        generation: u32,
        entity: Entity,
        table_id: TableId,
        arch_id: ArchId,
        table_row: TableRow,
        arch_row: ArchRow,
    )
        requires
            old(self).wf(),
        ensures
            final(self).wf(),
            final(self)@ == old(self)@.spawn_at(
                generation,
                entity,
                MetaLocation { table_id, archetype_id: arch_id, table_row, arch_row },
            ),
    {
        let location = MetaLocation::new(table_id, arch_id, table_row, arch_row);
        let i = entity.index();
        let ghost n = (i + 1) as nat;
        while self.entities.len() <= i
            invariant
                i == entity.idx(),
                n == i + 1,
                self.free_entities@ == old(self)@.free,
                self.entities@.len() <= n || self.entities@.len() == old(self)@.slots.len(),
                self.entities@.len() >= old(self)@.slots.len(),
                self.entities@.subrange(0, old(self)@.slots.len() as int) == old(self)@.slots,
                forall|k: int| old(self)@.slots.len() <= k < self.entities@.len() ==> #[trigger] self.entities@[k] is None,
            decreases n - self.entities@.len(),
        {
            self.entities.push(None);
        }
        proof {
            let o = old(self)@.slots;
            assert(self.entities@ == pad_slots(o, n));
        }
        self.entities[i] = Some(EntityMeta { free: false, generation, location });
        self.reserve_index = self.entities.len() as u32;
        proof {
            let o = old(self)@;
            assert forall|k: int| 0 <= k < self@.free.len() implies #[trigger] self@.free[k] < self@.slots.len()
                && self@.slots[self@.free[k] as int] is Some by {
                assert(o.free[k] < o.slots.len());
                assert(self@.slots[o.free[k] as int] is Some);
            }
        }
    }

    /// Hands out a handle without storing anything: the most recently freed
    /// slot with its generation bumped, or the next fresh index.
    pub fn reserve(&mut self) -> (e: Entity)
        requires
            old(self).wf(),
            old(self)@.can_reuse(),
        ensures
            final(self).wf(),
            final(self)@ == old(self)@.reserve(),
            (e.gen(), e.idx()) == old(self)@.reserve_handle(),
            old(self)@.free_list_sound() && old(self)@.reserve_past_slots() ==> final(self)@.meta(e) is None,
    {
        proof {
            if old(self)@.free_list_sound() && old(self)@.reserve_past_slots() {
                lemma_reserved_not_live(old(self)@);
            }
        }
        if let Some(free_entity) = self.free_entities.pop() {
            let i = free_entity as usize;
            let meta = self.entities[i].unwrap();
            let generation = meta.generation + 1;
            self.entities[i] = Some(EntityMeta { generation, ..meta });
            proof {
                let o = old(self)@;
                assert forall|k: int| 0 <= k < self@.free.len() implies #[trigger] self@.free[k] < self@.slots.len()
                    && self@.slots[self@.free[k] as int] is Some by {
                    assert(self@.free[k] == o.free[k]);
                }
            }
            Entity::new(generation, free_entity)
        } else {
            let index = self.reserve_index;
            self.reserve_index = self.reserve_index.wrapping_add(1);
            Entity::new(0, index)
        }
    }

    /// Frees the slot of a valid entity.
    pub fn despawn(&mut self, entity: Entity)
        requires
            old(self).wf(),
            old(self)@.is_valid(entity),
        ensures
            final(self).wf(),
            final(self)@ == old(self)@.despawn(entity),
    {
        let i = entity.index();
        let m = self.entities[i].unwrap();
        self.entities[i] = Some(EntityMeta { free: true, ..m });
        self.free_entities.push(i as u32);
        proof {
            let o = old(self)@;
            assert forall|k: int| 0 <= k < self@.free.len() implies #[trigger] self@.free[k] < self@.slots.len()
                && self@.slots[self@.free[k] as int] is Some by {
                if k < o.free.len() {
                    assert(self@.free[k] == o.free[k]);
                }
            }
        }
    }
}

impl Default for Entities {
    fn default() -> (s: Self)
        ensures
            s.wf(),
            s@.slots == Seq::<Option<EntityMeta>>::empty(),
            s@.free == Seq::<u32>::empty(),
            s@.reserve_index == 0,
    {
        Entities::new()
    }
}

} // verus!
verus! {

/// One operation of the allocator, for stating laws over sequences of calls.
pub ghost enum AllocatorOp {
    Spawn(MetaLocation),
    Reserve,
    Despawn(Entity),
    SetLocation(Entity, MetaLocation),
}

impl EntitiesModel {
    /// The operation's precondition holds in this state.
    pub open spec fn allows(self, op: AllocatorOp) -> bool {
        match op {
            AllocatorOp::Spawn(_) => self.can_reuse(),
            AllocatorOp::Reserve => self.can_reuse(),
            AllocatorOp::Despawn(e) => self.is_valid(e),
            AllocatorOp::SetLocation(e, _) => self.is_valid(e),
        }
    }

    pub open spec fn step(self, op: AllocatorOp) -> EntitiesModel {
        match op {
            AllocatorOp::Spawn(l) => self.spawn(l),
            AllocatorOp::Reserve => self.reserve(),
            AllocatorOp::Despawn(e) => self.despawn(e),
            AllocatorOp::SetLocation(e, l) => self.set_location(e, l),
        }
    }

    /// Every operation of `ops` is allowed in the state it is applied to.
    pub open spec fn runnable(self, ops: Seq<AllocatorOp>) -> bool
        decreases ops.len(),
    {
        ops.len() == 0 || (self.allows(ops[0]) && self.step(ops[0]).runnable(ops.drop_first()))
    }

    pub open spec fn run(self, ops: Seq<AllocatorOp>) -> EntitiesModel
        decreases ops.len(),
    {
        if ops.len() == 0 {
            self
        } else {
            self.step(ops[0]).run(ops.drop_first())
        }
    }

    /// The handle's slot has moved past it: a newer generation, or the same
    /// generation marked free.
    pub open spec fn is_stale(self, e: Entity) -> bool {
        self.slot(e) matches Some(m) && (m.generation > e.gen() || (m.generation == e.gen() && m.free))
    }
}

proof fn lemma_step_wf(s: EntitiesModel, op: AllocatorOp)
    requires
        s.wf(),
        s.allows(op),
    ensures
        s.step(op).wf(),
{
    let t = s.step(op);
    assert forall|k: int| 0 <= k < t.free.len() implies #[trigger] t.free[k] < t.slots.len()
        && t.slots[t.free[k] as int] is Some by {
        if k < s.free.len() {
            assert(s.free[k] < s.slots.len());
        }
    }
}

proof fn lemma_step_keeps_stale(s: EntitiesModel, op: AllocatorOp, e: Entity)
    requires
        s.wf(),
        s.allows(op),
        s.is_stale(e),
    ensures
        s.step(op).is_stale(e),
{
    match op {
        AllocatorOp::Spawn(l) => {
            if s.free.len() > 0 {
                assert(s.free[s.free.len() - 1] < s.slots.len());
            }
        },
        AllocatorOp::Reserve => {
            if s.free.len() > 0 {
                assert(s.free[s.free.len() - 1] < s.slots.len());
            }
        },
        AllocatorOp::Despawn(x) => {},
        AllocatorOp::SetLocation(x, l) => {},
    }
}

/// A freshly allocated entity (no freed slot to reuse) is valid and stored
/// at the requested location with generation 0.
pub proof fn law_fresh_spawn_is_valid(s: EntitiesModel, location: MetaLocation, e: Entity)
    requires
        s.wf(),
        s.next_free() is None,
        s.slots.len() < u32::MAX,
        (e.gen(), e.idx()) == s.spawn_handle(),
    ensures
        s.spawn(location).is_valid(e),
        s.spawn(location).meta(e) == Some(EntityMeta { location, generation: 0, free: false }),
        e.idx() == s.slots.len(),
{
}

/// Despawning a valid entity makes its handle invalid.
pub proof fn law_despawn_invalidates(s: EntitiesModel, e: Entity)
    requires
        s.wf(),
        s.is_valid(e),
    ensures
        !s.despawn(e).is_valid(e),
        s.despawn(e).meta(e) is None,
        s.despawn(e).is_stale(e),
{
}

/// Once despawned, a handle stays invalid through any run of spawns,
/// reservations, despawns and moves of other entities.
pub proof fn law_despawned_stays_invalid(s: EntitiesModel, e: Entity, ops: Seq<AllocatorOp>)
    requires
        s.wf(),
        s.is_valid(e),
        s.despawn(e).runnable(ops),
    ensures
        !s.despawn(e).run(ops).is_valid(e),
{
    let t = s.despawn(e);
    lemma_step_wf(s, AllocatorOp::Despawn(e));
    assert(t == s.step(AllocatorOp::Despawn(e)));
    lemma_run_keeps_stale(t, ops, e);
}

proof fn lemma_run_keeps_stale(s: EntitiesModel, ops: Seq<AllocatorOp>, e: Entity)
    requires
        s.wf(),
        s.runnable(ops),
        s.is_stale(e),
    ensures
        s.run(ops).is_stale(e),
        s.run(ops).wf(),
    decreases ops.len(),
{
    if ops.len() > 0 {
        lemma_step_wf(s, ops[0]);
        lemma_step_keeps_stale(s, ops[0], e);
        lemma_run_keeps_stale(s.step(ops[0]), ops.drop_first(), e);
    }
}

/// `spawn` and `reserve` reuse the slot freed most recently. `spawn`'s
/// handle keeps the slot's old generation (the slot moves on to the next),
/// so it is not live; `reserve`'s handle carries the next generation.
pub proof fn law_reuse_most_recently_freed(s: EntitiesModel, e: Entity)
    requires
        s.wf(),
        s.is_valid(e),
    ensures
        s.despawn(e).spawn_handle().1 == e.idx(),
        s.despawn(e).spawn_handle().0 == e.gen(),
        s.despawn(e).reserve_handle() == ((e.gen() + 1) as u32, e.idx()),
{
}

/// A reserved handle becomes valid, at the given location, once it is
/// stored with `spawn_at` under its own generation.
pub proof fn law_reserve_then_spawn_at(s: EntitiesModel, e: Entity, location: MetaLocation)
    requires
        s.wf(),
        s.can_reuse(),
        (e.gen(), e.idx()) == s.reserve_handle(),
    ensures
        s.reserve().spawn_at(e.gen(), e, location).is_valid(e),
        s.reserve().spawn_at(e.gen(), e, location).meta(e)
            == Some(EntityMeta { location, generation: e.gen(), free: false }),
{
    let t = s.reserve().spawn_at(e.gen(), e, location);
    let p = pad_slots(s.reserve().slots, (e.idx() + 1) as nat);
    assert(p.len() >= e.idx() + 1);
}

/// Moving a valid entity changes only its location.
pub proof fn law_set_location(s: EntitiesModel, e: Entity, location: MetaLocation)
    requires
        s.wf(),
        s.is_valid(e),
    ensures
        s.set_location(e, location).is_valid(e),
        s.set_location(e, location).meta(e) == Some(EntityMeta { location, ..s.meta(e).unwrap() }),
        forall|x: Entity| x.idx() != e.idx() ==> #[trigger] s.set_location(e, location).slot(x) == s.slot(x),
{
}

impl EntitiesModel {
    /// Every slot on the free list is marked free, and no slot is on it twice.
    pub open spec fn free_list_sound(self) -> bool {
        &&& forall|k: int| 0 <= k < self.free.len() ==> (#[trigger] self.slots[self.free[k] as int] matches Some(m) && m.free)
        &&& forall|k: int, l: int| 0 <= k < l < self.free.len() ==> #[trigger] self.free[k] != #[trigger] self.free[l]
    }
}

proof fn lemma_step_keeps_valid(s: EntitiesModel, op: AllocatorOp, e: Entity)
    requires
        s.wf(),
        s.free_list_sound(),
        s.allows(op),
        s.is_valid(e),
        op != AllocatorOp::Despawn(e),
    ensures
        s.step(op).is_valid(e),
        s.step(op).free_list_sound(),
{
    let t = s.step(op);
    match op {
        AllocatorOp::Spawn(l) => {
            if s.free.len() > 0 {
                let n = s.free.len() - 1;
                let i = s.free[n];
                assert(s.free[n] < s.slots.len());
                assert(s.slots[i as int] matches Some(m) && m.free);
                assert(i != e.idx());
                assert forall|k: int| 0 <= k < t.free.len() implies (#[trigger] t.slots[t.free[k] as int] matches Some(m) && m.free) by {
                    assert(s.free[k] != s.free[n]);
                    assert(s.slots[s.free[k] as int] matches Some(m) && m.free);
                }
            }
        },
        AllocatorOp::Reserve => {
            if s.free.len() > 0 {
                let n = s.free.len() - 1;
                let i = s.free[n];
                assert(s.free[n] < s.slots.len());
                assert(s.slots[i as int] matches Some(m) && m.free);
                assert(i != e.idx());
                assert forall|k: int| 0 <= k < t.free.len() implies (#[trigger] t.slots[t.free[k] as int] matches Some(m) && m.free) by {
                    assert(s.free[k] != s.free[n]);
                    assert(s.slots[s.free[k] as int] matches Some(m) && m.free);
                }
            }
        },
        AllocatorOp::Despawn(x) => {
            if x.idx() == e.idx() {
                Entity::lemma_parts_determine(x, e);
            }
            assert forall|k: int| 0 <= k < t.free.len() implies (#[trigger] t.slots[t.free[k] as int] matches Some(m) && m.free) by {
                if k < s.free.len() {
                    assert(s.slots[s.free[k] as int] matches Some(m) && m.free);
                }
            }
            assert forall|k: int, l: int| 0 <= k < l < t.free.len() implies #[trigger] t.free[k] != #[trigger] t.free[l] by {
                if l == s.free.len() {
                    assert(s.slots[s.free[k] as int] matches Some(m) && m.free);
                } else {
                    assert(s.free[k] != s.free[l]);
                }
            }
        },
        AllocatorOp::SetLocation(x, l) => {
            assert forall|k: int| 0 <= k < t.free.len() implies (#[trigger] t.slots[t.free[k] as int] matches Some(m) && m.free) by {
                assert(s.slots[s.free[k] as int] matches Some(m) && m.free);
            }
        },
    }
}

proof fn lemma_run_keeps_valid(s: EntitiesModel, ops: Seq<AllocatorOp>, e: Entity)
    requires
        s.wf(),
        s.free_list_sound(),
        s.is_valid(e),
        s.runnable(ops),
        forall|i: int| 0 <= i < ops.len() ==> #[trigger] ops[i] != AllocatorOp::Despawn(e),
    ensures
        s.run(ops).is_valid(e),
    decreases ops.len(),
{
    if ops.len() > 0 {
        assert(ops[0] != AllocatorOp::Despawn(e));
        lemma_step_wf(s, ops[0]);
        lemma_step_keeps_valid(s, ops[0], e);
        let rest = ops.drop_first();
        assert forall|i: int| 0 <= i < rest.len() implies #[trigger] rest[i] != AllocatorOp::Despawn(e) by {
            assert(rest[i] == ops[i + 1]);
        }
        lemma_run_keeps_valid(s.step(ops[0]), rest, e);
    }
}

/// A valid handle stays valid through any run of spawns, reservations,
/// relocations and despawns of other entities, as long as the free list
/// only names free slots (as it does from an empty allocator on, until
/// `spawn_at` revives a freed slot).
pub proof fn law_valid_until_despawned(s: EntitiesModel, e: Entity, ops: Seq<AllocatorOp>)
    requires
        s.wf(),
        s.free_list_sound(),
        s.is_valid(e),
        s.runnable(ops),
        forall|i: int| 0 <= i < ops.len() ==> #[trigger] ops[i] != AllocatorOp::Despawn(e),
    ensures
        s.run(ops).is_valid(e),
{
    lemma_run_keeps_valid(s, ops, e);
}

/// An empty allocator's free list is sound, and every allowed operation
/// keeps it so.
pub proof fn law_free_list_stays_sound(s: EntitiesModel, op: AllocatorOp)
    requires
        s.wf(),
        s.free_list_sound(),
        s.allows(op),
    ensures
        s.step(op).free_list_sound(),
        (EntitiesModel { slots: Seq::empty(), free: Seq::empty(), reserve_index: 0 }).free_list_sound(),
{
    let t = s.step(op);
    match op {
        AllocatorOp::Despawn(x) => {
            assert forall|k: int| 0 <= k < t.free.len() implies (#[trigger] t.slots[t.free[k] as int] matches Some(m) && m.free) by {
                if k < s.free.len() {
                    assert(s.slots[s.free[k] as int] matches Some(m) && m.free);
                }
            }
            assert forall|k: int, l: int| 0 <= k < l < t.free.len() implies #[trigger] t.free[k] != #[trigger] t.free[l] by {
                if l == s.free.len() {
                    assert(s.slots[s.free[k] as int] matches Some(m) && m.free);
                } else {
                    assert(s.free[k] != s.free[l]);
                }
            }
        },
        _ => {
            if s.free.len() > 0 {
                assert(s.free[s.free.len() - 1] < s.slots.len());
            }
            assert forall|k: int| 0 <= k < t.free.len() implies (#[trigger] t.slots[t.free[k] as int] matches Some(m) && m.free) by {
                if s.free.len() > 0 {
                    assert(s.free[k] != s.free[s.free.len() - 1] || k == s.free.len() - 1);
                }
                assert(s.slots[s.free[k] as int] matches Some(m) && m.free);
            }
        },
    }
}

impl EntitiesModel {
    /// `reserve` hands out fresh indices at or past the last slot.
    pub open spec fn reserve_past_slots(self) -> bool {
        self.reserve_index >= self.slots.len()
    }
}

proof fn lemma_reserved_not_live(s: EntitiesModel)
    requires
        s.wf(),
        s.free_list_sound(),
        s.reserve_past_slots(),
    ensures
        forall|e: Entity| (e.gen(), e.idx()) == s.reserve_handle() ==> #[trigger] s.reserve().meta(e) is None,
{
    if s.free.len() > 0 {
        let n = s.free.len() - 1;
        assert(s.free[n] < s.slots.len());
        assert(s.slots[s.free[n] as int] matches Some(m) && m.free);
    }
}

/// A handle that `reserve` hands out is not live until it is stored (with
/// `spawn_at`): a reused slot stays marked free, and a fresh index lies past
/// every slot as long as the reserve index has not wrapped around. Spawns,
/// despawns, relocations and reservations that do not wrap keep the reserve
/// index at or past the last slot.
pub proof fn law_reserved_handle_not_live(s: EntitiesModel, e: Entity, op: AllocatorOp)
    requires
        s.wf(),
        s.free_list_sound(),
        s.reserve_past_slots(),
        (e.gen(), e.idx()) == s.reserve_handle(),
        s.allows(op),
        op matches AllocatorOp::Spawn(_) ==> s.free.len() > 0 || s.slots.len() < u32::MAX,
        op is Reserve ==> s.free.len() > 0 || s.reserve_index < u32::MAX,
    ensures
        s.reserve().meta(e) is None,
        !s.reserve().is_valid(e),
        s.step(op).reserve_past_slots(),
        (EntitiesModel { slots: Seq::empty(), free: Seq::empty(), reserve_index: 0 }).reserve_past_slots(),
{
    lemma_reserved_not_live(s);
}

/// `reserve` takes from the free list exactly the slot it hands out: the
/// free list afterwards is the old one without that slot, which appears in
/// it no more, so no later `spawn` or `reserve` hands the reserved index
/// out again while the slot is not freed anew.
pub proof fn law_reserve_takes_its_slot(s: EntitiesModel)
    requires
        s.wf(),
        s.free_list_sound(),
        s.free.len() > 0,
    ensures
        s.reserve().free.push(s.reserve_handle().1) == s.free,
        !s.reserve().free.contains(s.reserve_handle().1),
        s.reserve().next_free() != Some(s.reserve_handle().1),
        s.reserve().slots.len() == s.slots.len(),
{
    let n = s.free.len() - 1;
    let i = s.free[n];
    assert(s.free.drop_last().push(i) =~= s.free);
    if s.free.drop_last().contains(i) {
        let k = choose|k: int| 0 <= k < s.free.drop_last().len() && s.free.drop_last()[k] == i;
        assert(s.free[k] == s.free[n]);
    }
}

/// `spawn` stores the entity at the location it was given, live, in the
/// slot of the index it hands out, whether that slot is fresh or reused.
/// A reused slot moves on to the next generation; a fresh one starts at 0.
pub proof fn law_spawn_records_location(s: EntitiesModel, location: MetaLocation)
    requires
        s.wf(),
        s.can_reuse(),
        s.next_free() is Some || s.slots.len() < u32::MAX,
    ensures
        ({
            let i = s.spawn_handle().1 as int;
            &&& 0 <= i < s.spawn(location).slots.len()
            &&& s.spawn(location).slots[i] matches Some(m) && m.location == location && !m.free
                && m.generation == if s.next_free() is Some { s.spawn_handle().0 + 1 } else { 0 }
        }),
{
    if s.free.len() > 0 {
        assert(s.free[s.free.len() - 1] < s.slots.len());
    }
}

} // verus!
