use vstd::prelude::*;
use crate::ecs::entity::{Entities, Entity};

verus! {

/// A deferred mutation of one entity. `P` carries what the mutation needs
/// (a component bundle, or the kind of bundle to remove).
pub enum EntityCommand<P> {
    Insert(P),
    Remove(P),
    Despawn,
}

/// A deferred mutation of the world.
pub enum Command<P> {
    Entity(Entity, EntityCommand<P>),
    InsertResource(P),
    RunSystemOnceWhen(P, P),
}

/// Commands recorded during a system run, applied later in one batch.
pub struct CommandQueue<P> {
    queue: Vec<Command<P>>,
}

impl<P> View for CommandQueue<P> {
    type V = Seq<Command<P>>;

    closed spec fn view(&self) -> Seq<Command<P>> {
        self.queue@
    }
}

impl<P> Default for CommandQueue<P> {
    fn default() -> (q: Self)
        ensures
            q@ == Seq::<Command<P>>::empty(),
    {
        CommandQueue::new()
    }
}

impl<P> CommandQueue<P> {
    pub fn new() -> (q: Self)
        ensures
            q@ == Seq::<Command<P>>::empty(),
    {
        CommandQueue { queue: Vec::new() }
    }

    pub fn push(&mut self, command: Command<P>)
        ensures
            final(self)@ == old(self)@.push(command),
    {
        self.queue.push(command);
    }

    /// Empties the queue and returns its commands in the order they are
    /// applied: the most recently pushed first.
    pub fn apply_deffered(&mut self) -> (applied: Vec<Command<P>>)
        ensures
            final(self)@ == Seq::<Command<P>>::empty(),
            applied@ == old(self)@.reverse(),
    {
        let mut applied: Vec<Command<P>> = Vec::new();
        while self.queue.len() > 0
            invariant
                old(self)@.reverse() == applied@ + self.queue@.reverse(),
            decreases self.queue.len(),
        {
            let ghost before = self.queue@;
            let c = self.queue.pop().unwrap();
            proof {
                assert(before.reverse() == seq![c] + self.queue@.reverse()) by {
                    assert(before == self.queue@.push(c));
                    assert(before.reverse() =~= seq![c] + self.queue@.reverse());
                }
                assert(applied@.push(c) + self.queue@.reverse() =~= applied@ + (seq![c] + self.queue@.reverse()));
            }
            applied.push(c);
        }
        proof {
            assert(self.queue@.reverse() =~= Seq::<Command<P>>::empty());
            assert(applied@ + Seq::<Command<P>>::empty() =~= applied@);
        }
        applied
    }
}

/// Records commands for one entity.
pub struct EntityCommands<'c, P> {
    pub entity: Entity,
    pub queue: &'c mut CommandQueue<P>,
}

impl<'c, P> EntityCommands<'c, P> {
    pub fn new(entity: Entity, queue: &'c mut CommandQueue<P>) -> (ec: Self)
        ensures
            ec.entity == entity,
            ec.queue@ == old(queue)@,
            final(ec.queue)@ == final(queue)@,
    {
        EntityCommands { entity, queue }
    }

    pub fn entity(&self) -> (e: Entity)
        ensures
            e == self.entity,
    {
        self.entity
    }

    fn push(&mut self, command: EntityCommand<P>)
        ensures
            final(self).entity == old(self).entity,
            final(self).queue@ == old(self).queue@.push(Command::Entity(old(self).entity, command)),
            final(final(self).queue)@ == final(old(self).queue)@,
    {
        let entity = self.entity;
        self.queue.push(Command::Entity(entity, command));
    }

    /// Queues the insertion of `bundle` into the entity.
    pub fn insert(&mut self, bundle: P) -> (r: &mut Self)
        ensures
            r.entity == old(self).entity,
            r.queue@ == old(self).queue@.push(Command::Entity(old(self).entity, EntityCommand::Insert(bundle))),
            final(r.queue)@ == final(old(self).queue)@,
            *final(self) == *final(r),
    {
        self.push(EntityCommand::Insert(bundle));
        self
    }

    /// Queues the removal of the components that `bundle` names.
    pub fn remove(&mut self, bundle: P) -> (r: &mut Self)
        ensures
            r.entity == old(self).entity,
            r.queue@ == old(self).queue@.push(Command::Entity(old(self).entity, EntityCommand::Remove(bundle))),
            final(r.queue)@ == final(old(self).queue)@,
            *final(self) == *final(r),
    {
        self.push(EntityCommand::Remove(bundle));
        self
    }

    /// Queues the despawn of the entity.
    pub fn despawn(self)
        ensures
            final(self.queue)@ == old(self.queue)@.push(Command::Entity(self.entity, EntityCommand::Despawn)),
    {
        let mut this = self;
        this.push(EntityCommand::Despawn);
    }
}

/// Records commands during a system run: spawns reserve their entity at once,
/// everything else waits in the queue.
pub struct Commands<'w, 's, P> {
    pub entities: &'w mut Entities,
    pub queue: &'s mut CommandQueue<P>,
}

impl<'w, 's, P> Commands<'w, 's, P> {
    pub fn new(entities: &'w mut Entities, queue: &'s mut CommandQueue<P>) -> (c: Self)
        ensures
            c.entities@ == old(entities)@,
            c.queue@ == old(queue)@,
            final(c.entities)@ == final(entities)@,
            final(c.queue)@ == final(queue)@,
    {
        Commands { entities, queue }
    }

    /// Reserves an entity and queues the insertion of `bundle` into it.
    pub fn spawn(&mut self, bundle: P) -> (ec: EntityCommands<'_, P>)
        requires
            old(self).entities.wf(),
            old(self).entities@.can_reuse(),
        ensures
            (ec.entity.gen(), ec.entity.idx()) == old(self).entities@.reserve_handle(),
            final(self).entities@ == old(self).entities@.reserve(),
            final(self).entities.wf(),
            old(self).entities@.free_list_sound() && old(self).entities@.reserve_past_slots()
                ==> final(self).entities@.meta(ec.entity) is None,
            ec.queue@ == old(self).queue@.push(Command::Entity(ec.entity, EntityCommand::Insert(bundle))),
            final(ec.queue)@ == final(self).queue@,
            final(final(self).queue)@ == final(old(self).queue)@,
            final(final(self).entities)@ == final(old(self).entities)@,
    {
        let entity = self.entities.reserve();
        let mut ec = EntityCommands::new(entity, self.queue);
        ec.insert(bundle);
        ec
    }

    /// Commands for an existing entity.
    pub fn get_entity(&mut self, entity: Entity) -> (ec: EntityCommands<'_, P>)
        ensures
            ec.entity == entity,
            ec.queue@ == old(self).queue@,
            final(ec.queue)@ == final(self).queue@,
            final(self).entities@ == old(self).entities@,
            final(final(self).queue)@ == final(old(self).queue)@,
            final(final(self).entities)@ == final(old(self).entities)@,
    {
        EntityCommands::new(entity, self.queue)
    }

    fn push(&mut self, command: Command<P>)
        ensures
            final(self).queue@ == old(self).queue@.push(command),
            final(self).entities@ == old(self).entities@,
            final(final(self).queue)@ == final(old(self).queue)@,
            final(final(self).entities)@ == final(old(self).entities)@,
    {
        self.queue.push(command);
    }

    /// Queues the insertion of a resource.
    pub fn insert_resource(&mut self, res: P) -> (r: &mut Self)
        ensures
            r.queue@ == old(self).queue@.push(Command::InsertResource(res)),
            r.entities@ == old(self).entities@,
            final(r.queue)@ == final(old(self).queue)@,
            final(r.entities)@ == final(old(self).entities)@,
            *final(self) == *final(r),
    {
        self.push(Command::InsertResource(res));
        self
    }

    /// Queues a system to run once, the first time its condition holds.
    pub fn run_system_once_when(&mut self, system: P, condition: P) -> (r: &mut Self)
        ensures
            r.queue@ == old(self).queue@.push(Command::RunSystemOnceWhen(system, condition)),
            r.entities@ == old(self).entities@,
            final(r.queue)@ == final(old(self).queue)@,
            final(r.entities)@ == final(old(self).entities)@,
            *final(self) == *final(r),
    {
        self.push(Command::RunSystemOnceWhen(system, condition));
        self
    }
}

} // verus!
