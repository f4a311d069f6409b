//! The virtual nodes that one physical node owns, and the rules by which
//! they are handed over. The manager takes one task or command at a time and
//! answers with what is to be done next; a message that breaks a rule is
//! dropped and leaves the state as it was.

use std::collections::HashMap;
use vstd::prelude::*;

verus! {

broadcast use vstd::std_specs::hash::group_hash_axioms;

/// Which way a virtual node moves.
#[derive(Clone, Copy, Debug, PartialEq, Eq, Structural)]
pub enum Direction {
    Inbound,
    Outbound,
}

/// A move in progress: the other side, the next chunk and the direction.
#[derive(Clone, Debug, PartialEq, Eq)]
pub struct Migration {
    pub partner: String,
    pub chunk: u64,
    pub direction: Direction,
}

/// A virtual node as its owner holds it.
#[derive(Clone, Debug, PartialEq, Eq)]
pub struct VNode {
    pub id: u64,
    pub migration: Option<Migration>,
    pub data: Vec<String>,
}

/// The value of a [`Migration`].
pub ghost struct MigrationModel {
    pub partner: Seq<char>,
    pub chunk: u64,
    pub direction: Direction,
}

/// The value of a [`VNode`].
pub ghost struct VNodeModel {
    pub id: u64,
    pub migration: Option<MigrationModel>,
    pub data: Seq<Seq<char>>,
}

/// The values of a run of strings.
pub open spec fn texts(data: Seq<String>) -> Seq<Seq<char>> {
    Seq::new(data.len(), |i: int| data[i]@)
}

impl View for Migration {
    type V = MigrationModel;

    open spec fn view(&self) -> MigrationModel {
        MigrationModel { partner: self.partner@, chunk: self.chunk, direction: self.direction }
    }
}

impl View for VNode {
    type V = VNodeModel;

    open spec fn view(&self) -> VNodeModel {
        VNodeModel {
            id: self.id,
            migration: match self.migration {
                Some(m) => Some(m@),
                None => None,
            },
            data: texts(self.data@),
        }
    }
}

/// What comes in from outside the node.
#[derive(Clone, Debug, PartialEq, Eq)]
pub enum Task {
    MigrateOut { target: String, vnode: u64 },
    Assign { vnodes: Vec<u64> },
    MigrateInStart { src: String, vnode: u64 },
    MigrateIn { vnode: u64, chunk: u64, data: Vec<String> },
    MigrateInEnd { vnode: u64 },
}

/// What the sending side of a move asks of the manager.
#[derive(Clone, Debug, PartialEq, Eq)]
pub enum Cmd {
    GetMigrationData { vnode: u64, chunk: u64 },
    FinishMigration { vnode: u64 },
    CancelMigration { vnode: u64, target: String },
}

/// The rule that a dropped message broke.
#[derive(Clone, Copy, Debug, PartialEq, Eq, Structural)]
pub enum Violation {
    UnknownVNode,
    AlreadyKnown,
    AlreadyMigrating,
    NoMigration,
    WrongDirection,
    WrongChunk,
}

/// What is to be done after a task or command was handled.
#[derive(Clone, Debug, PartialEq, Eq)]
pub enum Outcome {
    /// Nothing more.
    Done,
    /// Start sending the virtual node to the target.
    Spawn { target: String, vnode: u64 },
    /// Answer the sending side with a chunk; no data ends the stream.
    Reply { chunk: u64, data: Vec<String> },
    /// Put the move back into the queue of tasks.
    Requeue { target: String, vnode: u64 },
    /// The message was dropped.
    Dropped(Violation),
}

/// The value of an [`Outcome`].
pub ghost enum OutcomeModel {
    Done,
    Spawn { target: Seq<char>, vnode: u64 },
    Reply { chunk: u64, data: Seq<Seq<char>> },
    Requeue { target: Seq<char>, vnode: u64 },
    Dropped(Violation),
}

impl View for Outcome {
    type V = OutcomeModel;

    open spec fn view(&self) -> OutcomeModel {
        match self {
            Outcome::Done => OutcomeModel::Done,
            Outcome::Spawn { target, vnode } => OutcomeModel::Spawn { target: target@, vnode: *vnode },
            Outcome::Reply { chunk, data } => OutcomeModel::Reply { chunk: *chunk, data: texts(data@) },
            Outcome::Requeue { target, vnode } => OutcomeModel::Requeue {
                target: target@,
                vnode: *vnode,
            },
            Outcome::Dropped(v) => OutcomeModel::Dropped(*v),
        }
    }
}

/// The virtual nodes of one physical node, by their ids.
pub type Owned = Map<u64, VNodeModel>;

/// The cursor after one more chunk; it stays at the largest number.
pub open spec fn next_chunk(chunk: u64) -> u64 {
    if chunk < u64::MAX {
        (chunk + 1) as u64
    } else {
        chunk
    }
}

/// A virtual node that `me` owns from the start.
pub open spec fn fresh(id: u64, me: Seq<char>) -> VNodeModel {
    VNodeModel { id, migration: None, data: seq![me] }
}

/// The state after the virtual nodes `ids` were assigned to `me`.
pub open spec fn assigned(m: Owned, me: Seq<char>, ids: Seq<u64>) -> Owned
    decreases ids.len(),
{
    if ids.len() == 0 {
        m
    } else {
        assigned(m, me, ids.drop_last()).insert(ids.last(), fresh(ids.last(), me))
    }
}

/// Handing a virtual node out begins where the node is owned and at rest.
pub open spec fn migrate_out_result(m: Owned, target: Seq<char>, vnode: u64) -> (
    Owned,
    OutcomeModel,
) {
    if !m.contains_key(vnode) {
        (m, OutcomeModel::Dropped(Violation::UnknownVNode))
    } else if m[vnode].migration.is_some() {
        (m, OutcomeModel::Dropped(Violation::AlreadyMigrating))
    } else {
        (
            m.insert(
                vnode,
                VNodeModel {
                    migration: Some(
                        MigrationModel { partner: target, chunk: 0, direction: Direction::Outbound },
                    ),
                    ..m[vnode]
                },
            ),
            OutcomeModel::Spawn { target, vnode: m[vnode].id },
        )
    }
}

/// Taking a virtual node in begins where the node is not known yet.
pub open spec fn migrate_in_start_result(m: Owned, src: Seq<char>, vnode: u64) -> (
    Owned,
    OutcomeModel,
) {
    if m.contains_key(vnode) {
        (m, OutcomeModel::Dropped(Violation::AlreadyKnown))
    } else {
        (
            m.insert(
                vnode,
                VNodeModel {
                    id: vnode,
                    migration: Some(
                        MigrationModel { partner: src, chunk: 0, direction: Direction::Inbound },
                    ),
                    data: Seq::empty(),
                },
            ),
            OutcomeModel::Done,
        )
    }
}

/// The rule, if any, that a message for `vnode` breaks which needs a move
/// in the given direction, and at the given chunk where one is named.
pub open spec fn broken_rule(m: Owned, vnode: u64, direction: Direction, chunk: Option<u64>) -> Option<
    Violation,
> {
    if !m.contains_key(vnode) {
        Some(Violation::UnknownVNode)
    } else if m[vnode].migration.is_none() {
        Some(Violation::NoMigration)
    } else if m[vnode].migration.unwrap().direction != direction {
        Some(Violation::WrongDirection)
    } else if chunk.is_some() && m[vnode].migration.unwrap().chunk != chunk.unwrap() {
        Some(Violation::WrongChunk)
    } else {
        None
    }
}

/// A chunk that comes in is added to the data, and the cursor moves on.
pub open spec fn migrate_in_result(m: Owned, vnode: u64, chunk: u64, data: Seq<Seq<char>>) -> (
    Owned,
    OutcomeModel,
) {
    match broken_rule(m, vnode, Direction::Inbound, Some(chunk)) {
        Some(v) => (m, OutcomeModel::Dropped(v)),
        None => (
            m.insert(
                vnode,
                VNodeModel {
                    migration: Some(
                        MigrationModel {
                            chunk: next_chunk(chunk),
                            ..m[vnode].migration.unwrap()
                        },
                    ),
                    data: m[vnode].data + data,
                    ..m[vnode]
                },
            ),
            OutcomeModel::Done,
        ),
    }
}

/// The end of a move inwards: the move is over and `me` is added to the
/// data as the new owner.
pub open spec fn migrate_in_end_result(m: Owned, me: Seq<char>, vnode: u64) -> (
    Owned,
    OutcomeModel,
) {
    match broken_rule(m, vnode, Direction::Inbound, None) {
        Some(v) => (m, OutcomeModel::Dropped(v)),
        None => (
            m.insert(vnode, VNodeModel { migration: None, data: m[vnode].data.push(me), ..m[vnode] }),
            OutcomeModel::Done,
        ),
    }
}

/// The chunk with the given number: one piece of the data, or nothing behind
/// the end.
pub open spec fn chunk_of(data: Seq<Seq<char>>, chunk: u64) -> Seq<Seq<char>> {
    if chunk < data.len() {
        seq![data[chunk as int]]
    } else {
        Seq::empty()
    }
}

/// The sending side is given the chunk it asks for, and the cursor moves on.
pub open spec fn migration_data_result(m: Owned, vnode: u64, chunk: u64) -> (Owned, OutcomeModel) {
    match broken_rule(m, vnode, Direction::Outbound, Some(chunk)) {
        Some(v) => (m, OutcomeModel::Dropped(v)),
        None => (
            m.insert(
                vnode,
                VNodeModel {
                    migration: Some(
                        MigrationModel {
                            chunk: next_chunk(chunk),
                            ..m[vnode].migration.unwrap()
                        },
                    ),
                    ..m[vnode]
                },
            ),
            OutcomeModel::Reply { chunk, data: chunk_of(m[vnode].data, chunk) },
        ),
    }
}

/// A move that failed is taken back and queued again.
pub open spec fn cancel_result(m: Owned, vnode: u64, target: Seq<char>) -> (Owned, OutcomeModel) {
    if !m.contains_key(vnode) {
        (m, OutcomeModel::Dropped(Violation::UnknownVNode))
    } else if m[vnode].migration.is_none() {
        (m, OutcomeModel::Dropped(Violation::NoMigration))
    } else {
        (
            m.insert(vnode, VNodeModel { migration: None, ..m[vnode] }),
            OutcomeModel::Requeue { target, vnode },
        )
    }
}

/// A virtual node that was handed out is no longer owned.
pub open spec fn finish_result(m: Owned, vnode: u64) -> (Owned, OutcomeModel) {
    match broken_rule(m, vnode, Direction::Outbound, None) {
        Some(v) => (m, OutcomeModel::Dropped(v)),
        None => (m.remove(vnode), OutcomeModel::Done),
    }
}

/// The manager of the virtual nodes of the physical node `id`.
pub struct VNodeManager {
    id: String,
    vnodes: HashMap<u64, VNode>,
}

impl VNodeManager {
    /// The virtual nodes owned, by their ids.
    pub closed spec fn model(&self) -> Owned {
        Map::new(|k: u64| self.vnodes@.contains_key(k), |k: u64| self.vnodes@[k]@)
    }

    /// The name of the physical node.
    pub closed spec fn node_id(&self) -> Seq<char> {
        self.id@
    }

    /// A manager that owns nothing yet.
    pub fn new(id: String) -> (r: Self)
        ensures
            r.node_id() == id@,
            r.model() == Map::<u64, VNodeModel>::empty(),
    {
        let r = VNodeManager { id, vnodes: HashMap::new() };
        assert(r.model() =~= Map::<u64, VNodeModel>::empty());
        r
    }

    /// Whether the virtual node is owned.
    pub fn owns(&self, vnode: u64) -> (r: bool)
        ensures
            r == self.model().contains_key(vnode),
    {
        self.vnodes.contains_key(&vnode)
    }

    /// The data of a virtual node, where it is owned.
    pub fn data_of(&self, vnode: u64) -> (r: Option<Vec<String>>)
        ensures
            match r {
                Some(d) => self.model().contains_key(vnode) && texts(d@) == self.model()[vnode].data,
                None => !self.model().contains_key(vnode),
            },
    {
        match self.vnodes.get(&vnode) {
            Some(v) => Some(copy_texts(&v.data)),
            None => None,
        }
    }

    /// Whether a move of the virtual node is in progress.
    pub fn is_migrating(&self, vnode: u64) -> (r: bool)
        ensures
            r == (self.model().contains_key(vnode) && self.model()[vnode].migration.is_some()),
    {
        match self.vnodes.get(&vnode) {
            Some(v) => v.migration.is_some(),
            None => false,
        }
    }

    /// Puts a virtual node into the map under its key.
    fn store(&mut self, key: u64, node: VNode)
        ensures
            final(self).model() == old(self).model().insert(key, node@),
            final(self).node_id() == old(self).node_id(),
    {
        self.vnodes.insert(key, node);
        assert(self.model() =~= old(self).model().insert(key, node@));
    }

    /// Takes a virtual node out of the map.
    fn take(&mut self, key: u64) -> (r: Option<VNode>)
        ensures
            final(self).node_id() == old(self).node_id(),
            match r {
                Some(node) => old(self).model().contains_key(key) && old(self).model()[key] == node@
                    && final(self).model() == old(self).model().remove(key),
                None => !old(self).model().contains_key(key) && final(self).model() == old(
                    self,
                ).model(),
            },
    {
        let r = self.vnodes.remove(&key);
        assert(self.model() =~= old(self).model().remove(key));
        if r.is_none() {
            assert(self.model() =~= old(self).model());
        }
        r
    }

    /// Makes this node the owner of the virtual nodes `ids`, each with the
    /// node's name as its data.
    pub fn assign(&mut self, ids: Vec<u64>) -> (r: Outcome)
        ensures
            final(self).node_id() == old(self).node_id(),
            final(self).model() == assigned(old(self).model(), old(self).node_id(), ids@),
            r@ == OutcomeModel::Done,
    {
        let mut i: usize = 0;
        assert(ids@.take(0) =~= Seq::<u64>::empty());
        while i < ids.len()
            invariant
                i <= ids@.len(),
                self.node_id() == old(self).node_id(),
                self.model() == assigned(old(self).model(), old(self).node_id(), ids@.take(i as int)),
            decreases ids@.len() - i,
        {
            let id = ids[i];
            let mut data: Vec<String> = Vec::new();
            data.push(self.id.clone());
            assert(texts(data@) =~= seq![self.id@]);
            proof {
                assert(ids@.take(i + 1).drop_last() =~= ids@.take(i as int));
                assert(ids@.take(i + 1).last() == id);
            }
            self.store(id, VNode { id, migration: None, data });
            i += 1;
        }
        assert(ids@.take(i as int) =~= ids@);
        Outcome::Done
    }

    /// Begins to hand the virtual node to `target`.
    pub fn migrate_out(&mut self, target: String, vnode: u64) -> (r: Outcome)
        ensures
            final(self).node_id() == old(self).node_id(),
            (final(self).model(), r@) == migrate_out_result(old(self).model(), target@, vnode),
    {
        match self.take(vnode) {
            None => Outcome::Dropped(Violation::UnknownVNode),
            Some(node) => {
                if node.migration.is_some() {
                    self.store(vnode, node);
                    assert(self.model() =~= old(self).model());
                    Outcome::Dropped(Violation::AlreadyMigrating)
                } else {
                    let VNode { id, migration: _, data } = node;
                    let m = Migration {
                        partner: target.clone(),
                        chunk: 0,
                        direction: Direction::Outbound,
                    };
                    self.store(vnode, VNode { id, migration: Some(m), data });
                    assert(self.model() =~= migrate_out_result(old(self).model(), target@, vnode).0);
                    Outcome::Spawn { target, vnode: id }
                }
            },
        }
    }

    /// Begins to take the virtual node in from `src`.
    pub fn migrate_in_start(&mut self, src: String, vnode: u64) -> (r: Outcome)
        ensures
            final(self).node_id() == old(self).node_id(),
            (final(self).model(), r@) == migrate_in_start_result(old(self).model(), src@, vnode),
    {
        if self.vnodes.contains_key(&vnode) {
            Outcome::Dropped(Violation::AlreadyKnown)
        } else {
            let data: Vec<String> = Vec::new();
            assert(texts(data@) =~= Seq::<Seq<char>>::empty());
            let m = Migration { partner: src, chunk: 0, direction: Direction::Inbound };
            self.store(vnode, VNode { id: vnode, migration: Some(m), data });
            Outcome::Done
        }
    }

    /// Takes in one chunk of a virtual node.
    pub fn migrate_in(&mut self, vnode: u64, chunk: u64, data: Vec<String>) -> (r: Outcome)
        ensures
            final(self).node_id() == old(self).node_id(),
            (final(self).model(), r@) == migrate_in_result(
                old(self).model(),
                vnode,
                chunk,
                texts(data@),
            ),
    {
        match self.take(vnode) {
            None => Outcome::Dropped(Violation::UnknownVNode),
            Some(node) => {
                let VNode { id, migration, data: mut held } = node;
                let ghost held_before = held@;
                match migration {
                    Some(m) => {
                        if m.direction == Direction::Inbound && m.chunk == chunk {
                            let mut rest = data;
                            let ghost added = rest@;
                            held.append(&mut rest);
                            assert(texts(held@) =~= texts(held_before) + texts(added));
                            let m = Migration {
                                partner: m.partner,
                                chunk: advance(chunk),
                                direction: m.direction,
                            };
                            self.store(vnode, VNode { id, migration: Some(m), data: held });
                            Outcome::Done
                        } else {
                            let v = if m.direction == Direction::Inbound {
                                Violation::WrongChunk
                            } else {
                                Violation::WrongDirection
                            };
                            self.store(vnode, VNode { id, migration: Some(m), data: held });
                            assert(self.model() =~= old(self).model());
                            Outcome::Dropped(v)
                        }
                    },
                    None => {
                        self.store(vnode, VNode { id, migration: None, data: held });
                        assert(self.model() =~= old(self).model());
                        Outcome::Dropped(Violation::NoMigration)
                    },
                }
            },
        }
    }

    /// Ends a move inwards: this node is now the owner.
    pub fn migrate_in_end(&mut self, vnode: u64) -> (r: Outcome)
        ensures
            final(self).node_id() == old(self).node_id(),
            (final(self).model(), r@) == migrate_in_end_result(
                old(self).model(),
                old(self).node_id(),
                vnode,
            ),
    {
        match self.take(vnode) {
            None => Outcome::Dropped(Violation::UnknownVNode),
            Some(node) => {
                let VNode { id, migration, data: mut held } = node;
                let ghost held_before = held@;
                match migration {
                    Some(m) => {
                        if m.direction == Direction::Inbound {
                            held.push(self.id.clone());
                            assert(texts(held@) =~= texts(held_before).push(self.id@));
                            self.store(vnode, VNode { id, migration: None, data: held });
                            Outcome::Done
                        } else {
                            self.store(vnode, VNode { id, migration: Some(m), data: held });
                            assert(self.model() =~= old(self).model());
                            Outcome::Dropped(Violation::WrongDirection)
                        }
                    },
                    None => {
                        self.store(vnode, VNode { id, migration: None, data: held });
                        assert(self.model() =~= old(self).model());
                        Outcome::Dropped(Violation::NoMigration)
                    },
                }
            },
        }
    }

    /// Hands the sending side the chunk that it asks for.
    pub fn get_migration_data(&mut self, vnode: u64, chunk: u64) -> (r: Outcome)
        ensures
            final(self).node_id() == old(self).node_id(),
            (final(self).model(), r@) == migration_data_result(old(self).model(), vnode, chunk),
    {
        match self.take(vnode) {
            None => Outcome::Dropped(Violation::UnknownVNode),
            Some(node) => {
                let VNode { id, migration, data: held } = node;
                match migration {
                    Some(m) => {
                        if m.direction == Direction::Outbound && m.chunk == chunk {
                            let mut reply: Vec<String> = Vec::new();
                            if chunk < held.len() as u64 {
                                reply.push(held[chunk as usize].clone());
                            }
                            assert(texts(reply@) =~= chunk_of(texts(held@), chunk));
                            let m = Migration {
                                partner: m.partner,
                                chunk: advance(chunk),
                                direction: m.direction,
                            };
                            self.store(vnode, VNode { id, migration: Some(m), data: held });
                            Outcome::Reply { chunk, data: reply }
                        } else {
                            let v = if m.direction == Direction::Outbound {
                                Violation::WrongChunk
                            } else {
                                Violation::WrongDirection
                            };
                            self.store(vnode, VNode { id, migration: Some(m), data: held });
                            assert(self.model() =~= old(self).model());
                            Outcome::Dropped(v)
                        }
                    },
                    None => {
                        self.store(vnode, VNode { id, migration: None, data: held });
                        assert(self.model() =~= old(self).model());
                        Outcome::Dropped(Violation::NoMigration)
                    },
                }
            },
        }
    }

    /// Takes back a move that failed and asks for it to be queued again.
    pub fn cancel_migration(&mut self, vnode: u64, target: String) -> (r: Outcome)
        ensures
            final(self).node_id() == old(self).node_id(),
            (final(self).model(), r@) == cancel_result(old(self).model(), vnode, target@),
    {
        match self.take(vnode) {
            None => Outcome::Dropped(Violation::UnknownVNode),
            Some(node) => {
                let VNode { id, migration, data } = node;
                let idle = migration.is_none();
                self.store(vnode, VNode { id, migration: None, data });
                if idle {
                    assert(self.model() =~= old(self).model());
                    Outcome::Dropped(Violation::NoMigration)
                } else {
                    Outcome::Requeue { target, vnode }
                }
            },
        }
    }

    /// Gives up a virtual node that was handed out.
    pub fn finish_migration(&mut self, vnode: u64) -> (r: Outcome)
        ensures
            final(self).node_id() == old(self).node_id(),
            (final(self).model(), r@) == finish_result(old(self).model(), vnode),
    {
        match self.take(vnode) {
            None => Outcome::Dropped(Violation::UnknownVNode),
            Some(node) => {
                match &node.migration {
                    Some(m) => {
                        if m.direction == Direction::Outbound {
                            Outcome::Done
                        } else {
                            self.store(vnode, node);
                            assert(self.model() =~= old(self).model());
                            Outcome::Dropped(Violation::WrongDirection)
                        }
                    },
                    None => {
                        self.store(vnode, node);
                        assert(self.model() =~= old(self).model());
                        Outcome::Dropped(Violation::NoMigration)
                    },
                }
            },
        }
    }

    /// Handles one task from outside the node.
    pub fn handle_tick(&mut self, task: Task) -> (r: Outcome)
        ensures
            final(self).node_id() == old(self).node_id(),
            match task {
                Task::Assign { vnodes } => final(self).model() == assigned(
                    old(self).model(),
                    old(self).node_id(),
                    vnodes@,
                ) && r@ == OutcomeModel::Done,
                Task::MigrateOut { target, vnode } => (final(self).model(), r@)
                    == migrate_out_result(old(self).model(), target@, vnode),
                Task::MigrateInStart { src, vnode } => (final(self).model(), r@)
                    == migrate_in_start_result(old(self).model(), src@, vnode),
                Task::MigrateIn { vnode, chunk, data } => (final(self).model(), r@)
                    == migrate_in_result(old(self).model(), vnode, chunk, texts(data@)),
                Task::MigrateInEnd { vnode } => (final(self).model(), r@) == migrate_in_end_result(
                    old(self).model(),
                    old(self).node_id(),
                    vnode,
                ),
            },
    {
        match task {
            Task::Assign { vnodes } => self.assign(vnodes),
            Task::MigrateOut { target, vnode } => self.migrate_out(target, vnode),
            Task::MigrateInStart { src, vnode } => self.migrate_in_start(src, vnode),
            Task::MigrateIn { vnode, chunk, data } => self.migrate_in(vnode, chunk, data),
            Task::MigrateInEnd { vnode } => self.migrate_in_end(vnode),
        }
    }

    /// Handles one command of the sending side of a move.
    pub fn handle_cmd(&mut self, cmd: Cmd) -> (r: Outcome)
        ensures
            final(self).node_id() == old(self).node_id(),
            match cmd {
                Cmd::GetMigrationData { vnode, chunk } => (final(self).model(), r@)
                    == migration_data_result(old(self).model(), vnode, chunk),
                Cmd::CancelMigration { vnode, target } => (final(self).model(), r@)
                    == cancel_result(old(self).model(), vnode, target@),
                Cmd::FinishMigration { vnode } => (final(self).model(), r@) == finish_result(
                    old(self).model(),
                    vnode,
                ),
            },
    {
        match cmd {
            Cmd::GetMigrationData { vnode, chunk } => self.get_migration_data(vnode, chunk),
            Cmd::CancelMigration { vnode, target } => self.cancel_migration(vnode, target),
            Cmd::FinishMigration { vnode } => self.finish_migration(vnode),
        }
    }
}

/// The cursor after one more chunk.
fn advance(chunk: u64) -> (r: u64)
    ensures
        r == next_chunk(chunk),
{
    if chunk < u64::MAX {
        chunk + 1
    } else {
        chunk
    }
}

/// Copies a run of strings.
pub fn copy_texts(v: &Vec<String>) -> (r: Vec<String>)
    ensures
        texts(r@) == texts(v@),
{
    let mut r: Vec<String> = Vec::new();
    let mut i: usize = 0;
    while i < v.len()
        invariant
            i <= v@.len(),
            r@.len() == i,
            forall|j: int| 0 <= j < i ==> (#[trigger] r@[j])@ == v@[j]@,
        decreases v@.len() - i,
    {
        r.push(v[i].clone());
        i += 1;
    }
    assert(texts(r@) =~= texts(v@));
    r
}

/// A move that is cancelled right after it began leaves the virtual node as
/// it was, at rest and with its data, and asks for the same move again.
pub proof fn lemma_cancel_restores(m: Owned, vnode: u64, target: Seq<char>)
    requires
        m.contains_key(vnode),
        m[vnode].migration.is_none(),
    ensures
        cancel_result(migrate_out_result(m, target, vnode).0, vnode, target).0 == m,
        cancel_result(migrate_out_result(m, target, vnode).0, vnode, target).1
            == (OutcomeModel::Requeue { target, vnode }),
{
    let started = migrate_out_result(m, target, vnode).0;
    assert(cancel_result(started, vnode, target).0 =~= m);
}

/// A move that is cancelled after any number of chunks were handed out
/// leaves the data of the virtual node as it was and the node at rest: the
/// next attempt starts from the same state.
pub proof fn lemma_cancel_after_chunk_restores(m: Owned, vnode: u64, target: Seq<char>, chunk: u64)
    requires
        broken_rule(m, vnode, Direction::Outbound, Some(chunk)).is_none(),
    ensures
        cancel_result(migration_data_result(m, vnode, chunk).0, vnode, target).0 == cancel_result(
            m,
            vnode,
            target,
        ).0,
        cancel_result(m, vnode, target).0[vnode].data == m[vnode].data,
        cancel_result(m, vnode, target).0[vnode].migration.is_none(),
        cancel_result(m, vnode, target).1 == (OutcomeModel::Requeue { target, vnode }),
{
    let served = migration_data_result(m, vnode, chunk).0;
    assert(cancel_result(served, vnode, target).0 =~= cancel_result(m, vnode, target).0);
}

} // verus!
