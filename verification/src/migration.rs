//! The protocol by which one virtual node is sent from its owner to another
//! node: a start message, the chunks of data in order, and a finish message,
//! each answered by its acknowledgement. Any other answer, and any failure
//! of the connection, cancels the transfer.

use crate::vnode::next_chunk;
use crate::vnode::texts;
use crate::vnode::Task;
use vstd::prelude::*;

verus! {

/// What the sending side says.
#[derive(Clone, Debug, PartialEq, Eq)]
pub enum MigrationMsg {
    Start { src: String, vnode: u64 },
    Data { vnode: u64, chunk: u64, data: Vec<String> },
    Finish { vnode: u64 },
}

/// What the receiving side answers.
#[derive(Clone, Copy, Debug, PartialEq, Eq, Structural)]
pub enum MigrationAck {
    Start { vnode: u64 },
    Data { chunk: u64 },
    Finish { vnode: u64 },
}

/// The value of a [`MigrationMsg`].
pub ghost enum MsgModel {
    Start { src: Seq<char>, vnode: u64 },
    Data { vnode: u64, chunk: u64, data: Seq<Seq<char>> },
    Finish { vnode: u64 },
}

impl View for MigrationMsg {
    type V = MsgModel;

    open spec fn view(&self) -> MsgModel {
        match self {
            MigrationMsg::Start { src, vnode } => MsgModel::Start { src: src@, vnode: *vnode },
            MigrationMsg::Data { vnode, chunk, data } => MsgModel::Data {
                vnode: *vnode,
                chunk: *chunk,
                data: texts(data@),
            },
            MigrationMsg::Finish { vnode } => MsgModel::Finish { vnode: *vnode },
        }
    }
}

/// The acknowledgement that answers a message.
pub open spec fn ack_for(msg: MsgModel) -> MigrationAck {
    match msg {
        MsgModel::Start { src, vnode } => MigrationAck::Start { vnode },
        MsgModel::Data { vnode, chunk, data } => MigrationAck::Data { chunk },
        MsgModel::Finish { vnode } => MigrationAck::Finish { vnode },
    }
}

/// How far a transfer has come on the sending side.
#[derive(Clone, Copy, Debug, PartialEq, Eq, Structural)]
pub enum Phase {
    /// Waiting for the connection.
    Connecting,
    /// The start message is out.
    Starting,
    /// Waiting for the manager to hand over the chunk.
    Fetching { chunk: u64 },
    /// The chunk is out.
    Sending { chunk: u64 },
    /// The finish message is out.
    Finishing,
    /// The receiving side has the virtual node.
    Finished,
    /// The transfer was given up.
    Cancelled,
}

/// What happens to a transfer on the sending side.
#[derive(Clone, Debug, PartialEq, Eq)]
pub enum Event {
    Connected,
    ConnectFailed,
    /// An answer came in.
    Acked(MigrationAck),
    /// The connection broke, or what came in was no answer.
    TransportFailed,
    /// The manager handed over a chunk; no data ends the stream.
    Chunk { chunk: u64, data: Vec<String> },
    /// The manager gave no answer.
    ChunkUnavailable,
}

/// The value of an [`Event`].
pub ghost enum EventModel {
    Connected,
    ConnectFailed,
    Acked(MigrationAck),
    TransportFailed,
    Chunk { chunk: u64, data: Seq<Seq<char>> },
    ChunkUnavailable,
}

impl View for Event {
    type V = EventModel;

    open spec fn view(&self) -> EventModel {
        match self {
            Event::Connected => EventModel::Connected,
            Event::ConnectFailed => EventModel::ConnectFailed,
            Event::Acked(a) => EventModel::Acked(*a),
            Event::TransportFailed => EventModel::TransportFailed,
            Event::Chunk { chunk, data } => EventModel::Chunk { chunk: *chunk, data: texts(data@) },
            Event::ChunkUnavailable => EventModel::ChunkUnavailable,
        }
    }
}

/// What the sending side does next.
#[derive(Clone, Debug, PartialEq, Eq)]
pub enum Step {
    /// Send the message and wait for its acknowledgement.
    Send(MigrationMsg),
    /// Ask the manager for a chunk.
    Fetch { vnode: u64, chunk: u64 },
    /// Tell the manager that the virtual node is gone.
    Finish { vnode: u64 },
    /// Tell the manager to take the transfer back and queue it again.
    Cancel { vnode: u64, target: String },
    /// Nothing: the transfer is over.
    Idle,
}

/// The value of a [`Step`].
pub ghost enum StepModel {
    Send(MsgModel),
    Fetch { vnode: u64, chunk: u64 },
    Finish { vnode: u64 },
    Cancel { vnode: u64, target: Seq<char> },
    Idle,
}

impl View for Step {
    type V = StepModel;

    open spec fn view(&self) -> StepModel {
        match self {
            Step::Send(m) => StepModel::Send(m@),
            Step::Fetch { vnode, chunk } => StepModel::Fetch { vnode: *vnode, chunk: *chunk },
            Step::Finish { vnode } => StepModel::Finish { vnode: *vnode },
            Step::Cancel { vnode, target } => StepModel::Cancel { vnode: *vnode, target: target@ },
            Step::Idle => StepModel::Idle,
        }
    }
}

/// The transfer is still under way.
pub open spec fn active(phase: Phase) -> bool {
    phase != Phase::Finished && phase != Phase::Cancelled
}

/// The step that gives a transfer up.
pub open spec fn cancelled(vnode: u64, target: Seq<char>) -> (Phase, StepModel) {
    (Phase::Cancelled, StepModel::Cancel { vnode, target })
}

/// The next phase and step of a transfer of `vnode` to `target`. A transfer
/// that is over stays as it is. An event that the phase does not wait for,
/// an answer other than the one expected and a failure all give the
/// transfer up.
pub open spec fn transition(phase: Phase, vnode: u64, target: Seq<char>, event: EventModel) -> (
    Phase,
    StepModel,
) {
    match (phase, event) {
        (Phase::Finished, _) => (Phase::Finished, StepModel::Idle),
        (Phase::Cancelled, _) => (Phase::Cancelled, StepModel::Idle),
        (Phase::Connecting, EventModel::Connected) => (
            Phase::Starting,
            StepModel::Send(MsgModel::Start { src: Seq::empty(), vnode }),
        ),
        (Phase::Starting, EventModel::Acked(a)) => if a == (MigrationAck::Start { vnode }) {
            (Phase::Fetching { chunk: 0 }, StepModel::Fetch { vnode, chunk: 0 })
        } else {
            cancelled(vnode, target)
        },
        (Phase::Fetching { chunk }, EventModel::Chunk { chunk: got, data }) => if got != chunk {
            cancelled(vnode, target)
        } else if data.len() == 0 {
            (Phase::Finishing, StepModel::Send(MsgModel::Finish { vnode }))
        } else {
            (Phase::Sending { chunk }, StepModel::Send(MsgModel::Data { vnode, chunk, data }))
        },
        (Phase::Fetching { chunk }, EventModel::ChunkUnavailable) => (
            Phase::Finishing,
            StepModel::Send(MsgModel::Finish { vnode }),
        ),
        (Phase::Sending { chunk }, EventModel::Acked(a)) => if a == (MigrationAck::Data { chunk }) {
            (
                Phase::Fetching { chunk: next_chunk(chunk) },
                StepModel::Fetch { vnode, chunk: next_chunk(chunk) },
            )
        } else {
            cancelled(vnode, target)
        },
        (Phase::Finishing, EventModel::Acked(a)) => if a == (MigrationAck::Finish { vnode }) {
            (Phase::Finished, StepModel::Finish { vnode })
        } else {
            cancelled(vnode, target)
        },
        _ => cancelled(vnode, target),
    }
}

/// Whether what came in is the expected acknowledgement. Nothing coming in
/// counts as a failure.
pub fn try_ack(expected: MigrationAck, reply: Option<MigrationAck>) -> (ok: bool)
    ensures
        ok == (reply == Some(expected)),
{
    match reply {
        Some(got) => got == expected,
        None => false,
    }
}

/// The acknowledgement that answers a message.
pub fn expected_ack(msg: &MigrationMsg) -> (ack: MigrationAck)
    ensures
        ack == ack_for(msg@),
{
    match msg {
        MigrationMsg::Start { src: _, vnode } => MigrationAck::Start { vnode: *vnode },
        MigrationMsg::Data { vnode: _, chunk, data: _ } => MigrationAck::Data { chunk: *chunk },
        MigrationMsg::Finish { vnode } => MigrationAck::Finish { vnode: *vnode },
    }
}

/// The receiving side turns a message into the task for its manager and the
/// acknowledgement for the sender.
pub fn accept(msg: MigrationMsg) -> (r: (Task, MigrationAck))
    ensures
        r.1 == ack_for(msg@),
        match msg {
            MigrationMsg::Start { src, vnode } => r.0 == (Task::MigrateInStart { src, vnode }),
            MigrationMsg::Data { vnode, chunk, data } => r.0 == (Task::MigrateIn {
                vnode,
                chunk,
                data,
            }),
            MigrationMsg::Finish { vnode } => r.0 == (Task::MigrateInEnd { vnode }),
        },
{
    match msg {
        MigrationMsg::Start { src, vnode } => (
            Task::MigrateInStart { src, vnode },
            MigrationAck::Start { vnode },
        ),
        MigrationMsg::Data { vnode, chunk, data } => (
            Task::MigrateIn { vnode, chunk, data },
            MigrationAck::Data { chunk },
        ),
        MigrationMsg::Finish { vnode } => (Task::MigrateInEnd { vnode }, MigrationAck::Finish { vnode }),
    }
}

/// The sending side of one transfer.
pub struct Outbound {
    target: String,
    vnode: u64,
    phase: Phase,
}

impl Outbound {
    /// The node that is to receive the virtual node.
    pub closed spec fn target(&self) -> Seq<char> {
        self.target@
    }

    /// The virtual node on its way.
    pub closed spec fn vnode(&self) -> u64 {
        self.vnode
    }

    /// How far the transfer has come.
    pub closed spec fn phase(&self) -> Phase {
        self.phase
    }

    /// A transfer that waits for its connection.
    pub fn new(target: String, vnode: u64) -> (r: Self)
        ensures
            r.target() == target@,
            r.vnode() == vnode,
            r.phase() == Phase::Connecting,
    {
        Outbound { target, vnode, phase: Phase::Connecting }
    }

    /// How far the transfer has come.
    pub fn current_phase(&self) -> (p: Phase)
        ensures
            p == self.phase(),
    {
        self.phase
    }

    /// Gives the transfer up.
    fn cancel(&mut self) -> (step: Step)
        ensures
            final(self).target() == old(self).target(),
            final(self).vnode() == old(self).vnode(),
            (final(self).phase(), step@) == cancelled(old(self).vnode(), old(self).target()),
    {
        self.phase = Phase::Cancelled;
        Step::Cancel { vnode: self.vnode, target: self.target.clone() }
    }

    /// Moves on to the given phase if the answer is the expected one, and
    /// gives the transfer up if not.
    fn on_ack(&mut self, expected: MigrationAck, got: MigrationAck, then_phase: Phase, then_step: Step) -> (step: Step)
        ensures
            final(self).target() == old(self).target(),
            final(self).vnode() == old(self).vnode(),
            (final(self).phase(), step@) == if got == expected {
                (then_phase, then_step@)
            } else {
                cancelled(old(self).vnode(), old(self).target())
            },
    {
        if try_ack(expected, Some(got)) {
            self.phase = then_phase;
            then_step
        } else {
            self.cancel()
        }
    }
}

/// Takes a transfer one step further: from the phase it is in and what
/// happened to the next phase and what is to be done.
pub fn do_migrate(session: &mut Outbound, event: Event) -> (step: Step)
    ensures
        final(session).target() == old(session).target(),
        final(session).vnode() == old(session).vnode(),
        (final(session).phase(), step@) == transition(
            old(session).phase(),
            old(session).vnode(),
            old(session).target(),
            event@,
        ),
{
    let vnode = session.vnode;
    match session.phase {
        Phase::Finished => Step::Idle,
        Phase::Cancelled => Step::Idle,
        Phase::Connecting => match event {
            Event::Connected => {
                session.phase = Phase::Starting;
                Step::Send(MigrationMsg::Start { src: String::new(), vnode })
            },
            _ => session.cancel(),
        },
        Phase::Starting => match event {
            Event::Acked(a) => session.on_ack(
                MigrationAck::Start { vnode },
                a,
                Phase::Fetching { chunk: 0 },
                Step::Fetch { vnode, chunk: 0 },
            ),
            _ => session.cancel(),
        },
        Phase::Fetching { chunk } => match event {
            Event::Chunk { chunk: got, data } => {
                if got != chunk {
                    session.cancel()
                } else if data.len() == 0 {
                    session.phase = Phase::Finishing;
                    Step::Send(MigrationMsg::Finish { vnode })
                } else {
                    session.phase = Phase::Sending { chunk };
                    Step::Send(MigrationMsg::Data { vnode, chunk, data })
                }
            },
            Event::ChunkUnavailable => {
                session.phase = Phase::Finishing;
                Step::Send(MigrationMsg::Finish { vnode })
            },
            _ => session.cancel(),
        },
        Phase::Sending { chunk } => match event {
            Event::Acked(a) => {
                let next: u64 = if chunk < u64::MAX {
                    chunk + 1
                } else {
                    chunk
                };
                session.on_ack(
                    MigrationAck::Data { chunk },
                    a,
                    Phase::Fetching { chunk: next },
                    Step::Fetch { vnode, chunk: next },
                )
            },
            _ => session.cancel(),
        },
        Phase::Finishing => match event {
            Event::Acked(a) => session.on_ack(
                MigrationAck::Finish { vnode },
                a,
                Phase::Finished,
                Step::Finish { vnode },
            ),
            _ => session.cancel(),
        },
    }
}

/// Whatever goes wrong while a transfer is under way, the sending side gives
/// it up and asks the manager to queue it again: a failed connection, a
/// broken one, and an answer other than the expected one.
pub proof fn lemma_failure_cancels(phase: Phase, vnode: u64, target: Seq<char>, wrong: MigrationAck)
    requires
        active(phase),
    ensures
        transition(phase, vnode, target, EventModel::TransportFailed) == cancelled(vnode, target),
        transition(phase, vnode, target, EventModel::ConnectFailed) == cancelled(vnode, target),
        phase == Phase::Starting && wrong != (MigrationAck::Start { vnode }) ==> transition(
            phase,
            vnode,
            target,
            EventModel::Acked(wrong),
        ) == cancelled(vnode, target),
        phase == Phase::Finishing && wrong != (MigrationAck::Finish { vnode }) ==> transition(
            phase,
            vnode,
            target,
            EventModel::Acked(wrong),
        ) == cancelled(vnode, target),
        forall|chunk: u64|
            phase == (Phase::Sending { chunk }) && wrong != (MigrationAck::Data { chunk })
                ==> transition(phase, vnode, target, EventModel::Acked(wrong)) == cancelled(
                vnode,
                target,
            ),
{
}

} // verus!
