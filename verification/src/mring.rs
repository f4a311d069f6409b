//! The replicated ring service: it keeps the size of the ring and the
//! placement of its virtual nodes, and says what is to be published when
//! either changes. Reading is local; every change goes through the log.

use crate::placement;
use crate::placement::add_node_moves;
use crate::placement::add_node_ring;
use crate::placement::moves_model;
use crate::placement::new_ring;
use crate::placement::remove_node_moves;
use crate::placement::remove_node_ring;
use crate::placement::ring_model;
use crate::placement::strategy_name;
use crate::placement::MRingNodes;
use crate::placement::Moves;
use crate::placement::Relocations;
use crate::placement::Ring;
use vstd::bytes::spec_u64_from_le_bytes;
use vstd::bytes::spec_u64_to_le_bytes;
use vstd::prelude::*;

verus! {

/// The eight bytes of a number, most significant first.
pub open spec fn be_bytes(n: u64) -> Seq<u8> {
    spec_u64_to_le_bytes(n).reverse()
}

/// The number that the first eight bytes stand for, most significant first.
pub open spec fn be_value(bytes: Seq<u8>) -> u64 {
    spec_u64_from_le_bytes(bytes.take(8).reverse())
}

/// The size that stored bytes stand for: their first eight bytes, where
/// there are as many.
pub open spec fn stored_size(bytes: Seq<u8>) -> Option<u64> {
    if bytes.len() >= 8 {
        Some(be_value(bytes))
    } else {
        None
    }
}

/// Appends `n` to `buf` with `bytes::BufMut::put_u64`: the buffer grows by
/// the eight bytes of `n`, most significant first.
#[verifier::external_body]
fn put_u64_be(buf: &mut Vec<u8>, n: u64)
    requires
        old(buf)@.len() + 8 <= isize::MAX,
    ensures
        final(buf)@ == old(buf)@ + be_bytes(n),
{
    bytes::BufMut::put_u64(buf, n);
}

/// Reads a number with `byteorder::ReadBytesExt::read_u64` in big-endian
/// order: the first eight bytes, most significant first, or nothing where
/// there are fewer.
#[verifier::external_body]
fn read_u64_be(bytes: &[u8]) -> (r: Option<u64>)
    ensures
        r == stored_size(bytes@),
{
    let mut reader = std::io::Cursor::new(bytes);
    byteorder::ReadBytesExt::read_u64::<byteorder::BigEndian>(&mut reader).ok()
}

/// The bytes under which a size is stored.
pub fn encode_size(size: u64) -> (data: Vec<u8>)
    ensures
        data@ == be_bytes(size),
        data@.len() == 8,
        stored_size(data@) == Some(size),
{
    let mut data: Vec<u8> = Vec::new();
    put_u64_be(&mut data, size);
    proof {
        lemma_size_round_trip(size);
        assert(data@ =~= be_bytes(size));
    }
    data
}

/// A size that was stored is read back as it was.
pub proof fn lemma_size_round_trip(size: u64)
    ensures
        be_bytes(size).len() == 8,
        stored_size(be_bytes(size)) == Some(size),
{
    vstd::bytes::lemma_auto_spec_u64_to_from_le_bytes();
    let le = spec_u64_to_le_bytes(size);
    assert(le.len() == 8);
    assert(be_bytes(size).take(8) =~= be_bytes(size));
    assert(le.reverse().reverse() =~= le);
}

/// The tag of the ring service among the services.
pub const ID: u16 = 1;

/// The request was served.
pub const OK: u16 = 200;

/// Nothing is kept under what was asked for.
pub const NOT_FOUND: u16 = 404;

/// What is kept differs from what the request takes for granted.
pub const CONFLICT: u16 = 409;

/// The ring is not ready for the request.
pub const PRECONDITION_FAILED: u16 = 412;

/// A request to the ring service.
#[derive(Clone, Debug, PartialEq, Eq)]
pub enum Event {
    GetSize,
    SetSize { size: u64 },
    GetNodes,
    AddNode { node: String },
    RemoveNode { node: String },
}

/// Why a request was not taken.
#[derive(Clone, Copy, Debug, PartialEq, Eq, Structural)]
pub enum Error {
    /// The request could not be read.
    UnknownEvent,
}

/// What the service keeps: the size of the ring, once set, and its nodes,
/// once there are any.
#[derive(Clone, Debug, PartialEq, Eq)]
pub struct RingState {
    pub size: Option<u64>,
    pub nodes: Option<MRingNodes>,
}

/// The body of an answer.
#[derive(Clone, Debug, PartialEq, Eq)]
pub enum Body {
    Null,
    Size(u64),
    Nodes(MRingNodes),
    Message(String),
}

/// What is published on the channel `mring`.
#[derive(Clone, Debug, PartialEq, Eq)]
pub enum PSMRing {
    SetSize { size: u64, strategy: String },
    NodeAdded { node: String, strategy: String, next: MRingNodes, relocations: Relocations },
    NodeRemoved { node: String, strategy: String, next: MRingNodes, relocations: Relocations },
}

/// The state, the answer and the publication after a request.
#[derive(Clone, Debug, PartialEq, Eq)]
pub struct Executed {
    pub state: RingState,
    pub code: u16,
    pub body: Body,
    pub publish: Option<PSMRing>,
}

/// The value of a [`RingState`].
pub ghost struct StateModel {
    pub size: Option<u64>,
    pub nodes: Option<Ring>,
}

/// The value of a [`Body`].
pub ghost enum BodyModel {
    Null,
    Size(u64),
    Nodes(Ring),
    Message(Seq<char>),
}

/// The value of a [`PSMRing`].
pub ghost enum PubModel {
    SetSize { size: u64, strategy: Seq<char> },
    NodeAdded { node: Seq<char>, strategy: Seq<char>, next: Ring, relocations: Moves },
    NodeRemoved { node: Seq<char>, strategy: Seq<char>, next: Ring, relocations: Moves },
}

/// The value of an [`Executed`].
pub ghost struct ExecutedModel {
    pub state: StateModel,
    pub code: u16,
    pub body: BodyModel,
    pub publish: Option<PubModel>,
}

impl View for RingState {
    type V = StateModel;

    open spec fn view(&self) -> StateModel {
        StateModel {
            size: self.size,
            nodes: match self.nodes {
                Some(n) => Some(ring_model(n@)),
                None => None,
            },
        }
    }
}

impl View for Body {
    type V = BodyModel;

    open spec fn view(&self) -> BodyModel {
        match self {
            Body::Null => BodyModel::Null,
            Body::Size(s) => BodyModel::Size(*s),
            Body::Nodes(n) => BodyModel::Nodes(ring_model(n@)),
            Body::Message(m) => BodyModel::Message(m@),
        }
    }
}

impl View for PSMRing {
    type V = PubModel;

    open spec fn view(&self) -> PubModel {
        match self {
            PSMRing::SetSize { size, strategy } => PubModel::SetSize {
                size: *size,
                strategy: strategy@,
            },
            PSMRing::NodeAdded { node, strategy, next, relocations } => PubModel::NodeAdded {
                node: node@,
                strategy: strategy@,
                next: ring_model(next@),
                relocations: moves_model(relocations@),
            },
            PSMRing::NodeRemoved { node, strategy, next, relocations } => PubModel::NodeRemoved {
                node: node@,
                strategy: strategy@,
                next: ring_model(next@),
                relocations: moves_model(relocations@),
            },
        }
    }
}

impl View for Executed {
    type V = ExecutedModel;

    open spec fn view(&self) -> ExecutedModel {
        ExecutedModel {
            state: self.state@,
            code: self.code,
            body: self.body@,
            publish: match self.publish {
                Some(p) => Some(p@),
                None => None,
            },
        }
    }
}

/// The answer to a request that changes nothing and publishes nothing.
pub open spec fn answered(state: StateModel, code: u16, body: BodyModel) -> ExecutedModel {
    ExecutedModel { state, code, body, publish: None }
}

/// The size is given out where it is set.
pub open spec fn get_size_result(state: StateModel) -> ExecutedModel {
    match state.size {
        Some(size) => answered(state, OK, BodyModel::Size(size)),
        None => answered(state, NOT_FOUND, BodyModel::Null),
    }
}

/// The size is set once; after that it stays, and the request is answered
/// with the size that is kept.
pub open spec fn set_size_result(state: StateModel, size: u64) -> ExecutedModel {
    match state.size {
        Some(kept) => answered(state, CONFLICT, BodyModel::Size(kept)),
        None => ExecutedModel {
            state: StateModel { size: Some(size), nodes: state.nodes },
            code: OK,
            body: BodyModel::Size(size),
            publish: Some(PubModel::SetSize { size, strategy: strategy_name() }),
        },
    }
}

/// The nodes are given out; a ring without nodes gives the empty list.
pub open spec fn get_nodes_result(state: StateModel) -> ExecutedModel {
    match state.nodes {
        Some(nodes) => answered(state, OK, BodyModel::Nodes(nodes)),
        None => answered(state, OK, BodyModel::Nodes(Seq::empty())),
    }
}

/// A node joins a ring whose size is set: the first node takes the whole
/// ring, a later one its share.
pub open spec fn add_node_result(state: StateModel, node: Seq<char>) -> ExecutedModel {
    match state.size {
        None => answered(state, PRECONDITION_FAILED, BodyModel::Message("mring size not set"@)),
        Some(size) => {
            let next = match state.nodes {
                Some(current) => add_node_ring(size as int, current, node),
                None => new_ring(size as int, node),
            };
            let relocations = match state.nodes {
                Some(current) => add_node_moves(size as int, current, node),
                None => Seq::empty(),
            };
            ExecutedModel {
                state: StateModel { size: state.size, nodes: Some(next) },
                code: OK,
                body: BodyModel::Nodes(next),
                publish: Some(
                    PubModel::NodeAdded { node, strategy: strategy_name(), next, relocations },
                ),
            }
        },
    }
}

/// A node leaves a ring whose size is set and which has nodes.
pub open spec fn remove_node_result(state: StateModel, node: Seq<char>) -> ExecutedModel {
    match state.size {
        None => answered(state, PRECONDITION_FAILED, BodyModel::Message("mring size not set"@)),
        Some(size) => match state.nodes {
            None => answered(
                state,
                PRECONDITION_FAILED,
                BodyModel::Message("mring does not exist yet"@),
            ),
            Some(current) => {
                let next = remove_node_ring(size as int, current, node);
                ExecutedModel {
                    state: StateModel { size: state.size, nodes: Some(next) },
                    code: OK,
                    body: BodyModel::Nodes(next),
                    publish: Some(
                        PubModel::NodeRemoved {
                            node,
                            strategy: strategy_name(),
                            next,
                            relocations: remove_node_moves(size as int, current, node),
                        },
                    ),
                }
            },
        },
    }
}

/// Reading is served where it is asked.
pub open spec fn local(event: Event) -> bool {
    event is GetSize || event is GetNodes
}

/// The ring service.
pub struct Service {}

impl Service {
    /// The service.
    pub fn new() -> (s: Self) {
        Service {  }
    }

    /// The size that is stored, where bytes are stored and stand for one.
    pub fn size(&self, stored: Option<Vec<u8>>) -> (r: Option<u64>)
        ensures
            r == match stored {
                Some(bytes) => stored_size(bytes@),
                None => None,
            },
    {
        match stored {
            Some(bytes) => read_u64_be(bytes.as_slice()),
            None => None,
        }
    }

    /// Whether the request is served without going through the log.
    pub fn is_local(&self, event: &Event) -> (r: Result<bool, Error>)
        ensures
            r == Ok::<bool, Error>(local(*event)),
    {
        match event {
            Event::GetSize => Ok(true),
            Event::GetNodes => Ok(true),
            Event::SetSize { .. } => Ok(false),
            Event::AddNode { .. } => Ok(false),
            Event::RemoveNode { .. } => Ok(false),
        }
    }

    /// Serves one request on the state that is kept: the state afterwards,
    /// the answer, and what is to be published.
    pub fn execute(&self, state: RingState, event: Event) -> (r: Executed)
        ensures
            match event {
                Event::GetSize => r@ == get_size_result(state@),
                Event::SetSize { size } => r@ == set_size_result(state@, size),
                Event::GetNodes => r@ == get_nodes_result(state@),
                Event::AddNode { node } => r@ == add_node_result(state@, node@),
                Event::RemoveNode { node } => r@ == remove_node_result(state@, node@),
            },
    {
        let RingState { size, nodes } = state;
        match event {
            Event::GetSize => match size {
                Some(s) => Executed {
                    state: RingState { size, nodes },
                    code: OK,
                    body: Body::Size(s),
                    publish: None,
                },
                None => Executed {
                    state: RingState { size, nodes },
                    code: NOT_FOUND,
                    body: Body::Null,
                    publish: None,
                },
            },
            Event::SetSize { size: wanted } => match size {
                Some(kept) => Executed {
                    state: RingState { size, nodes },
                    code: CONFLICT,
                    body: Body::Size(kept),
                    publish: None,
                },
                None => Executed {
                    state: RingState { size: Some(wanted), nodes },
                    code: OK,
                    body: Body::Size(wanted),
                    publish: Some(PSMRing::SetSize { size: wanted, strategy: placement::name() }),
                },
            },
            Event::GetNodes => {
                let body = match &nodes {
                    Some(n) => placement::copy_ring(n),
                    None => {
                        let none: MRingNodes = Vec::new();
                        assert(ring_model(none@) =~= Seq::empty());
                        none
                    },
                };
                Executed {
                    state: RingState { size, nodes },
                    code: OK,
                    body: Body::Nodes(body),
                    publish: None,
                }
            },
            Event::AddNode { node } => {
                let s = match size {
                    Some(s) => s,
                    None => {
                        proof {
                            reveal_strlit("mring size not set");
                        }
                        return Executed {
                            state: RingState { size, nodes },
                            code: PRECONDITION_FAILED,
                            body: Body::Message("mring size not set".to_owned()),
                            publish: None,
                        };
                    },
                };
                let (next, relocations) = match nodes {
                    Some(current) => placement::add_node(s, current, node.clone()),
                    None => {
                        let none: Relocations = Vec::new();
                        assert(moves_model(none@) =~= Seq::empty());
                        (placement::new(s, node.clone()), none)
                    },
                };
                let body = placement::copy_ring(&next);
                let published = placement::copy_ring(&next);
                Executed {
                    state: RingState { size, nodes: Some(next) },
                    code: OK,
                    body: Body::Nodes(body),
                    publish: Some(
                        PSMRing::NodeAdded {
                            node,
                            strategy: placement::name(),
                            next: published,
                            relocations,
                        },
                    ),
                }
            },
            Event::RemoveNode { node } => {
                let s = match size {
                    Some(s) => s,
                    None => {
                        return Executed {
                            state: RingState { size, nodes },
                            code: PRECONDITION_FAILED,
                            body: Body::Message("mring size not set".to_owned()),
                            publish: None,
                        };
                    },
                };
                let current = match nodes {
                    Some(current) => current,
                    None => {
                        return Executed {
                            state: RingState { size, nodes: None },
                            code: PRECONDITION_FAILED,
                            body: Body::Message("mring does not exist yet".to_owned()),
                            publish: None,
                        };
                    },
                };
                let (next, relocations) = placement::remove_node(s, current, node.clone());
                let body = placement::copy_ring(&next);
                let published = placement::copy_ring(&next);
                Executed {
                    state: RingState { size, nodes: Some(next) },
                    code: OK,
                    body: Body::Nodes(body),
                    publish: Some(
                        PSMRing::NodeRemoved {
                            node,
                            strategy: placement::name(),
                            next: published,
                            relocations,
                        },
                    ),
                }
            },
        }
    }
}

/// Once the size is set, a request for another size is refused and the size
/// stays: the first request is answered 200, the second 409, and a question
/// for the size is answered with the first size before and after.
pub proof fn lemma_size_is_set_once(nodes: Option<Ring>, first: u64, second: u64)
    ensures
        ({
            let fresh = StateModel { size: None, nodes };
            let once = set_size_result(fresh, first);
            let twice = set_size_result(once.state, second);
            &&& once.code == OK
            &&& twice.code == CONFLICT
            &&& twice.state == once.state
            &&& get_size_result(once.state).body == BodyModel::Size(first)
            &&& get_size_result(twice.state).body == BodyModel::Size(first)
            &&& get_size_result(twice.state).code == OK
        }),
{
}

} // verus!
