//! Continuous placement of the virtual nodes of a ring on its physical
//! nodes. With `k` nodes on a ring of `size` virtual nodes, the node at place
//! `i` owns `size / k` of them, and one more where `i < size % k`. A node
//! that joins goes to the end of the list and takes the surplus from the end
//! of every other node's list; the virtual nodes of a node that leaves go, in
//! order, to the nodes that stay.

use crate::codec::copy_u64s;
use vstd::prelude::*;

verus! {

/// A physical node and the virtual nodes that it owns.
#[derive(Clone, Debug, PartialEq, Eq)]
pub struct MRingNode {
    pub id: String,
    pub vnodes: Vec<u64>,
}

/// The nodes of a ring, in placement order.
pub type MRingNodes = Vec<MRingNode>;

/// Virtual nodes that move from one physical node to another.
#[derive(Clone, Debug, PartialEq, Eq)]
pub struct Relocation {
    pub source: String,
    pub destination: String,
    pub vnodes: Vec<u64>,
}

/// The moves that one change of membership brings about.
pub type Relocations = Vec<Relocation>;

/// A ring as a mathematical value: the name and the virtual nodes of each
/// node, in placement order.
pub type Ring = Seq<(Seq<char>, Seq<u64>)>;

/// Moves as a mathematical value: source, destination and virtual nodes.
pub type Moves = Seq<(Seq<char>, Seq<char>, Seq<u64>)>;

/// The value of a list of nodes.
pub open spec fn ring_model(nodes: Seq<MRingNode>) -> Ring {
    Seq::new(nodes.len(), |i: int| (nodes[i].id@, nodes[i].vnodes@))
}

/// The value of a list of relocations.
pub open spec fn moves_model(moves: Seq<Relocation>) -> Moves {
    Seq::new(moves.len(), |i: int| (moves[i].source@, moves[i].destination@, moves[i].vnodes@))
}

/// The name of the strategy.
pub open spec fn strategy_name() -> Seq<char> {
    "continuous"@
}

/// How many virtual nodes the node at place `i` owns on a ring of `size`
/// virtual nodes and `k` nodes.
pub open spec fn share(size: int, k: int, i: int) -> int {
    if k <= 0 {
        0
    } else if i < size % k {
        size / k + 1
    } else {
        size / k
    }
}

/// The ring has a node called `name`.
pub open spec fn has_node(ring: Ring, name: Seq<char>) -> bool {
    exists|i: int| 0 <= i < ring.len() && (#[trigger] ring[i]).0 == name
}

/// `j` is the first place with a node called `name`.
pub open spec fn first_place(ring: Ring, name: Seq<char>, j: int) -> bool {
    &&& 0 <= j < ring.len()
    &&& ring[j].0 == name
    &&& forall|i: int| 0 <= i < j ==> (#[trigger] ring[i]).0 != name
}

/// The ring of one node that owns every virtual node, in ascending order.
pub open spec fn new_ring(size: int, name: Seq<char>) -> Ring {
    seq![(name, Seq::new(size as nat, |v: int| v as u64))]
}

/// How many of its virtual nodes the node at place `i` keeps when one more
/// node joins: its share on the larger ring, or all it has where that is
/// less.
pub open spec fn kept(size: int, ring: Ring, i: int) -> int {
    let s = share(size, ring.len() as int + 1, i);
    if s < ring[i].1.len() {
        s
    } else {
        ring[i].1.len() as int
    }
}

/// What the first `n` nodes give up when one more node joins, in placement
/// order.
pub open spec fn ceded(size: int, ring: Ring, n: int) -> Seq<u64>
    decreases n,
{
    if n <= 0 {
        Seq::empty()
    } else {
        ceded(size, ring, n - 1) + ring[n - 1].1.skip(kept(size, ring, n - 1))
    }
}

/// The moves from the first `n` nodes to the node that joins. A node that
/// gives up nothing has no move.
pub open spec fn ceded_moves(size: int, ring: Ring, name: Seq<char>, n: int) -> Moves
    decreases n,
{
    if n <= 0 {
        Seq::empty()
    } else {
        let before = ceded_moves(size, ring, name, n - 1);
        let cut = ring[n - 1].1.skip(kept(size, ring, n - 1));
        if cut.len() == 0 {
            before
        } else {
            before.push((ring[n - 1].0, name, cut))
        }
    }
}

/// The ring after `name` joined. A name that the ring has already changes
/// nothing.
pub open spec fn add_node_ring(size: int, ring: Ring, name: Seq<char>) -> Ring {
    if has_node(ring, name) {
        ring
    } else {
        Seq::new(
            ring.len() + 1,
            |i: int|
                if i < ring.len() {
                    (ring[i].0, ring[i].1.take(kept(size, ring, i)))
                } else {
                    (name, ceded(size, ring, ring.len() as int))
                },
        )
    }
}

/// The moves that go with `name` joining.
pub open spec fn add_node_moves(size: int, ring: Ring, name: Seq<char>) -> Moves {
    if has_node(ring, name) {
        Seq::empty()
    } else {
        ceded_moves(size, ring, name, ring.len() as int)
    }
}

/// How many virtual nodes the node at place `i` of the nodes that stay is
/// short of its share.
pub open spec fn wanted(size: int, rest: Ring, i: int) -> int {
    let s = share(size, rest.len() as int, i);
    if s > rest[i].1.len() {
        s - rest[i].1.len()
    } else {
        0
    }
}

/// How many virtual nodes the first `n` of the nodes that stay are short of.
pub open spec fn wanted_before(size: int, rest: Ring, n: int) -> int
    decreases n,
{
    if n <= 0 {
        0
    } else {
        wanted_before(size, rest, n - 1) + wanted(size, rest, n - 1)
    }
}

/// The lesser of two numbers.
pub open spec fn least(a: int, b: int) -> int {
    if a < b {
        a
    } else {
        b
    }
}

/// What the node at place `i` of the nodes that stay receives of `pool`, the
/// virtual nodes of the node that leaves: the next `wanted` of them, as far
/// as there are any left.
pub open spec fn granted(size: int, rest: Ring, pool: Seq<u64>, i: int) -> Seq<u64> {
    pool.subrange(
        least(wanted_before(size, rest, i), pool.len() as int),
        least(wanted_before(size, rest, i + 1), pool.len() as int),
    )
}

/// The moves from the node that leaves to the first `n` of the nodes that
/// stay. A node that receives nothing has no move.
pub open spec fn granted_moves(size: int, rest: Ring, pool: Seq<u64>, name: Seq<char>, n: int) -> Moves
    decreases n,
{
    if n <= 0 {
        Seq::empty()
    } else {
        let before = granted_moves(size, rest, pool, name, n - 1);
        let got = granted(size, rest, pool, n - 1);
        if got.len() == 0 {
            before
        } else {
            before.push((name, rest[n - 1].0, got))
        }
    }
}

/// The nodes that stay, each with what it receives of `pool`.
pub open spec fn with_grants(size: int, rest: Ring, pool: Seq<u64>) -> Ring {
    Seq::new(rest.len(), |i: int| (rest[i].0, rest[i].1 + granted(size, rest, pool, i)))
}

/// The ring after the node at place `j` left.
pub open spec fn remove_at_ring(size: int, ring: Ring, j: int) -> Ring {
    with_grants(size, ring.remove(j), ring[j].1)
}

/// The moves that go with the node at place `j` leaving.
pub open spec fn remove_at_moves(size: int, ring: Ring, j: int) -> Moves {
    let rest = ring.remove(j);
    granted_moves(size, rest, ring[j].1, ring[j].0, rest.len() as int)
}

/// The first place with a node called `name`.
pub open spec fn place_of(ring: Ring, name: Seq<char>) -> int {
    choose|j: int| first_place(ring, name, j)
}

/// The ring after `name` left. A name that the ring does not have changes
/// nothing.
pub open spec fn remove_node_ring(size: int, ring: Ring, name: Seq<char>) -> Ring {
    if has_node(ring, name) {
        remove_at_ring(size, ring, place_of(ring, name))
    } else {
        ring
    }
}

/// The moves that go with `name` leaving.
pub open spec fn remove_node_moves(size: int, ring: Ring, name: Seq<char>) -> Moves {
    if has_node(ring, name) {
        remove_at_moves(size, ring, place_of(ring, name))
    } else {
        Seq::empty()
    }
}

/// The wants of the first nodes never shrink as more nodes are counted.
pub proof fn lemma_wanted_before_grows(size: int, rest: Ring, n: int)
    ensures
        0 <= wanted_before(size, rest, n),
        wanted_before(size, rest, n) <= wanted_before(size, rest, n + 1),
    decreases n,
{
    if n > 0 {
        lemma_wanted_before_grows(size, rest, n - 1);
    }
}

/// The share of a node is the quotient of size and node count, or one more.
pub proof fn lemma_share_bounds(size: int, k: int, i: int)
    requires
        0 <= size,
        0 < k,
        0 <= i,
    ensures
        size / k <= share(size, k, i) <= size / k + 1,
        0 <= share(size, k, i) <= size,
{
    assert(0 <= size / k && 0 <= size % k < k && size == k * (size / k) + size % k) by {
        vstd::arithmetic::div_mod::lemma_fundamental_div_mod(size, k);
        vstd::arithmetic::div_mod::lemma_div_pos_is_pos(size, k);
        vstd::arithmetic::div_mod::lemma_mod_bound(size, k);
    }
    let q = size / k;
    if i < size % k {
        assert(q + 1 <= k * q + size % k) by (nonlinear_arith)
            requires
                0 <= q,
                1 <= k,
                1 <= size % k,
        ;
    } else {
        assert(q <= k * q) by (nonlinear_arith)
            requires
                0 <= q,
                1 <= k,
        ;
    }
}

/// The name of the strategy, for those who watch the ring.
pub fn name() -> (r: String)
    ensures
        r@ == strategy_name(),
{
    "continuous".to_owned()
}

/// The share of the node at place `i` on a ring of `size` virtual nodes and
/// `k` nodes.
fn share_of(size: u64, k: u128, i: usize) -> (s: u64)
    requires
        k >= 1,
    ensures
        s == share(size as int, k as int, i as int),
{
    proof {
        lemma_share_bounds(size as int, k as int, i as int);
    }
    let q: u128 = (size as u128) / k;
    let r: u128 = (size as u128) % k;
    if (i as u128) < r {
        (q + 1) as u64
    } else {
        q as u64
    }
}

/// The first place with a node called `name`.
fn position(nodes: &Vec<MRingNode>, name: &String) -> (r: Option<usize>)
    ensures
        match r {
            Some(j) => first_place(ring_model(nodes@), name@, j as int),
            None => !has_node(ring_model(nodes@), name@),
        },
{
    let mut i: usize = 0;
    while i < nodes.len()
        invariant
            i <= nodes@.len(),
            forall|j: int| 0 <= j < i ==> (#[trigger] ring_model(nodes@)[j]).0 != name@,
        decreases nodes@.len() - i,
    {
        if nodes[i].id == *name {
            return Some(i);
        }
        i += 1;
    }
    None
}

/// The ring of one node, which owns every virtual node.
pub fn new(size: u64, first_node: String) -> (ring: MRingNodes)
    ensures
        ring_model(ring@) == new_ring(size as int, first_node@),
{
    let mut vnodes: Vec<u64> = Vec::new();
    let mut v: u64 = 0;
    while v < size
        invariant
            v <= size,
            vnodes@ == Seq::new(v as nat, |x: int| x as u64),
        decreases size - v,
    {
        vnodes.push(v);
        v += 1;
        assert(vnodes@ =~= Seq::new(v as nat, |x: int| x as u64));
    }
    let mut ring: Vec<MRingNode> = Vec::new();
    ring.push(MRingNode { id: first_node, vnodes });
    assert(ring_model(ring@) =~= new_ring(size as int, first_node@));
    ring
}

/// Lets `new_node` join the ring: every node keeps the first virtual nodes
/// of its list, as many as its share on the larger ring, and the new node,
/// at the end, gets the others. The relocations name what each node gave.
#[verifier::rlimit(40)]
pub fn add_node(size: u64, current: MRingNodes, new_node: String) -> (r: (MRingNodes, Relocations))
    ensures
        ring_model(r.0@) == add_node_ring(size as int, ring_model(current@), new_node@),
        moves_model(r.1@) == add_node_moves(size as int, ring_model(current@), new_node@),
{
    if position(&current, &new_node).is_some() {
        let none: Vec<Relocation> = Vec::new();
        assert(moves_model(none@) =~= Seq::empty());
        return (current, none);
    }
    let ghost ring = ring_model(current@);
    let k = current.len();
    let k1: u128 = k as u128 + 1;
    let mut next: Vec<MRingNode> = Vec::new();
    let mut moves: Vec<Relocation> = Vec::new();
    let mut gained: Vec<u64> = Vec::new();
    let mut i: usize = 0;
    assert(moves_model(moves@) =~= Seq::empty());
    while i < k
        invariant
            i <= k,
            k == current@.len(),
            k1 == k + 1,
            ring == ring_model(current@),
            !has_node(ring, new_node@),
            next@.len() == i,
            forall|j: int|
                0 <= j < i ==> (#[trigger] ring_model(next@)[j]) == (
                    ring[j].0,
                    ring[j].1.take(kept(size as int, ring, j)),
                ),
            gained@ == ceded(size as int, ring, i as int),
            moves_model(moves@) == ceded_moves(size as int, ring, new_node@, i as int),
        decreases k - i,
    {
        let node = &current[i];
        assert(ring[i as int] == (node.id@, node.vnodes@));
        let quota = share_of(size, k1, i);
        let keep: usize = if (node.vnodes.len() as u64) > quota {
            quota as usize
        } else {
            node.vnodes.len()
        };
        assert(keep == kept(size as int, ring, i as int));
        let mut stay: Vec<u64> = Vec::new();
        let mut cut: Vec<u64> = Vec::new();
        let ghost gained_before = gained@;
        let mut j: usize = 0;
        while j < node.vnodes.len()
            invariant
                j <= node.vnodes@.len(),
                keep <= node.vnodes@.len(),
                stay@ == node.vnodes@.take(least(j as int, keep as int)),
                cut@ == node.vnodes@.subrange(keep as int, if j < keep { keep as int } else { j as int }),
                gained@ == gained_before + cut@,
            decreases node.vnodes@.len() - j,
        {
            let v = node.vnodes[j];
            if j < keep {
                stay.push(v);
                assert(stay@ =~= node.vnodes@.take(least(j + 1, keep as int)));
            } else {
                cut.push(v);
                gained.push(v);
                assert(cut@ =~= node.vnodes@.subrange(keep as int, j + 1));
                assert(gained@ =~= gained_before + cut@);
            }
            j += 1;
        }
        assert(stay@ =~= node.vnodes@.take(keep as int));
        assert(cut@ =~= node.vnodes@.skip(keep as int));
        let ghost next_before = next@;
        let ghost moves_before = moves@;
        next.push(MRingNode { id: node.id.clone(), vnodes: stay });
        if cut.len() > 0 {
            moves.push(
                Relocation { source: node.id.clone(), destination: new_node.clone(), vnodes: cut },
            );
            assert(moves_model(moves@) =~= moves_model(moves_before).push(
                (node.id@, new_node@, cut@),
            ));
        }
        proof {
            assert forall|j: int| 0 <= j < i + 1 implies (#[trigger] ring_model(next@)[j]) == (
                ring[j].0,
                ring[j].1.take(kept(size as int, ring, j)),
            ) by {
                if j < i {
                    assert(ring_model(next_before)[j] == ring_model(next@)[j]);
                }
            }
        }
        i += 1;
    }
    let ghost next_before = next@;
    next.push(MRingNode { id: new_node, vnodes: gained });
    proof {
        let goal = add_node_ring(size as int, ring, new_node@);
        assert forall|j: int| 0 <= j < k + 1 implies ring_model(next@)[j] == goal[j] by {
            if j < k {
                assert(ring_model(next_before)[j] == ring_model(next@)[j]);
            }
        }
        assert(ring_model(next@) =~= goal);
    }
    (next, moves)
}

/// Lets `leaving` leave the ring: its virtual nodes go, in order, to the
/// nodes that stay, each of which receives what it is short of its share on
/// the smaller ring. The relocations name what each node received. A name
/// that the ring does not have changes nothing.
#[verifier::rlimit(40)]
pub fn remove_node(size: u64, current: MRingNodes, leaving: String) -> (r: (
    MRingNodes,
    Relocations,
))
    ensures
        ring_model(r.0@) == remove_node_ring(size as int, ring_model(current@), leaving@),
        moves_model(r.1@) == remove_node_moves(size as int, ring_model(current@), leaving@),
{
    let ghost ring = ring_model(current@);
    let mut moves: Vec<Relocation> = Vec::new();
    assert(moves_model(moves@) =~= Seq::empty());
    let at = match position(&current, &leaving) {
        Some(at) => at,
        None => {
            return (current, moves);
        },
    };
    proof {
        assert(has_node(ring, leaving@));
        assert(first_place(ring, leaving@, at as int));
        assert forall|j: int| first_place(ring, leaving@, j) implies j == at by {
            if j < at {
                assert(ring[j].0 != leaving@);
            }
            if at < j {
                assert(ring[at as int].0 != leaving@);
            }
        }
        assert(place_of(ring, leaving@) == at);
    }
    let ghost rest = ring.remove(at as int);
    let ghost pool_model = ring[at as int].1;
    let k = current.len();
    let pool = &current[at].vnodes;
    assert(pool@ == pool_model);
    let mut next: Vec<MRingNode> = Vec::new();
    let mut off: usize = 0;
    let mut i: usize = 0;
    while i < k
        invariant
            i <= k,
            at < k,
            k == current@.len(),
            ring == ring_model(current@),
            rest == ring.remove(at as int),
            pool@ == ring[at as int].1,
            pool_model == pool@,
            leaving@ == ring[at as int].0,
            has_node(ring, leaving@),
            place_of(ring, leaving@) == at,
            next@.len() == if i <= at { i as int } else { i - 1 },
            off == least(wanted_before(size as int, rest, next@.len() as int), pool@.len() as int),
            forall|p: int|
                0 <= p < next@.len() ==> (#[trigger] ring_model(next@)[p]) == (
                    rest[p].0,
                    rest[p].1 + granted(size as int, rest, pool_model, p),
                ),
            moves_model(moves@) == granted_moves(
                size as int,
                rest,
                pool_model,
                leaving@,
                next@.len() as int,
            ),
        decreases k - i,
    {
        if i != at {
            let node = &current[i];
            let place: usize = next.len();
            assert(rest[place as int] == ring[i as int]);
            assert(ring[i as int] == (node.id@, node.vnodes@));
            let quota = share_of(size, (k - 1) as u128, place);
            let have = node.vnodes.len();
            let want: u64 = if quota > have as u64 {
                quota - have as u64
            } else {
                0
            };
            assert(want == wanted(size as int, rest, place as int));
            let left: usize = pool.len() - off;
            let take: usize = if want < left as u64 {
                want as usize
            } else {
                left
            };
            proof {
                lemma_wanted_before_grows(size as int, rest, place as int);
                assert(off + take == least(
                    wanted_before(size as int, rest, place + 1),
                    pool@.len() as int,
                ));
            }
            let mut owned: Vec<u64> = Vec::new();
            let mut j: usize = 0;
            while j < have
                invariant
                    j <= have,
                    have == node.vnodes@.len(),
                    owned@ == node.vnodes@.take(j as int),
                decreases have - j,
            {
                owned.push(node.vnodes[j]);
                j += 1;
                assert(owned@ =~= node.vnodes@.take(j as int));
            }
            assert(node.vnodes@.take(have as int) =~= node.vnodes@);
            let mut got: Vec<u64> = Vec::new();
            let mut t: usize = 0;
            while t < take
                invariant
                    t <= take,
                    off + take <= pool@.len(),
                    pool@.len() <= usize::MAX,
                    got@ == pool@.subrange(off as int, off + t),
                    owned@ == node.vnodes@ + got@,
                decreases take - t,
            {
                let v = pool[off + t];
                got.push(v);
                owned.push(v);
                t += 1;
                assert(got@ =~= pool@.subrange(off as int, off + t));
                assert(owned@ =~= node.vnodes@ + got@);
            }
            assert(got@ == granted(size as int, rest, pool_model, place as int));
            let ghost next_before = next@;
            let ghost moves_before = moves@;
            next.push(MRingNode { id: node.id.clone(), vnodes: owned });
            if got.len() > 0 {
                moves.push(
                    Relocation { source: leaving.clone(), destination: node.id.clone(), vnodes: got },
                );
                assert(moves_model(moves@) =~= moves_model(moves_before).push(
                    (leaving@, node.id@, got@),
                ));
            }
            proof {
                assert forall|p: int| 0 <= p < next@.len() implies (#[trigger] ring_model(
                    next@,
                )[p]) == (rest[p].0, rest[p].1 + granted(size as int, rest, pool_model, p)) by {
                    if p < place {
                        assert(ring_model(next_before)[p] == ring_model(next@)[p]);
                    }
                }
            }
            off = off + take;
        }
        i += 1;
    }
    assert(ring_model(next@) =~= remove_at_ring(size as int, ring, at as int));
    (next, moves)
}

/// Copies a ring.
pub fn copy_ring(nodes: &Vec<MRingNode>) -> (r: Vec<MRingNode>)
    ensures
        ring_model(r@) == ring_model(nodes@),
{
    let mut r: Vec<MRingNode> = Vec::new();
    let mut i: usize = 0;
    while i < nodes.len()
        invariant
            i <= nodes@.len(),
            r@.len() == i,
            forall|j: int| 0 <= j < i ==> #[trigger] ring_model(r@)[j] == ring_model(nodes@)[j],
        decreases nodes@.len() - i,
    {
        let ghost before = r@;
        let node = MRingNode { id: nodes[i].id.clone(), vnodes: copy_u64s(nodes[i].vnodes.as_slice()) };
        r.push(node);
        proof {
            assert forall|j: int| 0 <= j < i + 1 implies #[trigger] ring_model(r@)[j] == ring_model(
                nodes@,
            )[j] by {
                if j < i {
                    assert(ring_model(before)[j] == ring_model(r@)[j]);
                }
            }
        }
        i += 1;
    }
    assert(ring_model(r@) =~= ring_model(nodes@));
    r
}

/// Copies the moves of a change of membership.
pub fn copy_moves(moves: &Vec<Relocation>) -> (r: Vec<Relocation>)
    ensures
        moves_model(r@) == moves_model(moves@),
{
    let mut r: Vec<Relocation> = Vec::new();
    let mut i: usize = 0;
    while i < moves.len()
        invariant
            i <= moves@.len(),
            r@.len() == i,
            forall|j: int| 0 <= j < i ==> #[trigger] moves_model(r@)[j] == moves_model(moves@)[j],
        decreases moves@.len() - i,
    {
        let ghost before = r@;
        let m = Relocation {
            source: moves[i].source.clone(),
            destination: moves[i].destination.clone(),
            vnodes: copy_u64s(moves[i].vnodes.as_slice()),
        };
        r.push(m);
        proof {
            assert forall|j: int| 0 <= j < i + 1 implies #[trigger] moves_model(r@)[j]
                == moves_model(moves@)[j] by {
                if j < i {
                    assert(moves_model(before)[j] == moves_model(r@)[j]);
                }
            }
        }
        i += 1;
    }
    assert(moves_model(r@) =~= moves_model(moves@));
    r
}

} // verus!
