//! What holds of every ring that placement builds: the virtual nodes are
//! spread as evenly as they can be, every one of them is owned exactly once,
//! and the relocations of a change name exactly what moved.

use crate::placement::add_node_moves;
use crate::placement::add_node_ring;
use crate::placement::ceded;
use crate::placement::ceded_moves;
use crate::placement::first_place;
use crate::placement::granted;
use crate::placement::granted_moves;
use crate::placement::has_node;
use crate::placement::kept;
use crate::placement::least;
use crate::placement::new_ring;
use crate::placement::place_of;
use crate::placement::remove_at_moves;
use crate::placement::remove_at_ring;
use crate::placement::remove_node_moves;
use crate::placement::remove_node_ring;
use crate::placement::share;
use crate::placement::wanted;
use crate::placement::wanted_before;
use crate::placement::with_grants;
use crate::placement::Moves;
use crate::placement::Ring;
use vstd::multiset::Multiset;
use vstd::prelude::*;
use vstd::seq_lib::lemma_multiset_commutative;
use vstd::seq_lib::to_multiset_contains;

verus! {

/// The virtual nodes of the first `n` nodes, each as often as it is listed.
pub open spec fn ids_before(ring: Ring, n: int) -> Multiset<u64>
    decreases n,
{
    if n <= 0 {
        Multiset::empty()
    } else {
        ids_before(ring, n - 1).add(ring[n - 1].1.to_multiset())
    }
}

/// The virtual nodes of a ring, each as often as it is listed.
pub open spec fn all_ids(ring: Ring) -> Multiset<u64> {
    ids_before(ring, ring.len() as int)
}

/// How many virtual nodes the first `n` nodes list.
pub open spec fn len_before(ring: Ring, n: int) -> int
    decreases n,
{
    if n <= 0 {
        0
    } else {
        len_before(ring, n - 1) + ring[n - 1].1.len()
    }
}

/// How many virtual nodes a ring lists.
pub open spec fn total(ring: Ring) -> int {
    len_before(ring, ring.len() as int)
}

/// The shares of the first `n` of `k` nodes together.
pub open spec fn shares_before(size: int, k: int, n: int) -> int {
    n * (size / k) + least(n, size % k)
}

/// No name occurs twice.
pub open spec fn distinct_names(ring: Ring) -> bool {
    forall|i: int, j: int| 0 <= i < j < ring.len() ==> ring[i].0 != ring[j].0
}

/// A ring as placement keeps it: it has a node, no name occurs twice, the
/// node at each place owns its share, and every virtual node below `size`
/// is listed exactly once and no other.
pub open spec fn well_placed(size: int, ring: Ring) -> bool {
    &&& size >= 0
    &&& ring.len() >= 1
    &&& distinct_names(ring)
    &&& forall|i: int|
        0 <= i < ring.len() ==> (#[trigger] ring[i]).1.len() == share(size, ring.len() as int, i)
    &&& forall|v: u64| #[trigger] all_ids(ring).count(v) == if v < size { 1nat } else { 0nat }
}

/// Some node of the ring owns the virtual node.
pub open spec fn owned(ring: Ring, v: u64) -> bool {
    exists|i: int| 0 <= i < ring.len() && (#[trigger] ring[i]).1.contains(v)
}

/// Quotient and remainder of a size by a count of nodes.
pub proof fn lemma_div_mod(size: int, k: int)
    requires
        0 <= size,
        0 < k,
    ensures
        0 <= size / k,
        0 <= size % k < k,
        size == k * (size / k) + size % k,
{
    vstd::arithmetic::div_mod::lemma_fundamental_div_mod(size, k);
    vstd::arithmetic::div_mod::lemma_div_pos_is_pos(size, k);
    vstd::arithmetic::div_mod::lemma_mod_bound(size, k);
}

/// The shares of the first nodes grow by the share of the next node.
pub proof fn lemma_shares_step(size: int, k: int, n: int)
    requires
        0 <= size,
        0 < k,
        0 <= n,
    ensures
        shares_before(size, k, n + 1) == shares_before(size, k, n) + share(size, k, n),
        shares_before(size, k, 0) == 0,
{
    lemma_div_mod(size, k);
    let q = size / k;
    assert((n + 1) * q == n * q + q) by (nonlinear_arith);
    assert(0 * q == 0) by (nonlinear_arith);
}

/// The shares of all nodes together are the size.
pub proof fn lemma_shares_whole(size: int, k: int)
    requires
        0 <= size,
        0 < k,
    ensures
        shares_before(size, k, k) == size,
{
    lemma_div_mod(size, k);
}

/// With one node more, no share grows.
pub proof fn lemma_share_shrinks(size: int, k: int, i: int)
    requires
        0 <= size,
        0 < k,
        0 <= i,
    ensures
        share(size, k + 1, i) <= share(size, k, i),
{
    lemma_div_mod(size, k);
    lemma_div_mod(size, k + 1);
    let q = size / k;
    let r = size % k;
    let q1 = size / (k + 1);
    let r1 = size % (k + 1);
    assert(q1 <= q) by (nonlinear_arith)
        requires
            size == k * q + r,
            size == (k + 1) * q1 + r1,
            0 <= r < k,
            0 <= r1,
            0 < k,
            0 <= q1,
            0 <= q,
    ;
    if q1 == q {
        assert(r1 == r - q) by (nonlinear_arith)
            requires
                size == k * q + r,
                size == (k + 1) * q1 + r1,
                q1 == q,
        ;
    }
}

/// The lengths of the first nodes of a ring whose nodes own their shares.
pub proof fn lemma_len_before_shares(size: int, k: int, ring: Ring, n: int)
    requires
        0 <= size,
        0 < k,
        0 <= n <= ring.len(),
        forall|i: int| 0 <= i < n ==> (#[trigger] ring[i]).1.len() == share(size, k, i),
    ensures
        len_before(ring, n) == shares_before(size, k, n),
    decreases n,
{
    if n > 0 {
        lemma_len_before_shares(size, k, ring, n - 1);
        lemma_shares_step(size, k, n - 1);
        assert(ring[n - 1].1.len() == share(size, k, n - 1));
    } else {
        lemma_shares_step(size, k, 0);
    }
}

/// Rings that agree on their first `n` nodes list the same there.
pub proof fn lemma_before_agree(a: Ring, b: Ring, n: int)
    requires
        0 <= n <= a.len(),
        n <= b.len(),
        forall|i: int| 0 <= i < n ==> (#[trigger] a[i]).1 == b[i].1,
    ensures
        ids_before(a, n) == ids_before(b, n),
        len_before(a, n) == len_before(b, n),
    decreases n,
{
    if n > 0 {
        lemma_before_agree(a, b, n - 1);
        assert(a[n - 1].1 == b[n - 1].1);
    }
}

/// A ring lists what it lists without one node, and what that node lists.
pub proof fn lemma_before_remove(ring: Ring, j: int, n: int)
    requires
        0 <= j < n <= ring.len(),
    ensures
        ids_before(ring, n) =~= ids_before(ring.remove(j), n - 1).add(ring[j].1.to_multiset()),
        len_before(ring, n) == len_before(ring.remove(j), n - 1) + ring[j].1.len(),
    decreases n,
{
    let rest = ring.remove(j);
    if n == j + 1 {
        assert forall|i: int| 0 <= i < j implies (#[trigger] rest[i]).1 == ring[i].1 by {}
        lemma_before_agree(rest, ring, j);
    } else {
        lemma_before_remove(ring, j, n - 1);
        assert(rest[n - 2] == ring[n - 1]);
    }
}

/// A virtual node that two nodes list is listed at least twice; one that a
/// node lists is listed at least once.
pub proof fn lemma_listed_counts(ring: Ring, n: int, i: int, j: int, v: u64)
    requires
        0 <= i <= j < n <= ring.len(),
        ring[i].1.contains(v),
        ring[j].1.contains(v),
    ensures
        ids_before(ring, n).count(v) >= 1,
        i < j ==> ids_before(ring, n).count(v) >= 2,
    decreases n,
{
    to_multiset_contains(ring[n - 1].1, v);
    if j < n - 1 {
        lemma_listed_counts(ring, n - 1, i, j, v);
    } else if i < j {
        lemma_listed_counts(ring, n - 1, i, i, v);
    }
}

/// A virtual node that is listed is listed by some node.
pub proof fn lemma_listed_somewhere(ring: Ring, n: int, v: u64) -> (i: int)
    requires
        0 <= n <= ring.len(),
        ids_before(ring, n).count(v) > 0,
    ensures
        0 <= i < n,
        ring[i].1.contains(v),
    decreases n,
{
    if n <= 0 {
        0
    } else {
        to_multiset_contains(ring[n - 1].1, v);
        if ring[n - 1].1.contains(v) {
            n - 1
        } else {
            lemma_listed_somewhere(ring, n - 1, v)
        }
    }
}

/// A ring as placement keeps it is balanced: its nodes own `size` virtual
/// nodes together, each node owns the quotient of `size` by the number of
/// nodes or, where that division leaves a remainder, one more; no virtual
/// node is owned by two nodes, and each one below `size` is owned by a node.
pub proof fn lemma_well_placed_is_balanced(size: int, ring: Ring)
    requires
        well_placed(size, ring),
    ensures
        total(ring) == size,
        forall|i: int|
            0 <= i < ring.len() ==> (#[trigger] ring[i]).1.len() == size / (ring.len() as int) || (
            size % (ring.len() as int) != 0 && ring[i].1.len() == size / (ring.len() as int) + 1),
        forall|i: int, j: int, v: u64|
            0 <= i < j < ring.len() ==> !(#[trigger] ring[i].1.contains(v) && #[trigger] ring[j].1.contains(v)),
        forall|v: u64| v < size ==> #[trigger] owned(ring, v),
        forall|i: int, v: u64| 0 <= i < ring.len() && #[trigger] ring[i].1.contains(v) ==> v < size,
{
    let k = ring.len() as int;
    lemma_len_before_shares(size, k, ring, k);
    lemma_shares_whole(size, k);
    lemma_div_mod(size, k);
    assert forall|i: int, j: int, v: u64| 0 <= i < j < ring.len() implies !(
        #[trigger] ring[i].1.contains(v) && #[trigger] ring[j].1.contains(v)) by {
        if ring[i].1.contains(v) && ring[j].1.contains(v) {
            lemma_listed_counts(ring, k, i, j, v);
            assert(all_ids(ring).count(v) >= 2);
        }
    }
    assert forall|v: u64| v < size implies #[trigger] owned(ring, v) by {
        assert(all_ids(ring).count(v) == 1);
        let i = lemma_listed_somewhere(ring, k, v);
        assert(ring[i].1.contains(v));
    }
    assert forall|i: int, v: u64| 0 <= i < ring.len() && #[trigger] ring[i].1.contains(
        v,
    ) implies v < size by {
        lemma_listed_counts(ring, k, i, i, v);
        assert(all_ids(ring).count(v) >= 1);
    }
}

/// The ring of the first node is as placement keeps it.
pub proof fn lemma_new_ring_well_placed(size: int, name: Seq<char>)
    requires
        0 <= size <= u64::MAX,
    ensures
        well_placed(size, new_ring(size, name)),
{
    let ring = new_ring(size, name);
    let ids = ring[0].1;
    lemma_div_mod(size, 1);
    assert(size / 1 == size && size % 1 == 0) by (nonlinear_arith)
        requires
            size == 1 * (size / 1) + size % 1,
            0 <= size % 1 < 1,
    ;
    assert(ids_before(ring, 0) =~= Multiset::empty());
    assert(all_ids(ring) =~= ids.to_multiset());
    assert forall|v: u64| #[trigger] all_ids(ring).count(v) == if v < size { 1nat } else { 0nat } by {
        to_multiset_contains(ids, v);
        if v < size {
            assert(ids[v as int] == v);
            assert(ids.contains(v));
            assert(ids.no_duplicates());
            ids.lemma_multiset_has_no_duplicates();
            assert(ids.to_multiset().contains(v));
        } else {
            assert(!ids.contains(v));
        }
    }
}

/// What the first nodes keep and what they give up is what they had.
pub proof fn lemma_ceded_keeps_ids(size: int, ring: Ring, name: Seq<char>, n: int)
    requires
        0 <= size,
        !has_node(ring, name),
        0 <= n <= ring.len(),
    ensures
        ids_before(add_node_ring(size, ring, name), n).add(ceded(size, ring, n).to_multiset())
            =~= ids_before(ring, n),
        len_before(add_node_ring(size, ring, name), n) + ceded(size, ring, n).len() == len_before(
            ring,
            n,
        ),
    decreases n,
{
    let next = add_node_ring(size, ring, name);
    if n > 0 {
        lemma_ceded_keeps_ids(size, ring, name, n - 1);
        let had = ring[n - 1].1;
        let cut_at = kept(size, ring, n - 1);
        crate::placement::lemma_share_bounds(size, ring.len() as int + 1, n - 1);
        assert(0 <= cut_at <= had.len());
        assert(next[n - 1].1 == had.take(cut_at));
        assert(had.take(cut_at) + had.skip(cut_at) =~= had);
        lemma_multiset_commutative(had.take(cut_at), had.skip(cut_at));
        lemma_multiset_commutative(ceded(size, ring, n - 1), had.skip(cut_at));
    } else {
        assert(ceded(size, ring, n).to_multiset() =~= Multiset::empty()) by {
            vstd::seq_lib::to_multiset_len(ceded(size, ring, n));
        }
    }
}

/// A ring as placement keeps it stays so when a node joins.
#[verifier::rlimit(40)]
pub proof fn lemma_add_node_keeps_placement(size: int, ring: Ring, name: Seq<char>)
    requires
        well_placed(size, ring),
    ensures
        well_placed(size, add_node_ring(size, ring, name)),
{
    if !has_node(ring, name) {
        let k = ring.len() as int;
        let next = add_node_ring(size, ring, name);
        assert(distinct_names(next)) by {
            assert forall|i: int, j: int| 0 <= i < j < next.len() implies next[i].0
                != next[j].0 by {
                if j < k {
                    assert(ring[i].0 != ring[j].0);
                } else {
                    assert(ring[i].0 != name);
                }
            }
        }
        assert forall|i: int| 0 <= i < k implies (#[trigger] next[i]).1.len() == share(
            size,
            k + 1,
            i,
        ) by {
            lemma_share_shrinks(size, k, i);
            lemma_div_mod(size, k + 1);
            assert(ring[i].1.len() == share(size, k, i));
        }
        lemma_ceded_keeps_ids(size, ring, name, k);
        lemma_len_before_shares(size, k, ring, k);
        lemma_shares_whole(size, k);
        lemma_len_before_shares(size, k + 1, next, k);
        lemma_div_mod(size, k + 1);
        let q1 = size / (k + 1);
        assert(k * q1 + q1 == (k + 1) * q1) by (nonlinear_arith);
        assert(next[k].1.len() == share(size, k + 1, k));
        assert forall|i: int| 0 <= i < next.len() implies (#[trigger] next[i]).1.len() == share(
            size,
            next.len() as int,
            i,
        ) by {
            if i < k {
                assert(next[i].1.len() == share(size, k + 1, i));
            }
        }
        assert(all_ids(next) =~= all_ids(ring));
    }
}

/// What the first of the nodes that stay are short of is the difference of
/// their shares and what they have.
pub proof fn lemma_wanted_before_value(size: int, rest: Ring, n: int)
    requires
        0 <= size,
        0 <= n <= rest.len(),
        1 <= rest.len(),
        forall|i: int|
            0 <= i < rest.len() ==> (#[trigger] rest[i]).1.len() <= share(
                size,
                rest.len() as int,
                i,
            ),
    ensures
        wanted_before(size, rest, n) == shares_before(size, rest.len() as int, n) - len_before(
            rest,
            n,
        ),
    decreases n,
{
    if n > 0 {
        lemma_wanted_before_value(size, rest, n - 1);
        lemma_shares_step(size, rest.len() as int, n - 1);
        assert(rest[n - 1].1.len() <= share(size, rest.len() as int, n - 1));
    } else {
        lemma_shares_step(size, rest.len() as int, 0);
    }
}

/// The wants of fewer nodes are at most the wants of more.
pub proof fn lemma_wanted_before_ordered(size: int, rest: Ring, a: int, b: int)
    requires
        0 <= a <= b,
    ensures
        0 <= wanted_before(size, rest, a) <= wanted_before(size, rest, b),
    decreases b - a,
{
    crate::placement::lemma_wanted_before_grows(size, rest, a);
    if a < b {
        lemma_wanted_before_ordered(size, rest, a + 1, b);
    }
}

/// What the first nodes that stay list after the grants is what they had
/// and the part of the pool that was handed to them.
pub proof fn lemma_grants_keep_ids(size: int, rest: Ring, pool: Seq<u64>, n: int)
    requires
        0 <= n <= rest.len(),
        wanted_before(size, rest, n) <= pool.len(),
    ensures
        ids_before(with_grants(size, rest, pool), n) =~= ids_before(rest, n).add(
            pool.subrange(0, wanted_before(size, rest, n)).to_multiset(),
        ),
    decreases n,
{
    let next = with_grants(size, rest, pool);
    if n > 0 {
        lemma_wanted_before_ordered(size, rest, n - 1, n);
        lemma_grants_keep_ids(size, rest, pool, n - 1);
        let lo = wanted_before(size, rest, n - 1);
        let hi = wanted_before(size, rest, n);
        let got = granted(size, rest, pool, n - 1);
        assert(got == pool.subrange(lo, hi));
        assert(next[n - 1].1 == rest[n - 1].1 + got);
        lemma_multiset_commutative(rest[n - 1].1, got);
        assert(pool.subrange(0, lo) + got =~= pool.subrange(0, hi));
        lemma_multiset_commutative(pool.subrange(0, lo), got);
    } else {
        vstd::seq_lib::to_multiset_len(pool.subrange(0, 0));
        assert(pool.subrange(0, 0).to_multiset() =~= Multiset::empty());
    }
}

/// A ring of two nodes or more stays as placement keeps it when the node
/// at place `j` leaves.
#[verifier::rlimit(40)]
pub proof fn lemma_remove_at_keeps_placement(size: int, ring: Ring, j: int)
    requires
        well_placed(size, ring),
        ring.len() >= 2,
        0 <= j < ring.len(),
    ensures
        well_placed(size, remove_at_ring(size, ring, j)),
{
    let k = ring.len() as int;
    let rest = ring.remove(j);
    let pool = ring[j].1;
    let next = remove_at_ring(size, ring, j);
    assert(distinct_names(next)) by {
        assert forall|a: int, b: int| 0 <= a < b < next.len() implies next[a].0 != next[b].0 by {
            let a0 = if a < j { a } else { a + 1 };
            let b0 = if b < j { b } else { b + 1 };
            assert(rest[a] == ring[a0] && rest[b] == ring[b0]);
            assert(ring[a0].0 != ring[b0].0);
        }
    }
    assert forall|i: int| 0 <= i < rest.len() implies (#[trigger] rest[i]).1.len() <= share(
        size,
        k - 1,
        i,
    ) by {
        lemma_share_shrinks(size, k - 1, i);
        if i < j {
            assert(rest[i] == ring[i]);
        } else {
            assert(rest[i] == ring[i + 1]);
            assert(share(size, k, i + 1) <= share(size, k, i));
        }
    }
    lemma_wanted_before_value(size, rest, k - 1);
    lemma_shares_whole(size, k - 1);
    lemma_before_remove(ring, j, k);
    lemma_len_before_shares(size, k, ring, k);
    lemma_shares_whole(size, k);
    assert(wanted_before(size, rest, k - 1) == pool.len());
    assert forall|i: int| 0 <= i < next.len() implies (#[trigger] next[i]).1.len() == share(
        size,
        next.len() as int,
        i,
    ) by {
        lemma_wanted_before_ordered(size, rest, i, i + 1);
        lemma_wanted_before_ordered(size, rest, i + 1, k - 1);
        assert(granted(size, rest, pool, i).len() == wanted(size, rest, i));
        assert(rest[i].1.len() <= share(size, k - 1, i));
    }
    lemma_grants_keep_ids(size, rest, pool, k - 1);
    assert(pool.subrange(0, pool.len() as int) =~= pool);
    assert(all_ids(next) =~= all_ids(ring));
}

/// A ring of two nodes or more stays as placement keeps it when a node
/// leaves; so does any ring when the name is not one of its nodes.
pub proof fn lemma_remove_node_keeps_placement(size: int, ring: Ring, name: Seq<char>)
    requires
        well_placed(size, ring),
        ring.len() >= 2 || !has_node(ring, name),
    ensures
        well_placed(size, remove_node_ring(size, ring, name)),
{
    if has_node(ring, name) {
        let i = choose|i: int| 0 <= i < ring.len() && (#[trigger] ring[i]).0 == name;
        lemma_first_place_exists(ring, name, i);
        let j = place_of(ring, name);
        assert(first_place(ring, name, j));
        lemma_remove_at_keeps_placement(size, ring, j);
    }
}

/// Where a node has the name, there is a first place with it.
pub proof fn lemma_first_place_exists(ring: Ring, name: Seq<char>, i: int)
    requires
        0 <= i < ring.len(),
        ring[i].0 == name,
    ensures
        exists|j: int| first_place(ring, name, j),
    decreases i,
{
    if exists|a: int| 0 <= a < i && (#[trigger] ring[a]).0 == name {
        let a = choose|a: int| 0 <= a < i && (#[trigger] ring[a]).0 == name;
        lemma_first_place_exists(ring, name, a);
    } else {
        assert(first_place(ring, name, i));
    }
}

/// The same size, ring and name give the same ring and the same
/// relocations, whoever computes them.
pub proof fn lemma_placement_is_a_function(
    size: int,
    ring_a: Ring,
    ring_b: Ring,
    name_a: Seq<char>,
    name_b: Seq<char>,
)
    requires
        ring_a == ring_b,
        name_a == name_b,
    ensures
        add_node_ring(size, ring_a, name_a) == add_node_ring(size, ring_b, name_b),
        add_node_moves(size, ring_a, name_a) == add_node_moves(size, ring_b, name_b),
        remove_node_ring(size, ring_a, name_a) == remove_node_ring(size, ring_b, name_b),
        remove_node_moves(size, ring_a, name_a) == remove_node_moves(size, ring_b, name_b),
        new_ring(size, name_a) == new_ring(size, name_b),
{
}

/// The relocations send the virtual node from `src` to `dst`.
pub open spec fn relocated(moves: Moves, src: Seq<char>, dst: Seq<char>, v: u64) -> bool {
    exists|m: int|
        0 <= m < moves.len() && (#[trigger] moves[m]).0 == src && moves[m].1 == dst
            && moves[m].2.contains(v)
}

/// The node called `name` owns the virtual node.
pub open spec fn owns(ring: Ring, name: Seq<char>, v: u64) -> bool {
    exists|i: int| 0 <= i < ring.len() && (#[trigger] ring[i]).0 == name && ring[i].1.contains(v)
}

/// What the node at place `i` gives up when one more node joins.
pub open spec fn cut(size: int, ring: Ring, i: int) -> Seq<u64> {
    ring[i].1.skip(kept(size, ring, i))
}

/// What a node gives up is part of what the first nodes give up.
proof fn lemma_ceded_has(size: int, ring: Ring, n: int, i: int, v: u64)
    requires
        0 <= i < n <= ring.len(),
        cut(size, ring, i).contains(v),
    ensures
        ceded(size, ring, n).contains(v),
    decreases n,
{
    let before = ceded(size, ring, n - 1);
    let last = cut(size, ring, n - 1);
    if i < n - 1 {
        lemma_ceded_has(size, ring, n - 1, i, v);
        let t = choose|t: int| 0 <= t < before.len() && before[t] == v;
        assert((before + last)[t] == v);
    } else {
        let t = choose|t: int| 0 <= t < last.len() && last[t] == v;
        assert((before + last)[before.len() + t] == v);
    }
}

/// What the first nodes give up was given up by one of them.
proof fn lemma_ceded_from(size: int, ring: Ring, n: int, v: u64) -> (i: int)
    requires
        0 <= n <= ring.len(),
        ceded(size, ring, n).contains(v),
    ensures
        0 <= i < n,
        cut(size, ring, i).contains(v),
    decreases n,
{
    if n <= 0 {
        assert(ceded(size, ring, n).len() == 0);
        0
    } else {
        let before = ceded(size, ring, n - 1);
        let last = cut(size, ring, n - 1);
        let t = choose|t: int| 0 <= t < (before + last).len() && (before + last)[t] == v;
        if t < before.len() {
            assert(before[t] == v);
            lemma_ceded_from(size, ring, n - 1, v)
        } else {
            assert(last[t - before.len()] == v);
            n - 1
        }
    }
}

/// A node that gives something up has its move among the moves.
proof fn lemma_ceded_moves_has(size: int, ring: Ring, name: Seq<char>, n: int, i: int)
    requires
        0 <= i < n <= ring.len(),
        cut(size, ring, i).len() > 0,
    ensures
        ceded_moves(size, ring, name, n).contains((ring[i].0, name, cut(size, ring, i))),
    decreases n,
{
    let before = ceded_moves(size, ring, name, n - 1);
    let last = cut(size, ring, n - 1);
    let goal = (ring[i].0, name, cut(size, ring, i));
    if i < n - 1 {
        lemma_ceded_moves_has(size, ring, name, n - 1, i);
        let t = choose|t: int| 0 <= t < before.len() && before[t] == goal;
        if last.len() > 0 {
            assert(before.push((ring[n - 1].0, name, last))[t] == goal);
        }
    } else {
        assert(before.push(goal)[before.len() as int] == goal);
    }
}

/// Each of the moves is the move of a node that gives something up.
proof fn lemma_ceded_moves_from(
    size: int,
    ring: Ring,
    name: Seq<char>,
    n: int,
    m: (Seq<char>, Seq<char>, Seq<u64>),
) -> (i: int)
    requires
        0 <= n <= ring.len(),
        ceded_moves(size, ring, name, n).contains(m),
    ensures
        0 <= i < n,
        cut(size, ring, i).len() > 0,
        m == (ring[i].0, name, cut(size, ring, i)),
    decreases n,
{
    if n <= 0 {
        assert(ceded_moves(size, ring, name, n).len() == 0);
        0
    } else {
        let before = ceded_moves(size, ring, name, n - 1);
        let last = cut(size, ring, n - 1);
        let all = ceded_moves(size, ring, name, n);
        let t = choose|t: int| 0 <= t < all.len() && all[t] == m;
        if last.len() > 0 && t == before.len() {
            n - 1
        } else {
            assert(before[t] == m);
            lemma_ceded_moves_from(size, ring, name, n - 1, m)
        }
    }
}

/// No virtual node has two owners.
pub proof fn lemma_one_owner(size: int, ring: Ring, i: int, j: int, v: u64)
    requires
        well_placed(size, ring),
        0 <= i < ring.len(),
        0 <= j < ring.len(),
        ring[i].1.contains(v),
        ring[j].1.contains(v),
    ensures
        i == j,
{
    let k = ring.len() as int;
    if i < j {
        lemma_listed_counts(ring, k, i, j, v);
        assert(all_ids(ring).count(v) >= 2);
    } else if j < i {
        lemma_listed_counts(ring, k, j, i, v);
        assert(all_ids(ring).count(v) >= 2);
    }
}

/// What a node gives up it had.
proof fn lemma_cut_was_owned(size: int, ring: Ring, i: int, v: u64)
    requires
        0 <= size,
        0 <= i < ring.len(),
        cut(size, ring, i).contains(v),
    ensures
        ring[i].1.contains(v),
{
    crate::placement::lemma_share_bounds(size, ring.len() as int + 1, i);
    let c = cut(size, ring, i);
    let t = choose|t: int| 0 <= t < c.len() && c[t] == v;
    assert(ring[i].1[kept(size, ring, i) + t] == v);
}

/// What the relocations of a join send was owned by the source and is owned
/// by the destination, and the two differ.
#[verifier::rlimit(40)]
proof fn lemma_add_node_sent(
    size: int,
    ring: Ring,
    name: Seq<char>,
    src: Seq<char>,
    dst: Seq<char>,
    v: u64,
)
    requires
        well_placed(size, ring),
        relocated(add_node_moves(size, ring, name), src, dst, v),
    ensures
        src != dst,
        owns(ring, src, v),
        owns(add_node_ring(size, ring, name), dst, v),
{
    let next = add_node_ring(size, ring, name);
    let moves = add_node_moves(size, ring, name);
    let k = ring.len() as int;
    let m = choose|m: int|
        0 <= m < moves.len() && (#[trigger] moves[m]).0 == src && moves[m].1 == dst
            && moves[m].2.contains(v);
    assert(moves.contains(moves[m]));
    assert(!has_node(ring, name));
    let i = lemma_ceded_moves_from(size, ring, name, k, moves[m]);
    lemma_cut_was_owned(size, ring, i, v);
    assert(ring[i].0 == src && ring[i].1.contains(v));
    lemma_ceded_has(size, ring, k, i, v);
    assert(next[k].0 == name && next[k].1.contains(v));
    assert(ring[i].0 != name);
}

/// What changes its owner in a join is sent by the relocations.
#[verifier::rlimit(40)]
proof fn lemma_add_node_listed(
    size: int,
    ring: Ring,
    name: Seq<char>,
    src: Seq<char>,
    dst: Seq<char>,
    v: u64,
)
    requires
        well_placed(size, ring),
        src != dst,
        owns(ring, src, v),
        owns(add_node_ring(size, ring, name), dst, v),
    ensures
        relocated(add_node_moves(size, ring, name), src, dst, v),
{
    let next = add_node_ring(size, ring, name);
    let moves = add_node_moves(size, ring, name);
    let k = ring.len() as int;
    let i = choose|i: int|
        0 <= i < ring.len() && (#[trigger] ring[i]).0 == src && ring[i].1.contains(v);
    let j = choose|j: int|
        0 <= j < next.len() && (#[trigger] next[j]).0 == dst && next[j].1.contains(v);
    if has_node(ring, name) {
        lemma_one_owner(size, ring, i, j, v);
    } else if j < k {
        crate::placement::lemma_share_bounds(size, k + 1, j);
        let held = next[j].1;
        let t = choose|t: int| 0 <= t < held.len() && held[t] == v;
        assert(ring[j].1[t] == v);
        lemma_one_owner(size, ring, i, j, v);
    } else {
        let g = lemma_ceded_from(size, ring, k, v);
        lemma_cut_was_owned(size, ring, g, v);
        lemma_one_owner(size, ring, i, g, v);
        lemma_ceded_moves_has(size, ring, name, k, i);
        let goal = (ring[i].0, name, cut(size, ring, i));
        let at = choose|at: int| 0 <= at < moves.len() && moves[at] == goal;
        assert(moves[at].0 == src && moves[at].1 == dst && moves[at].2.contains(v));
    }
}

/// When a node joins, the relocations name exactly the virtual nodes that
/// change their owner: a virtual node is sent from `src` to `dst` if and
/// only if `src` owned it before, `dst` owns it after, and the two differ.
pub proof fn lemma_add_node_relocations(size: int, ring: Ring, name: Seq<char>)
    requires
        well_placed(size, ring),
    ensures
        forall|src: Seq<char>, dst: Seq<char>, v: u64|
            #[trigger] relocated(add_node_moves(size, ring, name), src, dst, v) <==> (src != dst
                && owns(ring, src, v) && owns(add_node_ring(size, ring, name), dst, v)),
{
    assert forall|src: Seq<char>, dst: Seq<char>, v: u64| #[trigger]
        relocated(add_node_moves(size, ring, name), src, dst, v) <==> (src != dst && owns(
            ring,
            src,
            v,
        ) && owns(add_node_ring(size, ring, name), dst, v)) by {
        if relocated(add_node_moves(size, ring, name), src, dst, v) {
            lemma_add_node_sent(size, ring, name, src, dst, v);
        }
        if src != dst && owns(ring, src, v) && owns(add_node_ring(size, ring, name), dst, v) {
            lemma_add_node_listed(size, ring, name, src, dst, v);
        }
    }
}

/// What a node receives has its move among the moves.
proof fn lemma_granted_moves_has(
    size: int,
    rest: Ring,
    pool: Seq<u64>,
    name: Seq<char>,
    n: int,
    i: int,
)
    requires
        0 <= i < n <= rest.len(),
        granted(size, rest, pool, i).len() > 0,
    ensures
        granted_moves(size, rest, pool, name, n).contains(
            (name, rest[i].0, granted(size, rest, pool, i)),
        ),
    decreases n,
{
    let before = granted_moves(size, rest, pool, name, n - 1);
    let last = granted(size, rest, pool, n - 1);
    let goal = (name, rest[i].0, granted(size, rest, pool, i));
    if i < n - 1 {
        lemma_granted_moves_has(size, rest, pool, name, n - 1, i);
        let t = choose|t: int| 0 <= t < before.len() && before[t] == goal;
        if last.len() > 0 {
            assert(before.push((name, rest[n - 1].0, last))[t] == goal);
        }
    } else {
        assert(before.push(goal)[before.len() as int] == goal);
    }
}

/// Each of the moves is the move to a node that receives something.
proof fn lemma_granted_moves_from(
    size: int,
    rest: Ring,
    pool: Seq<u64>,
    name: Seq<char>,
    n: int,
    m: (Seq<char>, Seq<char>, Seq<u64>),
) -> (i: int)
    requires
        0 <= n <= rest.len(),
        granted_moves(size, rest, pool, name, n).contains(m),
    ensures
        0 <= i < n,
        granted(size, rest, pool, i).len() > 0,
        m == (name, rest[i].0, granted(size, rest, pool, i)),
    decreases n,
{
    if n <= 0 {
        assert(granted_moves(size, rest, pool, name, n).len() == 0);
        0
    } else {
        let before = granted_moves(size, rest, pool, name, n - 1);
        let last = granted(size, rest, pool, n - 1);
        let all = granted_moves(size, rest, pool, name, n);
        let t = choose|t: int| 0 <= t < all.len() && all[t] == m;
        if last.len() > 0 && t == before.len() {
            n - 1
        } else {
            assert(before[t] == m);
            lemma_granted_moves_from(size, rest, pool, name, n - 1, m)
        }
    }
}

/// What a node receives is a run of the pool.
proof fn lemma_granted_was_pooled(size: int, rest: Ring, pool: Seq<u64>, p: int, v: u64)
    requires
        0 <= p < rest.len(),
        granted(size, rest, pool, p).contains(v),
    ensures
        pool.contains(v),
{
    lemma_wanted_before_ordered(size, rest, p, p + 1);
    let got = granted(size, rest, pool, p);
    let lo = least(wanted_before(size, rest, p), pool.len() as int);
    let t = choose|t: int| 0 <= t < got.len() && got[t] == v;
    assert(pool[lo + t] == v);
}

/// What the relocations of a leave send was owned by the source and is
/// owned by the destination, and the two differ.
#[verifier::rlimit(40)]
proof fn lemma_remove_at_sent(
    size: int,
    ring: Ring,
    j: int,
    src: Seq<char>,
    dst: Seq<char>,
    v: u64,
)
    requires
        well_placed(size, ring),
        0 <= j < ring.len(),
        relocated(remove_at_moves(size, ring, j), src, dst, v),
    ensures
        src != dst,
        owns(ring, src, v),
        owns(remove_at_ring(size, ring, j), dst, v),
{
    let next = remove_at_ring(size, ring, j);
    let moves = remove_at_moves(size, ring, j);
    let rest = ring.remove(j);
    let pool = ring[j].1;
    let name = ring[j].0;
    let m = choose|m: int|
        0 <= m < moves.len() && (#[trigger] moves[m]).0 == src && moves[m].1 == dst
            && moves[m].2.contains(v);
    assert(moves.contains(moves[m]));
    let p = lemma_granted_moves_from(size, rest, pool, name, rest.len() as int, moves[m]);
    let got = granted(size, rest, pool, p);
    lemma_granted_was_pooled(size, rest, pool, p, v);
    assert(ring[j].0 == src && ring[j].1.contains(v));
    let t = choose|t: int| 0 <= t < got.len() && got[t] == v;
    assert(next[p].1[rest[p].1.len() + t] == v);
    assert(next[p].0 == dst && next[p].1.contains(v));
    let origin = if p < j { p } else { p + 1 };
    assert(rest[p] == ring[origin]);
    if origin < j {
        assert(ring[origin].0 != ring[j].0);
    } else {
        assert(ring[j].0 != ring[origin].0);
    }
}

/// What changes its owner in a leave is sent by the relocations.
#[verifier::rlimit(40)]
proof fn lemma_remove_at_listed(
    size: int,
    ring: Ring,
    j: int,
    src: Seq<char>,
    dst: Seq<char>,
    v: u64,
)
    requires
        well_placed(size, ring),
        0 <= j < ring.len(),
        src != dst,
        owns(ring, src, v),
        owns(remove_at_ring(size, ring, j), dst, v),
    ensures
        relocated(remove_at_moves(size, ring, j), src, dst, v),
{
    let next = remove_at_ring(size, ring, j);
    let moves = remove_at_moves(size, ring, j);
    let rest = ring.remove(j);
    let pool = ring[j].1;
    let name = ring[j].0;
    let i = choose|i: int|
        0 <= i < ring.len() && (#[trigger] ring[i]).0 == src && ring[i].1.contains(v);
    let p = choose|p: int|
        0 <= p < next.len() && (#[trigger] next[p]).0 == dst && next[p].1.contains(v);
    let origin = if p < j { p } else { p + 1 };
    assert(rest[p] == ring[origin]);
    let got = granted(size, rest, pool, p);
    let held = next[p].1;
    assert(held == rest[p].1 + got);
    let t = choose|t: int| 0 <= t < held.len() && held[t] == v;
    if t < rest[p].1.len() {
        assert(ring[origin].1[t] == v);
        lemma_one_owner(size, ring, i, origin, v);
    } else {
        assert(got[t - rest[p].1.len()] == v);
        lemma_granted_was_pooled(size, rest, pool, p, v);
        lemma_one_owner(size, ring, i, j, v);
        lemma_granted_moves_has(size, rest, pool, name, rest.len() as int, p);
        let goal = (name, rest[p].0, got);
        let at = choose|at: int| 0 <= at < moves.len() && moves[at] == goal;
        assert(moves[at].0 == src && moves[at].1 == dst && moves[at].2.contains(v));
    }
}

/// When a node leaves, the relocations name exactly the virtual nodes that
/// change their owner: a virtual node is sent from `src` to `dst` if and
/// only if `src` owned it before, `dst` owns it after, and the two differ.
pub proof fn lemma_remove_node_relocations(size: int, ring: Ring, name: Seq<char>)
    requires
        well_placed(size, ring),
    ensures
        forall|src: Seq<char>, dst: Seq<char>, v: u64|
            #[trigger] relocated(remove_node_moves(size, ring, name), src, dst, v) <==> (src != dst
                && owns(ring, src, v) && owns(remove_node_ring(size, ring, name), dst, v)),
{
    let next = remove_node_ring(size, ring, name);
    let moves = remove_node_moves(size, ring, name);
    if !has_node(ring, name) {
        assert forall|src: Seq<char>, dst: Seq<char>, v: u64| #[trigger]
            relocated(moves, src, dst, v) <==> (src != dst && owns(ring, src, v) && owns(
                next,
                dst,
                v,
            )) by {
            if src != dst && owns(ring, src, v) && owns(next, dst, v) {
                let i = choose|i: int|
                    0 <= i < ring.len() && (#[trigger] ring[i]).0 == src && ring[i].1.contains(v);
                let j = choose|j: int|
                    0 <= j < ring.len() && (#[trigger] ring[j]).0 == dst && ring[j].1.contains(v);
                lemma_one_owner(size, ring, i, j, v);
            }
        }
    } else {
        let w = choose|i: int| 0 <= i < ring.len() && (#[trigger] ring[i]).0 == name;
        lemma_first_place_exists(ring, name, w);
        let j = place_of(ring, name);
        assert(first_place(ring, name, j));
        assert(next == remove_at_ring(size, ring, j));
        assert(moves == remove_at_moves(size, ring, j));
        assert forall|src: Seq<char>, dst: Seq<char>, v: u64| #[trigger]
            relocated(moves, src, dst, v) <==> (src != dst && owns(ring, src, v) && owns(
                next,
                dst,
                v,
            )) by {
            if relocated(moves, src, dst, v) {
                lemma_remove_at_sent(size, ring, j, src, dst, v);
            }
            if src != dst && owns(ring, src, v) && owns(next, dst, v) {
                lemma_remove_at_listed(size, ring, j, src, dst, v);
            }
        }
    }
}

} // verus!
