//! The node store: the table of all nodes, each stored once under the content
//! hash of its quadrants, and the ladder of all-dead keys.

use crate::bitgrid::bit_of;
use crate::largekey_table::{grown_capacity, LargeKeyTable};
use crate::life::{generations, lemma_dead_stays_dead};
use crate::quadvalue::{hash_of, is_raw_key, node_is_raw, QuadTreeNode, QuadTreeValue, NULL_KEY};
use crate::treespec::{
    capped,
    cell,
    child_of,
    extends,
    forward_ok,
    lemma_cell_extends,
    lemma_popcount_zero,
    lemma_store_ok_extends,
    lemma_valid_extends,
    lemma_value_extends,
    live_count,
    node_ok,
    popcount,
    quarter,
    side,
    store_ok,
    valid,
    value_cells,
    value_count,
    value_valid,
    within,
};
use vstd::prelude::*;

verus! {

/// Why the store could not take a node.
#[derive(Copy, Clone, PartialEq, Eq, Structural, Debug)]
pub enum StoreError {
    /// The key of the value cannot name it: it reads as a raw block or as
    /// the empty key, or it is the key of a node with other quadrants.
    KeyClash(QuadTreeValue),
    /// A number would leave its range: the table cannot double any more, or a
    /// square would reach beyond the plane of 64-bit coordinates.
    OutOfRange,
}

/// The value whose four quadrants are all `k`.
pub open spec fn four(k: u128) -> QuadTreeValue {
    QuadTreeValue { lt: k, rt: k, lb: k, rb: k }
}

/// The level of the quadrants of a value whose quadrants are keys of one
/// level.
pub open spec fn quadrant_level(dm: Map<u128, nat>, v: QuadTreeValue) -> nat {
    if is_raw_key(v.lt) {
        0
    } else {
        dm[v.lt]
    }
}

/// Whether the ladder of all-dead keys is in order: it starts with the empty
/// raw block, and each further key names the node of its level whose four
/// quadrants are the key before it and whose count is zero.
pub open spec fn ladder_ok(
    m: Map<u128, QuadTreeNode>,
    dm: Map<u128, nat>,
    blacks: Seq<u128>,
) -> bool {
    &&& blacks.len() >= 1
    &&& blacks[0] == 0
    &&& forall|i: int|
        1 <= i < blacks.len() ==> {
            &&& valid(m, dm, #[trigger] blacks[i], i as nat)
            &&& m[blacks[i]].v == four(blacks[i - 1])
            &&& m[blacks[i]].set_count == 0
        }
}

/// A key that stands for no live cell counts none, and the other way round.
pub(crate) proof fn lemma_count_zero(
    m: Map<u128, QuadTreeNode>,
    dm: Map<u128, nat>,
    key: u128,
    level: nat,
    x: int,
    y: int,
)
    requires
        store_ok(m, dm),
        valid(m, dm, key, level),
        live_count(m, key, level) == 0,
    ensures
        !cell(m, key, level, x, y),
    decreases level,
{
    if level == 0 {
        lemma_popcount_zero(key as u64);
        if 0 <= x < 8 && 0 <= y < 8 {
            let i = (8 * y + x) as u64;
            assert(bit_of(0u64, i) == 0) by (bit_vector);
        }
    } else {
        assert(m.contains_key(key));
        assert(node_ok(m, dm, key));
        let h = side((level - 1) as nat);
        let c = child_of(m[key].v, h, x, y);
        lemma_count_zero(m, dm, c, (level - 1) as nat, within(h, x), within(h, y));
    }
}

/// A key of the ladder counts no live cell.
pub(crate) proof fn lemma_black_dead(
    m: Map<u128, QuadTreeNode>,
    dm: Map<u128, nat>,
    blacks: Seq<u128>,
    i: int,
)
    requires
        store_ok(m, dm),
        ladder_ok(m, dm, blacks),
        0 <= i < blacks.len(),
    ensures
        valid(m, dm, blacks[i], i as nat),
        live_count(m, blacks[i], i as nat) == 0,
{
    if i == 0 {
        assert(popcount(0u64) == 0);
    } else {
        assert(m.contains_key(blacks[i]));
        assert(node_ok(m, dm, blacks[i]));
    }
}

/// The centre of a square without a live cell has none after any number of
/// generations, so an all-dead key stands for it.
pub(crate) proof fn lemma_dead_forward(
    m: Map<u128, QuadTreeNode>,
    dm: Map<u128, nat>,
    v: QuadTreeValue,
    fwd: u128,
    level: nat,
)
    requires
        store_ok(m, dm),
        level >= 1,
        value_valid(m, dm, v, (level - 1) as nat),
        value_count(m, v, (level - 1) as nat) == 0,
        valid(m, dm, fwd, (level - 1) as nat),
        live_count(m, fwd, (level - 1) as nat) == 0,
    ensures
        forward_ok(m, v, fwd, level),
{
    reveal(forward_ok);
    let below = (level - 1) as nat;
    let q = quarter(level);
    let c = value_cells(m, v, below);
    assert forall|a: int, b: int| 0 <= a < 2 * q && 0 <= b < 2 * q implies (#[trigger] cell(
        m,
        fwd,
        below,
        a,
        b,
    ) <==> generations(c, q as nat).contains((a + q, b + q))) by {
        lemma_count_zero(m, dm, fwd, below, a, b);
        lemma_dead_value(m, dm, v, below, q as nat, a + q, b + q);
    }
}

/// A square without a live cell stays without one.
pub(crate) proof fn lemma_dead_value(
    m: Map<u128, QuadTreeNode>,
    dm: Map<u128, nat>,
    v: QuadTreeValue,
    level: nat,
    n: nat,
    x: int,
    y: int,
)
    requires
        store_ok(m, dm),
        value_valid(m, dm, v, level),
        value_count(m, v, level) == 0,
    ensures
        !generations(value_cells(m, v, level), n).contains((x, y)),
{
    let c = value_cells(m, v, level);
    assert forall|a: int, b: int| #[trigger] crate::life::near(x, y, a, b, n as int) implies !c.contains(
        (a, b),
    ) by {
        let h = side(level);
        let k = child_of(v, h, a, b);
        lemma_count_zero(m, dm, k, level, within(h, a), within(h, b));
    }
    lemma_dead_stays_dead(c, n, x, y);
}

/// A forward key of a value in a table is a forward key of the value in
/// every table that the table extends and in which the value's quadrants
/// and the key are keys too.
pub(crate) proof fn lemma_forward_back(
    m: Map<u128, QuadTreeNode>,
    dm: Map<u128, nat>,
    m2: Map<u128, QuadTreeNode>,
    dm2: Map<u128, nat>,
    v: QuadTreeValue,
    fwd: u128,
    level: nat,
)
    requires
        store_ok(m, dm),
        extends(m, dm, m2, dm2),
        level >= 1,
        value_valid(m, dm, v, (level - 1) as nat),
        valid(m, dm, fwd, (level - 1) as nat),
        forward_ok(m2, v, fwd, level),
    ensures
        forward_ok(m, v, fwd, level),
        value_count(m, v, (level - 1) as nat) == value_count(m2, v, (level - 1) as nat),
{
    reveal(forward_ok);
    let below = (level - 1) as nat;
    let q = quarter(level);
    lemma_value_extends(m, dm, m2, dm2, v, below);
    assert forall|a: int, b: int| 0 <= a < 2 * q && 0 <= b < 2 * q implies (#[trigger] cell(
        m,
        fwd,
        below,
        a,
        b,
    ) <==> generations(value_cells(m, v, below), q as nat).contains((a + q, b + q))) by {
        lemma_cell_extends(m, dm, m2, dm2, fwd, below, a, b);
        assert(cell(m2, fwd, below, a, b) <==> generations(
            value_cells(m2, v, below),
            q as nat,
        ).contains((a + q, b + q)));
    }
}

/// Calls `u64::count_ones` of std, which returns the number of ones in the
/// binary representation of its argument.
#[verifier::external_body]
pub(crate) fn count_ones(v: u64) -> (r: u64)
    ensures
        r == popcount(v),
{
    v.count_ones() as u64
}

/// The all-dead key of a level by the content hash: the empty raw block, and
/// above it the key of the value whose four quadrants are the all-dead key
/// of the level below.
pub open spec fn dead_key(level: nat) -> u128
    decreases level,
{
    if level == 0 {
        0
    } else {
        hash_of(four(dead_key((level - 1) as nat)))
    }
}

/// Whether every node of `m` is stored under the content hash of its
/// quadrants.
pub open spec fn keyed_by_hash(m: Map<u128, QuadTreeNode>) -> bool {
    forall|k: u128| #[trigger] m.contains_key(k) ==> k == hash_of(m[k].v)
}

/// In a table whose nodes are stored under the content hash of their
/// quadrants, a key without a live cell is the all-dead key of its level.
pub proof fn lemma_dead_key(m: Map<u128, QuadTreeNode>, dm: Map<u128, nat>, key: u128, level: nat)
    requires
        store_ok(m, dm),
        keyed_by_hash(m),
        valid(m, dm, key, level),
        live_count(m, key, level) == 0,
    ensures
        key == dead_key(level),
    decreases level,
{
    if level == 0 {
        lemma_popcount_zero(key as u64);
    } else {
        let below = (level - 1) as nat;
        let v = m[key].v;
        assert(node_ok(m, dm, key));
        lemma_dead_key(m, dm, v.lt, below);
        lemma_dead_key(m, dm, v.rt, below);
        lemma_dead_key(m, dm, v.lb, below);
        lemma_dead_key(m, dm, v.rb, below);
        assert(v == four(dead_key(below)));
    }
}

/// Whether the content hash of `v` can name `v` in a store with the nodes
/// `m`: it reads neither as a raw block nor as the empty key, and it is not
/// the key of a node with other quadrants.
pub open spec fn usable(m: Map<u128, QuadTreeNode>, v: QuadTreeValue) -> bool {
    &&& !is_raw_key(hash_of(v))
    &&& hash_of(v) != NULL_KEY
    &&& (m.contains_key(hash_of(v)) ==> m[hash_of(v)].v == v)
}

/// A table with at most four slots for each key, and four more, is such a
/// table after it took a key.
pub(crate) proof fn lemma_grown_compact(cap: nat, before: nat, n: nat)
    requires
        cap <= 4 * before + 4,
        before <= n,
    ensures
        grown_capacity(cap, n) <= 4 * n + 4,
{
}

/// A table of `2^e` slots that holds `n` keys in less than half of its slots
/// does not double.
proof fn lemma_no_doubling(e: nat, n: nat)
    requires
        n >= 1,
        2 * n < vstd::arithmetic::power2::pow2(e),
    ensures
        grown_capacity(vstd::arithmetic::power2::pow2(e), n) == vstd::arithmetic::power2::pow2(e),
{
    if e == 0 {
        vstd::arithmetic::power2::lemma2_to64();
    } else {
        vstd::arithmetic::power2::lemma_pow2_unfold(e);
    }
}

/// Whether `k` names the node `root` of the level `level`, a node that
/// `root` is made of, or a node that the forward key of such a node leads
/// to.
pub open spec fn reaches(m: Map<u128, QuadTreeNode>, root: u128, level: nat, k: u128) -> bool
    decreases level,
{
    &&& level >= 1
    &&& !is_raw_key(root)
    &&& m.contains_key(root)
    &&& {
        let below = (level - 1) as nat;
        ||| k == root
        ||| reaches(m, m[root].v.lt, below, k)
        ||| reaches(m, m[root].v.rt, below, k)
        ||| reaches(m, m[root].v.lb, below, k)
        ||| reaches(m, m[root].v.rb, below, k)
        ||| (m[root].forward_key != NULL_KEY && reaches(m, m[root].forward_key, below, k))
    }
}

/// The nodes of `m` that are in use: those that the key `root` of the level
/// `level` leads to, and those that the last key of the ladder `blacks`
/// leads to.
pub open spec fn kept(m: Map<u128, QuadTreeNode>, blacks: Seq<u128>, root: u128, level: nat) -> Map<
    u128,
    QuadTreeNode,
> {
    m.restrict(
        Set::new(
            |k: u128|
                reaches(m, root, level, k) || reaches(
                    m,
                    blacks[blacks.len() - 1],
                    (blacks.len() - 1) as nat,
                    k,
                ),
        ),
    )
}

/// The nodes of all trees, each stored once under the content hash of its
/// quadrants, with the ladder of the all-dead keys of all levels.
///
/// A content hash is taken on trust for no more than it is: the store
/// compares the quadrants where it finds the key of a value in use, and it
/// refuses a key that reads as a raw block or as the empty key.  So the keys
/// of a store always stand for squares of cells, whatever the hash does.
///
/// `intern` takes the key of a value as it is given.  A store to which every
/// key was given by the content hash is `keyed`, and every method keeps it
/// so: then a value is refused only where the hash itself gives it a key
/// that cannot name it.
pub struct NodeStore {
    map: LargeKeyTable<QuadTreeNode>,
    black_keys: Vec<u128>,
    depths: Ghost<Map<u128, nat>>,
}

impl NodeStore {
    /// The stored nodes by their keys.
    pub closed spec fn nodes(&self) -> Map<u128, QuadTreeNode> {
        self.map@
    }

    /// The level of each stored node.
    pub closed spec fn levels(&self) -> Map<u128, nat> {
        self.depths@
    }

    /// The ladder of all-dead keys, by level.
    pub closed spec fn blacks(&self) -> Seq<u128> {
        self.black_keys@
    }

    /// Whether the table can take one more node: whether it can double
    /// once more.
    pub open spec fn has_room(&self) -> bool {
        self.spec_capacity() <= usize::MAX / 4
    }

    /// The number of slots of the table.
    pub closed spec fn spec_capacity(&self) -> nat {
        self.map.spec_capacity()
    }

    /// Whether `self` holds nodes of `orig` alone, each as it is there and
    /// with all that it leads to, in a table of the same size.
    pub open spec fn copy_of(&self, orig: &NodeStore) -> bool {
        &&& self.spec_capacity() == orig.spec_capacity()
        &&& forall|k: u128| #[trigger]
            self.nodes().contains_key(k) ==> orig.nodes().contains_key(k) && self.nodes()[k]
                == orig.nodes()[k]
        &&& forall|k: u128, j: u128|
            self.nodes().contains_key(k) && #[trigger] reaches(
                orig.nodes(),
                k,
                orig.levels()[k],
                j,
            ) ==> self.nodes().contains_key(j)
    }

    /// Whether `self` holds what `before` holds and what the key `root` of
    /// `orig` leads to.
    pub open spec fn took(&self, before: &NodeStore, orig: &NodeStore, root: u128, level: nat) -> bool {
        forall|k: u128|
            self.nodes().contains_key(k) <==> before.nodes().contains_key(k) || reaches(
                orig.nodes(),
                root,
                level,
                k,
            )
    }

    /// The number of stored nodes.
    pub open spec fn count(&self) -> nat {
        self.nodes().dom().len()
    }

    /// Whether the table is no larger than its nodes ask for: it has at most
    /// four slots for each node, and four more.
    pub open spec fn compact(&self) -> bool {
        self.spec_capacity() <= 4 * self.count() + 4
    }

    /// What taking one node does to the number of nodes and to the size of
    /// the table.
    proof fn lemma_took_one(&self, before: &NodeStore, key: u128, node: QuadTreeNode)
        requires
            before.wf(),
            self.nodes() == before.nodes().insert(key, node),
            self.spec_capacity() == grown_capacity(before.spec_capacity(), self.count()),
        ensures
            before.count() <= self.count() <= before.count() + 1,
            before.compact() ==> self.compact(),
    {
        before.lemma_wf();
        before.lemma_nodes_finite();
        vstd::set::axiom_set_insert_len(before.nodes().dom(), key);
        assert(self.nodes().dom() =~= before.nodes().dom().insert(key));
        if before.compact() {
            lemma_grown_compact(before.spec_capacity(), before.count(), self.count());
        }
    }

    /// Whether every node is stored under the content hash of its
    /// quadrants, and the ladder of all-dead keys reaches the level of the
    /// forward key of every node without a live cell that has one.  A store
    /// is so as long as no value was given another key by `intern`.
    #[verifier::opaque]
    pub open spec fn keyed(&self) -> bool {
        &&& keyed_by_hash(self.nodes())
        &&& forall|k: u128| #[trigger]
            self.nodes().contains_key(k) && self.nodes()[k].set_count == 0
                && self.nodes()[k].forward_key != NULL_KEY ==> self.levels()[k]
                <= self.blacks().len()
    }

    /// What `keyed` says of the keys.
    pub proof fn lemma_keyed(&self)
        requires
            self.keyed(),
        ensures
            keyed_by_hash(self.nodes()),
    {
        reveal(NodeStore::keyed);
    }

    /// What `keyed` says of a node without a live cell that has a forward
    /// key.
    pub proof fn lemma_keyed_memo(&self, k: u128)
        requires
            self.keyed(),
            self.nodes().contains_key(k),
            self.nodes()[k].set_count == 0,
            self.nodes()[k].forward_key != NULL_KEY,
        ensures
            self.levels()[k] <= self.blacks().len(),
    {
        reveal(NodeStore::keyed);
    }

    /// A store stays keyed when it takes a node under the content hash of
    /// its quadrants, if the ladder reaches the level of the forward key
    /// where the node has no live cell.
    pub proof fn lemma_keyed_put(&self, before: &NodeStore, key: u128, node: QuadTreeNode, level: nat)
        requires
            before.keyed(),
            self.nodes() == before.nodes().insert(key, node),
            self.levels() == before.levels().insert(key, level),
            self.blacks() == before.blacks(),
            key == hash_of(node.v),
            node.set_count == 0 && node.forward_key != NULL_KEY ==> level <= before.blacks().len(),
        ensures
            self.keyed(),
    {
        reveal(NodeStore::keyed);
    }

    /// A store stays keyed when its ladder grows.
    pub proof fn lemma_keyed_ladder(&self, before: &NodeStore)
        requires
            before.keyed(),
            self.nodes() == before.nodes(),
            self.levels() == before.levels(),
            self.blacks().len() >= before.blacks().len(),
        ensures
            self.keyed(),
    {
        reveal(NodeStore::keyed);
    }

    /// A store that holds nodes of a keyed store alone, as they are there
    /// and with their levels, and that has its ladder, is keyed.
    pub proof fn lemma_keyed_part(&self, whole: &NodeStore)
        requires
            whole.keyed(),
            self.blacks().len() >= whole.blacks().len(),
            forall|k: u128| #[trigger]
                self.nodes().contains_key(k) ==> whole.nodes().contains_key(k) && self.nodes()[k]
                    == whole.nodes()[k] && self.levels()[k] == whole.levels()[k],
        ensures
            self.keyed(),
    {
        reveal(NodeStore::keyed);
    }

    /// Whether `self` holds no node of a level above `level` that `before`
    /// does not hold as it is.
    pub open spec fn same_above(&self, before: &NodeStore, level: nat) -> bool {
        forall|k: u128| #[trigger]
            self.nodes().contains_key(k) && self.levels()[k] > level
                ==> before.nodes().contains_key(k) && before.nodes()[k] == self.nodes()[k]
    }

    /// A store that took a node of a level has the nodes above that level
    /// as they were.
    pub proof fn lemma_same_above_one(&self, before: &NodeStore, key: u128, node: QuadTreeNode, level: nat)
        requires
            self.nodes() == before.nodes() || self.nodes() == before.nodes().insert(key, node),
            self.nodes().contains_key(key) ==> self.levels()[key] <= level,
        ensures
            self.same_above(before, level),
    {
    }

    /// What holds of the nodes above a level from one store to the next and
    /// from that to a third holds from the first to the third.
    pub proof fn lemma_same_above_trans(&self, mid: &NodeStore, start: &NodeStore, level: nat)
        requires
            mid.wf(),
            mid.grows_to(self),
            self.same_above(mid, level),
            mid.same_above(start, level),
        ensures
            self.same_above(start, level),
    {
        mid.lemma_wf();
        mid.lemma_grows(self);
        assert forall|k: u128| #[trigger]
            self.nodes().contains_key(k) && self.levels()[k] > level implies start.nodes().contains_key(
            k,
        ) && start.nodes()[k] == self.nodes()[k] by {
            assert(mid.nodes().contains_key(k));
            assert(node_ok(mid.nodes(), mid.levels(), k));
        }
    }

    /// What holds of the nodes above a level holds of those above a higher
    /// level.
    pub proof fn lemma_same_above_more(&self, before: &NodeStore, level: nat, more: nat)
        requires
            self.same_above(before, level),
            level <= more,
        ensures
            self.same_above(before, more),
    {
    }

    /// Whether every node that `self` holds and `before` does not is a rung
    /// of the ladder of all-dead keys, stored under the content hash of its
    /// quadrants.
    pub open spec fn grew_by_rungs(&self, before: &NodeStore) -> bool {
        forall|k: u128| #[trigger]
            self.nodes().contains_key(k) && !before.nodes().contains_key(k) ==> {
                &&& k == hash_of(self.nodes()[k].v)
                &&& exists|i: int|
                    1 <= i < self.blacks().len() && #[trigger] self.blacks()[i] == k
            }
    }

    /// Whether the store shows why `e` was given: the content hash of the
    /// value cannot name it in this store, or the table has no room.
    pub open spec fn explains(&self, e: StoreError) -> bool {
        match e {
            StoreError::KeyClash(v) => !usable(self.nodes(), v),
            StoreError::OutOfRange => !self.has_room(),
        }
    }

    pub closed spec fn table_wf(&self) -> bool {
        &&& self.map.wf()
        &&& self.map.spec_null_key() == NULL_KEY
    }

    /// The store is in order: every node is, and so is the ladder.
    #[verifier::opaque]
    pub open spec fn wf(&self) -> bool {
        &&& self.table_wf()
        &&& store_ok(self.nodes(), self.levels())
        &&& ladder_ok(self.nodes(), self.levels(), self.blacks())
    }

    /// Whether `other` holds all that `self` holds.
    #[verifier::opaque]
    pub open spec fn grows_to(&self, other: &NodeStore) -> bool {
        &&& extends(self.nodes(), self.levels(), other.nodes(), other.levels())
        &&& other.blacks().len() >= self.blacks().len()
        &&& forall|i: int| 0 <= i < self.blacks().len() ==> other.blacks()[i] == self.blacks()[i]
    }

    /// What `wf` says of the nodes and of the ladder.
    pub proof fn lemma_wf(&self)
        requires
            self.wf(),
        ensures
            self.table_wf(),
            store_ok(self.nodes(), self.levels()),
            ladder_ok(self.nodes(), self.levels(), self.blacks()),
    {
        reveal(NodeStore::wf);
    }

    /// What `grows_to` says of the nodes and of the ladder.
    pub proof fn lemma_grows(&self, other: &NodeStore)
        requires
            self.grows_to(other),
        ensures
            extends(self.nodes(), self.levels(), other.nodes(), other.levels()),
            other.blacks().len() >= self.blacks().len(),
            forall|i: int| 0 <= i < self.blacks().len() ==> other.blacks()[i] == self.blacks()[i],
    {
        reveal(NodeStore::grows_to);
    }

    pub proof fn lemma_grows_refl(&self)
        ensures
            self.grows_to(self),
    {
        reveal(NodeStore::grows_to);
    }

    pub proof fn lemma_grows_trans(&self, b: &NodeStore, c: &NodeStore)
        requires
            self.grows_to(b),
            b.grows_to(c),
        ensures
            self.grows_to(c),
    {
        reveal(NodeStore::grows_to);
        crate::treespec::lemma_extends_trans(
            self.nodes(),
            self.levels(),
            b.nodes(),
            b.levels(),
            c.nodes(),
            c.levels(),
        );
    }

    /// What is known of a stored node whose quadrants are known.
    pub proof fn lemma_found(&self, key: u128, level: nat)
        requires
            self.wf(),
            self.nodes().contains_key(key),
            value_valid(self.nodes(), self.levels(), self.nodes()[key].v, level),
        ensures
            valid(self.nodes(), self.levels(), key, level + 1),
            quadrant_level(self.levels(), self.nodes()[key].v) == level,
            self.nodes()[key].set_count == capped(
                value_count(self.nodes(), self.nodes()[key].v, level),
            ),
            self.nodes()[key].forward_key != NULL_KEY ==> {
                &&& valid(self.nodes(), self.levels(), self.nodes()[key].forward_key, level)
                &&& forward_ok(
                    self.nodes(),
                    self.nodes()[key].v,
                    self.nodes()[key].forward_key,
                    level + 1,
                )
            },
    {
        reveal(NodeStore::wf);
        assert(node_ok(self.nodes(), self.levels(), key));
    }

    /// The ladder of all-dead keys: the key of every level is a key of that
    /// level that counts no live cell, and from the first level on it names
    /// the node whose four quadrants are the all-dead key of the level below.
    pub proof fn lemma_black(&self, i: int)
        requires
            self.wf(),
            0 <= i < self.blacks().len(),
        ensures
            valid(self.nodes(), self.levels(), self.blacks()[i], i as nat),
            live_count(self.nodes(), self.blacks()[i], i as nat) == 0,
            i == 0 ==> self.blacks()[i] == 0,
            i >= 1 ==> self.nodes()[self.blacks()[i]].v == four(self.blacks()[i - 1])
                && self.nodes()[self.blacks()[i]].set_count == 0,
    {
        reveal(NodeStore::wf);
        lemma_black_dead(self.nodes(), self.levels(), self.blacks(), i);
    }

    pub proof fn lemma_nodes_finite(&self)
        requires
            self.table_wf(),
        ensures
            self.nodes().dom().finite(),
            !self.nodes().contains_key(NULL_KEY),
    {
        self.map.lemma_wf_facts();
    }

    /// An empty store, whose ladder holds the empty raw block alone.
    pub fn new() -> (s: NodeStore)
        ensures
            s.wf(),
            s.nodes() == Map::<u128, QuadTreeNode>::empty(),
            s.blacks() == seq![0u128],
            s.spec_capacity() == 2,
            s.keyed(),
    {
        proof {
            reveal(NodeStore::wf);
            reveal(NodeStore::grows_to);
            reveal(NodeStore::keyed);
        }
        let null_value = QuadTreeValue { lt: NULL_KEY, rt: NULL_KEY, lb: NULL_KEY, rb: NULL_KEY };
        let null_node = QuadTreeNode {
            v: null_value,
            forward_key: NULL_KEY,
            set_count: 0xcccc_cccc_cccc_cccc,
        };
        proof {
            vstd::arithmetic::power2::lemma2_to64();
        }
        let mut black_keys: Vec<u128> = Vec::new();
        black_keys.push(0);
        assert(black_keys@ =~= seq![0u128]);
        NodeStore {
            map: LargeKeyTable::new(1, NULL_KEY, null_node),
            black_keys,
            depths: Ghost(Map::empty()),
        }
    }

    /// The node stored under `key`, if there is one.
    pub fn get(&self, key: u128) -> (r: Option<QuadTreeNode>)
        requires
            self.wf(),
        ensures
            r == if self.nodes().contains_key(key) {
                Some(self.nodes()[key])
            } else {
                None
            },
    {
        proof {
            reveal(NodeStore::wf);
            reveal(NodeStore::grows_to);
        }
        self.map.get(key)
    }

    /// The number of stored nodes.
    pub fn node_count(&self) -> (n: usize)
        requires
            self.wf(),
        ensures
            n == self.nodes().dom().len(),
    {
        proof {
            reveal(NodeStore::wf);
            reveal(NodeStore::grows_to);
        }
        self.map.len()
    }

    /// The binary logarithm of the number of slots of the table.
    pub closed spec fn spec_size_log2(&self) -> u8 {
        self.map.spec_size_log2()
    }

    /// The binary logarithm of the number of slots of the table.
    pub fn size_log2(&self) -> (k: u8)
        requires
            self.wf(),
        ensures
            k == self.spec_size_log2(),
            vstd::arithmetic::power2::pow2(k as nat) <= usize::MAX,
    {
        proof {
            reveal(NodeStore::wf);
            self.map.lemma_wf_facts();
        }
        self.map.size_log2()
    }

    /// An empty store with a table of `2^size_log2` slots.
    pub fn with_size(size_log2: u8) -> (s: NodeStore)
        requires
            vstd::arithmetic::power2::pow2(size_log2 as nat) <= usize::MAX,
        ensures
            s.wf(),
            s.nodes() == Map::<u128, QuadTreeNode>::empty(),
            s.blacks() == seq![0u128],
            s.spec_size_log2() == size_log2,
            s.spec_capacity() == vstd::arithmetic::power2::pow2(size_log2 as nat),
            s.keyed(),
    {
        proof {
            reveal(NodeStore::wf);
            reveal(NodeStore::grows_to);
            reveal(NodeStore::keyed);
        }
        let null_value = QuadTreeValue { lt: NULL_KEY, rt: NULL_KEY, lb: NULL_KEY, rb: NULL_KEY };
        let null_node = QuadTreeNode {
            v: null_value,
            forward_key: NULL_KEY,
            set_count: 0xcccc_cccc_cccc_cccc,
        };
        let mut black_keys: Vec<u128> = Vec::new();
        black_keys.push(0);
        assert(black_keys@ =~= seq![0u128]);
        NodeStore {
            map: LargeKeyTable::new(size_log2, NULL_KEY, null_node),
            black_keys,
            depths: Ghost(Map::empty()),
        }
    }

    /// The number of live cells of the square that the quadrants of `d` form.
    /// A number beyond 64 bits is given as the largest number of 64 bits.
    pub fn get_set_count(&self, d: &QuadTreeValue) -> (n: u64)
        requires
            self.wf(),
            value_valid(self.nodes(), self.levels(), *d, quadrant_level(self.levels(), *d)),
        ensures
            n == capped(
                value_count(self.nodes(), *d, quadrant_level(self.levels(), *d)),
            ),
    {
        proof {
            reveal(NodeStore::wf);
            reveal(NodeStore::grows_to);
        }
        let ghost m = self.nodes();
        let ghost dm = self.levels();
        let ghost level = quadrant_level(dm, *d);
        if d.is_raw() {
            proof {
                lemma_popcount_zero(d.lt as u64);
                lemma_popcount_zero(d.rt as u64);
                lemma_popcount_zero(d.lb as u64);
                lemma_popcount_zero(d.rb as u64);
            }
            let a = count_ones(#[verifier::truncate] (d.lt as u64));
            let b = count_ones(#[verifier::truncate] (d.rt as u64));
            let c = count_ones(#[verifier::truncate] (d.lb as u64));
            let e = count_ones(#[verifier::truncate] (d.rb as u64));
            a + b + c + e
        } else {
            proof {
                assert(node_ok(m, dm, d.lt));
                assert(node_ok(m, dm, d.rt));
                assert(node_ok(m, dm, d.lb));
                assert(node_ok(m, dm, d.rb));
            }
            let a = self.map.get(d.lt).unwrap().set_count;
            let b = self.map.get(d.rt).unwrap().set_count;
            let c = self.map.get(d.lb).unwrap().set_count;
            let e = self.map.get(d.rb).unwrap().set_count;
            a.saturating_add(b).saturating_add(c).saturating_add(e)
        }
    }

    /// Whether the square that `key` stands for has no live cell.
    pub(crate) fn is_black(&self, key: u128, Ghost(level): Ghost<nat>) -> (r: bool)
        requires
            self.wf(),
            valid(self.nodes(), self.levels(), key, level),
        ensures
            r == (live_count(self.nodes(), key, level) == 0),
    {
        proof {
            reveal(NodeStore::wf);
        }
        if node_is_raw(key) {
            proof {
                lemma_popcount_zero(key as u64);
            }
            key == 0
        } else {
            proof {
                assert(node_ok(self.nodes(), self.levels(), key));
            }
            self.map.get(key).unwrap().set_count == 0
        }
    }

    /// Stores `node` under `key`, as a new node or in place of a node with
    /// the same quadrants that has no other forward key.
    #[verifier::rlimit(50)]
    pub(crate) fn put(&mut self, key: u128, node: QuadTreeNode, Ghost(level): Ghost<nat>) -> (r:
        Result<(), StoreError>)
        requires
            old(self).wf(),
            !is_raw_key(key),
            key != NULL_KEY,
            level >= 1,
            value_valid(old(self).nodes(), old(self).levels(), node.v, (level - 1) as nat),
            node.set_count == capped(
                value_count(old(self).nodes(), node.v, (level - 1) as nat),
            ),
            node.forward_key != NULL_KEY ==> {
                &&& valid(
                    old(self).nodes(),
                    old(self).levels(),
                    node.forward_key,
                    (level - 1) as nat,
                )
                &&& forward_ok(old(self).nodes(), node.v, node.forward_key, level)
            },
            old(self).nodes().contains_key(key) ==> {
                &&& old(self).nodes()[key].v == node.v
                &&& old(self).levels()[key] == level
                &&& (old(self).nodes()[key].forward_key != NULL_KEY ==> node.forward_key == old(
                    self,
                ).nodes()[key].forward_key)
            },
        ensures
            final(self).wf(),
            match r {
                Ok(_) => {
                    &&& old(self).has_room()
                    &&& final(self).nodes() == old(self).nodes().insert(key, node)
                    &&& final(self).levels() == old(self).levels().insert(key, level)
                    &&& final(self).blacks() == old(self).blacks()
                    &&& old(self).grows_to(final(self))
                    &&& final(self).spec_capacity() == grown_capacity(
                        old(self).spec_capacity(),
                        final(self).nodes().dom().len(),
                    )
                },
                Err(e) => {
                    &&& !old(self).has_room()
                    &&& e == StoreError::OutOfRange
                    &&& *final(self) == *old(self)
                },
            },
    {
        proof {
            reveal(NodeStore::wf);
            reveal(NodeStore::grows_to);
        }
        if !self.map.has_room() {
            return Err(StoreError::OutOfRange);
        }
        let ghost m = self.nodes();
        let ghost dm = self.levels();
        self.map.add(key, node);
        self.depths = Ghost(self.depths@.insert(key, level));
        proof {
            let m2 = self.nodes();
            let dm2 = self.levels();
            let below = (level - 1) as nat;
            assert(extends(m, dm, m2, dm2)) by {
                assert forall|k: u128| #[trigger] m.contains_key(k) implies {
                    &&& m2.contains_key(k)
                    &&& m2[k].v == m[k].v
                    &&& m2[k].set_count == m[k].set_count
                    &&& (m[k].forward_key != NULL_KEY ==> m2[k].forward_key == m[k].forward_key)
                    &&& (dm.contains_key(k) ==> dm2.contains_key(k) && dm2[k] == dm[k])
                } by {
                    assert(node_ok(m, dm, k));
                    if k == key {
                        lemma_value_extends(m, dm, m, dm, node.v, below);
                    }
                }
            }
            lemma_value_extends(m, dm, m2, dm2, node.v, below);
            if node.forward_key != NULL_KEY {
                reveal(forward_ok);
                let fwd = node.forward_key;
                lemma_valid_extends(m, dm, m2, dm2, fwd, below);
                let q = quarter(level);
                assert forall|a: int, b: int| 0 <= a < 2 * q && 0 <= b < 2 * q implies (
                #[trigger] cell(m2, fwd, below, a, b) <==> generations(
                    value_cells(m2, node.v, below),
                    q as nat,
                ).contains((a + q, b + q))) by {
                    lemma_cell_extends(m, dm, m2, dm2, fwd, below, a, b);
                    assert(cell(m, fwd, below, a, b) <==> generations(
                        value_cells(m, node.v, below),
                        q as nat,
                    ).contains((a + q, b + q)));
                }
            }
            assert(node_ok(m2, dm2, key));
            lemma_store_ok_extends(m, dm, m2, dm2);
            assert forall|i: int| 1 <= i < self.blacks().len() implies {
                &&& valid(m2, dm2, #[trigger] self.blacks()[i], i as nat)
                &&& m2[self.blacks()[i]].v == four(self.blacks()[i - 1])
                &&& m2[self.blacks()[i]].set_count == 0
            } by {
                lemma_valid_extends(m, dm, m2, dm2, self.blacks()[i], i as nat);
                assert(m.contains_key(self.blacks()[i]));
            }
        }
        Ok(())
    }

    proof fn lemma_push_rung(&self, next: &NodeStore, k: u128)
        requires
            self.wf(),
            next.table_wf(),
            next.nodes() == self.nodes(),
            next.levels() == self.levels(),
            next.blacks() == self.blacks().push(k),
            valid(self.nodes(), self.levels(), k, self.blacks().len()),
            self.nodes()[k].v == four(self.blacks().last()),
            self.nodes()[k].set_count == 0,
        ensures
            next.wf(),
            self.grows_to(next),
    {
        reveal(NodeStore::wf);
        reveal(NodeStore::grows_to);
        let bl = next.blacks();
        assert forall|i: int| 1 <= i < bl.len() implies {
            &&& valid(next.nodes(), next.levels(), #[trigger] bl[i], i as nat)
            &&& next.nodes()[bl[i]].v == four(bl[i - 1])
            &&& next.nodes()[bl[i]].set_count == 0
        } by {
            if i < self.blacks().len() {
                assert(bl[i] == self.blacks()[i]);
                assert(bl[i - 1] == self.blacks()[i - 1]);
            }
        }
    }

    /// Makes the ladder of all-dead keys one level longer: the new key is
    /// the content hash of the value whose quadrants are the last key, and
    /// it names the node with those quadrants, whose forward key is the last
    /// key.  The key is refused where it cannot name the value, and the node
    /// where the table has no room for it.
    #[verifier::rlimit(50)]
    pub(crate) fn push_black(&mut self) -> (r: Result<u128, StoreError>)
        requires
            old(self).wf(),
        ensures
            final(self).wf(),
            old(self).grows_to(final(self)),
            r matches Err(e) ==> final(self).explains(e),
            final(self).count() - final(self).blacks().len() <= old(self).count() - old(
                self,
            ).blacks().len(),
            old(self).compact() ==> final(self).compact(),
            old(self).keyed() ==> final(self).keyed(),
            final(self).same_above(old(self), old(self).blacks().len()),
            ({
                let last = old(self).blacks()[old(self).blacks().len() - 1];
                let key = hash_of(four(last));
                let m = old(self).nodes();
                let known = m.contains_key(key) && m[key].forward_key != NULL_KEY;
                match r {
                    Ok(k) => {
                        &&& k == key
                        &&& usable(m, four(last))
                        &&& final(self).blacks() == old(self).blacks().push(k)
                        &&& if known {
                            &&& final(self).nodes() == m
                            &&& final(self).spec_capacity() == old(self).spec_capacity()
                        } else {
                            &&& old(self).has_room()
                            &&& final(self).nodes() == m.insert(
                                key,
                                QuadTreeNode { v: four(last), forward_key: last, set_count: 0 },
                            )
                            &&& final(self).spec_capacity() == grown_capacity(
                                old(self).spec_capacity(),
                                final(self).nodes().dom().len(),
                            )
                        }
                    },
                    Err(StoreError::KeyClash(v)) => {
                        &&& *final(self) == *old(self)
                        &&& v == four(last)
                        &&& !usable(m, v)
                    },
                    Err(StoreError::OutOfRange) => {
                        &&& *final(self) == *old(self)
                        &&& usable(m, four(last))
                        &&& !known
                        &&& !old(self).has_room()
                    },
                }
            }),
    {
        let ghost start = *self;
        proof {
            reveal(NodeStore::wf);
            start.lemma_grows_refl();
        }
        let depth = self.black_keys.len();
        let prev_key = self.black_keys[depth - 1];
        let ghost below = (depth - 1) as nat;
        let cur_value = QuadTreeValue { lt: prev_key, rt: prev_key, lb: prev_key, rb: prev_key };
        let cur_key = cur_value.key();
        if node_is_raw(cur_key) || cur_key == NULL_KEY {
            return Err(StoreError::KeyClash(cur_value));
        }
        let ghost m = self.nodes();
        let ghost dm = self.levels();
        proof {
            start.lemma_black(below as int);
            assert(value_valid(m, dm, cur_value, below));
            assert(value_count(m, cur_value, below) == 0);
            assert(forward_ok(m, cur_value, prev_key, depth as nat)) by {
                start.lemma_wf();
                lemma_dead_forward(m, dm, cur_value, prev_key, depth as nat);
            }
        }
        let node = QuadTreeNode { v: cur_value, forward_key: prev_key, set_count: 0 };
        let found = self.get(cur_key);
        let need = match found {
            Some(f) => {
                if !(f.v == cur_value) {
                    return Err(StoreError::KeyClash(cur_value));
                }
                proof {
                    start.lemma_found(cur_key, below);
                }
                f.forward_key == NULL_KEY
            },
            None => true,
        };
        if need {
            match self.put(cur_key, node, Ghost(depth as nat)) {
                Ok(_) => {},
                Err(e) => {
                    return Err(e);
                },
            }
            proof {
                self.lemma_took_one(&start, cur_key, node);
                if start.keyed() {
                    self.lemma_keyed_put(&start, cur_key, node, depth as nat);
                }
            }
        }
        let ghost mid = *self;
        proof {
            assert(valid(mid.nodes(), mid.levels(), cur_key, depth as nat));
            assert(mid.nodes()[cur_key].v == cur_value);
            assert(mid.nodes()[cur_key].set_count == 0);
            assert(mid.blacks() == start.blacks());
        }
        self.black_keys.push(cur_key);
        proof {
            mid.lemma_push_rung(self, cur_key);
            start.lemma_grows_trans(&mid, self);
            self.lemma_same_above_one(&start, cur_key, node, depth as nat);
            if start.keyed() {
                self.lemma_keyed_ladder(&mid);
            }
        }
        Ok(cur_key)
    }

    /// A store that grew by rungs and then by one more rung grew by rungs.
    proof fn lemma_rung_more(&self, before: &NodeStore, start: &NodeStore)
        requires
            before.grew_by_rungs(start),
            before.blacks().len() >= 1,
            self.blacks() == before.blacks().push(
                hash_of(four(before.blacks()[before.blacks().len() - 1])),
            ),
            usable(before.nodes(), four(before.blacks()[before.blacks().len() - 1])),
            self.nodes() == before.nodes() || self.nodes() == before.nodes().insert(
                hash_of(four(before.blacks()[before.blacks().len() - 1])),
                QuadTreeNode {
                    v: four(before.blacks()[before.blacks().len() - 1]),
                    forward_key: before.blacks()[before.blacks().len() - 1],
                    set_count: 0,
                },
            ),
        ensures
            self.grew_by_rungs(start),
    {
        let key = hash_of(four(before.blacks()[before.blacks().len() - 1]));
        assert forall|k: u128| #[trigger]
            self.nodes().contains_key(k) && !start.nodes().contains_key(k) implies {
            &&& k == hash_of(self.nodes()[k].v)
            &&& exists|i: int| 1 <= i < self.blacks().len() && #[trigger] self.blacks()[i] == k
        } by {
            if before.nodes().contains_key(k) {
                let i = choose|i: int|
                    1 <= i < before.blacks().len() && #[trigger] before.blacks()[i] == k;
                assert(self.blacks()[i] == k);
            } else {
                assert(k == key);
                assert(self.blacks()[before.blacks().len() as int] == k);
            }
        }
    }

    /// The all-dead key of the given level.  The ladder is made longer where
    /// it does not reach the level yet.
    pub fn black_key(&mut self, depth: usize) -> (r: Result<u128, StoreError>)
        requires
            old(self).wf(),
        ensures
            final(self).wf(),
            old(self).grows_to(final(self)),
            depth < old(self).blacks().len() ==> r == Ok::<u128, StoreError>(
                old(self).blacks()[depth as int],
            ) && *final(self) == *old(self),
            final(self).grew_by_rungs(old(self)),
            old(self).keyed() ==> final(self).keyed(),
            final(self).same_above(old(self), depth as nat),
            final(self).count() - final(self).blacks().len() <= old(self).count() - old(
                self,
            ).blacks().len(),
            old(self).blacks().len() <= final(self).blacks().len(),
            final(self).blacks().len() <= old(self).blacks().len() || final(self).blacks().len()
                <= depth + 1,
            old(self).compact() ==> final(self).compact(),
            match r {
                Ok(k) => {
                    &&& depth < final(self).blacks().len()
                    &&& k == final(self).blacks()[depth as int]
                },
                Err(e) => final(self).explains(e),
            },
    {
        let ghost start = *self;
        proof {
            start.lemma_grows_refl();
        }
        while self.black_keys.len() <= depth
            invariant
                self.wf(),
                start.grows_to(self),
                start == *old(self),
                depth < start.blacks().len() ==> *self == start,
                self.grew_by_rungs(&start),
                start.keyed() ==> self.keyed(),
                self.same_above(&start, depth as nat),
                self.count() - self.blacks().len() <= start.count() - start.blacks().len(),
                start.blacks().len() <= self.blacks().len(),
                self.blacks().len() <= start.blacks().len() || self.blacks().len() <= depth + 1,
                start.compact() ==> self.compact(),
            decreases depth + 1 - self.black_keys.len(),
        {
            let ghost before = *self;
            match self.push_black() {
                Ok(_) => {},
                Err(e) => {
                    proof {
                        start.lemma_grows_trans(&before, self);
                    }
                    return Err(e);
                },
            }
            proof {
                start.lemma_grows_trans(&before, self);
                assert(before.blacks().len() >= 1) by {
                    before.lemma_wf();
                }
                self.lemma_rung_more(&before, &start);
                self.lemma_same_above_more(&before, before.blacks().len(), depth as nat);
                self.lemma_same_above_trans(&before, &start, depth as nat);
            }
        }
        Ok(self.black_keys[depth])
    }

    /// A key of a store that grows to another store is a key of that store.
    pub proof fn lemma_sub_valid(&self, orig: &NodeStore, key: u128, level: nat)
        requires
            self.grows_to(orig),
            valid(self.nodes(), self.levels(), key, level),
        ensures
            valid(orig.nodes(), orig.levels(), key, level),
    {
        reveal(NodeStore::grows_to);
        lemma_valid_extends(self.nodes(), self.levels(), orig.nodes(), orig.levels(), key, level);
    }

    proof fn lemma_copy_ready(&self, orig: &NodeStore, root: u128, level: nat)
        requires
            self.wf(),
            orig.wf(),
            self.grows_to(orig),
            level >= 1,
            valid(orig.nodes(), orig.levels(), root, level),
            value_valid(self.nodes(), self.levels(), orig.nodes()[root].v, (level - 1) as nat),
            orig.nodes()[root].forward_key != NULL_KEY ==> valid(
                self.nodes(),
                self.levels(),
                orig.nodes()[root].forward_key,
                (level - 1) as nat,
            ),
        ensures
            orig.nodes()[root].set_count == capped(
                value_count(self.nodes(), orig.nodes()[root].v, (level - 1) as nat),
            ),
            orig.nodes()[root].forward_key != NULL_KEY ==> forward_ok(
                self.nodes(),
                orig.nodes()[root].v,
                orig.nodes()[root].forward_key,
                level,
            ),
    {
        reveal(NodeStore::wf);
        reveal(NodeStore::grows_to);
        let node = orig.nodes()[root];
        assert(node_ok(orig.nodes(), orig.levels(), root));
        lemma_value_extends(
            self.nodes(),
            self.levels(),
            orig.nodes(),
            orig.levels(),
            node.v,
            (level - 1) as nat,
        );
        if node.forward_key != NULL_KEY {
            lemma_forward_back(
                self.nodes(),
                self.levels(),
                orig.nodes(),
                orig.levels(),
                node.v,
                node.forward_key,
                level,
            );
        }
    }

    proof fn lemma_copied(&self, before: &NodeStore, orig: &NodeStore, root: u128, level: nat)
        requires
            before.grows_to(orig),
            orig.nodes().contains_key(root),
            orig.levels().contains_key(root),
            orig.levels()[root] == level,
            self.nodes() == before.nodes().insert(root, orig.nodes()[root]),
            self.levels() == before.levels().insert(root, level),
            self.blacks() == before.blacks(),
        ensures
            self.grows_to(orig),
    {
        reveal(NodeStore::grows_to);
        assert forall|k: u128| #[trigger] self.nodes().contains_key(k) implies {
            &&& orig.nodes().contains_key(k)
            &&& orig.nodes()[k].v == self.nodes()[k].v
            &&& orig.nodes()[k].set_count == self.nodes()[k].set_count
            &&& (self.nodes()[k].forward_key != NULL_KEY ==> orig.nodes()[k].forward_key
                == self.nodes()[k].forward_key)
            &&& (self.levels().contains_key(k) ==> orig.levels().contains_key(k)
                && orig.levels()[k] == self.levels()[k])
        } by {
            if k != root {
                assert(before.nodes().contains_key(k));
            }
        }
    }

    proof fn lemma_present(&self, orig: &NodeStore, root: u128, level: nat)
        requires
            self.wf(),
            self.grows_to(orig),
            self.nodes().contains_key(root),
            valid(orig.nodes(), orig.levels(), root, level),
            level >= 1,
        ensures
            valid(self.nodes(), self.levels(), root, level),
    {
        reveal(NodeStore::wf);
        reveal(NodeStore::grows_to);
        assert(node_ok(self.nodes(), self.levels(), root));
    }

    pub proof fn lemma_children(&self, root: u128, level: nat)
        requires
            self.wf(),
            level >= 1,
            valid(self.nodes(), self.levels(), root, level),
        ensures
            value_valid(self.nodes(), self.levels(), self.nodes()[root].v, (level - 1) as nat),
            self.nodes()[root].forward_key != NULL_KEY ==> valid(
                self.nodes(),
                self.levels(),
                self.nodes()[root].forward_key,
                (level - 1) as nat,
            ),
    {
        reveal(NodeStore::wf);
        assert(node_ok(self.nodes(), self.levels(), root));
    }

    /// A table that takes nodes of a well formed table of its size does not
    /// double.
    proof fn lemma_copy_fits(&self, before: &NodeStore, orig: &NodeStore, root: u128)
        requires
            orig.wf(),
            self.wf(),
            before.spec_capacity() == orig.spec_capacity(),
            self.nodes().contains_key(root),
            forall|k: u128| #[trigger]
                self.nodes().contains_key(k) ==> orig.nodes().contains_key(k),
            self.spec_capacity() == grown_capacity(
                before.spec_capacity(),
                self.nodes().dom().len(),
            ),
        ensures
            self.spec_capacity() == orig.spec_capacity(),
    {
        orig.lemma_wf();
        self.lemma_wf();
        orig.map.lemma_wf_facts();
        self.map.lemma_wf_facts();
        let n = self.nodes().dom().len();
        assert(self.nodes().dom().subset_of(orig.nodes().dom())) by {
            assert forall|k: u128| self.nodes().dom().contains(k) implies orig.nodes().dom().contains(
                k,
            ) by {
                assert(self.nodes().contains_key(k));
            }
        }
        vstd::set_lib::lemma_len_subset(self.nodes().dom(), orig.nodes().dom());
        if n == 0 {
            self.nodes().dom().lemma_len0_is_empty();
            assert(self.nodes().dom().contains(root));
        }
        lemma_no_doubling(orig.map.spec_size_log2() as nat, n);
    }

    /// A store that holds a node, or that has no part in the node's level,
    /// gains nothing by taking what the node leads to.
    proof fn lemma_took_none(&self, orig: &NodeStore, root: u128, level: nat)
        requires
            self.copy_of(orig),
            valid(orig.nodes(), orig.levels(), root, level),
            level == 0 || self.nodes().contains_key(root),
        ensures
            self.took(self, orig, root, level),
    {
        assert forall|k: u128| reaches(orig.nodes(), root, level, k) implies self.nodes().contains_key(
            k,
        ) by {
            assert(reaches(orig.nodes(), root, orig.levels()[root], k));
        }
    }

    /// A store that took what the quadrants and the forward key of a node
    /// lead to, and then the node, took what the node leads to.
    proof fn lemma_took_node(
        &self,
        start: &NodeStore,
        s1: &NodeStore,
        s2: &NodeStore,
        s3: &NodeStore,
        s4: &NodeStore,
        s5: &NodeStore,
        orig: &NodeStore,
        root: u128,
        level: nat,
    )
        requires
            level >= 1,
            valid(orig.nodes(), orig.levels(), root, level),
            s1.took(start, orig, orig.nodes()[root].v.lt, (level - 1) as nat),
            s2.took(s1, orig, orig.nodes()[root].v.rt, (level - 1) as nat),
            s3.took(s2, orig, orig.nodes()[root].v.lb, (level - 1) as nat),
            s4.took(s3, orig, orig.nodes()[root].v.rb, (level - 1) as nat),
            if orig.nodes()[root].forward_key != NULL_KEY && !is_raw_key(
                orig.nodes()[root].forward_key,
            ) {
                s5.took(s4, orig, orig.nodes()[root].forward_key, (level - 1) as nat)
            } else {
                s5.nodes() == s4.nodes()
            },
            s5.copy_of(orig),
            self.nodes() == s5.nodes().insert(root, orig.nodes()[root]),
            self.spec_capacity() == orig.spec_capacity(),
        ensures
            self.took(start, orig, root, level),
            self.copy_of(orig),
    {
        let m = orig.nodes();
        let below = (level - 1) as nat;
        let node = m[root];
        assert forall|k: u128|
            self.nodes().contains_key(k) <==> start.nodes().contains_key(k) || reaches(
                m,
                root,
                level,
                k,
            ) by {
            assert(s5.nodes().contains_key(k) <==> s4.nodes().contains_key(k) || (node.forward_key
                != NULL_KEY && reaches(m, node.forward_key, below, k)));
            assert(s4.nodes().contains_key(k) <==> s3.nodes().contains_key(k) || reaches(
                m,
                node.v.rb,
                below,
                k,
            ));
            assert(s3.nodes().contains_key(k) <==> s2.nodes().contains_key(k) || reaches(
                m,
                node.v.lb,
                below,
                k,
            ));
            assert(s2.nodes().contains_key(k) <==> s1.nodes().contains_key(k) || reaches(
                m,
                node.v.rt,
                below,
                k,
            ));
            assert(s1.nodes().contains_key(k) <==> start.nodes().contains_key(k) || reaches(
                m,
                node.v.lt,
                below,
                k,
            ));
        }
        assert forall|k: u128, j: u128|
            self.nodes().contains_key(k) && #[trigger] reaches(
                m,
                k,
                orig.levels()[k],
                j,
            ) implies self.nodes().contains_key(j) by {
            if k != root {
                assert(s5.nodes().contains_key(k));
                assert(s5.nodes().contains_key(j));
            }
        }
    }

    /// Copies the node with the key `root`, and every node that it is made
    /// of or that its forward keys lead to, from `orig_table` to
    /// `new_table`.  Raw blocks are no nodes and are passed over.  The copy
    /// fails where the table has no room for a node, and only there.
    #[verifier::rlimit(50)]
    pub(crate) fn add_deps_to_tree(
        orig_table: &NodeStore,
        new_table: &mut NodeStore,
        root: u128,
        Ghost(level): Ghost<nat>,
    ) -> (r: Result<(), StoreError>)
        requires
            orig_table.wf(),
            old(new_table).wf(),
            old(new_table).grows_to(orig_table),
            old(new_table).copy_of(orig_table),
            valid(orig_table.nodes(), orig_table.levels(), root, level),
        ensures
            final(new_table).wf(),
            old(new_table).grows_to(final(new_table)),
            final(new_table).grows_to(orig_table),
            final(new_table).copy_of(orig_table),
            final(new_table).blacks() == old(new_table).blacks(),
            match r {
                Ok(_) => {
                    &&& valid(final(new_table).nodes(), final(new_table).levels(), root, level)
                    &&& final(new_table).took(old(new_table), orig_table, root, level)
                },
                Err(e) => e == StoreError::OutOfRange && !orig_table.has_room(),
            },
            orig_table.has_room() || level == 0 ==> r is Ok,
            !orig_table.has_room() ==> final(new_table).nodes() == old(new_table).nodes(),
        decreases level,
    {
        let ghost start = *new_table;
        proof {
            start.lemma_grows_refl();
        }
        if node_is_raw(root) {
            proof {
                start.lemma_took_none(orig_table, root, level);
            }
            return Ok(());
        }
        if new_table.get(root).is_some() {
            proof {
                start.lemma_present(orig_table, root, level);
                start.lemma_took_none(orig_table, root, level);
            }
            return Ok(());
        }
        let node = orig_table.get(root).unwrap();
        let ghost below = (level - 1) as nat;
        proof {
            orig_table.lemma_children(root, level);
        }
        match Self::add_deps_to_tree(orig_table, new_table, node.v.lt, Ghost(below)) {
            Ok(_) => {},
            Err(e) => {
                return Err(e);
            },
        }
        let ghost s1 = *new_table;
        match Self::add_deps_to_tree(orig_table, new_table, node.v.rt, Ghost(below)) {
            Ok(_) => {},
            Err(e) => {
                proof {
                    start.lemma_grows_trans(&s1, new_table);
                }
                return Err(e);
            },
        }
        let ghost s2 = *new_table;
        proof {
            start.lemma_grows_trans(&s1, &s2);
        }
        match Self::add_deps_to_tree(orig_table, new_table, node.v.lb, Ghost(below)) {
            Ok(_) => {},
            Err(e) => {
                proof {
                    start.lemma_grows_trans(&s2, new_table);
                }
                return Err(e);
            },
        }
        let ghost s3 = *new_table;
        proof {
            start.lemma_grows_trans(&s2, &s3);
        }
        match Self::add_deps_to_tree(orig_table, new_table, node.v.rb, Ghost(below)) {
            Ok(_) => {},
            Err(e) => {
                proof {
                    start.lemma_grows_trans(&s3, new_table);
                }
                return Err(e);
            },
        }
        let ghost s4 = *new_table;
        proof {
            start.lemma_grows_trans(&s3, &s4);
            s4.lemma_grows_refl();
        }
        if node.forward_key != NULL_KEY && !node_is_raw(node.forward_key) {
            match Self::add_deps_to_tree(orig_table, new_table, node.forward_key, Ghost(below)) {
                Ok(_) => {},
                Err(e) => {
                    proof {
                        start.lemma_grows_trans(&s4, new_table);
                    }
                    return Err(e);
                },
            }
        }
        let ghost s5 = *new_table;
        proof {
            start.lemma_grows_trans(&s4, &s5);
            s1.lemma_grows_trans(&s2, &s3);
            s1.lemma_grows_trans(&s3, &s4);
            s1.lemma_grows_trans(&s4, &s5);
            s2.lemma_grows_trans(&s3, &s4);
            s2.lemma_grows_trans(&s4, &s5);
            s3.lemma_grows_trans(&s4, &s5);
            s1.lemma_sub_valid(&s5, node.v.lt, below);
            s2.lemma_sub_valid(&s5, node.v.rt, below);
            s3.lemma_sub_valid(&s5, node.v.lb, below);
            s4.lemma_sub_valid(&s5, node.v.rb, below);
        }
        if new_table.get(root).is_some() {
            proof {
                s5.lemma_present(orig_table, root, level);
                assert(s5.nodes() =~= s5.nodes().insert(root, orig_table.nodes()[root]));
                s5.lemma_took_node(&start, &s1, &s2, &s3, &s4, &s5, orig_table, root, level);
            }
            return Ok(());
        }
        proof {
            s5.lemma_copy_ready(orig_table, root, level);
        }
        match new_table.put(root, node, Ghost(level)) {
            Ok(_) => {
                proof {
                    start.lemma_grows_trans(&s5, new_table);
                    new_table.lemma_copied(&s5, orig_table, root, level);
                    new_table.lemma_copy_fits(&s5, orig_table, root);
                    new_table.lemma_took_node(
                        &start,
                        &s1,
                        &s2,
                        &s3,
                        &s4,
                        &s5,
                        orig_table,
                        root,
                        level,
                    );
                }
                Ok(())
            },
            Err(e) => Err(e),
        }
    }

    proof fn lemma_ladder_copied(&self, orig: &NodeStore, i: int)
        requires
            self.wf(),
            orig.wf(),
            self.grows_to(orig),
            0 <= i < orig.blacks().len(),
            valid(self.nodes(), self.levels(), orig.blacks()[i], i as nat),
        ensures
            forall|j: int|
                0 <= j <= i ==> valid(self.nodes(), self.levels(), #[trigger] orig.blacks()[j], j as nat),
        decreases i,
    {
        if i > 0 {
            orig.lemma_black(i);
            self.lemma_children(orig.blacks()[i], i as nat);
            assert(self.nodes()[orig.blacks()[i]].v == orig.nodes()[orig.blacks()[i]].v) by {
                reveal(NodeStore::grows_to);
            }
            self.lemma_ladder_copied(orig, i - 1);
        }
    }

    proof fn lemma_adopted(&self, before: &NodeStore, orig: &NodeStore)
        requires
            before.wf(),
            orig.wf(),
            before.grows_to(orig),
            self.table_wf(),
            self.nodes() == before.nodes(),
            self.levels() == before.levels(),
            self.blacks() == orig.blacks(),
            before.blacks() == seq![0u128],
            forall|j: int|
                0 <= j < orig.blacks().len() ==> valid(
                    before.nodes(),
                    before.levels(),
                    #[trigger] orig.blacks()[j],
                    j as nat,
                ),
        ensures
            self.wf(),
            self.grows_to(orig),
    {
        reveal(NodeStore::wf);
        reveal(NodeStore::grows_to);
        let bl = orig.blacks();
        assert forall|i: int| 1 <= i < bl.len() implies {
            &&& valid(self.nodes(), self.levels(), #[trigger] bl[i], i as nat)
            &&& self.nodes()[bl[i]].v == four(bl[i - 1])
            &&& self.nodes()[bl[i]].set_count == 0
        } by {
            assert(valid(before.nodes(), before.levels(), bl[i], i as nat));
            assert(before.nodes().contains_key(bl[i]));
        }
    }

    /// A store with a table of the same size that holds the ladder of
    /// all-dead keys and whatever the node with the key `root` is made of or
    /// leads to, and nothing else.  There is none where the table has no
    /// room for a node and there is a node to take.
    pub(crate) fn collect(&self, root: u128, Ghost(level): Ghost<nat>) -> (r: Result<
        NodeStore,
        StoreError,
    >)
        requires
            self.wf(),
            valid(self.nodes(), self.levels(), root, level),
        ensures
            match r {
                Ok(next) => {
                    &&& next.wf()
                    &&& next.grows_to(self)
                    &&& next.blacks() == self.blacks()
                    &&& valid(next.nodes(), next.levels(), root, level)
                    &&& next.nodes() == kept(self.nodes(), self.blacks(), root, level)
                    &&& next.spec_capacity() == self.spec_capacity()
                    &&& (self.keyed() ==> next.keyed())
                },
                Err(e) => e == StoreError::OutOfRange,
            },
            r is Ok <==> self.has_room() || (level == 0 && self.blacks().len() == 1),
    {
        let mut next_map = NodeStore::with_size(self.size_log2());
        proof {
            assert(next_map.grows_to(self)) by {
                reveal(NodeStore::grows_to);
                self.lemma_wf();
            }
            assert(next_map.copy_of(self)) by {
                self.lemma_wf();
                self.map.lemma_wf_facts();
            }
            assert(self.black_keys@.len() >= 1) by {
                self.lemma_wf();
            }
        }
        let ghost s0 = next_map;
        let top = self.black_keys.len() - 1;
        let top_key = self.black_keys[top];
        proof {
            self.lemma_black(top as int);
        }
        match Self::add_deps_to_tree(self, &mut next_map, top_key, Ghost(top as nat)) {
            Ok(_) => {},
            Err(e) => {
                return Err(e);
            },
        }
        let ghost s1 = next_map;
        match Self::add_deps_to_tree(self, &mut next_map, root, Ghost(level)) {
            Ok(_) => {},
            Err(e) => {
                return Err(e);
            },
        }
        let ghost s2 = next_map;
        proof {
            s1.lemma_sub_valid(&s2, top_key, top as nat);
            s2.lemma_ladder_copied(self, top as int);
        }
        let mut ladder: Vec<u128> = Vec::new();
        let mut i: usize = 0;
        while i < self.black_keys.len()
            invariant
                i <= self.black_keys.len(),
                ladder@ =~= self.black_keys@.take(i as int),
            decreases self.black_keys.len() - i,
        {
            ladder.push(self.black_keys[i]);
            i = i + 1;
        }
        proof {
            assert(ladder@ =~= self.black_keys@);
        }
        next_map.black_keys = ladder;
        proof {
            assert(next_map.table_wf()) by {
                s2.lemma_wf();
            }
            next_map.lemma_adopted(&s2, self);
            s2.lemma_collected(&s0, &s1, self, root, level);
            if self.keyed() {
                next_map.lemma_grows(self);
                next_map.lemma_wf();
                assert forall|k: u128| #[trigger] next_map.nodes().contains_key(k) implies self.nodes().contains_key(
                    k,
                ) && next_map.nodes()[k] == self.nodes()[k] && next_map.levels()[k]
                    == self.levels()[k] by {
                    assert(node_ok(next_map.nodes(), next_map.levels(), k));
                }
                next_map.lemma_keyed_part(self);
            }
        }
        Ok(next_map)
    }

    /// What a store holds that started empty and took what the last key of
    /// the ladder and the key `root` lead to.
    proof fn lemma_collected(
        &self,
        s0: &NodeStore,
        s1: &NodeStore,
        orig: &NodeStore,
        root: u128,
        level: nat,
    )
        requires
            orig.blacks().len() >= 1,
            s0.nodes() == Map::<u128, QuadTreeNode>::empty(),
            s1.took(s0, orig, orig.blacks()[orig.blacks().len() - 1], (orig.blacks().len() - 1) as nat),
            self.took(s1, orig, root, level),
            self.copy_of(orig),
            valid(self.nodes(), self.levels(), root, level),
            valid(
                self.nodes(),
                self.levels(),
                orig.blacks()[orig.blacks().len() - 1],
                (orig.blacks().len() - 1) as nat,
            ),
            !orig.has_room() ==> self.nodes() == s0.nodes(),
        ensures
            self.nodes() == kept(orig.nodes(), orig.blacks(), root, level),
            orig.has_room() || (level == 0 && orig.blacks().len() == 1),
    {
        let top = (orig.blacks().len() - 1) as nat;
        let top_key = orig.blacks()[orig.blacks().len() - 1];
        assert forall|k: u128|
            self.nodes().contains_key(k) <==> reaches(orig.nodes(), root, level, k) || reaches(
                orig.nodes(),
                top_key,
                top,
                k,
            ) by {
            assert(s1.nodes().contains_key(k) <==> s0.nodes().contains_key(k) || reaches(
                orig.nodes(),
                top_key,
                top,
                k,
            ));
            assert(self.nodes().contains_key(k) <==> s1.nodes().contains_key(k) || reaches(
                orig.nodes(),
                root,
                level,
                k,
            ));
        }
        assert(self.nodes() =~= kept(orig.nodes(), orig.blacks(), root, level));
    }

    /// Gives `value` the key `key`: stores it as a node without a forward key
    /// where the key is free, and finds it where the key names it already.
    /// A key that reads as a raw block or as the empty key, or that names a
    /// node with other quadrants, is refused.
    #[verifier::rlimit(50)]
    pub fn intern(&mut self, value: QuadTreeValue, key: u128) -> (r: Result<u128, StoreError>)
        requires
            old(self).wf(),
            value_valid(
                old(self).nodes(),
                old(self).levels(),
                value,
                quadrant_level(old(self).levels(), value),
            ),
        ensures
            final(self).wf(),
            old(self).grows_to(final(self)),
            final(self).blacks() == old(self).blacks(),
            old(self).count() <= final(self).count() <= old(self).count() + 1,
            old(self).compact() ==> final(self).compact(),
            old(self).keyed() && key == hash_of(value) ==> final(self).keyed(),
            final(self).same_above(
                old(self),
                quadrant_level(old(self).levels(), value) + 1,
            ),
            match r {
                Ok(k) => {
                    &&& k == key
                    &&& !is_raw_key(key) && key != NULL_KEY
                    &&& valid(
                        final(self).nodes(),
                        final(self).levels(),
                        key,
                        quadrant_level(old(self).levels(), value) + 1,
                    )
                    &&& final(self).nodes()[key].v == value
                    &&& if old(self).nodes().contains_key(key) {
                        old(self).nodes()[key].v == value && *final(self) == *old(self)
                    } else {
                        &&& old(self).has_room()
                        &&& final(self).nodes() == old(self).nodes().insert(
                            key,
                            QuadTreeNode {
                                v: value,
                                forward_key: NULL_KEY,
                                set_count: capped(
                                    value_count(
                                        old(self).nodes(),
                                        value,
                                        quadrant_level(old(self).levels(), value),
                                    ),
                                ),
                            },
                        )
                    }
                },
                Err(StoreError::KeyClash(v)) => {
                    &&& *final(self) == *old(self)
                    &&& v == value
                    &&& (is_raw_key(key) || key == NULL_KEY || (old(self).nodes().contains_key(key)
                        && old(self).nodes()[key].v != value))
                },
                Err(StoreError::OutOfRange) => {
                    &&& *final(self) == *old(self)
                    &&& !is_raw_key(key) && key != NULL_KEY
                    &&& !old(self).nodes().contains_key(key)
                    &&& !old(self).has_room()
                },
            },
    {
        let ghost start = *self;
        proof {
            start.lemma_grows_refl();
        }
        let ghost level = quadrant_level(self.levels(), value);
        if node_is_raw(key) || key == NULL_KEY {
            return Err(StoreError::KeyClash(value));
        }
        match self.get(key) {
            Some(found) => {
                if found.v == value {
                    proof {
                        start.lemma_found(key, level);
                    }
                    Ok(key)
                } else {
                    Err(StoreError::KeyClash(value))
                }
            },
            None => {
                let count = self.get_set_count(&value);
                let node = QuadTreeNode { v: value, forward_key: NULL_KEY, set_count: count };
                match self.put(key, node, Ghost(level + 1)) {
                    Ok(_) => {
                        proof {
                            self.lemma_took_one(&start, key, node);
                            self.lemma_same_above_one(&start, key, node, level + 1);
                            if start.keyed() && key == hash_of(value) {
                                self.lemma_keyed_put(&start, key, node, level + 1);
                            }
                        }
                        Ok(key)
                    },
                    Err(e) => Err(e),
                }
            },
        }
    }

    /// The key of the value with the given quadrants, which is stored as a
    /// node if it was not stored before.  The key is the content hash of the
    /// value.  It is refused where it reads as a raw block or as the empty
    /// key, and where it names a node with other quadrants.
    pub fn add_array(&mut self, arr: [u128; 4]) -> (r: Result<u128, StoreError>)
        requires
            old(self).wf(),
            value_valid(
                old(self).nodes(),
                old(self).levels(),
                QuadTreeValue { lt: arr@[0], rt: arr@[1], lb: arr@[2], rb: arr@[3] },
                quadrant_level(
                    old(self).levels(),
                    QuadTreeValue { lt: arr@[0], rt: arr@[1], lb: arr@[2], rb: arr@[3] },
                ),
            ),
        ensures
            final(self).wf(),
            old(self).grows_to(final(self)),
            final(self).blacks() == old(self).blacks(),
            r matches Err(e) ==> final(self).explains(e),
            old(self).count() <= final(self).count() <= old(self).count() + 1,
            old(self).compact() ==> final(self).compact(),
            old(self).keyed() ==> final(self).keyed(),
            final(self).same_above(
                old(self),
                quadrant_level(
                    old(self).levels(),
                    QuadTreeValue { lt: arr@[0], rt: arr@[1], lb: arr@[2], rb: arr@[3] },
                ) + 1,
            ),
            ({
                let v = QuadTreeValue { lt: arr@[0], rt: arr@[1], lb: arr@[2], rb: arr@[3] };
                let key = hash_of(v);
                let level = quadrant_level(old(self).levels(), v);
                match r {
                    Ok(k) => {
                        &&& k == key
                        &&& !is_raw_key(key) && key != NULL_KEY
                        &&& valid(final(self).nodes(), final(self).levels(), k, level + 1)
                        &&& final(self).nodes()[k].v == v
                        &&& if old(self).nodes().contains_key(key) {
                            old(self).nodes()[key].v == v && *final(self) == *old(self)
                        } else {
                            &&& old(self).has_room()
                            &&& final(self).nodes() == old(self).nodes().insert(
                                key,
                                QuadTreeNode {
                                    v,
                                    forward_key: NULL_KEY,
                                    set_count: capped(value_count(old(self).nodes(), v, level)),
                                },
                            )
                        }
                    },
                    Err(StoreError::KeyClash(w)) => {
                        &&& *final(self) == *old(self)
                        &&& w == v
                        &&& !usable(old(self).nodes(), v)
                    },
                    Err(StoreError::OutOfRange) => {
                        &&& *final(self) == *old(self)
                        &&& !is_raw_key(key) && key != NULL_KEY
                        &&& !old(self).nodes().contains_key(key)
                        &&& !old(self).has_room()
                    },
                }
            }),
    {
        proof {
            reveal(NodeStore::wf);
            reveal(NodeStore::grows_to);
        }
        let val = QuadTreeValue::from_array(&arr);
        let key = val.key();
        self.intern(val, key)
    }
}

} // verus!
