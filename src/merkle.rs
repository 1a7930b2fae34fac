use vstd::prelude::*;
use vstd::arithmetic::power2::{
    pow2, lemma_pow2_unfold, lemma_pow2_pos, lemma2_to64, lemma2_to64_rest,
    lemma_pow2_strictly_increases,
};
use vstd::arithmetic::div_mod::{lemma_fundamental_div_mod, lemma_mod_pos_bound, lemma_div_denominator, lemma_div_pos_is_pos};
use crate::error::StorageError;
use crate::hash::{hash_pair, pair_hash, lemma_pair_hash_symmetric};

verus! {

/// The deepest tree supported: its capacity, `2^63`, still fits in the
/// `u64` leaf counter.
pub const MAX_DEPTH: usize = 63;

/// The leaf at position `i` of the conceptual tree: one of `leaves`, or the
/// zero leaf `z` past their end.
pub open spec fn leaf_at(leaves: Seq<Seq<u8>>, z: Seq<u8>, i: int) -> Seq<u8> {
    if 0 <= i < leaves.len() {
        leaves[i]
    } else {
        z
    }
}

/// The node at position `idx` of `level` (0 is the leaves) of the conceptual
/// tree over `leaves`.
pub open spec fn node(leaves: Seq<Seq<u8>>, z: Seq<u8>, level: nat, idx: int) -> Seq<u8>
    decreases level,
{
    if level == 0 {
        leaf_at(leaves, z, idx)
    } else {
        pair_hash(
            node(leaves, z, (level - 1) as nat, 2 * idx),
            node(leaves, z, (level - 1) as nat, 2 * idx + 1),
        )
    }
}

/// The root of a subtree of height `level` whose leaves are all `z`.
pub open spec fn zero_at(z: Seq<u8>, level: nat) -> Seq<u8>
    decreases level,
{
    if level == 0 {
        z
    } else {
        pair_hash(zero_at(z, (level - 1) as nat), zero_at(z, (level - 1) as nat))
    }
}

/// The position at `level` of the node above leaf position `p`.
pub open spec fn ancestor(p: int, level: nat) -> int {
    p / (pow2(level) as int)
}

/// The position of the other child of the same parent.
pub open spec fn sibling(k: int) -> int {
    if k % 2 == 0 {
        k + 1
    } else {
        k - 1
    }
}

/// The sibling of each node on the way from leaf `p` to the root.
pub open spec fn sibling_path(leaves: Seq<Seq<u8>>, z: Seq<u8>, p: int, depth: nat) -> Seq<Seq<u8>> {
    Seq::new(depth, |i: int| node(leaves, z, i as nat, sibling(ancestor(p, i as nat))))
}

/// The node reached after `level` steps up from `v`, combining it with the
/// hashes of `proof` in turn.
pub open spec fn climb_path(v: Seq<u8>, proof: Seq<Seq<u8>>, level: nat) -> Seq<u8>
    decreases level,
{
    if level == 0 {
        v
    } else {
        pair_hash(climb_path(v, proof, (level - 1) as nat), proof[level - 1])
    }
}

/// The abstract state of a tree.
pub struct MerkleView {
    pub root: Seq<u8>,
    pub filled: Seq<Seq<u8>>,
    pub zeros: Seq<Seq<u8>>,
    pub next_index: nat,
}

impl MerkleView {
    pub open spec fn depth(self) -> nat {
        self.zeros.len()
    }

    pub open spec fn zero_leaf(self) -> Seq<u8> {
        self.zeros[0]
    }

    pub open spec fn capacity(self) -> nat {
        pow2(self.depth())
    }

    pub open spec fn wf(self) -> bool {
        &&& 1 <= self.depth() <= MAX_DEPTH
        &&& self.filled.len() == self.depth()
        &&& forall|i: int|
            0 <= i < self.depth() ==> #[trigger] self.zeros[i] == zero_at(self.zero_leaf(), i as nat)
        &&& self.next_index <= self.capacity()
    }

    /// The tree commits to exactly `leaves`, in order: its root is that of the
    /// conceptual tree over them, and its cached subtrees are the left
    /// neighbours that the next insertion will combine with.
    pub open spec fn represents(self, leaves: Seq<Seq<u8>>) -> bool {
        &&& self.wf()
        &&& leaves.len() == self.next_index
        &&& self.root == node(leaves, self.zero_leaf(), self.depth(), 0)
        &&& forall|i: int|
            0 <= i < self.depth() && ancestor(self.next_index as int, i as nat) % 2 == 1
                ==> #[trigger] self.filled[i] == node(
                leaves,
                self.zero_leaf(),
                i as nat,
                ancestor(self.next_index as int, i as nat) - 1,
            )
    }

    /// The node at `level` on the way up from a leaf placed at `next_index`.
    pub open spec fn climb(self, leaf: Seq<u8>, level: nat) -> Seq<u8>
        decreases level,
    {
        if level == 0 {
            leaf
        } else {
            let l = (level - 1) as nat;
            let below = self.climb(leaf, l);
            if ancestor(self.next_index as int, l) % 2 == 0 {
                pair_hash(below, self.zeros[l as int])
            } else {
                pair_hash(self.filled[l as int], below)
            }
        }
    }

    /// The state after appending `leaf` at `next_index`.
    pub open spec fn inserted(self, leaf: Seq<u8>) -> MerkleView {
        MerkleView {
            root: self.climb(leaf, self.depth()),
            filled: Seq::new(
                self.depth(),
                |i: int|
                    if ancestor(self.next_index as int, i as nat) % 2 == 0 {
                        self.climb(leaf, i as nat)
                    } else {
                        self.filled[i]
                    },
            ),
            zeros: self.zeros,
            next_index: self.next_index + 1,
        }
    }

    /// `proof` leads from `leaf` to the current root.
    pub open spec fn accepts(self, proof: Seq<Seq<u8>>, leaf: Seq<u8>) -> bool {
        proof.len() == self.depth() && climb_path(leaf, proof, self.depth()) == self.root
    }

    /// The state after the leaf proved by `proof` is replaced by the zero leaf.
    pub open spec fn removed(self, proof: Seq<Seq<u8>>, leaf: Seq<u8>) -> MerkleView {
        MerkleView {
            root: climb_path(self.zero_leaf(), proof, self.depth()),
            filled: Seq::new(
                self.depth(),
                |i: int|
                    if climb_path(leaf, proof, i as nat) == self.filled[i] {
                        climb_path(self.zero_leaf(), proof, i as nat)
                    } else {
                        self.filled[i]
                    },
            ),
            zeros: self.zeros,
            next_index: self.next_index,
        }
    }
}

/// A tree of `depth` with no leaves, whose zero leaf is `z`.
pub open spec fn empty_tree(z: Seq<u8>, depth: nat) -> MerkleView {
    MerkleView {
        root: zero_at(z, depth),
        filled: Seq::new(depth, |i: int| zero_at(z, i as nat)),
        zeros: Seq::new(depth, |i: int| zero_at(z, i as nat)),
        next_index: 0,
    }
}

/// The state after appending each of `leaves` in turn.
pub open spec fn insert_all(t: MerkleView, leaves: Seq<Seq<u8>>) -> MerkleView
    decreases leaves.len(),
{
    if leaves.len() == 0 {
        t
    } else {
        insert_all(t, leaves.drop_last()).inserted(leaves.last())
    }
}

proof fn lemma_div_range(x: int, d: int)
    requires
        0 <= x,
        0 < d,
    ensures
        0 <= x / d,
        d * (x / d) <= x < d * (x / d) + d,
{
    lemma_fundamental_div_mod(x, d);
    lemma_mod_pos_bound(x, d);
    lemma_div_pos_is_pos(x, d);
}

proof fn lemma_ancestor_step(p: int, l: nat)
    requires
        0 <= p,
    ensures
        ancestor(p, l + 1) == ancestor(p, l) / 2,
        pow2(l + 1) == 2 * pow2(l),
        pow2(l) > 0,
{
    lemma_pow2_unfold(l + 1);
    lemma_pow2_pos(l);
    lemma_div_denominator(p, pow2(l) as int, 2);
    assert((pow2(l) as int) * 2 == pow2(l + 1) as int);
}

proof fn lemma_ancestor_top(p: int, depth: nat)
    requires
        0 <= p < pow2(depth),
    ensures
        ancestor(p, depth) == 0,
{
    let d = pow2(depth) as int;
    lemma_div_range(p, d);
    let q = p / d;
    lemma_pow2_pos(depth);
    assert(q == 0) by (nonlinear_arith)
        requires
            d > 0,
            0 <= q,
            d * q <= p,
            p < d,
    ;
}

/// Past the last leaf the conceptual tree holds only zero subtrees.
pub proof fn lemma_node_beyond(leaves: Seq<Seq<u8>>, z: Seq<u8>, level: nat, idx: int)
    requires
        idx * pow2(level) >= leaves.len(),
    ensures
        node(leaves, z, level, idx) == zero_at(z, level),
    decreases level,
{
    if level > 0 {
        let l = (level - 1) as nat;
        lemma_ancestor_step(0, l);
        let q = pow2(l) as int;
        assert((2 * idx) * q == idx * pow2(level)) by (nonlinear_arith)
            requires
                pow2(level) == 2 * q,
        ;
        assert((2 * idx + 1) * q >= idx * pow2(level)) by (nonlinear_arith)
            requires
                pow2(level) == 2 * q,
                q > 0,
        ;
        lemma_node_beyond(leaves, z, l, 2 * idx);
        lemma_node_beyond(leaves, z, l, 2 * idx + 1);
    } else {
        assert(pow2(0) == 1) by {
            lemma2_to64();
        }
    }
}

/// A node depends only on the leaves below it.
pub proof fn lemma_node_frame(a: Seq<Seq<u8>>, b: Seq<Seq<u8>>, z: Seq<u8>, level: nat, idx: int)
    requires
        forall|j: int|
            idx * pow2(level) <= j < (idx + 1) * pow2(level) ==> #[trigger] leaf_at(a, z, j)
                == leaf_at(b, z, j),
    ensures
        node(a, z, level, idx) == node(b, z, level, idx),
    decreases level,
{
    if level > 0 {
        let l = (level - 1) as nat;
        lemma_ancestor_step(0, l);
        let q = pow2(l) as int;
        let p = pow2(level) as int;
        let a0 = idx * p;
        let a1 = (2 * idx + 1) * q;
        let a2 = (idx + 1) * p;
        assert((2 * idx) * q == a0 && (2 * idx + 2) * q == a2 && a0 <= a1 <= a2) by (nonlinear_arith)
            requires
                p == 2 * q,
                q > 0,
                a0 == idx * p,
                a1 == (2 * idx + 1) * q,
                a2 == (idx + 1) * p,
        ;
        assert forall|j: int| (2 * idx) * q <= j < (2 * idx + 1) * q implies #[trigger] leaf_at(a, z, j)
            == leaf_at(b, z, j) by {
            assert(a0 <= j < a2);
        }
        assert forall|j: int| (2 * idx + 1) * q <= j < (2 * idx + 1 + 1) * q implies #[trigger] leaf_at(
            a,
            z,
            j,
        ) == leaf_at(b, z, j) by {
            assert(a0 <= j < a2);
        }
        lemma_node_frame(a, b, z, l, 2 * idx);
        lemma_node_frame(a, b, z, l, 2 * idx + 1);
    } else {
        assert(pow2(0) == 1) by {
            lemma2_to64();
        }
        assert(leaf_at(a, z, idx) == leaf_at(b, z, idx));
    }
}

proof fn lemma_node_push(leaves: Seq<Seq<u8>>, z: Seq<u8>, level: nat, idx: int, leaf: Seq<u8>)
    requires
        (idx + 1) * pow2(level) <= leaves.len(),
    ensures
        node(leaves.push(leaf), z, level, idx) == node(leaves, z, level, idx),
{
    assert forall|j: int|
        idx * pow2(level) <= j < (idx + 1) * pow2(level) implies #[trigger] leaf_at(
        leaves.push(leaf),
        z,
        j,
    ) == leaf_at(leaves, z, j) by {}
    lemma_node_frame(leaves.push(leaf), leaves, z, level, idx);
}

proof fn lemma_node_update(
    leaves: Seq<Seq<u8>>,
    z: Seq<u8>,
    level: nat,
    idx: int,
    p: int,
    v: Seq<u8>,
)
    requires
        0 <= p < leaves.len(),
        !(idx * pow2(level) <= p < (idx + 1) * pow2(level)),
    ensures
        node(leaves.update(p, v), z, level, idx) == node(leaves, z, level, idx),
{
    assert forall|j: int|
        idx * pow2(level) <= j < (idx + 1) * pow2(level) implies #[trigger] leaf_at(
        leaves.update(p, v),
        z,
        j,
    ) == leaf_at(leaves, z, j) by {}
    lemma_node_frame(leaves.update(p, v), leaves, z, level, idx);
}

/// On the way up from a leaf appended at `next_index`, each step yields the
/// conceptual node above it in the extended tree.
proof fn lemma_climb(t: MerkleView, leaves: Seq<Seq<u8>>, leaf: Seq<u8>, level: nat)
    requires
        t.represents(leaves),
        t.next_index < t.capacity(),
        level <= t.depth(),
    ensures
        t.climb(leaf, level) == node(
            leaves.push(leaf),
            t.zero_leaf(),
            level,
            ancestor(t.next_index as int, level),
        ),
    decreases level,
{
    let n = t.next_index as int;
    let z = t.zero_leaf();
    let lv = leaves.push(leaf);
    if level == 0 {
        assert(pow2(0) == 1) by {
            lemma2_to64();
        }
        assert(ancestor(n, 0) == n);
    } else {
        let l = (level - 1) as nat;
        lemma_climb(t, leaves, leaf, l);
        let k = ancestor(n, l);
        lemma_ancestor_step(n, l);
        let q = pow2(l) as int;
        lemma_div_range(n, q);
        let below = t.climb(leaf, l);
        assert(below == node(lv, z, l, k));
        if k % 2 == 0 {
            assert(2 * (k / 2) == k);
            assert((k + 1) * q >= n + 1) by (nonlinear_arith)
                requires
                    n < q * k + q,
            ;
            lemma_node_beyond(lv, z, l, k + 1);
            assert(t.zeros[l as int] == zero_at(z, l));
            assert(t.climb(leaf, level) == pair_hash(below, t.zeros[l as int]));
            assert(node(lv, z, level, k / 2) == pair_hash(node(lv, z, l, k), node(lv, z, l, k + 1)));
        } else {
            assert(2 * (k / 2) == k - 1);
            assert(t.filled[l as int] == node(leaves, z, l, k - 1));
            assert(k * q <= leaves.len()) by (nonlinear_arith)
                requires
                    q * k <= n,
                    n == leaves.len(),
            ;
            lemma_node_push(leaves, z, l, k - 1, leaf);
            assert(t.climb(leaf, level) == pair_hash(t.filled[l as int], below));
            assert(node(lv, z, level, k / 2) == pair_hash(node(lv, z, l, k - 1), node(lv, z, l, k)));
        }
    }
}

/// Appending keeps the tree committed to its leaves, now with `leaf` last.
pub proof fn lemma_inserted_represents(t: MerkleView, leaves: Seq<Seq<u8>>, leaf: Seq<u8>)
    requires
        t.represents(leaves),
        t.next_index < t.capacity(),
    ensures
        t.inserted(leaf).represents(leaves.push(leaf)),
{
    let n = t.next_index as int;
    let z = t.zero_leaf();
    let lv = leaves.push(leaf);
    let t2 = t.inserted(leaf);
    lemma_climb(t, leaves, leaf, t.depth());
    lemma_ancestor_top(n, t.depth());
    assert forall|i: int|
        0 <= i < t2.depth() && ancestor(t2.next_index as int, i as nat) % 2 == 1 implies #[trigger] t2.filled[i]
        == node(lv, z, i as nat, ancestor(t2.next_index as int, i as nat) - 1) by {
        let q = pow2(i as nat) as int;
        lemma_pow2_pos(i as nat);
        let k = ancestor(n, i as nat);
        let k2 = ancestor(n + 1, i as nat);
        lemma_div_range(n, q);
        lemma_div_range(n + 1, q);
        assert(k <= k2 <= k + 1) by (nonlinear_arith)
            requires
                q > 0,
                q * k <= n < q * k + q,
                q * k2 <= n + 1 < q * k2 + q,
        ;
        if k2 == k {
            assert(k * q <= leaves.len()) by (nonlinear_arith)
                requires
                    q * k <= n,
                    n == leaves.len(),
            ;
            lemma_node_push(leaves, z, i as nat, k - 1, leaf);
        } else {
            lemma_climb(t, leaves, leaf, i as nat);
        }
    }
}

/// An empty tree commits to no leaves.
pub proof fn lemma_empty_represents(z: Seq<u8>, depth: nat)
    requires
        1 <= depth <= MAX_DEPTH,
    ensures
        empty_tree(z, depth).represents(Seq::empty()),
{
    let t = empty_tree(z, depth);
    assert(t.zero_leaf() == z);
    lemma_node_beyond(Seq::empty(), z, depth, 0);
    lemma_pow2_pos(depth);
    assert forall|i: int| 0 <= i < depth implies #[trigger] ancestor(0, i as nat) == 0 by {
        lemma_pow2_pos(i as nat);
    }
}

/// Appending leaves one at a time to an empty tree gives the root of the
/// whole conceptual tree over those leaves, with the zero leaf everywhere
/// else.
pub proof fn lemma_insert_all_root(z: Seq<u8>, depth: nat, leaves: Seq<Seq<u8>>)
    requires
        1 <= depth <= MAX_DEPTH,
        leaves.len() <= pow2(depth),
    ensures
        insert_all(empty_tree(z, depth), leaves).root == node(leaves, z, depth, 0),
        insert_all(empty_tree(z, depth), leaves).next_index == leaves.len(),
{
    lemma_insert_all_represents(z, depth, leaves);
}

proof fn lemma_insert_all_represents(z: Seq<u8>, depth: nat, leaves: Seq<Seq<u8>>)
    requires
        1 <= depth <= MAX_DEPTH,
        leaves.len() <= pow2(depth),
    ensures
        insert_all(empty_tree(z, depth), leaves).represents(leaves),
        insert_all(empty_tree(z, depth), leaves).zero_leaf() == z,
        insert_all(empty_tree(z, depth), leaves).depth() == depth,
    decreases leaves.len(),
{
    if leaves.len() == 0 {
        lemma_empty_represents(z, depth);
        assert(leaves =~= Seq::empty());
    } else {
        let prefix = leaves.drop_last();
        lemma_insert_all_represents(z, depth, prefix);
        lemma_inserted_represents(insert_all(empty_tree(z, depth), prefix), prefix, leaves.last());
        assert(prefix.push(leaves.last()) =~= leaves);
    }
}

/// Removing the same leaf twice with the same proof: the second removal is
/// accepted exactly when the first one left the root as it was.
pub proof fn lemma_second_removal(t: MerkleView, proof: Seq<Seq<u8>>, leaf: Seq<u8>)
    requires
        t.accepts(proof, leaf),
    ensures
        t.removed(proof, leaf).accepts(proof, leaf) <==> t.removed(proof, leaf).root == t.root,
{
}

/// Once `2^depth` leaves have been appended to an empty tree, the tree is
/// full: no further insertion is accepted.
pub proof fn lemma_full_after_capacity(z: Seq<u8>, depth: nat, leaves: Seq<Seq<u8>>)
    requires
        1 <= depth <= MAX_DEPTH,
        leaves.len() == pow2(depth),
    ensures
        insert_all(empty_tree(z, depth), leaves).next_index >= insert_all(
            empty_tree(z, depth),
            leaves,
        ).capacity(),
{
    lemma_insert_all_represents(z, depth, leaves);
}

/// Climbing from leaf position `p` along its sibling path yields the nodes
/// above `p` in the tree where `p` holds `v`.
proof fn lemma_climb_sibling_path(
    leaves: Seq<Seq<u8>>,
    z: Seq<u8>,
    p: int,
    depth: nat,
    v: Seq<u8>,
    level: nat,
)
    requires
        0 <= p < leaves.len(),
        level <= depth,
    ensures
        climb_path(v, sibling_path(leaves, z, p, depth), level) == node(
            leaves.update(p, v),
            z,
            level,
            ancestor(p, level),
        ),
    decreases level,
{
    let lu = leaves.update(p, v);
    if level == 0 {
        assert(pow2(0) == 1) by {
            lemma2_to64();
        }
    } else {
        let l = (level - 1) as nat;
        lemma_climb_sibling_path(leaves, z, p, depth, v, l);
        let k = ancestor(p, l);
        lemma_ancestor_step(p, l);
        let q = pow2(l) as int;
        lemma_div_range(p, q);
        let below = node(lu, z, l, k);
        let sib = node(leaves, z, l, sibling(k));
        if k % 2 == 0 {
            assert(2 * (k / 2) == k);
            assert(!((k + 1) * q <= p < (k + 2) * q)) by (nonlinear_arith)
                requires
                    p < q * k + q,
            ;
            lemma_node_update(leaves, z, l, k + 1, p, v);
        } else {
            assert(2 * (k / 2) == k - 1);
            assert(!((k - 1) * q <= p < k * q)) by (nonlinear_arith)
                requires
                    q * k <= p,
            ;
            lemma_node_update(leaves, z, l, k - 1, p, v);
            lemma_pair_hash_symmetric(below, sib);
        }
    }
}

/// A leaf that the tree commits to at position `p` is accepted with the
/// sibling path of `p`; removing it leaves the root of the same leaves with
/// the zero leaf at `p`, and `next_index` unchanged.
pub proof fn lemma_remove_committed_leaf(t: MerkleView, leaves: Seq<Seq<u8>>, p: int)
    requires
        t.represents(leaves),
        0 <= p < leaves.len(),
    ensures
        t.accepts(sibling_path(leaves, t.zero_leaf(), p, t.depth()), leaves[p]),
        t.removed(sibling_path(leaves, t.zero_leaf(), p, t.depth()), leaves[p]).root == node(
            leaves.update(p, t.zero_leaf()),
            t.zero_leaf(),
            t.depth(),
            0,
        ),
        t.removed(sibling_path(leaves, t.zero_leaf(), p, t.depth()), leaves[p]).next_index
            == t.next_index,
{
    let z = t.zero_leaf();
    let d = t.depth();
    lemma_ancestor_top(p, d);
    lemma_climb_sibling_path(leaves, z, p, d, leaves[p], d);
    assert(leaves.update(p, leaves[p]) =~= leaves);
    lemma_climb_sibling_path(leaves, z, p, d, z, d);
}

/// No node beside the path of leaf `p` shares the digest of the cached left
/// subtree of its level; removal recognises cached subtrees by digest.
pub open spec fn no_stray_match(t: MerkleView, leaves: Seq<Seq<u8>>, p: int) -> bool {
    forall|i: int|
        0 <= i < t.depth() && ancestor(t.next_index as int, i as nat) % 2 == 1 && ancestor(
            p,
            i as nat,
        ) != ancestor(t.next_index as int, i as nat) - 1 ==> node(
            leaves,
            t.zero_leaf(),
            i as nat,
            ancestor(p, i as nat),
        ) != #[trigger] t.filled[i]
}

/// After a committed leaf is removed the tree commits to the same leaves
/// with the zero leaf at `p`, so later insertions stay correct. Removal
/// recognises a cached left subtree by its digest; this holds unless some
/// node beside the removed leaf's path happens to share the digest of the
/// cached subtree of its level, which `no_stray_match` excludes. The
/// leaves may already hold zero leaves from earlier removals.
pub proof fn lemma_removed_represents(t: MerkleView, leaves: Seq<Seq<u8>>, p: int)
    requires
        t.represents(leaves),
        0 <= p < leaves.len(),
        no_stray_match(t, leaves, p),
    ensures
        t.removed(sibling_path(leaves, t.zero_leaf(), p, t.depth()), leaves[p]).represents(
            leaves.update(p, t.zero_leaf()),
        ),
{
    let z = t.zero_leaf();
    let d = t.depth();
    let n = t.next_index as int;
    let sib = sibling_path(leaves, z, p, d);
    let t2 = t.removed(sib, leaves[p]);
    let lz = leaves.update(p, z);
    lemma_remove_committed_leaf(t, leaves, p);
    assert(leaves.update(p, leaves[p]) =~= leaves);
    assert forall|i: int|
        0 <= i < t2.depth() && ancestor(t2.next_index as int, i as nat) % 2 == 1 implies #[trigger] t2.filled[i]
        == node(lz, z, i as nat, ancestor(t2.next_index as int, i as nat) - 1) by {
        let e = ancestor(n, i as nat) - 1;
        let q = pow2(i as nat) as int;
        lemma_pow2_pos(i as nat);
        lemma_climb_sibling_path(leaves, z, p, d, leaves[p], i as nat);
        lemma_climb_sibling_path(leaves, z, p, d, z, i as nat);
        let a = ancestor(p, i as nat);
        if a != e {
            lemma_div_range(p, q);
            assert(!(e * q <= p < (e + 1) * q)) by {
                if e * q <= p < (e + 1) * q {
                    assert(a == e) by (nonlinear_arith)
                        requires
                            q > 0,
                            q * a <= p < q * a + q,
                            e * q <= p < (e + 1) * q,
                    ;
                }
            }
            lemma_node_update(leaves, z, i as nat, e, p, z);
        }
    }
}

/// The byte strings of a sequence of digests.
pub open spec fn hashes(v: Seq<crate::hash::Hash>) -> Seq<Seq<u8>> {
    v.map_values(|h: crate::hash::Hash| h@)
}

/// An incremental Merkle tree of fixed depth that keeps only its root, the
/// last left node of each level, and the roots of all-zero subtrees.
pub struct MerkleTree {
    pub root: crate::hash::Hash,
    pub filled_subtrees: Vec<crate::hash::Hash>,
    pub zero_values: Vec<crate::hash::Hash>,
    pub next_index: u64,
}

impl View for MerkleTree {
    type V = MerkleView;

    open spec fn view(&self) -> MerkleView {
        MerkleView {
            root: self.root@,
            filled: hashes(self.filled_subtrees@),
            zeros: hashes(self.zero_values@),
            next_index: self.next_index as nat,
        }
    }
}

/// `2^depth`, the number of leaves of a tree of that depth.
pub fn capacity_of(depth: usize) -> (r: u64)
    requires
        depth <= MAX_DEPTH,
    ensures
        r == pow2(depth as nat),
{
    proof {
        lemma2_to64();
    }
    let mut c: u64 = 1;
    let mut i: usize = 0;
    while i < depth
        invariant
            i <= depth <= MAX_DEPTH,
            c == pow2(i as nat),
        decreases depth - i,
    {
        proof {
            lemma_pow2_unfold((i + 1) as nat);
            if i + 1 < 63 {
                lemma_pow2_strictly_increases((i + 1) as nat, 63);
            }
            lemma2_to64_rest();
        }
        c = c * 2;
        i = i + 1;
    }
    c
}

impl MerkleTree {
    /// An empty tree of `depth` whose zero leaf is the digest of `seed`.
    pub fn new(seed: &[u8], depth: usize) -> (r: MerkleTree)
        requires
            1 <= depth <= MAX_DEPTH,
        ensures
            r@ == empty_tree(crate::hash::sha256_of(seed@), depth as nat),
            r@.wf(),
    {
        let z = crate::hash::Hash::new(seed);
        let mut zeros: Vec<crate::hash::Hash> = Vec::new();
        let mut filled: Vec<crate::hash::Hash> = Vec::new();
        let mut cur = z;
        let mut i: usize = 0;
        while i < depth
            invariant
                i <= depth,
                zeros.len() == i,
                filled.len() == i,
                cur@ == zero_at(z@, i as nat),
                forall|j: int| 0 <= j < i ==> #[trigger] zeros@[j]@ == zero_at(z@, j as nat),
                forall|j: int| 0 <= j < i ==> #[trigger] filled@[j]@ == zero_at(z@, j as nat),
            decreases depth - i,
        {
            zeros.push(cur);
            filled.push(cur);
            cur = hash_pair(&cur, &cur);
            i = i + 1;
        }
        let r = MerkleTree { root: cur, filled_subtrees: filled, zero_values: zeros, next_index: 0 };
        assert(r@.zeros =~= empty_tree(z@, depth as nat).zeros);
        assert(r@.filled =~= empty_tree(z@, depth as nat).filled);
        proof {
            lemma_pow2_pos(depth as nat);
        }
        r
    }

    /// The current root.
    pub fn get_root(&self) -> (r: crate::hash::Hash)
        ensures
            r@ == self@.root,
    {
        self.root
    }

    /// The number of levels below the root.
    pub fn get_depth(&self) -> (r: usize)
        ensures
            r == self@.depth(),
    {
        self.zero_values.len()
    }

    /// Appends `leaf` at the next free position and returns that position;
    /// fails with `TreeFull` once all `2^depth` positions have been used.
    pub fn try_insert(&mut self, leaf: crate::hash::Hash) -> (r: Result<u64, StorageError>)
        requires
            old(self)@.wf(),
        ensures
            final(self)@.wf(),
            match r {
                Ok(i) => {
                    &&& old(self)@.next_index < old(self)@.capacity()
                    &&& i == old(self)@.next_index
                    &&& final(self)@ == old(self)@.inserted(leaf@)
                    &&& forall|l: Seq<Seq<u8>>|
                        #[trigger] old(self)@.represents(l) ==> final(self)@.represents(
                            l.push(leaf@),
                        )
                },
                Err(e) => {
                    &&& old(self)@.next_index >= old(self)@.capacity()
                    &&& e == StorageError::TreeFull
                    &&& final(self)@ == old(self)@
                },
            },
    {
        let depth = self.zero_values.len();
        let n = self.next_index;
        let cap = capacity_of(depth);
        if n >= cap {
            return Err(StorageError::TreeFull);
        }
        let ghost t = self@;
        proof {
            lemma2_to64();
        }
        let mut current_index: u64 = n;
        let mut cur = leaf;
        let mut i: usize = 0;
        while i < depth
            invariant
                i <= depth,
                depth == t.depth(),
                t.wf(),
                n == t.next_index,
                current_index == ancestor(n as int, i as nat),
                cur@ == t.climb(leaf@, i as nat),
                self.zero_values@ == old(self).zero_values@,
                self@.zeros == t.zeros,
                self@.root == t.root,
                self.next_index == n,
                self.filled_subtrees.len() == depth,
                forall|j: int|
                    0 <= j < i ==> #[trigger] self.filled_subtrees@[j]@ == t.inserted(leaf@).filled[j],
                forall|j: int| i <= j < depth ==> #[trigger] self.filled_subtrees@[j]@ == t.filled[j],
            decreases depth - i,
        {
            proof {
                lemma_ancestor_step(n as int, i as nat);
            }
            let ghost below = cur@;
            assert(t.climb(leaf@, (i + 1) as nat) == if ancestor(n as int, i as nat) % 2 == 0 {
                pair_hash(below, t.zeros[i as int])
            } else {
                pair_hash(t.filled[i as int], below)
            });
            if current_index % 2 == 0 {
                let zv = self.zero_values[i];
                assert(zv@ == t.zeros[i as int]);
                self.filled_subtrees[i] = cur;
                cur = hash_pair(&cur, &zv);
            } else {
                let f = self.filled_subtrees[i];
                assert(f@ == t.filled[i as int]);
                cur = hash_pair(&f, &cur);
            }
            current_index = current_index / 2;
            i = i + 1;
        }
        self.root = cur;
        self.next_index = n + 1;
        assert(self@.filled =~= t.inserted(leaf@).filled);
        assert forall|l: Seq<Seq<u8>>| #[trigger] t.represents(l) implies self@.represents(
            l.push(leaf@),
        ) by {
            lemma_inserted_represents(t, l, leaf@);
        }
        Ok(n)
    }

    /// The sibling path of position `index` in the conceptual tree over
    /// `leaves`, with the zero leaf past their end.
    pub fn get_merkle_proof(&self, leaves: &[crate::hash::Hash], index: u64) -> (r: Vec<crate::hash::Hash>)
        requires
            self@.wf(),
            leaves@.len() <= self@.capacity(),
            index < self@.capacity(),
        ensures
            hashes(r@) == sibling_path(hashes(leaves@), self@.zero_leaf(), index as int, self@.depth()),
    {
        let depth = self.zero_values.len();
        let ghost lv = hashes(leaves@);
        let ghost z = self@.zero_leaf();
        let ghost t = self@;
        let mut layer: Vec<crate::hash::Hash> = Vec::new();
        let mut j: usize = 0;
        while j < leaves.len()
            invariant
                lv == hashes(leaves@),
                j <= leaves.len(),
                layer.len() == j,
                forall|m: int| 0 <= m < j ==> #[trigger] layer@[m]@ == node(lv, z, 0, m),
            decreases leaves.len() - j,
        {
            assert(lv[j as int] == leaves@[j as int]@);
            layer.push(leaves[j]);
            j = j + 1;
        }
        proof {
            lemma2_to64();
        }
        let mut idx: u64 = index;
        let mut path: Vec<crate::hash::Hash> = Vec::new();
        let mut level: usize = 0;
        while level < depth
            invariant
                t == self@,
                t.wf(),
                lv == hashes(leaves@),
                depth == t.depth(),
                z == t.zero_leaf(),
                level <= depth,
                index < t.capacity(),
                idx == ancestor(index as int, level as nat),
                idx <= index,
                path.len() == level,
                forall|m: int|
                    0 <= m < level ==> #[trigger] path@[m]@ == sibling_path(lv, z, index as int, depth as nat)[m],
                forall|m: int| 0 <= m < layer.len() ==> #[trigger] layer@[m]@ == node(lv, z, level as nat, m),
                layer.len() * pow2(level as nat) >= lv.len(),
                layer.len() <= leaves.len(),
            decreases depth - level,
        {
            proof {
                lemma_ancestor_step(index as int, level as nat);
                lemma_div_range(index as int, pow2(level as nat) as int);
            }
            let sib: u64 = if idx % 2 == 0 { idx + 1 } else { idx - 1 };
            let s = if sib < layer.len() as u64 {
                layer[sib as usize]
            } else {
                proof {
                    assert(sib * pow2(level as nat) >= layer.len() * pow2(level as nat)) by (nonlinear_arith)
                        requires sib >= layer.len();
                    lemma_node_beyond(lv, z, level as nat, sib as int);
                    assert(hashes(self.zero_values@)[level as int] == zero_at(z, level as nat));
                }
                self.zero_values[level]
            };
            assert(sib as int == sibling(ancestor(index as int, level as nat)));
            assert(s@ == sibling_path(lv, z, index as int, depth as nat)[level as int]);
            path.push(s);
            let half = layer.len() / 2 + layer.len() % 2;
            let mut next: Vec<crate::hash::Hash> = Vec::new();
            let mut k: usize = 0;
            while k < half
                invariant
                    t == self@,
                    t.wf(),
                    lv == hashes(leaves@),
                    depth == t.depth(),
                    z == t.zero_leaf(),
                    level < depth,
                    half == layer.len() / 2 + layer.len() % 2,
                    k <= half,
                    next.len() == k,
                    forall|m: int| 0 <= m < layer.len() ==> #[trigger] layer@[m]@ == node(lv, z, level as nat, m),
                    layer.len() * pow2(level as nat) >= lv.len(),
                    forall|m: int| 0 <= m < k ==> #[trigger] next@[m]@ == node(lv, z, (level + 1) as nat, m),
                decreases half - k,
            {
                let left = layer[2 * k];
                let right = if 2 * k + 1 < layer.len() {
                    layer[2 * k + 1]
                } else {
                    proof {
                        assert((2 * k + 1) * pow2(level as nat) >= layer.len() * pow2(level as nat)) by (nonlinear_arith)
                            requires 2 * k + 1 >= layer.len();
                        lemma_node_beyond(lv, z, level as nat, 2 * k + 1);
                        assert(hashes(self.zero_values@)[level as int] == zero_at(z, level as nat));
                    }
                    self.zero_values[level]
                };
                assert(right@ == node(lv, z, level as nat, 2 * k + 1));
                assert(left@ == node(lv, z, level as nat, 2 * k));
                assert(node(lv, z, (level + 1) as nat, k as int) == pair_hash(
                    node(lv, z, level as nat, 2 * k),
                    node(lv, z, level as nat, 2 * k + 1),
                ));
                next.push(hash_pair(&left, &right));
                k = k + 1;
            }
            proof {
                lemma_ancestor_step(0, level as nat);
                let q = pow2(level as nat) as int;
                let ll = layer.len() as int;
                assert(half * pow2((level + 1) as nat) >= lv.len()) by (nonlinear_arith)
                    requires
                        pow2((level + 1) as nat) == 2 * q,
                        ll * q >= lv.len(),
                        2 * half >= ll,
                        q > 0;
            }
            layer = next;
            idx = idx / 2;
            level = level + 1;
        }
        assert(hashes(path@) =~= sibling_path(lv, z, index as int, depth as nat));
        path
    }

    /// Whether `proof` leads from `leaf` to the current root.
    pub fn contains(&self, proof: &[crate::hash::Hash], leaf: crate::hash::Hash) -> (r: bool)
        requires
            self@.wf(),
        ensures
            r == self@.accepts(hashes(proof@), leaf@),
    {
        let depth = self.zero_values.len();
        if proof.len() != depth {
            return false;
        }
        let ghost pv = hashes(proof@);
        let mut cur = leaf;
        let mut i: usize = 0;
        while i < depth
            invariant
                depth == self@.depth(),
                proof.len() == depth,
                pv == hashes(proof@),
                i <= depth,
                cur@ == climb_path(leaf@, pv, i as nat),
            decreases depth - i,
        {
            cur = hash_pair(&cur, &proof[i]);
            i = i + 1;
        }
        cur.same_as(&self.root)
    }

    /// Removes the leaf that `proof` proves, replacing it by the zero leaf;
    /// fails with `ProofMismatch`, changing nothing, unless `proof` leads from
    /// `leaf` to the current root. Positions are never reused.
    pub fn try_remove(&mut self, proof: &[crate::hash::Hash], leaf: crate::hash::Hash) -> (r: Result<(), StorageError>)
        requires
            old(self)@.wf(),
        ensures
            final(self)@.wf(),
            match r {
                Ok(()) => {
                    &&& old(self)@.accepts(hashes(proof@), leaf@)
                    &&& final(self)@ == old(self)@.removed(hashes(proof@), leaf@)
                },
                Err(e) => {
                    &&& !old(self)@.accepts(hashes(proof@), leaf@)
                    &&& e == StorageError::ProofMismatch
                    &&& final(self)@ == old(self)@
                },
            },
            forall|leaves: Seq<Seq<u8>>, p: int|
                #![trigger old(self)@.represents(leaves), sibling_path(leaves, old(self)@.zero_leaf(), p, old(self)@.depth())]
                old(self)@.represents(leaves) && 0 <= p < leaves.len() && hashes(proof@)
                    == sibling_path(leaves, old(self)@.zero_leaf(), p, old(self)@.depth())
                    && leaf@ == leaves[p] ==> {
                    &&& r is Ok
                    &&& final(self)@.root == node(
                        leaves.update(p, old(self)@.zero_leaf()),
                        old(self)@.zero_leaf(),
                        old(self)@.depth(),
                        0,
                    )
                    &&& final(self)@.next_index == old(self)@.next_index
                    &&& no_stray_match(old(self)@, leaves, p) ==> final(self)@.represents(
                        leaves.update(p, old(self)@.zero_leaf()),
                    )
                },
    {
        proof {
            let t0 = self@;
            assert forall|leaves: Seq<Seq<u8>>, p: int|
                #![trigger t0.represents(leaves), sibling_path(leaves, t0.zero_leaf(), p, t0.depth())]
                t0.represents(leaves) && 0 <= p < leaves.len() && hashes(proof@) == sibling_path(
                    leaves,
                    t0.zero_leaf(),
                    p,
                    t0.depth(),
                ) && leaf@ == leaves[p] implies {
                &&& t0.accepts(hashes(proof@), leaf@)
                &&& t0.removed(hashes(proof@), leaf@).root == node(
                    leaves.update(p, t0.zero_leaf()),
                    t0.zero_leaf(),
                    t0.depth(),
                    0,
                )
                &&& no_stray_match(t0, leaves, p) ==> t0.removed(hashes(proof@), leaf@).represents(
                    leaves.update(p, t0.zero_leaf()),
                )
            } by {
                lemma_remove_committed_leaf(t0, leaves, p);
                if no_stray_match(t0, leaves, p) {
                    lemma_removed_represents(t0, leaves, p);
                }
            }
        }
        let depth = self.zero_values.len();
        if proof.len() != depth {
            return Err(StorageError::ProofMismatch);
        }
        let ghost t = self@;
        let ghost pv = hashes(proof@);
        let z = self.zero_values[0];
        let mut cur_old = leaf;
        let mut cur_new = z;
        let mut new_filled: Vec<crate::hash::Hash> = Vec::new();
        let mut i: usize = 0;
        while i < depth
            invariant
                t == self@,
                t.wf(),
                depth == t.depth(),
                proof.len() == depth,
                pv == hashes(proof@),
                z@ == t.zero_leaf(),
                i <= depth,
                cur_old@ == climb_path(leaf@, pv, i as nat),
                cur_new@ == climb_path(z@, pv, i as nat),
                new_filled.len() == i,
                forall|j: int| 0 <= j < i ==> #[trigger] new_filled@[j]@ == t.removed(pv, leaf@).filled[j],
            decreases depth - i,
        {
            let f = self.filled_subtrees[i];
            if cur_old.same_as(&f) {
                new_filled.push(cur_new);
            } else {
                new_filled.push(f);
            }
            cur_old = hash_pair(&cur_old, &proof[i]);
            cur_new = hash_pair(&cur_new, &proof[i]);
            i = i + 1;
        }
        if !cur_old.same_as(&self.root) {
            return Err(StorageError::ProofMismatch);
        }
        self.filled_subtrees = new_filled;
        self.root = cur_new;
        assert(self@.filled =~= t.removed(pv, leaf@).filled);
        Ok(())
    }
}

} // verus!
