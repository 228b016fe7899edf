//! Merkle tree construction over canonicalized build operations.
//!
//! Each leaf is the hash of a distinct canonical operation. Internal nodes
//! are derived, so attestations persist only the sorted leaf set.

use crate::digest;
use crate::digest::hash_bytes;
use crate::operation;
use crate::operation::CanonicalOp;
use crate::order;
use crate::order::sort_set;
use crate::text;
use crate::text::{rank_text, Rank};
use vstd::prelude::*;
use vstd::string::*;
use vstd::utf8::*;

verus! {

/// A complete Merkle tree over build operations.
#[derive(Debug, Clone)]
pub struct MerkleTree {
    /// Sorted hashes of distinct canonical operations.
    pub leaves: Vec<String>,
    /// Tree nodes of old attestations, from which their leaves are recovered;
    /// new ones omit them because internal nodes are derivable.
    pub nodes: Vec<MerkleNode>,
    /// Number of leaf nodes (= number of canonical operations).
    pub leaf_count: usize,
}

#[derive(Debug, Clone)]
pub struct MerkleNode {
    pub hash: String,
    pub is_leaf: bool,
}

pub struct LeafSetDiff {
    pub missing: Vec<String>,
    pub added: Vec<String>,
}

// ---------------------------------------------------------------------------
// The root of a list of leaves
// ---------------------------------------------------------------------------

/// The parent of two nodes: the hash of their texts, one behind the other.
pub open spec fn parent(left: Seq<char>, right: Seq<char>) -> Seq<char> {
    digest::hash_text(encode_utf8(left) + encode_utf8(right))
}

/// The leaf that fills a tree up to a power of two.
pub open spec fn padding_leaf() -> Seq<char> {
    parent("padding"@, "padding"@)
}

/// `n` is a power of two.
pub open spec fn is_power_of_two(n: nat) -> bool
    decreases n,
{
    n == 1 || (n > 1 && n % 2 == 0 && is_power_of_two(n / 2))
}

/// The least power of two that is at least `n`.
pub open spec fn next_power_of_two(n: nat) -> nat
    decreases n,
{
    if n <= 1 {
        1
    } else {
        2 * next_power_of_two((n + 1) / 2)
    }
}

/// `level` filled up with `pad` to `n` nodes.
pub open spec fn padded(level: Seq<Seq<char>>, n: nat, pad: Seq<char>) -> Seq<Seq<char>> {
    Seq::new(n, |i: int| if i < level.len() { level[i] } else { pad })
}

/// The parents of a level with an even number of nodes.
pub open spec fn parents(level: Seq<Seq<char>>) -> Seq<Seq<char>> {
    Seq::new(level.len() / 2, |i: int| parent(level[2 * i], level[2 * i + 1]))
}

/// The single node left after pairing up a level again and again.
pub open spec fn apex(level: Seq<Seq<char>>) -> Seq<char>
    decreases level.len(),
{
    if level.len() <= 1 {
        level[0]
    } else {
        apex(parents(level))
    }
}

/// The Merkle root of a list of leaves, padded to a power of two.
pub open spec fn merkle_root(leaves: Seq<Seq<char>>) -> Seq<char> {
    if leaves.len() == 0 {
        parent("empty"@, "empty"@)
    } else {
        apex(padded(leaves, next_power_of_two(leaves.len()), padding_leaf()))
    }
}

proof fn lemma_next_power_of_two(n: nat)
    requires
        n >= 1,
    ensures
        is_power_of_two(next_power_of_two(n)),
        next_power_of_two(n) >= n,
        next_power_of_two(n) < 2 * n,
    decreases n,
{
    if n > 1 {
        let m = next_power_of_two((n + 1) / 2);
        lemma_next_power_of_two((n + 1) / 2);
        assert((2 * m) / 2 == m);
    }
}

proof fn lemma_halving(level: Seq<Seq<char>>, half: Seq<Seq<char>>, n: nat, pad: Seq<char>)
    requires
        n % 2 == 0,
        level.len() <= n,
        half.len() == level.len() / 2 + level.len() % 2,
        forall|i: int|
            0 <= i < half.len() ==> #[trigger] half[i] == parent(
                level[2 * i],
                if 2 * i + 1 < level.len() { level[2 * i + 1] } else { pad },
            ),
    ensures
        parents(padded(level, n, pad)) == padded(half, n / 2, parent(pad, pad)),
{
    let p = parents(padded(level, n, pad));
    let q = padded(half, n / 2, parent(pad, pad));
    assert forall|i: int| 0 <= i < n / 2 implies p[i] == q[i] by {
        let l = padded(level, n, pad);
        assert(p[i] == parent(l[2 * i], l[2 * i + 1]));
    }
    assert(p == q);
}

/// Hashes two child hashes together to form a parent hash.
fn hash_pair(left: &str, right: &str) -> (hash: String)
    ensures
        hash@ == parent(left@, right@),
{
    let mut buf: Vec<u8> = Vec::new();
    buf.extend_from_slice(left.as_bytes());
    buf.extend_from_slice(right.as_bytes());
    assert(buf@ == encode_utf8(left@) + encode_utf8(right@));
    hash_bytes(buf.as_slice())
}

/// Derives the root from the leaves. Padding is added level by level: a
/// subtree of padding alone is represented by its root.
pub fn root_from_leaves(leaves: &Vec<String>) -> (root: String)
    ensures
        root@ == merkle_root(text::texts(leaves@)),
{
    if leaves.len() == 0 {
        return hash_pair("empty", "empty");
    }
    let mut level: Vec<String> = leaves.clone();
    let mut pad = hash_pair("padding", "padding");
    let ghost mut n: nat = next_power_of_two(leaves@.len());
    proof {
        lemma_next_power_of_two(leaves@.len());
        assert(text::texts(level@) == text::texts(leaves@));
    }
    while level.len() > 1
        invariant
            is_power_of_two(n),
            1 <= level@.len() <= n,
            level@.len() == 1 ==> n == 1,
            n > 1 ==> n < 2 * level@.len(),
            apex(padded(text::texts(level@), n, pad@)) == merkle_root(text::texts(leaves@)),
        decreases level@.len(),
    {
        let mut half: Vec<String> = Vec::new();
        let mut i: usize = 0;
        let pairs = level.len() / 2;
        while i < pairs
            invariant
                pairs == level.len() / 2,
                i <= pairs,
                half@.len() == i,
                forall|k: int|
                    0 <= k < i ==> (#[trigger] half[k])@ == parent(level[2 * k]@, level[2 * k + 1]@),
            decreases pairs - i,
        {
            half.push(hash_pair(level[2 * i].as_str(), level[2 * i + 1].as_str()));
            i = i + 1;
        }
        if level.len() % 2 == 1 {
            half.push(hash_pair(level[level.len() - 1].as_str(), pad.as_str()));
        }
        proof {
            lemma_halving(text::texts(level@), text::texts(half@), n, pad@);
            assert(padded(text::texts(level@), n, pad@).len() > 1);
            n = n / 2;
        }
        pad = hash_pair(pad.as_str(), pad.as_str());
        level = half;
    }
    proof {
        assert(padded(text::texts(level@), n, pad@)[0] == level[0]@);
    }
    level[0].clone()
}

// ---------------------------------------------------------------------------
// Trees
// ---------------------------------------------------------------------------

impl MerkleTree {
    /// The hashes of the stored nodes.
    pub open spec fn node_hashes(&self) -> Seq<Seq<char>> {
        Seq::new(self.nodes@.len(), |i: int| self.nodes@[i].hash@)
    }

    /// The leaf hashes: those stored as leaves, or else the first `leaf_count`
    /// nodes of the bottom level of the stored tree.
    pub open spec fn leaf_texts(&self) -> Seq<Seq<char>> {
        if self.leaves@.len() > 0 || self.leaf_count == 0 {
            text::texts(self.leaves@)
        } else {
            let padded_count = (self.nodes@.len() + 1) / 2;
            let first = if padded_count > 0 { padded_count - 1 } else { 0 };
            let rest = self.node_hashes().skip(first as int);
            if rest.len() <= self.leaf_count {
                rest
            } else {
                rest.take(self.leaf_count as int)
            }
        }
    }

    /// The root: always that of the leaves, whatever nodes are stored.
    pub open spec fn root_text(&self) -> Seq<char> {
        merkle_root(self.leaf_texts())
    }

    /// Derives the root from the leaves.
    pub fn root_hash(&self) -> (root: String)
        ensures
            root@ == self.root_text(),
    {
        let leaves = self.leaf_hashes();
        root_from_leaves(&leaves)
    }

    pub fn leaf_hashes(&self) -> (leaves: Vec<String>)
        ensures
            text::texts(leaves@) == self.leaf_texts(),
    {
        if self.leaves.len() > 0 || self.leaf_count == 0 {
            let leaves = self.leaves.clone();
            assert(text::texts(leaves@) == text::texts(self.leaves@));
            return leaves;
        }
        let padded_leaf_count = self.nodes.len() / 2 + self.nodes.len() % 2;
        let first_leaf = if padded_leaf_count > 0 {
            padded_leaf_count - 1
        } else {
            0
        };
        let available = self.nodes.len() - first_leaf;
        let count = if available <= self.leaf_count {
            available
        } else {
            self.leaf_count
        };
        let mut leaves: Vec<String> = Vec::new();
        let mut i: usize = 0;
        while i < count
            invariant
                i <= count,
                first_leaf + count <= self.nodes.len(),
                leaves@.len() == i,
                forall|k: int|
                    0 <= k < i ==> (#[trigger] leaves[k])@ == self.nodes@[first_leaf + k].hash@,
            decreases count - i,
        {
            leaves.push(self.nodes[first_leaf + i].hash.clone());
            i = i + 1;
        }
        assert(text::texts(leaves@) == self.leaf_texts());
        leaves
    }
}

/// Builds a Merkle tree from a sequence of canonical operations.
pub fn build_merkle_tree(ops: &[CanonicalOp]) -> (tree: MerkleTree)
    ensures
        text::texts(tree.leaves@) == operation::op_hashes(operation::op_views(ops@)),
        tree.nodes@.len() == 0,
        tree.leaf_count == ops@.len(),
        tree.leaf_texts() == operation::op_hashes(operation::op_views(ops@)),
        tree.root_text() == merkle_root(operation::op_hashes(operation::op_views(ops@))),
{
    let mut leaves: Vec<String> = Vec::new();
    for i in 0..ops.len()
        invariant
            leaves@.len() == i,
            forall|k: int| 0 <= k < i ==> (#[trigger] leaves[k])@ == ops[k]@.hash(),
    {
        leaves.push(ops[i].hash());
    }
    assert(text::texts(leaves@) == operation::op_hashes(operation::op_views(ops@)));
    let leaf_count = leaves.len();
    MerkleTree { leaves, nodes: Vec::new(), leaf_count }
}

// ---------------------------------------------------------------------------
// Differences
// ---------------------------------------------------------------------------

/// The strings of the sorted list `a` that `b` lacks.
pub open spec fn difference(a: Seq<Seq<char>>, b: Seq<Seq<char>>) -> Seq<Seq<char>> {
    a.filter(|t: Seq<char>| !b.contains(t))
}

proof fn lemma_not_in_skipped(b: Seq<Seq<char>>, t: Seq<char>, j: int)
    requires
        order::strictly_ascending_texts(b),
        0 <= j <= b.len(),
        forall|k: int| 0 <= k < j ==> text::text_lt(#[trigger] b[k], t),
        j < b.len() ==> text::text_lt(t, b[j]),
    ensures
        !b.contains(t),
{
    if b.contains(t) {
        let k = choose|k: int| 0 <= k < b.len() && b[k] == t;
        text::lemma_text_lt_irreflexive(t);
        if k > j {
            assert(text::text_lt(b[j], b[k]));
            text::lemma_text_lt_transitive(t, b[j], t);
        }
    }
}

/// Walks two sorted sets in step and collects what only the first holds.
pub fn sorted_difference(a: &Vec<String>, b: &Vec<String>) -> (only_a: Vec<String>)
    requires
        order::strictly_ascending_texts(text::texts(a@)),
        order::strictly_ascending_texts(text::texts(b@)),
    ensures
        text::texts(only_a@) == difference(text::texts(a@), text::texts(b@)),
{
    let ghost ta = text::texts(a@);
    let ghost tb = text::texts(b@);
    let ghost keep = |t: Seq<char>| !tb.contains(t);
    let mut only_a: Vec<String> = Vec::new();
    let mut i: usize = 0;
    let mut j: usize = 0;
    proof {
        reveal(Seq::filter);
        assert(text::texts(only_a@) == ta.take(0).filter(keep));
    }
    while i < a.len()
        invariant
            ta == text::texts(a@),
            tb == text::texts(b@),
            keep == |t: Seq<char>| !tb.contains(t),
            order::strictly_ascending_texts(ta),
            order::strictly_ascending_texts(tb),
            i <= a@.len(),
            j <= b@.len(),
            forall|k: int, m: int|
                0 <= k < j && i <= m < a@.len() ==> text::text_lt(#[trigger] tb[k], #[trigger] ta[m]),
            text::texts(only_a@) == ta.take(i as int).filter(keep),
        decreases a@.len() - i + b@.len() - j,
    {
        let ghost here = ta[i as int];
        let rank = if j < b.len() {
            rank_text(a[i].as_str(), b[j].as_str())
        } else {
            Rank::Before
        };
        match rank {
            Rank::After => {
                proof {
                    assert forall|m: int| i <= m < a@.len() implies text::text_lt(
                        tb[j as int],
                        #[trigger] ta[m],
                    ) by {
                        assert(text::text_lt(tb[j as int], here));
                        if m > i {
                            assert(text::text_lt(ta[i as int], ta[m]));
                            text::lemma_text_lt_transitive(tb[j as int], here, ta[m]);
                        }
                    }
                }
                j = j + 1;
            },
            Rank::Same => {
                proof {
                    assert(tb[j as int] == here);
                    assert(tb.contains(here));
                    lemma_filter_step(ta, i as int, keep);
                }
                i = i + 1;
            },
            Rank::Before => {
                proof {
                    assert forall|k: int| 0 <= k < j implies text::text_lt(
                        #[trigger] tb[k],
                        here,
                    ) by {
                        assert(text::text_lt(tb[k], ta[i as int]));
                    }
                    lemma_not_in_skipped(tb, here, j as int);
                    lemma_filter_step(ta, i as int, keep);
                }
                let ghost before = only_a@;
                only_a.push(a[i].clone());
                assert(text::texts(only_a@) == text::texts(before).push(here));
                i = i + 1;
            },
        }
    }
    assert(ta.take(ta.len() as int) == ta);
    only_a
}

proof fn lemma_filter_step(s: Seq<Seq<char>>, i: int, keep: spec_fn(Seq<char>) -> bool)
    requires
        0 <= i < s.len(),
    ensures
        s.take(i + 1).filter(keep) == if keep(s[i]) {
            s.take(i).filter(keep).push(s[i])
        } else {
            s.take(i).filter(keep)
        },
{
    reveal(Seq::filter);
    assert(s.take(i + 1).drop_last() == s.take(i));
}

/// Compares the leaf sets of two trees.
pub fn diff_leaf_sets(expected: &MerkleTree, actual: &MerkleTree) -> (diff: LeafSetDiff)
    ensures
        text::texts(diff.missing@) == difference(
            order::sorted_set(expected.leaf_texts()),
            order::sorted_set(actual.leaf_texts()),
        ),
        text::texts(diff.added@) == difference(
            order::sorted_set(actual.leaf_texts()),
            order::sorted_set(expected.leaf_texts()),
        ),
{
    let expected_set = sort_set(&expected.leaf_hashes());
    let actual_set = sort_set(&actual.leaf_hashes());
    proof {
        order::law_sorted_set(expected.leaf_texts());
        order::law_sorted_set(actual.leaf_texts());
    }
    LeafSetDiff {
        missing: sorted_difference(&expected_set, &actual_set),
        added: sorted_difference(&actual_set, &expected_set),
    }
}

// ---------------------------------------------------------------------------
// Laws
// ---------------------------------------------------------------------------

/// Every string takes as many bytes as a textual digest.
pub open spec fn digest_sized(s: Seq<Seq<char>>) -> bool {
    forall|i: int| 0 <= i < s.len() ==> digest::digest_sized(#[trigger] s[i])
}

/// The bytes that the hash of a pair of nodes is taken of.
pub open spec fn pair_bytes(left: Seq<char>, right: Seq<char>) -> Seq<u8> {
    encode_utf8(left) + encode_utf8(right)
}

/// Whether bytes are those of a pair of neighbours on a level.
pub open spec fn is_pair_of(level: Seq<Seq<char>>, bytes: Seq<u8>) -> bool {
    exists|i: int|
        0 <= i < level.len() / 2 && bytes == pair_bytes(
            #[trigger] level[2 * i],
            level[2 * i + 1],
        )
}

/// Everything that is hashed on the way from a level to its apex.
pub open spec fn hashed_above(level: Seq<Seq<char>>) -> Set<Seq<u8>>
    decreases level.len(),
{
    if level.len() <= 1 {
        Set::empty()
    } else {
        Set::new(|bytes: Seq<u8>| is_pair_of(level, bytes)).union(hashed_above(parents(level)))
    }
}

/// Everything that is hashed on the way from leaves to their root.
pub open spec fn hashed_for(leaves: Seq<Seq<char>>) -> Set<Seq<u8>> {
    if leaves.len() == 0 {
        set![pair_bytes("empty"@, "empty"@)]
    } else {
        hashed_above(padded(leaves, next_power_of_two(leaves.len()), padding_leaf())).insert(
            pair_bytes("padding"@, "padding"@),
        )
    }
}

/// A SHA-256 collision between inputs of two computations.
pub open spec fn collision_between(x: Set<Seq<u8>>, y: Set<Seq<u8>>) -> bool {
    exists|p: Seq<u8>, q: Seq<u8>|
        #[trigger] x.contains(p) && #[trigger] y.contains(q) && digest::collide(p, q)
}

proof fn lemma_hex_is_ascii(bytes: Seq<u8>)
    ensures
        is_ascii_chars(text::hex_text(bytes)),
    decreases bytes.len(),
{
    if bytes.len() > 0 {
        lemma_hex_is_ascii(bytes.drop_last());
    }
}

/// A textual digest is 71 bytes long and begins with `sha256`.
pub proof fn lemma_digest_size(data: Seq<u8>)
    ensures
        is_ascii_chars(digest::hash_text(data)),
        encode_utf8(digest::hash_text(data)).len() == 71,
        encode_utf8(digest::hash_text(data))[0] == 's' as u8,
        encode_utf8(digest::hash_text(data))[1] == 'h' as u8,
{
    let p = "sha256:"@;
    reveal_strlit("sha256:");
    let h = text::hex_text(digest::sha256_digest(data)@);
    lemma_hex_is_ascii(digest::sha256_digest(data)@);
    text::lemma_hex_len(digest::sha256_digest(data)@);
    assert(is_ascii_chars(p));
    assert(is_ascii_chars(p + h));
    is_ascii_chars_encode_utf8(p + h);
    assert((p + h)[0] == 's');
    assert((p + h)[1] == 'h');
}

proof fn lemma_parent_binds(a: Seq<char>, b: Seq<char>, c: Seq<char>, d: Seq<char>)
    requires
        parent(a, b) == parent(c, d),
        encode_utf8(a).len() == encode_utf8(c).len(),
    ensures
        (a == c && b == d) || digest::collide(pair_bytes(a, b), pair_bytes(c, d)),
{
    let x = pair_bytes(a, b);
    let y = pair_bytes(c, d);
    digest::law_equal_hashes_mean_equal_inputs(x, y);
    if x == y {
        let n = encode_utf8(a).len() as int;
        assert(x.take(n) == encode_utf8(a));
        assert(y.take(n) == encode_utf8(c));
        assert(x.skip(n) == encode_utf8(b));
        assert(y.skip(n) == encode_utf8(d));
        text::lemma_utf8_injective(a, c);
        text::lemma_utf8_injective(b, d);
    }
}

proof fn lemma_parents_sized(level: Seq<Seq<char>>)
    ensures
        digest_sized(parents(level)),
{
    let p = parents(level);
    assert forall|i: int| 0 <= i < p.len() implies encode_utf8(#[trigger] p[i]).len() == 71 by {
        lemma_digest_size(pair_bytes(level[2 * i], level[2 * i + 1]));
    }
}

proof fn lemma_apex_binds(a: Seq<Seq<char>>, b: Seq<Seq<char>>)
    requires
        a.len() == b.len(),
        is_power_of_two(a.len()),
        digest_sized(a),
        digest_sized(b),
        apex(a) == apex(b),
    ensures
        a == b || collision_between(hashed_above(a), hashed_above(b)),
    decreases a.len(),
{
    if a.len() == 1 {
        assert(a == b);
    } else {
        let p = parents(a);
        let q = parents(b);
        lemma_parents_sized(a);
        lemma_parents_sized(b);
        lemma_apex_binds(p, q);
        if collision_between(hashed_above(p), hashed_above(q)) {
            let (x, y) = choose|x: Seq<u8>, y: Seq<u8>|
                #[trigger] hashed_above(p).contains(x) && #[trigger] hashed_above(q).contains(y)
                    && digest::collide(x, y);
            assert(hashed_above(a).contains(x) && hashed_above(b).contains(y));
        } else if !collision_between(hashed_above(a), hashed_above(b)) {
            assert forall|k: int| 0 <= k < a.len() implies a[k] == b[k] by {
                let i = k / 2;
                assert(p[i] == parent(a[2 * i], a[2 * i + 1]));
                assert(q[i] == parent(b[2 * i], b[2 * i + 1]));
                assert(encode_utf8(a[2 * i]).len() == encode_utf8(b[2 * i]).len());
                lemma_parent_binds(a[2 * i], a[2 * i + 1], b[2 * i], b[2 * i + 1]);
                assert(is_pair_of(a, pair_bytes(a[2 * i], a[2 * i + 1])));
                assert(is_pair_of(b, pair_bytes(b[2 * i], b[2 * i + 1])));
                assert(hashed_above(a).contains(pair_bytes(a[2 * i], a[2 * i + 1])));
                assert(hashed_above(b).contains(pair_bytes(b[2 * i], b[2 * i + 1])));
            }
            assert(a == b);
        }
    }
}

proof fn lemma_padded(leaves: Seq<Seq<char>>)
    requires
        leaves.len() > 0,
        digest_sized(leaves),
    ensures
        ({
            let n = next_power_of_two(leaves.len());
            let level = padded(leaves, n, padding_leaf());
            &&& is_power_of_two(n)
            &&& leaves.len() <= n == level.len()
            &&& digest_sized(level)
            &&& apex(level) == merkle_root(leaves)
            &&& forall|i: int| 0 <= i < leaves.len() ==> #[trigger] level[i] == leaves[i]
            &&& forall|i: int| leaves.len() <= i < n ==> #[trigger] level[i] == padding_leaf()
            &&& hashed_above(level).subset_of(hashed_for(leaves))
        }),
{
    lemma_next_power_of_two(leaves.len());
    lemma_digest_size(pair_bytes("padding"@, "padding"@));
}

proof fn lemma_more_collisions(
    x: Set<Seq<u8>>,
    y: Set<Seq<u8>>,
    more_x: Set<Seq<u8>>,
    more_y: Set<Seq<u8>>,
)
    requires
        x.subset_of(more_x),
        y.subset_of(more_y),
        collision_between(x, y),
    ensures
        collision_between(more_x, more_y),
{
    let (p, q) = choose|p: Seq<u8>, q: Seq<u8>|
        #[trigger] x.contains(p) && #[trigger] y.contains(q) && digest::collide(p, q);
    assert(more_x.contains(p) && more_y.contains(q));
}

/// The root commits to the leaves: two lists of equally many digests with the
/// same root are the same list, or SHA-256 collides on what was hashed for the
/// two. (Lists of arbitrary digests of different lengths can share a root:
/// padding leaves are not set apart.)
pub proof fn law_root_commits_to_the_leaves(a: Seq<Seq<char>>, b: Seq<Seq<char>>)
    requires
        a.len() == b.len(),
        digest_sized(a),
        digest_sized(b),
        merkle_root(a) == merkle_root(b),
    ensures
        a == b || collision_between(hashed_for(a), hashed_for(b)),
{
    if a.len() == 0 {
        assert(a == b);
    } else {
        let n = next_power_of_two(a.len());
        let x = padded(a, n, padding_leaf());
        let y = padded(b, n, padding_leaf());
        lemma_padded(a);
        lemma_padded(b);
        lemma_apex_binds(x, y);
        if x == y {
            assert forall|i: int| 0 <= i < a.len() implies a[i] == b[i] by {
                assert(x[i] == a[i]);
                assert(y[i] == b[i]);
            }
            assert(a == b);
        } else {
            lemma_more_collisions(
                hashed_above(x),
                hashed_above(y),
                hashed_for(a),
                hashed_for(b),
            );
        }
    }
}

/// The level above a level that has `n` nodes.
spec fn shrunk(level: Seq<Seq<char>>, n: nat) -> Seq<Seq<char>>
    decreases level.len(),
{
    if level.len() <= n || level.len() <= 1 {
        level
    } else {
        shrunk(parents(level), n)
    }
}

proof fn lemma_smaller_power(n: nat, m: nat)
    requires
        is_power_of_two(n),
        is_power_of_two(m),
        n < m,
    ensures
        n <= m / 2,
    decreases m,
{
    if n > 1 {
        lemma_smaller_power(n / 2, m / 2);
    }
}

proof fn lemma_shrunk(level: Seq<Seq<char>>, n: nat)
    requires
        is_power_of_two(level.len()),
        is_power_of_two(n),
        n < level.len(),
    ensures
        shrunk(level, n).len() == n,
        digest_sized(shrunk(level, n)),
        apex(shrunk(level, n)) == apex(level),
        hashed_above(shrunk(level, n)).subset_of(hashed_above(level)),
        exists|l: Seq<char>, r: Seq<char>|
            shrunk(level, n)[0] == parent(l, r) && hashed_above(level).contains(
                #[trigger] pair_bytes(l, r),
            ) && (encode_utf8(level[0]).len() == 71 && encode_utf8(level[0])[0] == 's' as u8
                && encode_utf8(level[0])[1] == 'h' as u8 ==> encode_utf8(l).len() == 71
                && encode_utf8(l)[0] == 's' as u8 && encode_utf8(l)[1] == 'h' as u8),
    decreases level.len(),
{
    reveal_with_fuel(shrunk, 2);
    let up = parents(level);
    lemma_smaller_power(n, level.len());
    lemma_parents_sized(level);
    assert(is_pair_of(level, pair_bytes(level[0], level[1]))) by {
        let i: int = 0;
        assert(level[2 * i] == level[0]);
    }
    assert(hashed_above(level).contains(pair_bytes(level[0], level[1])));
    assert(up[0] == parent(level[0], level[1]));
    if n == up.len() {
        assert(shrunk(level, n) == up);
    } else {
        lemma_digest_size(pair_bytes(level[0], level[1]));
        lemma_shrunk(up, n);
        let (l, r) = choose|l: Seq<char>, r: Seq<char>|
            shrunk(up, n)[0] == parent(l, r) && hashed_above(up).contains(
                #[trigger] pair_bytes(l, r),
            ) && encode_utf8(l).len() == 71 && encode_utf8(l)[0] == 's' as u8 && encode_utf8(
                l,
            )[1] == 'h' as u8;
        assert(hashed_above(level).contains(pair_bytes(l, r)));
    }
}

/// Everything that is hashed on the way from operations to their root.
pub open spec fn hashed_for_ops(ops: Seq<operation::OpView>) -> Set<Seq<u8>> {
    hashed_for(operation::op_hashes(ops)).union(
        Set::new(
            |bytes: Seq<u8>|
                exists|i: int| 0 <= i < ops.len() && bytes == (#[trigger] ops[i]).hashed_bytes(),
        ),
    )
}

/// What an operation is hashed over begins neither like a pair of digests nor
/// like what pads a tree or stands for an empty one.
proof fn lemma_tag_bytes(op: operation::OpView)
    ensures
        ({
            let bytes = op.hashed_bytes();
            &&& bytes.len() >= 2
            &&& bytes[0] != 'p' as u8
            &&& bytes[0] == 's' as u8 ==> bytes[1] == 'y' as u8
            &&& bytes[0] == 'e' as u8 ==> bytes[1] == 'x' as u8
        }),
{
    reveal_strlit("exec");
    reveal_strlit("file_read");
    reveal_strlit("file_write");
    reveal_strlit("file_rename");
    reveal_strlit("system_state_read");
    reveal_strlit("exit");
    reveal_strlit("external_file_read");
    reveal_strlit("external_file_write");
    let tag = operation::tag_text(op.op_type);
    assert(is_ascii_chars(tag));
    is_ascii_chars_encode_utf8(tag);
    let bytes = op.hashed_bytes();
    assert(bytes[0] == encode_utf8(tag)[0]);
    assert(bytes[1] == encode_utf8(tag)[1]);
    assert(tag[0] as u8 == encode_utf8(tag)[0]);
    assert(tag[1] as u8 == encode_utf8(tag)[1]);
}

proof fn lemma_literal_pairs()
    ensures
        pair_bytes("empty"@, "empty"@).len() >= 2,
        pair_bytes("empty"@, "empty"@)[0] == 'e' as u8,
        pair_bytes("empty"@, "empty"@)[1] == 'm' as u8,
        pair_bytes("padding"@, "padding"@).len() >= 2,
        pair_bytes("padding"@, "padding"@)[0] == 'p' as u8,
{
    reveal_strlit("empty");
    reveal_strlit("padding");
    assert(is_ascii_chars("empty"@));
    assert(is_ascii_chars("padding"@));
    is_ascii_chars_encode_utf8("empty"@);
    is_ascii_chars_encode_utf8("padding"@);
    assert("empty"@[0] as u8 == encode_utf8("empty"@)[0]);
    assert("empty"@[1] as u8 == encode_utf8("empty"@)[1]);
    assert("padding"@[0] as u8 == encode_utf8("padding"@)[0]);
}

proof fn lemma_op_hashes_sized(ops: Seq<operation::OpView>)
    ensures
        digest_sized(operation::op_hashes(ops)),
        forall|i: int|
            0 <= i < ops.len() ==> hashed_for_ops(ops).contains(
                (#[trigger] ops[i]).hashed_bytes(),
            ),
        hashed_for(operation::op_hashes(ops)).subset_of(hashed_for_ops(ops)),
{
    let h = operation::op_hashes(ops);
    assert forall|i: int| 0 <= i < h.len() implies encode_utf8(#[trigger] h[i]).len() == 71 by {
        lemma_digest_size(ops[i].hashed_bytes());
    }
}

/// Trees of different heights do not share a root.
proof fn lemma_heights_differ(a: Seq<operation::OpView>, b: Seq<operation::OpView>)
    requires
        a.len() > 0,
        b.len() > 0,
        next_power_of_two(a.len()) < next_power_of_two(b.len()),
        merkle_root(operation::op_hashes(a)) == merkle_root(operation::op_hashes(b)),
    ensures
        collision_between(hashed_for_ops(a), hashed_for_ops(b)),
{
    let ha = operation::op_hashes(a);
    let hb = operation::op_hashes(b);
    let n = next_power_of_two(a.len());
    let x = padded(ha, n, padding_leaf());
    let y = padded(hb, next_power_of_two(b.len()), padding_leaf());
    lemma_op_hashes_sized(a);
    lemma_op_hashes_sized(b);
    lemma_padded(ha);
    lemma_padded(hb);
    lemma_shrunk(y, n);
    let z = shrunk(y, n);
    lemma_apex_binds(x, z);
    if x != z {
        lemma_more_collisions(
            hashed_above(x),
            hashed_above(z),
            hashed_for_ops(a),
            hashed_for_ops(b),
        );
    } else {
        assert(y[0] == hb[0] && hb[0] == b[0].hash());
        lemma_digest_size(b[0].hashed_bytes());
        let (l, r) = choose|l: Seq<char>, r: Seq<char>|
            z[0] == parent(l, r) && hashed_above(y).contains(#[trigger] pair_bytes(l, r))
                && encode_utf8(l).len() == 71 && encode_utf8(l)[0] == 's' as u8 && encode_utf8(
                l,
            )[1] == 'h' as u8;
        let p = a[0].hashed_bytes();
        let q = pair_bytes(l, r);
        assert(x[0] == ha[0] && ha[0] == digest::hash_text(p));
        lemma_tag_bytes(a[0]);
        assert(q[0] == 's' as u8 && q[1] == 'h' as u8);
        digest::law_equal_hashes_mean_equal_inputs(p, q);
        assert(hashed_for_ops(a).contains(p) && hashed_for_ops(b).contains(q));
    }
}

/// No list of operations but the empty one has the root of the empty one.
proof fn lemma_empty_differs(a: Seq<operation::OpView>, b: Seq<operation::OpView>)
    requires
        a.len() == 0,
        b.len() > 0,
        merkle_root(operation::op_hashes(a)) == merkle_root(operation::op_hashes(b)),
    ensures
        collision_between(hashed_for_ops(a), hashed_for_ops(b)),
{
    let hb = operation::op_hashes(b);
    let m = next_power_of_two(b.len());
    let y = padded(hb, m, padding_leaf());
    let p = pair_bytes("empty"@, "empty"@);
    lemma_literal_pairs();
    lemma_op_hashes_sized(b);
    lemma_padded(hb);
    assert(operation::op_hashes(a).len() == 0);
    assert(hashed_for_ops(a).contains(p));
    assert(y[0] == hb[0] && hb[0] == b[0].hash());
    if m == 1 {
        let q = b[0].hashed_bytes();
        lemma_tag_bytes(b[0]);
        digest::law_equal_hashes_mean_equal_inputs(p, q);
        assert(hashed_for_ops(b).contains(q));
    } else {
        lemma_shrunk(y, 1);
        lemma_digest_size(b[0].hashed_bytes());
        let z = shrunk(y, 1);
        let (l, r) = choose|l: Seq<char>, r: Seq<char>|
            z[0] == parent(l, r) && hashed_above(y).contains(#[trigger] pair_bytes(l, r))
                && encode_utf8(l).len() == 71 && encode_utf8(l)[0] == 's' as u8 && encode_utf8(
                l,
            )[1] == 'h' as u8;
        let q = pair_bytes(l, r);
        assert(q[0] == 's' as u8);
        digest::law_equal_hashes_mean_equal_inputs(p, q);
        assert(hashed_for_ops(b).contains(q));
    }
}

proof fn lemma_padding_is_no_op(a: Seq<operation::OpView>, b: Seq<operation::OpView>)
    requires
        0 < a.len() < b.len(),
        next_power_of_two(a.len()) == next_power_of_two(b.len()),
        merkle_root(operation::op_hashes(a)) == merkle_root(operation::op_hashes(b)),
    ensures
        collision_between(hashed_for_ops(a), hashed_for_ops(b)),
{
    let ha = operation::op_hashes(a);
    let hb = operation::op_hashes(b);
    let n = next_power_of_two(a.len());
    let x = padded(ha, n, padding_leaf());
    let y = padded(hb, n, padding_leaf());
    lemma_op_hashes_sized(a);
    lemma_op_hashes_sized(b);
    lemma_padded(ha);
    lemma_padded(hb);
    lemma_apex_binds(x, y);
    if x != y {
        lemma_more_collisions(
            hashed_above(x),
            hashed_above(y),
            hashed_for_ops(a),
            hashed_for_ops(b),
        );
    } else {
        let k = a.len() as int;
        let p = pair_bytes("padding"@, "padding"@);
        let q = b[k].hashed_bytes();
        assert(x[k] == padding_leaf() && y[k] == hb[k] && hb[k] == digest::hash_text(q));
        lemma_literal_pairs();
        lemma_tag_bytes(b[k]);
        digest::law_equal_hashes_mean_equal_inputs(p, q);
        assert(hashed_for_ops(a).contains(p) && hashed_for_ops(b).contains(q));
    }
}

proof fn lemma_collision_symmetric(x: Set<Seq<u8>>, y: Set<Seq<u8>>)
    requires
        collision_between(x, y),
    ensures
        collision_between(y, x),
{
    let (p, q) = choose|p: Seq<u8>, q: Seq<u8>|
        #[trigger] x.contains(p) && #[trigger] y.contains(q) && digest::collide(p, q);
    assert(y.contains(q) && x.contains(p) && digest::collide(q, p));
}

proof fn lemma_apex_halves(level: Seq<Seq<char>>)
    requires
        is_power_of_two(level.len()),
        level.len() >= 2,
    ensures
        ({
            let half = level.len() as int / 2;
            apex(level) == parent(apex(level.take(half)), apex(level.skip(half)))
        }),
    decreases level.len(),
{
    let n = level.len() as int;
    let half = n / 2;
    let up = parents(level);
    if n == 2 {
        assert(apex(up) == up[0]);
        assert(apex(level.take(1)) == level[0]);
        assert(apex(level.skip(1)) == level[1]);
    } else {
        assert(is_power_of_two(level.len() / 2));
        assert(half % 2 == 0);
        lemma_apex_halves(up);
        assert(up.take(half / 2) =~= parents(level.take(half)));
        assert(up.skip(half / 2) =~= parents(level.skip(half)));
    }
}

proof fn lemma_full_level(level: Seq<Seq<char>>)
    requires
        is_power_of_two(level.len()),
    ensures
        next_power_of_two(level.len()) == level.len(),
        merkle_root(level) == apex(level),
{
    lemma_power_is_its_own(level.len());
    assert(padded(level, level.len(), padding_leaf()) =~= level);
}

proof fn lemma_power_is_its_own(n: nat)
    requires
        is_power_of_two(n),
    ensures
        next_power_of_two(n) == n,
    decreases n,
{
    if n > 1 {
        lemma_power_is_its_own(n / 2);
        assert((n + 1) / 2 == n / 2);
    }
}

/// The root of two or more leaves is the parent of the roots of the two halves
/// of the padded leaves.
pub proof fn law_root_is_the_parent_of_its_halves(leaves: Seq<Seq<char>>)
    requires
        leaves.len() >= 2,
    ensures
        ({
            let n = next_power_of_two(leaves.len());
            let level = padded(leaves, n, padding_leaf());
            let half = n as int / 2;
            &&& leaves.len() <= n < 2 * leaves.len()
            &&& merkle_root(leaves) == parent(
                merkle_root(level.take(half)),
                merkle_root(level.skip(half)),
            )
        }),
{
    let n = next_power_of_two(leaves.len());
    let level = padded(leaves, n, padding_leaf());
    let half = n as int / 2;
    lemma_next_power_of_two(leaves.len());
    assert(is_power_of_two(n / 2));
    lemma_apex_halves(level);
    lemma_full_level(level.take(half));
    lemma_full_level(level.skip(half));
}

/// The root commits to the operations: two lists of operations with the same
/// root, of whatever lengths, have the same hashes, or SHA-256 collides on what
/// was hashed for the two.
pub proof fn law_root_commits_to_the_operations(
    a: Seq<operation::OpView>,
    b: Seq<operation::OpView>,
)
    requires
        merkle_root(operation::op_hashes(a)) == merkle_root(operation::op_hashes(b)),
    ensures
        operation::op_hashes(a) == operation::op_hashes(b) || collision_between(
            hashed_for_ops(a),
            hashed_for_ops(b),
        ),
{
    let ha = operation::op_hashes(a);
    let hb = operation::op_hashes(b);
    lemma_op_hashes_sized(a);
    lemma_op_hashes_sized(b);
    if a.len() == b.len() {
        law_root_commits_to_the_leaves(ha, hb);
        if ha != hb {
            lemma_more_collisions(
                hashed_for(ha),
                hashed_for(hb),
                hashed_for_ops(a),
                hashed_for_ops(b),
            );
        }
    } else if a.len() == 0 {
        lemma_empty_differs(a, b);
    } else if b.len() == 0 {
        lemma_empty_differs(b, a);
        lemma_collision_symmetric(hashed_for_ops(b), hashed_for_ops(a));
    } else if next_power_of_two(a.len()) < next_power_of_two(b.len()) {
        lemma_heights_differ(a, b);
    } else if next_power_of_two(b.len()) < next_power_of_two(a.len()) {
        lemma_heights_differ(b, a);
        lemma_collision_symmetric(hashed_for_ops(b), hashed_for_ops(a));
    } else if a.len() < b.len() {
        lemma_padding_is_no_op(a, b);
    } else {
        lemma_padding_is_no_op(b, a);
        lemma_collision_symmetric(hashed_for_ops(b), hashed_for_ops(a));
    }
}

/// Neither side of a leaf-set difference lacks anything exactly when both
/// trees have the same set of leaves.
pub proof fn law_empty_difference_means_equal_sets(a: Seq<Seq<char>>, b: Seq<Seq<char>>)
    ensures
        (difference(order::sorted_set(a), order::sorted_set(b)).len() == 0 && difference(
            order::sorted_set(b),
            order::sorted_set(a),
        ).len() == 0) <==> (forall|t: Seq<char>| #[trigger] a.contains(t) <==> b.contains(t)),
{
    let x = order::sorted_set(a);
    let y = order::sorted_set(b);
    order::law_sorted_set(a);
    order::law_sorted_set(b);
    lemma_difference_members(x, y);
    lemma_difference_members(y, x);
    let d = difference(x, y);
    let e = difference(y, x);
    if d.len() == 0 && e.len() == 0 {
        assert forall|t: Seq<char>| #[trigger] a.contains(t) <==> b.contains(t) by {
            assert(!d.contains(t) && !e.contains(t));
            assert(x.contains(t) <==> a.contains(t));
            assert(y.contains(t) <==> b.contains(t));
        }
    } else if forall|t: Seq<char>| #[trigger] a.contains(t) <==> b.contains(t) {
        if d.len() > 0 {
            assert(d.contains(d[0]));
            assert(a.contains(d[0]));
        } else {
            assert(e.contains(e[0]));
            assert(b.contains(e[0]));
            assert(a.contains(e[0]));
        }
    }
}

/// A difference holds the strings of the first list that the second lacks.
pub proof fn lemma_difference_members(a: Seq<Seq<char>>, b: Seq<Seq<char>>)
    ensures
        forall|t: Seq<char>| #[trigger]
            difference(a, b).contains(t) <==> a.contains(t) && !b.contains(t),
    decreases a.len(),
{
    reveal(Seq::filter);
    if a.len() > 0 {
        let a0 = a.drop_last();
        lemma_difference_members(a0, b);
        let d = difference(a, b);
        let d0 = difference(a0, b);
        assert forall|t: Seq<char>| #[trigger]
            d.contains(t) <==> a.contains(t) && !b.contains(t) by {
            assert(d0.contains(t) <==> a0.contains(t) && !b.contains(t));
            assert(a == a0.push(a.last()));
            if a.contains(t) && t != a.last() {
                let k = choose|k: int| 0 <= k < a.len() && a[k] == t;
                assert(a0[k] == t);
            }
            if a0.contains(t) {
                let k = choose|k: int| 0 <= k < a0.len() && a0[k] == t;
                assert(a[k] == t);
            }
            if d0.contains(t) {
                let k = choose|k: int| 0 <= k < d0.len() && d0[k] == t;
                assert(d[k] == t);
            }
            if d.contains(t) && !d0.contains(t) {
                let k = choose|k: int| 0 <= k < d.len() && d[k] == t;
                assert(k == d0.len());
                assert(a[a.len() - 1] == t);
            }
            if t == a.last() && !b.contains(t) {
                assert(d[d.len() - 1] == t);
            }
        }
    }
}

/// What is left of an ascending list after a difference ascends.
pub proof fn lemma_difference_ascends(a: Seq<Seq<char>>, b: Seq<Seq<char>>)
    requires
        order::strictly_ascending_texts(a),
    ensures
        order::strictly_ascending_texts(difference(a, b)),
    decreases a.len(),
{
    reveal(Seq::filter);
    let d = difference(a, b);
    if a.len() > 0 {
        let a0 = a.drop_last();
        let d0 = difference(a0, b);
        assert forall|i: int, j: int| 0 <= i < j < a0.len() implies text::text_lt(
            #[trigger] a0[i],
            #[trigger] a0[j],
        ) by {
            assert(text::text_lt(a[i], a[j]));
        }
        lemma_difference_ascends(a0, b);
        lemma_difference_members(a0, b);
        assert forall|i: int, j: int| 0 <= i < j < d.len() implies text::text_lt(
            #[trigger] d[i],
            #[trigger] d[j],
        ) by {
            if j < d0.len() {
                assert(text::text_lt(d0[i], d0[j]));
            } else {
                assert(d[i] == d0[i]);
                assert(d0.contains(d0[i]));
                let k = choose|k: int| 0 <= k < a0.len() && a0[k] == d0[i];
                assert(text::text_lt(a[k], a[a.len() - 1]));
            }
        }
    }
}

/// The leaves of a tree are those it lists; a tree that lists none but stores its
/// nodes, from the root down, has its leaves in the lower half of them, as many as
/// it says it has.
pub proof fn law_leaves_are_listed_or_stored(tree: MerkleTree, width: nat, i: int)
    ensures
        tree.leaves@.len() > 0 ==> tree.leaf_texts() == text::texts(tree.leaves@),
        tree.leaf_count == 0 ==> tree.leaf_texts() == text::texts(tree.leaves@),
        tree.leaves@.len() == 0 && 0 < tree.leaf_count <= width && tree.nodes@.len() == 2 * width
            - 1 ==> tree.leaf_texts().len() == tree.leaf_count && (0 <= i < tree.leaf_count
            ==> tree.leaf_texts()[i] == tree.nodes@[width - 1 + i].hash@),
{
}

/// A root is that of the level of parents, and a single leaf is its own root.
pub proof fn law_roots_are_hashed_pair_by_pair(a: Seq<char>, b: Seq<char>)
    ensures
        merkle_root(seq![a]) == a,
        merkle_root(seq![a, b]) == digest::hash_text(encode_utf8(a) + encode_utf8(b)),
        merkle_root(Seq::empty()) == digest::hash_text(encode_utf8("empty"@) + encode_utf8("empty"@)),
{
    lemma_full_level(seq![a]);
    let two = seq![a, b];
    assert(is_power_of_two(1));
    assert(is_power_of_two(two.len()));
    lemma_full_level(two);
    assert(parents(two) =~= seq![parent(a, b)]);
    assert(apex(seq![parent(a, b)]) == parent(a, b));
}

} // verus!
