//! Copy-on-write B-tree: an ordered map from 64-bit keys to fixed-width
//! 64-bit values.
//!
//! Nodes live in a block store; every mutation copies the traversed path
//! into freshly allocated blocks and leaves the old nodes in place, so an
//! old root keeps describing the pre-mutation tree until the transaction
//! commits.

use vstd::prelude::*;
use vstd::bytes::*;
use crate::codec::{read_u32_at, read_u64_at, push_u32_le, push_u64_le};
use crate::errors::MetadataError;

verus! {

/// Most entries a node may hold before it splits.
pub const MAX_ENTRIES: usize = 8;

/// One node: internal nodes route by key to child block numbers, leaves
/// hold the caller's values.
#[derive(Clone, Debug)]
pub enum BTreeNode {
    Internal { keys: Vec<u64>, children: Vec<u64> },
    Leaf { keys: Vec<u64>, values: Vec<u64> },
}

/// Checksum seed folded into B-tree node block checksums.
pub const BTREE_CSUM_SEED: u32 = 121107;

/// The stored node-type tag of an internal node.
pub const NODE_FLAGS_INTERNAL: u32 = 1;

/// The stored node-type tag of a leaf.
pub const NODE_FLAGS_LEAF: u32 = 2;

/// A node fills one block on disk: a 32-byte header, eight keys and
/// eight values of eight bytes each, and a reserved zero tail.
pub const NODE_DISK_SIZE: usize = 4096;

/// Keys strictly increase left to right.
pub open spec fn sorted_strict(s: Seq<u64>) -> bool {
    forall|i: int, j: int| 0 <= i < j < s.len() ==> s[i] < s[j]
}

/// The keys of an entry sequence.
pub open spec fn entry_keys(s: Seq<(u64, u64)>) -> Seq<u64> {
    s.map(|i: int, p: (u64, u64)| p.0)
}

/// Every entry's key is at least `k`.
pub open spec fn all_ge(s: Seq<(u64, u64)>, k: u64) -> bool {
    forall|i: int| 0 <= i < s.len() ==> (#[trigger] s[i]).0 >= k
}

/// Every entry's key is below `k`.
pub open spec fn all_lt(s: Seq<(u64, u64)>, k: u64) -> bool {
    forall|i: int| 0 <= i < s.len() ==> (#[trigger] s[i]).0 < k
}

/// The entries below node `b` at height `h`, leftmost first.
pub open spec fn interp(nodes: Seq<BTreeNode>, b: int, h: nat) -> Seq<(u64, u64)>
    decreases h, 0int, 0int,
{
    if b < 0 || b >= nodes.len() {
        Seq::empty()
    } else {
        match nodes[b] {
            BTreeNode::Leaf { keys, values } => Seq::new(
                keys@.len(),
                |i: int| (keys@[i], values@[i]),
            ),
            BTreeNode::Internal { keys, children } => {
                if h == 0 {
                    Seq::empty()
                } else {
                    interp_children(nodes, children@, (h - 1) as nat, children@.len() as int)
                }
            },
        }
    }
}

/// The concatenated entries of the first `n` children, each at height `hc`.
pub open spec fn interp_children(nodes: Seq<BTreeNode>, ch: Seq<u64>, hc: nat, n: int) -> Seq<
    (u64, u64),
>
    decreases hc, 1int, n,
{
    if n <= 0 {
        Seq::empty()
    } else {
        interp_children(nodes, ch, hc, n - 1) + interp(nodes, ch[n - 1] as int, hc)
    }
}

/// A well-formed subtree: balanced, sorted, and routed so that child `i`
/// holds exactly the keys at or above `keys[i]` and below `keys[i + 1]`.
pub open spec fn wf_node(nodes: Seq<BTreeNode>, b: int, h: nat) -> bool
    decreases h,
{
    &&& 0 <= b < nodes.len()
    &&& match nodes[b] {
        BTreeNode::Leaf { keys, values } => {
            &&& h == 0
            &&& keys@.len() == values@.len()
            &&& keys@.len() <= MAX_ENTRIES
            &&& sorted_strict(keys@)
        },
        BTreeNode::Internal { keys, children } => {
            &&& h >= 1
            &&& keys@.len() == children@.len()
            &&& 1 <= keys@.len() <= MAX_ENTRIES
            &&& sorted_strict(keys@)
            &&& forall|i: int|
                0 <= i < children@.len() ==> wf_node(
                    nodes,
                    #[trigger] children@[i] as int,
                    (h - 1) as nat,
                )
            &&& forall|i: int|
                0 <= i < children@.len() ==> all_ge(
                    interp(nodes, #[trigger] children@[i] as int, (h - 1) as nat),
                    keys@[i],
                )
            &&& forall|i: int|
                0 <= i < children@.len() - 1 ==> all_lt(
                    interp(nodes, #[trigger] children@[i] as int, (h - 1) as nat),
                    keys@[i + 1],
                )
            &&& forall|i: int|
                0 <= i < children@.len() ==> interp(
                    nodes,
                    #[trigger] children@[i] as int,
                    (h - 1) as nat,
                ).len() >= 1
        },
    }
}

/// The value an entry sequence associates with `key`, by scan.
pub open spec fn find_in(s: Seq<(u64, u64)>, key: u64) -> Option<u64>
    decreases s.len(),
{
    if s.len() == 0 {
        None
    } else if s[0].0 == key {
        Some(s[0].1)
    } else {
        find_in(s.drop_first(), key)
    }
}

/// Finding distributes over concatenation: the left half wins if it holds
/// the key.
pub proof fn lemma_find_in_add(a: Seq<(u64, u64)>, b: Seq<(u64, u64)>, key: u64)
    ensures
        find_in(a + b, key) == (if find_in(a, key) is Some {
            find_in(a, key)
        } else {
            find_in(b, key)
        }),
    decreases a.len(),
{
    if a.len() == 0 {
        assert(a + b =~= b);
    } else {
        assert((a + b).drop_first() =~= a.drop_first() + b);
        lemma_find_in_add(a.drop_first(), b, key);
    }
}

/// A sequence whose keys all miss `key` finds nothing.
pub proof fn lemma_find_in_none(s: Seq<(u64, u64)>, key: u64)
    requires
        forall|i: int| 0 <= i < s.len() ==> (#[trigger] s[i]).0 != key,
    ensures
        find_in(s, key) is None,
    decreases s.len(),
{
    if s.len() > 0 {
        lemma_find_in_none(s.drop_first(), key);
    }
}

/// In a well-formed internal node, a key at or above `keys[i]` and (when a
/// right neighbour exists) below `keys[i + 1]` can only live in child `i`.
pub proof fn lemma_route_to_child(nodes: Seq<BTreeNode>, b: int, h: nat, i: int, key: u64)
    requires
        wf_node(nodes, b, h),
        nodes[b] matches BTreeNode::Internal { keys, children },
        h >= 1,
        ({
            let keys = nodes[b]->Internal_keys;
            &&& 0 <= i < keys@.len()
            &&& keys@[i] <= key
            &&& i + 1 < keys@.len() ==> key < keys@[i + 1]
        }),
    ensures
        ({
            let children = nodes[b]->Internal_children;
            find_in(interp(nodes, b, h), key) == find_in(
                interp(nodes, children@[i] as int, (h - 1) as nat),
                key,
            )
        }),
{
    let keys = nodes[b]->Internal_keys;
    let children = nodes[b]->Internal_children;
    let hc = (h - 1) as nat;
    let n = children@.len() as int;
    // children strictly left of i hold keys below keys[i] <= key;
    // children strictly right of i hold keys at or above keys[i + 1] > key
    assert forall|j: int, x: int|
        0 <= j < n && 0 <= x < interp(nodes, children@[j] as int, hc).len() && j != i implies (
    #[trigger] interp(nodes, children@[j] as int, hc)[x]).0 != key by {
        let e = interp(nodes, children@[j] as int, hc)[x];
        if j < i {
            assert(all_lt(interp(nodes, children@[j] as int, hc), keys@[j + 1]));
            assert(e.0 < keys@[j + 1]);
            if j + 1 < i {
                assert(keys@[j + 1] < keys@[i]);
            }
            assert(e.0 < key || e.0 < keys@[i]);
        } else {
            assert(all_ge(interp(nodes, children@[j] as int, hc), keys@[j]));
            assert(e.0 >= keys@[j]);
            assert(keys@[i + 1] <= keys@[j]);
        }
    }
    lemma_find_in_children(nodes, children@, hc, n, i, key);
}

/// Folding `find_in` over concatenated children reduces to the one child
/// that may hold the key.
proof fn lemma_find_in_children(
    nodes: Seq<BTreeNode>,
    ch: Seq<u64>,
    hc: nat,
    n: int,
    i: int,
    key: u64,
)
    requires
        0 <= i < n <= ch.len(),
        forall|j: int, x: int|
            0 <= j < n && 0 <= x < interp(nodes, ch[j] as int, hc).len() && j != i ==> (
            #[trigger] interp(nodes, ch[j] as int, hc)[x]).0 != key,
    ensures
        find_in(interp_children(nodes, ch, hc, n), key) == find_in(
            interp(nodes, ch[i] as int, hc),
            key,
        ),
    decreases n,
{
    let tail = interp(nodes, ch[n - 1] as int, hc);
    lemma_find_in_add(interp_children(nodes, ch, hc, n - 1), tail, key);
    if i == n - 1 {
        assert forall|x: int|
            0 <= x < interp_children(nodes, ch, hc, n - 1).len() implies (
        #[trigger] interp_children(nodes, ch, hc, n - 1)[x]).0 != key by {
            lemma_interp_children_index(nodes, ch, hc, n - 1, x);
        }
        lemma_find_in_none(interp_children(nodes, ch, hc, n - 1), key);
    } else {
        lemma_find_in_none(tail, key);
        lemma_find_in_children(nodes, ch, hc, n - 1, i, key);
    }
}

/// Every element of the children fold comes from one child's entries.
pub proof fn lemma_interp_children_index(nodes: Seq<BTreeNode>, ch: Seq<u64>, hc: nat, n: int, x: int)
    requires
        0 <= x < interp_children(nodes, ch, hc, n).len(),
        n <= ch.len(),
    ensures
        exists|j: int, y: int|
            0 <= j < n && 0 <= y < interp(nodes, ch[j] as int, hc).len() && interp_children(
                nodes,
                ch,
                hc,
                n,
            )[x] == #[trigger] interp(nodes, ch[j] as int, hc)[y],
    decreases n,
{
    let pre = interp_children(nodes, ch, hc, n - 1);
    if x < pre.len() {
        lemma_interp_children_index(nodes, ch, hc, n - 1, x);
        let (j, y): (int, int) = choose|j: int, y: int|
            0 <= j < n - 1 && 0 <= y < interp(nodes, ch[j] as int, hc).len() && pre[x]
                == #[trigger] interp(nodes, ch[j] as int, hc)[y];
        assert(interp_children(nodes, ch, hc, n)[x] == interp(nodes, ch[j] as int, hc)[y]);
    } else {
        let y = x - pre.len();
        assert(interp_children(nodes, ch, hc, n)[x] == interp(nodes, ch[n - 1] as int, hc)[y]);
    }
}

/// Entries of a leaf: each key beside its value.
pub open spec fn zip_entries(keys: Seq<u64>, values: Seq<u64>) -> Seq<(u64, u64)> {
    Seq::new(keys.len(), |i: int| (keys[i], values[i]))
}

/// In a sorted leaf, the entry at the key's position is what a scan finds.
pub proof fn lemma_find_in_zip_at(keys: Seq<u64>, values: Seq<u64>, i: int, key: u64)
    requires
        keys.len() == values.len(),
        sorted_strict(keys),
        0 <= i < keys.len(),
        keys[i] == key,
    ensures
        find_in(zip_entries(keys, values), key) == Some(values[i]),
    decreases i,
{
    if i == 0 {
    } else {
        assert(keys[0] < keys[i]);
        assert(zip_entries(keys, values).drop_first() =~= zip_entries(
            keys.drop_first(),
            values.drop_first(),
        ));
        lemma_find_in_zip_at(keys.drop_first(), values.drop_first(), i - 1, key);
    }
}

/// A sorted leaf without the key finds nothing.
pub proof fn lemma_find_in_zip_none(keys: Seq<u64>, values: Seq<u64>, key: u64)
    requires
        keys.len() == values.len(),
        forall|i: int| 0 <= i < keys.len() ==> keys[i] != key,
    ensures
        find_in(zip_entries(keys, values), key) is None,
{
    lemma_find_in_none(zip_entries(keys, values), key);
}

/// Rightmost position whose key is at or below `key`, by binary search.
pub fn search_le(keys: &Vec<u64>, key: u64) -> (r: Option<usize>)
    requires
        sorted_strict(keys@),
    ensures
        r matches Some(i) ==> i < keys@.len() && keys@[i as int] <= key && (forall|j: int|
            i < j < keys@.len() ==> keys@[j] > key),
        r is None ==> forall|j: int| 0 <= j < keys@.len() ==> keys@[j] > key,
{
    if keys.len() == 0 {
        return None;
    }
    if keys[0] > key {
        return None;
    }
    let mut lo: usize = 0;
    let mut hi: usize = keys.len();
    while hi - lo > 1
        invariant
            lo < hi <= keys@.len(),
            keys@[lo as int] <= key,
            forall|j: int| hi <= j < keys@.len() ==> keys@[j] > key,
            sorted_strict(keys@),
        decreases hi - lo,
    {
        let mid = lo + (hi - lo) / 2;
        if keys[mid] <= key {
            lo = mid;
        } else {
            hi = mid;
        }
    }
    Some(lo)
}

/// A copy-on-write B-tree held in an in-core block store.
///
/// `nodes` stands for the block device: one node per block number, and a
/// mutation never rewrites an existing block — it appends copies.
#[derive(Clone, Debug)]
pub struct BTree {
    nodes: Vec<BTreeNode>,
    root: u64,
    height: u64,
}

impl BTree {
    /// The node store is balanced and routed below the root.
    pub closed spec fn wf(&self) -> bool {
        &&& wf_node(self.nodes@, self.root as int, self.height as nat)
    }

    /// All entries of the tree, in ascending key order.
    pub closed spec fn as_entries(&self) -> Seq<(u64, u64)> {
        interp(self.nodes@, self.root as int, self.height as nat)
    }

    /// The node stored at each block number.
    pub closed spec fn spec_blocks(&self) -> Seq<BTreeNode> {
        self.nodes@
    }

    /// The block number of the current root.
    pub closed spec fn spec_root(&self) -> u64 {
        self.root
    }

    /// Builds an empty tree: a single empty leaf at block 0.
    pub fn new() -> (r: BTree)
        ensures
            r.wf(),
            r.as_entries() == Seq::<(u64, u64)>::empty(),
            r.spec_blocks().len() == 1,
            r.spec_height() == 0,
    {
        let mut nodes: Vec<BTreeNode> = Vec::new();
        nodes.push(BTreeNode::Leaf { keys: Vec::new(), values: Vec::new() });
        let r = BTree { nodes, root: 0, height: 0 };
        proof {
            assert(r.as_entries() =~= Seq::<(u64, u64)>::empty());
        }
        r
    }

    /// Looks the key up, descending by binary search from the root.
    pub fn lookup(&self, key: u64) -> (r: Result<u64, MetadataError>)
        requires
            self.wf(),
        ensures
            r matches Ok(v) ==> find_in(self.as_entries(), key) == Some(v),
            r matches Err(e) ==> e == MetadataError::NotFound && find_in(self.as_entries(), key)
                is None,
    {
        lookup_at(&self.nodes, self.root, self.height, key)
    }
}

/// Looks `key` up below node `b` at height `h`.
fn lookup_at(nodes: &Vec<BTreeNode>, b: u64, h: u64, key: u64) -> (r: Result<u64, MetadataError>)
    requires
        wf_node(nodes@, b as int, h as nat),
    ensures
        r matches Ok(v) ==> find_in(interp(nodes@, b as int, h as nat), key) == Some(v),
        r matches Err(e) ==> e == MetadataError::NotFound && find_in(
            interp(nodes@, b as int, h as nat),
            key,
        ) is None,
    decreases h,
{
    let nlen = nodes.len();
    proof {
        assert(b < nlen as u64);
    }
    match &nodes[b as usize] {
        BTreeNode::Leaf { keys, values } => {
            proof {
                assert(interp(nodes@, b as int, h as nat) =~= zip_entries(keys@, values@));
            }
            match search_le(keys, key) {
                Some(i) => {
                    if keys[i] == key {
                        proof {
                            lemma_find_in_zip_at(keys@, values@, i as int, key);
                        }
                        Ok(values[i])
                    } else {
                        proof {
                            assert(forall|j: int| 0 <= j < keys@.len() ==> keys@[j] != key);
                            lemma_find_in_zip_none(keys@, values@, key);
                        }
                        Err(MetadataError::NotFound)
                    }
                },
                None => {
                    proof {
                        lemma_find_in_zip_none(keys@, values@, key);
                    }
                    Err(MetadataError::NotFound)
                },
            }
        },
        BTreeNode::Internal { keys, children } => {
            match search_le(keys, key) {
                Some(i) => {
                    let child = children[i];
                    proof {
                        lemma_route_to_child(nodes@, b as int, h as nat, i as int, key);
                    }
                    lookup_at(nodes, child, h - 1, key)
                },
                None => {
                    proof {
                        let hc = (h - 1) as nat;
                        assert forall|x: int|
                            0 <= x < interp(nodes@, b as int, h as nat).len() implies (
                        #[trigger] interp(nodes@, b as int, h as nat)[x]).0 != key by {
                            lemma_interp_children_index(
                                nodes@,
                                children@,
                                hc,
                                children@.len() as int,
                                x,
                            );
                            let (j, y): (int, int) = choose|j: int, y: int|
                                0 <= j < children@.len() && 0 <= y < interp(
                                    nodes@,
                                    children@[j] as int,
                                    hc,
                                ).len() && interp(nodes@, b as int, h as nat)[x]
                                    == #[trigger] interp(nodes@, children@[j] as int, hc)[y];
                            assert(all_ge(interp(nodes@, children@[j] as int, hc), keys@[j]));
                            assert(keys@[0] <= keys@[j]);
                        }
                        lemma_find_in_none(interp(nodes@, b as int, h as nat), key);
                    }
                    Err(MetadataError::NotFound)
                },
            }
        },
    }
}

//------------------------------------------
// Insertion

/// `s` with `(key, value)` put at its sorted position; an entry already
/// under `key` is replaced.
pub open spec fn spec_insert(s: Seq<(u64, u64)>, key: u64, value: u64) -> Seq<(u64, u64)>
    decreases s.len(),
{
    if s.len() == 0 {
        seq![(key, value)]
    } else if key < s[0].0 {
        seq![(key, value)] + s
    } else if key == s[0].0 {
        seq![(key, value)] + s.drop_first()
    } else {
        seq![s[0]] + spec_insert(s.drop_first(), key, value)
    }
}

/// Inserting past a prefix whose keys are all below the new key leaves the
/// prefix alone.
pub proof fn lemma_insert_concat_left(a: Seq<(u64, u64)>, b: Seq<(u64, u64)>, key: u64, value: u64)
    requires
        forall|i: int| 0 <= i < a.len() ==> (#[trigger] a[i]).0 < key,
    ensures
        spec_insert(a + b, key, value) == a + spec_insert(b, key, value),
    decreases a.len(),
{
    if a.len() == 0 {
        assert(a + b =~= b);
        assert(a + spec_insert(b, key, value) =~= spec_insert(b, key, value));
    } else {
        assert((a + b).drop_first() =~= a.drop_first() + b);
        lemma_insert_concat_left(a.drop_first(), b, key, value);
        assert(spec_insert(a + b, key, value) =~= a + spec_insert(b, key, value));
    }
}

/// Inserting before a suffix whose keys are all above the new key leaves
/// the suffix alone.
pub proof fn lemma_insert_concat_right(a: Seq<(u64, u64)>, b: Seq<(u64, u64)>, key: u64, value: u64)
    requires
        forall|i: int| 0 <= i < b.len() ==> (#[trigger] b[i]).0 > key,
    ensures
        spec_insert(a + b, key, value) == spec_insert(a, key, value) + b,
    decreases a.len(),
{
    if a.len() == 0 {
        assert(a + b =~= b);
        if b.len() == 0 {
            assert(spec_insert(a, key, value) + b =~= spec_insert(b, key, value));
        } else {
            assert(spec_insert(b, key, value) =~= seq![(key, value)] + b);
            assert(spec_insert(a, key, value) + b =~= seq![(key, value)] + b);
        }
    } else {
        assert((a + b).drop_first() =~= a.drop_first() + b);
        lemma_insert_concat_right(a.drop_first(), b, key, value);
        assert(spec_insert(a + b, key, value) =~= spec_insert(a, key, value) + b);
    }
}

/// Insertion keeps any lower bound that also bounds the new key.
pub proof fn lemma_insert_ge(s: Seq<(u64, u64)>, key: u64, value: u64, lo: u64)
    requires
        all_ge(s, lo),
        lo <= key,
    ensures
        all_ge(spec_insert(s, key, value), lo),
    decreases s.len(),
{
    if s.len() > 0 {
        assert(all_ge(s.drop_first(), lo));
        if key > s[0].0 {
            lemma_insert_ge(s.drop_first(), key, value, lo);
        }
    }
}

/// Insertion keeps any upper bound that is also above the new key.
pub proof fn lemma_insert_lt(s: Seq<(u64, u64)>, key: u64, value: u64, hi: u64)
    requires
        all_lt(s, hi),
        key < hi,
    ensures
        all_lt(spec_insert(s, key, value), hi),
    decreases s.len(),
{
    if s.len() > 0 {
        assert(all_lt(s.drop_first(), hi));
        if key > s[0].0 {
            lemma_insert_lt(s.drop_first(), key, value, hi);
        }
    }
}

/// Insertion grows the sequence by at most one entry, and never empties it.
pub proof fn lemma_insert_len(s: Seq<(u64, u64)>, key: u64, value: u64)
    ensures
        s.len() <= spec_insert(s, key, value).len() <= s.len() + 1,
    decreases s.len(),
{
    if s.len() > 0 && key > s[0].0 {
        lemma_insert_len(s.drop_first(), key, value);
    }
}

/// Replacing the value at the key's position is insertion into a sorted
/// leaf that already holds the key.
pub proof fn lemma_insert_replace(keys: Seq<u64>, values: Seq<u64>, i: int, key: u64, value: u64)
    requires
        keys.len() == values.len(),
        sorted_strict(keys),
        0 <= i < keys.len(),
        keys[i] == key,
    ensures
        spec_insert(zip_entries(keys, values), key, value) == zip_entries(
            keys,
            values.update(i, value),
        ),
    decreases i,
{
    let s = zip_entries(keys, values);
    if i == 0 {
        assert(spec_insert(s, key, value) =~= zip_entries(keys, values.update(0, value)));
    } else {
        assert(keys[0] < keys[i]);
        assert(s.drop_first() =~= zip_entries(keys.drop_first(), values.drop_first()));
        lemma_insert_replace(keys.drop_first(), values.drop_first(), i - 1, key, value);
        assert(spec_insert(s, key, value) =~= zip_entries(keys, values.update(i, value)));
    }
}

/// Splicing the pair in at position `p` is insertion into a sorted leaf
/// that does not hold the key.
pub proof fn lemma_insert_splice(keys: Seq<u64>, values: Seq<u64>, p: int, key: u64, value: u64)
    requires
        keys.len() == values.len(),
        sorted_strict(keys),
        0 <= p <= keys.len(),
        forall|j: int| 0 <= j < p ==> keys[j] < key,
        forall|j: int| p <= j < keys.len() ==> keys[j] > key,
    ensures
        spec_insert(zip_entries(keys, values), key, value) == zip_entries(
            keys.insert(p, key),
            values.insert(p, value),
        ),
    decreases p,
{
    let s = zip_entries(keys, values);
    if p == 0 {
        if keys.len() == 0 {
            assert(spec_insert(s, key, value) =~= zip_entries(
                keys.insert(0, key),
                values.insert(0, value),
            ));
        } else {
            assert(key < keys[0]);
            assert(spec_insert(s, key, value) =~= zip_entries(
                keys.insert(0, key),
                values.insert(0, value),
            ));
        }
    } else {
        assert(keys[0] < key);
        assert(s.drop_first() =~= zip_entries(keys.drop_first(), values.drop_first()));
        lemma_insert_splice(keys.drop_first(), values.drop_first(), p - 1, key, value);
        assert(keys.insert(p, key).drop_first() =~= keys.drop_first().insert(p - 1, key));
        assert(values.insert(p, value).drop_first() =~= values.drop_first().insert(p - 1, value));
        assert(spec_insert(s, key, value) =~= zip_entries(
            keys.insert(p, key),
            values.insert(p, value),
        ));
    }
}

/// A store extension changes no existing subtree: shape and entries stay.
pub proof fn lemma_frame(nodes1: Seq<BTreeNode>, nodes2: Seq<BTreeNode>, b: int, h: nat)
    requires
        wf_node(nodes1, b, h),
        nodes1.len() <= nodes2.len(),
        forall|j: int| 0 <= j < nodes1.len() ==> nodes2[j] == nodes1[j],
    ensures
        wf_node(nodes2, b, h),
        interp(nodes2, b, h) == interp(nodes1, b, h),
    decreases h, 0int, 0int,
{
    match nodes1[b] {
        BTreeNode::Leaf { keys, values } => {},
        BTreeNode::Internal { keys, children } => {
            lemma_frame_children(nodes1, nodes2, children@, (h - 1) as nat, children@.len() as int);
        },
    }
}

/// The children fold is stable under a store extension.
proof fn lemma_frame_children(
    nodes1: Seq<BTreeNode>,
    nodes2: Seq<BTreeNode>,
    ch: Seq<u64>,
    hc: nat,
    n: int,
)
    requires
        n <= ch.len(),
        nodes1.len() <= nodes2.len(),
        forall|j: int| 0 <= j < nodes1.len() ==> nodes2[j] == nodes1[j],
        forall|i: int| 0 <= i < ch.len() ==> wf_node(nodes1, #[trigger] ch[i] as int, hc),
    ensures
        forall|i: int| 0 <= i < ch.len() ==> wf_node(nodes2, #[trigger] ch[i] as int, hc),
        interp_children(nodes2, ch, hc, n) == interp_children(nodes1, ch, hc, n),
        forall|i: int|
            0 <= i < ch.len() ==> interp(nodes2, #[trigger] ch[i] as int, hc) == interp(
                nodes1,
                ch[i] as int,
                hc,
            ),
    decreases hc, 1int, n,
{
    assert forall|i: int| 0 <= i < ch.len() implies wf_node(nodes2, #[trigger] ch[i] as int, hc)
        && interp(nodes2, ch[i] as int, hc) == interp(nodes1, ch[i] as int, hc) by {
        lemma_frame(nodes1, nodes2, ch[i] as int, hc);
    }
    if n > 0 {
        lemma_frame_children(nodes1, nodes2, ch, hc, n - 1);
    }
}

/// The children fold reads only the first `n` child block numbers.
proof fn lemma_interp_children_prefix(
    nodes: Seq<BTreeNode>,
    ch1: Seq<u64>,
    ch2: Seq<u64>,
    hc: nat,
    n: int,
)
    requires
        n <= ch1.len(),
        n <= ch2.len(),
        forall|i: int| 0 <= i < n ==> ch1[i] == ch2[i],
    ensures
        interp_children(nodes, ch1, hc, n) == interp_children(nodes, ch2, hc, n),
    decreases n,
{
    if n > 0 {
        lemma_interp_children_prefix(nodes, ch1, ch2, hc, n - 1);
    }
}

/// The children fold over `mid + m` children splits at `mid`.
proof fn lemma_interp_children_split(nodes: Seq<BTreeNode>, ch: Seq<u64>, hc: nat, mid: int, m: int)
    requires
        0 <= mid,
        0 <= m,
        mid + m <= ch.len(),
    ensures
        interp_children(nodes, ch, hc, mid + m) == interp_children(nodes, ch, hc, mid)
            + interp_children(nodes, ch.subrange(mid, ch.len() as int), hc, m),
    decreases m,
{
    let tail = ch.subrange(mid, ch.len() as int);
    if m == 0 {
        assert(interp_children(nodes, ch, hc, mid) + interp_children(nodes, tail, hc, 0)
            =~= interp_children(nodes, ch, hc, mid));
    } else {
        lemma_interp_children_split(nodes, ch, hc, mid, m - 1);
        assert(tail[m - 1] == ch[mid + m - 1]);
        assert(interp_children(nodes, ch, hc, mid + m) =~= interp_children(nodes, ch, hc, mid)
            + interp_children(nodes, tail, hc, m));
    }
}

/// Copies a block-number or value array.
fn clone_u64_vec(v: &Vec<u64>) -> (r: Vec<u64>)
    ensures
        r@ == v@,
{
    let mut out: Vec<u64> = Vec::new();
    let mut i: usize = 0;
    while i < v.len()
        invariant
            i <= v@.len(),
            out@ == v@.subrange(0, i as int),
        decreases v@.len() - i,
    {
        out.push(v[i]);
        proof {
            assert(out@ =~= v@.subrange(0, i as int + 1));
        }
        i = i + 1;
    }
    proof {
        assert(v@.subrange(0, v@.len() as int) =~= v@);
    }
    out
}

/// Every entry's key is above `k`.
pub open spec fn all_gt(s: Seq<(u64, u64)>, k: u64) -> bool {
    forall|i: int| 0 <= i < s.len() ==> (#[trigger] s[i]).0 > k
}

/// A fold of children whose entries all lie below `bound` lies below it.
proof fn lemma_fold_lt(nodes: Seq<BTreeNode>, ch: Seq<u64>, hc: nat, n: int, bound: u64)
    requires
        n <= ch.len(),
        forall|j: int| 0 <= j < n ==> all_lt(interp(nodes, #[trigger] ch[j] as int, hc), bound),
    ensures
        all_lt(interp_children(nodes, ch, hc, n), bound),
    decreases n,
{
    if n > 0 {
        lemma_fold_lt(nodes, ch, hc, n - 1, bound);
    }
}

/// A fold of children whose entries all lie above `k` lies above it.
proof fn lemma_fold_gt(nodes: Seq<BTreeNode>, ch: Seq<u64>, hc: nat, n: int, k: u64)
    requires
        n <= ch.len(),
        forall|j: int| 0 <= j < n ==> all_gt(interp(nodes, #[trigger] ch[j] as int, hc), k),
    ensures
        all_gt(interp_children(nodes, ch, hc, n), k),
    decreases n,
{
    if n > 0 {
        lemma_fold_gt(nodes, ch, hc, n - 1, k);
    }
}

/// A fold of children whose entries are all at or above `k` stays there.
proof fn lemma_fold_ge(nodes: Seq<BTreeNode>, ch: Seq<u64>, hc: nat, n: int, k: u64)
    requires
        n <= ch.len(),
        forall|j: int| 0 <= j < n ==> all_ge(interp(nodes, #[trigger] ch[j] as int, hc), k),
    ensures
        all_ge(interp_children(nodes, ch, hc, n), k),
    decreases n,
{
    if n > 0 {
        lemma_fold_ge(nodes, ch, hc, n - 1, k);
    }
}

/// A fold over at least one child with entries is itself nonempty.
proof fn lemma_fold_nonempty(nodes: Seq<BTreeNode>, ch: Seq<u64>, hc: nat, n: int)
    requires
        1 <= n <= ch.len(),
        interp(nodes, ch[0] as int, hc).len() >= 1,
    ensures
        interp_children(nodes, ch, hc, n).len() >= 1,
    decreases n,
{
    if n > 1 {
        lemma_fold_nonempty(nodes, ch, hc, n - 1);
    }
}

/// The children fold decomposes around child `i`.
proof fn lemma_fold_three(nodes: Seq<BTreeNode>, ch: Seq<u64>, hc: nat, i: int)
    requires
        0 <= i < ch.len(),
    ensures
        interp_children(nodes, ch, hc, ch.len() as int) == interp_children(nodes, ch, hc, i)
            + interp(nodes, ch[i] as int, hc) + interp_children(
            nodes,
            ch.subrange(i + 1, ch.len() as int),
            hc,
            ch.len() - i - 1,
        ),
{
    lemma_interp_children_split(nodes, ch, hc, i + 1, ch.len() - i - 1);
    let tail = ch.subrange(i + 1, ch.len() as int);
    assert(interp_children(nodes, ch, hc, i + 1) == interp_children(nodes, ch, hc, i) + interp(
        nodes,
        ch[i] as int,
        hc,
    ));
    assert(interp_children(nodes, ch, hc, i) + interp(nodes, ch[i] as int, hc)
        + interp_children(nodes, tail, hc, ch.len() - i - 1) =~= (interp_children(nodes, ch, hc, i)
        + interp(nodes, ch[i] as int, hc)) + interp_children(nodes, tail, hc, ch.len() - i - 1));
}

/// Inserting a key into a sorted sequence at its position keeps it sorted.
proof fn lemma_sorted_insert(s: Seq<u64>, p: int, k: u64)
    requires
        sorted_strict(s),
        0 <= p <= s.len(),
        forall|j: int| 0 <= j < p ==> s[j] < k,
        forall|j: int| p <= j < s.len() ==> s[j] > k,
    ensures
        sorted_strict(s.insert(p, k)),
{
    let t = s.insert(p, k);
    assert forall|x: int, y: int| 0 <= x < y < t.len() implies t[x] < t[y] by {
        if x < p {
            assert(t[x] == s[x]);
        } else if x == p {
            assert(t[x] == k);
        } else {
            assert(t[x] == s[x - 1]);
        }
        if y < p {
            assert(t[y] == s[y]);
        } else if y == p {
            assert(t[y] == k);
        } else {
            assert(t[y] == s[y - 1]);
        }
    }
}

/// Copy-on-write insertion below node `b`: the path down to the key is
/// copied into fresh blocks at the end of the store, no existing block is
/// rewritten, and the copy's entries carry the new pair. A node that
/// overflows splits; the split key and right sibling are handed up.
fn insert_at(nodes: &mut Vec<BTreeNode>, b: u64, h: u64, key: u64, value: u64) -> (r: (
    u64,
    Option<(u64, u64)>,
))
    requires
        wf_node(old(nodes)@, b as int, h as nat),
    ensures
        final(nodes)@.len() >= old(nodes)@.len(),
        forall|j: int| 0 <= j < old(nodes)@.len() ==> final(nodes)@[j] == old(nodes)@[j],
        r.0 >= old(nodes)@.len(),
        r.1 is None ==> wf_node(final(nodes)@, r.0 as int, h as nat) && interp(
            final(nodes)@,
            r.0 as int,
            h as nat,
        ) == spec_insert(interp(old(nodes)@, b as int, h as nat), key, value),
        r.1 matches Some((mk, rb)) ==> wf_node(final(nodes)@, r.0 as int, h as nat) && wf_node(
            final(nodes)@,
            rb as int,
            h as nat,
        ) && rb >= old(nodes)@.len() && interp(final(nodes)@, r.0 as int, h as nat) + interp(
            final(nodes)@,
            rb as int,
            h as nat,
        ) == spec_insert(interp(old(nodes)@, b as int, h as nat), key, value) && all_lt(
            interp(final(nodes)@, r.0 as int, h as nat),
            mk,
        ) && all_ge(interp(final(nodes)@, rb as int, h as nat), mk) && interp(
            final(nodes)@,
            r.0 as int,
            h as nat,
        ).len() >= 1 && interp(final(nodes)@, rb as int, h as nat).len() >= 1,
    decreases h, 1int,
{
    let nlen = nodes.len();
    proof {
        assert(b < nlen as u64);
    }
    let is_leaf = match &nodes[b as usize] {
        BTreeNode::Leaf { .. } => true,
        BTreeNode::Internal { .. } => false,
    };
    if is_leaf {
        insert_leaf_at(nodes, b, h, key, value)
    } else {
        insert_internal_at(nodes, b, h, key, value)
    }
}

/// Leaf-level insertion: replace in place, or splice the pair in at its
/// sorted position and split an overfull leaf.
#[verifier::spinoff_prover]
#[verifier::rlimit(60)]
fn insert_leaf_at(nodes: &mut Vec<BTreeNode>, b: u64, h: u64, key: u64, value: u64) -> (r: (
    u64,
    Option<(u64, u64)>,
))
    requires
        wf_node(old(nodes)@, b as int, h as nat),
        old(nodes)@[b as int] is Leaf,
    ensures
        final(nodes)@.len() >= old(nodes)@.len(),
        forall|j: int| 0 <= j < old(nodes)@.len() ==> final(nodes)@[j] == old(nodes)@[j],
        r.0 >= old(nodes)@.len(),
        r.1 is None ==> wf_node(final(nodes)@, r.0 as int, h as nat) && interp(
            final(nodes)@,
            r.0 as int,
            h as nat,
        ) == spec_insert(interp(old(nodes)@, b as int, h as nat), key, value),
        r.1 matches Some((mk, rb)) ==> wf_node(final(nodes)@, r.0 as int, h as nat) && wf_node(
            final(nodes)@,
            rb as int,
            h as nat,
        ) && rb >= old(nodes)@.len() && interp(final(nodes)@, r.0 as int, h as nat) + interp(
            final(nodes)@,
            rb as int,
            h as nat,
        ) == spec_insert(interp(old(nodes)@, b as int, h as nat), key, value) && all_lt(
            interp(final(nodes)@, r.0 as int, h as nat),
            mk,
        ) && all_ge(interp(final(nodes)@, rb as int, h as nat), mk) && interp(
            final(nodes)@,
            r.0 as int,
            h as nat,
        ).len() >= 1 && interp(final(nodes)@, rb as int, h as nat).len() >= 1,
{
    let ghost store0 = nodes@;
    let ghost old_i = interp(nodes@, b as int, h as nat);
    let nlen = nodes.len();
    proof {
        assert(b < nlen as u64);
    }
    let (mut ks, mut cs): (Vec<u64>, Vec<u64>) = match &nodes[b as usize] {
        BTreeNode::Leaf { keys, values } => (clone_u64_vec(keys), clone_u64_vec(values)),
        BTreeNode::Internal { .. } => (Vec::new(), Vec::new()),
    };
    let ghost oks = ks@;
    let ghost ocs = cs@;
        proof {
            assert(old_i =~= zip_entries(oks, ocs));
        }
        let p: usize = match search_le(&ks, key) {
            Some(i) => {
                if ks[i] == key {
                    cs[i] = value;
                    proof {
                        lemma_insert_replace(oks, ocs, i as int, key, value);
                    }
                    let nb = nodes.len();
                    nodes.push(BTreeNode::Leaf { keys: ks, values: cs });
                    proof {
                        assert(interp(nodes@, nb as int, h as nat) =~= zip_entries(
                            oks,
                            ocs.update(i as int, value),
                        ));
                    }
                    return (nb as u64, None);
                }
                i + 1
            },
            None => 0,
        };
        ks.insert(p, key);
        cs.insert(p, value);
        proof {
            lemma_insert_splice(oks, ocs, p as int, key, value);
            lemma_sorted_insert(oks, p as int, key);
            assert(zip_entries(ks@, cs@) == spec_insert(old_i, key, value));
        }
        let ghost fk = ks@;
        let ghost fv = cs@;
        if ks.len() > MAX_ENTRIES {
            let mid = ks.len() / 2;
            let rks = ks.split_off(mid);
            let rvs = cs.split_off(mid);
            let mk = rks[0];
            let nb = nodes.len();
            nodes.push(BTreeNode::Leaf { keys: ks, values: cs });
            let rb = nodes.len();
            nodes.push(BTreeNode::Leaf { keys: rks, values: rvs });
            proof {
                let li = interp(nodes@, nb as int, h as nat);
                let ri = interp(nodes@, rb as int, h as nat);
                assert(li =~= zip_entries(fk, fv).subrange(0, mid as int));
                assert(ri =~= zip_entries(fk, fv).subrange(mid as int, fk.len() as int));
                assert(li + ri =~= zip_entries(fk, fv));
                assert(mk == fk[mid as int]);
            }
            return (nb as u64, Some((mk, rb as u64)));
        }
        let nb = nodes.len();
        nodes.push(BTreeNode::Leaf { keys: ks, values: cs });
        proof {
            assert(interp(nodes@, nb as int, h as nat) =~= zip_entries(fk, fv));
        }
        return (nb as u64, None);
}


/// Replacing child `i` by a copy holding `nins` folds to the old pieces
/// with `nins` in the middle, and keeps every routing obligation.
#[verifier::spinoff_prover]
proof fn lemma_rebuild_no_split(
    store1: Seq<BTreeNode>,
    ks1: Seq<u64>,
    ocs: Seq<u64>,
    i: int,
    nb_child: u64,
    nins: Seq<(u64, u64)>,
    hc: nat,
)
    requires
        ocs.len() == ks1.len(),
        0 <= i < ocs.len(),
        sorted_strict(ks1),
        forall|j: int| 0 <= j < ocs.len() ==> wf_node(store1, #[trigger] ocs[j] as int, hc),
        forall|j: int|
            0 <= j < ocs.len() ==> all_ge(interp(store1, #[trigger] ocs[j] as int, hc), ks1[j]),
        forall|j: int|
            0 <= j < ocs.len() - 1 ==> all_lt(
                interp(store1, #[trigger] ocs[j] as int, hc),
                ks1[j + 1],
            ),
        forall|j: int|
            0 <= j < ocs.len() ==> interp(store1, #[trigger] ocs[j] as int, hc).len() >= 1,
        wf_node(store1, nb_child as int, hc),
        interp(store1, nb_child as int, hc) == nins,
        all_ge(nins, ks1[i]),
        i + 1 < ocs.len() ==> all_lt(nins, ks1[i + 1]),
        nins.len() >= 1,
    ensures
        interp_children(store1, ocs.update(i, nb_child), hc, ocs.len() as int) == interp_children(
            store1,
            ocs,
            hc,
            i,
        ) + nins + interp_children(
            store1,
            ocs.subrange(i + 1, ocs.len() as int),
            hc,
            ocs.len() - i - 1,
        ),
        forall|j: int|
            0 <= j < ocs.len() ==> wf_node(
                store1,
                #[trigger] ocs.update(i, nb_child)[j] as int,
                hc,
            ),
        forall|j: int|
            0 <= j < ocs.len() ==> all_ge(
                interp(store1, #[trigger] ocs.update(i, nb_child)[j] as int, hc),
                ks1[j],
            ),
        forall|j: int|
            0 <= j < ocs.len() - 1 ==> all_lt(
                interp(store1, #[trigger] ocs.update(i, nb_child)[j] as int, hc),
                ks1[j + 1],
            ),
        forall|j: int|
            0 <= j < ocs.len() ==> interp(
                store1,
                #[trigger] ocs.update(i, nb_child)[j] as int,
                hc,
            ).len() >= 1,
{
    let ncs = ocs.update(i, nb_child);
    let n = ocs.len() as int;
    lemma_fold_three(store1, ncs, hc, i);
    lemma_interp_children_prefix(store1, ncs, ocs, hc, i);
    assert(ncs.subrange(i + 1, n) =~= ocs.subrange(i + 1, n));
    assert forall|j: int| 0 <= j < n implies wf_node(store1, #[trigger] ncs[j] as int, hc)
        && all_ge(interp(store1, ncs[j] as int, hc), ks1[j]) && interp(
        store1,
        ncs[j] as int,
        hc,
    ).len() >= 1 by {
        if j != i {
            assert(ncs[j] == ocs[j]);
        }
    }
    assert forall|j: int| 0 <= j < n - 1 implies all_lt(
        interp(store1, #[trigger] ncs[j] as int, hc),
        ks1[j + 1],
    ) by {
        if j != i {
            assert(ncs[j] == ocs[j]);
        }
    }
}

/// Replacing child `i` by a split pair folds to the old pieces with the
/// pair's entries in the middle, and the widened routing table stays
/// sorted and correct.
#[verifier::spinoff_prover]
#[verifier::rlimit(100)]
proof fn lemma_rebuild_split(
    store1: Seq<BTreeNode>,
    ks1: Seq<u64>,
    ocs: Seq<u64>,
    i: int,
    nb_child: u64,
    rbc: u64,
    mk: u64,
    nins: Seq<(u64, u64)>,
    hc: nat,
)
    requires
        ocs.len() == ks1.len(),
        0 <= i < ocs.len(),
        sorted_strict(ks1),
        forall|j: int| 0 <= j < ocs.len() ==> wf_node(store1, #[trigger] ocs[j] as int, hc),
        forall|j: int|
            0 <= j < ocs.len() ==> all_ge(interp(store1, #[trigger] ocs[j] as int, hc), ks1[j]),
        forall|j: int|
            0 <= j < ocs.len() - 1 ==> all_lt(
                interp(store1, #[trigger] ocs[j] as int, hc),
                ks1[j + 1],
            ),
        forall|j: int|
            0 <= j < ocs.len() ==> interp(store1, #[trigger] ocs[j] as int, hc).len() >= 1,
        wf_node(store1, nb_child as int, hc),
        wf_node(store1, rbc as int, hc),
        interp(store1, nb_child as int, hc) + interp(store1, rbc as int, hc) == nins,
        all_lt(interp(store1, nb_child as int, hc), mk),
        all_ge(interp(store1, rbc as int, hc), mk),
        interp(store1, nb_child as int, hc).len() >= 1,
        interp(store1, rbc as int, hc).len() >= 1,
        all_ge(nins, ks1[i]),
        i + 1 < ocs.len() ==> all_lt(nins, ks1[i + 1]),
    ensures
        interp_children(
            store1,
            ocs.update(i, nb_child).insert(i + 1, rbc),
            hc,
            ocs.len() as int + 1,
        ) == interp_children(store1, ocs, hc, i) + nins + interp_children(
            store1,
            ocs.subrange(i + 1, ocs.len() as int),
            hc,
            ocs.len() - i - 1,
        ),
        sorted_strict(ks1.insert(i + 1, mk)),
        forall|j: int|
            0 <= j < ocs.len() + 1 ==> wf_node(
                store1,
                #[trigger] ocs.update(i, nb_child).insert(i + 1, rbc)[j] as int,
                hc,
            ),
        forall|j: int|
            0 <= j < ocs.len() + 1 ==> all_ge(
                interp(store1, #[trigger] ocs.update(i, nb_child).insert(i + 1, rbc)[j] as int, hc),
                ks1.insert(i + 1, mk)[j],
            ),
        forall|j: int|
            0 <= j < ocs.len() ==> all_lt(
                interp(store1, #[trigger] ocs.update(i, nb_child).insert(i + 1, rbc)[j] as int, hc),
                ks1.insert(i + 1, mk)[j + 1],
            ),
        forall|j: int|
            0 <= j < ocs.len() + 1 ==> interp(
                store1,
                #[trigger] ocs.update(i, nb_child).insert(i + 1, rbc)[j] as int,
                hc,
            ).len() >= 1,
{
    let n = ocs.len() as int;
    let ncs = ocs.update(i, nb_child).insert(i + 1, rbc);
    let nks = ks1.insert(i + 1, mk);
    let li = interp(store1, nb_child as int, hc);
    let ri = interp(store1, rbc as int, hc);
    let ca = interp_children(store1, ocs, hc, i);
    let suffix = ocs.subrange(i + 1, n);
    let cb = interp_children(store1, suffix, hc, n - i - 1);
    // fold equality
    lemma_fold_three(store1, ncs, hc, i + 1);
    assert(ncs[i + 1] == rbc);
    lemma_interp_children_prefix(store1, ncs, ocs.update(i, nb_child), hc, i + 1);
    lemma_fold_three(store1, ocs.update(i, nb_child), hc, i);
    lemma_interp_children_prefix(store1, ocs.update(i, nb_child), ocs, hc, i);
    assert(ocs.update(i, nb_child).subrange(i + 1, n) =~= suffix);
    assert(interp_children(store1, ocs.update(i, nb_child), hc, i) == ca);
    assert(interp_children(store1, ncs, hc, i + 1) =~= ca + li);
    assert(ncs.subrange(i + 2, n + 1) =~= suffix);
    assert(interp_children(store1, ncs, hc, n + 1) =~= ca + li + ri + cb);
    assert(ca + li + ri + cb =~= ca + (li + ri) + cb);
    // the split key sits strictly between its routing neighbours
    assert forall|x: int| 0 <= x < li.len() implies (#[trigger] li[x]).0 >= ks1[i] by {
        assert(li[x] == (li + ri)[x]);
        assert((li + ri)[x] == nins[x]);
    }
    assert forall|x: int| 0 <= x < ri.len() implies (#[trigger] ri[x]).0 >= ks1[i] by {
        assert(ri[x] == (li + ri)[li.len() + x]);
        assert((li + ri)[li.len() + x] == nins[li.len() + x]);
    }
    assert(ks1[i] < mk) by {
        assert(li[0].0 >= ks1[i] && li[0].0 < mk);
    }
    if i + 1 < n {
        assert(mk < ks1[i + 1]) by {
            assert(ri[0] == nins[li.len() as int]);
            assert(all_lt(nins, ks1[i + 1]));
            assert(ri[0].0 < ks1[i + 1] && ri[0].0 >= mk);
        }
    }
    lemma_sorted_insert(ks1, i + 1, mk);
    // routing obligations for the widened table
    assert forall|j: int| 0 <= j < n + 1 implies wf_node(store1, #[trigger] ncs[j] as int, hc)
        && all_ge(interp(store1, ncs[j] as int, hc), nks[j]) && interp(
        store1,
        ncs[j] as int,
        hc,
    ).len() >= 1 by {
        if j < i {
            assert(ncs[j] == ocs[j] && nks[j] == ks1[j]);
        } else if j == i {
            assert(ncs[j] == nb_child && nks[j] == ks1[i]);
        } else if j == i + 1 {
            assert(ncs[j] == rbc && nks[j] == mk);
        } else {
            assert(ncs[j] == ocs[j - 1] && nks[j] == ks1[j - 1]);
        }
    }
    assert forall|j: int| 0 <= j < n implies all_lt(
        interp(store1, #[trigger] ncs[j] as int, hc),
        nks[j + 1],
    ) by {
        if j < i {
            assert(ncs[j] == ocs[j] && nks[j + 1] == ks1[j + 1]);
        } else if j == i {
            assert(ncs[j] == nb_child && nks[j + 1] == mk);
        } else if j == i + 1 {
            assert(ncs[j] == rbc && nks[j + 1] == ks1[i + 1]);
            assert(all_lt(nins, ks1[i + 1]));
            assert forall|x: int|
                0 <= x < ri.len() implies (#[trigger] ri[x]).0 < ks1[i + 1] by {
                assert(ri[x] == (li + ri)[li.len() + x]);
                assert((li + ri)[li.len() + x] == nins[li.len() + x]);
            }
        } else {
            assert(ncs[j] == ocs[j - 1] && nks[j + 1] == ks1[j]);
            assert(all_lt(interp(store1, ocs[j - 1] as int, hc), ks1[j]));
        }
    }
}

/// Internal-level insertion: route to the child, rebuild this node around
/// the copied child, and split if the routing table overflows.
#[verifier::spinoff_prover]
#[verifier::rlimit(100)]
fn insert_internal_at(nodes: &mut Vec<BTreeNode>, b: u64, h: u64, key: u64, value: u64) -> (r: (
    u64,
    Option<(u64, u64)>,
))
    requires
        wf_node(old(nodes)@, b as int, h as nat),
        old(nodes)@[b as int] is Internal,
    ensures
        final(nodes)@.len() >= old(nodes)@.len(),
        forall|j: int| 0 <= j < old(nodes)@.len() ==> final(nodes)@[j] == old(nodes)@[j],
        r.0 >= old(nodes)@.len(),
        r.1 is None ==> wf_node(final(nodes)@, r.0 as int, h as nat) && interp(
            final(nodes)@,
            r.0 as int,
            h as nat,
        ) == spec_insert(interp(old(nodes)@, b as int, h as nat), key, value),
        r.1 matches Some((mk, rb)) ==> wf_node(final(nodes)@, r.0 as int, h as nat) && wf_node(
            final(nodes)@,
            rb as int,
            h as nat,
        ) && rb >= old(nodes)@.len() && interp(final(nodes)@, r.0 as int, h as nat) + interp(
            final(nodes)@,
            rb as int,
            h as nat,
        ) == spec_insert(interp(old(nodes)@, b as int, h as nat), key, value) && all_lt(
            interp(final(nodes)@, r.0 as int, h as nat),
            mk,
        ) && all_ge(interp(final(nodes)@, rb as int, h as nat), mk) && interp(
            final(nodes)@,
            r.0 as int,
            h as nat,
        ).len() >= 1 && interp(final(nodes)@, rb as int, h as nat).len() >= 1,
    decreases h, 0int,
{
    let ghost store0 = nodes@;
    let ghost old_i = interp(nodes@, b as int, h as nat);
    let nlen = nodes.len();
    proof {
        assert(b < nlen as u64);
    }
    let (mut ks, mut cs): (Vec<u64>, Vec<u64>) = match &nodes[b as usize] {
        BTreeNode::Internal { keys, children } => (clone_u64_vec(keys), clone_u64_vec(children)),
        BTreeNode::Leaf { .. } => (Vec::new(), Vec::new()),
    };
    let ghost oks = ks@;
    let ghost ocs = cs@;
    let ghost hc = (h - 1) as nat;
    let ghost n = ocs.len() as int;
    let i: usize = match search_le(&ks, key) {
        Some(i) => i,
        None => {
            // the key precedes every routing key: lower the leftmost bound
            ks[0] = key;
            0
        },
    };
    let ghost ks1 = ks@;
    proof {
        // routing keys around the chosen child still bracket the key
        assert(ks1[i as int] <= key);
        assert(forall|j: int| i < j < n ==> oks[j] > key);
        assert(sorted_strict(ks1));
        assert(forall|j: int|
            0 <= j < n ==> wf_node(store0, #[trigger] ocs[j] as int, hc) && all_ge(
                interp(store0, ocs[j] as int, hc),
                oks[j],
            ));
        assert(forall|j: int|
            0 <= j < n - 1 ==> all_lt(interp(store0, #[trigger] ocs[j] as int, hc), oks[j + 1]));
    }
    let ghost ca = interp_children(store0, ocs, hc, i as int);
    let ghost cc = interp(store0, ocs[i as int] as int, hc);
    let ghost suffix = ocs.subrange(i as int + 1, n);
    let ghost cb = interp_children(store0, suffix, hc, n - i - 1);
    proof {
        lemma_fold_three(store0, ocs, hc, i as int);
        assert(old_i == ca + cc + cb);
        // entries left of the child are below the key, entries right are above
        assert forall|j: int| 0 <= j < i as int implies all_lt(
            interp(store0, #[trigger] ocs[j] as int, hc),
            key,
        ) by {
            assert(all_lt(interp(store0, ocs[j] as int, hc), oks[j + 1]));
            assert(oks[j + 1] <= oks[i as int]);
            assert(oks[i as int] == ks1[i as int] || (i == 0));
            assert(forall|x: int|
                0 <= x < interp(store0, ocs[j] as int, hc).len() ==> (#[trigger] interp(
                    store0,
                    ocs[j] as int,
                    hc,
                )[x]).0 < key);
        }
        lemma_fold_lt(store0, ocs, hc, i as int, key);
        assert forall|j: int| 0 <= j < n - i - 1 implies all_gt(
            interp(store0, #[trigger] suffix[j] as int, hc),
            key,
        ) by {
            assert(suffix[j] == ocs[i as int + 1 + j]);
            assert(all_ge(interp(store0, ocs[i as int + 1 + j] as int, hc), oks[i as int + 1 + j]));
            assert(oks[i as int + 1 + j] > key);
            assert(forall|x: int|
                0 <= x < interp(store0, suffix[j] as int, hc).len() ==> (#[trigger] interp(
                    store0,
                    suffix[j] as int,
                    hc,
                )[x]).0 > key);
        }
        lemma_fold_gt(store0, suffix, hc, n - i - 1, key);
    }
    let child = cs[i];
    proof {
        assert(h >= 1);
    }
    let (nb_child, sp) = insert_at(nodes, child, h - 1, key, value);
    let ghost store1 = nodes@;
    proof {
        // unchanged children keep their shape and entries in the grown store
        lemma_frame_children(store0, store1, ocs, hc, n);
        lemma_frame_children(store0, store1, suffix, hc, n - i - 1);
        assert(interp_children(store1, ocs, hc, i as int) == ca) by {
            lemma_interp_children_prefix(store1, ocs, ocs, hc, i as int);
            lemma_frame_children(store0, store1, ocs, hc, i as int);
        }
        assert(interp_children(store1, suffix, hc, n - i - 1) == cb);
    }
    cs[i] = nb_child;
    let mut extra: usize = 0;
    match sp {
        Some((mk, rbc)) => {
            ks.insert(i + 1, mk);
            cs.insert(i + 1, rbc);
            extra = 1;
        },
        None => {},
    }
    let ghost nks = ks@;
    let ghost ncs = cs@;
    let ghost nins = spec_insert(cc, key, value);
    proof {
        lemma_insert_ge(cc, key, value, ks1[i as int]);
        if i as int + 1 < n {
            lemma_insert_lt(cc, key, value, ks1[i as int + 1]);
        }
        lemma_insert_len(cc, key, value);
    }
    proof {
        // the rebuilt child list folds to the old entries with the pair added
        match sp {
            None => {
                lemma_rebuild_no_split(store1, ks1, ocs, i as int, nb_child, nins, hc);
                assert(ncs =~= ocs.update(i as int, nb_child));
                assert(nks == ks1);
                assert(interp_children(store1, ncs, hc, ncs.len() as int) == ca + nins + cb);
            },
            Some((mk, rbc)) => {
                lemma_rebuild_split(store1, ks1, ocs, i as int, nb_child, rbc, mk, nins, hc);
                assert(ncs =~= ocs.update(i as int, nb_child).insert(i as int + 1, rbc));
                assert(nks =~= ks1.insert(i as int + 1, mk));
                assert(interp_children(store1, ncs, hc, ncs.len() as int) == ca + nins + cb);
                assert(sorted_strict(nks));
            },
        }
        // folding the pieces back is insertion into the whole
        lemma_insert_concat_left(ca, cc + cb, key, value);
        lemma_insert_concat_right(cc, cb, key, value);
        assert(ca + (cc + cb) =~= ca + cc + cb);
        assert(ca + (nins + cb) =~= ca + nins + cb);
        assert(spec_insert(old_i, key, value) == ca + nins + cb);
        // routing obligations carry over to the rebuilt table
        assert(forall|j: int|
            0 <= j < ncs.len() ==> wf_node(store1, #[trigger] ncs[j] as int, hc));
        assert(forall|j: int|
            0 <= j < ncs.len() ==> all_ge(interp(store1, #[trigger] ncs[j] as int, hc), nks[j]));
        assert(forall|j: int|
            0 <= j < ncs.len() - 1 ==> all_lt(
                interp(store1, #[trigger] ncs[j] as int, hc),
                nks[j + 1],
            ));
        assert(forall|j: int|
            0 <= j < ncs.len() ==> interp(store1, #[trigger] ncs[j] as int, hc).len() >= 1);
    }
    let ghost full_interp = ca + nins + cb;
    if ks.len() > MAX_ENTRIES {
        let (nb, mk, rb) = split_push_internal(nodes, ks, cs, h);
        return (nb, Some((mk, rb)));
    }
    let nb = nodes.len();
    nodes.push(BTreeNode::Internal { keys: ks, children: cs });
    proof {
        let store2 = nodes@;
        lemma_frame_children(store1, store2, ncs, hc, ncs.len() as int);
        assert(wf_node(store2, nb as int, h as nat));
        assert(interp(store2, nb as int, h as nat) == full_interp);
    }
    (nb as u64, None)
}

/// Splits an overfull routing table in two, pushing both halves as fresh
/// internal nodes; the split key is the right half's first routing key.
#[verifier::spinoff_prover]
#[verifier::rlimit(100)]
fn split_push_internal(nodes: &mut Vec<BTreeNode>, ks_in: Vec<u64>, cs_in: Vec<u64>, h: u64) -> (r:
    (u64, u64, u64))
    requires
        h >= 1,
        ks_in@.len() == cs_in@.len(),
        2 <= ks_in@.len() <= MAX_ENTRIES + 1,
        sorted_strict(ks_in@),
        forall|j: int|
            0 <= j < cs_in@.len() ==> wf_node(
                old(nodes)@,
                #[trigger] cs_in@[j] as int,
                (h - 1) as nat,
            ),
        forall|j: int|
            0 <= j < cs_in@.len() ==> all_ge(
                interp(old(nodes)@, #[trigger] cs_in@[j] as int, (h - 1) as nat),
                ks_in@[j],
            ),
        forall|j: int|
            0 <= j < cs_in@.len() - 1 ==> all_lt(
                interp(old(nodes)@, #[trigger] cs_in@[j] as int, (h - 1) as nat),
                ks_in@[j + 1],
            ),
        forall|j: int|
            0 <= j < cs_in@.len() ==> interp(
                old(nodes)@,
                #[trigger] cs_in@[j] as int,
                (h - 1) as nat,
            ).len() >= 1,
    ensures
        final(nodes)@.len() >= old(nodes)@.len(),
        forall|j: int| 0 <= j < old(nodes)@.len() ==> final(nodes)@[j] == old(nodes)@[j],
        r.0 >= old(nodes)@.len(),
        r.2 >= old(nodes)@.len(),
        wf_node(final(nodes)@, r.0 as int, h as nat),
        wf_node(final(nodes)@, r.2 as int, h as nat),
        interp(final(nodes)@, r.0 as int, h as nat) + interp(final(nodes)@, r.2 as int, h as nat)
            == interp_children(old(nodes)@, cs_in@, (h - 1) as nat, cs_in@.len() as int),
        all_lt(interp(final(nodes)@, r.0 as int, h as nat), r.1),
        all_ge(interp(final(nodes)@, r.2 as int, h as nat), r.1),
        interp(final(nodes)@, r.0 as int, h as nat).len() >= 1,
        interp(final(nodes)@, r.2 as int, h as nat).len() >= 1,
{
    let mut ks = ks_in;
    let mut cs = cs_in;
    let ghost nks = ks@;
    let ghost ncs = cs@;
    let ghost store1 = nodes@;
    let ghost hc = (h - 1) as nat;
    let ghost full_interp = interp_children(store1, ncs, hc, ncs.len() as int);
    {
        let mid = ks.len() / 2;
        let rks = ks.split_off(mid);
        let rcs = cs.split_off(mid);
        let mk = rks[0];
        let nb = nodes.len();
        nodes.push(BTreeNode::Internal { keys: ks, children: cs });
        let rb = nodes.len();
        nodes.push(BTreeNode::Internal { keys: rks, children: rcs });
        proof {
            let store2 = nodes@;
            let lcs = ncs.subrange(0, mid as int);
            let rcs_s = ncs.subrange(mid as int, ncs.len() as int);
            lemma_frame_children(store1, store2, ncs, hc, ncs.len() as int);
            // both halves stay well formed
            assert forall|j: int| 0 <= j < lcs.len() implies wf_node(
                store2,
                #[trigger] lcs[j] as int,
                hc,
            ) && all_ge(interp(store2, lcs[j] as int, hc), nks.subrange(0, mid as int)[j]) by {
                assert(lcs[j] == ncs[j]);
                assert(interp(store2, ncs[j] as int, hc) == interp(store1, ncs[j] as int, hc));
            }
            assert forall|j: int| 0 <= j < lcs.len() - 1 implies all_lt(
                interp(store2, #[trigger] lcs[j] as int, hc),
                nks.subrange(0, mid as int)[j + 1],
            ) by {
                assert(lcs[j] == ncs[j]);
                assert(interp(store2, ncs[j] as int, hc) == interp(store1, ncs[j] as int, hc));
            }
            assert forall|j: int| 0 <= j < rcs_s.len() implies wf_node(
                store2,
                #[trigger] rcs_s[j] as int,
                hc,
            ) && all_ge(
                interp(store2, rcs_s[j] as int, hc),
                nks.subrange(mid as int, nks.len() as int)[j],
            ) by {
                assert(rcs_s[j] == ncs[mid as int + j]);
                assert(interp(store2, ncs[mid as int + j] as int, hc) == interp(
                    store1,
                    ncs[mid as int + j] as int,
                    hc,
                ));
            }
            assert forall|j: int| 0 <= j < rcs_s.len() - 1 implies all_lt(
                interp(store2, #[trigger] rcs_s[j] as int, hc),
                nks.subrange(mid as int, nks.len() as int)[j + 1],
            ) by {
                assert(rcs_s[j] == ncs[mid as int + j]);
                assert(interp(store2, ncs[mid as int + j] as int, hc) == interp(
                    store1,
                    ncs[mid as int + j] as int,
                    hc,
                ));
            }
            assert(wf_node(store2, nb as int, h as nat));
            assert(wf_node(store2, rb as int, h as nat));
            // the two folds concatenate to the whole
            let li = interp(store2, nb as int, h as nat);
            let ri = interp(store2, rb as int, h as nat);
            lemma_interp_children_split(store2, ncs, hc, mid as int, ncs.len() - mid as int);
            lemma_interp_children_prefix(store2, ncs, lcs, hc, mid as int);
            lemma_interp_children_prefix(
                store2,
                ncs.subrange(mid as int, ncs.len() as int),
                rcs_s,
                hc,
                ncs.len() - mid as int,
            );
            lemma_frame_children(store1, store2, ncs, hc, ncs.len() as int);
            assert(interp_children(store2, ncs, hc, ncs.len() as int) == full_interp);
            assert(li + ri == full_interp);
            // the split key bounds the halves
            assert(all_lt(li, mk)) by {
                assert forall|j: int| 0 <= j < mid as int implies all_lt(
                    interp(store2, #[trigger] lcs[j] as int, hc),
                    mk,
                ) by {
                    assert(lcs[j] == ncs[j]);
                    assert(all_lt(interp(store1, ncs[j] as int, hc), nks[j + 1]));
                    assert(nks[j + 1] <= nks[mid as int]);
                    assert(forall|x: int|
                        0 <= x < interp(store2, ncs[j] as int, hc).len() ==> (#[trigger] interp(
                            store2,
                            ncs[j] as int,
                            hc,
                        )[x]).0 < mk);
                }
                lemma_fold_lt(store2, lcs, hc, mid as int, mk);
            }
            assert(all_ge(ri, mk)) by {
                assert forall|j: int| 0 <= j < rcs_s.len() implies all_ge(
                    interp(store2, #[trigger] rcs_s[j] as int, hc),
                    mk,
                ) by {
                    assert(rcs_s[j] == ncs[mid as int + j]);
                    assert(all_ge(interp(store1, ncs[mid as int + j] as int, hc), nks[mid as int
                        + j]));
                    assert(nks[mid as int] <= nks[mid as int + j]);
                    assert(forall|x: int|
                        0 <= x < interp(store2, ncs[mid as int + j] as int, hc).len() ==> (
                        #[trigger] interp(store2, ncs[mid as int + j] as int, hc)[x]).0 >= mk);
                }
                lemma_fold_ge(store2, rcs_s, hc, rcs_s.len() as int, mk);
            }
            // each half routes at least one child, so neither is empty
            assert(li.len() >= 1) by {
                assert(interp(store2, lcs[0] as int, hc).len() >= 1);
                lemma_fold_nonempty(store2, lcs, hc, mid as int);
            }
            assert(ri.len() >= 1) by {
                assert(interp(store2, rcs_s[0] as int, hc).len() >= 1);
                lemma_fold_nonempty(store2, rcs_s, hc, rcs_s.len() as int);
            }
        }
        return (nb as u64, mk, rb as u64);
    }
}


/// Law: after an insertion, the inserted key finds the new value and every
/// other key finds what it found before. With `BTree::insert`'s contract
/// this pins the lookup of each key to the last value inserted for it.
pub proof fn lemma_insert_lookup(s: Seq<(u64, u64)>, key: u64, value: u64)
    ensures
        find_in(spec_insert(s, key, value), key) == Some(value),
        forall|k2: u64|
            k2 != key ==> #[trigger] find_in(spec_insert(s, key, value), k2) == find_in(s, k2),
    decreases s.len(),
{
    assert forall|k2: u64| k2 != key implies #[trigger] find_in(spec_insert(s, key, value), k2)
        == find_in(s, k2) by {
        lemma_insert_find_other(s, key, value, k2);
    }
    lemma_insert_find_self(s, key, value);
}

/// The inserted pair is found under its key.
proof fn lemma_insert_find_self(s: Seq<(u64, u64)>, key: u64, value: u64)
    ensures
        find_in(spec_insert(s, key, value), key) == Some(value),
    decreases s.len(),
{
    let t = spec_insert(s, key, value);
    if s.len() == 0 {
        assert(t == seq![(key, value)]);
    } else if key < s[0].0 || key == s[0].0 {
        assert(t[0] == (key, value));
    } else {
        assert(t == seq![s[0]] + spec_insert(s.drop_first(), key, value));
        assert(t[0] == s[0] && t[0].0 != key);
        assert(t.drop_first() =~= spec_insert(s.drop_first(), key, value));
        lemma_insert_find_self(s.drop_first(), key, value);
    }
}

/// Every other key still finds its old value.
proof fn lemma_insert_find_other(s: Seq<(u64, u64)>, key: u64, value: u64, k2: u64)
    requires
        k2 != key,
    ensures
        find_in(spec_insert(s, key, value), k2) == find_in(s, k2),
    decreases s.len(),
{
    reveal_with_fuel(find_in, 3);
    let t = spec_insert(s, key, value);
    if s.len() == 0 {
        assert(t == seq![(key, value)]);
        assert(t.drop_first() =~= Seq::<(u64, u64)>::empty());
    } else if key < s[0].0 {
        assert(t == seq![(key, value)] + s);
        assert(t.drop_first() =~= s);
    } else if key == s[0].0 {
        assert(t == seq![(key, value)] + s.drop_first());
        assert(t.drop_first() =~= s.drop_first());
        assert(find_in(s, k2) == find_in(s.drop_first(), k2));
    } else {
        assert(t == seq![s[0]] + spec_insert(s.drop_first(), key, value));
        assert(t[0] == s[0]);
        assert(t.drop_first() =~= spec_insert(s.drop_first(), key, value));
        lemma_insert_find_other(s.drop_first(), key, value, k2);
    }
}

/// Law: a well-formed subtree's entries come out in strictly ascending key
/// order, so a walk visits keys ascending.
pub proof fn lemma_interp_sorted(nodes: Seq<BTreeNode>, b: int, h: nat)
    requires
        wf_node(nodes, b, h),
    ensures
        sorted_strict(entry_keys(interp(nodes, b, h))),
    decreases h, 0int, 0int,
{
    match nodes[b] {
        BTreeNode::Leaf { keys, values } => {
            assert(entry_keys(interp(nodes, b, h)) =~= keys@);
        },
        BTreeNode::Internal { keys, children } => {
            lemma_children_sorted(nodes, keys@, children@, (h - 1) as nat, children@.len() as int);
        },
    }
}

/// The fold over the first `n` children is sorted, and bounded by the
/// routing key that follows it.
proof fn lemma_children_sorted(nodes: Seq<BTreeNode>, ks: Seq<u64>, ch: Seq<u64>, hc: nat, n: int)
    requires
        ks.len() == ch.len(),
        0 <= n <= ch.len(),
        sorted_strict(ks),
        forall|j: int| 0 <= j < ch.len() ==> wf_node(nodes, #[trigger] ch[j] as int, hc),
        forall|j: int|
            0 <= j < ch.len() ==> all_ge(interp(nodes, #[trigger] ch[j] as int, hc), ks[j]),
        forall|j: int|
            0 <= j < ch.len() - 1 ==> all_lt(interp(nodes, #[trigger] ch[j] as int, hc), ks[j + 1]),
    ensures
        sorted_strict(entry_keys(interp_children(nodes, ch, hc, n))),
        n < ch.len() ==> all_lt(interp_children(nodes, ch, hc, n), ks[n]),
    decreases hc, 1int, n,
{
    if n > 0 {
        lemma_children_sorted(nodes, ks, ch, hc, n - 1);
        lemma_interp_sorted(nodes, ch[n - 1] as int, hc);
        let a = interp_children(nodes, ch, hc, n - 1);
        let c = interp(nodes, ch[n - 1] as int, hc);
        assert(entry_keys(a + c) =~= entry_keys(a) + entry_keys(c));
        assert forall|x: int, y: int| 0 <= x < y < (a + c).len() implies entry_keys(a + c)[x]
            < entry_keys(a + c)[y] by {
            if y < a.len() {
                assert(entry_keys(a)[x] < entry_keys(a)[y]);
            } else if x >= a.len() {
                assert(entry_keys(c)[x - a.len()] < entry_keys(c)[y - a.len()]);
            } else {
                assert((a + c)[x] == a[x] && (a + c)[y] == c[y - a.len()]);
                if n - 1 > 0 {
                    assert(a[x].0 < ks[n - 1]);
                    assert(c[y - a.len()].0 >= ks[n - 1]);
                } else {
                    assert(a.len() == 0);
                }
            }
        }
        if n < ch.len() {
            assert forall|x: int| 0 <= x < (a + c).len() implies ((a + c)[x]).0 < ks[n] by {
                if x < a.len() {
                    assert(((a + c)[x]) == a[x]);
                    assert(ks[n - 1] < ks[n]);
                } else {
                    assert(((a + c)[x]) == c[x - a.len()]);
                }
            }
        }
    }
}

/// Collects the entries below node `b`, leftmost first.
fn walk_at(nodes: &Vec<BTreeNode>, b: u64, h: u64) -> (r: Vec<(u64, u64)>)
    requires
        wf_node(nodes@, b as int, h as nat),
    ensures
        r@ == interp(nodes@, b as int, h as nat),
    decreases h,
{
    let nlen = nodes.len();
    proof {
        assert(b < nlen as u64);
    }
    match &nodes[b as usize] {
        BTreeNode::Leaf { keys, values } => {
            let mut out: Vec<(u64, u64)> = Vec::new();
            let mut i: usize = 0;
            while i < keys.len()
                invariant
                    i <= keys@.len(),
                    keys@.len() == values@.len(),
                    out@ =~= zip_entries(keys@, values@).subrange(0, i as int),
                decreases keys@.len() - i,
            {
                out.push((keys[i], values[i]));
                proof {
                    assert(out@ =~= zip_entries(keys@, values@).subrange(0, i as int + 1));
                }
                i = i + 1;
            }
            proof {
                assert(out@ =~= zip_entries(keys@, values@));
                assert(interp(nodes@, b as int, h as nat) =~= zip_entries(keys@, values@));
            }
            out
        },
        BTreeNode::Internal { keys, children } => {
            let ghost hc = (h - 1) as nat;
            let mut out: Vec<(u64, u64)> = Vec::new();
            let mut i: usize = 0;
            proof {
                assert(h >= 1);
            }
            while i < children.len()
                invariant
                    i <= children@.len(),
                    h >= 1,
                    out@ == interp_children(nodes@, children@, hc, i as int),
                    hc == (h - 1) as nat,
                    forall|j: int|
                        0 <= j < children@.len() ==> wf_node(nodes@, #[trigger] children@[j] as int, hc),
                decreases children@.len() - i,
            {
                let mut sub = walk_at(nodes, children[i], h - 1);
                out.append(&mut sub);
                i = i + 1;
            }
            proof {
                assert(out@ == interp(nodes@, b as int, h as nat));
            }
            out
        },
    }
}

impl BTree {
    /// The tree's height: leaves sit at height zero.
    pub closed spec fn spec_height(&self) -> u64 {
        self.height
    }

    /// Inserts the pair, copying the traversed path into fresh blocks.
    ///
    /// Every block of the pre-insert tree keeps its contents: an untouched
    /// sibling's block is bit-for-bit what it was, and the old root still
    /// describes the old tree.
    pub fn insert(&mut self, key: u64, value: u64) -> (r: Result<(), MetadataError>)
        requires
            old(self).wf(),
            old(self).spec_height() < 0xffff_ffff_ffff_ffffu64,
        ensures
            r == Ok::<(), MetadataError>(()),
            final(self).wf(),
            final(self).as_entries() == spec_insert(old(self).as_entries(), key, value),
            final(self).spec_blocks().len() >= old(self).spec_blocks().len(),
            forall|j: int|
                0 <= j < old(self).spec_blocks().len() ==> final(self).spec_blocks()[j] == old(
                    self,
                ).spec_blocks()[j],
            final(self).spec_root() >= old(self).spec_blocks().len(),
            final(self).spec_height() <= old(self).spec_height() + 1,
    {
        let (nb, sp) = insert_at(&mut self.nodes, self.root, self.height, key, value);
        match sp {
            None => {
                self.root = nb;
            },
            Some((mk, rb)) => {
                let ghost store1 = self.nodes@;
                let ghost li = interp(store1, nb as int, self.height as nat);
                let ghost ri = interp(store1, rb as int, self.height as nat);
                let mut kv: Vec<u64> = Vec::new();
                kv.push(0);
                kv.push(mk);
                let mut cv: Vec<u64> = Vec::new();
                cv.push(nb);
                cv.push(rb);
                let nr = self.nodes.len();
                self.nodes.push(BTreeNode::Internal { keys: kv, children: cv });
                proof {
                    let store2 = self.nodes@;
                    let h = self.height as nat;
                    assert(li.len() >= 1);
                    assert(mk > li[0].0);
                    lemma_frame(store1, store2, nb as int, h);
                    lemma_frame(store1, store2, rb as int, h);
                    let ch = store2[nr as int]->Internal_children;
                    assert(ch@ =~= seq![nb, rb]);
                    assert(ch@[0] == nb && ch@[1] == rb);
                    assert(interp_children(store2, ch@, h, 0) =~= Seq::<(u64, u64)>::empty());
                    assert(interp_children(store2, ch@, h, 1) =~= interp(store2, nb as int, h));
                    assert(interp_children(store2, ch@, h, 2) =~= interp(store2, nb as int, h)
                        + interp(store2, rb as int, h));
                    assert(wf_node(store2, nr as int, (h + 1) as nat));
                    assert(interp(store2, nr as int, (h + 1) as nat) == li + ri);
                }
                self.root = nr as u64;
                self.height = self.height + 1;
            },
        }
        Ok(())
    }

    /// Walks the whole tree in order: every entry, keys strictly ascending.
    pub fn walk(&self) -> (r: Vec<(u64, u64)>)
        requires
            self.wf(),
        ensures
            r@ == self.as_entries(),
            sorted_strict(entry_keys(r@)),
    {
        proof {
            lemma_interp_sorted(self.nodes@, self.root as int, self.height as nat);
        }
        walk_at(&self.nodes, self.root, self.height)
    }
}


//------------------------------------------
// Node codec

/// Eight 64-bit words, little-endian, one after the other.
pub open spec fn spec_words_bytes(ws: Seq<u64>) -> Seq<u8>
    decreases ws.len(),
{
    if ws.len() == 0 {
        Seq::empty()
    } else {
        spec_u64_to_le_bytes(ws[0]) + spec_words_bytes(ws.drop_first())
    }
}

/// Serializing distributes over appending a word.
pub proof fn lemma_words_bytes_push(ws: Seq<u64>, w: u64)
    ensures
        spec_words_bytes(ws.push(w)) == spec_words_bytes(ws) + spec_u64_to_le_bytes(w),
        spec_words_bytes(ws).len() == 8 * ws.len(),
    decreases ws.len(),
{
    lemma_auto_spec_u64_to_from_le_bytes();
    lemma_words_bytes_len(ws);
    reveal_with_fuel(spec_words_bytes, 3);
    if ws.len() == 0 {
        assert(ws.push(w)[0] == w);
        assert(ws.push(w).drop_first() =~= Seq::<u64>::empty());
        assert(spec_words_bytes(ws.push(w)) =~= spec_words_bytes(ws) + spec_u64_to_le_bytes(w));
    } else {
        assert(ws.push(w)[0] == ws[0]);
        assert(ws.push(w).drop_first() =~= ws.drop_first().push(w));
        lemma_words_bytes_push(ws.drop_first(), w);
        assert(spec_words_bytes(ws.push(w)) =~= spec_words_bytes(ws) + spec_u64_to_le_bytes(w));
    }
}

/// Word `i` of a serialized word array starting at `base`.
pub open spec fn spec_word_at(data: Seq<u8>, base: int, i: int) -> u64 {
    spec_u64_from_le_bytes(data.subrange(base + 8 * i, base + 8 * i + 8))
}

/// Each word of a serialized array reads back as itself.
pub proof fn lemma_words_bytes_index(ws: Seq<u64>, i: int)
    requires
        0 <= i < ws.len(),
    ensures
        spec_words_bytes(ws).len() == 8 * ws.len(),
        spec_words_bytes(ws).subrange(8 * i, 8 * i + 8) == spec_u64_to_le_bytes(ws[i]),
    decreases i,
{
    lemma_auto_spec_u64_to_from_le_bytes();
    if ws.len() > 0 {
        if i == 0 {
            lemma_words_bytes_len(ws.drop_first());
            assert(spec_words_bytes(ws).subrange(0, 8) =~= spec_u64_to_le_bytes(ws[0]));
        } else {
            lemma_words_bytes_index(ws.drop_first(), i - 1);
            lemma_words_bytes_len(ws.drop_first());
            assert(spec_words_bytes(ws).subrange(8 * i, 8 * i + 8) =~= spec_words_bytes(
                ws.drop_first(),
            ).subrange(8 * (i - 1), 8 * (i - 1) + 8));
        }
    }
}

/// A serialized word array is eight bytes per word.
pub proof fn lemma_words_bytes_len(ws: Seq<u64>)
    ensures
        spec_words_bytes(ws).len() == 8 * ws.len(),
    decreases ws.len(),
{
    lemma_auto_spec_u64_to_from_le_bytes();
    if ws.len() > 0 {
        lemma_words_bytes_len(ws.drop_first());
    }
}

/// A node's key or value array padded out to the full eight slots.
pub open spec fn spec_padded(ws: Seq<u64>) -> Seq<u64> {
    Seq::new(8, |i: int| if i < ws.len() { ws[i] } else { 0u64 })
}

/// The stored node-type tag of a node.
pub open spec fn spec_node_flags(n: BTreeNode) -> u32 {
    match n {
        BTreeNode::Internal { .. } => NODE_FLAGS_INTERNAL,
        BTreeNode::Leaf { .. } => NODE_FLAGS_LEAF,
    }
}

/// A node's keys.
pub open spec fn spec_node_keys(n: BTreeNode) -> Seq<u64> {
    match n {
        BTreeNode::Internal { keys, .. } => keys@,
        BTreeNode::Leaf { keys, .. } => keys@,
    }
}

/// A node's values: child block numbers, or the leaf payloads.
pub open spec fn spec_node_values(n: BTreeNode) -> Seq<u64> {
    match n {
        BTreeNode::Internal { children, .. } => children@,
        BTreeNode::Leaf { values, .. } => values@,
    }
}

/// A packed node: header with the checksum and self-reference slots left
/// zero for the write batcher to patch, then the padded keys and values.
pub open spec fn spec_node_bytes(n: BTreeNode) -> Seq<u8> {
    spec_u32_to_le_bytes(0) + spec_u32_to_le_bytes(spec_node_flags(n)) + spec_u64_to_le_bytes(0)
        + spec_u32_to_le_bytes(spec_node_keys(n).len() as u32) + spec_u32_to_le_bytes(
        MAX_ENTRIES as u32,
    ) + spec_u32_to_le_bytes(8) + spec_u32_to_le_bytes(0) + spec_words_bytes(
        spec_padded(spec_node_keys(n)),
    ) + spec_words_bytes(spec_padded(spec_node_values(n))) + Seq::new(3936, |i: int| 0u8)
}

/// Serializes the padded form of a word array.
fn pack_words(out: &mut Vec<u8>, ws: &Vec<u64>)
    requires
        ws@.len() <= 8,
    ensures
        final(out)@ == old(out)@ + spec_words_bytes(spec_padded(ws@)),
{
    let ghost p = spec_padded(ws@);
    let mut i: usize = 0;
    while i < 8
        invariant
            i <= 8,
            ws@.len() <= 8,
            p == spec_padded(ws@),
            out@ == old(out)@ + spec_words_bytes(p.subrange(0, i as int)),
        decreases 8 - i,
    {
        let w: u64 = if i < ws.len() {
            ws[i]
        } else {
            0
        };
        proof {
            assert(w == p[i as int]);
            assert(p.subrange(0, i as int + 1) =~= p.subrange(0, i as int).push(p[i as int]));
            lemma_words_bytes_push(p.subrange(0, i as int), p[i as int]);
        }
        push_u64_le(out, w);
        i = i + 1;
    }
    proof {
        assert(p.subrange(0, 8) =~= p);
    }
}

impl BTreeNode {
    /// Bytes this record takes on disk: one whole block.
    pub fn disk_size() -> (r: u32)
        ensures
            r == 4096,
    {
        4096
    }

    /// Serializes a node for the write batcher to patch and queue.
    pub fn pack(&self) -> (r: Vec<u8>)
        requires
            spec_node_keys(*self).len() <= 8,
            spec_node_values(*self).len() <= 8,
        ensures
            r@ == spec_node_bytes(*self),
            r@.len() == 4096,
    {
        let mut out: Vec<u8> = Vec::new();
        push_u32_le(&mut out, 0);
        let flags: u32 = match self {
            BTreeNode::Internal { .. } => NODE_FLAGS_INTERNAL,
            BTreeNode::Leaf { .. } => NODE_FLAGS_LEAF,
        };
        push_u32_le(&mut out, flags);
        push_u64_le(&mut out, 0);
        let (keys, values) = match self {
            BTreeNode::Internal { keys, children } => (keys, children),
            BTreeNode::Leaf { keys, values } => (keys, values),
        };
        push_u32_le(&mut out, keys.len() as u32);
        push_u32_le(&mut out, MAX_ENTRIES as u32);
        push_u32_le(&mut out, 8);
        push_u32_le(&mut out, 0);
        pack_words(&mut out, keys);
        pack_words(&mut out, values);
        let mut z: usize = 0;
        let ghost before_tail = out@;
        while z < 3936
            invariant
                z <= 3936,
                out@ == before_tail + Seq::new(z as nat, |i: int| 0u8),
            decreases 3936 - z,
        {
            out.push(0);
            proof {
                assert(before_tail + Seq::new((z + 1) as nat, |i: int| 0u8) =~= (before_tail
                    + Seq::new(z as nat, |i: int| 0u8)).push(0u8));
            }
            z = z + 1;
        }
        proof {
            lemma_auto_spec_u32_to_from_le_bytes();
            lemma_auto_spec_u64_to_from_le_bytes();
            lemma_words_bytes_len(spec_padded(keys@));
            lemma_words_bytes_len(spec_padded(values@));
            assert(out@ =~= spec_node_bytes(*self));
        }
        out
    }

    /// Decodes a node. The checksum and self-reference are the block
    /// layer's to check; here the shape and the entry count must fit.
    pub fn unpack(data: &[u8]) -> (r: Result<BTreeNode, MetadataError>)
        ensures
            data@.len() < 4096 ==> r == Err::<BTreeNode, MetadataError>(
                MetadataError::ShortBuffer,
            ),
            r matches Ok(n) ==> {
                &&& data@.len() >= 4096
                &&& spec_node_flags(n) == spec_u32_from_le_bytes(data@.subrange(4, 8))
                &&& spec_node_keys(n).len() == spec_u32_from_le_bytes(data@.subrange(16, 20))
                &&& spec_node_keys(n).len() == spec_node_values(n).len()
                &&& spec_node_keys(n).len() <= 8
                &&& forall|i: int|
                    0 <= i < spec_node_keys(n).len() ==> #[trigger] spec_node_keys(n)[i]
                        == spec_word_at(data@, 32, i)
                &&& forall|i: int|
                    0 <= i < spec_node_values(n).len() ==> #[trigger] spec_node_values(n)[i]
                        == spec_word_at(data@, 96, i)
            },
    {
        proof {
            vstd::slice::axiom_spec_len(data);
        }
        if data.len() < 4096 {
            return Err(MetadataError::ShortBuffer);
        }
        let flags = read_u32_at(data, 4);
        let nr = read_u32_at(data, 16);
        let max = read_u32_at(data, 20);
        let value_size = read_u32_at(data, 24);
        if max != MAX_ENTRIES as u32 || value_size != 8 || nr > MAX_ENTRIES as u32 {
            return Err(MetadataError::Corrupt);
        }
        let mut keys: Vec<u64> = Vec::new();
        let mut values: Vec<u64> = Vec::new();
        let mut i: usize = 0;
        while i < nr as usize
            invariant
                i <= nr <= 8,
                data@.len() >= 160,
                keys@.len() == i,
                values@.len() == i,
                forall|j: int| 0 <= j < i ==> #[trigger] keys@[j] == spec_word_at(data@, 32, j),
                forall|j: int|
                    0 <= j < i ==> #[trigger] values@[j] == spec_word_at(data@, 96, j),
            decreases nr - i,
        {
            keys.push(read_u64_at(data, 32 + 8 * i));
            values.push(read_u64_at(data, 96 + 8 * i));
            i = i + 1;
        }
        if flags == NODE_FLAGS_INTERNAL {
            Ok(BTreeNode::Internal { keys, children: values })
        } else if flags == NODE_FLAGS_LEAF {
            Ok(BTreeNode::Leaf { keys, values })
        } else {
            Err(MetadataError::Corrupt)
        }
    }
}

/// Unpacking the packed form of any node with matching key and value
/// counts yields its fields back.
pub proof fn lemma_node_round_trip(n: BTreeNode)
    requires
        spec_node_keys(n).len() <= 8,
        spec_node_keys(n).len() == spec_node_values(n).len(),
    ensures
        spec_node_bytes(n).len() == 4096,
        spec_u32_from_le_bytes(spec_node_bytes(n).subrange(4, 8)) == spec_node_flags(n),
        spec_u32_from_le_bytes(spec_node_bytes(n).subrange(16, 20)) == spec_node_keys(n).len(),
        forall|i: int|
            0 <= i < spec_node_keys(n).len() ==> #[trigger] spec_word_at(spec_node_bytes(n), 32, i)
                == spec_node_keys(n)[i],
        forall|i: int|
            0 <= i < spec_node_values(n).len() ==> #[trigger] spec_word_at(
                spec_node_bytes(n),
                96,
                i,
            ) == spec_node_values(n)[i],
{
    lemma_auto_spec_u32_to_from_le_bytes();
    lemma_auto_spec_u64_to_from_le_bytes();
    let s = spec_node_bytes(n);
    let kb = spec_words_bytes(spec_padded(spec_node_keys(n)));
    let vb = spec_words_bytes(spec_padded(spec_node_values(n)));
    lemma_words_bytes_len(spec_padded(spec_node_keys(n)));
    lemma_words_bytes_len(spec_padded(spec_node_values(n)));
    assert(s.subrange(4, 8) =~= spec_u32_to_le_bytes(spec_node_flags(n)));
    assert(s.subrange(16, 20) =~= spec_u32_to_le_bytes(spec_node_keys(n).len() as u32));
    assert forall|i: int| 0 <= i < spec_node_keys(n).len() implies #[trigger] spec_word_at(
        s,
        32,
        i,
    ) == spec_node_keys(n)[i] by {
        lemma_words_bytes_index(spec_padded(spec_node_keys(n)), i);
        assert(s.subrange(32 + 8 * i, 32 + 8 * i + 8) =~= kb.subrange(8 * i, 8 * i + 8));
    }
    assert forall|i: int| 0 <= i < spec_node_values(n).len() implies #[trigger] spec_word_at(
        s,
        96,
        i,
    ) == spec_node_values(n)[i] by {
        lemma_words_bytes_index(spec_padded(spec_node_values(n)), i);
        assert(s.subrange(96 + 8 * i, 96 + 8 * i + 8) =~= vb.subrange(8 * i, 8 * i + 8));
    }
}


} // verus!
