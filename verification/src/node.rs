//! R-tree nodes: entries, branch nodes, the root wrapper, and the
//! height and partition arithmetic of the bulk loader.

use crate::bbox::{spec_empty, spec_extend, spec_intersects, spec_x_mid2, spec_y_mid2, BBox};
use crate::common::Id;
use vstd::prelude::*;

verus! {

/// Number of entries per node.
pub const M_NODE: usize = 6;

/// Six to the power `h`.
pub open spec fn pow6(h: nat) -> nat
    decreases h,
{
    if h == 0 {
        1
    } else {
        6 * pow6((h - 1) as nat)
    }
}

/// Powers of six are positive and exceed their exponent.
pub proof fn lemma_pow6_gt(h: nat)
    ensures
        pow6(h) > h,
    decreases h,
{
    if h > 0 {
        lemma_pow6_gt((h - 1) as nat);
    }
}

/// Powers of six are monotonic.
pub proof fn lemma_pow6_mono(a: nat, b: nat)
    requires
        a <= b,
    ensures
        pow6(a) <= pow6(b),
    decreases b,
{
    if a < b {
        lemma_pow6_mono(a, (b - 1) as nat);
        lemma_pow6_gt((b - 1) as nat);
    }
}

/// `h` is the height of a tree over `n` elements: the smallest positive
/// integer with `6^h >= n`.
pub open spec fn is_height(n: nat, h: nat) -> bool {
    h >= 1 && pow6(h) >= n && (h == 1 || pow6((h - 1) as nat) < n)
}

/// The height of a tree over `n` elements.
pub open spec fn spec_height(n: nat) -> nat {
    choose|h: nat| is_height(n, h)
}

/// Some height qualifies below any capacity bound that suffices.
proof fn lemma_height_exists_below(n: nat, cap: nat)
    requires
        cap >= 1,
        pow6(cap) >= n,
    ensures
        exists|h: nat| is_height(n, h),
    decreases cap,
{
    if cap == 1 {
        assert(is_height(n, 1));
    } else if pow6((cap - 1) as nat) >= n {
        lemma_height_exists_below(n, (cap - 1) as nat);
    } else {
        assert(is_height(n, cap));
    }
}

/// `spec_height` is the height of a tree over `n` elements.
pub proof fn lemma_height_is_height(n: nat)
    ensures
        is_height(n, spec_height(n)),
{
    lemma_pow6_gt(if n == 0 {
        1
    } else {
        n
    });
    lemma_height_exists_below(
        n,
        if n == 0 {
            1
        } else {
            n
        },
    );
    let h = choose|h: nat| is_height(n, h);
    assert(is_height(n, h));
}

/// The height of a tree over `n` elements is unique.
pub proof fn lemma_height_unique(n: nat, h1: nat, h2: nat)
    requires
        is_height(n, h1),
        is_height(n, h2),
    ensures
        h1 == h2,
{
    if h1 < h2 {
        lemma_pow6_mono(h1, (h2 - 1) as nat);
    }
    if h2 < h1 {
        lemma_pow6_mono(h2, (h1 - 1) as nat);
    }
}

/// The ceiling of `n / p` is at most `k` when `n <= k * p`.
pub proof fn lemma_ceil_div_le(n: int, p: int, k: int)
    requires
        p >= 1,
        0 <= k,
        n <= k * p,
    ensures
        (n + p - 1) / p <= k,
{
    assert(p * (k + 1) == p * k + p) by (nonlinear_arith);
    assert(k * p == p * k) by (nonlinear_arith);
    vstd::arithmetic::div_mod::lemma_multiply_divide_lt(n + p - 1, p, k + 1);
}

/// The ceiling of `n / p` is at least `k + 1` when `n > k * p`.
pub proof fn lemma_ceil_div_ge(n: int, p: int, k: int)
    requires
        p >= 1,
        0 <= k,
        n > k * p,
    ensures
        (n + p - 1) / p >= k + 1,
{
    assert(p * (k + 1) == k * p + p) by (nonlinear_arith);
    vstd::arithmetic::div_mod::lemma_div_is_ordered(p * (k + 1), n + p - 1, p);
    vstd::arithmetic::div_mod::lemma_div_multiples_vanish(k + 1, p);
}

/// Where the ceiling of `n / p` falls for the group counts the root
/// partition distinguishes.
pub proof fn lemma_ceil_div_range(n: int, p: int)
    requires
        n >= 1,
        p >= 1,
    ensures
        n <= p ==> (n + p - 1) / p == 1,
        p < n <= 4 * p ==> 2 <= (n + p - 1) / p <= 4,
        4 * p < n <= 6 * p ==> 5 <= (n + p - 1) / p <= 6,
{
    if n <= p {
        lemma_ceil_div_le(n, p, 1);
        lemma_ceil_div_ge(n, p, 0);
    } else if n <= 4 * p {
        lemma_ceil_div_le(n, p, 4);
        lemma_ceil_div_ge(n, p, 1);
    } else if n <= 6 * p {
        lemma_ceil_div_le(n, p, 6);
        lemma_ceil_div_ge(n, p, 4);
    }
}

/// Entry in a file: a chunk identifier together with the bounding box of
/// everything reachable through it.
#[derive(Clone, Copy, Debug, PartialEq, Eq, Structural)]
pub struct Entry {
    /// Identifier of the geometry or node chunk (file offset).
    pub id: Id,
    /// Bounding box of the referenced subtree or geometry.
    pub bbox: BBox,
}

impl Entry {
    /// Create a new entry.
    pub fn new(id: Id, bbox: BBox) -> (r: Self)
        ensures
            r == (Entry { id, bbox }),
    {
        Entry { id, bbox }
    }

    /// Get the entry Id.
    pub fn id(&self) -> (r: Id)
        ensures
            r == self.id,
    {
        self.id
    }

    /// Get the entry bounding box.
    pub fn bbox(&self) -> (r: BBox)
        ensures
            r == self.bbox,
    {
        self.bbox
    }

    /// Whether the entry is valid and its box intersects `bbox`.
    pub fn bounded_by(&self, bbox: &BBox) -> (r: bool)
        ensures
            r == (self.id@ > 0 && spec_intersects(self.bbox, *bbox)),
    {
        self.id.is_valid() && self.bbox.bounded_by(bbox)
    }

    /// Whether this entry's box centre lies left of `rhs`'s, comparing by
    /// X midpoint.
    pub fn compare_x(&self, rhs: &Self) -> (r: bool)
        ensures
            r == (spec_x_mid2(self.bbox) <= spec_x_mid2(rhs.bbox)),
    {
        (self.bbox.x_min as i128 + self.bbox.x_max as i128) <= (rhs.bbox.x_min as i128
            + rhs.bbox.x_max as i128)
    }

    /// Whether this entry's box centre lies below `rhs`'s, comparing by Y
    /// midpoint.
    pub fn compare_y(&self, rhs: &Self) -> (r: bool)
        ensures
            r == (spec_y_mid2(self.bbox) <= spec_y_mid2(rhs.bbox)),
    {
        (self.bbox.y_min as i128 + self.bbox.y_max as i128) <= (rhs.bbox.y_min as i128
            + rhs.bbox.y_max as i128)
    }
}

impl Default for Entry {
    /// The absent entry: identifier zero and an empty box.
    fn default() -> (r: Self)
        ensures
            r.id@ == 0,
            r.bbox == (BBox { x_min: i64::MAX, y_min: i64::MAX, x_max: i64::MIN, y_max: i64::MIN }),
    {
        proof {
            crate::common::lemma_spec_id(0);
        }
        Entry { id: Id::new(0), bbox: BBox::empty() }
    }
}

/// The union of the bounding boxes of a sequence of entries.
pub open spec fn spec_entries_bbox(s: Seq<Entry>) -> BBox
    decreases s.len(),
{
    if s.len() == 0 {
        BBox { x_min: i64::MAX, y_min: i64::MAX, x_max: i64::MIN, y_max: i64::MIN }
    } else {
        spec_extend(spec_entries_bbox(s.drop_last()), s.last().bbox)
    }
}

/// The union box contains the box of each entry.
pub proof fn lemma_entries_bbox_contains(s: Seq<Entry>, i: int)
    requires
        0 <= i < s.len(),
    ensures
        crate::bbox::spec_contains(spec_entries_bbox(s), s[i].bbox),
    decreases s.len(),
{
    crate::bbox::lemma_extend_contains(spec_entries_bbox(s.drop_last()), s.last().bbox);
    if i < s.len() - 1 {
        lemma_entries_bbox_contains(s.drop_last(), i);
        crate::bbox::lemma_contains_trans(
            spec_entries_bbox(s),
            spec_entries_bbox(s.drop_last()),
            s.drop_last()[i].bbox,
        );
    }
}

/// Node of the R-tree: up to `M_NODE` valid entries.  On disk the node
/// always occupies `M_NODE` slots; absent slots are dropped on decode.
#[derive(Clone, Debug)]
pub struct Node {
    /// The valid entries.
    children: Vec<Entry>,
}

impl View for Node {
    type V = Seq<Entry>;

    closed spec fn view(&self) -> Seq<Entry> {
        self.children@
    }
}

impl Node {
    /// At most `M_NODE` entries, every one valid.
    pub open spec fn wf(&self) -> bool {
        self@.len() <= M_NODE && forall|i: int| 0 <= i < self@.len() ==> self@[i].id@ > 0
    }

    /// Get the height of a tree over `n_elem` elements.
    pub fn height(n_elem: usize) -> (r: usize)
        ensures
            is_height(n_elem as nat, r as nat),
            r as nat == spec_height(n_elem as nat),
    {
        proof {
            lemma_height_is_height(n_elem as nat);
        }
        proof {
            assert(pow6(0) == 1);
            assert(pow6(1) == 6);
        }
        let mut capacity: u128 = 6;
        let mut h: usize = 1;
        while capacity < n_elem as u128
            invariant
                1 <= h,
                capacity == pow6(h as nat),
                h > 1 ==> pow6((h - 1) as nat) < n_elem,
            decreases n_elem as int - h as int,
        {
            proof {
                lemma_pow6_gt(h as nat);
                assert(h < n_elem);
                assert(capacity >= 1);
            }
            capacity = capacity * 6;
            h = h + 1;
        }
        proof {
            lemma_height_unique(n_elem as nat, h as nat, spec_height(n_elem as nat));
        }
        h
    }

    /// Calculate the number of groups to partition on each axis at the
    /// root: the ceiling square root of the ceiling of `n_elem` divided
    /// by the subtree capacity.
    pub fn root_groups(n_elem: usize) -> (r: usize)
        requires
            n_elem >= 1,
        ensures
            1 <= r <= 3,
            forall|h: nat|
                is_height(n_elem as nat, h) ==> {
                    let p = pow6((h - 1) as nat) as int;
                    let s = (n_elem + p - 1) / p;
                    r * r >= s && (r - 1) * (r - 1) < s
                },
    {
        let h = Node::height(n_elem);
        let p = Node::partition_sz(h);
        proof {
            lemma_pow6_gt((h - 1) as nat);
            assert(pow6(h as nat) == 6 * pow6((h - 1) as nat));
            assert forall|h2: nat| is_height(n_elem as nat, h2) implies h2 == h as nat by {
                lemma_height_unique(n_elem as nat, h2, h as nat);
            }
        }
        let r: usize = if n_elem as u128 <= p as u128 {
            1
        } else if n_elem as u128 <= 4 * (p as u128) {
            2
        } else {
            3
        };
        proof {
            let pn = pow6((h - 1) as nat) as int;
            let s = (n_elem + pn - 1) / pn;
            lemma_ceil_div_range(n_elem as int, pn);
            assert(n_elem <= 6 * pn);
            if n_elem <= pn {
                assert(s <= 1);
            } else if n_elem <= 4 * pn {
                assert(2 <= s <= 4);
            } else {
                assert(5 <= s <= 6);
            }
        }
        r
    }

    /// Get the partition size for a subtree: the number of leaf
    /// geometries a subtree of the given height can hold.
    pub fn partition_sz(height: usize) -> (r: usize)
        requires
            height >= 1,
            pow6((height - 1) as nat) <= usize::MAX,
        ensures
            r == pow6((height - 1) as nat),
    {
        let mut p: u128 = 1;
        let mut i: usize = 1;
        while i < height
            invariant
                1 <= i <= height || (height <= 1 && i == 1),
                p == pow6((i - 1) as nat),
                height >= 1,
                pow6((height - 1) as nat) <= usize::MAX,
            decreases height as int - i as int,
        {
            proof {
                lemma_pow6_mono(i as nat, (height - 1) as nat);
            }
            p = p * 6;
            i = i + 1;
        }
        proof {
            lemma_pow6_mono((i - 1) as nat, (height - 1) as nat);
        }
        p as usize
    }

    /// Create a new node with no entries.
    pub fn new() -> (r: Self)
        ensures
            r@ == Seq::<Entry>::empty(),
            r.wf(),
    {
        Node { children: Vec::new() }
    }

    /// Push a child entry.
    pub fn push(&mut self, id: Id, bbox: BBox)
        requires
            old(self).wf(),
            old(self)@.len() < M_NODE,
            id@ > 0,
        ensures
            final(self)@ == old(self)@ + seq![Entry { id, bbox }],
            final(self).wf(),
    {
        self.children.push(Entry { id, bbox });
    }

    /// The number of entries.
    pub fn len(&self) -> (r: usize)
        ensures
            r == self@.len(),
    {
        self.children.len()
    }

    /// The entry at `i`.
    pub fn child(&self, i: usize) -> (r: Entry)
        requires
            i < self@.len(),
        ensures
            r == self@[i as int],
    {
        self.children[i]
    }

    /// Get the bounding box: the union over the entries.
    pub fn bbox(&self) -> (r: BBox)
        ensures
            r == spec_entries_bbox(self@),
    {
        let mut bbox = BBox::empty();
        let mut i: usize = 0;
        while i < self.children.len()
            invariant
                0 <= i <= self@.len(),
                bbox == spec_entries_bbox(self@.take(i as int)),
            decreases self@.len() - i,
        {
            proof {
                assert(self@.take(i + 1).drop_last() =~= self@.take(i as int));
                assert(self@.take(i + 1).last() == self@[i as int]);
            }
            bbox.extend(&self.children[i].bbox);
            i = i + 1;
        }
        proof {
            assert(self@.take(self@.len() as int) =~= self@);
        }
        bbox
    }

    /// Build a node from a vector of valid entries.
    pub fn from_entries(entries: Vec<Entry>) -> (r: Self)
        requires
            entries@.len() <= M_NODE,
            forall|i: int| 0 <= i < entries@.len() ==> entries@[i].id@ > 0,
        ensures
            r@ == entries@,
            r.wf(),
    {
        Node { children: entries }
    }

    /// Give up the node and take its entries.
    pub fn into_entries(self) -> (r: Vec<Entry>)
        ensures
            r@ == self@,
    {
        self.children
    }
}

/// Root node: the outermost node together with the total element count,
/// from which the height of the tree is derived.
#[derive(Clone, Debug)]
pub struct Root {
    /// Node containing the topmost entries.
    pub node: Node,
    /// Number of leaf geometries in the tree.
    pub n_elem: usize,
}

impl Root {
    /// Create a new root.
    pub fn new(node: Node, n_elem: usize) -> (r: Self)
        ensures
            r.node == node,
            r.n_elem == n_elem,
    {
        Self { node, n_elem }
    }

    /// Get the number of elements.
    pub fn n_elem(&self) -> (r: usize)
        ensures
            r == self.n_elem,
    {
        self.n_elem
    }

    /// Give up the root and take the inner node.
    pub fn into_node(self) -> (r: Node)
        ensures
            r == self.node,
    {
        self.node
    }
}

} // verus!
