//! R-tree bulk writer: Overlap Minimizing Top-down construction.
//!
//! Geometries are staged into one file image and indexed by an entry
//! vector; the entries are then partitioned recursively, the leaves are
//! copied into the final image grouped by locality, and the nodes are
//! laid down depth first with the root last, followed by the
//! checkpoint.

use crate::bbox::{spec_x_mid2, spec_y_mid2, BBox};
use crate::common::{Error, Id};
use crate::gis::{Geom, GeomModel, Gis};
use crate::node::{Entry, Node, Root, M_NODE};
use crate::reader::Reader;
use crate::writer::Writer;
use vstd::prelude::*;
use vstd::multiset::Multiset;
use vstd::seq_lib::group_to_multiset_ensures;

verus! {

/// Axis for sorting.
#[derive(Copy, Clone, Debug, PartialEq, Eq, Structural)]
pub enum Axis {
    /// Sort by X midpoint.
    X,
    /// Sort by Y midpoint.
    Y,
}

/// The axis used at the given height: kept at odd heights, flipped at
/// even ones.
pub open spec fn spec_with_height(axis: Axis, height: nat) -> Axis {
    if height % 2 != 0 {
        axis
    } else {
        match axis {
            Axis::X => Axis::Y,
            Axis::Y => Axis::X,
        }
    }
}

impl Axis {
    /// The axis to sort on at the given height.
    pub fn with_height(self, height: usize) -> (r: Self)
        ensures
            r == spec_with_height(self, height as nat),
    {
        if height % 2 != 0 {
            self
        } else {
            match self {
                Axis::X => Axis::Y,
                Axis::Y => Axis::X,
            }
        }
    }
}

/// The order the given axis sorts entries by: twice the box midpoint on
/// that axis.
pub open spec fn spec_axis_le(axis: Axis, a: Entry, b: Entry) -> bool {
    match axis {
        Axis::X => spec_x_mid2(a.bbox) <= spec_x_mid2(b.bbox),
        Axis::Y => spec_y_mid2(a.bbox) <= spec_y_mid2(b.bbox),
    }
}

/// Compare two entries on an axis.
fn axis_le(axis: Axis, a: &Entry, b: &Entry) -> (r: bool)
    ensures
        r == spec_axis_le(axis, *a, *b),
{
    match axis {
        Axis::X => a.compare_x(b),
        Axis::Y => a.compare_y(b),
    }
}

/// A range of a sequence is sorted on an axis.
pub open spec fn spec_sorted_range(s: Seq<Entry>, lo: int, hi: int, axis: Axis) -> bool {
    forall|a: int, b: int| lo <= a <= b < hi ==> spec_axis_le(axis, #[trigger] s[a], #[trigger] s[b])
}

/// Sort `v[lo..hi]` on an axis by repeated selection of the least
/// remaining entry.  The rest of the vector does not move.
fn sort_range(v: &mut Vec<Entry>, lo: usize, hi: usize, axis: Axis)
    requires
        lo <= hi <= old(v)@.len(),
    ensures
        final(v)@.len() == old(v)@.len(),
        final(v)@.subrange(0, lo as int) == old(v)@.subrange(0, lo as int),
        final(v)@.subrange(hi as int, old(v)@.len() as int) == old(v)@.subrange(
            hi as int,
            old(v)@.len() as int,
        ),
        final(v)@.subrange(lo as int, hi as int).to_multiset() == old(v)@.subrange(
            lo as int,
            hi as int,
        ).to_multiset(),
        spec_sorted_range(final(v)@, lo as int, hi as int, axis),
{
    broadcast use group_to_multiset_ensures;

    let ghost orig = v@;
    let mut src: Vec<Entry> = Vec::new();
    let mut i: usize = lo;
    while i < hi
        invariant
            lo <= i <= hi <= v@.len(),
            v@ == orig,
            src@ == orig.subrange(lo as int, i as int),
        decreases hi - i,
    {
        src.push(v[i]);
        proof {
            assert(orig.subrange(lo as int, i as int).push(orig[i as int]) =~= orig.subrange(
                lo as int,
                i + 1,
            ));
        }
        i = i + 1;
    }
    let mut out: Vec<Entry> = Vec::new();
    while src.len() > 0
        invariant
            v@ == orig,
            lo <= hi <= orig.len(),
            out@.len() + src@.len() == hi - lo,
            out@.to_multiset().add(src@.to_multiset()) == orig.subrange(
                lo as int,
                hi as int,
            ).to_multiset(),
            spec_sorted_range(out@, 0, out@.len() as int, axis),
            forall|a: int, b: int|
                0 <= a < out@.len() && 0 <= b < src@.len() ==> spec_axis_le(
                    axis,
                    #[trigger] out@[a],
                    #[trigger] src@[b],
                ),
        decreases src@.len(),
    {
        let mut m: usize = 0;
        let mut j: usize = 1;
        while j < src.len()
            invariant
                0 <= m < j <= src@.len(),
                forall|k: int| 0 <= k < j ==> spec_axis_le(axis, src@[m as int], #[trigger] src@[k]),
            decreases src@.len() - j,
        {
            if !axis_le(axis, &src[m], &src[j]) {
                m = j;
                proof {
                    assert forall|k: int| 0 <= k < j + 1 implies spec_axis_le(
                        axis,
                        src@[m as int],
                        src@[k],
                    ) by {
                        assert(spec_axis_le(axis, src@[m as int], src@[m as int]));
                    }
                }
            }
            j = j + 1;
        }
        let ghost pre_src = src@;
        let ghost pre_out = out@;
        let x = src.remove(m);
        out.push(x);
        proof {
            broadcast use group_to_multiset_ensures;
            broadcast use vstd::multiset::group_multiset_axioms;

            assert(pre_src.remove(m as int).to_multiset() =~= pre_src.to_multiset().remove(x));
            assert(pre_out.push(x).to_multiset() =~= pre_out.to_multiset().insert(x));
            assert(pre_src.to_multiset().count(x) > 0) by {
                assert(pre_src[m as int] == x);
                assert(pre_src.contains(x));
            }
            assert(out@.to_multiset().add(src@.to_multiset()) =~= pre_out.to_multiset().add(
                pre_src.to_multiset(),
            ));
            assert forall|a: int, b: int|
                0 <= a < out@.len() && 0 <= b < src@.len() implies spec_axis_le(
                axis,
                out@[a],
                src@[b],
            ) by {
                let sb = if b < m {
                    pre_src[b]
                } else {
                    pre_src[b + 1]
                };
                assert(src@[b] == sb);
                if a < pre_out.len() {
                    assert(out@[a] == pre_out[a]);
                    assert(spec_axis_le(axis, pre_out[a], sb));
                } else {
                    assert(out@[a] == x);
                    assert(spec_axis_le(axis, pre_src[m as int], sb));
                }
            }
            assert forall|a: int, b: int|
                0 <= a <= b < out@.len() implies spec_axis_le(axis, out@[a], out@[b]) by {
                if b < pre_out.len() {
                    assert(spec_axis_le(axis, pre_out[a], pre_out[b]));
                } else {
                    assert(out@[b] == x);
                    if a < pre_out.len() {
                        assert(spec_axis_le(axis, pre_out[a], pre_src[m as int]));
                    } else {
                        assert(spec_axis_le(axis, x, x));
                    }
                }
            }
        }
    }
    let mut k: usize = 0;
    while k < out.len()
        invariant
            lo <= hi <= v@.len(),
            v@.len() == orig.len(),
            out@.len() == hi - lo,
            k <= out@.len(),
            forall|t: int| 0 <= t < lo ==> v@[t] == orig[t],
            forall|t: int| hi <= t < orig.len() ==> v@[t] == orig[t],
            forall|t: int| 0 <= t < k ==> v@[lo + t] == #[trigger] out@[t],
            forall|t: int| k <= t < out@.len() ==> #[trigger] v@[lo + t] == orig[lo + t],
            out@.to_multiset() == orig.subrange(lo as int, hi as int).to_multiset(),
            spec_sorted_range(out@, 0, out@.len() as int, axis),
        decreases out@.len() - k,
    {
        let e = out[k];
        v.set(lo + k, e);
        k = k + 1;
    }
    proof {
        assert(v@.subrange(0, lo as int) =~= orig.subrange(0, lo as int));
        assert(v@.subrange(hi as int, orig.len() as int) =~= orig.subrange(
            hi as int,
            orig.len() as int,
        ));
        assert(v@.subrange(lo as int, hi as int) =~= out@);
        assert forall|a: int, b: int| lo <= a <= b < hi implies spec_axis_le(
            axis,
            v@[a],
            v@[b],
        ) by {
            assert(v@[a] == out@[a - lo]);
            assert(v@[b] == out@[b - lo]);
        }
    }
}

/// A mapped sequence keeps its multiset under any permutation of the
/// source.
pub proof fn lemma_to_multiset_map(s1: Seq<Entry>, s2: Seq<Entry>, f: spec_fn(Entry) -> GeomModel)
    requires
        s1.to_multiset() == s2.to_multiset(),
    ensures
        s1.map_values(f).to_multiset() == s2.map_values(f).to_multiset(),
    decreases s1.len(),
{
    broadcast use group_to_multiset_ensures;
    broadcast use vstd::multiset::group_multiset_axioms;

    if s1.len() == 0 {
        assert(s1.to_multiset().len() == 0);
        assert(s2.to_multiset().len() == s2.len());
        assert(s2.len() == 0);
        assert(s1.map_values(f) =~= s2.map_values(f));
    } else {
        let x = s1.last();
        assert(s1.contains(x));
        assert(s2.to_multiset().count(x) > 0);
        assert(s2.contains(x));
        let j = choose|j: int| 0 <= j < s2.len() && s2[j] == x;
        let s1r = s1.remove(s1.len() - 1);
        let s2r = s2.remove(j);
        assert(s1r =~= s1.drop_last());
        assert(s1r.to_multiset() == s1.to_multiset().remove(x));
        assert(s2r.to_multiset() == s2.to_multiset().remove(x));
        lemma_to_multiset_map(s1r, s2r, f);
        assert(s1r.map_values(f) =~= s1.map_values(f).remove(s1.len() - 1));
        assert(s2r.map_values(f) =~= s2.map_values(f).remove(j));
        assert(s1.map_values(f).remove(s1.len() - 1).to_multiset() == s1.map_values(
            f,
        ).to_multiset().remove(f(x))) by {
            assert(s1.map_values(f)[s1.len() - 1] == f(x));
        }
        assert(s2.map_values(f).remove(j).to_multiset() == s2.map_values(f).to_multiset().remove(
            f(x),
        )) by {
            assert(s2.map_values(f)[j] == f(x));
        }
        assert(s1.map_values(f).to_multiset().count(f(x)) > 0) by {
            assert(s1.map_values(f)[s1.len() - 1] == f(x));
            assert(s1.map_values(f).contains(f(x)));
        }
        assert(s2.map_values(f).to_multiset().count(f(x)) > 0) by {
            assert(s2.map_values(f)[j] == f(x));
            assert(s2.map_values(f).contains(f(x)));
        }
        assert(s1.map_values(f).to_multiset() =~= s1.map_values(f).to_multiset().remove(
            f(x),
        ).insert(f(x)));
        assert(s2.map_values(f).to_multiset() =~= s2.map_values(f).to_multiset().remove(
            f(x),
        ).insert(f(x)));
    }
}

/// The geometry chunk laid down at `id` still reads back once at least a
/// checkpoint's worth of bytes follows it.
pub open spec fn spec_future_geom(img: Seq<u8>, id: u64, g: GeomModel) -> bool {
    forall|suf: Seq<u8>|
        #![trigger crate::tree::spec_geom_at(img + suf, id)]
        suf.len() >= 13 ==> crate::tree::spec_geom_at(img + suf, id) == Some(g)
}

/// A future geometry fact survives appends to the image.
pub proof fn lemma_future_geom_grow(img: Seq<u8>, more: Seq<u8>, id: u64, g: GeomModel)
    requires
        spec_future_geom(img, id, g),
    ensures
        spec_future_geom(img + more, id, g),
{
    assert forall|suf: Seq<u8>| suf.len() >= 13 implies crate::tree::spec_geom_at(
        (img + more) + suf,
        id,
    ) == Some(g) by {
        let s2 = more + suf;
        assert(s2.len() >= 13);
        assert(crate::tree::spec_geom_at(img + s2, id) == Some(g));
        assert((img + more) + suf =~= img + s2);
    }
}

/// Framing a geometry payload at the end of the image yields a future
/// geometry fact for the image length before the append.
pub proof fn lemma_push_future_geom(pre: Seq<u8>, payload: Seq<u8>, g: GeomModel)
    requires
        8 <= pre.len() <= u64::MAX,
        payload.len() <= u64::MAX,
        crate::codec::spec_dec_geom(payload) == Some(g),
    ensures
        spec_future_geom(pre + crate::chunk::spec_frame(payload), pre.len() as u64, g),
{
    let img = pre + crate::chunk::spec_frame(payload);
    assert forall|suf: Seq<u8>| suf.len() >= 13 implies crate::tree::spec_geom_at(
        img + suf,
        pre.len() as u64,
    ) == Some(g) by {
        crate::chunk::lemma_frame_len(payload);
        assert(img + suf =~= pre + crate::chunk::spec_frame(payload) + suf);
        crate::laws::lemma_chunk_roundtrip(pre, payload, suf);
    }
}

/// A subtree entry that is well-formed in every future of the image,
/// with a fixed item sequence.
pub open spec fn spec_future_entry(img: Seq<u8>, e: Entry, h: nat, items: Seq<GeomModel>) -> bool {
    forall|suf: Seq<u8>|
        #![trigger crate::tree::spec_wf_entry(img + suf, e, h)]
        suf.len() >= 13 ==> crate::tree::spec_wf_entry(img + suf, e, h)
            && crate::tree::spec_subtree_items(img + suf, e.id@, h) == items
}

/// A future entry fact survives appends to the image.
pub proof fn lemma_future_entry_grow(
    img: Seq<u8>,
    more: Seq<u8>,
    e: Entry,
    h: nat,
    items: Seq<GeomModel>,
)
    requires
        spec_future_entry(img, e, h, items),
    ensures
        spec_future_entry(img + more, e, h, items),
{
    assert forall|suf: Seq<u8>| suf.len() >= 13 implies crate::tree::spec_wf_entry(
        (img + more) + suf,
        e,
        h,
    ) && crate::tree::spec_subtree_items((img + more) + suf, e.id@, h) == items by {
        let s2 = more + suf;
        assert(s2.len() >= 13);
        assert(crate::tree::spec_wf_entry(img + s2, e, h));
        assert(crate::tree::spec_subtree_items(img + s2, e.id@, h) == items);
        assert((img + more) + suf =~= img + s2);
    }
}

/// The items below a row of geometry entries, in traversal order: the
/// models reversed.
pub proof fn lemma_leaf_items(data: Seq<u8>, s: Seq<Entry>, models: Seq<GeomModel>)
    requires
        s.len() == models.len(),
        forall|j: int|
            0 <= j < s.len() ==> crate::tree::spec_geom_at(data, (#[trigger] s[j]).id@) == Some(
                models[j],
            ),
    ensures
        crate::tree::spec_children_items(data, s, 1) == models.reverse(),
    decreases s.len(),
{
    if s.len() == 0 {
        assert(models.reverse() =~= Seq::<GeomModel>::empty());
    } else {
        assert(forall|j: int| 0 <= j < s.len() - 1 ==> s.drop_last()[j] == s[j]);
        lemma_leaf_items(data, s.drop_last(), models.drop_last());
        assert(crate::tree::spec_subtree_items(data, s.last().id@, 1) =~= seq![
            models.last(),
        ]);
        assert(seq![models.last()] + models.drop_last().reverse() =~= models.reverse());
    }
}

/// The concatenation of a row of item sequences, last first.
pub open spec fn spec_cat_rev(items: Seq<Seq<GeomModel>>) -> Seq<GeomModel>
    decreases items.len(),
{
    if items.len() == 0 {
        Seq::<GeomModel>::empty()
    } else {
        items.last() + spec_cat_rev(items.drop_last())
    }
}

/// The items below a row of subtree entries, in traversal order: the
/// rows' item sequences concatenated, last first.
pub proof fn lemma_node_items(
    data: Seq<u8>,
    s: Seq<Entry>,
    h: nat,
    items: Seq<Seq<GeomModel>>,
)
    requires
        s.len() == items.len(),
        forall|j: int|
            0 <= j < s.len() ==> crate::tree::spec_subtree_items(
                data,
                (#[trigger] s[j]).id@,
                h,
            ) == items[j],
    ensures
        crate::tree::spec_children_items(data, s, h) == spec_cat_rev(items),
    decreases s.len(),
{
    if s.len() > 0 {
        assert(forall|j: int| 0 <= j < s.len() - 1 ==> s.drop_last()[j] == s[j]);
        lemma_node_items(data, s.drop_last(), h, items.drop_last());
    }
}

/// The entry gained by framing a node payload at the end of the image:
/// well-formed one level above its children in every future of the
/// image.
pub proof fn lemma_push_node_entry(
    pre: Seq<u8>,
    nview: Seq<Entry>,
    h: nat,
    kids: Seq<Seq<GeomModel>>,
)
    requires
        8 <= pre.len() <= u64::MAX,
        1 <= nview.len() <= M_NODE,
        h >= 1,
        kids.len() == nview.len(),
        forall|j: int| 0 <= j < nview.len() ==> (#[trigger] nview[j]).id@ > 0,
        forall|j: int|
            0 <= j < nview.len() ==> spec_future_entry(pre, #[trigger] nview[j], h, kids[j]),
    ensures
        spec_future_entry(
            pre + crate::chunk::spec_frame(crate::codec::spec_enc_node(nview)),
            Entry {
                id: crate::common::spec_id(pre.len() as u64),
                bbox: crate::node::spec_entries_bbox(nview),
            },
            (h + 1) as nat,
            spec_cat_rev(kids),
        ),
{
    let payload = crate::codec::spec_enc_node(nview);
    let img = pre + crate::chunk::spec_frame(payload);
    let e = Entry {
        id: crate::common::spec_id(pre.len() as u64),
        bbox: crate::node::spec_entries_bbox(nview),
    };
    crate::common::lemma_spec_id(pre.len() as u64);
    crate::codec::lemma_node_roundtrip(nview);
    assert forall|suf: Seq<u8>| suf.len() >= 13 implies crate::tree::spec_wf_entry(
        img + suf,
        e,
        (h + 1) as nat,
    ) && crate::tree::spec_subtree_items(img + suf, e.id@, (h + 1) as nat) == spec_cat_rev(
        kids,
    ) by {
        let data = img + suf;
        assert(data =~= pre + crate::chunk::spec_frame(payload) + suf);
        crate::laws::lemma_chunk_roundtrip(pre, payload, suf);
        assert(crate::tree::spec_node_at(data, e.id@) == Some(nview));
        let s2 = crate::chunk::spec_frame(payload) + suf;
        assert(s2.len() >= 13) by {
            crate::chunk::lemma_frame_len(payload);
        }
        assert forall|j: int| 0 <= j < nview.len() implies crate::tree::spec_wf_entry(
            data,
            #[trigger] nview[j],
            h,
        ) && crate::tree::spec_subtree_items(data, nview[j].id@, h) == kids[j]
            && crate::bbox::spec_contains(e.bbox, nview[j].bbox) by {
            assert(crate::tree::spec_wf_entry(pre + s2, nview[j], h));
            assert(crate::tree::spec_subtree_items(pre + s2, nview[j].id@, h) == kids[j]);
            assert(pre + s2 =~= data);
            crate::node::lemma_entries_bbox_contains(nview, j);
        }
        lemma_node_items(data, nview, h, kids);
    }
}

/// The entry gained by framing a leaf node payload at the end of the
/// image: well-formed at height 2 over its geometry entries.
pub proof fn lemma_push_leaf_entry(pre: Seq<u8>, nview: Seq<Entry>, models: Seq<GeomModel>)
    requires
        8 <= pre.len() <= u64::MAX,
        1 <= nview.len() <= M_NODE,
        models.len() == nview.len(),
        forall|j: int| 0 <= j < nview.len() ==> (#[trigger] nview[j]).id@ > 0,
        forall|j: int|
            0 <= j < nview.len() ==> spec_future_geom(pre, (#[trigger] nview[j]).id@, models[j])
                && nview[j].bbox == crate::gis::spec_model_bbox(models[j]),
    ensures
        spec_future_entry(
            pre + crate::chunk::spec_frame(crate::codec::spec_enc_node(nview)),
            Entry {
                id: crate::common::spec_id(pre.len() as u64),
                bbox: crate::node::spec_entries_bbox(nview),
            },
            2,
            models.reverse(),
        ),
{
    let payload = crate::codec::spec_enc_node(nview);
    let img = pre + crate::chunk::spec_frame(payload);
    let e = Entry {
        id: crate::common::spec_id(pre.len() as u64),
        bbox: crate::node::spec_entries_bbox(nview),
    };
    crate::common::lemma_spec_id(pre.len() as u64);
    crate::codec::lemma_node_roundtrip(nview);
    assert forall|suf: Seq<u8>| suf.len() >= 13 implies crate::tree::spec_wf_entry(
        img + suf,
        e,
        2,
    ) && crate::tree::spec_subtree_items(img + suf, e.id@, 2) == models.reverse() by {
        let data = img + suf;
        assert(data =~= pre + crate::chunk::spec_frame(payload) + suf);
        crate::laws::lemma_chunk_roundtrip(pre, payload, suf);
        assert(crate::tree::spec_node_at(data, e.id@) == Some(nview));
        let s2 = crate::chunk::spec_frame(payload) + suf;
        assert(s2.len() >= 13) by {
            crate::chunk::lemma_frame_len(payload);
        }
        assert forall|j: int| 0 <= j < nview.len() implies crate::tree::spec_wf_entry(
            data,
            #[trigger] nview[j],
            1,
        ) && crate::tree::spec_geom_at(data, nview[j].id@) == Some(models[j])
            && crate::bbox::spec_contains(e.bbox, nview[j].bbox) by {
            assert(crate::tree::spec_geom_at(pre + s2, nview[j].id@) == Some(models[j]));
            assert(pre + s2 =~= data);
            crate::node::lemma_entries_bbox_contains(nview, j);
        }
        lemma_leaf_items(data, nview, models);
    }
}

/// Node file element: a leaf node ready to write, or a branch node that
/// back-references earlier elements.
pub enum NodeElem {
    /// Leaf node.
    Leaf(Node),
    /// Non-leaf node with back-reference indices into the nodes vector.
    Node(Vec<usize>),
}

/// A staged entry: its identifier resolves in the staging image to a
/// geometry whose box is the entry's box.
pub open spec fn spec_elem_ok(staging: Seq<u8>, e: Entry) -> bool {
    &&& e.id@ > 0
    &&& crate::tree::spec_geom_at(staging, e.id@) is Some
    &&& crate::gis::spec_model_bbox(crate::tree::spec_geom_at(staging, e.id@).unwrap()) == e.bbox
}

/// The geometry model a staged entry stands for.
pub open spec fn elem_model_fn(staging: Seq<u8>) -> spec_fn(Entry) -> GeomModel {
    |e: Entry| crate::tree::spec_geom_at(staging, e.id@).unwrap()
}

/// The geometry models of a row of staged entries.
pub open spec fn spec_models_of(staging: Seq<u8>, s: Seq<Entry>) -> Seq<GeomModel> {
    s.map_values(elem_model_fn(staging))
}

/// One node plan is coherent: a leaf holds geometry entries with future
/// facts in the final image, a branch holds earlier plans one level
/// down, and its item row is theirs concatenated, last first.
pub open spec fn plan_ok(
    img: Seq<u8>,
    nodes: Seq<NodeElem>,
    heights: Seq<nat>,
    items: Seq<Seq<GeomModel>>,
    k: int,
) -> bool {
    match nodes[k] {
        NodeElem::Leaf(node) => {
            &&& heights[k] == 1
            &&& node.wf()
            &&& 1 <= node@.len() <= M_NODE
            &&& items[k].len() == node@.len()
            &&& forall|j: int|
                0 <= j < node@.len() ==> spec_future_geom(
                    img,
                    (#[trigger] node@[j]).id@,
                    items[k][node@.len() - 1 - j],
                ) && node@[j].bbox == crate::gis::spec_model_bbox(items[k][node@.len() - 1 - j])
        },
        NodeElem::Node(ch) => {
            &&& heights[k] >= 2
            &&& 1 <= ch@.len() <= M_NODE
            &&& forall|j: int|
                0 <= j < ch@.len() ==> 0 <= (#[trigger] ch@[j]) < k && heights[ch@[j] as int]
                    == heights[k] - 1
            &&& items[k] == spec_cat_rev(ch@.map_values(|c: usize| items[c as int]))
        },
    }
}

/// Every node plan is coherent.
pub open spec fn plans_ok(
    img: Seq<u8>,
    nodes: Seq<NodeElem>,
    heights: Seq<nat>,
    items: Seq<Seq<GeomModel>>,
) -> bool {
    &&& nodes.len() == heights.len()
    &&& nodes.len() == items.len()
    &&& forall|k: int| 0 <= k < nodes.len() ==> plan_ok(img, nodes, heights, items, k)
}

/// Plan coherence survives appends to the image.
pub proof fn lemma_plans_grow(
    img: Seq<u8>,
    more: Seq<u8>,
    nodes: Seq<NodeElem>,
    heights: Seq<nat>,
    items: Seq<Seq<GeomModel>>,
)
    requires
        plans_ok(img, nodes, heights, items),
    ensures
        plans_ok(img + more, nodes, heights, items),
{
    assert forall|k: int| 0 <= k < nodes.len() implies plan_ok(
        img + more,
        nodes,
        heights,
        items,
        k,
    ) by {
        assert(plan_ok(img, nodes, heights, items, k));
        match nodes[k] {
            NodeElem::Leaf(node) => {
                assert forall|j: int| 0 <= j < node@.len() implies spec_future_geom(
                    img + more,
                    (#[trigger] node@[j]).id@,
                    items[k][node@.len() - 1 - j],
                ) && node@[j].bbox == crate::gis::spec_model_bbox(
                    items[k][node@.len() - 1 - j],
                ) by {
                    lemma_future_geom_grow(
                        img,
                        more,
                        node@[j].id@,
                        items[k][node@.len() - 1 - j],
                    );
                }
            },
            NodeElem::Node(ch) => {},
        }
    }
}

/// R-tree bulk writer.
///
/// Geometries pushed into the writer are framed into a staging image at
/// once; `finish` builds the tree and returns the final file image, and
/// the caller writes it beside the target and renames it into place.
pub struct BulkWriter {
    /// Writer for the image under construction: the staging image while
    /// pushing, the final image while finishing.
    writer: Writer,
    /// Reader over the finished staging image during the build.
    reader: Reader,
    /// One entry per pushed geometry.
    elems: Vec<Entry>,
    /// Node plans, children before parents, the root last.
    nodes: Vec<NodeElem>,
    /// Axis used at odd height values.
    odd_axis: Axis,
    /// Models of the pushed geometries, in push order.
    pushed: Ghost<Seq<GeomModel>>,
    /// The tree height each plan was built for.
    plan_heights: Ghost<Seq<nat>>,
    /// The geometries below each plan, in traversal order.
    plan_items: Ghost<Seq<Seq<GeomModel>>>,
}

impl BulkWriter {
    /// The models of the geometries pushed so far, in push order.
    pub closed spec fn spec_pushed(&self) -> Seq<GeomModel> {
        self.pushed@
    }

    /// The writer is between calls of `push`: geometries staged, no
    /// plans built.
    pub closed spec fn inv(&self) -> bool {
        &&& self.writer.wf()
        &&& crate::reader::spec_header_ok(self.writer@)
        &&& self.nodes@.len() == 0
        &&& self.elems@.len() == self.pushed@.len()
        &&& forall|i: int|
            0 <= i < self.elems@.len() ==> (#[trigger] self.elems@[i]).id@ > 0 && self.elems@[i].bbox
                == crate::gis::spec_model_bbox(self.pushed@[i]) && spec_future_geom(
                self.writer@,
                self.elems@[i].id@,
                self.pushed@[i],
            )
    }

    /// Create a new bulk writer with an empty staging image.
    pub fn new() -> (r: BulkWriter)
        ensures
            r.inv(),
            r.spec_pushed() == Seq::<GeomModel>::empty(),
    {
        let writer = Writer::new();
        proof {
            assert(writer@.subrange(0, 8) =~= crate::common::spec_header());
        }
        BulkWriter {
            writer,
            reader: Reader::new_empty(),
            elems: Vec::new(),
            nodes: Vec::new(),
            odd_axis: Axis::X,
            pushed: Ghost(Seq::empty()),
            plan_heights: Ghost(Seq::empty()),
            plan_items: Ghost(Seq::empty()),
        }
    }

    /// Push a geometry: frame it into the staging image and record its
    /// entry.
    pub fn push(&mut self, geom: &Geom)
        requires
            old(self).inv(),
        ensures
            final(self).inv(),
            final(self).spec_pushed() == old(self).spec_pushed().push(geom@),
    {
        let payload = crate::codec::enc_geom(geom);
        let bbox = geom.bbox();
        let ghost pre = self.writer@;
        let _ = self.writer.len();
        let id = self.writer.push(&payload);
        let e = Entry::new(id, bbox);
        self.elems.push(e);
        proof {
            lemma_model_size(geom);
            crate::codec::lemma_geom_roundtrip(geom@);
            crate::gis::lemma_geom_bbox_model(*geom);
            lemma_push_future_geom(pre, payload@, geom@);
            let more = crate::chunk::spec_frame(payload@);
            assert forall|i: int| 0 <= i < old(self).elems@.len() implies spec_future_geom(
                self.writer@,
                (#[trigger] old(self).elems@[i]).id@,
                old(self).pushed@[i],
            ) by {
                lemma_future_geom_grow(pre, more, old(self).elems@[i].id@, old(self).pushed@[i]);
            }
            assert(self.writer@.subrange(0, 8) =~= pre.subrange(0, 8));
        }
        self.pushed = Ghost(self.pushed@.push(geom@));
    }

    /// Build the R-tree from the pushed geometries and return the final
    /// file image.  The caller writes the image beside the target path,
    /// syncs it, and renames it into place; on an empty build it removes
    /// any staging file instead.
    pub fn finish(self) -> (r: Result<Vec<u8>, Error>)
        requires
            self.inv(),
        ensures
            r is Err <==> self.spec_pushed().len() == 0,
            r matches Err(e) ==> e == Error::InvalidCheckpoint,
            r matches Ok(bytes) ==> {
                &&& crate::reader::spec_header_ok(bytes@)
                &&& crate::tree::spec_tree_wf(bytes@)
                &&& crate::tree::spec_tree_items(bytes@).to_multiset()
                    == self.spec_pushed().to_multiset()
                &&& crate::reader::spec_root(bytes@) is Ok
                &&& crate::tree::spec_root_at(
                    bytes@,
                    crate::reader::spec_root(bytes@).unwrap(),
                ).unwrap().1 == self.spec_pushed().len() as u64
            },
    {
        let ghost pushed_models = self.spec_pushed();
        let BulkWriter { mut writer, reader: _, mut elems, nodes: _, odd_axis, pushed, plan_heights: _, plan_items: _ } = self;
        if elems.len() == 0 {
            return Err(Error::InvalidCheckpoint);
        }
        let n = elems.len();
        // terminate the staging image and reopen it for reading
        let ghost pre_ckpt = writer@;
        proof {
            crate::common::lemma_spec_id(0);
        }
        writer.checkpoint(Id::new(0));
        proof {
            assert(writer@.subrange(0, 8) =~= pre_ckpt.subrange(0, 8));
        }
        let staging_bytes = writer.into_bytes();
        let reader = match Reader::new(staging_bytes) {
            Ok(rd) => rd,
            Err(_) => {
                proof {
                    assert(false);
                }
                return Err(Error::InvalidCheckpoint);
            },
        };
        let ghost staging = reader@;
        let ghost f = elem_model_fn(staging);
        proof {
            let cp = crate::chunk::spec_frame(
                vstd::bytes::spec_u64_to_le_bytes(crate::common::spec_id(0)@),
            );
            assert(cp.len() == 13);
            assert forall|i: int| 0 <= i < elems@.len() implies spec_elem_ok(
                staging,
                #[trigger] elems@[i],
            ) && f(elems@[i]) == pushed@[i] by {
                assert(crate::tree::spec_geom_at(pre_ckpt + cp, elems@[i].id@) == Some(
                    pushed@[i],
                ));
                assert(staging == pre_ckpt + cp);
            }
            assert(spec_models_of(staging, elems@) =~= pushed@);
        }
        // build the tree plans into a fresh image
        let mut writer2 = Writer::new();
        let mut nodes: Vec<NodeElem> = Vec::new();
        let mut gh: Ghost<Seq<nat>> = Ghost(Seq::empty());
        let mut gi: Ghost<Seq<Seq<GeomModel>>> = Ghost(Seq::empty());
        let mut odd = odd_axis;
        proof {
            assert(writer2@.subrange(0, 8) =~= crate::common::spec_header());
        }
        let ghost elems_at_build = elems@;
        let root_idx = build_tree(
            &mut writer2,
            &reader,
            &mut elems,
            &mut nodes,
            &mut gh,
            &mut gi,
            &mut odd,
        );
        // write the nodes out, the root last, and checkpoint it
        let (rid, nview_g) = write_nodes(&mut writer2, &nodes, Ghost(gh@), Ghost(gi@), n);
        let ghost nview = nview_g@;
        let ghost pre_root_ck = writer2@;
        writer2.checkpoint(rid);
        let out = writer2.into_bytes();
        proof {
            let cp = crate::chunk::spec_frame(vstd::bytes::spec_u64_to_le_bytes(rid@));
            assert(out@ == pre_root_ck + cp);
            assert(cp.len() == 13);
            crate::laws::lemma_checkpoint_root(pre_root_ck, rid@);
            assert(crate::tree::spec_root_at(pre_root_ck + cp, rid@) == Some(
                (nview, n as u64),
            ));
            assert(out@.subrange(0, 8) =~= pre_root_ck.subrange(0, 8));
            let hl = gh@[nodes@.len() - 1];
            assert(hl == crate::node::spec_height(n as nat));
            assert((n as u64) as nat == n as nat);
            assert(crate::tree::spec_tree_wf(out@));
            assert(crate::tree::spec_tree_items(out@) == gi@[nodes@.len() - 1]);
            assert(elems_at_build.subrange(0, n as int) =~= elems_at_build);
            assert(gi@[root_idx as int].to_multiset() == pushed@.to_multiset());
        }
        Ok(out)
    }

    /// Cancel the build.  Nothing has touched the target: the caller
    /// discards the writer and removes any staging file it created.
    pub fn cancel(self) {
    }
}

/// The counts of a pushed geometry fit behind varints: they are vector
/// lengths.
proof fn lemma_model_size(geom: &Geom)
    ensures
        crate::codec::spec_model_size_ok(geom@),
{
    match geom {
        Geom::Point(p) => {
            vstd::std_specs::vec::axiom_spec_len(&p.pts);
            vstd::std_specs::vec::axiom_spec_len(&p.data);
        },
        Geom::Linestring(ls) => {
            vstd::std_specs::vec::axiom_spec_len(&ls.lines);
            vstd::std_specs::vec::axiom_spec_len(&ls.data);
            let m = ls.lines@.map_values(|l: crate::gis::Linestring| l.pts@);
            assert forall|j: int| 0 <= j < m.len() implies (#[trigger] m[j]).len()
                <= u64::MAX by {
                assert(m[j] == ls.lines@[j].pts@);
                vstd::std_specs::vec::axiom_spec_len(&ls.lines@[j].pts);
            }
        },
        Geom::Polygon(pg) => {
            vstd::std_specs::vec::axiom_spec_len(&pg.rings);
            vstd::std_specs::vec::axiom_spec_len(&pg.data);
            let m = pg.rings@.map_values(|p: crate::gis::Polygon| p.pts@);
            assert forall|j: int| 0 <= j < m.len() implies (#[trigger] m[j]).len()
                <= u64::MAX by {
                assert(m[j] == pg.rings@[j].pts@);
                vstd::std_specs::vec::axiom_spec_len(&pg.rings@[j].pts);
            }
        },
    }
}


/// Copy a node's entries into a fresh node.
fn copy_node(n: &Node) -> (r: Node)
    requires
        n.wf(),
    ensures
        r@ == n@,
        r.wf(),
{
    let mut v: Vec<Entry> = Vec::new();
    let mut i: usize = 0;
    while i < n.len()
        invariant
            n.wf(),
            0 <= i <= n@.len(),
            v@ == n@.take(i as int),
        decreases n@.len() - i,
    {
        v.push(n.child(i));
        proof {
            assert(n@.take(i as int).push(n@[i as int]) =~= n@.take(i + 1));
        }
        i = i + 1;
    }
    proof {
        assert(n@.take(n@.len() as int) =~= n@);
    }
    Node::from_entries(v)
}

/// The shared facts of the build phase: a growing final image that
/// starts with the header, staged entries resolving in the staging
/// image, and coherent node plans.
pub open spec fn build_ok(
    img: Seq<u8>,
    staging: Seq<u8>,
    elems: Seq<Entry>,
    nodes: Seq<NodeElem>,
    heights: Seq<nat>,
    items: Seq<Seq<GeomModel>>,
) -> bool {
    &&& img.len() >= 8
    &&& crate::reader::spec_header_ok(img)
    &&& (forall|i: int| 0 <= i < elems.len() ==> spec_elem_ok(staging, #[trigger] elems[i]))
    &&& plans_ok(img, nodes, heights, items)
}

/// Build a leaf: copy each staged geometry chunk into the final image
/// and record its new identifier with the staged bounding box.
fn build_leaf(
    writer: &mut Writer,
    reader: &Reader,
    elems: &Vec<Entry>,
    nodes: &mut Vec<NodeElem>,
    heights: &mut Ghost<Seq<nat>>,
    items: &mut Ghost<Seq<Seq<GeomModel>>>,
    lo: usize,
    hi: usize,
) -> (idx: usize)
    requires
        build_ok(old(writer)@, reader@, elems@, old(nodes)@, old(heights)@, old(items)@),
        lo < hi <= elems@.len(),
        hi - lo <= M_NODE,
    ensures
        build_ok(final(writer)@, reader@, elems@, final(nodes)@, final(heights)@, final(items)@),
        final(writer)@.len() >= old(writer)@.len(),
        final(writer)@.subrange(0, old(writer)@.len() as int) == old(writer)@,
        final(nodes)@.len() == old(nodes)@.len() + 1,
        idx == old(nodes)@.len(),
        final(heights)@ == old(heights)@.push(1nat),
        final(items)@ == old(items)@.push(
            spec_models_of(reader@, elems@.subrange(lo as int, hi as int)).reverse(),
        ),
{
    let ghost staging = reader@;
    let ghost f = elem_model_fn(staging);
    let ghost models = spec_models_of(staging, elems@.subrange(lo as int, hi as int));
    let mut leaf = Node::new();
    let mut i: usize = lo;
    while i < hi
        invariant
            build_ok(writer@, staging, elems@, nodes@, heights@, items@),
            staging == reader@,
            f == elem_model_fn(staging),
            models == spec_models_of(staging, elems@.subrange(lo as int, hi as int)),
            lo <= i <= hi <= elems@.len(),
            hi - lo <= M_NODE,
            leaf@.len() == i - lo,
            leaf.wf(),
            nodes@ == old(nodes)@,
            heights@ == old(heights)@,
            items@ == old(items)@,
            writer@.len() >= old(writer)@.len(),
            writer@.subrange(0, old(writer)@.len() as int) == old(writer)@,
            writer.wf(),
            forall|j: int|
                0 <= j < leaf@.len() ==> (#[trigger] leaf@[j]).id@ > 0 && spec_future_geom(
                    writer@,
                    leaf@[j].id@,
                    models[j],
                ) && leaf@[j].bbox == crate::gis::spec_model_bbox(models[j]),
        decreases hi - i,
    {
        let e = elems[i];
        proof {
            assert(spec_elem_ok(staging, elems@[i as int]));
        }
        let p = match reader.lookup(e.id()) {
            Ok(p) => p,
            Err(_) => {
                proof {
                    assert(false);
                }
                return 0;
            },
        };
        let _ = writer.len();
        let ghost pre = writer@;
        proof {
            vstd::std_specs::vec::axiom_spec_len(&p);
        }
        let wid = writer.push(&p);
        proof {
            let model = f(elems@[i as int]);
            assert(crate::codec::spec_dec_geom(p@) == Some(model));
            lemma_push_future_geom(pre, p@, model);
            let more = crate::chunk::spec_frame(p@);
            assert forall|j: int| 0 <= j < leaf@.len() implies spec_future_geom(
                writer@,
                (#[trigger] leaf@[j]).id@,
                models[j],
            ) by {
                lemma_future_geom_grow(pre, more, leaf@[j].id@, models[j]);
            }
            lemma_plans_grow(pre, more, nodes@, heights@, items@);
            assert(writer@.subrange(0, 8) =~= pre.subrange(0, 8));
            assert(writer@.subrange(0, old(writer)@.len() as int) =~= old(writer)@);
            assert(models[i - lo] == model);
        }
        leaf.push(wid, e.bbox());
        i = i + 1;
    }
    let idx = nodes.len();
    let ghost nview = leaf@;
    nodes.push(NodeElem::Leaf(leaf));
    *heights = Ghost(heights@.push(1nat));
    *items = Ghost(items@.push(models.reverse()));
    proof {
        assert forall|k: int| 0 <= k < nodes@.len() implies plan_ok(
            writer@,
            nodes@,
            heights@,
            items@,
            k,
        ) by {
            if k < nodes@.len() - 1 {
                assert(nodes@[k] == old(nodes)@[k]);
                assert(plan_ok(writer@, old(nodes)@, old(heights)@, old(items)@, k));
                match old(nodes)@[k] {
                    NodeElem::Leaf(n) => {},
                    NodeElem::Node(ch) => {
                        assert(ch@.map_values(|c: usize| old(items)@[c as int]) =~= ch@.map_values(
                            |c: usize| items@[c as int],
                        ));
                    },
                }
            } else {
                let rev = models.reverse();
                assert forall|j: int| 0 <= j < nview.len() implies spec_future_geom(
                    writer@,
                    (#[trigger] nview[j]).id@,
                    rev[nview.len() - 1 - j],
                ) && nview[j].bbox == crate::gis::spec_model_bbox(
                    rev[nview.len() - 1 - j],
                ) by {
                    assert(rev[nview.len() - 1 - j] == models[j]);
                }
            }
        }
    }
    idx
}

/// Entries drawn from the same multiset stay staged.
proof fn lemma_perm_elems_ok(staging: Seq<u8>, s1: Seq<Entry>, s2: Seq<Entry>)
    requires
        s1.to_multiset() == s2.to_multiset(),
        forall|i: int| 0 <= i < s1.len() ==> spec_elem_ok(staging, #[trigger] s1[i]),
    ensures
        forall|i: int| 0 <= i < s2.len() ==> spec_elem_ok(staging, #[trigger] s2[i]),
{
    broadcast use group_to_multiset_ensures;

    assert forall|i: int| 0 <= i < s2.len() implies spec_elem_ok(staging, #[trigger] s2[i]) by {
        assert(s2.contains(s2[i]));
        assert(s2.to_multiset().count(s2[i]) > 0);
        assert(s1.contains(s2[i]));
        let j = choose|j: int| 0 <= j < s1.len() && s1[j] == s2[i];
        assert(spec_elem_ok(staging, s1[j]));
    }
}

/// After a permutation of `pre[lo..hi]`, every entry is still staged and
/// the models of the range keep their multiset.
proof fn lemma_sorted_elems_ok(staging: Seq<u8>, pre: Seq<Entry>, post: Seq<Entry>, lo: int, hi: int)
    requires
        0 <= lo <= hi <= pre.len(),
        post.len() == pre.len(),
        post.subrange(0, lo) == pre.subrange(0, lo),
        post.subrange(hi, pre.len() as int) == pre.subrange(hi, pre.len() as int),
        post.subrange(lo, hi).to_multiset() == pre.subrange(lo, hi).to_multiset(),
        forall|i: int| 0 <= i < pre.len() ==> spec_elem_ok(staging, #[trigger] pre[i]),
    ensures
        forall|i: int| 0 <= i < post.len() ==> spec_elem_ok(staging, #[trigger] post[i]),
        spec_models_of(staging, post.subrange(lo, hi)).to_multiset() == spec_models_of(
            staging,
            pre.subrange(lo, hi),
        ).to_multiset(),
{
    lemma_perm_elems_ok(staging, pre.subrange(lo, hi), post.subrange(lo, hi));
    lemma_to_multiset_map(post.subrange(lo, hi), pre.subrange(lo, hi), elem_model_fn(staging));
    assert forall|i: int| 0 <= i < post.len() implies spec_elem_ok(
        staging,
        #[trigger] post[i],
    ) by {
        if i < lo {
            assert(post[i] == post.subrange(0, lo)[i]);
            assert(pre[i] == pre.subrange(0, lo)[i]);
        } else if i >= hi {
            assert(post[i] == post.subrange(hi, pre.len() as int)[i - hi]);
            assert(pre[i] == pre.subrange(hi, pre.len() as int)[i - hi]);
        } else {
            assert(post[i] == post.subrange(lo, hi)[i - lo]);
        }
    }
}


/// Replacing `pre[a..b]` by a permutation leaves every enclosing range
/// with its multiset, and everything outside `[a, b)` in place.
proof fn lemma_splice_multiset(pre: Seq<Entry>, post: Seq<Entry>, lo: int, a: int, b: int, hi: int)
    requires
        0 <= lo <= a <= b <= hi <= pre.len(),
        post.len() == pre.len(),
        post.subrange(0, a) == pre.subrange(0, a),
        post.subrange(b, post.len() as int) == pre.subrange(b, pre.len() as int),
        post.subrange(a, b).to_multiset() == pre.subrange(a, b).to_multiset(),
    ensures
        post.subrange(lo, hi).to_multiset() == pre.subrange(lo, hi).to_multiset(),
        post.subrange(0, lo) == pre.subrange(0, lo),
        post.subrange(lo, a) == pre.subrange(lo, a),
        post.subrange(hi, post.len() as int) == pre.subrange(hi, pre.len() as int),
{
    assert forall|t: int| 0 <= t < a implies post[t] == pre[t] by {
        assert(post[t] == post.subrange(0, a)[t]);
        assert(pre[t] == pre.subrange(0, a)[t]);
    }
    assert forall|t: int| b <= t < pre.len() implies post[t] == pre[t] by {
        assert(post.subrange(b, post.len() as int)[t - b] == pre.subrange(b, pre.len() as int)[t
            - b]);
    }
    assert(post.subrange(0, lo) =~= pre.subrange(0, lo));
    assert(post.subrange(lo, a) =~= pre.subrange(lo, a));
    assert(post.subrange(hi, post.len() as int) =~= pre.subrange(hi, pre.len() as int));
    assert(post.subrange(b, hi) =~= pre.subrange(b, hi));
    assert(post.subrange(lo, hi) =~= post.subrange(lo, a) + post.subrange(a, b) + post.subrange(
        b,
        hi,
    ));
    assert(pre.subrange(lo, hi) =~= pre.subrange(lo, a) + pre.subrange(a, b) + pre.subrange(
        b,
        hi,
    ));
    vstd::seq_lib::lemma_multiset_commutative(
        post.subrange(lo, a) + post.subrange(a, b),
        post.subrange(b, hi),
    );
    vstd::seq_lib::lemma_multiset_commutative(post.subrange(lo, a), post.subrange(a, b));
    vstd::seq_lib::lemma_multiset_commutative(
        pre.subrange(lo, a) + pre.subrange(a, b),
        pre.subrange(b, hi),
    );
    vstd::seq_lib::lemma_multiset_commutative(pre.subrange(lo, a), pre.subrange(a, b));
}

/// Build a subtree of the given height over `elems[lo..hi]`: sort on the
/// alternating axis, split into subtree-capacity chunks, recurse, and
/// record the plan.
#[verifier::rlimit(100)]
fn build_subtree(
    writer: &mut Writer,
    reader: &Reader,
    elems: &mut Vec<Entry>,
    nodes: &mut Vec<NodeElem>,
    heights: &mut Ghost<Seq<nat>>,
    items: &mut Ghost<Seq<Seq<GeomModel>>>,
    odd_axis: Axis,
    height: usize,
    lo: usize,
    hi: usize,
) -> (idx: usize)
    requires
        build_ok(old(writer)@, reader@, old(elems)@, old(nodes)@, old(heights)@, old(items)@),
        lo < hi <= old(elems)@.len(),
        height >= 1,
        hi - lo <= crate::node::pow6(height as nat),
        crate::node::pow6((height - 1) as nat) <= usize::MAX,
    ensures
        build_ok(final(writer)@, reader@, final(elems)@, final(nodes)@, final(heights)@, final(items)@),
        final(elems)@.len() == old(elems)@.len(),
        final(elems)@.subrange(0, lo as int) == old(elems)@.subrange(0, lo as int),
        final(elems)@.subrange(hi as int, old(elems)@.len() as int) == old(elems)@.subrange(
            hi as int,
            old(elems)@.len() as int,
        ),
        final(elems)@.subrange(lo as int, hi as int).to_multiset() == old(elems)@.subrange(
            lo as int,
            hi as int,
        ).to_multiset(),
        final(writer)@.len() >= old(writer)@.len(),
        final(writer)@.subrange(0, old(writer)@.len() as int) == old(writer)@,
        final(nodes)@.len() > old(nodes)@.len(),
        idx == final(nodes)@.len() - 1,
        final(heights)@.subrange(0, old(nodes)@.len() as int) == old(heights)@,
        final(items)@.subrange(0, old(nodes)@.len() as int) == old(items)@,
        final(heights)@[idx as int] == height as nat,
        final(items)@[idx as int].len() == hi - lo,
        final(items)@[idx as int].to_multiset() == spec_models_of(
            reader@,
            old(elems)@.subrange(lo as int, hi as int),
        ).to_multiset(),
    decreases height,
{
    let ghost staging = reader@;
    if height == 1 {
        let r = build_leaf(writer, reader, elems, nodes, heights, items, lo, hi);
        proof {
            let models = spec_models_of(staging, elems@.subrange(lo as int, hi as int));
            models.lemma_reverse_to_multiset();
            assert(heights@.subrange(0, old(nodes)@.len() as int) =~= old(heights)@);
            assert(items@.subrange(0, old(nodes)@.len() as int) =~= old(items)@);
            assert(elems@.subrange(0, lo as int) =~= elems@.subrange(0, lo as int));
        }
        return r;
    }
    let axis = odd_axis.with_height(height);
    let ghost pre_sort = elems@;
    sort_range(elems, lo, hi, axis);
    proof {
        lemma_sorted_elems_ok(staging, pre_sort, elems@, lo as int, hi as int);
    }
    let p = Node::partition_sz(height);
    let ghost f = elem_model_fn(staging);
    let ghost base_nodes_len = nodes@.len();
    let ghost start_elems = elems@;
    let mut children: Vec<usize> = Vec::new();
    let mut pos: usize = lo;
    proof {
        assert(heights@.subrange(0, old(nodes)@.len() as int) =~= old(heights)@);
        assert(items@.subrange(0, old(nodes)@.len() as int) =~= old(items)@);
        assert(elems@.subrange(lo as int, pos as int) =~= Seq::<Entry>::empty());
        assert(spec_models_of(staging, elems@.subrange(lo as int, pos as int)) =~= Seq::<
            GeomModel,
        >::empty());
        assert(spec_cat_rev(children@.map_values(|c: usize| items@[c as int])).to_multiset()
            =~= spec_models_of(staging, elems@.subrange(lo as int, pos as int)).to_multiset());
    }
    while pos < hi
        invariant
            build_ok(writer@, staging, elems@, nodes@, heights@, items@),
            staging == reader@,
            f == elem_model_fn(staging),
            lo <= pos <= hi <= elems@.len(),
            elems@.len() == old(elems)@.len(),
            height >= 2,
            p == crate::node::pow6((height - 1) as nat),
            p >= 1,
            hi - lo <= crate::node::pow6(height as nat),
            crate::node::pow6(height as nat) == 6 * p,
            elems@.subrange(0, lo as int) == old(elems)@.subrange(0, lo as int),
            elems@.subrange(hi as int, elems@.len() as int) == old(elems)@.subrange(
                hi as int,
                old(elems)@.len() as int,
            ),
            elems@.subrange(lo as int, hi as int).to_multiset() == old(elems)@.subrange(
                lo as int,
                hi as int,
            ).to_multiset(),
            writer@.len() >= old(writer)@.len(),
            writer@.subrange(0, old(writer)@.len() as int) == old(writer)@,
            nodes@.len() >= base_nodes_len,
            base_nodes_len == old(nodes)@.len(),
            heights@.subrange(0, old(nodes)@.len() as int) == old(heights)@,
            items@.subrange(0, old(nodes)@.len() as int) == old(items)@,
            forall|c: int|
                0 <= c < children@.len() ==> (#[trigger] children@[c]) < nodes@.len()
                    && heights@[children@[c] as int] == (height - 1) as nat,
            spec_cat_rev(children@.map_values(|c: usize| items@[c as int])).len() == pos - lo,
            spec_cat_rev(children@.map_values(|c: usize| items@[c as int])).to_multiset()
                == spec_models_of(staging, elems@.subrange(lo as int, pos as int)).to_multiset(),
            pos < hi ==> pos - lo == children@.len() * p,
            pos == hi ==> children@.len() >= 1 ==> pos - lo > (children@.len() - 1) * p,
        decreases hi - pos,
    {
        let pos2 = if hi - pos > p {
            pos + p
        } else {
            hi
        };
        let ghost pre_call_elems = elems@;
        let ghost pre_call_items = items@;
        let ghost pre_call_heights = heights@;
        let ghost pre_call_nodes_len = nodes@.len();
        let child = build_subtree(
            writer,
            reader,
            elems,
            nodes,
            heights,
            items,
            odd_axis,
            height - 1,
            pos,
            pos2,
        );
        proof {
            crate::node::lemma_pow6_mono((height - 2) as nat, (height - 1) as nat);
        }
        let ghost pre_children = children@;
        children.push(child);
        proof {
            assert((children@.len()) as int * p == (children@.len() - 1) * p + p)
                by (nonlinear_arith);
            lemma_splice_multiset(
                pre_call_elems,
                elems@,
                lo as int,
                pos as int,
                pos2 as int,
                hi as int,
            );
            assert(heights@.subrange(0, old(nodes)@.len() as int) =~= heights@.subrange(
                0,
                pre_call_nodes_len as int,
            ).subrange(0, old(nodes)@.len() as int));
            assert(items@.subrange(0, old(nodes)@.len() as int) =~= items@.subrange(
                0,
                pre_call_nodes_len as int,
            ).subrange(0, old(nodes)@.len() as int));
            // earlier children still reference unchanged plan rows
            assert forall|c: int|
                0 <= c < pre_children.len() implies (#[trigger] pre_children[c]) < nodes@.len()
                    && heights@[pre_children[c] as int] == (height - 1) as nat
                    && items@[pre_children[c] as int] == pre_call_items[pre_children[c] as int] by {
                assert(heights@.subrange(0, pre_call_nodes_len as int)[pre_children[c] as int]
                    == heights@[pre_children[c] as int]);
                assert(items@.subrange(0, pre_call_nodes_len as int)[pre_children[c] as int]
                    == items@[pre_children[c] as int]);
                assert(pre_call_heights[pre_children[c] as int] == pre_call_heights.subrange(
                    0,
                    pre_call_nodes_len as int,
                )[pre_children[c] as int]);
                assert(pre_call_items[pre_children[c] as int] == pre_call_items.subrange(
                    0,
                    pre_call_nodes_len as int,
                )[pre_children[c] as int]);
            }
            let m_old = pre_children.map_values(|c: usize| pre_call_items[c as int]);
            let m_new = children@.map_values(|c: usize| items@[c as int]);
            assert(children@.drop_last() =~= pre_children);
            assert(m_new.drop_last() =~= m_old) by {
                assert forall|c: int| 0 <= c < pre_children.len() implies m_new.drop_last()[c]
                    == m_old[c] by {
                    assert(m_new[c] == items@[children@[c] as int]);
                    assert(children@[c] == pre_children[c]);
                }
            }
            assert(m_new.last() == items@[child as int]);
            assert(spec_cat_rev(m_new) == m_new.last() + spec_cat_rev(m_new.drop_last()));
            assert(spec_cat_rev(m_new.drop_last()) == spec_cat_rev(m_old));
            // the models of the settled prefix did not move
            assert(spec_models_of(staging, elems@.subrange(lo as int, pos as int))
                == spec_models_of(staging, pre_call_elems.subrange(lo as int, pos as int)));
            // the child covers exactly the models of its chunk
            assert(items@[child as int].to_multiset() == spec_models_of(
                staging,
                elems@.subrange(pos as int, pos2 as int),
            ).to_multiset()) by {
                lemma_to_multiset_map(
                    pre_call_elems.subrange(pos as int, pos2 as int),
                    elems@.subrange(pos as int, pos2 as int),
                    f,
                );
            }
            // stitch the accumulated range
            assert(spec_models_of(staging, elems@.subrange(lo as int, pos2 as int))
                =~= spec_models_of(staging, elems@.subrange(lo as int, pos as int))
                + spec_models_of(staging, elems@.subrange(pos as int, pos2 as int))) by {
                assert(elems@.subrange(lo as int, pos2 as int) =~= elems@.subrange(
                    lo as int,
                    pos as int,
                ) + elems@.subrange(pos as int, pos2 as int));
                assert forall|t: int|
                    0 <= t < pos2 - lo implies spec_models_of(
                    staging,
                    elems@.subrange(lo as int, pos2 as int),
                )[t] == (spec_models_of(staging, elems@.subrange(lo as int, pos as int))
                    + spec_models_of(staging, elems@.subrange(pos as int, pos2 as int)))[t] by {
                    if t < pos - lo {
                        assert(elems@.subrange(lo as int, pos2 as int)[t] == elems@.subrange(
                            lo as int,
                            pos as int,
                        )[t]);
                    } else {
                        assert(elems@.subrange(lo as int, pos2 as int)[t] == elems@.subrange(
                            pos as int,
                            pos2 as int,
                        )[t - (pos - lo)]);
                    }
                }
            }
            vstd::seq_lib::lemma_multiset_commutative(
                m_new.last(),
                spec_cat_rev(m_new.drop_last()),
            );
            vstd::seq_lib::lemma_multiset_commutative(
                spec_models_of(staging, elems@.subrange(lo as int, pos as int)),
                spec_models_of(staging, elems@.subrange(pos as int, pos2 as int)),
            );
        }
        pos = pos2;
    }
    let idx = nodes.len();
    let ghost kids = children@.map_values(|c: usize| items@[c as int]);
    proof {
        // the chunk count is at most six
        if children@.len() > 6 {
            assert(hi - lo > (children@.len() - 1) * p);
            assert((children@.len() - 1) * p >= 6 * p) by (nonlinear_arith)
                requires
                    children@.len() >= 7,
                    p >= 1,
            ;
            assert(false);
        }
        assert(children@.len() >= 1) by {
            if children@.len() == 0 {
                assert(spec_cat_rev(children@.map_values(|c: usize| items@[c as int])).len()
                    == 0);
            }
        }
    }
    let ghost pre_nodes = nodes@;
    let ghost pre_heights = heights@;
    let ghost pre_items = items@;
    nodes.push(NodeElem::Node(children));
    *heights = Ghost(heights@.push(height as nat));
    *items = Ghost(items@.push(spec_cat_rev(kids)));
    proof {
        let nlen = nodes@.len();
        assert forall|k: int| 0 <= k < nlen implies plan_ok(
            writer@,
            nodes@,
            heights@,
            items@,
            k,
        ) by {
            if k < nlen - 1 {
                assert(plan_ok(writer@, pre_nodes, pre_heights, pre_items, k));
                assert(nodes@[k] == pre_nodes[k]);
                match pre_nodes[k] {
                    NodeElem::Leaf(n) => {},
                    NodeElem::Node(ch) => {
                        assert(ch@.map_values(|c: usize| pre_items[c as int]) =~= ch@.map_values(
                            |c: usize| items@[c as int],
                        ));
                    },
                }
            } else {
                match nodes@[k] {
                    NodeElem::Leaf(n) => {
                        assert(false);
                    },
                    NodeElem::Node(ch) => {
                        assert(ch@.map_values(|c: usize| items@[c as int]) =~= kids);
                    },
                }
            }
        }
        assert(heights@.subrange(0, old(nodes)@.len() as int) =~= old(heights)@);
        assert(items@.subrange(0, old(nodes)@.len() as int) =~= old(items)@);
        lemma_to_multiset_map(
            elems@.subrange(lo as int, hi as int),
            old(elems)@.subrange(lo as int, hi as int),
            f,
        );
    }
    idx
}

/// Build the top of the tree over all of `elems`: sort by X midpoint,
/// partition into vertical groups, sort each group by Y midpoint, split
/// it into horizontal chunks, and build a subtree from each chunk.
#[verifier::rlimit(100)]
fn build_tree(
    writer: &mut Writer,
    reader: &Reader,
    elems: &mut Vec<Entry>,
    nodes: &mut Vec<NodeElem>,
    heights: &mut Ghost<Seq<nat>>,
    items: &mut Ghost<Seq<Seq<GeomModel>>>,
    odd_axis: &mut Axis,
) -> (idx: usize)
    requires
        build_ok(old(writer)@, reader@, old(elems)@, old(nodes)@, old(heights)@, old(items)@),
        1 <= old(elems)@.len(),
    ensures
        build_ok(final(writer)@, reader@, final(elems)@, final(nodes)@, final(heights)@, final(items)@),
        final(elems)@.len() == old(elems)@.len(),
        final(writer)@.len() >= old(writer)@.len(),
        final(writer)@.subrange(0, old(writer)@.len() as int) == old(writer)@,
        final(nodes)@.len() > old(nodes)@.len(),
        idx == final(nodes)@.len() - 1,
        final(heights)@[idx as int] == crate::node::spec_height(old(elems)@.len() as nat),
        final(items)@[idx as int].len() == old(elems)@.len(),
        final(items)@[idx as int].to_multiset() == spec_models_of(
            reader@,
            old(elems)@,
        ).to_multiset(),
{
    let ghost staging = reader@;
    let ghost f = elem_model_fn(staging);
    let n = elems.len();
    let height = Node::height(n);
    *odd_axis = Axis::Y.with_height(height);
    let axis_now = *odd_axis;
    if height == 1 {
        let r = build_leaf(writer, reader, elems, nodes, heights, items, 0, n);
        proof {
            let models = spec_models_of(staging, elems@.subrange(0, n as int));
            models.lemma_reverse_to_multiset();
            assert(elems@.subrange(0, n as int) =~= elems@);
        }
        return r;
    }
    let ghost pre_sort = elems@;
    sort_range(elems, 0, n, Axis::X);
    proof {
        lemma_sorted_elems_ok(staging, pre_sort, elems@, 0, n as int);
        assert(pre_sort.subrange(0, n as int) =~= pre_sort);
        assert(elems@.subrange(0, n as int) =~= elems@);
    }
    let psub = Node::partition_sz(height);
    let groups = Node::root_groups(n);
    proof {
        crate::node::lemma_ceil_div_ge(n as int, psub as int, 1);
        assert(crate::node::pow6(height as nat) == 6 * psub);
        if groups < 2 {
            let sv = (n + psub - 1) as int / psub as int;
            assert(groups * groups >= sv);
            assert(sv >= 2);
            assert(false);
        }
    }
    let v_group = M_NODE / groups;
    proof {
        if groups == 2 {
            assert(v_group == 3);
        } else {
            assert(groups == 3);
            assert(v_group == 2);
        }
        assert(groups * v_group == 6);
        // every vertical group fits the subtrees of one node row
        assert(((v_group * psub) as int) * (groups as int) == 6 * (psub as int))
            by (nonlinear_arith)
            requires
                (groups as int) * (v_group as int) == 6,
                psub >= 0,
        ;
        crate::node::lemma_ceil_div_le(n as int, groups as int, (v_group * psub) as int);
    }
    let ng128: u128 = (n as u128 + groups as u128 - 1) / (groups as u128);
    proof {
        crate::node::lemma_ceil_div_le(n as int, groups as int, n as int);
        assert(n <= groups * n) by (nonlinear_arith)
            requires
                n >= 0,
                groups >= 1,
        ;
        crate::node::lemma_ceil_div_ge(n as int, groups as int, 0);
    }
    let n_group = ng128 as usize;
    proof {
        if n > n_group * groups {
            crate::node::lemma_ceil_div_ge(n as int, groups as int, n_group as int);
            assert(false);
        }
    }
    let ghost base_nodes_len = nodes@.len();
    let mut children: Vec<usize> = Vec::new();
    let mut pos: usize = 0;
    let ghost dv: int = 0;
    proof {
        assert(heights@.subrange(0, old(nodes)@.len() as int) =~= old(heights)@);
        assert(items@.subrange(0, old(nodes)@.len() as int) =~= old(items)@);
        assert(spec_models_of(staging, elems@.subrange(0, 0)) =~= Seq::<GeomModel>::empty());
        assert(spec_cat_rev(children@.map_values(|c: usize| items@[c as int])).to_multiset()
            =~= spec_models_of(staging, elems@.subrange(0, 0)).to_multiset());
    }
    while pos < n
        invariant
            build_ok(writer@, staging, elems@, nodes@, heights@, items@),
            staging == reader@,
            f == elem_model_fn(staging),
            0 <= pos <= n <= elems@.len(),
            n == elems@.len(),
            elems@.len() == old(elems)@.len(),
            height >= 2,
            psub == crate::node::pow6((height - 1) as nat),
            psub >= 1,
            n <= crate::node::pow6(height as nat),
            crate::node::pow6(height as nat) == 6 * psub,
            2 <= groups <= 3,
            v_group == M_NODE / groups,
            2 <= v_group <= 3,
            groups * v_group == 6,
            1 <= n_group,
            n <= groups * n_group,
            n_group <= (v_group * psub) as int,
            elems@.subrange(0, n as int).to_multiset() == old(elems)@.subrange(
                0,
                n as int,
            ).to_multiset(),
            writer@.len() >= old(writer)@.len(),
            writer@.subrange(0, old(writer)@.len() as int) == old(writer)@,
            nodes@.len() >= base_nodes_len,
            base_nodes_len == old(nodes)@.len(),
            heights@.subrange(0, old(nodes)@.len() as int) == old(heights)@,
            items@.subrange(0, old(nodes)@.len() as int) == old(items)@,
            forall|c: int|
                0 <= c < children@.len() ==> (#[trigger] children@[c]) < nodes@.len()
                    && heights@[children@[c] as int] == (height - 1) as nat,
            spec_cat_rev(children@.map_values(|c: usize| items@[c as int])).len() == pos,
            spec_cat_rev(children@.map_values(|c: usize| items@[c as int])).to_multiset()
                == spec_models_of(staging, elems@.subrange(0, pos as int)).to_multiset(),
            dv >= 0,
            pos < n ==> pos == dv * n_group,
            pos == n ==> dv >= 1 ==> pos > (dv - 1) * n_group,
            children@.len() <= dv * v_group,
        decreases n - pos,
    {
        let a = pos;
        let a2 = if n - a > n_group {
            a + n_group
        } else {
            n
        };
        let vlen = a2 - a;
        let ghost pre_vsort = elems@;
        sort_range(elems, a, a2, Axis::Y);
        proof {
            lemma_sorted_elems_ok(staging, pre_vsort, elems@, a as int, a2 as int);
            lemma_splice_multiset(pre_vsort, elems@, 0, a as int, a2 as int, n as int);
            assert(spec_models_of(staging, elems@.subrange(0, a as int)) == spec_models_of(
                staging,
                pre_vsort.subrange(0, a as int),
            ));
        }
        let nc128: u128 = (vlen as u128 + v_group as u128 - 1) / (v_group as u128);
        proof {
            assert(vlen <= vlen * v_group) by (nonlinear_arith)
                requires
                    vlen >= 0,
                    v_group >= 1,
            ;
            crate::node::lemma_ceil_div_le(vlen as int, v_group as int, vlen as int);
            crate::node::lemma_ceil_div_ge(vlen as int, v_group as int, 0);
            assert((psub as int) * (v_group as int) == (v_group as int) * (psub as int))
                by (nonlinear_arith);
            crate::node::lemma_ceil_div_le(vlen as int, v_group as int, psub as int);
        }
        let n_chunk = nc128 as usize;
        proof {
            if vlen > n_chunk * v_group {
                crate::node::lemma_ceil_div_ge(vlen as int, v_group as int, n_chunk as int);
                assert(false);
            }
        }
        let mut b: usize = a;
        let ghost di: int = 0;
        while b < a2
            invariant
                build_ok(writer@, staging, elems@, nodes@, heights@, items@),
                staging == reader@,
                f == elem_model_fn(staging),
                0 <= a <= b <= a2 <= n <= elems@.len(),
                n == elems@.len(),
                elems@.len() == old(elems)@.len(),
                height >= 2,
                psub == crate::node::pow6((height - 1) as nat),
                psub >= 1,
                n <= crate::node::pow6(height as nat),
                crate::node::pow6(height as nat) == 6 * psub,
                2 <= groups <= 3,
                v_group == M_NODE / groups,
                groups * v_group == 6,
                1 <= n_chunk <= psub,
                vlen == a2 - a,
                vlen <= n_chunk * v_group,
                elems@.subrange(0, n as int).to_multiset() == old(elems)@.subrange(
                    0,
                    n as int,
                ).to_multiset(),
                writer@.len() >= old(writer)@.len(),
                writer@.subrange(0, old(writer)@.len() as int) == old(writer)@,
                nodes@.len() >= base_nodes_len,
                base_nodes_len == old(nodes)@.len(),
                heights@.subrange(0, old(nodes)@.len() as int) == old(heights)@,
                items@.subrange(0, old(nodes)@.len() as int) == old(items)@,
                forall|c: int|
                    0 <= c < children@.len() ==> (#[trigger] children@[c]) < nodes@.len()
                        && heights@[children@[c] as int] == (height - 1) as nat,
                spec_cat_rev(children@.map_values(|c: usize| items@[c as int])).len() == b,
                spec_cat_rev(children@.map_values(|c: usize| items@[c as int])).to_multiset()
                    == spec_models_of(staging, elems@.subrange(0, b as int)).to_multiset(),
                di >= 0,
                b < a2 ==> b - a == di * n_chunk,
                b == a2 ==> di >= 1 ==> b - a > (di - 1) * n_chunk,
                children@.len() <= dv * v_group + di,
                dv >= 0,
            decreases a2 - b,
        {
            let b2 = if a2 - b > n_chunk {
                b + n_chunk
            } else {
                a2
            };
            let ghost pre_call_elems = elems@;
            let ghost pre_call_items = items@;
            let ghost pre_call_heights = heights@;
            let ghost pre_call_nodes_len = nodes@.len();
            let child = build_subtree(
                writer,
                reader,
                elems,
                nodes,
                heights,
                items,
                axis_now,
                height - 1,
                b,
                b2,
            );
            proof {
                crate::node::lemma_pow6_mono((height - 2) as nat, (height - 1) as nat);
            }
            let ghost pre_children = children@;
            children.push(child);
            proof {
                assert((di + 1) * n_chunk == di * n_chunk + n_chunk) by (nonlinear_arith);
                lemma_splice_multiset(
                    pre_call_elems,
                    elems@,
                    0,
                    b as int,
                    b2 as int,
                    n as int,
                );
                assert(heights@.subrange(0, old(nodes)@.len() as int) =~= heights@.subrange(
                    0,
                    pre_call_nodes_len as int,
                ).subrange(0, old(nodes)@.len() as int));
                assert(items@.subrange(0, old(nodes)@.len() as int) =~= items@.subrange(
                    0,
                    pre_call_nodes_len as int,
                ).subrange(0, old(nodes)@.len() as int));
                assert forall|c: int|
                    0 <= c < pre_children.len() implies (#[trigger] pre_children[c])
                        < nodes@.len() && heights@[pre_children[c] as int] == (height - 1) as nat
                        && items@[pre_children[c] as int] == pre_call_items[pre_children[c] as int] by {
                    assert(heights@.subrange(0, pre_call_nodes_len as int)[pre_children[c] as int]
                        == heights@[pre_children[c] as int]);
                    assert(items@.subrange(0, pre_call_nodes_len as int)[pre_children[c] as int]
                        == items@[pre_children[c] as int]);
                    assert(pre_call_heights[pre_children[c] as int] == pre_call_heights.subrange(
                        0,
                        pre_call_nodes_len as int,
                    )[pre_children[c] as int]);
                    assert(pre_call_items[pre_children[c] as int] == pre_call_items.subrange(
                        0,
                        pre_call_nodes_len as int,
                    )[pre_children[c] as int]);
                }
                let m_old = pre_children.map_values(|c: usize| pre_call_items[c as int]);
                let m_new = children@.map_values(|c: usize| items@[c as int]);
                assert(children@.drop_last() =~= pre_children);
                assert(m_new.drop_last() =~= m_old) by {
                    assert forall|c: int| 0 <= c < pre_children.len() implies m_new.drop_last()[c]
                        == m_old[c] by {
                        assert(m_new[c] == items@[children@[c] as int]);
                        assert(children@[c] == pre_children[c]);
                    }
                }
                assert(m_new.last() == items@[child as int]);
                assert(spec_cat_rev(m_new) == m_new.last() + spec_cat_rev(m_new.drop_last()));
                assert(spec_cat_rev(m_new.drop_last()) == spec_cat_rev(m_old));
                assert(spec_models_of(staging, elems@.subrange(0, b as int)) == spec_models_of(
                    staging,
                    pre_call_elems.subrange(0, b as int),
                ));
                assert(items@[child as int].to_multiset() == spec_models_of(
                    staging,
                    elems@.subrange(b as int, b2 as int),
                ).to_multiset()) by {
                    lemma_to_multiset_map(
                        pre_call_elems.subrange(b as int, b2 as int),
                        elems@.subrange(b as int, b2 as int),
                        f,
                    );
                }
                assert(spec_models_of(staging, elems@.subrange(0, b2 as int)) =~= spec_models_of(
                    staging,
                    elems@.subrange(0, b as int),
                ) + spec_models_of(staging, elems@.subrange(b as int, b2 as int))) by {
                    assert forall|t: int|
                        0 <= t < b2 implies spec_models_of(
                        staging,
                        elems@.subrange(0, b2 as int),
                    )[t] == (spec_models_of(staging, elems@.subrange(0, b as int))
                        + spec_models_of(staging, elems@.subrange(b as int, b2 as int)))[t] by {
                        if t < b {
                            assert(elems@.subrange(0, b2 as int)[t] == elems@.subrange(
                                0,
                                b as int,
                            )[t]);
                        } else {
                            assert(elems@.subrange(0, b2 as int)[t] == elems@.subrange(
                                b as int,
                                b2 as int,
                            )[t - b]);
                        }
                    }
                }
                vstd::seq_lib::lemma_multiset_commutative(
                    m_new.last(),
                    spec_cat_rev(m_new.drop_last()),
                );
                vstd::seq_lib::lemma_multiset_commutative(
                    spec_models_of(staging, elems@.subrange(0, b as int)),
                    spec_models_of(staging, elems@.subrange(b as int, b2 as int)),
                );
            }
            b = b2;
            proof {
                di = di + 1;
            }
        }
        proof {
            // the vertical group produced at most `v_group` chunks
            if di > v_group {
                assert(vlen > (di - 1) * n_chunk);
                assert((di - 1) * n_chunk >= n_chunk * v_group) by (nonlinear_arith)
                    requires
                        di >= v_group + 1,
                        n_chunk >= 1,
                        v_group >= 0,
                ;
                assert(false);
            }
            assert(children@.len() <= dv * v_group + v_group);
            assert((dv + 1) * v_group == dv * v_group + v_group) by (nonlinear_arith);
            assert((dv + 1) * n_group == dv * n_group + n_group) by (nonlinear_arith);
            dv = dv + 1;
        }
        pos = a2;
    }
    let idx = nodes.len();
    let ghost kids = children@.map_values(|c: usize| items@[c as int]);
    proof {
        // at most six children altogether
        if dv > groups {
            assert(n > (dv - 1) * n_group);
            assert((dv - 1) * n_group >= groups * n_group) by (nonlinear_arith)
                requires
                    dv >= groups + 1,
                    n_group >= 1,
                    groups >= 0,
            ;
            assert(false);
        }
        assert(children@.len() <= dv * v_group);
        assert(dv * v_group <= groups * v_group) by (nonlinear_arith)
            requires
                dv <= groups,
                v_group >= 0,
        ;
        assert(children@.len() >= 1) by {
            if children@.len() == 0 {
                assert(spec_cat_rev(children@.map_values(|c: usize| items@[c as int])).len()
                    == 0);
            }
        }
    }
    let ghost pre_nodes = nodes@;
    let ghost pre_heights = heights@;
    let ghost pre_items = items@;
    nodes.push(NodeElem::Node(children));
    *heights = Ghost(heights@.push(height as nat));
    *items = Ghost(items@.push(spec_cat_rev(kids)));
    proof {
        let nlen = nodes@.len();
        assert forall|k: int| 0 <= k < nlen implies plan_ok(
            writer@,
            nodes@,
            heights@,
            items@,
            k,
        ) by {
            if k < nlen - 1 {
                assert(plan_ok(writer@, pre_nodes, pre_heights, pre_items, k));
                assert(nodes@[k] == pre_nodes[k]);
                match pre_nodes[k] {
                    NodeElem::Leaf(node) => {},
                    NodeElem::Node(ch) => {
                        assert(ch@.map_values(|c: usize| pre_items[c as int]) =~= ch@.map_values(
                            |c: usize| items@[c as int],
                        ));
                    },
                }
            } else {
                match nodes@[k] {
                    NodeElem::Leaf(node) => {
                        assert(false);
                    },
                    NodeElem::Node(ch) => {
                        assert(ch@.map_values(|c: usize| items@[c as int]) =~= kids);
                    },
                }
            }
        }
        assert(heights@.subrange(0, old(nodes)@.len() as int) =~= old(heights)@);
        assert(items@.subrange(0, old(nodes)@.len() as int) =~= old(items)@);
        assert(elems@.subrange(0, n as int) =~= elems@);
        assert(old(elems)@.subrange(0, n as int) =~= old(elems)@);
        lemma_to_multiset_map(elems@, old(elems)@, f);
    }
    idx
}

/// Materialize the node of one plan: a leaf is copied, a branch gathers
/// the entries its children were written under.
fn materialize(
    nodes: &Vec<NodeElem>,
    Ghost(heights): Ghost<Seq<nat>>,
    Ghost(items): Ghost<Seq<Seq<GeomModel>>>,
    node_entries: &Vec<Entry>,
    k: usize,
    Ghost(img): Ghost<Seq<u8>>,
) -> (nd: Node)
    requires
        plans_ok(img, nodes@, heights, items),
        k < nodes@.len(),
        node_entries@.len() >= k,
        forall|t: int|
            0 <= t < node_entries@.len() ==> (#[trigger] node_entries@[t]).id@ > 0,
    ensures
        nd.wf(),
        1 <= nd@.len() <= M_NODE,
        forall|j: int| 0 <= j < nd@.len() ==> (#[trigger] nd@[j]).id@ > 0,
        match nodes@[k as int] {
            NodeElem::Leaf(n) => nd@ == n@,
            NodeElem::Node(ch) => nd@ == ch@.map_values(|c: usize| node_entries@[c as int]),
        },
{
    proof {
        assert(plan_ok(img, nodes@, heights, items, k as int));
    }
    match &nodes[k] {
        NodeElem::Leaf(n) => copy_node(n),
        NodeElem::Node(ch) => {
            let ghost m = ch@.map_values(|c: usize| node_entries@[c as int]);
            let mut nd = Node::new();
            let mut j: usize = 0;
            while j < ch.len()
                invariant
                    plan_ok(img, nodes@, heights, items, k as int),
                    nodes@[k as int] == NodeElem::Node(*ch),
                    k < nodes@.len(),
                    node_entries@.len() >= k,
                    forall|t: int|
                        0 <= t < node_entries@.len() ==> (#[trigger] node_entries@[t]).id@ > 0,
                    m == ch@.map_values(|c: usize| node_entries@[c as int]),
                    0 <= j <= ch@.len() <= M_NODE,
                    nd.wf(),
                    nd@ == m.take(j as int),
                decreases ch@.len() - j,
            {
                let c = ch[j];
                proof {
                    assert(0 <= ch@[j as int] < k);
                }
                let e = node_entries[c];
                nd.push(e.id(), e.bbox());
                proof {
                    assert(Entry { id: e.id, bbox: e.bbox } == e);
                    assert(m.take(j as int).push(m[j as int]) =~= m.take(j + 1));
                }
                j = j + 1;
            }
            proof {
                assert(m.take(m.len() as int) =~= m);
            }
            nd
        },
    }
}

/// Write every planned node into the final image, children before
/// parents, then the root wrapped with the element count.  Returns the
/// root chunk identifier and the root node's entries.
#[verifier::rlimit(100)]
fn write_nodes(
    writer: &mut Writer,
    nodes: &Vec<NodeElem>,
    Ghost(heights): Ghost<Seq<nat>>,
    Ghost(items): Ghost<Seq<Seq<GeomModel>>>,
    n_elems: usize,
) -> (r: (Id, Ghost<Seq<Entry>>))
    requires
        old(writer).wf(),
        crate::reader::spec_header_ok(old(writer)@),
        plans_ok(old(writer)@, nodes@, heights, items),
        nodes@.len() >= 1,
    ensures
        final(writer).wf(),
        crate::reader::spec_header_ok(final(writer)@),
        forall|suf: Seq<u8>|
            #![trigger crate::tree::spec_root_at(final(writer)@ + suf, r.0@)]
            suf.len() >= 13 ==> {
                &&& crate::tree::spec_root_at(final(writer)@ + suf, r.0@) == Some(
                    (r.1@, n_elems as u64),
                )
                &&& (forall|j: int|
                    0 <= j < r.1@.len() ==> crate::tree::spec_wf_entry(
                        final(writer)@ + suf,
                        #[trigger] r.1@[j],
                        heights[nodes@.len() - 1],
                    ))
                &&& crate::tree::spec_children_items(
                    final(writer)@ + suf,
                    r.1@,
                    heights[nodes@.len() - 1],
                ) == items[nodes@.len() - 1]
            },
{
    let n_nodes = nodes.len();
    let mut node_entries: Vec<Entry> = Vec::new();
    let mut k: usize = 0;
    while k < n_nodes - 1
        invariant
            writer.wf(),
            crate::reader::spec_header_ok(writer@),
            plans_ok(writer@, nodes@, heights, items),
            n_nodes == nodes@.len() >= 1,
            0 <= k <= n_nodes - 1,
            node_entries@.len() == k,
            forall|t: int|
                0 <= t < k ==> (#[trigger] node_entries@[t]).id@ > 0 && spec_future_entry(
                    writer@,
                    node_entries@[t],
                    (heights[t] + 1) as nat,
                    items[t],
                ),
        decreases n_nodes - 1 - k,
    {
        let nd = materialize(
            nodes,
            Ghost(heights),
            Ghost(items),
            &node_entries,
            k,
            Ghost(writer@),
        );
        let payload = crate::codec::enc_node(&nd);
        let _ = writer.len();
        let ghost pre = writer@;
        proof {
            vstd::std_specs::vec::axiom_spec_len(&payload);
        }
        let wid = writer.push(&payload);
        let bbox = nd.bbox();
        let e = Entry::new(wid, bbox);
        node_entries.push(e);
        proof {
            let more = crate::chunk::spec_frame(payload@);
            crate::common::lemma_spec_id(pre.len() as u64);
            crate::common::lemma_id_eq(e.id, crate::common::spec_id(pre.len() as u64));
            assert(plan_ok(pre, nodes@, heights, items, k as int));
            match nodes@[k as int] {
                NodeElem::Leaf(n) => {
                    let models = items[k as int].reverse();
                    assert(models.len() == n@.len());
                    assert forall|j: int| 0 <= j < n@.len() implies spec_future_geom(
                        pre,
                        (#[trigger] n@[j]).id@,
                        models[j],
                    ) && n@[j].bbox == crate::gis::spec_model_bbox(models[j]) by {
                        assert(models[j] == items[k as int][n@.len() - 1 - j]);
                    }
                    lemma_push_leaf_entry(pre, n@, models);
                    assert(models.reverse() =~= items[k as int]);
                    assert(heights[k as int] + 1 == 2);
                    assert(spec_future_entry(writer@, e, 2, items[k as int]));
                },
                NodeElem::Node(ch) => {
                    let kids = ch@.map_values(|c: usize| items[c as int]);
                    let h = heights[k as int];
                    assert forall|j: int| 0 <= j < nd@.len() implies (#[trigger] nd@[j]).id@ > 0
                        && spec_future_entry(pre, nd@[j], (h - 1 + 1) as nat, kids[j]) by {
                        assert(nd@[j] == node_entries@.drop_last()[ch@[j] as int]);
                        assert(node_entries@.drop_last()[ch@[j] as int] == node_entries@[ch@[j] as int]);
                        assert(heights[ch@[j] as int] == h - 1);
                        assert(kids[j] == items[ch@[j] as int]);
                    }
                    lemma_push_node_entry(pre, nd@, (h - 1 + 1) as nat, kids);
                    assert(spec_cat_rev(kids) == items[k as int]);
                    assert(spec_future_entry(writer@, e, (h + 1) as nat, items[k as int]));
                },
            }
            assert forall|t: int| 0 <= t < k implies spec_future_entry(
                writer@,
                #[trigger] node_entries@[t],
                (heights[t] + 1) as nat,
                items[t],
            ) by {
                assert(node_entries@[t] == node_entries@.drop_last()[t]);
                lemma_future_entry_grow(
                    pre,
                    more,
                    node_entries@[t],
                    (heights[t] + 1) as nat,
                    items[t],
                );
            }
            lemma_plans_grow(pre, more, nodes@, heights, items);
            assert(writer@.subrange(0, 8) =~= pre.subrange(0, 8));
        }
        k = k + 1;
    }
    let last = n_nodes - 1;
    let nd_root = materialize(
        nodes,
        Ghost(heights),
        Ghost(items),
        &node_entries,
        last,
        Ghost(writer@),
    );
    let ghost nview = nd_root@;
    let root = Root::new(nd_root, n_elems);
    let payload = crate::codec::enc_root(&root);
    let _ = writer.len();
    let ghost pre = writer@;
    proof {
        vstd::std_specs::vec::axiom_spec_len(&payload);
    }
    let rid = writer.push(&payload);
    proof {
        let more = crate::chunk::spec_frame(payload@);
        let hl = heights[last as int];
        assert(plan_ok(pre, nodes@, heights, items, last as int));
        crate::codec::lemma_root_roundtrip(nview, n_elems as u64);
        assert(writer@.subrange(0, 8) =~= pre.subrange(0, 8));
        assert forall|suf: Seq<u8>|
            suf.len() >= 13 implies {
            &&& crate::tree::spec_root_at(writer@ + suf, rid@) == Some((nview, n_elems as u64))
            &&& (forall|j: int|
                0 <= j < nview.len() ==> crate::tree::spec_wf_entry(
                    writer@ + suf,
                    #[trigger] nview[j],
                    hl,
                ))
            &&& crate::tree::spec_children_items(writer@ + suf, nview, hl) == items[last as int]
        } by {
            let data = writer@ + suf;
            assert(data =~= pre + more + suf);
            crate::laws::lemma_chunk_roundtrip(pre, payload@, suf);
            assert(crate::tree::spec_root_at(data, rid@) == Some((nview, n_elems as u64)));
            let s2 = more + suf;
            assert(s2.len() >= 13) by {
                crate::chunk::lemma_frame_len(payload@);
            }
            match nodes@[last as int] {
                NodeElem::Leaf(n) => {
                    let models = items[last as int].reverse();
                    assert(nview == n@);
                    assert forall|j: int| 0 <= j < nview.len() implies crate::tree::spec_wf_entry(
                        data,
                        #[trigger] nview[j],
                        1,
                    ) && crate::tree::spec_geom_at(data, nview[j].id@) == Some(models[j]) by {
                        assert(models[j] == items[last as int][nview.len() - 1 - j]);
                        assert(spec_future_geom(pre, nview[j].id@, models[j]));
                        assert(crate::tree::spec_geom_at(pre + s2, nview[j].id@) == Some(
                            models[j],
                        ));
                        assert(pre + s2 =~= data);
                    }
                    lemma_leaf_items(data, nview, models);
                    assert(models.reverse() =~= items[last as int]);
                    assert(hl == 1);
                },
                NodeElem::Node(ch) => {
                    let kids = ch@.map_values(|c: usize| items[c as int]);
                    assert(nview == ch@.map_values(|c: usize| node_entries@[c as int]));
                    assert forall|j: int| 0 <= j < nview.len() implies crate::tree::spec_wf_entry(
                        data,
                        #[trigger] nview[j],
                        hl,
                    ) && crate::tree::spec_subtree_items(data, nview[j].id@, hl) == kids[j] by {
                        assert(nview[j] == node_entries@[ch@[j] as int]);
                        assert(heights[ch@[j] as int] == hl - 1);
                        assert(kids[j] == items[ch@[j] as int]);
                        assert(spec_future_entry(
                            pre,
                            node_entries@[ch@[j] as int],
                            (heights[ch@[j] as int] + 1) as nat,
                            items[ch@[j] as int],
                        ));
                        assert(crate::tree::spec_wf_entry(pre + s2, nview[j], hl));
                        assert(crate::tree::spec_subtree_items(pre + s2, nview[j].id@, hl)
                            == kids[j]);
                        assert(pre + s2 =~= data);
                    }
                    lemma_node_items(data, nview, hl, kids);
                    assert(spec_cat_rev(kids) == items[last as int]);
                },
            }
        }
    }
    (rid, Ghost(nview))
}

} // verus!
