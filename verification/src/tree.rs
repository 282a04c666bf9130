//! The model of an R-tree laid down in a chunk file image.
//!
//! An entry at height 1 points at a geometry chunk whose bounding box is
//! the entry's box; an entry at a greater height points at a node chunk
//! whose entries are all well-formed one level down and boxed within the
//! parent entry.  The items of a subtree are listed in the order the
//! query walks them: depth first, last sibling first.

use crate::bbox::{spec_contains, spec_intersects, BBox};
use crate::codec::{spec_dec_geom, spec_dec_node, spec_dec_root};
use crate::gis::{spec_model_bbox, GeomModel};
use crate::node::Entry;
use crate::reader::spec_lookup;
use vstd::prelude::*;

verus! {

/// The payload of the chunk at `id`, where lookup succeeds.
pub open spec fn spec_payload_at(data: Seq<u8>, id: u64) -> Option<Seq<u8>> {
    match spec_lookup(data, id) {
        Ok(p) => Some(p),
        Err(_) => None,
    }
}

/// The geometry stored at `id`.
pub open spec fn spec_geom_at(data: Seq<u8>, id: u64) -> Option<GeomModel> {
    match spec_payload_at(data, id) {
        Some(p) => spec_dec_geom(p),
        None => None,
    }
}

/// The node entries stored at `id`.
pub open spec fn spec_node_at(data: Seq<u8>, id: u64) -> Option<Seq<Entry>> {
    match spec_payload_at(data, id) {
        Some(p) => spec_dec_node(p),
        None => None,
    }
}

/// The root node and element count stored at `id`.
pub open spec fn spec_root_at(data: Seq<u8>, id: u64) -> Option<(Seq<Entry>, u64)> {
    match spec_payload_at(data, id) {
        Some(p) => spec_dec_root(p),
        None => None,
    }
}

/// A well-formed subtree entry at the given height.
pub open spec fn spec_wf_entry(data: Seq<u8>, e: Entry, height: nat) -> bool
    decreases height,
{
    if height == 0 {
        false
    } else if height == 1 {
        e.id@ > 0 && match spec_geom_at(data, e.id@) {
            Some(g) => spec_model_bbox(g) == e.bbox,
            None => false,
        }
    } else {
        e.id@ > 0 && match spec_node_at(data, e.id@) {
            Some(children) => children.len() >= 1 && forall|i: int|
                0 <= i < children.len() ==> spec_wf_entry(
                    data,
                    #[trigger] children[i],
                    (height - 1) as nat,
                ) && spec_contains(e.bbox, children[i].bbox),
            None => false,
        }
    }
}

/// The geometries below the subtree chunk at `id`, in traversal order.
pub open spec fn spec_subtree_items(data: Seq<u8>, id: u64, height: nat) -> Seq<GeomModel>
    decreases height, 0nat,
{
    if height <= 1 {
        match spec_geom_at(data, id) {
            Some(g) => seq![g],
            None => Seq::<GeomModel>::empty(),
        }
    } else {
        match spec_node_at(data, id) {
            Some(children) => spec_children_items(data, children, (height - 1) as nat),
            None => Seq::<GeomModel>::empty(),
        }
    }
}

/// The geometries below a list of child entries at a common height, the
/// last child walked first.
pub open spec fn spec_children_items(data: Seq<u8>, s: Seq<Entry>, height: nat) -> Seq<GeomModel>
    decreases height, s.len(),
{
    if s.len() == 0 {
        Seq::<GeomModel>::empty()
    } else {
        spec_subtree_items(data, s.last().id@, height) + spec_children_items(
            data,
            s.drop_last(),
            height,
        )
    }
}

/// Whether a geometry's box intersects the query box.
pub open spec fn geom_hits(q: BBox) -> spec_fn(GeomModel) -> bool {
    |g: GeomModel| spec_intersects(spec_model_bbox(g), q)
}

/// Whether the query descends through an entry.
pub open spec fn entry_hits(e: Entry, q: BBox) -> bool {
    e.id@ > 0 && spec_intersects(e.bbox, q)
}

/// The geometries the query yields below the subtree chunk at `id`,
/// once the query has descended into it.
pub open spec fn spec_subtree_items_q(data: Seq<u8>, id: u64, height: nat, q: BBox) -> Seq<
    GeomModel,
>
    decreases height, 0nat,
{
    if height <= 1 {
        match spec_geom_at(data, id) {
            Some(g) => seq![g],
            None => Seq::<GeomModel>::empty(),
        }
    } else {
        match spec_node_at(data, id) {
            Some(children) => spec_children_items_q(data, children, (height - 1) as nat, q),
            None => Seq::<GeomModel>::empty(),
        }
    }
}

/// The geometries the query yields below the children it keeps.
pub open spec fn spec_children_items_q(data: Seq<u8>, s: Seq<Entry>, height: nat, q: BBox) -> Seq<
    GeomModel,
>
    decreases height, s.len(),
{
    if s.len() == 0 {
        Seq::<GeomModel>::empty()
    } else {
        (if entry_hits(s.last(), q) {
            spec_subtree_items_q(data, s.last().id@, height, q)
        } else {
            Seq::<GeomModel>::empty()
        }) + spec_children_items_q(data, s.drop_last(), height, q)
    }
}

/// Every geometry below a well-formed entry is boxed within it.
pub proof fn lemma_entry_items_bounded(data: Seq<u8>, e: Entry, height: nat)
    requires
        spec_wf_entry(data, e, height),
    ensures
        forall|i: int|
            0 <= i < spec_subtree_items(data, e.id@, height).len() ==> spec_contains(
                e.bbox,
                spec_model_bbox(#[trigger] spec_subtree_items(data, e.id@, height)[i]),
            ),
    decreases height, 0nat,
{
    if height <= 1 {
        let g = spec_geom_at(data, e.id@).unwrap();
        assert(spec_subtree_items(data, e.id@, height) =~= seq![g]);
        assert(spec_contains(e.bbox, spec_model_bbox(g)));
    } else {
        let children = spec_node_at(data, e.id@).unwrap();
        assert(forall|i: int|
            0 <= i < children.len() ==> spec_wf_entry(data, #[trigger] children[i], (height - 1) as nat)
                && spec_contains(e.bbox, children[i].bbox));
        lemma_children_items_bounded(data, children, (height - 1) as nat, e.bbox);
        assert(spec_subtree_items(data, e.id@, height) == spec_children_items(
            data,
            children,
            (height - 1) as nat,
        ));
    }
}

/// Every geometry below well-formed children is boxed within any box
/// that contains each child's box.
pub proof fn lemma_children_items_bounded(data: Seq<u8>, s: Seq<Entry>, height: nat, outer: BBox)
    requires
        forall|i: int| 0 <= i < s.len() ==> spec_wf_entry(data, #[trigger] s[i], height),
        forall|i: int| 0 <= i < s.len() ==> spec_contains(outer, (#[trigger] s[i]).bbox),
    ensures
        forall|i: int|
            0 <= i < spec_children_items(data, s, height).len() ==> spec_contains(
                outer,
                spec_model_bbox(#[trigger] spec_children_items(data, s, height)[i]),
            ),
    decreases height, s.len(),
{
    if s.len() == 0 {
    } else {
        let last = s.last();
        let head = spec_subtree_items(data, last.id@, height);
        let rest = spec_children_items(data, s.drop_last(), height);
        lemma_entry_items_bounded(data, last, height);
        assert(forall|i: int| 0 <= i < s.len() - 1 ==> s.drop_last()[i] == s[i]);
        lemma_children_items_bounded(data, s.drop_last(), height, outer);
        assert forall|i: int|
            0 <= i < spec_children_items(data, s, height).len() implies spec_contains(
            outer,
            spec_model_bbox(spec_children_items(data, s, height)[i]),
        ) by {
            let whole = spec_children_items(data, s, height);
            if i < head.len() {
                assert(whole[i] == head[i]);
                crate::bbox::lemma_contains_trans(outer, last.bbox, spec_model_bbox(head[i]));
            } else {
                assert(whole[i] == rest[i - head.len()]);
            }
        }
    }
}

/// A query box that every stored geometry touches returns the whole
/// tree.
pub proof fn lemma_query_all(data: Seq<u8>, q: BBox)
    requires
        spec_tree_wf(data),
        forall|i: int|
            0 <= i < spec_tree_items(data).len() ==> spec_intersects(
                spec_model_bbox(#[trigger] spec_tree_items(data)[i]),
                q,
            ),
    ensures
        spec_query_items(data, q) == spec_tree_items(data),
{
    lemma_query_exact(data, q);
    lemma_filter_all(spec_tree_items(data), geom_hits(q));
}

/// A sequence with no matching element filters to nothing.
proof fn lemma_filter_none(s: Seq<GeomModel>, pred: spec_fn(GeomModel) -> bool)
    requires
        forall|i: int| 0 <= i < s.len() ==> !pred(#[trigger] s[i]),
    ensures
        s.filter(pred) == Seq::<GeomModel>::empty(),
    decreases s.len(),
{
    reveal(Seq::filter);
    if s.len() > 0 {
        assert(forall|i: int| 0 <= i < s.len() - 1 ==> s.drop_last()[i] == s[i]);
        lemma_filter_none(s.drop_last(), pred);
    }
}

/// A sequence whose every element matches filters to itself.
proof fn lemma_filter_all(s: Seq<GeomModel>, pred: spec_fn(GeomModel) -> bool)
    requires
        forall|i: int| 0 <= i < s.len() ==> pred(#[trigger] s[i]),
    ensures
        s.filter(pred) == s,
    decreases s.len(),
{
    reveal(Seq::filter);
    if s.len() > 0 {
        assert(forall|i: int| 0 <= i < s.len() - 1 ==> s.drop_last()[i] == s[i]);
        lemma_filter_all(s.drop_last(), pred);
        assert(s.drop_last().push(s.last()) =~= s);
    }
}

/// What the query yields below an entry it descended into is exactly the
/// subtree's items whose boxes intersect the query box.
pub proof fn lemma_entry_query_exact(data: Seq<u8>, e: Entry, height: nat, q: BBox)
    requires
        spec_wf_entry(data, e, height),
        entry_hits(e, q),
    ensures
        spec_subtree_items_q(data, e.id@, height, q) == spec_subtree_items(
            data,
            e.id@,
            height,
        ).filter(geom_hits(q)),
    decreases height, 0nat,
{
    reveal(Seq::filter);
    if height <= 1 {
        let g = spec_geom_at(data, e.id@).unwrap();
        assert(spec_model_bbox(g) == e.bbox);
        let items = spec_subtree_items(data, e.id@, height);
        assert(items =~= seq![g]);
        assert(items.drop_last() =~= Seq::<GeomModel>::empty());
        assert(geom_hits(q)(g));
        assert(items.filter(geom_hits(q)) =~= seq![g]);
    } else {
        let children = spec_node_at(data, e.id@).unwrap();
        lemma_children_query_exact(data, children, (height - 1) as nat, q);
    }
}

/// What the query yields below a list of well-formed children is exactly
/// their items whose boxes intersect the query box.
pub proof fn lemma_children_query_exact(data: Seq<u8>, s: Seq<Entry>, height: nat, q: BBox)
    requires
        forall|i: int| 0 <= i < s.len() ==> spec_wf_entry(data, #[trigger] s[i], height),
    ensures
        spec_children_items_q(data, s, height, q) == spec_children_items(data, s, height).filter(
            geom_hits(q),
        ),
    decreases height, s.len(),
{
    broadcast use vstd::seq_lib::group_seq_properties;

    if s.len() == 0 {
        reveal(Seq::filter);
        assert(spec_children_items(data, s, height).filter(geom_hits(q)) =~= Seq::<
            GeomModel,
        >::empty());
    } else {
        let last = s.last();
        let head = spec_subtree_items(data, last.id@, height);
        let rest = spec_children_items(data, s.drop_last(), height);
        assert(forall|i: int| 0 <= i < s.len() - 1 ==> s.drop_last()[i] == s[i]);
        lemma_children_query_exact(data, s.drop_last(), height, q);
        Seq::filter_distributes_over_add(head, rest, geom_hits(q));
        if entry_hits(last, q) {
            lemma_entry_query_exact(data, last, height, q);
        } else {
            lemma_entry_items_bounded(data, last, height);
            assert forall|i: int| 0 <= i < head.len() implies !geom_hits(q)(#[trigger] head[i]) by {
                assert(spec_contains(last.bbox, spec_model_bbox(head[i])));
                if last.id@ > 0 {
                    crate::bbox::lemma_contains_prunes(q, last.bbox, spec_model_bbox(head[i]));
                }
            }
            lemma_filter_none(head, geom_hits(q));
        }
    }
}

/// The image holds a well-formed tree: a readable checkpoint, a root
/// chunk, and well-formed entries at the tree's height.  Because every
/// entry of a well-formed node is well-formed at exactly one level less,
/// all geometries sit at the same depth.
pub open spec fn spec_tree_wf(data: Seq<u8>) -> bool {
    match crate::reader::spec_root(data) {
        Ok(rid) => match spec_root_at(data, rid) {
            Some((entries, n)) => n <= usize::MAX && forall|i: int|
                0 <= i < entries.len() ==> spec_wf_entry(
                    data,
                    #[trigger] entries[i],
                    crate::node::spec_height(n as nat),
                ),
            None => false,
        },
        Err(_) => false,
    }
}

/// Every geometry in the tree, in traversal order.
pub open spec fn spec_tree_items(data: Seq<u8>) -> Seq<GeomModel> {
    match crate::reader::spec_root(data) {
        Ok(rid) => match spec_root_at(data, rid) {
            Some((entries, n)) => spec_children_items(
                data,
                entries,
                crate::node::spec_height(n as nat),
            ),
            None => Seq::<GeomModel>::empty(),
        },
        Err(_) => Seq::<GeomModel>::empty(),
    }
}

/// What a query for `q` yields, in traversal order.
pub open spec fn spec_query_items(data: Seq<u8>, q: BBox) -> Seq<GeomModel> {
    match crate::reader::spec_root(data) {
        Ok(rid) => match spec_root_at(data, rid) {
            Some((entries, n)) => spec_children_items_q(
                data,
                entries,
                crate::node::spec_height(n as nat),
                q,
            ),
            None => Seq::<GeomModel>::empty(),
        },
        Err(_) => Seq::<GeomModel>::empty(),
    }
}

/// The query yields exactly the tree's geometries whose bounding boxes
/// intersect the query box, in traversal order.
pub proof fn lemma_query_exact(data: Seq<u8>, q: BBox)
    requires
        spec_tree_wf(data),
    ensures
        spec_query_items(data, q) == spec_tree_items(data).filter(geom_hits(q)),
{
    let rid = crate::reader::spec_root(data).unwrap();
    let (entries, n) = spec_root_at(data, rid).unwrap();
    lemma_children_query_exact(data, entries, crate::node::spec_height(n as nat), q);
}

/// Soundness: the query never yields a geometry whose box misses the
/// query box.
pub proof fn lemma_query_sound(data: Seq<u8>, q: BBox)
    requires
        spec_tree_wf(data),
    ensures
        forall|i: int|
            0 <= i < spec_query_items(data, q).len() ==> spec_intersects(
                spec_model_bbox(#[trigger] spec_query_items(data, q)[i]),
                q,
            ),
{
    lemma_query_exact(data, q);
    let items = spec_tree_items(data);
    assert forall|i: int| 0 <= i < spec_query_items(data, q).len() implies spec_intersects(
        spec_model_bbox(spec_query_items(data, q)[i]),
        q,
    ) by {
        items.lemma_filter_pred(geom_hits(q), i);
    }
}

/// Completeness: the query yields every geometry of the tree whose box
/// intersects the query box.
pub proof fn lemma_query_complete(data: Seq<u8>, q: BBox)
    requires
        spec_tree_wf(data),
    ensures
        forall|i: int|
            0 <= i < spec_tree_items(data).len() && spec_intersects(
                spec_model_bbox(#[trigger] spec_tree_items(data)[i]),
                q,
            ) ==> spec_query_items(data, q).contains(spec_tree_items(data)[i]),
{
    lemma_query_exact(data, q);
    let items = spec_tree_items(data);
    assert forall|i: int|
        0 <= i < items.len() && spec_intersects(spec_model_bbox(items[i]), q) implies spec_query_items(
        data,
        q,
    ).contains(items[i]) by {
        items.lemma_filter_contains(geom_hits(q), i);
    }
}

/// Seven to the power `h`: the measure a query walk spends on a stack
/// entry of that depth.
pub open spec fn pow7(h: nat) -> nat
    decreases h,
{
    if h == 0 {
        1
    } else {
        7 * pow7((h - 1) as nat)
    }
}

/// Powers of seven are positive.
pub proof fn lemma_pow7_pos(h: nat)
    ensures
        pow7(h) >= 1,
    decreases h,
{
    if h > 0 {
        lemma_pow7_pos((h - 1) as nat);
    }
}

/// The geometries still owed by a work stack, next-popped first.
pub open spec fn spec_stack_items(
    data: Seq<u8>,
    st: Seq<(crate::common::Id, usize)>,
    q: BBox,
) -> Seq<GeomModel>
    decreases st.len(),
{
    if st.len() == 0 {
        Seq::<GeomModel>::empty()
    } else {
        spec_subtree_items_q(data, st.last().0@, st.last().1 as nat, q) + spec_stack_items(
            data,
            st.drop_last(),
            q,
        )
    }
}

/// The measure of a work stack: strictly falls on every pop, even when
/// the popped node's six children are pushed one level down.
pub open spec fn spec_stack_measure(st: Seq<(crate::common::Id, usize)>) -> nat
    decreases st.len(),
{
    if st.len() == 0 {
        0
    } else {
        pow7(st.last().1 as nat) + spec_stack_measure(st.drop_last())
    }
}

/// Every stack entry points at a well-formed subtree the query hit.
pub open spec fn spec_stack_wf(
    data: Seq<u8>,
    st: Seq<(crate::common::Id, usize)>,
    q: BBox,
) -> bool {
    forall|k: int|
        0 <= k < st.len() ==> (#[trigger] st[k]).1 >= 1 && exists|e: Entry|
            e.id@ == st[k].0@ && spec_wf_entry(data, e, st[k].1 as nat) && entry_hits(e, q)
}


/// Fan-out: any node chunk a tree walk can read holds at most `M_NODE`
/// entries, and a well-formed interior entry's node holds at least one.
pub proof fn lemma_node_fanout(data: Seq<u8>, e: Entry, height: nat)
    requires
        spec_wf_entry(data, e, height),
        height >= 2,
    ensures
        spec_node_at(data, e.id@) is Some,
        1 <= spec_node_at(data, e.id@).unwrap().len() <= crate::node::M_NODE,
{
    let p = spec_payload_at(data, e.id@).unwrap();
    let slots = crate::codec::spec_dec_entry_list(p, 0, crate::node::M_NODE as nat).unwrap().0;
    lemma_dec_entry_list_len(p, 0, crate::node::M_NODE as nat);
    lemma_filter_le(slots);
}

/// A decoded slot row has exactly the asked-for length.
proof fn lemma_dec_entry_list_len(b: Seq<u8>, pos: int, n: nat)
    requires
        crate::codec::spec_dec_entry_list(b, pos, n) is Some,
    ensures
        crate::codec::spec_dec_entry_list(b, pos, n).unwrap().0.len() == n,
    decreases n,
{
    if n > 0 {
        let (e, p1) = crate::codec::spec_dec_entry(b, pos).unwrap();
        lemma_dec_entry_list_len(b, p1, (n - 1) as nat);
    }
}

/// Filtering keeps at most as many entries as there are slots.
proof fn lemma_filter_le(s: Seq<Entry>)
    ensures
        crate::codec::spec_filter_valid(s).len() <= s.len(),
    decreases s.len(),
{
    if s.len() > 0 {
        lemma_filter_le(s.drop_last());
    }
}


} // verus!
