//! R-tree reader: open a finished file image and query it by bounding
//! box.

use crate::bbox::BBox;
use crate::codec::{dec_geom, dec_node, dec_root};
use crate::common::{Error, Id};
use crate::gis::{Geom, GeomModel};
use crate::node::{Entry, Node};
use crate::reader::Reader;
use crate::tree::{
    entry_hits, lemma_pow7_pos, pow7, spec_children_items_q, spec_geom_at, spec_node_at,
    spec_query_items, spec_root_at, spec_stack_items, spec_stack_measure, spec_stack_wf,
    spec_subtree_items_q, spec_tree_wf, spec_wf_entry,
};
use vstd::prelude::*;

verus! {

/// R-tree reader over the image of a finished file.
pub struct RTree {
    /// Reader for the image.
    reader: Reader,
}

impl View for RTree {
    type V = Seq<u8>;

    closed spec fn view(&self) -> Seq<u8> {
        self.reader@
    }
}

impl RTree {
    /// Open an R-tree over a file image; the header is verified.
    pub fn new(data: Vec<u8>) -> (r: Result<RTree, Error>)
        ensures
            r matches Ok(t) ==> t@ == data@,
            r is Ok <==> crate::reader::spec_header_ok(data@),
            r matches Err(e) ==> e == Error::InvalidHeader,
    {
        match Reader::new(data) {
            Ok(reader) => Ok(RTree { reader }),
            Err(e) => Err(e),
        }
    }

    /// Query a bounding box.
    ///
    /// On the image of a well-formed tree this returns every stored
    /// geometry whose bounding box intersects `bbox`, in depth-first
    /// order, last sibling first.  On any other image the first error
    /// met is returned; decode failures surface as `Codec`.
    pub fn query(&self, bbox: &BBox) -> (r: Result<Vec<Geom>, Error>)
        ensures
            spec_tree_wf(self@) ==> (r matches Ok(v) && v@.map_values(|g: Geom| g@)
                == spec_query_items(self@, *bbox)),
    {
        let ghost data = self@;
        let ghost q = *bbox;
        let rid = match self.reader.root() {
            Ok(id) => id,
            Err(e) => {
                return Err(e);
            },
        };
        let rootp = match self.reader.lookup(rid) {
            Ok(p) => p,
            Err(e) => {
                return Err(e);
            },
        };
        let root = match dec_root(&rootp) {
            Some(r) => r,
            None => {
                return Err(Error::Codec);
            },
        };
        let h = Node::height(root.n_elem());
        let ghost entries = root.node@;
        let ev = root.into_node().into_entries();
        let mut work: Vec<(Id, usize)> = Vec::new();
        let mut i: usize = 0;
        proof {
            if spec_tree_wf(data) {
                assert(spec_root_at(data, rid@) == Some((entries, root.n_elem as u64)));
            }
        }
        while i < ev.len()
            invariant
                data == self@,
                q == *bbox,
                0 <= i <= ev@.len(),
                ev@ == entries,
                h >= 1,
                forall|k: int| 0 <= k < work@.len() ==> (#[trigger] work@[k]).1 >= 1,
                spec_tree_wf(data) ==> {
                    &&& h as nat == crate::node::spec_height(
                        spec_root_at(data, crate::reader::spec_root(data).unwrap()).unwrap().1
                            as nat,
                    )
                    &&& spec_root_at(data, crate::reader::spec_root(data).unwrap()).unwrap().0
                        == entries
                    &&& spec_stack_wf(data, work@, q)
                    &&& spec_stack_items(data, work@, q) == spec_children_items_q(
                        data,
                        entries.take(i as int),
                        h as nat,
                        q,
                    )
                },
            decreases ev@.len() - i,
        {
            let e = ev[i];
            proof {
                assert(entries.take(i + 1).last() == entries[i as int]);
                assert(entries.take(i + 1).drop_last() =~= entries.take(i as int));
            }
            if e.bounded_by(bbox) {
                let ghost old_work = work@;
                work.push((e.id(), h));
                proof {
                    assert(work@.last() == (e.id, h));
                    assert(work@.drop_last() =~= old_work);
                    if spec_tree_wf(data) {
                        assert(entry_hits(e, q));
                        assert(spec_wf_entry(data, e, h as nat));
                        assert forall|k: int| 0 <= k < work@.len() implies (#[trigger] work@[k]).1
                            >= 1 && exists|w: Entry|
                            w.id@ == work@[k].0@ && spec_wf_entry(data, w, work@[k].1 as nat)
                                && entry_hits(w, q) by {
                            if k < old_work.len() {
                                assert(work@[k] == old_work[k]);
                                assert(spec_stack_wf(data, old_work, q));
                            } else {
                                assert(work@[k] == (e.id, h));
                                assert(e.id@ == work@[k].0@ && spec_wf_entry(
                                    data,
                                    e,
                                    work@[k].1 as nat,
                                ) && entry_hits(e, q));
                            }
                        }
                    }
                }
            } else {
                proof {
                    if spec_tree_wf(data) {
                        assert(!entry_hits(e, q));
                        assert(Seq::<GeomModel>::empty() + spec_children_items_q(
                            data,
                            entries.take(i as int),
                            h as nat,
                            q,
                        ) =~= spec_children_items_q(data, entries.take(i as int), h as nat, q));
                    }
                }
            }
            i = i + 1;
        }
        proof {
            assert(entries.take(entries.len() as int) =~= entries);
        }
        let mut out: Vec<Geom> = Vec::new();
        proof {
            if spec_tree_wf(data) {
                assert(out@.map_values(|g: Geom| g@) + spec_stack_items(data, work@, q)
                    =~= spec_query_items(data, q));
            }
        }
        while work.len() > 0
            invariant
                data == self@,
                q == *bbox,
                forall|k: int| 0 <= k < work@.len() ==> (#[trigger] work@[k]).1 >= 1,
                spec_tree_wf(data) ==> {
                    &&& spec_stack_wf(data, work@, q)
                    &&& out@.map_values(|g: Geom| g@) + spec_stack_items(data, work@, q)
                        == spec_query_items(data, q)
                },
            decreases spec_stack_measure(work@),
        {
            let ghost pre_work = work@;
            let (id, depth) = match work.pop() {
                Some(t) => t,
                None => {
                    return Err(Error::Codec);
                },
            };
            proof {
                assert(pre_work.last() == (id, depth));
                assert(work@ =~= pre_work.drop_last());
                lemma_pow7_pos((depth - 1) as nat);
            }
            if depth > 1 {
                let p = match self.reader.lookup(id) {
                    Ok(p) => p,
                    Err(e) => {
                        proof {
                            if spec_tree_wf(data) {
                                assert(spec_stack_wf(data, pre_work, q));
                                assert(pre_work[pre_work.len() - 1] == (id, depth));
                                let w = choose|w: Entry|
                                    w.id@ == id@ && spec_wf_entry(data, w, depth as nat)
                                        && entry_hits(w, q);
                                assert(spec_wf_entry(data, w, depth as nat));
                            }
                        }
                        return Err(e);
                    },
                };
                let node = match dec_node(&p) {
                    Some(n) => n,
                    None => {
                        proof {
                            if spec_tree_wf(data) {
                                assert(pre_work[pre_work.len() - 1] == (id, depth));
                                let w = choose|w: Entry|
                                    w.id@ == id@ && spec_wf_entry(data, w, depth as nat)
                                        && entry_hits(w, q);
                                assert(spec_wf_entry(data, w, depth as nat));
                            }
                        }
                        return Err(Error::Codec);
                    },
                };
                let ghost children = node@;
                let ghost base = work@;
                let cv = node.into_entries();
                let mut j: usize = 0;
                proof {
                    if spec_tree_wf(data) {
                        assert(pre_work[pre_work.len() - 1] == (id, depth));
                        let w = choose|w: Entry|
                            w.id@ == id@ && spec_wf_entry(data, w, depth as nat) && entry_hits(
                                w,
                                q,
                            );
                        assert(spec_node_at(data, id@) == Some(children));
                        assert(spec_subtree_items_q(data, id@, depth as nat, q)
                            == spec_children_items_q(data, children, (depth - 1) as nat, q));
                    }
                }
                while j < cv.len()
                    invariant
                        data == self@,
                        q == *bbox,
                        0 <= j <= cv@.len(),
                        cv@ == children,
                        children.len() <= 6,
                        depth > 1,
                        forall|k: int| 0 <= k < work@.len() ==> (#[trigger] work@[k]).1 >= 1,
                        forall|k: int| 0 <= k < base.len() ==> (#[trigger] base[k]).1 >= 1,
                        spec_stack_measure(work@) <= spec_stack_measure(base) + j * pow7(
                            (depth - 1) as nat,
                        ),
                        spec_tree_wf(data) ==> {
                            &&& spec_stack_wf(data, base, q)
                            &&& spec_stack_wf(data, work@, q)
                            &&& (forall|k: int|
                                0 <= k < children.len() ==> spec_wf_entry(
                                    data,
                                    #[trigger] children[k],
                                    (depth - 1) as nat,
                                ))
                            &&& spec_stack_items(data, work@, q) == spec_children_items_q(
                                data,
                                children.take(j as int),
                                (depth - 1) as nat,
                                q,
                            ) + spec_stack_items(data, base, q)
                        },
                    decreases cv@.len() - j,
                {
                    let c = cv[j];
                    proof {
                        assert(children.take(j + 1).last() == children[j as int]);
                        assert(children.take(j + 1).drop_last() =~= children.take(j as int));
                        assert((j + 1) * pow7((depth - 1) as nat) == j * pow7((depth - 1) as nat)
                            + pow7((depth - 1) as nat)) by (nonlinear_arith);
                    }
                    if c.bounded_by(bbox) {
                        let ghost old_work = work@;
                        work.push((c.id(), depth - 1));
                        proof {
                            assert(work@.last() == (c.id, (depth - 1) as usize));
                            assert(work@.drop_last() =~= old_work);
                            assert(spec_stack_measure(work@) == spec_stack_measure(old_work)
                                + pow7((depth - 1) as nat));
                            if spec_tree_wf(data) {
                                assert(spec_wf_entry(data, c, (depth - 1) as nat));
                                assert(entry_hits(c, q));
                                assert forall|k: int|
                                    0 <= k < work@.len() implies (#[trigger] work@[k]).1 >= 1
                                    && exists|w: Entry|
                                    w.id@ == work@[k].0@ && spec_wf_entry(
                                        data,
                                        w,
                                        work@[k].1 as nat,
                                    ) && entry_hits(w, q) by {
                                    if k < old_work.len() {
                                        assert(work@[k] == old_work[k]);
                                        assert(spec_stack_wf(data, old_work, q));
                                    } else {
                                        assert(work@[k] == (c.id, (depth - 1) as usize));
                                        assert(c.id@ == work@[k].0@ && spec_wf_entry(
                                            data,
                                            c,
                                            work@[k].1 as nat,
                                        ) && entry_hits(c, q));
                                    }
                                }
                                assert(spec_stack_items(data, work@, q) == spec_subtree_items_q(
                                    data,
                                    c.id@,
                                    (depth - 1) as nat,
                                    q,
                                ) + spec_stack_items(data, old_work, q));
                            }
                        }
                    } else {
                        proof {
                            if spec_tree_wf(data) {
                                assert(!entry_hits(c, q));
                                assert(Seq::<GeomModel>::empty() + (spec_children_items_q(
                                    data,
                                    children.take(j as int),
                                    (depth - 1) as nat,
                                    q,
                                ) + spec_stack_items(data, base, q)) =~= spec_children_items_q(
                                    data,
                                    children.take(j as int),
                                    (depth - 1) as nat,
                                    q,
                                ) + spec_stack_items(data, base, q));
                            }
                        }
                    }
                    j = j + 1;
                }
                proof {
                    assert(children.take(children.len() as int) =~= children);
                    assert(6 * pow7((depth - 1) as nat) < pow7(depth as nat));
                    assert(spec_stack_measure(pre_work) == pow7(depth as nat)
                        + spec_stack_measure(base));
                    assert(cv@.len() * pow7((depth - 1) as nat) <= 6 * pow7((depth - 1) as nat))
                        by (nonlinear_arith)
                        requires
                            cv@.len() <= 6,
                            pow7((depth - 1) as nat) >= 0,
                    ;
                    if spec_tree_wf(data) {
                        assert(out@.map_values(|g: Geom| g@) + (spec_children_items_q(
                            data,
                            children,
                            (depth - 1) as nat,
                            q,
                        ) + spec_stack_items(data, base, q)) =~= (out@.map_values(|g: Geom| g@)
                            + spec_children_items_q(data, children, (depth - 1) as nat, q))
                            + spec_stack_items(data, base, q));
                        assert(out@.map_values(|g: Geom| g@) + (spec_subtree_items_q(
                            data,
                            id@,
                            depth as nat,
                            q,
                        ) + spec_stack_items(data, base, q)) =~= (out@.map_values(|g: Geom| g@)
                            + spec_subtree_items_q(data, id@, depth as nat, q))
                            + spec_stack_items(data, base, q));
                    }
                }
            } else {
                let p = match self.reader.lookup(id) {
                    Ok(p) => p,
                    Err(e) => {
                        proof {
                            if spec_tree_wf(data) {
                                assert(pre_work[pre_work.len() - 1] == (id, depth));
                                let w = choose|w: Entry|
                                    w.id@ == id@ && spec_wf_entry(data, w, depth as nat)
                                        && entry_hits(w, q);
                                assert(spec_wf_entry(data, w, depth as nat));
                            }
                        }
                        return Err(e);
                    },
                };
                let g = match dec_geom(&p) {
                    Some(g) => g,
                    None => {
                        proof {
                            if spec_tree_wf(data) {
                                assert(pre_work[pre_work.len() - 1] == (id, depth));
                                let w = choose|w: Entry|
                                    w.id@ == id@ && spec_wf_entry(data, w, depth as nat)
                                        && entry_hits(w, q);
                                assert(spec_wf_entry(data, w, depth as nat));
                            }
                        }
                        return Err(Error::Codec);
                    },
                };
                let ghost old_out = out@;
                out.push(g);
                proof {
                    if spec_tree_wf(data) {
                        assert(pre_work[pre_work.len() - 1] == (id, depth));
                        let w = choose|w: Entry|
                            w.id@ == id@ && spec_wf_entry(data, w, depth as nat) && entry_hits(
                                w,
                                q,
                            );
                        assert(spec_geom_at(data, id@) == Some(g@));
                        assert(spec_subtree_items_q(data, id@, depth as nat, q) =~= seq![g@]);
                        assert(out@.map_values(|g2: Geom| g2@) =~= old_out.map_values(
                            |g2: Geom| g2@,
                        ).push(g@));
                        assert(old_out.map_values(|g2: Geom| g2@) + (seq![g@]
                            + spec_stack_items(data, work@, q)) =~= out@.map_values(
                            |g2: Geom| g2@,
                        ) + spec_stack_items(data, work@, q));
                    }
                }
            }
        }
        proof {
            if spec_tree_wf(data) {
                assert(out@.map_values(|g: Geom| g@) + spec_stack_items(data, work@, q)
                    =~= out@.map_values(|g: Geom| g@));
            }
        }
        Ok(out)
    }
}

} // verus!
