use std::collections::HashMap;
use vstd::prelude::*;
use vstd::relations::{sorted_by, total_ordering};
use crate::feature::{get_feature, Dataset, Feature, Rect};
use crate::geometry_utils::{
    adjacent_spec, envelope_opt, get_extent_as_geometry, is_adjacent, lemma_adjacent_symmetric,
    lemma_overlap_hits_envelope, rect_overlaps_region, rect_touches, rects_overlap,
};
use crate::attribute_manager::{equal_spec, AttributeManager};

verus! {

broadcast use vstd::std_specs::hash::group_hash_axioms;

// ---------------------------------------------------------------------------
// The specification model of one clustering pass.
// ---------------------------------------------------------------------------

/// Whether a feature's geometry overlaps a bounding envelope: the spatial
/// filter applied during candidate generation.
pub open spec fn feature_hits(f: Feature, env: Rect) -> bool {
    match f.geom {
        Some(g) => rect_overlaps_region(env, g@),
        None => false,
    }
}

/// The identifiers, in storage order, of the features whose geometry overlaps
/// `env`, excluding `id` itself.
pub open spec fn neighbor_ids_of(fs: Seq<Feature>, env: Rect, id: u64) -> Seq<u64>
    decreases fs.len(),
{
    if fs.len() == 0 {
        Seq::empty()
    } else {
        let rest = neighbor_ids_of(fs.drop_last(), env, id);
        let f = fs.last();
        if f.id != id && feature_hits(f, env) {
            rest.push(f.id)
        } else {
            rest
        }
    }
}

/// The candidate identifiers for a feature: every other feature whose geometry
/// overlaps the feature's bounding envelope. Empty when the identifier is
/// unknown or the feature has no usable geometry.
pub open spec fn neighbor_ids(ds: Dataset, id: u64) -> Seq<u64> {
    if ds.has_id(id) {
        match envelope_opt(ds.feature_at(id)) {
            Some(env) => neighbor_ids_of(ds.features@, env, id),
            None => Seq::empty(),
        }
    } else {
        Seq::empty()
    }
}

/// The pairwise duplicate test: distinct identifiers, equal attribute
/// fingerprints, and exactly adjacent geometries.
pub open spec fn should_join_spec(ds: Dataset, a: u64, b: u64) -> bool {
    &&& a != b
    &&& equal_spec(ds.feature_at(a), ds.feature_at(b))
    &&& adjacent_spec(ds.feature_at(a), ds.feature_at(b))
}

/// The cluster assignment: each parent's ordered children, and each child's
/// parent.
#[verifier::ext_equal]
pub struct ClusterState {
    pub parents: Map<u64, Seq<u64>>,
    pub childs: Map<u64, u64>,
}

pub open spec fn state_empty() -> ClusterState {
    ClusterState { parents: Map::empty(), childs: Map::empty() }
}

/// A candidate already classified as someone's child that passes the duplicate
/// test against `a`.
pub open spec fn is_child_match(ds: Dataset, childs: Map<u64, u64>, a: u64, b: u64) -> bool {
    childs.contains_key(b) && should_join_spec(ds, a, b)
}

/// The first candidate, in candidate order, that is already a child and passes
/// the duplicate test.
pub open spec fn first_child_match(
    ds: Dataset,
    childs: Map<u64, u64>,
    a: u64,
    cands: Seq<u64>,
) -> Option<u64>
    decreases cands.len(),
{
    if cands.len() == 0 {
        None
    } else if is_child_match(ds, childs, a, cands[0]) {
        Some(cands[0])
    } else {
        first_child_match(ds, childs, a, cands.skip(1))
    }
}

/// Attaches `a` as a further child of the existing parent `p`.
pub open spec fn attach_to(st: ClusterState, a: u64, p: u64) -> ClusterState {
    ClusterState {
        parents: st.parents.insert(p, st.parents[p].push(a)),
        childs: st.childs.insert(a, p),
    }
}

/// One orphan candidate considered while `a` gathers a new cluster: `b` is
/// attached under `a` when it is still nobody's child and passes the duplicate
/// test.
pub open spec fn orphan_step(ds: Dataset, st: ClusterState, a: u64, b: u64) -> ClusterState {
    if !st.childs.contains_key(b) && should_join_spec(ds, a, b) {
        ClusterState {
            parents: st.parents.insert(
                a,
                if st.parents.contains_key(a) {
                    st.parents[a].push(b)
                } else {
                    seq![b]
                },
            ),
            childs: st.childs.insert(b, a),
        }
    } else {
        st
    }
}

/// The orphan pass: every candidate is considered, in candidate order, and
/// every qualifying orphan is attached under `a`.
pub open spec fn orphan_pass(ds: Dataset, st: ClusterState, a: u64, cands: Seq<u64>) -> ClusterState
    decreases cands.len(),
{
    if cands.len() == 0 {
        st
    } else {
        orphan_pass(ds, orphan_step(ds, st, a, cands[0]), a, cands.skip(1))
    }
}

/// Processing one feature identifier: skip it when it is already a child;
/// otherwise join the first matching existing cluster, and only failing that
/// gather qualifying orphans into a new cluster rooted at `a`.
pub open spec fn step(ds: Dataset, st: ClusterState, a: u64) -> ClusterState {
    if st.childs.contains_key(a) {
        st
    } else {
        let cands = neighbor_ids(ds, a);
        match first_child_match(ds, st.childs, a, cands) {
            Some(b) => attach_to(st, a, st.childs[b]),
            None => orphan_pass(ds, st, a, cands),
        }
    }
}

/// Processing a sequence of feature identifiers in order.
pub open spec fn run_pass(ds: Dataset, st: ClusterState, ids: Seq<u64>) -> ClusterState
    decreases ids.len(),
{
    if ids.len() == 0 {
        st
    } else {
        run_pass(ds, step(ds, st, ids[0]), ids.skip(1))
    }
}

/// The order in which a pass visits the features: identifiers ascending.
pub open spec fn process_order(ds: Dataset) -> Seq<u64> {
    ds.id_seq().sort_by(|x: u64, y: u64| x <= y)
}

/// One full clustering pass over the whole dataset: the feature identifiers
/// are visited in ascending order, starting from empty maps.
pub open spec fn cluster_pass(ds: Dataset) -> ClusterState {
    run_pass(ds, state_empty(), process_order(ds))
}

/// Well-formedness of a cluster assignment: the two maps mirror each other,
/// parents and children are disjoint, and no child is listed twice.
pub open spec fn state_inv(st: ClusterState) -> bool {
    &&& forall|c: u64| #[trigger]
        st.childs.contains_key(c) ==> st.parents.contains_key(st.childs[c])
            && st.parents[st.childs[c]].contains(c)
    &&& forall|p: u64| #[trigger] st.parents.contains_key(p) ==> !st.childs.contains_key(p)
    &&& forall|p: u64, k: int|
        st.parents.contains_key(p) && 0 <= k < st.parents[p].len() ==> st.childs.contains_key(
            #[trigger] st.parents[p][k],
        ) && st.childs[st.parents[p][k]] == p
    &&& forall|p: u64, k: int, l: int|
        #![trigger st.parents[p][k], st.parents[p][l]]
        st.parents.contains_key(p) && 0 <= k < l < st.parents[p].len() ==> st.parents[p][k]
            != st.parents[p][l]
}

/// Every feature that would join an already-registered parent is itself
/// already a child: the reason the greedy pass never has to merge clusters.
pub open spec fn parents_saturated(ds: Dataset, st: ClusterState) -> bool {
    forall|p: u64, q: u64|
        #[trigger] st.parents.contains_key(p) && ds.has_id(q) && #[trigger] should_join_spec(
            ds,
            q,
            p,
        ) ==> st.childs.contains_key(q)
}

// ---------------------------------------------------------------------------
// Lemmas about the model.
// ---------------------------------------------------------------------------

/// The duplicate test never relates a feature to itself.
pub proof fn lemma_no_self_join(ds: Dataset, a: u64)
    ensures
        !should_join_spec(ds, a, a),
{
}

/// The duplicate test is symmetric.
pub proof fn lemma_should_join_symmetric(ds: Dataset, a: u64, b: u64)
    ensures
        should_join_spec(ds, a, b) == should_join_spec(ds, b, a),
{
    lemma_adjacent_symmetric(ds.feature_at(a), ds.feature_at(b));
}

/// The candidate list contains no duplicate entries, never contains the
/// queried identifier, consists of identifiers of the collection, and
/// contains every other feature whose geometry overlaps the envelope.
pub proof fn lemma_neighbor_ids_of(fs: Seq<Feature>, env: Rect, id: u64) -> (nids: Seq<u64>)
    requires
        forall|i: int, j: int| 0 <= i < j < fs.len() ==> (#[trigger] fs[i]).id != (#[trigger] fs[j]).id,
    ensures
        nids == neighbor_ids_of(fs, env, id),
        forall|k: int| 0 <= k < nids.len() ==> (#[trigger] nids[k]) != id,
        forall|m: int|
            0 <= m < fs.len() && (#[trigger] fs[m]).id != id && feature_hits(fs[m], env)
                ==> nids.contains(fs[m].id),
        forall|k: int|
            0 <= k < nids.len() ==> exists|m: int|
                0 <= m < fs.len() && (#[trigger] fs[m]).id == (#[trigger] nids[k]) && feature_hits(
                    fs[m],
                    env,
                ),
        forall|k: int, l: int| 0 <= k < l < nids.len() ==> nids[k] != nids[l],
    decreases fs.len(),
{
    let nids = neighbor_ids_of(fs, env, id);
    if fs.len() == 0 {
    } else {
        let rest = lemma_neighbor_ids_of(fs.drop_last(), env, id);
        let f = fs.last();
        assert(forall|m: int| 0 <= m < fs.len() - 1 ==> fs.drop_last()[m] == fs[m]);
        if f.id != id && feature_hits(f, env) {
            assert(nids == rest.push(f.id));
            assert forall|k: int| 0 <= k < rest.len() implies rest[k] != f.id by {
                let m = choose|m: int|
                    0 <= m < fs.drop_last().len() && (#[trigger] fs.drop_last()[m]).id == rest[k]
                        && feature_hits(fs.drop_last()[m], env);
                assert(fs[m].id != fs[fs.len() - 1].id);
            }
            assert forall|m: int|
                0 <= m < fs.len() && (#[trigger] fs[m]).id != id && feature_hits(fs[m], env)
                implies nids.contains(fs[m].id) by {
                if m < fs.len() - 1 {
                    assert(rest.contains(fs[m].id));
                    let k = choose|k: int| 0 <= k < rest.len() && rest[k] == fs[m].id;
                    assert(nids[k] == fs[m].id);
                } else {
                    assert(nids[nids.len() - 1] == f.id);
                }
            }
        } else {
            assert(nids == rest);
            assert forall|m: int|
                0 <= m < fs.len() && (#[trigger] fs[m]).id != id && feature_hits(fs[m], env)
                implies nids.contains(fs[m].id) by {
                if m < fs.len() - 1 {
                    assert(rest.contains(fs[m].id));
                } else {
                    assert(false);
                }
            }
        }
    }
    nids
}

/// Candidate generation is complete: a genuinely adjacent other feature always
/// appears in the candidate list.
pub proof fn lemma_neighbor_complete(ds: Dataset, a: u64, q: u64)
    requires
        ds.wf(),
        ds.has_id(a),
        ds.has_id(q),
        q != a,
        adjacent_spec(ds.feature_at(a), ds.feature_at(q)),
    ensures
        neighbor_ids(ds, a).contains(q),
{
    let fa = ds.feature_at(a);
    let fq = ds.feature_at(q);
    ds.lemma_feature_at_id(a);
    ds.lemma_feature_at_id(q);
    let ga = fa.geom->0;
    let gq = fq.geom->0;
    lemma_overlap_hits_envelope(ga@, gq@);
    let env = crate::geometry_utils::envelope_spec(ga@);
    assert(envelope_opt(fa) == Some(env));
    assert(feature_hits(fq, env));
    let nids = lemma_neighbor_ids_of(ds.features@, env, a);
    let m = choose|m: int|
        0 <= m < ds.features@.len() && (#[trigger] ds.features@[m]).id == q;
    ds.lemma_feature_at(m);
    assert(ds.features@[m] == fq);
    assert(nids.contains(ds.features@[m].id));
}

/// What the first matching existing-cluster candidate, when there is one, is:
/// an already-classified child that passes the duplicate test; when there is
/// none, no candidate qualifies, and the other way round.
pub proof fn lemma_first_child_match(ds: Dataset, childs: Map<u64, u64>, a: u64, cands: Seq<u64>)
    ensures
        match first_child_match(ds, childs, a, cands) {
            Some(b) => cands.contains(b) && is_child_match(ds, childs, a, b),
            None => forall|k: int|
                0 <= k < cands.len() ==> !is_child_match(ds, childs, a, #[trigger] cands[k]),
        },
    decreases cands.len(),
{
    if cands.len() == 0 {
    } else if is_child_match(ds, childs, a, cands[0]) {
        assert(cands.contains(cands[0]));
    } else {
        lemma_first_child_match(ds, childs, a, cands.skip(1));
        let tail = cands.skip(1);
        assert(forall|k: int| 0 <= k < tail.len() ==> tail[k] == cands[k + 1]);
        match first_child_match(ds, childs, a, cands) {
            Some(b) => {
                assert(tail.contains(b));
                let k = choose|k: int| 0 <= k < tail.len() && tail[k] == b;
                assert(cands[k + 1] == b);
                assert(cands.contains(b));
            },
            None => {
                assert forall|k: int| 0 <= k < cands.len() implies !is_child_match(
                    ds,
                    childs,
                    a,
                    #[trigger] cands[k],
                ) by {
                    if k > 0 {
                        assert(tail[k - 1] == cands[k]);
                    }
                }
            },
        }
    }
}

/// The greedy pass takes the earliest qualifying existing-cluster candidate.
pub proof fn lemma_first_child_match_least(
    ds: Dataset,
    childs: Map<u64, u64>,
    a: u64,
    cands: Seq<u64>,
    i: int,
)
    requires
        0 <= i < cands.len(),
        is_child_match(ds, childs, a, cands[i]),
        forall|k: int| 0 <= k < i ==> !is_child_match(ds, childs, a, #[trigger] cands[k]),
    ensures
        first_child_match(ds, childs, a, cands) == Some(cands[i]),
    decreases i,
{
    if i == 0 {
    } else {
        let tail = cands.skip(1);
        assert(forall|k: int| 0 <= k < tail.len() ==> tail[k] == cands[k + 1]);
        lemma_first_child_match_least(ds, childs, a, tail, i - 1);
    }
}

/// The orphan pass is exhaustive, keeps every earlier classification, and
/// produces a well-formed assignment again: every qualifying orphan candidate
/// ends up as a child of `a`, nothing else changes hands.
pub proof fn lemma_orphan_pass(ds: Dataset, st: ClusterState, a: u64, cands: Seq<u64>)
    requires
        state_inv(st),
        !st.childs.contains_key(a),
        forall|k: int| 0 <= k < cands.len() ==> (#[trigger] cands[k]) != a,
        forall|k: int, l: int| 0 <= k < l < cands.len() ==> cands[k] != cands[l],
        forall|k: int|
            0 <= k < cands.len() && should_join_spec(ds, a, #[trigger] cands[k])
                ==> !st.parents.contains_key(cands[k]),
    ensures
        state_inv(orphan_pass(ds, st, a, cands)),
        !orphan_pass(ds, st, a, cands).childs.contains_key(a),
        forall|c: u64| #[trigger]
            st.childs.contains_key(c) ==> orphan_pass(ds, st, a, cands).childs.contains_key(c)
                && orphan_pass(ds, st, a, cands).childs[c] == st.childs[c],
        forall|c: u64| #[trigger]
            orphan_pass(ds, st, a, cands).childs.contains_key(c) ==> st.childs.contains_key(c)
                || cands.contains(c),
        forall|c: u64|
            #[trigger] orphan_pass(ds, st, a, cands).childs.contains_key(c)
                && !st.childs.contains_key(c) ==> orphan_pass(ds, st, a, cands).childs[c] == a,
        forall|k: int|
            0 <= k < cands.len() && !st.childs.contains_key(#[trigger] cands[k])
                && should_join_spec(ds, a, cands[k]) ==> {
                &&& orphan_pass(ds, st, a, cands).childs.contains_key(cands[k])
                &&& orphan_pass(ds, st, a, cands).childs[cands[k]] == a
                &&& orphan_pass(ds, st, a, cands).parents.contains_key(a)
                &&& orphan_pass(ds, st, a, cands).parents[a].contains(cands[k])
            },
        forall|p: u64| #[trigger]
            st.parents.contains_key(p) ==> orphan_pass(ds, st, a, cands).parents.contains_key(p),
        forall|p: u64| #[trigger]
            orphan_pass(ds, st, a, cands).parents.contains_key(p) ==> st.parents.contains_key(p)
                || p == a,
        forall|p: u64| #[trigger]
            st.parents.contains_key(p) && p != a ==> orphan_pass(ds, st, a, cands).parents[p]
                == st.parents[p],
        forall|p: u64, k: int|
            #[trigger] st.parents.contains_key(p) && 0 <= k < st.parents[p].len() ==> orphan_pass(
                ds,
                st,
                a,
                cands,
            ).parents[p].contains(#[trigger] st.parents[p][k]),
        (!st.parents.contains_key(a) && orphan_pass(ds, st, a, cands).parents.contains_key(a))
            ==> exists|k: int|
            0 <= k < cands.len() && !st.childs.contains_key(#[trigger] cands[k])
                && should_join_spec(ds, a, cands[k]),
        (forall|k: int|
            0 <= k < cands.len() ==> !(!st.childs.contains_key(#[trigger] cands[k])
                && should_join_spec(ds, a, cands[k]))) ==> orphan_pass(ds, st, a, cands) == st,
    decreases cands.len(),
{
    if cands.len() == 0 {
    } else {
        let b = cands[0];
        let st1 = orphan_step(ds, st, a, b);
        let tail = cands.skip(1);
        let r = orphan_pass(ds, st, a, cands);
        assert(forall|k: int| 0 <= k < tail.len() ==> tail[k] == cands[k + 1]);
        assert(r == orphan_pass(ds, st1, a, tail));
        assert forall|c: u64| tail.contains(c) implies cands.contains(c) by {
            let k = choose|k: int| 0 <= k < tail.len() && tail[k] == c;
            assert(cands[k + 1] == c);
        }
        if !st.childs.contains_key(b) && should_join_spec(ds, a, b) {
            assert(!st.parents.contains_key(b));
            // The new assignment after attaching b under a is well formed.
            assert forall|c: u64| #[trigger] st1.childs.contains_key(c) implies st1.parents.contains_key(
                st1.childs[c],
            ) && st1.parents[st1.childs[c]].contains(c) by {
                if c == b {
                    assert(st1.parents[a].last() == b);
                } else {
                    let p = st.childs[c];
                    if p == a {
                        if st.parents.contains_key(a) {
                            let k = choose|k: int|
                                0 <= k < st.parents[a].len() && st.parents[a][k] == c;
                            assert(st1.parents[a][k] == c);
                        }
                    }
                }
            }
            assert forall|p: u64, k: int|
                st1.parents.contains_key(p) && 0 <= k < st1.parents[p].len() implies st1.childs.contains_key(
                #[trigger] st1.parents[p][k],
            ) && st1.childs[st1.parents[p][k]] == p by {
                if p == a {
                    if st.parents.contains_key(a) {
                        if k < st.parents[a].len() {
                            assert(st1.parents[a][k] == st.parents[a][k]);
                            assert(st.childs.contains_key(st.parents[a][k]));
                        } else {
                            assert(st1.parents[a][k] == b);
                        }
                    } else {
                        assert(st1.parents[a][k] == b);
                    }
                } else {
                    assert(st.childs.contains_key(st.parents[p][k]));
                }
            }
            assert forall|p: u64, k: int, l: int|
                st1.parents.contains_key(p) && 0 <= k < l < st1.parents[p].len() implies st1.parents[p][k]
                != st1.parents[p][l] by {
                if p == a && st.parents.contains_key(a) {
                    if l < st.parents[a].len() {
                        assert(st1.parents[a][k] == st.parents[a][k]);
                        assert(st1.parents[a][l] == st.parents[a][l]);
                    } else {
                        assert(st1.parents[a][l] == b);
                        assert(st1.parents[a][k] == st.parents[a][k]);
                        assert(st.childs.contains_key(st.parents[a][k]));
                    }
                }
            }
            assert(state_inv(st1));
            lemma_orphan_pass(ds, st1, a, tail);
            // Recompose the exhaustiveness clause over the full candidate list.
            assert forall|k: int|
                0 <= k < cands.len() && !st.childs.contains_key(#[trigger] cands[k])
                    && should_join_spec(ds, a, cands[k]) implies {
                    &&& r.childs.contains_key(cands[k])
                    &&& r.childs[cands[k]] == a
                    &&& r.parents.contains_key(a)
                    &&& r.parents[a].contains(cands[k])
                } by {
                if k == 0 {
                    assert(st1.childs.contains_key(b) && st1.childs[b] == a);
                    assert(r.childs.contains_key(b) && r.childs[b] == a);
                    let bl = st1.parents[a];
                    assert(bl[bl.len() - 1] == b);
                    assert(r.parents[a].contains(b));
                } else {
                    assert(tail[k - 1] == cands[k]);
                    assert(cands[k] != b);
                    assert(!st1.childs.contains_key(cands[k]));
                }
            }
            assert forall|c: u64|
                #[trigger] r.childs.contains_key(c) && !st.childs.contains_key(c) implies r.childs[c]
                == a by {
                if st1.childs.contains_key(c) {
                    assert(c == b);
                }
            }
            assert forall|p: u64| #[trigger] st.parents.contains_key(p) implies r.parents.contains_key(
                p,
            ) by {
                assert(st1.parents.contains_key(p));
            }
            assert forall|p: u64|
                #[trigger] st.parents.contains_key(p) && p != a implies r.parents[p]
                == st.parents[p] by {
                assert(st1.parents.contains_key(p));
                assert(st1.parents[p] == st.parents[p]);
            }
            assert forall|p: u64, k: int|
                #[trigger] st.parents.contains_key(p) && 0 <= k
                    < st.parents[p].len() implies r.parents[p].contains(
                #[trigger] st.parents[p][k],
            ) by {
                if p == a {
                    assert(st1.parents[a][k] == st.parents[a][k]);
                    assert(0 <= k < st1.parents[a].len());
                } else {
                    assert(st1.parents[p] == st.parents[p]);
                }
            }
            assert(!r.childs.contains_key(a));
        } else {
            assert(st1 == st);
            lemma_orphan_pass(ds, st, a, tail);
            assert forall|k: int|
                0 <= k < cands.len() && !st.childs.contains_key(#[trigger] cands[k])
                    && should_join_spec(ds, a, cands[k]) implies {
                    &&& r.childs.contains_key(cands[k])
                    &&& r.childs[cands[k]] == a
                    &&& r.parents.contains_key(a)
                    &&& r.parents[a].contains(cands[k])
                } by {
                assert(k != 0);
                assert(tail[k - 1] == cands[k]);
            }
            if !st.parents.contains_key(a) && r.parents.contains_key(a) {
                let k = choose|k: int|
                    0 <= k < tail.len() && !st.childs.contains_key(#[trigger] tail[k])
                        && should_join_spec(ds, a, tail[k]);
                assert(cands[k + 1] == tail[k]);
                assert(!st.childs.contains_key(cands[k + 1]) && should_join_spec(
                    ds,
                    a,
                    cands[k + 1],
                ));
            }
        }
    }
}

/// The candidate list never names the queried feature, names only real
/// features, and names none of them twice.
pub proof fn lemma_neighbor_ids_props(ds: Dataset, a: u64)
    requires
        ds.wf(),
    ensures
        forall|k: int|
            0 <= k < neighbor_ids(ds, a).len() ==> (#[trigger] neighbor_ids(ds, a)[k]) != a,
        forall|k: int|
            0 <= k < neighbor_ids(ds, a).len() ==> ds.has_id(#[trigger] neighbor_ids(ds, a)[k]),
        forall|k: int, l: int|
            0 <= k < l < neighbor_ids(ds, a).len() ==> neighbor_ids(ds, a)[k] != neighbor_ids(
                ds,
                a,
            )[l],
{
    let cands = neighbor_ids(ds, a);
    if ds.has_id(a) {
        match envelope_opt(ds.feature_at(a)) {
            Some(env) => {
                let nids = lemma_neighbor_ids_of(ds.features@, env, a);
                assert(nids == cands);
                assert forall|k: int| 0 <= k < cands.len() implies ds.has_id(
                    #[trigger] cands[k],
                ) by {
                    let m = choose|m: int|
                        0 <= m < ds.features@.len() && (#[trigger] ds.features@[m]).id == nids[k]
                            && feature_hits(ds.features@[m], env);
                    assert(ds.features@[m].id == cands[k]);
                }
            },
            None => {},
        }
    }
}

/// Processing one identifier preserves well-formedness and saturation, only
/// grows the child index, adds no parent but possibly the processed
/// identifier itself, and does nothing at all when the identifier is already
/// a child.
pub proof fn lemma_step(ds: Dataset, st: ClusterState, a: u64)
    requires
        ds.wf(),
        ds.has_id(a),
        state_inv(st),
        parents_saturated(ds, st),
        !st.parents.contains_key(a),
    ensures
        state_inv(step(ds, st, a)),
        parents_saturated(ds, step(ds, st, a)),
        forall|c: u64| #[trigger]
            st.childs.contains_key(c) ==> step(ds, st, a).childs.contains_key(c) && step(
                ds,
                st,
                a,
            ).childs[c] == st.childs[c],
        forall|p: u64| #[trigger]
            st.parents.contains_key(p) ==> step(ds, st, a).parents.contains_key(p),
        forall|p: u64| #[trigger]
            step(ds, st, a).parents.contains_key(p) ==> st.parents.contains_key(p) || p == a,
        st.childs.contains_key(a) ==> step(ds, st, a) == st,
{
    if st.childs.contains_key(a) {
    } else {
        let cands = neighbor_ids(ds, a);
        lemma_neighbor_ids_props(ds, a);
        lemma_first_child_match(ds, st.childs, a, cands);
        match first_child_match(ds, st.childs, a, cands) {
            Some(b) => {
                let p = st.childs[b];
                let st2 = attach_to(st, a, p);
                assert(st.parents.contains_key(p) && st.parents[p].contains(b));
                assert forall|c: u64| #[trigger] st2.childs.contains_key(c) implies st2.parents.contains_key(
                    st2.childs[c],
                ) && st2.parents[st2.childs[c]].contains(c) by {
                    if c == a {
                        assert(st2.parents[p].last() == a);
                    } else {
                        let q = st.childs[c];
                        if q == p {
                            let k = choose|k: int|
                                0 <= k < st.parents[p].len() && st.parents[p][k] == c;
                            assert(st2.parents[p][k] == c);
                        }
                    }
                }
                assert forall|p2: u64, k: int|
                    st2.parents.contains_key(p2) && 0 <= k < st2.parents[p2].len() implies st2.childs.contains_key(
                    #[trigger] st2.parents[p2][k],
                ) && st2.childs[st2.parents[p2][k]] == p2 by {
                    if p2 == p {
                        if k < st.parents[p].len() {
                            assert(st2.parents[p][k] == st.parents[p][k]);
                            assert(st.childs.contains_key(st.parents[p][k]));
                        } else {
                            assert(st2.parents[p][k] == a);
                        }
                    } else {
                        assert(st.childs.contains_key(st.parents[p2][k]));
                    }
                }
                assert forall|p2: u64, k: int, l: int|
                    st2.parents.contains_key(p2) && 0 <= k < l < st2.parents[p2].len() implies st2.parents[p2][k]
                    != st2.parents[p2][l] by {
                    if p2 == p {
                        if l < st.parents[p].len() {
                            assert(st2.parents[p][k] == st.parents[p][k]);
                            assert(st2.parents[p][l] == st.parents[p][l]);
                        } else {
                            assert(st2.parents[p][l] == a);
                            assert(st2.parents[p][k] == st.parents[p][k]);
                            assert(st.childs.contains_key(st.parents[p][k]));
                        }
                    }
                }
                assert(state_inv(st2));
            },
            None => {
                assert forall|k: int|
                    0 <= k < cands.len() && should_join_spec(ds, a, #[trigger] cands[k])
                    implies !st.parents.contains_key(cands[k]) by {
                    if st.parents.contains_key(cands[k]) {
                        assert(st.childs.contains_key(a));
                    }
                }
                lemma_orphan_pass(ds, st, a, cands);
                let r = orphan_pass(ds, st, a, cands);
                assert forall|p: u64, q: u64|
                    #[trigger] r.parents.contains_key(p) && ds.has_id(q)
                        && #[trigger] should_join_spec(ds, q, p) implies r.childs.contains_key(
                    q,
                ) by {
                    if st.parents.contains_key(p) {
                        assert(st.childs.contains_key(q));
                    } else {
                        assert(p == a);
                        lemma_should_join_symmetric(ds, q, a);
                        assert(should_join_spec(ds, a, q));
                        assert(q != a);
                        lemma_neighbor_complete(ds, a, q);
                        let k = choose|k: int| 0 <= k < cands.len() && cands[k] == q;
                        if !st.childs.contains_key(q) {
                            assert(!st.childs.contains_key(cands[k]) && should_join_spec(
                                ds,
                                a,
                                cands[k],
                            ));
                        }
                    }
                }
            },
        }
    }
}

/// Processing a run of distinct, fresh identifiers preserves well-formedness
/// and saturation, only grows the child index, and adds only processed
/// identifiers as new parents.
pub proof fn lemma_run_pass(ds: Dataset, st: ClusterState, ids: Seq<u64>)
    requires
        ds.wf(),
        state_inv(st),
        parents_saturated(ds, st),
        forall|k: int| 0 <= k < ids.len() ==> ds.has_id(#[trigger] ids[k]),
        forall|k: int| 0 <= k < ids.len() ==> !st.parents.contains_key(#[trigger] ids[k]),
        forall|k: int, l: int| 0 <= k < l < ids.len() ==> ids[k] != ids[l],
    ensures
        state_inv(run_pass(ds, st, ids)),
        parents_saturated(ds, run_pass(ds, st, ids)),
        forall|c: u64| #[trigger]
            st.childs.contains_key(c) ==> run_pass(ds, st, ids).childs.contains_key(c) && run_pass(
                ds,
                st,
                ids,
            ).childs[c] == st.childs[c],
        forall|p: u64| #[trigger]
            st.parents.contains_key(p) ==> run_pass(ds, st, ids).parents.contains_key(p),
        forall|p: u64| #[trigger]
            run_pass(ds, st, ids).parents.contains_key(p) ==> st.parents.contains_key(p)
                || ids.contains(p),
    decreases ids.len(),
{
    if ids.len() == 0 {
    } else {
        let a = ids[0];
        lemma_step(ds, st, a);
        let st1 = step(ds, st, a);
        let tail = ids.skip(1);
        let r = run_pass(ds, st, ids);
        assert(forall|k: int| 0 <= k < tail.len() ==> tail[k] == ids[k + 1]);
        assert forall|k: int| 0 <= k < tail.len() implies !st1.parents.contains_key(
            #[trigger] tail[k],
        ) by {
            assert(tail[k] == ids[k + 1]);
            assert(ids[k + 1] != ids[0]);
            assert(!st.parents.contains_key(ids[k + 1]));
        }
        lemma_run_pass(ds, st1, tail);
        assert(r == run_pass(ds, st1, tail));
        assert forall|p: u64| #[trigger]
            r.parents.contains_key(p) implies st.parents.contains_key(p) || ids.contains(p) by {
            if !st.parents.contains_key(p) {
                if tail.contains(p) {
                    let k = choose|k: int| 0 <= k < tail.len() && tail[k] == p;
                    assert(ids[k + 1] == p);
                } else if p == a {
                    assert(ids[0] == p);
                }
            }
        }
    }
}

/// The visiting order holds each identifier of the collection exactly once,
/// ascending.
pub proof fn lemma_process_order(ds: Dataset)
    requires
        ds.wf(),
    ensures
        sorted_by(process_order(ds), |x: u64, y: u64| x <= y),
        forall|k: int|
            0 <= k < process_order(ds).len() ==> ds.has_id(#[trigger] process_order(ds)[k]),
        forall|k: int, l: int|
            0 <= k < l < process_order(ds).len() ==> process_order(ds)[k] != process_order(ds)[l],
        process_order(ds).to_multiset() == ds.id_seq().to_multiset(),
{
    broadcast use vstd::seq_lib::group_to_multiset_ensures;

    let leq = |x: u64, y: u64| x <= y;
    let ids = ds.id_seq();
    let po = process_order(ds);
    assert(total_ordering(leq));
    ids.lemma_sort_by_ensures(leq);
    assert forall|k: int| 0 <= k < po.len() implies ds.has_id(#[trigger] po[k]) by {
        assert(po.contains(po[k]));
        assert(po.to_multiset().count(po[k]) > 0);
        assert(ids.to_multiset().count(po[k]) > 0);
        assert(ids.contains(po[k]));
        let m = choose|m: int| 0 <= m < ids.len() && ids[m] == po[k];
        assert(ds.features@[m].id == po[k]);
    }
    assert(ids.no_duplicates());
    ids.lemma_multiset_has_no_duplicates();
    po.lemma_multiset_has_no_duplicates_conv();
    assert(po.no_duplicates());
}

// ---------------------------------------------------------------------------
// The laws of a full pass.
// ---------------------------------------------------------------------------

/// After any full pass the assignment is well formed: the set of parent
/// identifiers and the set of child identifiers are disjoint, and no
/// identifier appears as a child of two different parents.
pub proof fn lemma_pass_well_formed(ds: Dataset)
    requires
        ds.wf(),
    ensures
        state_inv(cluster_pass(ds)),
        forall|c: u64| #[trigger]
            cluster_pass(ds).childs.contains_key(c) ==> !cluster_pass(ds).parents.contains_key(c),
        forall|p: u64| #[trigger]
            cluster_pass(ds).parents.contains_key(p) ==> !cluster_pass(ds).childs.contains_key(p),
        forall|p1: u64, p2: u64, c: u64|
            cluster_pass(ds).parents.contains_key(p1) && cluster_pass(ds).parents.contains_key(p2)
                && #[trigger] cluster_pass(ds).parents[p1].contains(c)
                && #[trigger] cluster_pass(ds).parents[p2].contains(c) ==> p1 == p2,
{
    lemma_process_order(ds);
    lemma_run_pass(ds, state_empty(), process_order(ds));
    let st = cluster_pass(ds);
    assert forall|c: u64| #[trigger]
        st.childs.contains_key(c) implies !st.parents.contains_key(c) by {
        if st.parents.contains_key(c) {
        }
    }
    assert forall|p1: u64, p2: u64, c: u64|
        st.parents.contains_key(p1) && st.parents.contains_key(p2)
            && #[trigger] st.parents[p1].contains(c) && #[trigger] st.parents[p2].contains(c)
        implies p1 == p2 by {
        let k1 = choose|k: int| 0 <= k < st.parents[p1].len() && st.parents[p1][k] == c;
        let k2 = choose|k: int| 0 <= k < st.parents[p2].len() && st.parents[p2][k] == c;
        assert(st.childs[st.parents[p1][k1]] == p1);
        assert(st.childs[st.parents[p2][k2]] == p2);
    }
}

/// An identifier already recorded as a child is skipped outright: processing
/// it changes nothing.
pub proof fn lemma_child_skipped(ds: Dataset, st: ClusterState, a: u64)
    requires
        st.childs.contains_key(a),
    ensures
        step(ds, st, a) == st,
{
}

/// Once an identifier appears in the child index, the rest of the pass keeps
/// its classification unchanged and never registers it as a parent.
pub proof fn lemma_child_stays_child(ds: Dataset, st: ClusterState, ids: Seq<u64>, c: u64)
    requires
        ds.wf(),
        state_inv(st),
        parents_saturated(ds, st),
        forall|k: int| 0 <= k < ids.len() ==> ds.has_id(#[trigger] ids[k]),
        forall|k: int| 0 <= k < ids.len() ==> !st.parents.contains_key(#[trigger] ids[k]),
        forall|k: int, l: int| 0 <= k < l < ids.len() ==> ids[k] != ids[l],
        st.childs.contains_key(c),
    ensures
        run_pass(ds, st, ids).childs.contains_key(c),
        run_pass(ds, st, ids).childs[c] == st.childs[c],
        !run_pass(ds, st, ids).parents.contains_key(c),
{
    lemma_run_pass(ds, st, ids);
    let r = run_pass(ds, st, ids);
    if r.parents.contains_key(c) {
        assert(!r.childs.contains_key(c));
    }
}

/// Greedy first match: when several already-classified candidates would
/// qualify, the processed feature joins the parent of the earliest one in
/// candidate order.
pub proof fn lemma_greedy_first_match(ds: Dataset, st: ClusterState, a: u64, i: int)
    requires
        !st.childs.contains_key(a),
        0 <= i < neighbor_ids(ds, a).len(),
        is_child_match(ds, st.childs, a, neighbor_ids(ds, a)[i]),
        forall|k: int|
            0 <= k < i ==> !is_child_match(ds, st.childs, a, #[trigger] neighbor_ids(ds, a)[k]),
    ensures
        step(ds, st, a).childs.contains_key(a),
        step(ds, st, a).childs[a] == st.childs[neighbor_ids(ds, a)[i]],
{
    lemma_first_child_match_least(ds, st.childs, a, neighbor_ids(ds, a), i);
}

/// A feature none of whose candidates passes the duplicate test stays
/// unclustered: processing it leaves the assignment untouched.
pub proof fn lemma_unmatched_stays_unclustered(ds: Dataset, st: ClusterState, a: u64)
    requires
        ds.wf(),
        ds.has_id(a),
        state_inv(st),
        !st.childs.contains_key(a),
        forall|k: int|
            0 <= k < neighbor_ids(ds, a).len() ==> !should_join_spec(
                ds,
                a,
                #[trigger] neighbor_ids(ds, a)[k],
            ),
    ensures
        step(ds, st, a) == st,
{
    let cands = neighbor_ids(ds, a);
    lemma_neighbor_ids_props(ds, a);
    lemma_first_child_match(ds, st.childs, a, cands);
    match first_child_match(ds, st.childs, a, cands) {
        Some(m) => {
            let k = choose|k: int| 0 <= k < cands.len() && cands[k] == m;
            assert(!should_join_spec(ds, a, cands[k]));
            assert(false);
        },
        None => {},
    }
    lemma_orphan_pass(ds, st, a, cands);
}

/// Orphan-pass exhaustiveness: when a feature roots a new cluster, every
/// candidate that is still nobody's child and passes the duplicate test is
/// attached under it in that same pass, not only the first one.
pub proof fn lemma_orphan_exhaustive(ds: Dataset, st: ClusterState, a: u64, b: u64)
    requires
        ds.wf(),
        ds.has_id(a),
        state_inv(st),
        parents_saturated(ds, st),
        !st.childs.contains_key(a),
        !st.parents.contains_key(a),
        forall|k: int|
            0 <= k < neighbor_ids(ds, a).len() ==> !is_child_match(
                ds,
                st.childs,
                a,
                #[trigger] neighbor_ids(ds, a)[k],
            ),
        neighbor_ids(ds, a).contains(b),
        !st.childs.contains_key(b),
        should_join_spec(ds, a, b),
    ensures
        step(ds, st, a).parents.contains_key(a),
        step(ds, st, a).parents[a].contains(b),
        step(ds, st, a).childs.contains_key(b),
        step(ds, st, a).childs[b] == a,
{
    let cands = neighbor_ids(ds, a);
    lemma_neighbor_ids_props(ds, a);
    lemma_first_child_match(ds, st.childs, a, cands);
    match first_child_match(ds, st.childs, a, cands) {
        Some(m) => {
            let k = choose|k: int| 0 <= k < cands.len() && cands[k] == m;
            assert(!is_child_match(ds, st.childs, a, cands[k]));
            assert(false);
        },
        None => {},
    }
    assert forall|k: int|
        0 <= k < cands.len() && should_join_spec(ds, a, #[trigger] cands[k])
        implies !st.parents.contains_key(cands[k]) by {
        if st.parents.contains_key(cands[k]) {
            assert(st.childs.contains_key(a));
        }
    }
    lemma_orphan_pass(ds, st, a, cands);
    let k = choose|k: int| 0 <= k < cands.len() && cands[k] == b;
    assert(!st.childs.contains_key(cands[k]) && should_join_spec(ds, a, cands[k]));
}

// ---------------------------------------------------------------------------
// The executable engine.
// ---------------------------------------------------------------------------

/// The parent map a hash map holds, as a mathematical value.
pub open spec fn parents_view(m: Map<u64, Vec<u64>>) -> Map<u64, Seq<u64>> {
    m.map_values(|v: Vec<u64>| v@)
}

/// The cluster assignment a pair of hash maps holds.
pub open spec fn state_of(parents: Map<u64, Vec<u64>>, childs: Map<u64, u64>) -> ClusterState {
    ClusterState { parents: parents_view(parents), childs }
}

/// Whether some part of region `g` overlaps rectangle `env`.
fn region_hits(env: &Rect, g: &Vec<Rect>) -> (r: bool)
    ensures
        r == rect_overlaps_region(*env, g@),
{
    let n = g.len();
    let mut i: usize = 0;
    while i < n
        invariant
            n == g@.len(),
            0 <= i <= n,
            forall|k: int| 0 <= k < i ==> !rects_overlap(*env, #[trigger] g@[k]),
        decreases n - i,
    {
        if rect_touches(env, &g[i]) {
            return true;
        }
        i = i + 1;
    }
    false
}

/// Whether a feature's geometry overlaps a bounding envelope.
fn feature_hits_exec(f: &Feature, env: &Rect) -> (r: bool)
    ensures
        r == feature_hits(*f, *env),
{
    match &f.geom {
        Some(g) => {
            proof {
                assert(f.geom == Some(*g));
            }
            region_hits(env, g)
        },
        None => false,
    }
}

/// Manages the detection of duplicate features within a feature collection.
pub struct DuplicatesManager<'a> {
    pub dataset: &'a Dataset,
}

impl<'a> DuplicatesManager<'a> {
    pub fn new(dataset: &'a Dataset) -> (r: Self)
        ensures
            r.dataset == dataset,
    {
        DuplicatesManager { dataset }
    }

    /// All feature identifiers of the collection, in storage order.
    pub fn extract_features_ids(&self) -> (r: Vec<u64>)
        ensures
            r@ == self.dataset.id_seq(),
    {
        let ds = self.dataset;
        let n = ds.features.len();
        let mut features_ids: Vec<u64> = Vec::new();
        let mut i: usize = 0;
        while i < n
            invariant
                ds == self.dataset,
                n == ds.features@.len(),
                0 <= i <= n,
                features_ids@.len() == i,
                forall|k: int| 0 <= k < i ==> features_ids@[k] == ds.features@[k].id,
            decreases n - i,
        {
            features_ids.push(ds.features[i].id);
            i = i + 1;
        }
        proof {
            assert(features_ids@ =~= ds.id_seq());
        }
        features_ids
    }

    /// The identifiers of the features whose geometry overlaps the bounding
    /// envelope of the feature `id`, excluding `id` itself; empty when the
    /// identifier is unknown or the feature has no usable geometry. The
    /// collection is only borrowed shared, so no filter state can linger.
    pub fn get_features_in_neighboors(&self, id: u64) -> (r: Vec<u64>)
        requires
            self.dataset.wf(),
        ensures
            r@ == neighbor_ids(*self.dataset, id),
    {
        let ds = self.dataset;
        let mut bbox_option: Option<Rect> = None;
        match get_feature(ds, id) {
            Some(feature) => {
                bbox_option = get_extent_as_geometry(feature);
            },
            None => {},
        }
        match bbox_option {
            Some(bbox) => {
                let n = ds.features.len();
                let mut result: Vec<u64> = Vec::new();
                let mut i: usize = 0;
                while i < n
                    invariant
                        ds == self.dataset,
                        n == ds.features@.len(),
                        0 <= i <= n,
                        ds.has_id(id),
                        envelope_opt(ds.feature_at(id)) == Some(bbox),
                        result@ == neighbor_ids_of(ds.features@.take(i as int), bbox, id),
                    decreases n - i,
                {
                    let f = &ds.features[i];
                    if f.id != id {
                        if feature_hits_exec(f, &bbox) {
                            result.push(f.id);
                        }
                    }
                    proof {
                        assert(ds.features@.take(i + 1).drop_last() =~= ds.features@.take(
                            i as int,
                        ));
                        assert(ds.features@.take(i + 1).last() == ds.features@[i as int]);
                    }
                    i = i + 1;
                }
                proof {
                    assert(ds.features@.take(n as int) =~= ds.features@);
                }
                result
            },
            None => Vec::new(),
        }
    }

    /// The elements of a vector that occur as keys of the parent map, in
    /// vector order.
    pub fn get_present(vector_a: &Vec<u64>, hashmap: &HashMap<u64, Vec<u64>>) -> (r: Vec<u64>)
        ensures
            r@ == vector_a@.filter(|x: u64| hashmap@.contains_key(x)),
    {
        let ghost pred = |x: u64| hashmap@.contains_key(x);
        let n = vector_a.len();
        let mut result: Vec<u64> = Vec::new();
        let mut i: usize = 0;
        while i < n
            invariant
                n == vector_a@.len(),
                0 <= i <= n,
                pred == (|x: u64| hashmap@.contains_key(x)),
                result@ == vector_a@.take(i as int).filter(pred),
            decreases n - i,
        {
            let x = vector_a[i];
            proof {
                assert(vector_a@.take(i + 1) =~= vector_a@.take(i as int).push(x));
                lemma_filter_push(vector_a@.take(i as int), x, pred);
            }
            if hashmap.contains_key(&x) {
                result.push(x);
            }
            i = i + 1;
        }
        proof {
            assert(vector_a@.take(n as int) =~= vector_a@);
        }
        result
    }

    /// The elements of a vector that do not occur as keys of the parent map,
    /// in vector order.
    pub fn get_absent(vector_a: &Vec<u64>, hashmap: &HashMap<u64, Vec<u64>>) -> (r: Vec<u64>)
        ensures
            r@ == vector_a@.filter(|x: u64| !hashmap@.contains_key(x)),
    {
        let ghost pred = |x: u64| !hashmap@.contains_key(x);
        let n = vector_a.len();
        let mut result: Vec<u64> = Vec::new();
        let mut i: usize = 0;
        while i < n
            invariant
                n == vector_a@.len(),
                0 <= i <= n,
                pred == (|x: u64| !hashmap@.contains_key(x)),
                result@ == vector_a@.take(i as int).filter(pred),
            decreases n - i,
        {
            let x = vector_a[i];
            proof {
                assert(vector_a@.take(i + 1) =~= vector_a@.take(i as int).push(x));
                lemma_filter_push(vector_a@.take(i as int), x, pred);
            }
            if !hashmap.contains_key(&x) {
                result.push(x);
            }
            i = i + 1;
        }
        proof {
            assert(vector_a@.take(n as int) =~= vector_a@);
        }
        result
    }

    /// The pairwise duplicate test: never a feature against itself; the
    /// attribute fingerprints must match and the geometries must be exactly
    /// adjacent.
    pub fn should_be_added(&self, a_fid: u64, b_fid: u64) -> (r: bool)
        requires
            self.dataset.wf(),
            self.dataset.has_id(a_fid),
            self.dataset.has_id(b_fid),
        ensures
            r == should_join_spec(*self.dataset, a_fid, b_fid),
    {
        if a_fid == b_fid {
            return false;
        }
        let a_feat = match get_feature(self.dataset, a_fid) {
            Some(f) => f,
            None => {
                proof {
                    assert(false);
                }
                return false;
            },
        };
        let b_feat = match get_feature(self.dataset, b_fid) {
            Some(f) => f,
            None => {
                proof {
                    assert(false);
                }
                return false;
            },
        };
        if !AttributeManager::has_same_value(a_feat, b_feat) {
            return false;
        }
        if is_adjacent(a_feat, b_feat) {
            return true;
        }
        false
    }

    /// Processes one feature identifier against the two maps exactly as the
    /// model's `step` describes.
    fn process_feature(
        &self,
        duplicates_map: &mut HashMap<u64, Vec<u64>>,
        children_hashmap: &mut HashMap<u64, u64>,
        a_fid: u64,
    )
        requires
            self.dataset.wf(),
            self.dataset.has_id(a_fid),
            state_inv(state_of(old(duplicates_map)@, old(children_hashmap)@)),
            !old(duplicates_map)@.contains_key(a_fid),
        ensures
            state_of(final(duplicates_map)@, final(children_hashmap)@) == step(
                *self.dataset,
                state_of(old(duplicates_map)@, old(children_hashmap)@),
                a_fid,
            ),
    {
        let ds = self.dataset;
        let ghost st0 = state_of(duplicates_map@, children_hashmap@);
        if children_hashmap.contains_key(&a_fid) {
            return;
        }
        let bbox_fids = self.get_features_in_neighboors(a_fid);
        proof {
            lemma_neighbor_ids_props(*ds, a_fid);
        }
        let n = bbox_fids.len();
        // Prefer existing clusters: stop at the first already-classified
        // candidate that passes the duplicate test.
        let mut j: usize = 0;
        while j < n
            invariant
                duplicates_map@ == old(duplicates_map)@,
                children_hashmap@ == old(children_hashmap)@,
                ds == self.dataset,
                self.dataset.wf(),
                self.dataset.has_id(a_fid),
                st0 == state_of(duplicates_map@, children_hashmap@),
                state_inv(st0),
                !children_hashmap@.contains_key(a_fid),
                !duplicates_map@.contains_key(a_fid),
                n == bbox_fids@.len(),
                bbox_fids@ == neighbor_ids(*ds, a_fid),
                0 <= j <= n,
                forall|k: int| 0 <= k < n ==> ds.has_id(#[trigger] bbox_fids@[k]),
                forall|k: int|
                    0 <= k < j ==> !is_child_match(
                        *ds,
                        children_hashmap@,
                        a_fid,
                        #[trigger] bbox_fids@[k],
                    ),
            decreases n - j,
        {
            let b_fid = bbox_fids[j];
            if children_hashmap.contains_key(&b_fid) {
                if self.should_be_added(a_fid, b_fid) {
                    proof {
                        lemma_first_child_match_least(
                            *ds,
                            children_hashmap@,
                            a_fid,
                            bbox_fids@,
                            j as int,
                        );
                        assert(st0.childs.contains_key(b_fid)
                            && st0.parents.contains_key(st0.childs[b_fid]));
                    }
                    let parent_id: u64 = match children_hashmap.get(&b_fid) {
                        Some(p) => *p,
                        None => {
                            proof {
                                assert(false);
                            }
                            0
                        },
                    };
                    let mut list: Vec<u64> = match duplicates_map.remove(&parent_id) {
                        Some(v) => v,
                        None => {
                            proof {
                                assert(false);
                            }
                            Vec::new()
                        },
                    };
                    list.push(a_fid);
                    duplicates_map.insert(parent_id, list);
                    children_hashmap.insert(a_fid, parent_id);
                    proof {
                        assert(state_of(duplicates_map@, children_hashmap@) =~~= attach_to(
                            st0,
                            a_fid,
                            parent_id,
                        ));
                    }
                    return;
                }
            }
            j = j + 1;
        }
        proof {
            lemma_first_child_match(*ds, children_hashmap@, a_fid, bbox_fids@);
            match first_child_match(*ds, children_hashmap@, a_fid, bbox_fids@) {
                Some(b) => {
                    let k = choose|k: int| 0 <= k < bbox_fids@.len() && bbox_fids@[k] == b;
                    assert(!is_child_match(*ds, children_hashmap@, a_fid, bbox_fids@[k]));
                    assert(false);
                },
                None => {},
            }
        }
        // Gather a new cluster: every qualifying orphan candidate is attached.
        proof {
            assert(bbox_fids@.skip(0) =~= bbox_fids@);
            assert(state_of(duplicates_map@, children_hashmap@) == st0);
        }
        let mut j: usize = 0;
        while j < n
            invariant
                ds == self.dataset,
                self.dataset.wf(),
                self.dataset.has_id(a_fid),
                n == bbox_fids@.len(),
                bbox_fids@ == neighbor_ids(*ds, a_fid),
                0 <= j <= n,
                forall|k: int| 0 <= k < n ==> ds.has_id(#[trigger] bbox_fids@[k]),
                orphan_pass(
                    *ds,
                    state_of(duplicates_map@, children_hashmap@),
                    a_fid,
                    bbox_fids@.skip(j as int),
                ) == orphan_pass(*ds, st0, a_fid, bbox_fids@),
            decreases n - j,
        {
            let b_fid = bbox_fids[j];
            let ghost stc = state_of(duplicates_map@, children_hashmap@);
            proof {
                assert(bbox_fids@.skip(j as int)[0] == bbox_fids@[j as int]);
                assert(bbox_fids@.skip(j as int).skip(1) =~= bbox_fids@.skip(j + 1));
            }
            if !children_hashmap.contains_key(&b_fid) {
                if self.should_be_added(a_fid, b_fid) {
                    let mut list: Vec<u64> = match duplicates_map.remove(&a_fid) {
                        Some(v) => v,
                        None => Vec::new(),
                    };
                    list.push(b_fid);
                    duplicates_map.insert(a_fid, list);
                    children_hashmap.insert(b_fid, a_fid);
                    proof {
                        assert(state_of(duplicates_map@, children_hashmap@) =~~= orphan_step(
                            *ds,
                            stc,
                            a_fid,
                            b_fid,
                        ));
                    }
                } else {
                    proof {
                        assert(state_of(duplicates_map@, children_hashmap@) =~~= orphan_step(
                            *ds,
                            stc,
                            a_fid,
                            b_fid,
                        ));
                    }
                }
            } else {
                proof {
                    assert(state_of(duplicates_map@, children_hashmap@) =~~= orphan_step(
                        *ds,
                        stc,
                        a_fid,
                        b_fid,
                    ));
                }
            }
            j = j + 1;
        }
        proof {
            assert(bbox_fids@.skip(n as int) =~= Seq::<u64>::empty());
        }
    }

    /// One full clustering pass: both maps that it builds, the parent map and
    /// the child index, exactly as the model's `cluster_pass` describes.
    pub fn cluster_maps(&self) -> (r: (HashMap<u64, Vec<u64>>, HashMap<u64, u64>))
        requires
            self.dataset.wf(),
        ensures
            parents_view(r.0@) == cluster_pass(*self.dataset).parents,
            r.1@ == cluster_pass(*self.dataset).childs,
    {
        let ds = self.dataset;
        let mut features_ids = self.extract_features_ids();
        crate::list_utils::ascendant_sort(&mut features_ids);
        let mut duplicates_map: HashMap<u64, Vec<u64>> = HashMap::new();
        let mut children_hashmap: HashMap<u64, u64> = HashMap::new();
        proof {
            assert(state_of(duplicates_map@, children_hashmap@) =~~= state_empty());
            lemma_process_order(*ds);
            let leq = |x: u64, y: u64| x <= y;
            assert(sorted_by(features_ids@, leq));
            assert(features_ids@.to_multiset() == process_order(*ds).to_multiset());
            vstd::seq_lib::lemma_sorted_unique(features_ids@, process_order(*ds), leq);
            assert(features_ids@ == process_order(*ds));
        }
        let n = features_ids.len();
        proof {
            assert(features_ids@.skip(0) =~= features_ids@);
        }
        let mut i: usize = 0;
        while i < n
            invariant
                ds == self.dataset,
                self.dataset.wf(),
                n == features_ids@.len(),
                features_ids@ == process_order(*ds),
                0 <= i <= n,
                forall|k: int| 0 <= k < n ==> ds.has_id(#[trigger] features_ids@[k]),
                forall|k: int, l: int| 0 <= k < l < n ==> features_ids@[k] != features_ids@[l],
                state_inv(state_of(duplicates_map@, children_hashmap@)),
                parents_saturated(*ds, state_of(duplicates_map@, children_hashmap@)),
                forall|k: int|
                    i <= k < n ==> !state_of(duplicates_map@, children_hashmap@).parents.contains_key(
                        #[trigger] features_ids@[k],
                    ),
                run_pass(
                    *ds,
                    state_of(duplicates_map@, children_hashmap@),
                    features_ids@.skip(i as int),
                ) == cluster_pass(*ds),
            decreases n - i,
        {
            let a_fid = features_ids[i];
            let ghost stc = state_of(duplicates_map@, children_hashmap@);
            proof {
                assert(!stc.parents.contains_key(a_fid));
                assert(!duplicates_map@.contains_key(a_fid));
                lemma_step(*ds, stc, a_fid);
                assert(features_ids@.skip(i as int)[0] == features_ids@[i as int]);
                assert(features_ids@.skip(i as int).skip(1) =~= features_ids@.skip(i + 1));
            }
            self.process_feature(&mut duplicates_map, &mut children_hashmap, a_fid);
            proof {
                let stn = state_of(duplicates_map@, children_hashmap@);
                assert(stn == step(*ds, stc, a_fid));
                assert forall|k: int| i + 1 <= k < n implies !stn.parents.contains_key(
                    #[trigger] features_ids@[k],
                ) by {
                    if stn.parents.contains_key(features_ids@[k]) {
                        assert(stc.parents.contains_key(features_ids@[k]) || features_ids@[k]
                            == a_fid);
                    }
                }
            }
            i = i + 1;
        }
        proof {
            assert(features_ids@.skip(n as int) =~= Seq::<u64>::empty());
        }
        (duplicates_map, children_hashmap)
    }

    /// Find all the duplicated neighbors of the collection: the map from each
    /// cluster parent to its ordered duplicates.
    pub fn find_duplicates_neighboors(&self) -> (result: HashMap<u64, Vec<u64>>)
        requires
            self.dataset.wf(),
        ensures
            parents_view(result@) == cluster_pass(*self.dataset).parents,
    {
        let (duplicates_map, _children_hashmap) = self.cluster_maps();
        duplicates_map
    }
}

/// Filtering a sequence extended by one element keeps the earlier selection
/// and appends the new element exactly when it satisfies the predicate.
proof fn lemma_filter_push<A>(s: Seq<A>, x: A, pred: spec_fn(A) -> bool)
    ensures
        s.push(x).filter(pred) == if pred(x) {
            s.filter(pred).push(x)
        } else {
            s.filter(pred)
        },
{
    reveal(Seq::filter);
    assert(s.push(x).drop_last() =~= s);
    assert(s.push(x).last() == x);
}

} // verus!
