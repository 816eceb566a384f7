//! The algebraic laws of the replica engine, stated and proved over the
//! mathematical model that the engine's contracts use.

use vstd::prelude::*;

use crate::woot::{
    contains_id, del_outcome, id_le, id_lt, index_of_id, ins_candidates, ins_index, ins_outcome,
    ins_admits, ins_walk, lemma_del_wf, lemma_index_of_id, lemma_ins_index_range,
    lemma_insert_wf, nth_visible, op_outcome, seq_wf, visible_count, CharV, ID, OpV, WootError,
};

verus! {

/// The identifier order is total, transitive, and consistent with equality:
/// two identifiers below each other are the same identifier, and the strict
/// order is exactly the weak order without equality.
pub proof fn lemma_id_order_total(a: ID, b: ID, c: ID)
    ensures
        id_le(a, a),
        id_le(a, b) || id_le(b, a),
        id_le(a, b) && id_le(b, a) ==> a == b,
        id_le(a, b) && id_le(b, c) ==> id_le(a, c),
        id_lt(a, b) == (id_le(a, b) && a != b),
{
}

/// Visibility is monotone: integrating an operation never resurrects a
/// tombstone. Any character invisible before is still invisible after.
pub proof fn lemma_visibility_monotone(pre: Seq<CharV>, op: OpV, post: Seq<CharV>)
    requires
        seq_wf(pre),
        op_outcome(pre, op) == Ok::<Seq<CharV>, WootError>(post),
    ensures
        forall|i: int, j: int|
            0 <= i < pre.len() && 0 <= j < post.len() && pre[i].id == (#[trigger] post[j]).id
                && !(#[trigger] pre[i]).visible ==> !post[j].visible,
{
    if op.op == "INS"@ {
        let c = op.c;
        if contains_id(pre, c.id) {
            assert(post == pre);
        } else {
            let pp = index_of_id(pre, op.arg1.unwrap().id);
            let pn = index_of_id(pre, op.arg2.unwrap().id);
            let j0 = ins_index(pre, c.id, pp, pn);
            lemma_ins_index_range(pre, c.id, pp, pn);
            pre.insert_ensures(j0, c);
            assert forall|i: int, j: int|
                0 <= i < pre.len() && 0 <= j < post.len() && pre[i].id == (#[trigger] post[j]).id
                    && !(#[trigger] pre[i]).visible implies !post[j].visible by {
                if j < j0 {
                    assert(post[j] == pre[j]);
                    assert(i == j);
                } else if j == j0 {
                    assert(post[j] == c);
                    assert(pre[i].id != c.id);
                } else {
                    assert(post[j] == pre[j - 1]);
                    assert(i == j - 1);
                }
            }
        }
    } else {
        let k = index_of_id(pre, op.c.id);
        assert forall|i: int, j: int|
            0 <= i < pre.len() && 0 <= j < post.len() && pre[i].id == (#[trigger] post[j]).id && !(
            #[trigger] pre[i]).visible implies !post[j].visible by {
            if j != k {
                assert(post[j] == pre[j]);
                assert(i == j);
            }
        }
    }
}

/// Integration is idempotent: an operation that has been integrated once is
/// a no-op when integrated again.
pub proof fn lemma_op_idempotent(pre: Seq<CharV>, op: OpV, post: Seq<CharV>)
    requires
        seq_wf(pre),
        op_outcome(pre, op) == Ok::<Seq<CharV>, WootError>(post),
    ensures
        op_outcome(post, op) == Ok::<Seq<CharV>, WootError>(post),
{
    if op.op == "INS"@ {
        let c = op.c;
        let a1 = op.arg1.unwrap().id;
        let a2 = op.arg2.unwrap().id;
        if contains_id(pre, c.id) {
            assert(post == pre);
        } else {
            let pp = index_of_id(pre, a1);
            let pn = index_of_id(pre, a2);
            let j0 = ins_index(pre, c.id, pp, pn);
            lemma_ins_index_range(pre, c.id, pp, pn);
            pre.insert_ensures(j0, c);
            assert(post[j0] == c);
            assert(contains_id(post, c.id));
            assert(post[pp] == pre[pp]);
            assert(contains_id(post, a1));
            assert(post[pn + 1] == pre[pn]);
            assert(contains_id(post, a2));
        }
    } else {
        let id = op.c.id;
        let k = index_of_id(pre, id);
        lemma_del_wf(pre, id);
        assert(post[k].id == id);
        assert(contains_id(post, id));
        lemma_index_of_id(post, id, k);
        assert(CharV { visible: false, ..post[k] } =~= post[k]);
        assert(post.update(k, CharV { visible: false, ..post[k] }) =~= post);
    }
}

/// Two concurrent deletions commute: tombstoning two characters yields the
/// same sequence in either order.
pub proof fn lemma_del_del_commute(pre: Seq<CharV>, id1: ID, id2: ID)
    requires
        seq_wf(pre),
        del_outcome(pre, id1) is Ok,
        del_outcome(pre, id2) is Ok,
    ensures
        del_outcome(del_outcome(pre, id1).unwrap(), id2) is Ok,
        del_outcome(del_outcome(pre, id2).unwrap(), id1) is Ok,
        del_outcome(del_outcome(pre, id1).unwrap(), id2).unwrap() == del_outcome(
            del_outcome(pre, id2).unwrap(),
            id1,
        ).unwrap(),
{
    let k1 = index_of_id(pre, id1);
    let k2 = index_of_id(pre, id2);
    let post1 = del_outcome(pre, id1).unwrap();
    let post2 = del_outcome(pre, id2).unwrap();
    lemma_del_wf(pre, id1);
    lemma_del_wf(pre, id2);
    assert(post1[k2].id == id2);
    assert(contains_id(post1, id2));
    lemma_index_of_id(post1, id2, k2);
    assert(post2[k1].id == id1);
    assert(contains_id(post2, id1));
    lemma_index_of_id(post2, id1, k1);
    if id1 == id2 {
        assert(CharV { visible: false, ..post1[k1] } =~= post1[k1]);
        assert(post1.update(k1, CharV { visible: false, ..post1[k1] }) =~= post1);
    } else {
        assert(del_outcome(post1, id2).unwrap() =~= del_outcome(post2, id1).unwrap());
    }
}

/// Whether two sequences agree on everything the insertion algorithm reads:
/// length, identifiers, and origin neighbors (visibility may differ).
pub open spec fn same_skeleton(s1: Seq<CharV>, s2: Seq<CharV>) -> bool {
    &&& s1.len() == s2.len()
    &&& (forall|i: int|
        0 <= i < s1.len() ==> (#[trigger] s1[i]).id == s2[i].id && s1[i].prev_id == s2[i].prev_id
            && s1[i].next_id == s2[i].next_id)
}

/// The candidate list depends only on the skeleton.
proof fn lemma_skeleton_candidates(
    s1: Seq<CharV>,
    s2: Seq<CharV>,
    cpid: ID,
    cnid: ID,
    from: int,
    to: int,
)
    requires
        same_skeleton(s1, s2),
        0 <= from,
        to <= s1.len(),
    ensures
        ins_candidates(s1, cpid, cnid, from, to) == ins_candidates(s2, cpid, cnid, from, to),
    decreases to - from,
{
    if to > from {
        lemma_skeleton_candidates(s1, s2, cpid, cnid, from + 1, to);
    }
}

/// The candidate walk depends only on the skeleton.
proof fn lemma_skeleton_walk(s1: Seq<CharV>, s2: Seq<CharV>, l: Seq<int>, cid: ID, i: int)
    requires
        same_skeleton(s1, s2),
        0 <= i,
        forall|t: int| 0 <= t < l.len() ==> 0 <= #[trigger] l[t] < s1.len(),
    ensures
        ins_walk(s1, l, cid, i) == ins_walk(s2, l, cid, i),
    decreases l.len() - i,
{
    if i < l.len() - 1 {
        assert(0 <= l[i] < s1.len());
        assert(s1[l[i]].id == s2[l[i]].id);
        lemma_skeleton_walk(s1, s2, l, cid, i + 1);
    }
}

/// The insertion index depends only on the skeleton: flipping tombstone
/// flags never moves an insertion.
pub proof fn lemma_skeleton_ins_index(s1: Seq<CharV>, s2: Seq<CharV>, cid: ID, pp: int, pn: int)
    requires
        same_skeleton(s1, s2),
        0 <= pp < pn < s1.len(),
    ensures
        ins_index(s1, cid, pp, pn) == ins_index(s2, cid, pp, pn),
    decreases pn - pp,
{
    if pn <= pp + 1 {
    } else {
        let cand = ins_candidates(s1, s1[pp].id, s1[pn].id, pp + 1, pn);
        lemma_skeleton_candidates(s1, s2, s1[pp].id, s1[pn].id, pp + 1, pn);
        let l = seq![pp] + cand + seq![pn];
        if l.len() != 2 {
            crate::woot::lemma_candidates_props(s1, s1[pp].id, s1[pn].id, pp + 1, pn);
            crate::woot::lemma_ins_step_narrows(s1, cid, pp, pn);
            assert(forall|t: int| 0 <= t < l.len() ==> 0 <= #[trigger] l[t] < s1.len());
            lemma_skeleton_walk(s1, s2, l, cid, 1);
            let i = ins_walk(s1, l, cid, 1);
            lemma_skeleton_ins_index(s1, s2, cid, l[i - 1], l[i]);
        }
    }
}

/// A concurrent insertion and deletion of distinct characters commute.
pub proof fn lemma_ins_del_commute(pre: Seq<CharV>, c: CharV, cpid: ID, cnid: ID, did: ID)
    requires
        seq_wf(pre),
        did != c.id,
        c.prev_id is Some,
        c.next_id is Some,
        ins_outcome(pre, c, cpid, cnid) is Ok,
        del_outcome(pre, did) is Ok,
    ensures
        del_outcome(ins_outcome(pre, c, cpid, cnid).unwrap(), did) is Ok,
        ins_outcome(del_outcome(pre, did).unwrap(), c, cpid, cnid) is Ok,
        del_outcome(ins_outcome(pre, c, cpid, cnid).unwrap(), did).unwrap() == ins_outcome(
            del_outcome(pre, did).unwrap(),
            c,
            cpid,
            cnid,
        ).unwrap(),
{
    let k = index_of_id(pre, did);
    let post_d = del_outcome(pre, did).unwrap();
    lemma_del_wf(pre, did);
    assert(same_skeleton(pre, post_d));
    let pp = index_of_id(pre, cpid);
    let pn = index_of_id(pre, cnid);
    assert(post_d[pp].id == cpid && post_d[pn].id == cnid);
    assert(contains_id(post_d, cpid) && contains_id(post_d, cnid));
    lemma_index_of_id(post_d, cpid, pp);
    lemma_index_of_id(post_d, cnid, pn);
    if contains_id(pre, c.id) {
        let post_i = pre;
        let ci = index_of_id(pre, c.id);
        assert(post_d[ci].id == c.id);
        assert(contains_id(post_d, c.id));
        assert(ins_outcome(post_d, c, cpid, cnid) == Ok::<Seq<CharV>, WootError>(post_d));
        assert(del_outcome(post_i, did) == Ok::<Seq<CharV>, WootError>(post_d));
    } else {
        assert(forall|q: int| 0 <= q < post_d.len() ==> (#[trigger] post_d[q]).id == pre[q].id);
        assert(!contains_id(post_d, c.id));
        let j = ins_index(pre, c.id, pp, pn);
        lemma_ins_index_range(pre, c.id, pp, pn);
        lemma_skeleton_ins_index(pre, post_d, c.id, pp, pn);
        let post_i = pre.insert(j, c);
        pre.insert_ensures(j, c);
        post_d.insert_ensures(j, c);
        lemma_insert_wf(pre, c, j);
        let kk: int = if k < j {
            k
        } else {
            k + 1
        };
        assert(post_i[kk].id == did);
        assert(contains_id(post_i, did));
        lemma_index_of_id(post_i, did, kk);
        assert(del_outcome(post_i, did).unwrap() =~= ins_outcome(post_d, c, cpid, cnid).unwrap());
    }
}

/// Whether positions `[from, to)` of `s1` reappear at offset `d` in `s2`
/// with the same identifiers and origin neighbors.
pub open spec fn window_shifted(s1: Seq<CharV>, s2: Seq<CharV>, from: int, to: int, d: int) -> bool {
    forall|k: int|
        from <= k <= to ==> 0 <= k < s1.len() && 0 <= k + d < s2.len() && (#[trigger] s1[k]).id
            == s2[k + d].id && s1[k].prev_id == s2[k + d].prev_id && s1[k].next_id == s2[k
            + d].next_id
}

/// The candidate list of a shifted window is the shifted candidate list.
proof fn lemma_candidates_shift(
    s1: Seq<CharV>,
    s2: Seq<CharV>,
    cpid: ID,
    cnid: ID,
    from: int,
    to: int,
    d: int,
)
    requires
        window_shifted(s1, s2, from, to, d),
        from <= to,
    ensures
        ins_candidates(s2, cpid, cnid, from + d, to + d) == ins_candidates(
            s1,
            cpid,
            cnid,
            from,
            to,
        ).map_values(|x: int| x + d),
    decreases to - from,
{
    let f = |x: int| x + d;
    if to <= from {
        assert(ins_candidates(s1, cpid, cnid, from, to).map_values(f) =~= Seq::<int>::empty());
    } else {
        lemma_candidates_shift(s1, s2, cpid, cnid, from + 1, to, d);
        let rest1 = ins_candidates(s1, cpid, cnid, from + 1, to);
        if ins_admits(s1, cpid, cnid, from) {
            assert(ins_admits(s2, cpid, cnid, from + d));
            assert((seq![from] + rest1).map_values(f) =~= seq![from + d] + rest1.map_values(f));
        } else {
            assert(!ins_admits(s2, cpid, cnid, from + d));
        }
    }
}

/// The walk over a shifted candidate list makes the same choices.
proof fn lemma_walk_shift(s1: Seq<CharV>, s2: Seq<CharV>, l: Seq<int>, cid: ID, i: int, d: int)
    requires
        0 <= i,
        forall|t: int|
            0 <= t < l.len() ==> 0 <= #[trigger] l[t] < s1.len() && 0 <= l[t] + d < s2.len() && s1[l[t]].id
                == s2[l[t] + d].id,
    ensures
        ins_walk(s2, l.map_values(|x: int| x + d), cid, i) == ins_walk(s1, l, cid, i),
    decreases l.len() - i,
{
    let l2 = l.map_values(|x: int| x + d);
    assert(l2.len() == l.len());
    if i < l.len() - 1 {
        assert(l2[i] == l[i] + d);
        assert(s2[l2[i]].id == s1[l[i]].id);
        lemma_walk_shift(s1, s2, l, cid, i + 1, d);
    }
}

/// The insertion index of a shifted window is the shifted insertion index:
/// the algorithm reads nothing outside `[pp, pn]`.
pub proof fn lemma_ins_index_shift(
    s1: Seq<CharV>,
    s2: Seq<CharV>,
    cid: ID,
    pp: int,
    pn: int,
    d: int,
)
    requires
        0 <= pp < pn,
        window_shifted(s1, s2, pp, pn, d),
    ensures
        ins_index(s2, cid, pp + d, pn + d) == ins_index(s1, cid, pp, pn) + d,
    decreases pn - pp,
{
    let f = |x: int| x + d;
    if pn <= pp + 1 {
    } else {
        let cpid = s1[pp].id;
        let cnid = s1[pn].id;
        assert(s2[pp + d].id == cpid && s2[pn + d].id == cnid);
        lemma_candidates_shift(s1, s2, cpid, cnid, pp + 1, pn, d);
        let cand1 = ins_candidates(s1, cpid, cnid, pp + 1, pn);
        let l1 = seq![pp] + cand1 + seq![pn];
        let l2 = seq![pp + d] + cand1.map_values(f) + seq![pn + d];
        assert(l2 =~= l1.map_values(f));
        crate::woot::lemma_candidates_props(s1, cpid, cnid, pp + 1, pn);
        if l1.len() != 2 {
            assert(forall|t: int| 0 < t < l1.len() - 1 ==> #[trigger] l1[t] == cand1[t - 1]);
            assert(forall|t: int|
                0 <= t < l1.len() ==> pp <= #[trigger] l1[t] <= pn);
            lemma_walk_shift(s1, s2, l1, cid, 1, d);
            crate::woot::lemma_ins_step_narrows(s1, cid, pp, pn);
            let i = ins_walk(s1, l1, cid, 1);
            assert(l1.map_values(f)[i - 1] == l1[i - 1] + d);
            assert(l1.map_values(f)[i] == l1[i] + d);
            lemma_ins_index_shift(s1, s2, cid, l1[i - 1], l1[i], d);
        }
    }
}

/// Two concurrent insertions whose origin intervals are disjoint (one lies
/// strictly left of the other) commute: either integration order yields the
/// same sequence.
#[verifier::rlimit(100)]
pub proof fn lemma_ins_ins_commute_disjoint(
    pre: Seq<CharV>,
    c1: CharV,
    cpid1: ID,
    cnid1: ID,
    c2: CharV,
    cpid2: ID,
    cnid2: ID,
)
    requires
        seq_wf(pre),
        c1.id != c2.id,
        c1.prev_id is Some,
        c1.next_id is Some,
        c2.prev_id is Some,
        c2.next_id is Some,
        !contains_id(pre, c1.id),
        !contains_id(pre, c2.id),
        ins_outcome(pre, c1, cpid1, cnid1) is Ok,
        ins_outcome(pre, c2, cpid2, cnid2) is Ok,
        index_of_id(pre, cnid1) < index_of_id(pre, cpid2),
    ensures
        ins_outcome(ins_outcome(pre, c1, cpid1, cnid1).unwrap(), c2, cpid2, cnid2) is Ok,
        ins_outcome(ins_outcome(pre, c2, cpid2, cnid2).unwrap(), c1, cpid1, cnid1) is Ok,
        ins_outcome(ins_outcome(pre, c1, cpid1, cnid1).unwrap(), c2, cpid2, cnid2).unwrap()
            == ins_outcome(ins_outcome(pre, c2, cpid2, cnid2).unwrap(), c1, cpid1, cnid1).unwrap(),
{
    let pp1 = index_of_id(pre, cpid1);
    let pn1 = index_of_id(pre, cnid1);
    let pp2 = index_of_id(pre, cpid2);
    let pn2 = index_of_id(pre, cnid2);
    let j1 = ins_index(pre, c1.id, pp1, pn1);
    let j2 = ins_index(pre, c2.id, pp2, pn2);
    lemma_ins_index_range(pre, c1.id, pp1, pn1);
    lemma_ins_index_range(pre, c2.id, pp2, pn2);
    let post1 = pre.insert(j1, c1);
    let post2 = pre.insert(j2, c2);
    pre.insert_ensures(j1, c1);
    pre.insert_ensures(j2, c2);
    lemma_insert_wf(pre, c1, j1);
    lemma_insert_wf(pre, c2, j2);

    // Order A: c1 first. The right window moves one step right.
    assert(post1[pp2 + 1] == pre[pp2] && post1[pn2 + 1] == pre[pn2]);
    assert(contains_id(post1, cpid2) && contains_id(post1, cnid2));
    lemma_index_of_id(post1, cpid2, pp2 + 1);
    lemma_index_of_id(post1, cnid2, pn2 + 1);
    assert(forall|k: int| 0 <= k < pre.len() ==> (#[trigger] pre[k]).id != c2.id);
    assert(!contains_id(post1, c2.id)) by {
        assert forall|q: int| 0 <= q < post1.len() implies post1[q].id != c2.id by {
            if q < j1 {
                assert(post1[q] == pre[q]);
            } else if q > j1 {
                assert(post1[q] == pre[q - 1]);
            }
        }
    }
    assert(window_shifted(pre, post1, pp2, pn2, 1));
    lemma_ins_index_shift(pre, post1, c2.id, pp2, pn2, 1);
    let post_a = post1.insert(j2 + 1, c2);
    post1.insert_ensures(j2 + 1, c2);

    // Order B: c2 first. The left window is untouched.
    assert(post2[pp1] == pre[pp1] && post2[pn1] == pre[pn1]);
    assert(contains_id(post2, cpid1) && contains_id(post2, cnid1));
    lemma_index_of_id(post2, cpid1, pp1);
    lemma_index_of_id(post2, cnid1, pn1);
    assert(forall|k: int| 0 <= k < pre.len() ==> (#[trigger] pre[k]).id != c1.id);
    assert(!contains_id(post2, c1.id)) by {
        assert forall|q: int| 0 <= q < post2.len() implies post2[q].id != c1.id by {
            if q < j2 {
                assert(post2[q] == pre[q]);
            } else if q > j2 {
                assert(post2[q] == pre[q - 1]);
            }
        }
    }
    assert(window_shifted(pre, post2, pp1, pn1, 0));
    lemma_ins_index_shift(pre, post2, c1.id, pp1, pn1, 0);
    let post_b = post2.insert(j1, c1);
    post2.insert_ensures(j1, c1);

    assert(post_a =~= post_b);
}

/// Two concurrent fresh insertions into the same, initially empty origin
/// interval commute: whichever arrives first, the identifier order decides
/// the final arrangement, so both integration orders yield the same
/// sequence.
#[verifier::rlimit(100)]
pub proof fn lemma_ins_ins_same_context_commute(
    pre: Seq<CharV>,
    c1: CharV,
    c2: CharV,
    cpid: ID,
    cnid: ID,
)
    requires
        seq_wf(pre),
        c1.id != c2.id,
        !contains_id(pre, c1.id),
        !contains_id(pre, c2.id),
        c1.prev_id == Some(cpid),
        c1.next_id == Some(cnid),
        c2.prev_id == Some(cpid),
        c2.next_id == Some(cnid),
        contains_id(pre, cpid),
        contains_id(pre, cnid),
        index_of_id(pre, cnid) == index_of_id(pre, cpid) + 1,
    ensures
        ins_outcome(pre, c1, cpid, cnid) is Ok,
        ins_outcome(ins_outcome(pre, c1, cpid, cnid).unwrap(), c2, cpid, cnid) is Ok,
        ins_outcome(ins_outcome(pre, c2, cpid, cnid).unwrap(), c1, cpid, cnid) is Ok,
        ins_outcome(ins_outcome(pre, c1, cpid, cnid).unwrap(), c2, cpid, cnid).unwrap()
            == ins_outcome(ins_outcome(pre, c2, cpid, cnid).unwrap(), c1, cpid, cnid).unwrap(),
{
    let pp = index_of_id(pre, cpid);
    let pn = pp + 1;
    lemma_second_sibling_lands_by_id(pre, c1, c2, cpid, cnid);
    lemma_second_sibling_lands_by_id(pre, c2, c1, cpid, cnid);
    let post1 = pre.insert(pn, c1);
    let post2 = pre.insert(pn, c2);
    pre.insert_ensures(pn, c1);
    pre.insert_ensures(pn, c2);
    if id_lt(c1.id, c2.id) {
        let post_a = post1.insert(pn + 1, c2);
        let post_b = post2.insert(pn, c1);
        post1.insert_ensures(pn + 1, c2);
        post2.insert_ensures(pn, c1);
        assert(post_a =~= post_b);
    } else {
        let post_a = post1.insert(pn, c2);
        let post_b = post2.insert(pn + 1, c1);
        post1.insert_ensures(pn, c2);
        post2.insert_ensures(pn + 1, c1);
        assert(post_a =~= post_b);
    }
}

/// After one sibling lands in an empty origin interval, the other lands
/// before or after it according to the identifier order.
#[verifier::rlimit(100)]
proof fn lemma_second_sibling_lands_by_id(
    pre: Seq<CharV>,
    c1: CharV,
    c2: CharV,
    cpid: ID,
    cnid: ID,
)
    requires
        seq_wf(pre),
        c1.id != c2.id,
        !contains_id(pre, c1.id),
        !contains_id(pre, c2.id),
        c1.prev_id == Some(cpid),
        c1.next_id == Some(cnid),
        c2.prev_id == Some(cpid),
        c2.next_id == Some(cnid),
        contains_id(pre, cpid),
        contains_id(pre, cnid),
        index_of_id(pre, cnid) == index_of_id(pre, cpid) + 1,
    ensures
        ins_outcome(pre, c1, cpid, cnid) is Ok,
        ins_outcome(pre, c1, cpid, cnid).unwrap() == pre.insert(index_of_id(pre, cpid) + 1, c1),
        ins_outcome(ins_outcome(pre, c1, cpid, cnid).unwrap(), c2, cpid, cnid) is Ok,
        ins_outcome(ins_outcome(pre, c1, cpid, cnid).unwrap(), c2, cpid, cnid).unwrap() == (
        if id_lt(c1.id, c2.id) {
            pre.insert(index_of_id(pre, cpid) + 1, c1).insert(index_of_id(pre, cpid) + 2, c2)
        } else {
            pre.insert(index_of_id(pre, cpid) + 1, c1).insert(index_of_id(pre, cpid) + 1, c2)
        }),
{
    let pp = index_of_id(pre, cpid);
    let pn = pp + 1;
    assert(0 <= pp < pre.len() && pre[pp].id == cpid);
    assert(0 <= pn < pre.len() && pre[pn].id == cnid);
    assert(ins_index(pre, c1.id, pp, pn) == pn);
    let post1 = pre.insert(pn, c1);
    pre.insert_ensures(pn, c1);
    lemma_insert_wf(pre, c1, pn);
    assert(ins_outcome(pre, c1, cpid, cnid) == Ok::<Seq<CharV>, WootError>(post1));

    assert(post1[pp] == pre[pp] && post1[pn] == c1 && post1[pn + 1] == pre[pn]);
    lemma_index_of_id(post1, cpid, pp);
    lemma_index_of_id(post1, cnid, pn + 1);
    assert(forall|k: int| 0 <= k < pre.len() ==> (#[trigger] pre[k]).id != c2.id);
    assert(!contains_id(post1, c2.id)) by {
        assert forall|q: int| 0 <= q < post1.len() implies post1[q].id != c2.id by {
            if q < pn {
                assert(post1[q] == pre[q]);
            } else if q > pn {
                assert(post1[q] == pre[q - 1]);
            }
        }
    }

    // The between-slice now holds exactly the first sibling, which its own
    // origin interval admits as a candidate.
    let cand = ins_candidates(post1, cpid, cnid, pn, pn + 1);
    assert(ins_admits(post1, cpid, cnid, pn));
    assert(ins_candidates(post1, cpid, cnid, pn + 1, pn + 1) =~= Seq::<int>::empty());
    assert(cand =~= seq![pn]);
    let l = seq![pp] + cand + seq![pn + 1];
    assert(l.len() == 3);
    assert(l[0] == pp && l[1] == pn && l[2] == pn + 1);
    let i = ins_walk(post1, l, c2.id, 1);
    let j2 = ins_index(post1, c2.id, pp, pn + 1);
    if id_lt(post1[l[1]].id, c2.id) {
        assert(ins_walk(post1, l, c2.id, 2) == 2);
        assert(i == 2);
        assert(j2 == ins_index(post1, c2.id, pn, pn + 1));
        assert(j2 == pn + 1);
    } else {
        assert(i == 1);
        assert(j2 == ins_index(post1, c2.id, pp, pn));
        assert(j2 == pn);
    }
    assert(id_lt(c1.id, c2.id) == id_lt(post1[l[1]].id, c2.id));
    post1.insert_ensures(j2, c2);
    assert(ins_outcome(post1, c2, cpid, cnid) == Ok::<Seq<CharV>, WootError>(
        post1.insert(j2, c2),
    ));
}

/// A visible rank resolves exactly when it lies within the visible count:
/// any rank above it (or below one) names no character.
pub proof fn lemma_nth_visible_bounds(s: Seq<CharV>, n: int)
    ensures
        (nth_visible(s, n) is Some) == (1 <= n <= visible_count(s)),
    decreases s.len(),
{
    if n <= 0 || s.len() == 0 {
    } else if s[0].visible {
        if n == 1 {
        } else {
            lemma_nth_visible_bounds(s.skip(1), n - 1);
        }
    } else {
        lemma_nth_visible_bounds(s.skip(1), n);
    }
}

} // verus!
