//! Why a merged table does not depend on the order of the mappings given.

use vstd::prelude::*;

use super::conflict::{lemma_merged_apart, offsets_apart};
use super::fill::{apart, lemma_apart_ordered};
use super::mapping::Mapping;
use super::merge::{
    continues, lemma_merge_keeps_translation, lemma_merged, merged, settled, table_translates,
    translates,
};
use super::all_wf;

verus! {

/// The table is in its shortest form: its mappings are well formed, each
/// begins at or after the end of the one before it, and none continues the
/// one before it.
pub open spec fn canonical(t: Seq<Mapping>) -> bool {
    all_wf(t) && apart(t) && settled(t)
}

/// The two tables translate the same container IDs to the same host IDs.
pub open spec fn same_translation(t: Seq<Mapping>, u: Seq<Mapping>) -> bool {
    forall|ct: int, host: int|
        #![trigger table_translates(t, ct, host)]
        #![trigger table_translates(u, ct, host)]
        table_translates(t, ct, host) == table_translates(u, ct, host)
}

/// In a table in shortest form only the mapping at `i` maps the container
/// IDs of its block.
proof fn lemma_only_one(t: Seq<Mapping>, i: int, k: int, ct: int, host: int)
    requires
        canonical(t),
        0 <= i < t.len(),
        0 <= k < t.len(),
        t[i].ct_start <= ct < t[i].ct_end_spec(),
        translates(t[k], ct, host),
    ensures
        k == i,
{
    if k < i {
        lemma_apart_ordered(t, k, i);
    } else if i < k {
        lemma_apart_ordered(t, i, k);
    }
}

/// What one table translates at its end, the other translates too: the
/// other table is not empty and ends no earlier.
proof fn lemma_last_end(t: Seq<Mapping>, u: Seq<Mapping>)
    requires
        canonical(t),
        canonical(u),
        same_translation(t, u),
        t.len() > 0,
    ensures
        u.len() > 0,
        u.last().ct_end_spec() >= t.last().ct_end_spec(),
{
    let m = t.last();
    assert(m.wf());
    let ct = m.ct_end_spec() - 1;
    let host = ct + m.offset();
    assert(translates(t[t.len() - 1], ct, host));
    assert(table_translates(t, ct, host));
    assert(table_translates(u, ct, host));
    let k = choose|k: int| 0 <= k < u.len() && #[trigger] translates(u[k], ct, host);
    if k < u.len() - 1 {
        lemma_apart_ordered(u, k, u.len() - 1);
        assert(u[u.len() - 1].wf());
    }
}

/// Two tables that end at the same ID translate by the same offset there.
proof fn lemma_last_offset(t: Seq<Mapping>, u: Seq<Mapping>)
    requires
        canonical(t),
        canonical(u),
        same_translation(t, u),
        t.len() > 0,
        u.len() > 0,
        t.last().ct_end_spec() == u.last().ct_end_spec(),
    ensures
        t.last().offset() == u.last().offset(),
{
    let m = t.last();
    assert(m.wf());
    assert(u[u.len() - 1].wf());
    let ct = m.ct_end_spec() - 1;
    let host = ct + m.offset();
    assert(translates(t[t.len() - 1], ct, host));
    assert(table_translates(t, ct, host));
    assert(table_translates(u, ct, host));
    let k = choose|k: int| 0 <= k < u.len() && #[trigger] translates(u[k], ct, host);
    lemma_only_one(u, u.len() - 1, k, ct, host);
}

/// Of two tables that end alike, the last mapping of one does not begin
/// before the last mapping of the other.
proof fn lemma_last_start(t: Seq<Mapping>, u: Seq<Mapping>)
    requires
        canonical(t),
        canonical(u),
        same_translation(t, u),
        t.len() > 0,
        u.len() > 0,
        t.last().ct_end_spec() == u.last().ct_end_spec(),
        t.last().offset() == u.last().offset(),
    ensures
        t.last().ct_start >= u.last().ct_start,
{
    let m = t.last();
    let w = u.last();
    let n = u.len() as int;
    assert(m.wf());
    assert(u[n - 1].wf());
    if m.ct_start < w.ct_start {
        let ct = w.ct_start - 1;
        let host = ct + m.offset();
        assert(translates(t[t.len() - 1], ct, host));
        assert(table_translates(t, ct, host));
        assert(table_translates(u, ct, host));
        let k = choose|k: int| 0 <= k < u.len() && #[trigger] translates(u[k], ct, host);
        assert(k < n - 1);
        if k < n - 2 {
            lemma_apart_ordered(u, k, n - 2);
            assert(u[n - 2].wf());
            assert(u[n - 2].ct_end_spec() <= u[n - 1].ct_start);
        }
        assert(k == n - 2);
        assert(u[n - 2].ct_end_spec() <= u[n - 1].ct_start);
        assert(continues(u[n - 2], u[n - 1]));
    }
}

/// Where two tables end with the same mapping, what one translates before
/// it the other translates before it too.
proof fn lemma_front_translation(t: Seq<Mapping>, u: Seq<Mapping>, ct: int, host: int)
    requires
        canonical(t),
        canonical(u),
        same_translation(t, u),
        t.len() > 0,
        u.len() > 0,
        t.last() == u.last(),
        table_translates(t.drop_last(), ct, host),
    ensures
        table_translates(u.drop_last(), ct, host),
{
    let front = t.drop_last();
    let i = choose|i: int| 0 <= i < front.len() && #[trigger] translates(front[i], ct, host);
    assert(front[i] == t[i]);
    assert(translates(t[i], ct, host));
    lemma_apart_ordered(t, i, t.len() - 1);
    assert(table_translates(t, ct, host));
    assert(table_translates(u, ct, host));
    let k = choose|k: int| 0 <= k < u.len() && #[trigger] translates(u[k], ct, host);
    assert(k < u.len() - 1);
    assert(u.drop_last()[k] == u[k]);
    assert(translates(u.drop_last()[k], ct, host));
}

/// A table in shortest form without its last mapping is in shortest form.
proof fn lemma_front_canonical(t: Seq<Mapping>)
    requires
        canonical(t),
        t.len() > 0,
    ensures
        canonical(t.drop_last()),
{
    let front = t.drop_last();
    assert forall|i: int| 0 <= i < front.len() implies (#[trigger] front[i]).wf() by {
        assert(front[i] == t[i]);
    }
    assert forall|i: int| 0 < i < front.len() implies front[i - 1].ct_end_spec() <= (
    #[trigger] front[i]).ct_start by {
        assert(front[i] == t[i]);
        assert(t[i - 1].ct_end_spec() <= t[i].ct_start);
    }
    assert forall|i: int| 0 < i < front.len() implies !continues(
        front[i - 1],
        #[trigger] front[i],
    ) by {
        assert(front[i] == t[i]);
        assert(!continues(t[i - 1], t[i]));
    }
}

/// There is one shortest form: two tables in shortest form that translate
/// the same container IDs to the same host IDs are the same table.
pub proof fn lemma_canonical_unique(t: Seq<Mapping>, u: Seq<Mapping>)
    requires
        canonical(t),
        canonical(u),
        same_translation(t, u),
    ensures
        t == u,
    decreases t.len(),
{
    if t.len() == 0 {
        if u.len() > 0 {
            lemma_last_end(u, t);
        }
        assert(t =~= u);
    } else {
        lemma_last_end(t, u);
        lemma_last_end(u, t);
        lemma_last_offset(t, u);
        lemma_last_start(t, u);
        lemma_last_start(u, t);
        assert(t[t.len() - 1].wf());
        assert(u[u.len() - 1].wf());
        assert(t.last() == u.last());
        lemma_front_canonical(t);
        lemma_front_canonical(u);
        let tf = t.drop_last();
        let uf = u.drop_last();
        assert forall|ct: int, host: int|
            #![trigger table_translates(tf, ct, host)]
            #![trigger table_translates(uf, ct, host)]
            table_translates(tf, ct, host) == table_translates(uf, ct, host) by {
            if table_translates(tf, ct, host) {
                lemma_front_translation(t, u, ct, host);
            }
            if table_translates(uf, ct, host) {
                lemma_front_translation(u, t, ct, host);
            }
        }
        lemma_canonical_unique(tf, uf);
        assert(t =~= tf.push(t.last()));
        assert(u =~= uf.push(u.last()));
    }
}

/// Two lists that hold the same mappings translate the same.
proof fn lemma_same_members_translate(a: Seq<Mapping>, b: Seq<Mapping>, ct: int, host: int)
    requires
        a.to_multiset() == b.to_multiset(),
        table_translates(a, ct, host),
    ensures
        table_translates(b, ct, host),
{
    broadcast use vstd::seq_lib::group_to_multiset_ensures;

    let p = choose|p: int| 0 <= p < a.len() && #[trigger] translates(a[p], ct, host);
    assert(a.contains(a[p]));
    assert(a.to_multiset().count(a[p]) > 0);
    assert(b.contains(a[p]));
    let q = choose|q: int| 0 <= q < b.len() && b[q] == a[p];
    assert(translates(b[q], ct, host));
}

/// Merging does not depend on the order in which the mappings are given,
/// where they share an ID only if they translate by the same offset: two
/// lists that hold the same mappings, each as often as the other, merge to
/// the same table.
pub proof fn lemma_merge_any_order(a: Seq<Mapping>, b: Seq<Mapping>)
    requires
        all_wf(a),
        a.to_multiset() == b.to_multiset(),
        offsets_apart(a),
    ensures
        merged(a) == merged(b),
{
    broadcast use vstd::seq_lib::group_to_multiset_ensures;

    assert forall|i: int| 0 <= i < b.len() implies (#[trigger] b[i]).wf() by {
        assert(b.contains(b[i]));
        assert(b.to_multiset().count(b[i]) > 0);
        assert(a.contains(b[i]));
    }
    assert forall|i: int, j: int|
        0 <= i < b.len() && 0 <= j < b.len() && (#[trigger] b[i]).offset() != (
        #[trigger] b[j]).offset() implies !super::conflict::in_conflict(b[i], b[j]) by {
        assert(b.contains(b[i]) && b.contains(b[j]));
        assert(b.to_multiset().count(b[i]) > 0 && b.to_multiset().count(b[j]) > 0);
        assert(a.contains(b[i]) && a.contains(b[j]));
        let p = choose|p: int| 0 <= p < a.len() && a[p] == b[i];
        let q = choose|q: int| 0 <= q < a.len() && a[q] == b[j];
        assert(a[p].offset() != a[q].offset());
    }
    lemma_merged(a);
    lemma_merged(b);
    lemma_merged_apart(a);
    lemma_merged_apart(b);
    assert forall|ct: int, host: int|
        #![trigger table_translates(merged(a), ct, host)]
        #![trigger table_translates(merged(b), ct, host)]
        table_translates(merged(a), ct, host) == table_translates(merged(b), ct, host) by {
        lemma_merge_keeps_translation(a, ct, host);
        lemma_merge_keeps_translation(b, ct, host);
        if table_translates(a, ct, host) {
            lemma_same_members_translate(a, b, ct, host);
        }
        if table_translates(b, ct, host) {
            lemma_same_members_translate(b, a, ct, host);
        }
    }
    lemma_canonical_unique(merged(a), merged(b));
}

} // verus!
