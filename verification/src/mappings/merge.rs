//! Merging: ordering mappings and joining those that continue one another.

use vstd::prelude::*;

use super::mapping::Mapping;
use super::conflict::{conflict_free, lemma_merged_conflict_free, offsets_apart};
use super::{all_wf, sorted_by_start, Mappings};

verus! {

/// `s` with `m` put behind the last mapping that does not start after `m`.
/// For a sorted `s`, the result is sorted, and `m` comes after the mappings
/// with the same start.
pub open spec fn inserted(s: Seq<Mapping>, m: Mapping) -> Seq<Mapping>
    decreases s.len(),
{
    if s.len() > 0 && s.last().ct_start > m.ct_start {
        inserted(s.drop_last(), m).push(s.last())
    } else {
        s.push(m)
    }
}

/// The mappings of `s` in ascending order of their first container ID;
/// mappings with the same start keep the order they have in `s`.
pub open spec fn ordered(s: Seq<Mapping>) -> Seq<Mapping>
    decreases s.len(),
{
    if s.len() == 0 {
        Seq::empty()
    } else {
        inserted(ordered(s.drop_last()), s.last())
    }
}

/// `m` continues `last`: it starts within `last` or right behind it, and it
/// translates container IDs to host IDs by the same offset.
pub open spec fn continues(last: Mapping, m: Mapping) -> bool {
    m.ct_start <= last.ct_end_spec() && m.offset() == last.offset()
}

/// `last` grown to the end of `m`, where `m` reaches further.
pub open spec fn extended(last: Mapping, m: Mapping) -> Mapping {
    Mapping {
        ct_start: last.ct_start,
        host_start: last.host_start,
        count: if m.ct_end_spec() > last.ct_end_spec() {
            (m.ct_end_spec() - last.ct_start) as u32
        } else {
            last.count
        },
    }
}

/// The mappings of `s`, taken from left to right, where each mapping that
/// continues the last mapping of the result so far is joined to it.
pub open spec fn coalesced(s: Seq<Mapping>) -> Seq<Mapping>
    decreases s.len(),
{
    if s.len() == 0 {
        Seq::empty()
    } else {
        let done = coalesced(s.drop_last());
        let m = s.last();
        if done.len() > 0 && continues(done.last(), m) {
            done.drop_last().push(extended(done.last(), m))
        } else {
            done.push(m)
        }
    }
}

/// The table that merging makes of `s`: its mappings in order, joined where
/// one continues the other.
pub open spec fn merged(s: Seq<Mapping>) -> Seq<Mapping> {
    coalesced(ordered(s))
}

/// Where `p` is the place behind the last mapping of `s` that does not start
/// after `m`, `inserted` puts `m` at `p`.
proof fn lemma_inserted_at(s: Seq<Mapping>, m: Mapping, p: int)
    requires
        0 <= p <= s.len(),
        forall|k: int| p <= k < s.len() ==> (#[trigger] s[k]).ct_start > m.ct_start,
        p > 0 ==> s[p - 1].ct_start <= m.ct_start,
    ensures
        inserted(s, m) == s.insert(p, m),
    decreases s.len(),
{
    if p == s.len() {
        assert(s.insert(p, m) == s.push(m));
    } else {
        lemma_inserted_at(s.drop_last(), m, p);
        assert(s.drop_last().insert(p, m).push(s.last()) == s.insert(p, m));
    }
}

/// Putting a mapping into a sorted sequence leaves it sorted, and a sequence
/// of well-formed mappings stays one.
pub proof fn lemma_inserted_sorted(s: Seq<Mapping>, m: Mapping)
    requires
        sorted_by_start(s),
    ensures
        sorted_by_start(inserted(s, m)),
        inserted(s, m).len() == s.len() + 1,
        all_wf(s) && m.wf() ==> all_wf(inserted(s, m)),
        forall|k: int| 0 <= k < inserted(s, m).len() ==> (#[trigger] inserted(s, m)[k]) == m || s.contains(inserted(s, m)[k]),
    decreases s.len(),
{
    if s.len() > 0 && s.last().ct_start > m.ct_start {
        let t = s.drop_last();
        lemma_inserted_sorted(t, m);
        let r = inserted(t, m);
        assert forall|k: int| 0 <= k < r.len() implies (#[trigger] r[k]).ct_start <= s.last().ct_start by {
            if r[k] != m {
                assert(t.contains(r[k]));
                let j = choose|j: int| 0 <= j < t.len() && t[j] == r[k];
                assert(s[j] == t[j]);
            }
        }
        let out = r.push(s.last());
        assert forall|k: int| 0 <= k < out.len() implies (#[trigger] out[k]) == m || s.contains(out[k]) by {
            if k < r.len() {
                if r[k] != m {
                    let j = choose|j: int| 0 <= j < t.len() && t[j] == r[k];
                    assert(s[j] == t[j]);
                }
            } else {
                assert(s[s.len() - 1] == out[k]);
            }
        }
    } else {
        let out = s.push(m);
        assert forall|k: int| 0 <= k < out.len() implies (#[trigger] out[k]) == m || s.contains(out[k]) by {
            if k < s.len() {
                assert(s[k] == out[k]);
            }
        }
    }
}

/// Ordering gives a sorted sequence of the same length, well formed where
/// the input is.
pub proof fn lemma_ordered_sorted(s: Seq<Mapping>)
    ensures
        sorted_by_start(ordered(s)),
        ordered(s).len() == s.len(),
        all_wf(s) ==> all_wf(ordered(s)),
    decreases s.len(),
{
    if s.len() > 0 {
        lemma_ordered_sorted(s.drop_last());
        lemma_inserted_sorted(ordered(s.drop_last()), s.last());
        if all_wf(s) {
            assert(all_wf(s.drop_last()));
            assert(s.last().wf());
        }
    }
}

/// Ordering keeps the mappings: each one occurs as often as before.
pub proof fn lemma_ordered_permutes(s: Seq<Mapping>)
    ensures
        ordered(s).to_multiset() == s.to_multiset(),
    decreases s.len(),
{
    broadcast use vstd::seq_lib::group_to_multiset_ensures;

    if s.len() > 0 {
        let t = s.drop_last();
        lemma_ordered_permutes(t);
        lemma_inserted_permutes(ordered(t), s.last());
        assert(t.push(s.last()) == s);
    }
}

/// Putting `m` into `s` adds one occurrence of `m` and changes nothing else.
pub proof fn lemma_inserted_permutes(s: Seq<Mapping>, m: Mapping)
    ensures
        inserted(s, m).to_multiset() == s.to_multiset().insert(m),
    decreases s.len(),
{
    broadcast use vstd::seq_lib::group_to_multiset_ensures;

    if s.len() > 0 && s.last().ct_start > m.ct_start {
        let t = s.drop_last();
        lemma_inserted_permutes(t, m);
        assert(t.push(s.last()) == s);
        assert(inserted(s, m).to_multiset() == t.to_multiset().insert(m).insert(s.last()));
        assert(s.to_multiset().insert(m) == t.to_multiset().insert(s.last()).insert(m));
    }
}

/// The mappings of `s` whose first container ID is `start`, in the order
/// they have in `s`.
pub open spec fn starting_at(s: Seq<Mapping>, start: u32) -> Seq<Mapping>
    decreases s.len(),
{
    if s.len() == 0 {
        Seq::empty()
    } else if s.last().ct_start == start {
        starting_at(s.drop_last(), start).push(s.last())
    } else {
        starting_at(s.drop_last(), start)
    }
}

/// A mapping put into a table comes behind the mappings with the same
/// start, and the others keep their order.
proof fn lemma_inserted_stable(s: Seq<Mapping>, m: Mapping, start: u32)
    ensures
        starting_at(inserted(s, m), start) == if m.ct_start == start {
            starting_at(s, start).push(m)
        } else {
            starting_at(s, start)
        },
    decreases s.len(),
{
    if s.len() > 0 && s.last().ct_start > m.ct_start {
        let t = s.drop_last();
        lemma_inserted_stable(t, m, start);
        let r = inserted(t, m).push(s.last());
        assert(r.drop_last() == inserted(t, m));
        assert(r.last() == s.last());
    } else {
        let r = s.push(m);
        assert(r.drop_last() == s);
        assert(r.last() == m);
    }
}

/// Ordering is stable: mappings with the same start keep the order in
/// which they were given.
pub proof fn lemma_ordered_stable(s: Seq<Mapping>, start: u32)
    ensures
        starting_at(ordered(s), start) == starting_at(s, start),
    decreases s.len(),
{
    if s.len() > 0 {
        lemma_ordered_stable(s.drop_last(), start);
        lemma_inserted_stable(ordered(s.drop_last()), s.last(), start);
    }
}

/// Ordering a sorted sequence changes nothing.
pub proof fn lemma_ordered_of_sorted(s: Seq<Mapping>)
    requires
        sorted_by_start(s),
    ensures
        ordered(s) == s,
    decreases s.len(),
{
    if s.len() > 0 {
        let t = s.drop_last();
        lemma_ordered_of_sorted(t);
        if t.len() > 0 {
            assert(t.last() == s[s.len() - 2]);
        }
        assert(t.push(s.last()) == s);
    }
}

/// The mappings in ascending order of their first container ID, those with
/// the same start in the order in which they came.
pub fn sort_by_start(v: Vec<Mapping>) -> (r: Vec<Mapping>)
    ensures
        r@ == ordered(v@),
{
    let n: usize = v.len();
    let mut out: Vec<Mapping> = Vec::new();
    let mut i: usize = 0;
    while i < n
        invariant
            i <= n,
            n == v@.len(),
            out@ == ordered(v@.subrange(0, i as int)),
        decreases n - i,
    {
        let m: Mapping = v[i];
        let mut p: usize = out.len();
        proof {
            lemma_ordered_sorted(v@.subrange(0, i as int));
        }
        while p > 0 && out[p - 1].ct_start > m.ct_start
            invariant
                p <= out@.len(),
                forall|k: int| p <= k < out@.len() ==> (#[trigger] out@[k]).ct_start > m.ct_start,
            decreases p,
        {
            p = p - 1;
        }
        proof {
            lemma_inserted_at(out@, m, p as int);
            let next = v@.subrange(0, i + 1);
            assert(next.drop_last() == v@.subrange(0, i as int));
            assert(next.last() == m);
        }
        out.insert(p, m);
        i = i + 1;
    }
    proof {
        assert(v@.subrange(0, n as int) == v@);
    }
    out
}

/// No mapping of `s` continues the one before it.
pub open spec fn settled(s: Seq<Mapping>) -> bool {
    forall|i: int| 0 < i < s.len() ==> !continues(s[i - 1], #[trigger] s[i])
}

/// Joining keeps the mappings well formed and in order, makes the table no
/// longer, and leaves no mapping that continues the one before it.
pub proof fn lemma_coalesced(s: Seq<Mapping>)
    requires
        all_wf(s),
    ensures
        all_wf(coalesced(s)),
        settled(coalesced(s)),
        coalesced(s).len() <= s.len(),
        s.len() > 0 ==> coalesced(s).len() > 0 && coalesced(s)[0].ct_start == s[0].ct_start,
        sorted_by_start(s) ==> sorted_by_start(coalesced(s)) && (s.len() > 0
            ==> coalesced(s).last().ct_start <= s.last().ct_start),
    decreases s.len(),
{
    if s.len() > 0 {
        let t = s.drop_last();
        let m = s.last();
        assert(all_wf(t));
        assert(m.wf());
        lemma_coalesced(t);
        let done = coalesced(t);
        if sorted_by_start(s) {
            assert(sorted_by_start(t));
            if t.len() > 0 {
                assert(t.last() == s[s.len() - 2]);
            }
        }
        if done.len() > 0 && continues(done.last(), m) {
            let e = extended(done.last(), m);
            assert(done.last().wf());
            assert(e.wf());
            let out = done.drop_last().push(e);
            assert forall|i: int| 0 <= i < out.len() implies (#[trigger] out[i]).wf() by {
                if i < out.len() - 1 {
                    assert(out[i] == done[i]);
                }
            }
            assert forall|i: int| 0 < i < out.len() implies !continues(out[i - 1], #[trigger] out[i]) by {
                assert(out[i - 1] == done[i - 1]);
                assert(!continues(done[i - 1], done[i]));
            }
            if sorted_by_start(s) {
                assert forall|i: int, j: int| 0 <= i <= j < out.len() implies out[i].ct_start
                    <= out[j].ct_start by {
                    assert(out[i].ct_start == done[i].ct_start);
                    assert(out[j].ct_start == done[j].ct_start);
                }
            }
        } else {
            let out = done.push(m);
            assert forall|i: int| 0 <= i < out.len() implies (#[trigger] out[i]).wf() by {
                if i < done.len() {
                    assert(out[i] == done[i]);
                }
            }
            assert forall|i: int| 0 < i < out.len() implies !continues(out[i - 1], #[trigger] out[i]) by {
                if i < done.len() {
                    assert(out[i - 1] == done[i - 1]);
                    assert(!continues(done[i - 1], done[i]));
                }
            }
            if sorted_by_start(s) {
                assert forall|i: int, j: int| 0 <= i <= j < out.len() implies out[i].ct_start
                    <= out[j].ct_start by {
                    if j < done.len() {
                        assert(out[i] == done[i] && out[j] == done[j]);
                    } else if i < done.len() {
                        assert(out[i] == done[i]);
                        assert(done[i].ct_start <= done.last().ct_start);
                    }
                }
            }
        }
    }
}

/// Joining changes nothing where no mapping continues the one before it.
pub proof fn lemma_coalesced_of_settled(s: Seq<Mapping>)
    requires
        settled(s),
    ensures
        coalesced(s) == s,
    decreases s.len(),
{
    if s.len() > 0 {
        let t = s.drop_last();
        assert forall|i: int| 0 < i < t.len() implies !continues(t[i - 1], #[trigger] t[i]) by {
            assert(!continues(s[i - 1], s[i]));
        }
        lemma_coalesced_of_settled(t);
        if t.len() > 0 {
            assert(t.last() == s[s.len() - 2]);
            assert(!continues(s[s.len() - 2], s[s.len() - 1]));
        }
        assert(t.push(s.last()) == s);
    }
}

/// What merging gives: a table of well-formed mappings in ascending order of
/// their first container ID, none of which continues the one before it.
pub proof fn lemma_merged(s: Seq<Mapping>)
    requires
        all_wf(s),
    ensures
        all_wf(merged(s)),
        sorted_by_start(merged(s)),
        settled(merged(s)),
        merged(s).len() <= s.len(),
{
    lemma_ordered_sorted(s);
    lemma_coalesced(ordered(s));
}

/// Merging a merged table gives the same table.
pub proof fn lemma_merge_idempotent(s: Seq<Mapping>)
    requires
        all_wf(s),
    ensures
        merged(merged(s)) == merged(s),
{
    lemma_merged(s);
    lemma_ordered_of_sorted(merged(s));
    lemma_coalesced_of_settled(merged(s));
}

/// Merging leaves alone a table that is in order and in which no mapping
/// continues the one before it.
pub proof fn lemma_merge_of_merged(s: Seq<Mapping>)
    requires
        sorted_by_start(s),
        settled(s),
    ensures
        merged(s) == s,
{
    lemma_ordered_of_sorted(s);
    lemma_coalesced_of_settled(s);
}

/// The mapping `m` translates the container ID `ct` to the host ID `host`.
pub open spec fn translates(m: Mapping, ct: int, host: int) -> bool {
    m.ct_start <= ct < m.ct_end_spec() && host - ct == m.offset()
}

/// Some mapping of `s` translates the container ID `ct` to the host ID
/// `host`.
pub open spec fn table_translates(s: Seq<Mapping>, ct: int, host: int) -> bool {
    exists|i: int| 0 <= i < s.len() && #[trigger] translates(s[i], ct, host)
}

/// A table with one more mapping translates what the table did and what
/// that mapping does.
proof fn lemma_translates_push(s: Seq<Mapping>, m: Mapping, ct: int, host: int)
    ensures
        table_translates(s.push(m), ct, host) == (table_translates(s, ct, host) || translates(
            m,
            ct,
            host,
        )),
{
    let p = s.push(m);
    if table_translates(p, ct, host) {
        let i = choose|i: int| 0 <= i < p.len() && #[trigger] translates(p[i], ct, host);
        if i < s.len() {
            assert(translates(s[i], ct, host));
        }
    }
    if table_translates(s, ct, host) {
        let i = choose|i: int| 0 <= i < s.len() && #[trigger] translates(s[i], ct, host);
        assert(translates(p[i], ct, host));
    }
    if translates(m, ct, host) {
        assert(translates(p[s.len() as int], ct, host));
    }
}

/// Putting a mapping into a table adds what it translates and takes
/// nothing away.
proof fn lemma_inserted_translates(s: Seq<Mapping>, m: Mapping, ct: int, host: int)
    ensures
        table_translates(inserted(s, m), ct, host) == (table_translates(s, ct, host) || translates(
            m,
            ct,
            host,
        )),
    decreases s.len(),
{
    if s.len() > 0 && s.last().ct_start > m.ct_start {
        let t = s.drop_last();
        lemma_inserted_translates(t, m, ct, host);
        lemma_translates_push(inserted(t, m), s.last(), ct, host);
        lemma_translates_push(t, s.last(), ct, host);
        assert(t.push(s.last()) == s);
    } else {
        lemma_translates_push(s, m, ct, host);
    }
}

/// Ordering a table does not change what it translates.
proof fn lemma_ordered_translates(s: Seq<Mapping>, ct: int, host: int)
    ensures
        table_translates(ordered(s), ct, host) == table_translates(s, ct, host),
    decreases s.len(),
{
    if s.len() > 0 {
        let t = s.drop_last();
        lemma_ordered_translates(t, ct, host);
        lemma_inserted_translates(ordered(t), s.last(), ct, host);
        lemma_translates_push(t, s.last(), ct, host);
        assert(t.push(s.last()) == s);
    }
}

/// Joining the mappings of a table that is in order does not change what
/// it translates.
proof fn lemma_coalesced_translates(s: Seq<Mapping>, ct: int, host: int)
    requires
        all_wf(s),
        sorted_by_start(s),
    ensures
        table_translates(coalesced(s), ct, host) == table_translates(s, ct, host),
    decreases s.len(),
{
    if s.len() > 0 {
        let t = s.drop_last();
        let m = s.last();
        assert(all_wf(t));
        assert(sorted_by_start(t));
        assert(m.wf());
        lemma_coalesced_translates(t, ct, host);
        lemma_coalesced(t);
        lemma_translates_push(t, m, ct, host);
        assert(t.push(m) == s);
        let done = coalesced(t);
        if done.len() > 0 && continues(done.last(), m) {
            let last = done.last();
            let e = extended(last, m);
            assert(t.last() == s[s.len() - 2]);
            assert(last.ct_start <= m.ct_start);
            assert(last.wf());
            assert(translates(e, ct, host) == (translates(last, ct, host) || translates(
                m,
                ct,
                host,
            )));
            lemma_translates_push(done.drop_last(), e, ct, host);
            lemma_translates_push(done.drop_last(), last, ct, host);
            assert(done.drop_last().push(last) == done);
        } else {
            lemma_translates_push(done, m, ct, host);
        }
    }
}

/// Merging changes no translation: the merged table translates a container
/// ID to a host ID exactly where one of the mappings given does.
pub proof fn lemma_merge_keeps_translation(s: Seq<Mapping>, ct: int, host: int)
    requires
        all_wf(s),
    ensures
        table_translates(merged(s), ct, host) == table_translates(s, ct, host),
{
    lemma_ordered_sorted(s);
    lemma_ordered_translates(s, ct, host);
    lemma_coalesced_translates(ordered(s), ct, host);
}

/// Tells whether `m` continues `last`.
fn is_continuation(last: &Mapping, m: &Mapping) -> (b: bool)
    requires
        last.wf(),
        m.wf(),
    ensures
        b == continues(*last, *m),
{
    let last_end: u32 = last.ct_start + last.count;
    m.ct_start <= last_end && m.host_start as u64 + last.ct_start as u64 == last.host_start as u64
        + m.ct_start as u64
}

/// `last` grown to the end of `m`.
fn extend(last: &Mapping, m: &Mapping) -> (r: Mapping)
    requires
        last.wf(),
        m.wf(),
        continues(*last, *m),
    ensures
        r == extended(*last, *m),
{
    let last_end: u32 = last.ct_start + last.count;
    let m_end: u32 = m.ct_start + m.count;
    if m_end > last_end {
        Mapping { ct_start: last.ct_start, host_start: last.host_start, count: m_end - last.ct_start }
    } else {
        Mapping { ct_start: last.ct_start, host_start: last.host_start, count: last.count }
    }
}

impl Mappings {
    /// Merges mappings into a table: orders them by their first container
    /// ID, then joins each mapping to the one before it where it continues
    /// it. A mapping that overlaps another without continuing it is kept as
    /// it is, beside the other. Where mappings share an ID only if they
    /// translate by the same offset, no two mappings of the table share a
    /// container ID or a host ID.
    pub fn merge_overlapping(value: Vec<Mapping>) -> (r: Mappings)
        requires
            all_wf(value@),
        ensures
            r@ == merged(value@),
            all_wf(r@),
            sorted_by_start(r@),
            settled(r@),
            r@.len() <= value@.len(),
            offsets_apart(value@) ==> conflict_free(r@),
    {
        let v = sort_by_start(value);
        let ghost s = v@;
        let n: usize = v.len();
        let mut out: Vec<Mapping> = Vec::new();
        let mut i: usize = 0;
        proof {
            lemma_ordered_sorted(value@);
        }
        while i < n
            invariant
                i <= n,
                n == s.len(),
                v@ == s,
                all_wf(s),
                out@ == coalesced(s.subrange(0, i as int)),
            decreases n - i,
        {
            let m: Mapping = v[i];
            proof {
                let head = s.subrange(0, i + 1);
                assert(head.drop_last() == s.subrange(0, i as int));
                assert(head.last() == m);
                assert(all_wf(s.subrange(0, i as int)));
                lemma_coalesced(s.subrange(0, i as int));
            }
            let k: usize = out.len();
            if k > 0 && is_continuation(&out[k - 1], &m) {
                let e = extend(&out[k - 1], &m);
                out.set(k - 1, e);
                proof {
                    let done = coalesced(s.subrange(0, i as int));
                    assert(out@ == done.drop_last().push(extended(done.last(), m)));
                }
            } else {
                out.push(m);
            }
            i = i + 1;
        }
        proof {
            assert(s.subrange(0, n as int) == s);
            lemma_merged(value@);
            if offsets_apart(value@) {
                lemma_merged_conflict_free(value@);
            }
        }
        Mappings::assemble(out)
    }

    /// The table that merging makes of the mappings.
    pub fn from(value: Vec<Mapping>) -> (r: Mappings)
        requires
            all_wf(value@),
        ensures
            r@ == merged(value@),
            all_wf(r@),
            sorted_by_start(r@),
            settled(r@),
            r@.len() <= value@.len(),
            offsets_apart(value@) ==> conflict_free(r@),
    {
        Mappings::merge_overlapping(value)
    }
}

} // verus!
