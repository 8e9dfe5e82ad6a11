//! Conflicts: mappings of one table that claim the same container or host ID.

use vstd::prelude::*;

use super::fill::{
    apart, cursor_after, filled, is_mapped, lemma_apart_ordered, lemma_with_missing_total,
    maps_id, maps_once, tiles,
};
use super::mapping::Mapping;
use super::merge::{
    continues, lemma_merge_keeps_translation, lemma_merged, merged, table_translates, translates,
};
use super::{all_wf, sorted_by_start, Mappings};

verus! {

/// The two mappings share a container ID.
pub open spec fn ct_overlap(a: Mapping, b: Mapping) -> bool {
    a.ct_start < b.ct_end_spec() && b.ct_start < a.ct_end_spec()
}

/// The two mappings share a host ID.
pub open spec fn host_overlap(a: Mapping, b: Mapping) -> bool {
    a.host_start < b.host_end_spec() && b.host_start < a.host_end_spec()
}

/// The two mappings cannot stand in one table: they share a container ID or
/// a host ID.
pub open spec fn in_conflict(a: Mapping, b: Mapping) -> bool {
    ct_overlap(a, b) || host_overlap(a, b)
}

/// No two mappings of the table share a container ID or a host ID.
pub open spec fn conflict_free(s: Seq<Mapping>) -> bool {
    forall|i: int, j: int| 0 <= i < j < s.len() ==> !in_conflict(#[trigger] s[i], #[trigger] s[j])
}

/// The pair `(a, b)` comes before the pair `(i, j)` where pairs are taken
/// by their first index, then by their second.
pub open spec fn pair_before(a: int, b: int, i: int, j: int) -> bool {
    a < i || (a == i && b < j)
}

/// The mappings at `i` and `j` are in conflict, and no pair before them is.
pub open spec fn first_conflict(s: Seq<Mapping>, i: int, j: int) -> bool {
    &&& 0 <= i < j < s.len()
    &&& in_conflict(s[i], s[j])
    &&& forall|a: int, b: int|
        0 <= a < b < s.len() && pair_before(a, b, i, j) ==> !in_conflict(
            #[trigger] s[a],
            #[trigger] s[b],
        )
}

/// The mapping at `i` is the first of `s` that is not well formed.
pub open spec fn first_invalid(s: Seq<Mapping>, i: int) -> bool {
    &&& 0 <= i < s.len()
    &&& !s[i].wf()
    &&& forall|k: int| 0 <= k < i ==> (#[trigger] s[k]).wf()
}

/// Why a list of mappings is no table.
#[derive(Debug, Clone, Copy, PartialEq, Eq, Structural)]
pub enum MergeError {
    /// Two mappings share a container ID or a host ID, and merging did not
    /// join them. `first` stands before `second` in the merged table.
    ConflictingMapping { first: Mapping, second: Mapping },
    /// A mapping is not well formed: it is empty, or one of its blocks
    /// reaches the largest `u32`.
    InvalidMapping { mapping: Mapping },
}

/// In a table without conflicts no container ID is mapped twice.
pub proof fn lemma_conflict_free_maps_once(s: Seq<Mapping>)
    requires
        conflict_free(s),
    ensures
        maps_once(s),
{
    assert forall|i: int, j: int, id: int|
        0 <= i < s.len() && 0 <= j < s.len() && #[trigger] maps_id(s[i], id) && #[trigger] maps_id(
            s[j],
            id,
        ) implies i == j by {
        if i < j {
            assert(!in_conflict(s[i], s[j]));
        } else if j < i {
            assert(!in_conflict(s[j], s[i]));
        }
    }
}

/// Mappings of `s` that translate by different offsets share no container
/// ID and no host ID.
pub open spec fn offsets_apart(s: Seq<Mapping>) -> bool {
    forall|i: int, j: int|
        0 <= i < s.len() && 0 <= j < s.len() && (#[trigger] s[i]).offset() != (
        #[trigger] s[j]).offset() ==> !in_conflict(s[i], s[j])
}

/// Two mappings of the merged table that translate one container ID, or
/// that translate to one host ID, translate by the same offset.
proof fn lemma_merged_same_offset(s: Seq<Mapping>, i: int, j: int, ct_i: int, ct_j: int, host: int)
    requires
        all_wf(s),
        offsets_apart(s),
        0 <= i < merged(s).len(),
        0 <= j < merged(s).len(),
        translates(merged(s)[i], ct_i, ct_i + merged(s)[i].offset()),
        translates(merged(s)[j], ct_j, ct_j + merged(s)[j].offset()),
        ct_i == ct_j || (host == ct_i + merged(s)[i].offset() && host == ct_j + merged(
            s,
        )[j].offset()),
    ensures
        merged(s)[i].offset() == merged(s)[j].offset(),
{
    let t = merged(s);
    let host_i = ct_i + t[i].offset();
    let host_j = ct_j + t[j].offset();
    assert(table_translates(t, ct_i, host_i));
    assert(table_translates(t, ct_j, host_j));
    lemma_merge_keeps_translation(s, ct_i, host_i);
    lemma_merge_keeps_translation(s, ct_j, host_j);
    let p = choose|p: int| 0 <= p < s.len() && #[trigger] translates(s[p], ct_i, host_i);
    let q = choose|q: int| 0 <= q < s.len() && #[trigger] translates(s[q], ct_j, host_j);
    assert(s[p].wf() && s[q].wf());
    if t[i].offset() != t[j].offset() {
        assert(s[p].offset() != s[q].offset());
        assert(!in_conflict(s[p], s[q]));
        if ct_i == ct_j {
            assert(ct_overlap(s[p], s[q]));
        } else {
            assert(host_overlap(s[p], s[q]));
        }
    }
}

/// Where the mappings given share an ID only if they translate by the same
/// offset, each mapping of the merged table begins at or after the end of
/// the one before it.
pub proof fn lemma_merged_apart(s: Seq<Mapping>)
    requires
        all_wf(s),
        offsets_apart(s),
    ensures
        apart(merged(s)),
{
    let t = merged(s);
    lemma_merged(s);
    assert forall|i: int| 0 < i < t.len() implies t[i - 1].ct_end_spec() <= (
    #[trigger] t[i]).ct_start by {
        let a = t[i - 1];
        let b = t[i];
        assert(a.wf() && b.wf());
        assert(a.ct_start <= b.ct_start);
        assert(!continues(a, b));
        if b.ct_start < a.ct_end_spec() {
            let ct = b.ct_start as int;
            lemma_merged_same_offset(s, i - 1, i, ct, ct, 0);
        }
    }
}

/// Merging restores the table: where the mappings given share a container
/// ID or a host ID only if they translate by the same offset, no two
/// mappings of the merged table share a container ID or a host ID.
pub proof fn lemma_merged_conflict_free(s: Seq<Mapping>)
    requires
        all_wf(s),
        forall|i: int, j: int|
            0 <= i < s.len() && 0 <= j < s.len() && (#[trigger] s[i]).offset() != (
            #[trigger] s[j]).offset() ==> !in_conflict(s[i], s[j]),
    ensures
        conflict_free(merged(s)),
{
    let t = merged(s);
    lemma_merged(s);
    assert(offsets_apart(s));
    lemma_merged_apart(s);
    assert forall|i: int, j: int| 0 <= i < j < t.len() implies !in_conflict(
        #[trigger] t[i],
        #[trigger] t[j],
    ) by {
        let a = t[i];
        let b = t[j];
        assert(a.wf() && b.wf());
        lemma_apart_ordered(t, i, j);
        if host_overlap(a, b) {
            let host = if a.host_start >= b.host_start {
                a.host_start as int
            } else {
                b.host_start as int
            };
            lemma_merged_same_offset(s, i, j, host - a.offset(), host - b.offset(), host);
        }
    }
}

/// A table without conflicts whose mappings end by `ct_last` is completed
/// to a table that maps each container ID from 0 up to and including
/// `ct_last` exactly once, and no other ID.
pub proof fn lemma_conflict_free_total(s: Seq<Mapping>, cursor: int, ct_last: int)
    requires
        all_wf(s),
        sorted_by_start(s),
        conflict_free(s),
        forall|i: int| 0 <= i < s.len() ==> (#[trigger] s[i]).ct_end_spec() <= ct_last + 1,
        0 <= ct_last < u32::MAX,
        0 <= cursor,
        cursor_after(s, 0, cursor, ct_last) <= u32::MAX,
    ensures
        tiles(filled(s, 0, cursor, ct_last), 0, ct_last + 1),
        forall|id: int|
            0 <= id <= ct_last <==> #[trigger] is_mapped(filled(s, 0, cursor, ct_last), id),
        maps_once(filled(s, 0, cursor, ct_last)),
{
    lemma_conflict_free_maps_once(s);
    lemma_with_missing_total(s, cursor, ct_last);
}

/// Tells whether the two mappings are in conflict.
fn conflicts(a: &Mapping, b: &Mapping) -> (r: bool)
    requires
        a.wf(),
        b.wf(),
    ensures
        r == in_conflict(*a, *b),
{
    let a_ct_end: u32 = a.ct_start + a.count;
    let b_ct_end: u32 = b.ct_start + b.count;
    let a_host_end: u32 = a.host_start + a.count;
    let b_host_end: u32 = b.host_start + b.count;
    (a.ct_start < b_ct_end && b.ct_start < a_ct_end) || (a.host_start < b_host_end && b.host_start
        < a_host_end)
}

impl Mappings {
    /// Looks for two mappings that share a container ID or a host ID, and
    /// reports the first such pair.
    pub fn validate(&self) -> (r: Result<(), MergeError>)
        ensures
            match r {
                Ok(()) => conflict_free(self@),
                Err(MergeError::ConflictingMapping { first, second }) => exists|i: int, j: int|
                    first_conflict(self@, i, j) && first == self@[i] && second == self@[j],
                Err(MergeError::InvalidMapping { .. }) => false,
            },
    {
        let v = self.as_slice();
        let n: usize = v.len();
        let mut i: usize = 0;
        while i < n
            invariant
                i <= n,
                n == v@.len(),
                v@ == self@,
                all_wf(v@),
                forall|a: int, b: int|
                    0 <= a < b < n && a < i ==> !in_conflict(#[trigger] v@[a], #[trigger] v@[b]),
            decreases n - i,
        {
            let mut j: usize = i + 1;
            while j < n
                invariant
                    i < j <= n,
                    n == v@.len(),
                    v@ == self@,
                    all_wf(v@),
                    forall|a: int, b: int|
                        0 <= a < b < n && a < i ==> !in_conflict(
                            #[trigger] v@[a],
                            #[trigger] v@[b],
                        ),
                    forall|b: int| i < b < j ==> !in_conflict(v@[i as int], #[trigger] v@[b]),
                decreases n - j,
            {
                if conflicts(&v[i], &v[j]) {
                    proof {
                        assert(first_conflict(self@, i as int, j as int));
                    }
                    return Err(MergeError::ConflictingMapping { first: v[i], second: v[j] });
                }
                j = j + 1;
            }
            i = i + 1;
        }
        Ok(())
    }

    /// Merges mappings into a table and accepts it only where each mapping
    /// is well formed and no two mappings of the table share a container ID
    /// or a host ID. Of several faults the first is reported: a mapping
    /// that is not well formed before any conflict.
    pub fn try_merge(value: Vec<Mapping>) -> (r: Result<Mappings, MergeError>)
        ensures
            match r {
                Ok(table) => {
                    &&& all_wf(value@)
                    &&& conflict_free(merged(value@))
                    &&& table@ == merged(value@)
                },
                Err(MergeError::InvalidMapping { mapping }) => exists|i: int|
                    first_invalid(value@, i) && mapping == value@[i],
                Err(MergeError::ConflictingMapping { first, second }) => {
                    &&& all_wf(value@)
                    &&& exists|i: int, j: int|
                        first_conflict(merged(value@), i, j) && first == merged(value@)[i]
                            && second == merged(value@)[j]
                },
            },
    {
        let n: usize = value.len();
        let mut i: usize = 0;
        while i < n
            invariant
                i <= n,
                n == value@.len(),
                forall|k: int| 0 <= k < i ==> (#[trigger] value@[k]).wf(),
            decreases n - i,
        {
            if !value[i].is_valid() {
                proof {
                    assert(first_invalid(value@, i as int));
                }
                return Err(MergeError::InvalidMapping { mapping: value[i] });
            }
            i = i + 1;
        }
        let table = Mappings::merge_overlapping(value);
        match table.validate() {
            Ok(()) => Ok(table),
            Err(e) => {
                proof {
                    assert(e is ConflictingMapping);
                }
                Err(e)
            },
        }
    }
}

} // verus!
