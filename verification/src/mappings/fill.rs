//! Gap filling: completing a table until it covers the container ID space.

use vstd::prelude::*;

use super::mapping::Mapping;
use super::{all_wf, sorted_by_start, Mappings};

verus! {

/// The mapping that gap filling synthesizes for `count` container IDs from
/// `ct_start` on, drawn from the host IDs that begin at `host_start`.
pub open spec fn fill(ct_start: int, host_start: int, count: int) -> Mapping {
    Mapping { ct_start: ct_start as u32, host_start: host_start as u32, count: count as u32 }
}

/// How many container IDs lie uncovered between `next`, the first ID that
/// nothing covers yet, and the start of `m`.
pub open spec fn gap_before(m: Mapping, next: int) -> int {
    if m.ct_start > next {
        m.ct_start - next
    } else {
        0
    }
}

/// The table that gap filling makes of `s`, where `next` is the first
/// container ID not yet covered, `cursor` the next free host ID of the pool
/// and `ct_last` the last container ID to cover.
///
/// Each mapping of `s` is kept as it is. A gap in front of it is closed by a
/// synthesized mapping, and so is what remains up to `ct_last` after the last
/// one. The cursor moves past every mapping, kept or synthesized.
pub open spec fn filled(s: Seq<Mapping>, next: int, cursor: int, ct_last: int) -> Seq<Mapping>
    decreases s.len(),
{
    if s.len() == 0 {
        if next <= ct_last {
            seq![fill(next, cursor, ct_last + 1 - next)]
        } else {
            Seq::empty()
        }
    } else {
        let m = s[0];
        let gap = gap_before(m, next);
        let rest = filled(s.drop_first(), m.ct_end_spec(), cursor + gap + m.count, ct_last);
        if gap > 0 {
            seq![fill(next, cursor, gap), m] + rest
        } else {
            seq![m] + rest
        }
    }
}

/// For each mapping of `filled`, whether gap filling synthesized it.
pub open spec fn synthesized(s: Seq<Mapping>, next: int, ct_last: int) -> Seq<bool>
    decreases s.len(),
{
    if s.len() == 0 {
        if next <= ct_last {
            seq![true]
        } else {
            Seq::empty()
        }
    } else {
        let m = s[0];
        let rest = synthesized(s.drop_first(), m.ct_end_spec(), ct_last);
        if gap_before(m, next) > 0 {
            seq![true, false] + rest
        } else {
            seq![false] + rest
        }
    }
}

/// The next free host ID of the pool once `filled` is complete.
pub open spec fn cursor_after(s: Seq<Mapping>, next: int, cursor: int, ct_last: int) -> int
    decreases s.len(),
{
    if s.len() == 0 {
        if next <= ct_last {
            cursor + (ct_last + 1 - next)
        } else {
            cursor
        }
    } else {
        let m = s[0];
        cursor_after(
            s.drop_first(),
            m.ct_end_spec(),
            cursor + gap_before(m, next) + m.count,
            ct_last,
        )
    }
}

/// The cursor never moves backwards.
pub proof fn lemma_cursor_monotonic(s: Seq<Mapping>, next: int, cursor: int, ct_last: int)
    ensures
        cursor_after(s, next, cursor, ct_last) >= cursor,
    decreases s.len(),
{
    if s.len() > 0 {
        let m = s[0];
        lemma_cursor_monotonic(
            s.drop_first(),
            m.ct_end_spec(),
            cursor + gap_before(m, next) + m.count,
            ct_last,
        );
    }
}

/// Why gap filling gives up.
#[derive(Debug, Clone, Copy, PartialEq, Eq, Structural)]
pub enum FillError {
    /// The last container ID to cover is the largest `u32`, so the ID after
    /// it is no ID.
    CeilingOutOfRange,
    /// The pool of host IDs that begins at the cursor ends before the whole
    /// table is served.
    HostIdsExhausted,
}

/// The mappings lie one behind the other and cover the container IDs from
/// `lo` up to, but not including, `hi`: the first starts at `lo`, each
/// other one starts where the one before it ends, and the last ends at `hi`.
pub open spec fn tiles(f: Seq<Mapping>, lo: int, hi: int) -> bool {
    &&& f.len() == 0 ==> lo == hi
    &&& f.len() > 0 ==> f[0].ct_start == lo && f.last().ct_end_spec() == hi
    &&& forall|i: int| 0 < i < f.len() ==> (#[trigger] f[i]).ct_start == f[i - 1].ct_end_spec()
}

/// The container ID `id` belongs to the block of `m`.
pub open spec fn maps_id(m: Mapping, id: int) -> bool {
    m.ct_start <= id < m.ct_end_spec()
}

/// Some mapping of `f` maps the container ID `id`.
pub open spec fn is_mapped(f: Seq<Mapping>, id: int) -> bool {
    exists|i: int| 0 <= i < f.len() && #[trigger] maps_id(f[i], id)
}

/// No container ID is mapped by two mappings of `f`.
pub open spec fn maps_once(f: Seq<Mapping>) -> bool {
    forall|i: int, j: int, id: int|
        0 <= i < f.len() && 0 <= j < f.len() && #[trigger] maps_id(f[i], id) && #[trigger] maps_id(
            f[j],
            id,
        ) ==> i == j
}

/// Each mapping of `s` begins at or after the end of the one before it.
pub open spec fn apart(s: Seq<Mapping>) -> bool {
    forall|i: int| 0 < i < s.len() ==> s[i - 1].ct_end_spec() <= (#[trigger] s[i]).ct_start
}

/// The mappings of `f` that gap filling did not synthesize, in order.
pub open spec fn kept(f: Seq<Mapping>, marks: Seq<bool>) -> Seq<Mapping>
    decreases f.len(),
{
    if f.len() == 0 || marks.len() != f.len() {
        Seq::empty()
    } else if marks.last() {
        kept(f.drop_last(), marks.drop_last())
    } else {
        kept(f.drop_last(), marks.drop_last()).push(f.last())
    }
}

/// Mappings that lie one behind the other are in order, and each mapping
/// begins at or after the end of every earlier one.
pub proof fn lemma_apart_ordered(s: Seq<Mapping>, i: int, j: int)
    requires
        all_wf(s),
        apart(s),
        0 <= i < j < s.len(),
    ensures
        s[i].ct_end_spec() <= s[j].ct_start,
    decreases j - i,
{
    if i + 1 < j {
        lemma_apart_ordered(s, i, j - 1);
        assert(s[j - 1].ct_end_spec() <= s[j].ct_start);
        assert(s[j - 1].wf());
    } else {
        assert(s[j - 1].ct_end_spec() <= s[j].ct_start);
    }
}

/// In a tiling of `lo..hi`, some mapping maps the container ID `id` of
/// `lo..hi`.
proof fn lemma_tiles_reach(f: Seq<Mapping>, lo: int, hi: int, id: int)
    requires
        tiles(f, lo, hi),
        lo <= id < hi,
    ensures
        is_mapped(f, id),
    decreases f.len(),
{
    let n = f.len() as int;
    if f[n - 1].ct_start <= id {
        assert(maps_id(f[n - 1], id));
    } else {
        let g = f.drop_last();
        assert(f[n - 1].ct_start == f[n - 2].ct_end_spec());
        assert(g[0] == f[0]);
        assert(g.last() == f[n - 2]);
        assert forall|i: int| 0 < i < g.len() implies (#[trigger] g[i]).ct_start == g[i
            - 1].ct_end_spec() by {
            assert(f[i].ct_start == f[i - 1].ct_end_spec());
        }
        lemma_tiles_reach(g, lo, f[n - 1].ct_start as int, id);
        let i = choose|i: int| 0 <= i < g.len() && #[trigger] maps_id(g[i], id);
        assert(f[i] == g[i]);
        assert(maps_id(f[i], id));
    }
}

/// A tiling of `lo..hi` maps each container ID of `lo..hi` exactly once,
/// and no other ID.
pub proof fn lemma_tiles_cover(f: Seq<Mapping>, lo: int, hi: int)
    requires
        all_wf(f),
        tiles(f, lo, hi),
    ensures
        forall|id: int| lo <= id < hi <==> #[trigger] is_mapped(f, id),
        maps_once(f),
{
    assert(apart(f)) by {
        assert forall|i: int| 0 < i < f.len() implies f[i - 1].ct_end_spec() <= (#[trigger] f[i]).ct_start by {}
    }
    assert forall|id: int| lo <= id < hi implies #[trigger] is_mapped(f, id) by {
        lemma_tiles_reach(f, lo, hi, id);
    }
    assert forall|id: int| #[trigger] is_mapped(f, id) implies lo <= id < hi by {
        let i = choose|i: int| 0 <= i < f.len() && #[trigger] maps_id(f[i], id);
        assert(f[i].wf());
        if 0 < i {
            lemma_apart_ordered(f, 0, i);
            assert(f[0].wf());
        }
        if i < f.len() - 1 {
            lemma_apart_ordered(f, i, f.len() - 1);
            assert(f[f.len() - 1].wf());
        }
    }
    assert forall|i: int, j: int, id: int|
        0 <= i < f.len() && 0 <= j < f.len() && #[trigger] maps_id(f[i], id) && #[trigger] maps_id(
            f[j],
            id,
        ) implies i == j by {
        if i < j {
            lemma_apart_ordered(f, i, j);
        } else if j < i {
            lemma_apart_ordered(f, j, i);
        }
    }
}

/// Where the mappings of `s` lie one behind the other, none before `next`
/// and none beyond `ct_last`, the completed table tiles `next..=ct_last`.
pub proof fn lemma_filled_tiles(s: Seq<Mapping>, next: int, cursor: int, ct_last: int)
    requires
        all_wf(s),
        apart(s),
        0 <= next <= ct_last + 1,
        ct_last < u32::MAX,
        s.len() > 0 ==> next <= s[0].ct_start,
        forall|i: int| 0 <= i < s.len() ==> (#[trigger] s[i]).ct_end_spec() <= ct_last + 1,
    ensures
        tiles(filled(s, next, cursor, ct_last), next, ct_last + 1),
    decreases s.len(),
{
    if s.len() > 0 {
        let m = s[0];
        let t = s.drop_first();
        let gap = gap_before(m, next);
        assert(m.wf());
        assert forall|i: int| 0 <= i < t.len() implies (#[trigger] t[i]).wf() by {
            assert(t[i] == s[i + 1]);
        }
        assert forall|i: int| 0 < i < t.len() implies t[i - 1].ct_end_spec() <= (#[trigger] t[i]).ct_start by {
            assert(t[i] == s[i + 1]);
            assert(s[i].ct_end_spec() <= s[i + 1].ct_start);
        }
        assert forall|i: int| 0 <= i < t.len() implies (#[trigger] t[i]).ct_end_spec() <= ct_last + 1 by {
            assert(t[i] == s[i + 1]);
        }
        if t.len() > 0 {
            assert(t[0] == s[1]);
            assert(s[0].ct_end_spec() <= s[1].ct_start);
        }
        lemma_filled_tiles(t, m.ct_end_spec(), cursor + gap + m.count, ct_last);
        let rest = filled(t, m.ct_end_spec(), cursor + gap + m.count, ct_last);
        let head = if gap > 0 {
            seq![fill(next, cursor, gap), m]
        } else {
            seq![m]
        };
        let f = head + rest;
        assert(f == filled(s, next, cursor, ct_last));
        assert forall|i: int| 0 < i < f.len() implies (#[trigger] f[i]).ct_start == f[i
            - 1].ct_end_spec() by {
            if i < head.len() {
                assert(f[i] == head[i] && f[i - 1] == head[i - 1]);
            } else if i == head.len() {
                assert(f[i] == rest[0]);
                assert(f[i - 1] == head[head.len() - 1]);
            } else {
                assert(f[i] == rest[i - head.len()]);
                assert(f[i - 1] == rest[i - 1 - head.len()]);
            }
        }
        assert(f[0] == head[0]);
        if rest.len() > 0 {
            assert(f.last() == rest.last());
        } else {
            assert(f.last() == m);
        }
    }
}

/// A table with a mapping put in front maps what the mapping maps and
/// what the table maps.
proof fn lemma_is_mapped_concat(a: Seq<Mapping>, b: Seq<Mapping>, id: int)
    ensures
        is_mapped(a + b, id) == (is_mapped(a, id) || is_mapped(b, id)),
{
    let f = a + b;
    if is_mapped(f, id) {
        let i = choose|i: int| 0 <= i < f.len() && #[trigger] maps_id(f[i], id);
        if i < a.len() {
            assert(maps_id(a[i], id));
        } else {
            assert(maps_id(b[i - a.len()], id));
        }
    }
    if is_mapped(a, id) {
        let i = choose|i: int| 0 <= i < a.len() && #[trigger] maps_id(a[i], id);
        assert(maps_id(f[i], id));
    }
    if is_mapped(b, id) {
        let i = choose|i: int| 0 <= i < b.len() && #[trigger] maps_id(b[i], id);
        assert(maps_id(f[i + a.len()], id));
    }
}

/// Whatever the table holds, the completed table leaves no gap: it maps
/// every container ID from `next` up to and including `ct_last`.
pub proof fn lemma_filled_no_gaps(s: Seq<Mapping>, next: int, cursor: int, ct_last: int, id: int)
    requires
        all_wf(s),
        0 <= next <= u32::MAX,
        ct_last < u32::MAX,
        next <= id <= ct_last,
    ensures
        is_mapped(filled(s, next, cursor, ct_last), id),
    decreases s.len(),
{
    if s.len() == 0 {
        let f = filled(s, next, cursor, ct_last);
        assert(maps_id(f[0], id));
    } else {
        let m = s[0];
        let t = s.drop_first();
        let gap = gap_before(m, next);
        assert(m.wf());
        assert forall|i: int| 0 <= i < t.len() implies (#[trigger] t[i]).wf() by {
            assert(t[i] == s[i + 1]);
        }
        let rest = filled(t, m.ct_end_spec(), cursor + gap + m.count, ct_last);
        let head = if gap > 0 {
            seq![fill(next, cursor, gap), m]
        } else {
            seq![m]
        };
        lemma_is_mapped_concat(head, rest, id);
        if id >= m.ct_end_spec() {
            lemma_filled_no_gaps(t, m.ct_end_spec(), cursor + gap + m.count, ct_last, id);
        } else if id >= m.ct_start {
            assert(maps_id(head[head.len() - 1], id));
        } else {
            assert(maps_id(head[0], id));
        }
    }
}

/// Gap filling keeps every mapping of the table as it is, in order: what it
/// did not synthesize is the table it was given.
pub proof fn lemma_filled_keeps(s: Seq<Mapping>, next: int, cursor: int, ct_last: int)
    ensures
        synthesized(s, next, ct_last).len() == filled(s, next, cursor, ct_last).len(),
        kept(filled(s, next, cursor, ct_last), synthesized(s, next, ct_last)) == s,
    decreases s.len(),
{
    let f = filled(s, next, cursor, ct_last);
    let y = synthesized(s, next, ct_last);
    if s.len() == 0 {
        if next <= ct_last {
            assert(f.drop_last().len() == 0);
            assert(kept(f.drop_last(), y.drop_last()) == Seq::<Mapping>::empty());
        }
        assert(kept(f, y) == s);
    } else {
        let m = s[0];
        let t = s.drop_first();
        let gap = gap_before(m, next);
        lemma_filled_keeps(t, m.ct_end_spec(), cursor + gap + m.count, ct_last);
        let rest = filled(t, m.ct_end_spec(), cursor + gap + m.count, ct_last);
        let marks = synthesized(t, m.ct_end_spec(), ct_last);
        let head = if gap > 0 {
            seq![fill(next, cursor, gap), m]
        } else {
            seq![m]
        };
        let head_marks = if gap > 0 {
            seq![true, false]
        } else {
            seq![false]
        };
        lemma_kept_concat(head, head_marks, rest, marks);
        assert(kept(head, head_marks) == seq![m]) by {
            reveal_with_fuel(kept, 3);
            assert(head.drop_last().drop_last().len() == 0 || head.drop_last().len() == 0);
            if gap > 0 {
                assert(head.drop_last() == seq![fill(next, cursor, gap)]);
                assert(head_marks.drop_last() == seq![true]);
                assert(kept(head.drop_last(), head_marks.drop_last()) == Seq::<Mapping>::empty());
            } else {
                assert(kept(head.drop_last(), head_marks.drop_last()) == Seq::<Mapping>::empty());
            }
        }
        assert(seq![m] + t == s);
    }
}

/// What is kept of two tables put one behind the other is what is kept of
/// the first, followed by what is kept of the second.
proof fn lemma_kept_concat(a: Seq<Mapping>, am: Seq<bool>, b: Seq<Mapping>, bm: Seq<bool>)
    requires
        a.len() == am.len(),
        b.len() == bm.len(),
    ensures
        kept(a + b, am + bm) == kept(a, am) + kept(b, bm),
    decreases b.len(),
{
    if b.len() == 0 {
        assert(a + b == a);
        assert(am + bm == am);
        assert(kept(b, bm) == Seq::<Mapping>::empty());
        assert(kept(a, am) + kept(b, bm) == kept(a, am));
    } else {
        lemma_kept_concat(a, am, b.drop_last(), bm.drop_last());
        assert((a + b).drop_last() == a + b.drop_last());
        assert((am + bm).drop_last() == am + bm.drop_last());
        assert((a + b).last() == b.last());
        assert((am + bm).last() == bm.last());
        if !bm.last() {
            assert((kept(a, am) + kept(b.drop_last(), bm.drop_last())).push(b.last()) == kept(a, am)
                + kept(b.drop_last(), bm.drop_last()).push(b.last()));
        }
    }
}

/// The synthesized mappings take their host IDs from the pool that begins
/// at `cursor` and ends at the final cursor, each block of host IDs behind
/// the blocks of the synthesized mappings before it.
pub proof fn lemma_filled_hosts(s: Seq<Mapping>, next: int, cursor: int, ct_last: int)
    requires
        all_wf(s),
        0 <= next <= u32::MAX,
        0 <= cursor,
        ct_last < u32::MAX,
        cursor_after(s, next, cursor, ct_last) <= u32::MAX,
    ensures
        synthesized(s, next, ct_last).len() == filled(s, next, cursor, ct_last).len(),
        forall|i: int|
            0 <= i < filled(s, next, cursor, ct_last).len() && #[trigger] synthesized(
                s,
                next,
                ct_last,
            )[i] ==> {
                let f = filled(s, next, cursor, ct_last)[i];
                f.wf() && cursor <= f.host_start && f.host_end_spec() <= cursor_after(
                    s,
                    next,
                    cursor,
                    ct_last,
                )
            },
        forall|i: int, j: int|
            0 <= i < j < filled(s, next, cursor, ct_last).len() && #[trigger] synthesized(
                s,
                next,
                ct_last,
            )[i] && #[trigger] synthesized(s, next, ct_last)[j] ==> filled(
                s,
                next,
                cursor,
                ct_last,
            )[i].host_end_spec() <= filled(s, next, cursor, ct_last)[j].host_start,
    decreases s.len(),
{
    let f = filled(s, next, cursor, ct_last);
    let y = synthesized(s, next, ct_last);
    if s.len() == 0 {
    } else {
        let m = s[0];
        let t = s.drop_first();
        let gap = gap_before(m, next);
        let c = cursor + gap + m.count;
        assert(m.wf());
        assert forall|i: int| 0 <= i < t.len() implies (#[trigger] t[i]).wf() by {
            assert(t[i] == s[i + 1]);
        }
        lemma_cursor_monotonic(t, m.ct_end_spec(), c, ct_last);
        lemma_filled_hosts(t, m.ct_end_spec(), c, ct_last);
        let rest = filled(t, m.ct_end_spec(), c, ct_last);
        let marks = synthesized(t, m.ct_end_spec(), ct_last);
        let head = if gap > 0 {
            seq![fill(next, cursor, gap), m]
        } else {
            seq![m]
        };
        let head_marks = if gap > 0 {
            seq![true, false]
        } else {
            seq![false]
        };
        assert(f == head + rest);
        assert(y == head_marks + marks);
        assert forall|i: int| 0 <= i < f.len() && #[trigger] y[i] implies f[i].wf() && cursor
            <= f[i].host_start && f[i].host_end_spec() <= cursor_after(s, next, cursor, ct_last) by {
            if i < head.len() {
                assert(i == 0 && gap > 0);
                assert(f[0] == fill(next, cursor, gap));
            } else {
                assert(f[i] == rest[i - head.len()]);
                assert(y[i] == marks[i - head.len()]);
            }
        }
        assert forall|i: int, j: int| 0 <= i < j < f.len() && #[trigger] y[i] && #[trigger] y[j] implies f[i].host_end_spec()
            <= f[j].host_start by {
            assert(j >= head.len());
            assert(f[j] == rest[j - head.len()]);
            assert(y[j] == marks[j - head.len()]);
            if i < head.len() {
                assert(i == 0 && gap > 0);
                assert(f[0] == fill(next, cursor, gap));
            } else {
                assert(f[i] == rest[i - head.len()]);
                assert(y[i] == marks[i - head.len()]);
            }
        }
    }
}

/// A table whose mappings are in order and do not share a container ID,
/// none of them beyond `ct_last`, is completed to a table that maps each
/// container ID from 0 up to and including `ct_last` exactly once, and no
/// other ID.
pub proof fn lemma_with_missing_total(s: Seq<Mapping>, cursor: int, ct_last: int)
    requires
        all_wf(s),
        sorted_by_start(s),
        maps_once(s),
        forall|i: int| 0 <= i < s.len() ==> (#[trigger] s[i]).ct_end_spec() <= ct_last + 1,
        0 <= ct_last < u32::MAX,
        0 <= cursor,
        cursor_after(s, 0, cursor, ct_last) <= u32::MAX,
    ensures
        all_wf(filled(s, 0, cursor, ct_last)),
        tiles(filled(s, 0, cursor, ct_last), 0, ct_last + 1),
        forall|id: int|
            0 <= id <= ct_last <==> #[trigger] is_mapped(filled(s, 0, cursor, ct_last), id),
        maps_once(filled(s, 0, cursor, ct_last)),
{
    let f = filled(s, 0, cursor, ct_last);
    assert forall|i: int| 0 < i < s.len() implies s[i - 1].ct_end_spec() <= (#[trigger] s[i]).ct_start by {
        assert(s[i - 1].wf() && s[i].wf());
        assert(s[i - 1].ct_start <= s[i].ct_start);
        if s[i - 1].ct_end_spec() > s[i].ct_start {
            let id = s[i].ct_start as int;
            assert(maps_id(s[i - 1], id) && maps_id(s[i], id));
        }
    }
    lemma_filled_tiles(s, 0, cursor, ct_last);
    lemma_filled_wf(s, 0, cursor, ct_last);
    lemma_tiles_cover(f, 0, ct_last + 1);
}

/// Where the pool of host IDs suffices, every mapping of the completed
/// table is well formed.
pub proof fn lemma_filled_wf(s: Seq<Mapping>, next: int, cursor: int, ct_last: int)
    requires
        all_wf(s),
        0 <= next <= u32::MAX,
        0 <= cursor,
        ct_last < u32::MAX,
        cursor_after(s, next, cursor, ct_last) <= u32::MAX,
    ensures
        all_wf(filled(s, next, cursor, ct_last)),
{
    let f = filled(s, next, cursor, ct_last);
    let y = synthesized(s, next, ct_last);
    lemma_filled_hosts(s, next, cursor, ct_last);
    lemma_filled_keeps(s, next, cursor, ct_last);
    assert forall|i: int| 0 <= i < f.len() implies (#[trigger] f[i]).wf() by {
        if y[i] {
        } else {
            lemma_kept_member(f, y, i);
            let j = choose|j: int| 0 <= j < s.len() && s[j] == f[i];
            assert(s[j].wf());
        }
    }
}

/// A mapping that is not marked is among those kept.
proof fn lemma_kept_member(f: Seq<Mapping>, marks: Seq<bool>, i: int)
    requires
        f.len() == marks.len(),
        0 <= i < f.len(),
        !marks[i],
    ensures
        kept(f, marks).contains(f[i]),
    decreases f.len(),
{
    let g = f.drop_last();
    let gm = marks.drop_last();
    if i == f.len() - 1 {
        let k = kept(g, gm).push(f.last());
        assert(k[k.len() - 1] == f[i]);
    } else {
        lemma_kept_member(g, gm, i);
        let j = choose|j: int| 0 <= j < kept(g, gm).len() && kept(g, gm)[j] == g[i];
        if !marks.last() {
            assert(kept(g, gm).push(f.last())[j] == g[i]);
        }
    }
}

impl Mappings {
    /// Adds the missing mappings in front of, between and after the
    /// mappings of the table, so that every container ID from 0 up to and
    /// including `ct_last` is mapped. Synthesized mappings take their host
    /// IDs from `host_cursor` on, one block after another.
    ///
    /// Returns the completed table and the next free host ID of the pool.
    pub fn with_missing(self, host_cursor: u32, ct_last: u32) -> (r: Result<
        (Mappings, u32),
        FillError,
    >)
        ensures
            match r {
                Ok((table, cursor)) => {
                    &&& ct_last < u32::MAX
                    &&& table@ == filled(self@, 0, host_cursor as int, ct_last as int)
                    &&& cursor == cursor_after(self@, 0, host_cursor as int, ct_last as int)
                    &&& all_wf(table@)
                    &&& sorted_by_start(table@)
                },
                Err(FillError::CeilingOutOfRange) => ct_last == u32::MAX,
                Err(FillError::HostIdsExhausted) => {
                    &&& ct_last < u32::MAX
                    &&& cursor_after(self@, 0, host_cursor as int, ct_last as int) > u32::MAX
                },
            },
    {
        if ct_last == u32::MAX {
            return Err(FillError::CeilingOutOfRange);
        }
        let ghost s = self@;
        let v = self.into_vec();
        let ghost total = cursor_after(s, 0, host_cursor as int, ct_last as int);
        let n: usize = v.len();
        let mut out: Vec<Mapping> = Vec::new();
        let mut next: u32 = 0;
        let mut cursor: u32 = host_cursor;
        let mut i: usize = 0;
        proof {
            assert(s.subrange(0, n as int) == s);
        }
        while i < n
            invariant
                i <= n,
                n == s.len(),
                v@ == s,
                s == self@,
                all_wf(s),
                sorted_by_start(s),
                ct_last < u32::MAX,
                total == cursor_after(s, 0, host_cursor as int, ct_last as int),
                total == cursor_after(s.subrange(i as int, n as int), next as int, cursor as int, ct_last as int),
                out@ + filled(s.subrange(i as int, n as int), next as int, cursor as int, ct_last as int)
                    == filled(s, 0, host_cursor as int, ct_last as int),
                all_wf(out@),
                sorted_by_start(out@),
                i == 0 ==> next == 0 && out@.len() == 0,
                i > 0 ==> next == s[i - 1].ct_end_spec(),
                forall|k: int| 0 <= k < out@.len() ==> (#[trigger] out@[k]).ct_start < next,
                forall|k: int| 0 <= k < out@.len() && i < n ==> (#[trigger] out@[k]).ct_start <= s[i as int].ct_start,
            decreases n - i,
        {
            let m: Mapping = v[i];
            let ghost tail = s.subrange(i as int, n as int);
            let ghost gap = gap_before(m, next as int);
            proof {
                assert(tail[0] == m);
                assert(tail.drop_first() == s.subrange(i + 1, n as int));
                assert(m.wf());
                lemma_cursor_monotonic(
                    tail.drop_first(),
                    m.ct_end_spec(),
                    cursor + gap + m.count,
                    ct_last as int,
                );
            }
            let step: u64 = if m.ct_start > next {
                (m.ct_start - next) as u64 + m.count as u64
            } else {
                m.count as u64
            };
            if cursor as u64 + step > u32::MAX as u64 {
                assert(total >= cursor + gap + m.count);
                return Err(FillError::HostIdsExhausted);
            }
            let ghost before = out@;
            if m.ct_start > next {
                let count: u32 = m.ct_start - next;
                out.push(Mapping { ct_start: next, host_start: cursor, count });
                cursor = cursor + count;
            }
            out.push(m);
            cursor = cursor + m.count;
            next = m.ct_start + m.count;
            proof {
                assert(out@ == before + (if gap > 0 {
                    seq![fill(m.ct_start - gap, cursor - m.count - gap, gap), m]
                } else {
                    seq![m]
                }));
                assert(forall|k: int| 0 <= k < out@.len() && i + 1 < n ==> (#[trigger] out@[k]).ct_start <= s[i + 1].ct_start) by {
                    if i + 1 < n {
                        assert(s[i as int].ct_start <= s[i + 1].ct_start);
                    }
                }
            }
            i = i + 1;
        }
        proof {
            assert(s.subrange(n as int, n as int).len() == 0);
        }
        if next <= ct_last {
            let count: u32 = ct_last - next + 1;
            if cursor as u64 + count as u64 > u32::MAX as u64 {
                return Err(FillError::HostIdsExhausted);
            }
            out.push(Mapping { ct_start: next, host_start: cursor, count });
            cursor = cursor + count;
        }
        Ok((Mappings::assemble(out), cursor))
    }
}

} // verus!
