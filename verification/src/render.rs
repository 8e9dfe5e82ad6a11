//! The lines of configuration that a completed table stands for.

use vstd::prelude::*;

use crate::mapping::MappingType;
use crate::mappings::{Mapping, Mappings};
use crate::text::{decimal, push_decimal};

verus! {

/// The number of IDs in the block of subordinate IDs that every user is
/// granted from the start of the pool.
pub const DEFAULT_BLOCK: u32 = 65536;

/// The letter by which a line of container configuration names what it
/// maps: `u` for user IDs, `g` for group IDs, `b` for both.
pub open spec fn kind_letter(kind: MappingType) -> char {
    match kind {
        MappingType::Uid => 'u',
        MappingType::Gid => 'g',
        MappingType::Both => 'b',
    }
}

/// The line of container configuration for one mapping:
/// `lxc.idmap = <letter> <container start> <host start> <count>`.
pub open spec fn idmap_line_spec(kind: MappingType, m: Mapping) -> Seq<char> {
    "lxc.idmap = "@ + seq![kind_letter(kind), ' '] + decimal(m.ct_start as nat) + seq![' ']
        + decimal(m.host_start as nat) + seq![' '] + decimal(m.count as nat)
}

/// The line that grants the user `owner` the `count` subordinate IDs from
/// `host_start` on: `<owner>:<host start>:<count>`.
pub open spec fn subid_line_spec(owner: u32, host_start: u32, count: u32) -> Seq<char> {
    decimal(owner as nat) + seq![':'] + decimal(host_start as nat) + seq![':'] + decimal(
        count as nat,
    )
}

/// The lines of container configuration for the mappings of `s`, one for
/// each, in order.
pub open spec fn idmap_lines_spec(kind: MappingType, s: Seq<Mapping>) -> Seq<Seq<char>> {
    Seq::new(s.len(), |i: int| idmap_line_spec(kind, s[i]))
}

/// The grants that the mappings of `s` need beyond the default block: one
/// line for each mapping whose host IDs begin below `pool_start`, in order.
pub open spec fn extra_grants(owner: u32, pool_start: u32, s: Seq<Mapping>) -> Seq<Seq<char>>
    decreases s.len(),
{
    if s.len() == 0 {
        Seq::empty()
    } else if s.last().host_start < pool_start {
        extra_grants(owner, pool_start, s.drop_last()).push(
            subid_line_spec(owner, s.last().host_start, s.last().count),
        )
    } else {
        extra_grants(owner, pool_start, s.drop_last())
    }
}

/// The subordinate-ID lines for a table: first the grant of the default
/// block at `pool_start`, then the grants for the mappings whose host IDs
/// begin below `pool_start`.
pub open spec fn subid_lines_spec(owner: u32, pool_start: u32, s: Seq<Mapping>) -> Seq<Seq<char>> {
    seq![subid_line_spec(owner, pool_start, DEFAULT_BLOCK)] + extra_grants(owner, pool_start, s)
}

/// The texts of the lines.
pub open spec fn texts(lines: Seq<String>) -> Seq<Seq<char>> {
    Seq::new(lines.len(), |i: int| lines[i]@)
}

/// The line of container configuration for one mapping.
pub fn idmap_line(kind: MappingType, m: &Mapping) -> (r: String)
    ensures
        r@ == idmap_line_spec(kind, *m),
{
    proof {
        reveal_strlit("u ");
        reveal_strlit("g ");
        reveal_strlit("b ");
        reveal_strlit(" ");
    }
    let mut r = "lxc.idmap = ".to_owned();
    match kind {
        MappingType::Uid => r.append("u "),
        MappingType::Gid => r.append("g "),
        MappingType::Both => r.append("b "),
    }
    assert(r@ =~= "lxc.idmap = "@ + seq![kind_letter(kind), ' ']);
    push_decimal(&mut r, m.ct_start as u64);
    r.append(" ");
    push_decimal(&mut r, m.host_start as u64);
    r.append(" ");
    push_decimal(&mut r, m.count as u64);
    assert(r@ =~= idmap_line_spec(kind, *m));
    r
}

/// The line that grants the user `owner` the `count` subordinate IDs from
/// `host_start` on.
pub fn subid_line(owner: u32, host_start: u32, count: u32) -> (r: String)
    ensures
        r@ == subid_line_spec(owner, host_start, count),
{
    proof {
        reveal_strlit(":");
    }
    let mut r = String::new();
    push_decimal(&mut r, owner as u64);
    r.append(":");
    push_decimal(&mut r, host_start as u64);
    r.append(":");
    push_decimal(&mut r, count as u64);
    assert(r@ =~= subid_line_spec(owner, host_start, count));
    r
}

/// The lines of container configuration for a table, one for each mapping.
pub fn idmap_lines(kind: MappingType, table: &Mappings) -> (r: Vec<String>)
    ensures
        texts(r@) == idmap_lines_spec(kind, table@),
{
    let v = table.as_slice();
    let n: usize = v.len();
    let mut out: Vec<String> = Vec::new();
    let mut i: usize = 0;
    while i < n
        invariant
            i <= n,
            n == v@.len(),
            v@ == table@,
            out@.len() == i,
            forall|k: int| 0 <= k < i ==> (#[trigger] out@[k])@ == idmap_line_spec(kind, v@[k]),
        decreases n - i,
    {
        out.push(idmap_line(kind, &v[i]));
        i = i + 1;
    }
    assert(texts(out@) =~= idmap_lines_spec(kind, table@));
    out
}

/// The subordinate-ID lines for a table: the grant of the default block at
/// `pool_start`, then one grant for each mapping whose host IDs begin below
/// `pool_start`.
pub fn subid_lines(owner: u32, pool_start: u32, table: &Mappings) -> (r: Vec<String>)
    ensures
        texts(r@) == subid_lines_spec(owner, pool_start, table@),
{
    let v = table.as_slice();
    let n: usize = v.len();
    let mut out: Vec<String> = Vec::new();
    out.push(subid_line(owner, pool_start, DEFAULT_BLOCK));
    let ghost first = seq![subid_line_spec(owner, pool_start, DEFAULT_BLOCK)];
    assert(texts(out@) =~= first + extra_grants(owner, pool_start, v@.subrange(0, 0)));
    let mut i: usize = 0;
    while i < n
        invariant
            i <= n,
            n == v@.len(),
            v@ == table@,
            first == seq![subid_line_spec(owner, pool_start, DEFAULT_BLOCK)],
            texts(out@) == first + extra_grants(owner, pool_start, v@.subrange(0, i as int)),
        decreases n - i,
    {
        let ghost before = out@;
        proof {
            let head = v@.subrange(0, i + 1);
            assert(head.drop_last() == v@.subrange(0, i as int));
            assert(head.last() == v@[i as int]);
        }
        if v[i].host_start < pool_start {
            out.push(subid_line(owner, v[i].host_start, v[i].count));
            assert(texts(out@) =~= texts(before).push(
                subid_line_spec(owner, v@[i as int].host_start, v@[i as int].count),
            ));
            assert(texts(out@) =~= first + extra_grants(owner, pool_start, v@.subrange(0, i + 1)));
        }
        i = i + 1;
    }
    proof {
        assert(v@.subrange(0, n as int) == v@);
    }
    out
}

} // verus!
