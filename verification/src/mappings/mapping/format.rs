//! Writing a mapping as text, and reading that text back.

use vstd::prelude::*;

use super::impl_fromstr::{block, parsed_mapping, parsed_span, Span};
use super::parse_mapping_error::MappingError;
use super::Mapping;
use crate::text::{
    after, before, decimal, is_digit, lemma_decimal, lemma_digits_lack, lemma_first_at,
    lemma_first_at_is, push_decimal,
};

verus! {

/// The text of a block of `count` IDs from `start` on: the first ID, and
/// where the block holds more than one, a hyphen and the last ID.
pub open spec fn range_text(start: u32, count: u32) -> Seq<char> {
    if count > 1 {
        decimal(start as nat) + seq!['-'] + decimal((start + count - 1) as nat)
    } else {
        decimal(start as nat)
    }
}

impl Mapping {
    /// The text of the mapping: its container range, and where the host IDs
    /// differ from the container IDs, a colon and the first host ID.
    pub open spec fn formatted(self) -> Seq<char> {
        if self.ct_start != self.host_start {
            range_text(self.ct_start, self.count) + seq![':'] + decimal(self.host_start as nat)
        } else {
            range_text(self.ct_start, self.count)
        }
    }

    /// Writes the mapping as `CT_START[-CT_END][:HOST_START]`.
    pub fn to_string(&self) -> (r: String)
        ensures
            r@ == self.formatted(),
    {
        let mut r = String::new();
        push_decimal(&mut r, self.ct_start as u64);
        if self.count > 1 {
            proof {
                reveal_strlit("-");
            }
            r.append("-");
            push_decimal(&mut r, self.ct_start as u64 + self.count as u64 - 1);
            assert(r@ =~= range_text(self.ct_start, self.count));
        } else {
            assert(r@ =~= range_text(self.ct_start, self.count));
        }
        if self.ct_start != self.host_start {
            proof {
                reveal_strlit(":");
            }
            r.append(":");
            push_decimal(&mut r, self.host_start as u64);
            assert(r@ =~= self.formatted());
        }
        r
    }
}

/// The text of a block holds no colon and no plus sign, and spells the
/// block: its first ID, and its last one where it holds more than one.
pub proof fn lemma_range_text_parses(start: u32, count: u32)
    requires
        count >= 1,
        start + count - 1 <= u32::MAX,
    ensures
        !range_text(start, count).contains(':'),
        parsed_span(range_text(start, count)) == Ok::<Span, super::mapping_range::RangeError>(
            Span {
                start,
                end: if count > 1 {
                    Some((start + count - 1) as u32)
                } else {
                    None
                },
            },
        ),
{
    let a = decimal(start as nat);
    lemma_decimal(start as nat);
    lemma_digits_lack(a, '-');
    lemma_digits_lack(a, ':');
    let s = range_text(start, count);
    if count > 1 {
        let last = (start + count - 1) as u32;
        let b = decimal(last as nat);
        lemma_decimal(last as nat);
        lemma_digits_lack(b, ':');
        assert(s == a + seq!['-'] + b);
        assert forall|i: int| 0 <= i < s.len() implies s[i] != ':' by {
            if i < a.len() {
                assert(s[i] == a[i]);
                assert(is_digit(a[i]));
            } else if i > a.len() {
                assert(s[i] == b[i - a.len() - 1]);
                assert(is_digit(b[i - a.len() - 1]));
            }
        }
        assert(s[a.len() as int] == '-');
        assert forall|i: int| 0 <= i < a.len() implies s[i] != '-' by {
            assert(s[i] == a[i]);
            assert(is_digit(a[i]));
        }
        lemma_first_at_is(s, '-', a.len() as int);
        lemma_first_at(s, '-');
        assert(before(s, '-') == a);
        assert(after(s, '-') == b);
    } else {
        assert(s == a);
    }
}

/// Writing a mapping that is in range as text and reading the text back
/// gives the mapping again.
pub proof fn lemma_format_parse_round_trip(m: Mapping)
    requires
        m.in_range(),
    ensures
        parsed_mapping(m.formatted()) == Ok::<Mapping, MappingError>(m),
{
    let r = range_text(m.ct_start, m.count);
    lemma_range_text_parses(m.ct_start, m.count);
    let s = m.formatted();
    let ct = Span {
        start: m.ct_start,
        end: if m.count > 1 {
            Some((m.ct_start + m.count - 1) as u32)
        } else {
            None
        },
    };
    assert(ct.len() == m.count);
    if m.ct_start != m.host_start {
        let h = decimal(m.host_start as nat);
        lemma_decimal(m.host_start as nat);
        lemma_digits_lack(h, ':');
        lemma_digits_lack(h, '-');
        assert(s == r + seq![':'] + h);
        assert(s[r.len() as int] == ':');
        assert forall|i: int| 0 <= i < r.len() implies s[i] != ':' by {
            assert(s[i] == r[i]);
            assert(r.contains(r[i]));
        }
        lemma_first_at_is(s, ':', r.len() as int);
        lemma_first_at(s, ':');
        assert(before(s, ':') == r);
        assert(after(s, ':') == h);
        assert(parsed_span(h) == Ok::<Span, super::mapping_range::RangeError>(
            Span { start: m.host_start, end: None },
        ));
        assert(block(m.ct_start, m.host_start, m.count as int) == Ok::<Mapping, MappingError>(m));
    } else {
        assert(block(m.ct_start, m.ct_start, m.count as int) == Ok::<Mapping, MappingError>(m));
    }
}

} // verus!
