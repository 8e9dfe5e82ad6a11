//! The mapping table: merging of user-supplied mappings and gap filling.

use vstd::prelude::*;

pub mod canonical;
pub mod conflict;
pub mod fill;
pub mod mapping;
pub mod merge;

pub use conflict::MergeError;
pub use fill::FillError;
pub use mapping::Mapping;

verus! {

/// Every mapping of the sequence is well formed.
pub open spec fn all_wf(s: Seq<Mapping>) -> bool {
    forall|i: int| 0 <= i < s.len() ==> (#[trigger] s[i]).wf()
}

/// Every mapping of the sequence is in range.
pub open spec fn all_in_range(s: Seq<Mapping>) -> bool {
    forall|i: int| 0 <= i < s.len() ==> (#[trigger] s[i]).in_range()
}

/// The mappings come in ascending order of their first container ID.
pub open spec fn sorted_by_start(s: Seq<Mapping>) -> bool {
    forall|i: int, j: int| 0 <= i <= j < s.len() ==> s[i].ct_start <= s[j].ct_start
}

/// The texts of the mappings of `s`, with a comma and a space between them.
pub open spec fn listed(s: Seq<Mapping>) -> Seq<char>
    decreases s.len(),
{
    if s.len() == 0 {
        Seq::empty()
    } else if s.len() == 1 {
        s[0].formatted()
    } else {
        listed(s.drop_last()) + seq![',', ' '] + s.last().formatted()
    }
}

/// A table of mappings in ascending order of their first container ID, each
/// of them well formed.
#[derive(Debug, PartialEq)]
pub struct Mappings(Vec<Mapping>);

impl View for Mappings {
    type V = Seq<Mapping>;

    closed spec fn view(&self) -> Seq<Mapping> {
        self.0@
    }
}

impl Clone for Mappings {
    fn clone(&self) -> (r: Self)
        ensures
            r@ == self@,
    {
        proof {
            use_type_invariant(self);
        }
        let n: usize = self.0.len();
        let mut v: Vec<Mapping> = Vec::new();
        let mut i: usize = 0;
        while i < n
            invariant
                i <= n,
                n == self.0@.len(),
                v@ == self.0@.subrange(0, i as int),
            decreases n - i,
        {
            v.push(self.0[i]);
            i = i + 1;
        }
        proof {
            assert(self.0@.subrange(0, n as int) == self.0@);
        }
        Mappings(v)
    }
}

impl Mappings {
    #[verifier::type_invariant]
    spec fn inv(self) -> bool {
        all_wf(self.0@) && sorted_by_start(self.0@)
    }

    /// Makes a table of mappings that are already in order.
    pub(crate) fn assemble(v: Vec<Mapping>) -> (r: Mappings)
        requires
            all_wf(v@),
            sorted_by_start(v@),
        ensures
            r@ == v@,
    {
        Mappings(v)
    }

    /// The mappings of the table, in order.
    pub fn into_vec(self) -> (v: Vec<Mapping>)
        ensures
            v@ == self@,
            all_wf(v@),
            sorted_by_start(v@),
    {
        proof {
            use_type_invariant(&self);
        }
        self.0
    }

    /// The mappings of the table, in order.
    pub fn as_slice(&self) -> (v: &[Mapping])
        ensures
            v@ == self@,
            all_wf(v@),
            sorted_by_start(v@),
    {
        proof {
            use_type_invariant(self);
        }
        self.0.as_slice()
    }

    /// The texts of the mappings, with a comma and a space between them.
    pub fn to_string(&self) -> (r: String)
        ensures
            r@ == listed(self@),
    {
        let n: usize = self.0.len();
        let mut r = String::new();
        let mut i: usize = 0;
        while i < n
            invariant
                i <= n,
                n == self.0@.len(),
                r@ == listed(self.0@.subrange(0, i as int)),
            decreases n - i,
        {
            let ghost before = r@;
            if i > 0 {
                r.append(", ");
            }
            let text = self.0[i].to_string();
            r.append(text.as_str());
            proof {
                reveal_strlit(", ");
                let head = self.0@.subrange(0, i + 1);
                assert(head.drop_last() == self.0@.subrange(0, i as int));
                assert(head.last() == self.0@[i as int]);
                if i > 0 {
                    assert(", "@ =~= seq![',', ' ']);
                    assert(r@ == before + seq![',', ' '] + self.0@[i as int].formatted());
                } else {
                    assert(before.len() == 0);
                    assert(r@ =~= self.0@[i as int].formatted());
                    assert(head[0] == self.0@[i as int]);
                }
            }
            i = i + 1;
        }
        proof {
            assert(self.0@.subrange(0, n as int) == self.0@);
        }
        r
    }

    /// The number of mappings in the table.
    pub fn len(&self) -> (n: usize)
        ensures
            n == self@.len(),
    {
        self.0.len()
    }

    /// Whether the table holds no mapping.
    pub fn is_empty(&self) -> (b: bool)
        ensures
            b == (self@.len() == 0),
    {
        self.0.len() == 0
    }
}

} // verus!
