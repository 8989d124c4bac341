//! A version string that orders by the comparison rule.
use crate::compare::{compare, lemma_compare_antisymmetric, strverscmp};
use crate::key::lemma_compare_transitive;
use std::cmp::Ordering;
use vstd::multiset::Multiset;
use vstd::prelude::*;

verus! {

/// A version: any string, kept as it was given.
///
/// Two versions are equal when the comparison rule finds them equal, which
/// they can be with different text (`"0"` and `"0___"`).
#[derive(Clone, Debug)]
pub struct Version(String);

impl View for Version {
    type V = Seq<char>;

    closed spec fn view(&self) -> Seq<char> {
        self.0@
    }
}

impl Version {
    /// The text of the version.
    pub fn as_str(&self) -> (r: &str)
        ensures
            r@ == self@,
    {
        self.0.as_str()
    }

    /// The text of the version, as an owned string.
    pub fn into_string(self) -> (r: String)
        ensures
            r@ == self@,
    {
        self.0
    }

    /// The text of the version, copied.
    pub fn to_string(&self) -> (r: String)
        ensures
            r@ == self@,
    {
        self.0.clone()
    }

    /// The order of `self` against `other` by the comparison rule.
    pub fn cmp(&self, other: &Version) -> (r: Ordering)
        ensures
            r == compare(self@, other@),
    {
        strverscmp(self.0.as_str(), other.0.as_str())
    }
}

impl From<&str> for Version {
    fn from(s: &str) -> (r: Version)
        ensures
            r@ == s@,
    {
        Version(s.to_owned())
    }
}

/// A string value is not determined by its characters in specifications, so
/// `from` is not tied to one value here; its own `ensures` gives the text.
impl vstd::std_specs::convert::FromSpecImpl<&str> for Version {
    open spec fn obeys_from_spec() -> bool {
        false
    }

    open spec fn from_spec(v: &str) -> Version {
        choose|r: Version| r@ == v@
    }
}

impl From<String> for Version {
    fn from(s: String) -> (r: Version)
        ensures
            r@ == s@,
    {
        Version(s)
    }
}

impl vstd::std_specs::convert::FromSpecImpl<String> for Version {
    open spec fn obeys_from_spec() -> bool {
        false
    }

    open spec fn from_spec(v: String) -> Version {
        choose|r: Version| r@ == v@
    }
}

impl From<&String> for Version {
    fn from(s: &String) -> (r: Version)
        ensures
            r@ == s@,
    {
        Version(s.clone())
    }
}

impl vstd::std_specs::convert::FromSpecImpl<&String> for Version {
    open spec fn obeys_from_spec() -> bool {
        false
    }

    open spec fn from_spec(v: &String) -> Version {
        choose|r: Version| r@ == v@
    }
}

impl PartialEq for Version {
    fn eq(&self, other: &Version) -> (r: bool) {
        matches!(self.cmp(other), Ordering::Equal)
    }
}

impl vstd::std_specs::cmp::PartialEqSpecImpl for Version {
    open spec fn obeys_eq_spec() -> bool {
        true
    }

    open spec fn eq_spec(&self, other: &Version) -> bool {
        compare(self@, other@) == Ordering::Equal
    }
}

impl Eq for Version {

}

impl PartialOrd for Version {
    fn partial_cmp(&self, other: &Version) -> (r: Option<Ordering>) {
        Some(self.cmp(other))
    }
}

impl vstd::std_specs::cmp::PartialOrdSpecImpl for Version {
    open spec fn obeys_partial_cmp_spec() -> bool {
        true
    }

    open spec fn partial_cmp_spec(&self, other: &Version) -> Option<Ordering> {
        Some(compare(self@, other@))
    }
}

/// Whether `s` is in order by the comparison rule.
pub open spec fn is_sorted(s: Seq<Version>) -> bool {
    forall|p: int, q: int|
        0 <= p < q < s.len() ==> compare(#[trigger] s[p]@, #[trigger] s[q]@) != Ordering::Greater
}

/// `out` is an arrangement of `inp` in which versions that compare equal keep
/// their order: position `k` of `out` holds position `idx[k]` of `inp`, no
/// position of `inp` is used twice, and of two equal versions the earlier in
/// `out` came earlier in `inp`.
pub open spec fn is_stable_arrangement(inp: Seq<Version>, out: Seq<Version>, idx: Seq<int>) -> bool {
    &&& out.len() == idx.len()
    &&& forall|k: int| 0 <= k < out.len() ==> 0 <= #[trigger] idx[k] < inp.len() && out[k] == inp[idx[k]]
    &&& forall|k: int, m: int| 0 <= k < m < out.len() ==> #[trigger] idx[k] != #[trigger] idx[m]
    &&& forall|k: int, m: int|
        0 <= k < m < out.len() && compare(#[trigger] out[k]@, #[trigger] out[m]@) == Ordering::Equal
            ==> idx[k] < idx[m]
}

/// Inserting position `n` of `inp` into the sorted arrangement `s` of earlier
/// positions, after those that are not greater than it and before those that
/// are, keeps it sorted and stable.
proof fn lemma_insert_in_order(inp: Seq<Version>, s: Seq<Version>, idx: Seq<int>, p: int, n: int)
    requires
        0 <= n < inp.len(),
        0 <= p <= s.len(),
        is_sorted(s),
        is_stable_arrangement(inp, s, idx),
        forall|k: int| 0 <= k < idx.len() ==> #[trigger] idx[k] < n,
        p > 0 ==> compare(s[p - 1]@, inp[n]@) != Ordering::Greater,
        forall|q: int| p <= q < s.len() ==> compare(#[trigger] s[q]@, inp[n]@) == Ordering::Greater,
    ensures
        is_sorted(s.insert(p, inp[n])),
        is_stable_arrangement(inp, s.insert(p, inp[n]), idx.insert(p, n)),
        forall|k: int| 0 <= k < idx.len() + 1 ==> #[trigger] idx.insert(p, n)[k] < n + 1,
{
    let x = inp[n];
    let t = s.insert(p, x);
    let idx2 = idx.insert(p, n);
    assert forall|m: int, q: int| 0 <= m < q < t.len() implies compare(
        #[trigger] t[m]@,
        #[trigger] t[q]@,
    ) != Ordering::Greater by {
        if q == p && m < p - 1 {
            lemma_compare_transitive(s[m]@, s[p - 1]@, x@);
        } else if m == p {
            lemma_compare_antisymmetric(x@, s[q - 1]@);
        }
    }
    assert forall|m: int, q: int|
        0 <= m < q < t.len() && compare(#[trigger] t[m]@, #[trigger] t[q]@) == Ordering::Equal
            implies idx2[m] < idx2[q] by {
        if m == p {
            lemma_compare_antisymmetric(x@, s[q - 1]@);
        }
    }
}

fn is_greater(o: Ordering) -> (r: bool)
    ensures
        r == (o == Ordering::Greater),
{
    matches!(o, Ordering::Greater)
}

/// Sorts `versions` by the comparison rule, keeping the same versions.
///
/// Each version is inserted after the sorted ones that do not compare greater
/// than it, so versions that compare equal keep the order they came in.
pub fn sort_versions(versions: &mut Vec<Version>)
    ensures
        final(versions)@.to_multiset() == old(versions)@.to_multiset(),
        is_sorted(final(versions)@),
        exists|idx: Seq<int>| is_stable_arrangement(old(versions)@, final(versions)@, idx),
{
    broadcast use vstd::seq_lib::group_to_multiset_ensures, vstd::multiset::group_multiset_axioms;

    let ghost input = versions@;
    let ghost mut idx: Seq<int> = Seq::empty();
    let mut sorted: Vec<Version> = Vec::new();
    assert(sorted@.to_multiset() =~= Multiset::empty());
    assert(versions@ =~= input.subrange(0, input.len() as int));
    while versions.len() > 0
        invariant
            sorted@.to_multiset().add(versions@.to_multiset()) == old(versions)@.to_multiset(),
            is_sorted(sorted@),
            input == old(versions)@,
            versions@.len() <= input.len(),
            versions@ == input.subrange(input.len() - versions@.len(), input.len() as int),
            is_stable_arrangement(input, sorted@, idx),
            forall|k: int| 0 <= k < idx.len() ==> #[trigger] idx[k] < input.len() - versions@.len(),
        decreases versions.len(),
    {
        let ghost rest = versions@;
        let ghost n = input.len() - versions@.len();
        let x = versions.remove(0);
        let mut p = sorted.len();
        while p > 0 && is_greater(sorted[p - 1].cmp(&x))
            invariant
                p <= sorted.len(),
                forall|q: int| p <= q < sorted.len() ==> compare(#[trigger] sorted@[q]@, x@)
                    == Ordering::Greater,
            decreases p,
        {
            p = p - 1;
        }
        let ghost s = sorted@;
        proof {
            assert(rest[0] == input[n]);
            lemma_insert_in_order(input, s, idx, p as int, n);
            idx = idx.insert(p as int, n);
            assert(rest.contains(rest[0]));
            vstd::seq_lib::to_multiset_remove(rest, 0);
            vstd::seq_lib::to_multiset_contains(rest, x);
            vstd::seq_lib::to_multiset_insert(s, p as int, x);
            assert(rest.to_multiset() =~= rest.remove(0).to_multiset().insert(x));
        }
        sorted.insert(p, x);
        assert(versions@ =~= rest.subrange(1, rest.len() as int));
        assert(versions@ =~= input.subrange(n + 1, input.len() as int));
        assert(sorted@.to_multiset().add(versions@.to_multiset()) =~= s.to_multiset().add(
            rest.to_multiset(),
        ));
    }
    assert(versions@.to_multiset() =~= Multiset::empty());
    *versions = sorted;
}

} // verus!
