use vstd::prelude::*;
use vstd::std_specs::btree::increasing_seq;
use vstd::std_specs::cmp::OrdSpec;

verus! {

/// In a sequence of numbers that `BTreeMap` reports increasing, an earlier
/// number is smaller.
pub proof fn lemma_increasing_usize(s: Seq<usize>, a: int, b: int)
    requires
        increasing_seq(s),
        0 <= a < b < s.len(),
    ensures
        s[a] < s[b],
{
    broadcast use vstd::std_specs::btree::axiom_increasing_seq_meaning;

    assert(s[a].cmp_spec(&s[b]) is Less);
}

} // verus!
