use vstd::prelude::*;

verus! {

/// `s` is in non-decreasing order.
pub open spec fn sorted(s: Seq<i32>) -> bool {
    forall|a: int, b: int| 0 <= a <= b < s.len() ==> s[a] <= s[b]
}

/// Exchanging two elements keeps the multiset of elements.
proof fn lemma_swap_multiset(s: Seq<i32>, i: int, m: int)
    requires
        0 <= i < s.len(),
        0 <= m < s.len(),
    ensures
        s.update(i, s[m]).update(m, s[i]).to_multiset() =~= s.to_multiset(),
{
    broadcast use vstd::seq_lib::to_multiset_update;
    broadcast use vstd::multiset::group_multiset_axioms;

    let s1 = s.update(i, s[m]);
    if i == m {
        assert(s.update(i, s[m]).update(m, s[i]) =~= s);
    } else {
        assert(s1[m] == s[m]);
        assert(s1.to_multiset() == s.to_multiset().insert(s[m]).remove(s[i]));
        assert(s1.update(m, s[i]).to_multiset() == s1.to_multiset().insert(s[i]).remove(s[m]));
        assert(s.to_multiset().count(s[i]) > 0) by {
            broadcast use vstd::seq_lib::group_to_multiset_ensures;

            assert(s.contains(s[i]));
        }
        assert(s.to_multiset().insert(s[m]).remove(s[i]).insert(s[i]).remove(s[m])
            =~= s.to_multiset());
    }
}

/// Sorts `arr` in place by selection: each round moves the least remaining
/// element to the front of the unsorted part.
pub fn selection_sort(arr: &mut Vec<i32>)
    requires
        old(arr)@.len() > 0,
    ensures
        sorted(final(arr)@),
        final(arr)@.to_multiset() == old(arr)@.to_multiset(),
{
    let len = arr.len();
    let mut i: usize = 0;
    while i <= len - 1
        invariant
            len == arr@.len(),
            len > 0,
            i <= len,
            arr@.to_multiset() == old(arr)@.to_multiset(),
            forall|a: int, b: int| 0 <= a <= b < i ==> arr@[a] <= arr@[b],
            forall|a: int, b: int| 0 <= a < i <= b < len ==> arr@[a] <= arr@[b],
        decreases len - i,
    {
        let mut min = i;
        let mut j = min + 1;
        while j < len
            invariant
                len == arr@.len(),
                i <= min < len,
                i < j <= len,
                forall|k: int| i <= k < j ==> arr@[min as int] <= arr@[k],
            decreases len - j,
        {
            if arr[j] < arr[min] {
                min = j;
            }
            j = j + 1;
        }
        proof {
            lemma_swap_multiset(arr@, i as int, min as int);
        }
        let temp = arr[i];
        let m = arr[min];
        arr[i] = m;
        arr[min] = temp;
        i = i + 1;
    }
}

} // verus!
