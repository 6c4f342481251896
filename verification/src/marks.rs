//! Membership in a list of marked keys.
use vstd::prelude::*;

verus! {

/// A list no longer than this is searched from end to end; a longer one is
/// sorted first. Retiring one son at a time should not pay for a sort, and
/// retiring a thousand at once should not be quadratic.
const LINEAR: usize = 8;

/// A set of keys to look others up in.
pub struct Marks {
    keys: Vec<usize>,
}

/// `<[usize]>::sort_unstable` of the standard library: the values are the same
/// as before, and they are in ascending order.
#[verifier::external_body]
fn sort_unstable(keys: &mut Vec<usize>)
    ensures
        final(keys)@.to_multiset() == old(keys)@.to_multiset(),
        forall|i: int, j: int| 0 <= i <= j < final(keys)@.len() ==> final(keys)@[i] <= final(keys)@[j],
{
    keys.sort_unstable();
}

impl Marks {
    /// `key` is marked.
    pub closed spec fn has(self, key: usize) -> bool {
        self.keys@.contains(key)
    }

    #[verifier::type_invariant]
    spec fn searchable(self) -> bool {
        self.keys@.len() > LINEAR ==> forall|i: int, j: int|
            0 <= i <= j < self.keys@.len() ==> self.keys@[i] <= self.keys@[j]
    }

    /// Marks the given keys, and no others.
    pub fn new(keys: Vec<usize>) -> (marks: Marks)
        ensures
            forall|key: usize| #[trigger] marks.has(key) == keys@.contains(key),
    {
        let ghost given = keys@;
        let mut keys = keys;
        if keys.len() > LINEAR {
            sort_unstable(&mut keys);
            proof {
                broadcast use vstd::seq_lib::group_to_multiset_ensures;

                assert forall|key: usize| keys@.contains(key) == given.contains(key) by {
                    assert(keys@.contains(key) <==> keys@.to_multiset().count(key) > 0);
                    assert(given.contains(key) <==> given.to_multiset().count(key) > 0);
                }
            }
        }
        Marks { keys }
    }

    /// Whether `key` is marked.
    pub fn contains(&self, key: usize) -> (found: bool)
        ensures
            found == self.has(key),
    {
        proof {
            use_type_invariant(self);
        }
        if self.keys.len() > LINEAR {
            let mut low: usize = 0;
            let mut high: usize = self.keys.len();
            while low < high
                invariant
                    low <= high <= self.keys@.len(),
                    forall|i: int, j: int|
                        0 <= i <= j < self.keys@.len() ==> self.keys@[i] <= self.keys@[j],
                    forall|i: int| 0 <= i < low ==> self.keys@[i] < key,
                    forall|i: int| high <= i < self.keys@.len() ==> self.keys@[i] > key,
                decreases high - low,
            {
                let middle: usize = low + (high - low) / 2;
                let here: usize = self.keys[middle];
                if here == key {
                    return true;
                }
                if here < key {
                    low = middle + 1;
                } else {
                    high = middle;
                }
            }
            false
        } else {
            let mut i: usize = 0;
            while i < self.keys.len()
                invariant
                    i <= self.keys@.len(),
                    forall|j: int| 0 <= j < i ==> self.keys@[j] != key,
                decreases self.keys@.len() - i,
            {
                if self.keys[i] == key {
                    return true;
                }
                i = i + 1;
            }
            false
        }
    }
}

} // verus!
