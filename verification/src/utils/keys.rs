use vstd::prelude::*;

use crate::state::Pubkey;

verus! {

/// The address that stands for "none": 32 zero bytes.
pub open spec fn is_default_key(key: Pubkey) -> bool {
    forall|i: int| 0 <= i < 32 ==> key@[i] == 0
}

/// Whether two addresses are the same.
pub fn same_key(a: &Pubkey, b: &Pubkey) -> (same: bool)
    ensures
        same == (*a == *b),
{
    let mut i: usize = 0;
    while i < 32
        invariant
            i <= 32,
            forall|j: int| 0 <= j < i ==> a@[j] == b@[j],
        decreases 32 - i,
    {
        if a[i] != b[i] {
            return false;
        }
        i += 1;
    }
    assert(*a =~= *b);
    true
}

/// Whether `key` is the address that stands for "none".
pub fn is_default(key: &Pubkey) -> (none: bool)
    ensures
        none == is_default_key(*key),
{
    let mut i: usize = 0;
    while i < 32
        invariant
            i <= 32,
            forall|j: int| 0 <= j < i ==> key@[j] == 0,
        decreases 32 - i,
    {
        if key[i] != 0 {
            return false;
        }
        i += 1;
    }
    true
}

} // verus!
