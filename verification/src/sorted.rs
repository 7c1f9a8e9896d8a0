//! Sets of integer keys, kept as strictly increasing vectors.

use vstd::prelude::*;

verus! {

/// Keys strictly increasing: sorted and none twice.
pub open spec fn increasing(keys: Seq<u32>) -> bool {
    forall|i: int, j: int| 0 <= i < j < keys.len() ==> keys[i] < keys[j]
}

/// The first position of `keys` whose key is not below `key`.
pub fn lower_bound(keys: &Vec<u32>, key: u32) -> (at: usize)
    requires
        increasing(keys@),
    ensures
        at <= keys@.len(),
        forall|i: int| 0 <= i < at ==> keys@[i] < key,
        forall|i: int| at <= i < keys@.len() ==> keys@[i] >= key,
{
    let mut lo: usize = 0;
    let mut hi: usize = keys.len();
    while lo < hi
        invariant
            increasing(keys@),
            lo <= hi <= keys@.len(),
            forall|i: int| 0 <= i < lo ==> keys@[i] < key,
            forall|i: int| hi <= i < keys@.len() ==> keys@[i] >= key,
        decreases hi - lo,
    {
        let mid = lo + (hi - lo) / 2;
        if keys[mid] < key {
            lo = mid + 1;
        } else {
            hi = mid;
        }
    }
    lo
}

/// Adds `key` to the set `keys`.
pub fn insert(keys: &mut Vec<u32>, key: u32)
    requires
        increasing(old(keys)@),
    ensures
        increasing(final(keys)@),
        forall|k: u32| final(keys)@.contains(k) <==> (old(keys)@.contains(k) || k == key),
{
    let n = keys.len();
    if n == 0 || keys[n - 1] < key {
        keys.push(key);
        proof {
            let before = old(keys)@;
            let after = keys@;
            assert forall|k: u32| after.contains(k) <==> (before.contains(k) || k == key) by {
                if before.contains(k) {
                    let i = choose|i: int| 0 <= i < before.len() && before[i] == k;
                    assert(after[i] == k);
                }
                if k == key {
                    assert(after[n as int] == k);
                }
                if after.contains(k) {
                    let i = choose|i: int| 0 <= i < after.len() && after[i] == k;
                    if i < n {
                        assert(before[i] == k);
                    }
                }
            }
        }
        return ;
    }
    let at = lower_bound(keys, key);
    if keys[at] == key {
        proof {
            assert(keys@.contains(key));
        }
        return ;
    }
    keys.insert(at, key);
    proof {
        let before = old(keys)@;
        let after = keys@;
        assert(after == before.insert(at as int, key));
        assert forall|i: int, j: int| 0 <= i < j < after.len() implies after[i] < after[j] by {
            let x = if i < at {
                before[i]
            } else if i == at {
                key
            } else {
                before[i - 1]
            };
            let y = if j < at {
                before[j]
            } else if j == at {
                key
            } else {
                before[j - 1]
            };
            assert(after[i] == x);
            assert(after[j] == y);
        }
        assert forall|k: u32| after.contains(k) <==> (before.contains(k) || k == key) by {
            if before.contains(k) {
                let i = choose|i: int| 0 <= i < before.len() && before[i] == k;
                if i < at {
                    assert(after[i] == k);
                } else {
                    assert(after[i + 1] == k);
                }
            }
            if k == key {
                assert(after[at as int] == k);
            }
            if after.contains(k) {
                let i = choose|i: int| 0 <= i < after.len() && after[i] == k;
                if i < at {
                    assert(before[i] == k);
                } else if i > at {
                    assert(before[i - 1] == k);
                }
            }
        }
    }
}

} // verus!
