use vstd::prelude::*;

verus! {

/// Both slices hold the same zero-terminated string, terminator included,
/// within their common length.
pub open spec fn terminated_equal(a: Seq<u8>, b: Seq<u8>) -> bool {
    exists|k: int|
        0 <= k < a.len() && k < b.len() && a[k] == 0 && #[trigger] a.take(k + 1) == b.take(k + 1)
}

/// Compares two zero-terminated byte strings. A string with no terminator
/// inside the common length of the two slices matches nothing.
pub fn u8_str_equal(a: &[u8], b: &[u8]) -> (r: bool)
    ensures
        r == terminated_equal(a@, b@),
{
    let len: usize = if a.len() < b.len() {
        a.len()
    } else {
        b.len()
    };
    let mut i: usize = 0;
    while i < len
        invariant
            len <= a@.len(),
            len <= b@.len(),
            i <= len,
            len == a@.len() || len == b@.len(),
            forall|j: int| 0 <= j < i ==> a@[j] == b@[j] && a@[j] != 0,
        decreases len - i,
    {
        if a[i] != b[i] {
            proof {
                if terminated_equal(a@, b@) {
                    let k = choose|k: int|
                        0 <= k < a@.len() && k < b@.len() && a@[k] == 0 && #[trigger] a@.take(
                            k + 1,
                        ) == b@.take(k + 1);
                    assert(a@.take(k + 1)[i as int] == b@.take(k + 1)[i as int]);
                }
            }
            return false;
        }
        if a[i] == 0 {
            proof {
                assert(a@.take(i + 1) =~= b@.take(i + 1));
            }
            return true;
        }
        i = i + 1;
    }
    proof {
        if terminated_equal(a@, b@) {
            let k = choose|k: int|
                0 <= k < a@.len() && k < b@.len() && a@[k] == 0 && #[trigger] a@.take(k + 1)
                    == b@.take(k + 1);
            assert(a@[k] != 0);
        }
    }
    false
}

} // verus!
