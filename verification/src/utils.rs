use vstd::prelude::*;

use crate::enr::Enr;

verus! {

/// The portal client string of a record, or `?`.
pub fn get_client_info(peer: &Enr) -> (r: String)
    ensures
        r@ == match peer@.client {
            Some(c) => c,
            None => "?"@,
        },
{
    match &peer.client {
        Some(c) => c.clone(),
        None => "?".to_string(),
    }
}

/// The 32-byte block hashes stored back to back in a byte string; a
/// shorter piece at the end is left out.
pub fn block_hashes_from_bytes(bytes: &Vec<u8>) -> (r: Vec<[u8; 32]>)
    ensures
        r@.len() == bytes@.len() / 32,
        forall|k: int, j: int|
            0 <= k < r@.len() && 0 <= j < 32 ==> #[trigger] r@[k]@[j] == bytes@[32 * k + j],
{
    let total = bytes.len();
    let n = total / 32;
    let mut out: Vec<[u8; 32]> = Vec::new();
    let mut k: usize = 0;
    while k < n
        invariant
            total == bytes@.len(),
            n == bytes@.len() / 32,
            0 <= k <= n,
            out@.len() == k,
            forall|a: int, j: int|
                0 <= a < k && 0 <= j < 32 ==> #[trigger] out@[a]@[j] == bytes@[32 * a + j],
        decreases n - k,
    {
        let mut hash = [0u8; 32];
        let mut j: usize = 0;
        while j < 32
            invariant
                0 <= k < n,
                total == bytes@.len(),
                n == bytes@.len() / 32,
                0 <= j <= 32,
                hash@.len() == 32,
                forall|t: int| 0 <= t < j ==> #[trigger] hash@[t] == bytes@[32 * k + t],
            decreases 32 - j,
        {
            assert(32 * k + j < bytes@.len()) by (nonlinear_arith)
                requires
                    k < n,
                    n == bytes@.len() / 32,
                    j < 32,
            ;
            let base: usize = 32 * k;
            hash[j] = bytes[base + j];
            j = j + 1;
        }
        out.push(hash);
        k = k + 1;
    }
    out
}

} // verus!
