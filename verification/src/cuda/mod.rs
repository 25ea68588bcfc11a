//! The device side of the prover: what runs on a CUDA device, in what order, and
//! when the host takes over.
//!
//! Two backends, both with a host counterpart that they fall back to when no
//! device is available or a device call fails: [`dft`] transforms the columns of
//! a matrix, [`merkle`] builds the digest layers of a Merkle tree, and [`mmcs`] is
//! the host side of that tree. The device calls themselves are made outside this
//! library, which plans them and decides on their results.

pub mod buffer;
pub mod dft;
pub mod merkle;
pub mod mmcs;
pub mod roots;

use vstd::prelude::*;
use vstd::string::*;

verus! {

/// The status code of a device call that succeeded.
pub const CUDART_OK: i32 = 0;

/// Whether a usable CUDA device is present, given the number of devices visible
/// to this process (0 if CUDA is unusable or not built in).
pub fn cuda_available(device_count: i32) -> (r: bool)
    ensures
        r == (device_count > 0),
{
    device_count > 0
}

/// Whether two texts are equal.
fn same_text(a: &str, b: &str) -> (r: bool)
    ensures
        r == (a@ == b@),
{
    let n: usize = a.unicode_len();
    if n != b.unicode_len() {
        return false;
    }
    for i in 0..n
        invariant
            n == a@.len() == b@.len(),
            forall|k: int| 0 <= k < i ==> #[trigger] a@[k] == b@[k],
    {
        if a.get_char(i) != b.get_char(i) {
            return false;
        }
    }
    assert(a@ =~= b@);
    true
}

/// Whether the device engines should be used for this process, given the value
/// of the `ZKIE_CUDA` variable, if it is set: they are opt-in.
pub fn use_cuda(variable: Option<&str>) -> (r: bool)
    ensures
        r == (match variable {
            None => false,
            Some(v) => v@ == "1"@ || v@ == "true"@,
        }),
{
    match variable {
        None => false,
        Some(v) => same_text(v, "1") || same_text(v, "true"),
    }
}

} // verus!
