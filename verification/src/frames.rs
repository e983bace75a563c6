//! Frame transport encoding: each captured monitor frame, already serialized
//! as PNG bytes, is carried in the inference request as standard base-64
//! text.

use vstd::prelude::*;
use base64::Engine;

verus! {

/// What standard base-64 (RFC 4648, with padding, no line wrapping) makes of
/// a byte sequence.
pub uninterp spec fn base64_std_of(bytes: Seq<u8>) -> Seq<char>;

/// Relies on `base64::engine::general_purpose::STANDARD`'s `encode`:
/// standard base-64 with padding, four output characters for every three
/// input bytes begun; it panics only when that output length overflows.
#[verifier::external_body]
fn base64_encode(bytes: &Vec<u8>) -> (r: String)
    requires
        4 * ((bytes@.len() + 2) as int / 3) <= usize::MAX as int,
    ensures
        r@ == base64_std_of(bytes@),
        r@.len() == 4 * ((bytes@.len() + 2) as int / 3),
{
    base64::engine::general_purpose::STANDARD.encode(bytes.as_slice())
}

/// Encodes every captured frame: one base-64 text per frame, in capture
/// order.
pub fn encode_frames(frames: &Vec<Vec<u8>>) -> (r: Vec<String>)
    requires
        forall|i: int| 0 <= i < frames@.len()
            ==> 4 * ((frames@[i]@.len() + 2) as int / 3) <= usize::MAX as int,
    ensures
        r@.len() == frames@.len(),
        forall|i: int| 0 <= i < frames@.len() ==> r@[i]@ == base64_std_of(frames@[i]@),
{
    let mut out: Vec<String> = Vec::new();
    let n = frames.len();
    let mut i: usize = 0;
    while i < n
        invariant
            n == frames@.len(),
            i <= n,
            out@.len() == i,
            forall|k: int| 0 <= k < frames@.len()
                ==> 4 * ((frames@[k]@.len() + 2) as int / 3) <= usize::MAX as int,
            forall|k: int| 0 <= k < i ==> out@[k]@ == base64_std_of(frames@[k]@),
        decreases n - i,
    {
        let ghost out0 = out@;
        let e = base64_encode(&frames[i]);
        out.push(e);
        proof {
            assert(out@ == out0.push(e));
            assert(forall|k: int| 0 <= k < i ==> out@[k] == out0[k]);
        }
        i = i + 1;
    }
    out
}

} // verus!
