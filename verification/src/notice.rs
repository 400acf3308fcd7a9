//! The fixed overflow notice.
//!
//! When a producer's write finds the buffer completely full, the sink does not
//! append anything; instead it overwrites the final bytes of the buffer with a
//! fixed marker, so that saturation is visible in the persisted stream itself.
//! The marker is the ASCII text
//! `"\nERROR: logger queue is full, dropping messages\n"`.

use vstd::prelude::*;

verus! {

/// The overflow notice, as the sequence of bytes of the ASCII text
/// `"\nERROR: logger queue is full, dropping messages\n"`.
pub open spec fn overflow_notice() -> Seq<u8> {
    seq![
        10u8, 69, 82, 82, 79, 82, 58, 32, 108, 111, 103, 103, 101, 114, 32, 113, 117, 101, 117,
        101, 32, 105, 115, 32, 102, 117, 108, 108, 44, 32, 100, 114, 111, 112, 112, 105, 110,
        103, 32, 109, 101, 115, 115, 97, 103, 101, 115, 10,
    ]
}

/// Length of the overflow notice in bytes.
pub open spec fn notice_len() -> nat {
    overflow_notice().len()
}

/// The notice is 48 bytes long.
pub proof fn lemma_notice_len()
    ensures
        notice_len() == 48,
{
}

/// The overflow notice as an executable byte vector.
pub fn overflow_notice_bytes() -> (r: Vec<u8>)
    ensures
        r@ == overflow_notice(),
        r@.len() == 48,
{
    let r: Vec<u8> = vec![
        10u8, 69, 82, 82, 79, 82, 58, 32, 108, 111, 103, 103, 101, 114, 32, 113, 117, 101, 117,
        101, 32, 105, 115, 32, 102, 117, 108, 108, 44, 32, 100, 114, 111, 112, 112, 105, 110,
        103, 32, 109, 101, 115, 115, 97, 103, 101, 115, 10,
    ];
    proof {
        assert(r@ =~= overflow_notice());
    }
    r
}

} // verus!
