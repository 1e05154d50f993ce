//! Splitting byte buffers into fixed-size words.
use vstd::prelude::*;

verus! {

/// The bytes in groups of four, in order; the length must be a multiple of four.
pub fn chunks_4(barry: &Vec<u8>) -> (chunks: Vec<[u8; 4]>)
    requires
        barry@.len() % 4 == 0,
    ensures
        chunks@.len() == barry@.len() / 4,
        forall|i: int| 0 <= i < chunks@.len() ==> (#[trigger] chunks@[i])@ == barry@.subrange(4 * i, 4 * i + 4),
{
    let mut chunks: Vec<[u8; 4]> = Vec::new();
    let length = barry.len();
    let mut i: usize = 0;
    while i < length
        invariant
            length == barry@.len(),
            length % 4 == 0,
            i % 4 == 0,
            i <= length,
            chunks@.len() == i / 4,
            forall|q: int| 0 <= q < chunks@.len() ==> (#[trigger] chunks@[q])@ == barry@.subrange(4 * q, 4 * q + 4),
        decreases length - i,
    {
        let array: [u8; 4] = [barry[i], barry[i + 1], barry[i + 2], barry[i + 3]];
        assert(array@ =~= barry@.subrange(i as int, i + 4));
        chunks.push(array);
        i = i + 4;
    }
    chunks
}

} // verus!
