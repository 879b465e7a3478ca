//! Label payload writer. A label is an opaque byte payload computed by an
//! external tag classifier; it is copied verbatim to the tail of a record,
//! with no length prefix — the end of the enclosing record delimits it.
use vstd::prelude::*;

verus! {

/// Copies the label bytes into `buf` starting at `offset`; returns the
/// number of bytes written and leaves every other byte as it was.
pub fn encode_with_offset(label: &Vec<u8>, buf: &mut Vec<u8>, offset: usize) -> (n: usize)
    requires
        offset + label@.len() <= old(buf)@.len(),
    ensures
        n == label@.len(),
        final(buf)@.len() == old(buf)@.len(),
        final(buf)@.subrange(offset as int, offset + n) == label@,
        forall|k: int|
            0 <= k < old(buf)@.len() && !(offset <= k < offset + n) ==> final(buf)@[k] == old(
                buf,
            )@[k],
{
    let ghost buf0 = old(buf)@;
    let blen: usize = buf.len();
    let mut i: usize = 0;
    while i < label.len()
        invariant
            i <= label@.len(),
            offset + label@.len() <= buf@.len(),
            buf@.len() == blen,
            buf@.len() == buf0.len(),
            buf@.subrange(offset as int, offset + i) == label@.subrange(0, i as int),
            forall|k: int| 0 <= k < buf0.len() && !(offset <= k < offset + i) ==> buf@[k] == buf0[k],
        decreases label@.len() - i,
    {
        let ghost pre = buf@;
        buf[offset + i] = label[i];
        proof {
            assert(buf@.subrange(offset as int, offset + i + 1) =~= pre.subrange(
                offset as int,
                offset + i,
            ).push(label@[i as int]));
            assert(label@.subrange(0, i + 1) =~= label@.subrange(0, i as int).push(
                label@[i as int],
            ));
        }
        i = i + 1;
    }
    proof {
        assert(label@.subrange(0, label@.len() as int) =~= label@);
    }
    i
}

} // verus!
