//! Fixed-size views of byte strings.
use vstd::prelude::*;

verus! {

/// The `32` bytes of `bytes` from `from` on.
pub fn take32(bytes: &[u8], from: usize) -> (out: [u8; 32])
    requires
        from + 32 <= bytes@.len(),
    ensures
        out@ == bytes@.subrange(from as int, from + 32),
{
    let mut out: [u8; 32] = [0u8;32];
    let mut i: usize = 0;
    let n: usize = bytes.len();
    while i < 32
        invariant
            i <= 32,
            from + 32 <= n,
            n == bytes@.len(),
            forall|j: int| 0 <= j < i ==> out@[j] == bytes@[from + j],
        decreases 32 - i,
    {
        out[i] = bytes[from + i];
        i += 1;
    }
    assert(out@ =~= bytes@.subrange(from as int, from + 32));
    out
}

/// The bytes as exactly `32`, if they are that many.
pub fn exactly32(bytes: &[u8]) -> (out: Option<[u8; 32]>)
    ensures
        match out {
            Some(a) => bytes@.len() == 32 && a@ == bytes@,
            None => bytes@.len() != 32,
        },
{
    if bytes.len() == 32 {
        let a = take32(bytes, 0);
        assert(a@ =~= bytes@);
        Some(a)
    } else {
        None
    }
}

/// What byte strings hold.
pub open spec fn byte_views(v: Seq<Vec<u8>>) -> Seq<Seq<u8>> {
    Seq::new(v.len(), |i: int| v[i]@)
}

/// A copy of a byte string.
pub fn copy_bytes(bytes: &[u8]) -> (out: Vec<u8>)
    ensures
        out@ == bytes@,
{
    let mut out: Vec<u8> = Vec::new();
    let mut i: usize = 0;
    while i < bytes.len()
        invariant
            i <= bytes.len(),
            out@ == bytes@.take(i as int),
        decreases bytes.len() - i,
    {
        out.push(bytes[i]);
        assert(bytes@.take(i as int).push(bytes@[i as int]) =~= bytes@.take(i as int + 1));
        i += 1;
    }
    assert(bytes@.take(i as int) =~= bytes@);
    out
}

/// Appends `more` to `out`.
pub fn append_bytes(out: &mut Vec<u8>, more: &[u8])
    ensures
        final(out)@ == old(out)@ + more@,
{
    let mut i: usize = 0;
    assert(out@ =~= old(out)@ + more@.take(0));
    while i < more.len()
        invariant
            i <= more.len(),
            out@ == old(out)@ + more@.take(i as int),
        decreases more.len() - i,
    {
        out.push(more[i]);
        assert(out@ =~= old(out)@ + more@.take(i as int + 1));
        i += 1;
    }
    assert(more@.take(i as int) =~= more@);
}

/// What byte strings hold, one by one.
pub proof fn law_byte_views(v: Seq<Vec<u8>>, i: int)
    ensures
        byte_views(v).len() == v.len(),
        0 <= i < v.len() ==> byte_views(v)[i] == v[i]@,
{
}

} // verus!
