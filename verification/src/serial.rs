//! Length-prefixed byte strings, by way of the `darkfi_serial` crate.
use darkfi_serial::Decodable;
use vstd::prelude::*;

verus! {

/// The lowest `k` bytes of a number, the least first.
pub open spec fn le_bytes(n: nat, k: nat) -> Seq<u8>
    decreases k,
{
    if k == 0 {
        Seq::empty()
    } else {
        seq![(n % 256) as u8] + le_bytes(n / 256, (k - 1) as nat)
    }
}

/// A length in one byte, or in two, four or eight behind a byte that says so: the shortest form
/// that holds it.
pub open spec fn varint(n: nat) -> Seq<u8> {
    if n <= 0xfc {
        seq![n as u8]
    } else if n <= 0xffff {
        seq![0xfdu8] + le_bytes(n, 2)
    } else if n <= 0xffff_ffff {
        seq![0xfeu8] + le_bytes(n, 4)
    } else {
        seq![0xffu8] + le_bytes(n, 8)
    }
}

/// A byte string behind its length.
pub open spec fn blob(bytes: Seq<u8>) -> Seq<u8> {
    varint(bytes.len()) + bytes
}

/// `bytes` begins with the encoding of `content`.
pub open spec fn fronted_by(bytes: Seq<u8>, content: Seq<u8>) -> bool {
    blob(content).is_prefix_of(bytes)
}

/// Calls `darkfi_serial::serialize` on a byte vector, which writes the number of bytes in the
/// shortest form and the bytes behind it.
#[verifier::external_body]
pub(crate) fn serialize_bytes(bytes: &Vec<u8>) -> (out: Vec<u8>)
    ensures
        out@ == blob(bytes@),
{
    darkfi_serial::serialize(bytes)
}

/// Calls `darkfi_serial::serialize` on a 64-bit number, which writes its eight bytes, the least
/// first.
#[verifier::external_body]
pub(crate) fn serialize_u64(n: u64) -> (out: Vec<u8>)
    ensures
        out@ == le_bytes(n as nat, 8),
{
    darkfi_serial::serialize(&n)
}

/// Calls `Vec::<u8>::decode` of `darkfi_serial`, which reads a number of bytes in its shortest
/// form and that many bytes, and leaves the rest unread. A number in a longer form, and fewer
/// bytes than it says, are refused. (That memory for the bytes can be had is taken for granted.)
#[verifier::external_body]
pub(crate) fn decode_bytes(bytes: &[u8]) -> (content: Option<Vec<u8>>)
    ensures
        match content {
            Some(c) => fronted_by(bytes@, c@),
            None => forall|c: Seq<u8>| !fronted_by(bytes@, c),
        },
{
    Vec::<u8>::decode(&mut std::io::Cursor::new(bytes)).ok()
}

pub proof fn lemma_le_bytes(n: nat, k: nat)
    ensures
        le_bytes(n, k).len() == k,
    decreases k,
{
    if k > 0 {
        lemma_le_bytes(n / 256, (k - 1) as nat);
    }
}

/// The bytes of a number give the number back.
pub proof fn law_le_bytes_read_back(n: nat, k: nat)
    requires
        n < vstd::arithmetic::power::pow(256, k),
    ensures
        le_bytes(n, k).len() == k,
        crate::field::le_value(le_bytes(n, k)) == n,
    decreases k,
{
    reveal(vstd::arithmetic::power::pow);
    lemma_le_bytes(n, k);
    if k > 0 {
        let j = (k - 1) as nat;
        let p = vstd::arithmetic::power::pow(256, j);
        assert(n / 256 < p) by (nonlinear_arith)
            requires
                n < 256 * p,
        ;
        law_le_bytes_read_back(n / 256, j);
        assert(le_bytes(n, k).skip(1) =~= le_bytes(n / 256, j));
    }
}

proof fn lemma_le_bytes_differ(m: nat, n: nat, k: nat)
    requires
        le_bytes(m, k) == le_bytes(n, k),
        m < vstd::arithmetic::power::pow(256, k),
        n < vstd::arithmetic::power::pow(256, k),
    ensures
        m == n,
{
    law_le_bytes_read_back(m, k);
    law_le_bytes_read_back(n, k);
}

/// A byte string begins with the encoding of one content at most.
pub proof fn lemma_one_front(bytes: Seq<u8>, a: Seq<u8>, b: Seq<u8>)
    requires
        fronted_by(bytes, a),
        fronted_by(bytes, b),
        a.len() <= u64::MAX,
        b.len() <= u64::MAX,
    ensures
        a == b,
{
    let va = varint(a.len());
    let vb = varint(b.len());
    lemma_le_bytes(a.len(), 2);
    lemma_le_bytes(a.len(), 4);
    lemma_le_bytes(a.len(), 8);
    lemma_le_bytes(b.len(), 2);
    lemma_le_bytes(b.len(), 4);
    lemma_le_bytes(b.len(), 8);
    assert(bytes[0] == va[0]) by {
        assert(blob(a)[0] == va[0]);
    }
    assert(bytes[0] == vb[0]) by {
        assert(blob(b)[0] == vb[0]);
    }
    assert(va.len() == vb.len());
    assert(bytes.take(va.len() as int) =~= va) by {
        assert forall|i: int| 0 <= i < va.len() implies bytes[i] == #[trigger] va[i] by {
            assert(blob(a)[i] == va[i]);
        }
    }
    assert(bytes.take(vb.len() as int) =~= vb) by {
        assert forall|i: int| 0 <= i < vb.len() implies bytes[i] == #[trigger] vb[i] by {
            assert(blob(b)[i] == vb[i]);
        }
    }
    assert(a.len() == b.len()) by {
        reveal_with_fuel(vstd::arithmetic::power::pow, 9);
        if a.len() > 0xfc {
            let k = (va.len() - 1) as nat;
            assert(va.skip(1) =~= le_bytes(a.len(), k));
            assert(vb.skip(1) =~= le_bytes(b.len(), k));
            assert(vstd::arithmetic::power::pow(256, 2) == 0x10000);
            assert(vstd::arithmetic::power::pow(256, 4) == 0x1_0000_0000);
            assert(vstd::arithmetic::power::pow(256, 8) == 0x1_0000_0000_0000_0000);
            lemma_le_bytes_differ(a.len(), b.len(), k);
        }
    }
    let n = va.len() as int;
    assert forall|i: int| 0 <= i < a.len() implies a[i] == b[i] by {
        assert(blob(a)[n + i] == a[i]);
        assert(blob(b)[n + i] == b[i]);
        assert(bytes[n + i] == blob(a)[n + i]);
        assert(bytes[n + i] == blob(b)[n + i]);
    }
    assert(a =~= b);
}

/// What was written behind its length is read back, whatever follows it.
pub proof fn law_blob_reads_back(content: Seq<u8>, rest: Seq<u8>, read: Seq<u8>)
    requires
        content.len() <= u64::MAX,
        read.len() <= u64::MAX,
        fronted_by(blob(content) + rest, read),
    ensures
        read == content,
{
    lemma_one_front(blob(content) + rest, read, content);
}

/// A length takes one byte up to `252`, and else a mark and two, four or eight bytes, as few as
/// hold it.
pub proof fn law_length_forms(n: nat)
    requires
        n <= u64::MAX,
    ensures
        n <= 252 ==> varint(n) == seq![n as u8],
        252 < n <= 0xffff ==> varint(n).len() == 3 && varint(n)[0] == 253 && crate::field::le_value(
            varint(n).skip(1),
        ) == n,
        0xffff < n <= 0xffff_ffff ==> varint(n).len() == 5 && varint(n)[0] == 254
            && crate::field::le_value(varint(n).skip(1)) == n,
        0xffff_ffff < n ==> varint(n).len() == 9 && varint(n)[0] == 255 && crate::field::le_value(
            varint(n).skip(1),
        ) == n,
{
    reveal_with_fuel(vstd::arithmetic::power::pow, 9);
    assert(vstd::arithmetic::power::pow(256, 2) == 0x10000);
    assert(vstd::arithmetic::power::pow(256, 4) == 0x1_0000_0000);
    assert(vstd::arithmetic::power::pow(256, 8) == 0x1_0000_0000_0000_0000);
    if 252 < n <= 0xffff {
        law_le_bytes_read_back(n, 2);
        assert(varint(n).skip(1) =~= le_bytes(n, 2));
    } else if 0xffff < n <= 0xffff_ffff {
        law_le_bytes_read_back(n, 4);
        assert(varint(n).skip(1) =~= le_bytes(n, 4));
    } else if n > 0xffff_ffff {
        law_le_bytes_read_back(n, 8);
        assert(varint(n).skip(1) =~= le_bytes(n, 8));
    }
}

/// A byte string is written behind its length, and stands at the front of whatever begins so.
pub proof fn law_blob_parts(bytes: Seq<u8>, content: Seq<u8>, rest: Seq<u8>)
    ensures
        blob(content) == varint(content.len()) + content,
        fronted_by(varint(content.len()) + content + rest, content),
        fronted_by(bytes, content) ==> exists|r: Seq<u8>| bytes == #[trigger] (varint(content.len())
            + content + r),
{
    let front = varint(content.len()) + content;
    assert(front.is_prefix_of(front + rest));
    if fronted_by(bytes, content) {
        let r = bytes.skip(front.len() as int);
        assert(bytes =~= front + r);
    }
}

} // verus!
