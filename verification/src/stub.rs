//! The stub transaction wire format: `DRK_TX_v1\0`, the input count (four bytes, little-endian),
//! the recipient's public key (`32` bytes), and the rest.
use crate::bytes::take32;
use crate::hexcodec::{hex_bytes, hex_decode, is_hex};
use vstd::prelude::*;

verus! {

/// Where the recipient's key stands in a stub transaction.
pub const RECIPIENT_OFFSET: usize = 14;

/// The bytes a stub transaction begins with: `DRK_TX_v1` and a zero byte.
pub open spec fn stub_magic() -> Seq<u8> {
    seq![0x44, 0x52, 0x4b, 0x5f, 0x54, 0x58, 0x5f, 0x76, 0x31, 0x00]
}

/// The recipient a stub transaction names, if it is one and is long enough to name it.
pub open spec fn stub_recipient(raw: Seq<u8>) -> Option<Seq<u8>> {
    if raw.len() >= RECIPIENT_OFFSET + 32 && raw.take(10) == stub_magic() {
        Some(raw.subrange(RECIPIENT_OFFSET as int, RECIPIENT_OFFSET + 32))
    } else {
        None
    }
}

/// Whether a byte string begins with the stub magic.
fn has_stub_magic(raw: &[u8]) -> (found: bool)
    requires
        raw@.len() >= 10,
    ensures
        found == (raw@.take(10) == stub_magic()),
{
    let ghost head = raw@.take(10);
    let found = raw[0] == 0x44 && raw[1] == 0x52 && raw[2] == 0x4b && raw[3] == 0x5f && raw[4]
        == 0x54 && raw[5] == 0x58 && raw[6] == 0x5f && raw[7] == 0x76 && raw[8] == 0x31 && raw[9]
        == 0x00;
    proof {
        assert forall|i: int| 0 <= i < 10 implies head[i] == raw@[i] by {}
        if found {
            assert(head =~= stub_magic());
        } else {
            let m = stub_magic();
            assert(m[0] == 0x44 && m[1] == 0x52 && m[2] == 0x4b && m[3] == 0x5f && m[4] == 0x54
                && m[5] == 0x58 && m[6] == 0x5f && m[7] == 0x76 && m[8] == 0x31 && m[9] == 0x00);
            assert(head[0] != m[0] || head[1] != m[1] || head[2] != m[2] || head[3] != m[3]
                || head[4] != m[4] || head[5] != m[5] || head[6] != m[6] || head[7] != m[7]
                || head[8] != m[8] || head[9] != m[9]);
        }
    }
    found
}

/// Parses the recipient public key from a stub transaction.
pub fn parse_stub_recipient_pubkey(raw_tx: &[u8]) -> (recipient: Option<[u8; 32]>)
    ensures
        match recipient {
            Some(pk) => stub_recipient(raw_tx@) == Some(pk@),
            None => stub_recipient(raw_tx@) is None,
        },
{
    if raw_tx.len() < RECIPIENT_OFFSET + 32 {
        return None;
    }
    if !has_stub_magic(raw_tx) {
        return None;
    }
    Some(take32(raw_tx, RECIPIENT_OFFSET))
}

/// Why a transaction is not broadcast.
#[derive(Debug)]
pub enum BroadcastRefusal {
    /// The text is not hexadecimal.
    InvalidHex(String),
    /// The transaction names no recipient, so that no clue can be made.
    NoRecipient,
}

/// Reads a transaction that is to be broadcast from hexadecimal text, with the recipient it
/// names.
pub fn read_broadcast(text: &str) -> (request: Result<(Vec<u8>, [u8; 32]), BroadcastRefusal>)
    ensures
        match request {
            Ok((raw, recipient)) => {
                &&& is_hex(text@)
                &&& raw@ == hex_bytes(text@)
                &&& stub_recipient(raw@) == Some(recipient@)
            },
            Err(BroadcastRefusal::InvalidHex(_)) => !is_hex(text@),
            Err(BroadcastRefusal::NoRecipient) => is_hex(text@) && stub_recipient(
                hex_bytes(text@),
            ) is None,
        },
{
    match hex_decode(text) {
        Err(e) => Err(BroadcastRefusal::InvalidHex(e)),
        Ok(raw) => match parse_stub_recipient_pubkey(raw.as_slice()) {
            Some(recipient) => Ok((raw, recipient)),
            None => Err(BroadcastRefusal::NoRecipient),
        },
    }
}

/// A stub transaction names the recipient it was written with, whatever the input count before
/// the key and the bytes behind it.
pub proof fn law_stub_names_its_recipient(inputs: Seq<u8>, recipient: Seq<u8>, rest: Seq<u8>)
    requires
        inputs.len() == 4,
        recipient.len() == 32,
    ensures
        stub_recipient(stub_magic() + inputs + recipient + rest) == Some(recipient),
{
    let raw = stub_magic() + inputs + recipient + rest;
    assert(raw.take(10) =~= stub_magic());
    assert(raw.subrange(14, 46) =~= recipient);
}

/// A transaction names a recipient exactly where it begins with the ten bytes of `DRK_TX_v1` and a
/// zero and is long enough, and then it is the `32` bytes behind the input count.
pub proof fn law_stub_format(raw: Seq<u8>)
    ensures
        stub_recipient(raw) is Some <==> {
            &&& raw.len() >= 46
            &&& raw[0] == 'D' as u8 && raw[1] == 'R' as u8 && raw[2] == 'K' as u8 && raw[3]
                == '_' as u8 && raw[4] == 'T' as u8 && raw[5] == 'X' as u8 && raw[6] == '_' as u8
                && raw[7] == 'v' as u8 && raw[8] == '1' as u8 && raw[9] == 0
        },
        stub_recipient(raw) is Some ==> stub_recipient(raw)->0 == raw.subrange(14, 46),
{
    let m = stub_magic();
    assert(m.len() == 10);
    if raw.len() >= 46 {
        let head = raw.take(10);
        assert forall|i: int| 0 <= i < 10 implies head[i] == raw[i] by {}
        if raw[0] == 'D' as u8 && raw[1] == 'R' as u8 && raw[2] == 'K' as u8 && raw[3] == '_' as u8
            && raw[4] == 'T' as u8 && raw[5] == 'X' as u8 && raw[6] == '_' as u8 && raw[7]
            == 'v' as u8 && raw[8] == '1' as u8 && raw[9] == 0 {
            assert(head =~= m);
        }
        if head == m {
            assert(m[0] == 0x44 && m[1] == 0x52 && m[2] == 0x4b && m[3] == 0x5f && m[4] == 0x54
                && m[5] == 0x58 && m[6] == 0x5f && m[7] == 0x76 && m[8] == 0x31 && m[9] == 0x00);
        }
    }
}

} // verus!
