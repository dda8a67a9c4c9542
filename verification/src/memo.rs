//! Payment memos and the metadata that travels to the recipient.
//!
//! A memo is a header of three bytes (magic, scheme, flags), a clue seed, and the user's text
//! behind its length. The seed is a keyed hash over the recipient's key.
use crate::bytes::append_bytes;
use crate::db::rows::opt_str;
use crate::serial::{blob, decode_bytes, fronted_by, serialize_bytes};
use crate::text::{append_decimal, decimal, trim, trimmed};
use vstd::prelude::*;
use vstd::utf8::{encode_utf8, encode_utf8_decode_utf8};

verus! {

/// The first byte of a memo.
pub const OMR_MEMO_MAGIC: u8 = 0x4F;

/// The identifier of the UnifOMR scheme.
pub const SCHEME_UNIFOMR: u8 = 0x05;

/// The most bytes a user's text may have.
pub const MAX_PAYMENT_MEMO_BYTES: usize = 255;

/// The length below which no encrypted metadata can be.
pub const MIN_ENCRYPTED_METADATA: usize = 48;

/// What the clue seed is bound to, besides key, recipient and scheme.
pub const CLUE_DOMAIN: &'static str = "DarkFi-OMR-TxClue-v1";

/// The BLAKE3 keyed hash of `input` under `key`.
pub uninterp spec fn blake3_keyed_hash(key: Seq<u8>, input: Seq<u8>) -> Seq<u8>;

/// Calls `blake3::keyed_hash`, a function of the key and the input alone, which takes any input.
#[verifier::external_body]
pub(crate) fn keyed_hash(key: &[u8; 32], input: &[u8]) -> (hash: [u8; 32])
    ensures
        hash@ == blake3_keyed_hash(key@, input@),
{
    blake3::keyed_hash(key, input).into()
}

/// The clue seed of a payment.
pub open spec fn clue_seed(sender_secret: Seq<u8>, recipient: Seq<u8>, scheme: u8) -> Seq<u8> {
    blake3_keyed_hash(sender_secret, clue_input(recipient, scheme))
}

/// What the clue seed of a payment is the hash of.
pub open spec fn clue_input(recipient: Seq<u8>, scheme: u8) -> Seq<u8> {
    recipient + encode_utf8(CLUE_DOMAIN@) + seq![scheme]
}

/// The text a user meant: what they gave without surrounding white space, if anything is left.
pub open spec fn meant_text(user_memo: Option<Seq<char>>) -> Option<Seq<char>> {
    match user_memo {
        Some(m) if trimmed(m).len() > 0 => Some(trimmed(m)),
        _ => None,
    }
}

/// The flags: `1` for a memo with text, `2` for the UnifOMR scheme.
pub open spec fn memo_flags(has_text: bool, scheme: u8) -> u8 {
    if has_text && scheme == SCHEME_UNIFOMR {
        3
    } else if has_text {
        1
    } else if scheme == SCHEME_UNIFOMR {
        2
    } else {
        0
    }
}

/// The memo with this seed, text and scheme.
pub open spec fn memo_bytes(seed: Seq<u8>, text: Option<Seq<char>>, scheme: u8) -> Seq<u8> {
    seq![OMR_MEMO_MAGIC, scheme, memo_flags(text is Some, scheme)] + seed + match text {
        Some(t) => seq![encode_utf8(t).len() as u8] + encode_utf8(t),
        None => seq![0u8],
    }
}

/// A text fits into a memo.
pub open spec fn text_fits(text: Option<Seq<char>>) -> bool {
    text matches Some(t) ==> encode_utf8(t).len() <= MAX_PAYMENT_MEMO_BYTES
}

/// Why a text was refused.
pub open spec fn too_long_message(length: nat) -> Seq<char> {
    "memo exceeds 255 bytes (UTF-8 length "@ + decimal(length) + ")"@
}

/// The scheme of a payment: UnifOMR where none is named.
pub open spec fn scheme_or_default(scheme: Option<u8>) -> u8 {
    match scheme {
        Some(s) => s,
        None => SCHEME_UNIFOMR,
    }
}

/// Assembles a memo from its parts.
pub fn assemble_omr_memo(clue_seed: &[u8; 32], user_memo: Option<&str>, scheme: u8) -> (memo:
    Result<Vec<u8>, String>)
    ensures
        match memo {
            Ok(m) => text_fits(meant_text(opt_str(user_memo))) && m@ == memo_bytes(
                clue_seed@,
                meant_text(opt_str(user_memo)),
                scheme,
            ),
            Err(e) => !text_fits(meant_text(opt_str(user_memo))) && e@ == too_long_message(
                encode_utf8(meant_text(opt_str(user_memo))->0).len(),
            ),
        },
{
    let text: Option<&str> = match user_memo {
        None => None,
        Some(m) => {
            let t = trim(m);
            if nonempty(t) {
                Some(t)
            } else {
                None
            }
        },
    };
    if let Some(t) = text {
        let n: usize = t.as_bytes().len();
        if n > MAX_PAYMENT_MEMO_BYTES {
            let mut e = "memo exceeds 255 bytes (UTF-8 length ".to_owned();
            append_decimal(&mut e, n as u64);
            e.append(")");
            return Err(e);
        }
    }
    let flags: u8 = if text.is_some() && scheme == SCHEME_UNIFOMR {
        3
    } else if text.is_some() {
        1
    } else if scheme == SCHEME_UNIFOMR {
        2
    } else {
        0
    };
    let mut buf: Vec<u8> = Vec::new();
    buf.push(OMR_MEMO_MAGIC);
    buf.push(scheme);
    buf.push(flags);
    append_bytes(&mut buf, clue_seed.as_slice());
    match text {
        Some(t) => {
            let bytes = t.as_bytes();
            buf.push(bytes.len() as u8);
            append_bytes(&mut buf, bytes);
        },
        None => buf.push(0),
    }
    assert(buf@ =~= memo_bytes(clue_seed@, meant_text(opt_str(user_memo)), scheme));
    Ok(buf)
}

/// Whether a string has a character.
fn nonempty(s: &str) -> (some: bool)
    ensures
        some == (s@.len() > 0),
{
    proof {
        encode_utf8_decode_utf8(s@);
        if s@.len() > 0 {
            vstd::utf8::encode_utf8_first_scalar(s@);
        }
    }
    s.as_bytes().len() > 0
}

/// Builds the memo of a payment.
pub fn build_omr_memo(
    sender_secret: &[u8; 32],
    recipient_pubkey: &[u8; 32],
    user_memo: Option<&str>,
    scheme: Option<u8>,
) -> (memo: Result<Vec<u8>, String>)
    ensures
        match memo {
            Ok(m) => text_fits(meant_text(opt_str(user_memo))) && m@ == memo_bytes(
                clue_seed(sender_secret@, recipient_pubkey@, scheme_or_default(scheme)),
                meant_text(opt_str(user_memo)),
                scheme_or_default(scheme),
            ),
            Err(e) => !text_fits(meant_text(opt_str(user_memo))) && e@ == too_long_message(
                encode_utf8(meant_text(opt_str(user_memo))->0).len(),
            ),
        },
        memo is Ok ==> clue_seed(
            sender_secret@,
            recipient_pubkey@,
            scheme_or_default(scheme),
        ).len() == 32,
{
    let scheme: u8 = match scheme {
        Some(s) => s,
        None => SCHEME_UNIFOMR,
    };
    let mut input: Vec<u8> = Vec::new();
    append_bytes(&mut input, recipient_pubkey.as_slice());
    append_bytes(&mut input, CLUE_DOMAIN.as_bytes());
    input.push(scheme);
    assert(input@ =~= clue_input(recipient_pubkey@, scheme));
    let seed = keyed_hash(sender_secret, input.as_slice());
    assemble_omr_memo(&seed, user_memo, scheme)
}

/// The text that goes into the payment's note: what the user gave, unless it is blank.
pub fn payment_memo(memo: Option<&str>) -> (bytes: Option<Vec<u8>>)
    ensures
        match bytes {
            Some(b) => memo matches Some(m) && trimmed(m@).len() > 0 && b@ == encode_utf8(m@),
            None => memo matches Some(m) ==> trimmed(m@).len() == 0,
        },
{
    match memo {
        None => None,
        Some(m) => if nonempty(trim(m)) {
            Some(crate::bytes::copy_bytes(m.as_bytes()))
        } else {
            None
        },
    }
}

/// `seal` takes any plaintext.
pub open spec fn can_seal<S: Fn(&[u8]) -> Result<Vec<u8>, String>>(seal: S) -> bool {
    forall|b: &[u8]| call_requires(seal, (b,))
}

/// `seal` can turn this plaintext into this ciphertext.
pub open spec fn seals_to<S: Fn(&[u8]) -> Result<Vec<u8>, String>>(
    seal: S,
    plain: Seq<u8>,
    sealed: Seq<u8>,
) -> bool {
    exists|b: &[u8], v: Vec<u8>|
        b@ == plain && v@ == sealed && #[trigger] call_ensures(seal, (b,), Ok(v))
}

/// `seal` can refuse this plaintext for this reason.
pub open spec fn seal_fails<S: Fn(&[u8]) -> Result<Vec<u8>, String>>(
    seal: S,
    plain: Seq<u8>,
    reason: Seq<char>,
) -> bool {
    exists|b: &[u8], s: String|
        b@ == plain && s@ == reason && #[trigger] call_ensures(seal, (b,), Err(s))
}

/// `open` takes any ciphertext.
pub open spec fn can_open<O: Fn(&[u8]) -> Option<Vec<u8>>>(open: O) -> bool {
    forall|b: &[u8]| call_requires(open, (b,))
}

/// `open` can give this plaintext, or none, for this ciphertext.
pub open spec fn opens_to<O: Fn(&[u8]) -> Option<Vec<u8>>>(
    open: O,
    sealed: Seq<u8>,
    plain: Option<Seq<u8>>,
) -> bool {
    exists|b: &[u8], v: Option<Vec<u8>>|
        b@ == sealed && plain == crate::db::rows::opt_bytes(v) && #[trigger] call_ensures(
            open,
            (b,),
            v,
        )
}

/// Encrypting this metadata can give these bytes.
pub open spec fn encrypts_to<S: Fn(&[u8]) -> Result<Vec<u8>, String>>(
    seal: S,
    metadata: Seq<u8>,
    encrypted: Seq<u8>,
) -> bool {
    seals_to(seal, blob(metadata), encrypted)
}

/// What was opened begins with this metadata behind its length, or it holds none.
pub open spec fn reads_as(plain: Option<Seq<u8>>, metadata: Option<Seq<u8>>) -> bool {
    match metadata {
        Some(m) => m.len() <= u64::MAX && (plain matches Some(p) && fronted_by(p, m)),
        None => plain matches Some(p) ==> forall|m: Seq<u8>| !fronted_by(p, m),
    }
}

/// Decrypting these bytes can give this metadata, or none.
pub open spec fn decrypts_to<O: Fn(&[u8]) -> Option<Vec<u8>>>(
    open: O,
    encrypted: Seq<u8>,
    metadata: Option<Seq<u8>>,
) -> bool {
    if encrypted.len() < MIN_ENCRYPTED_METADATA {
        metadata is None
    } else {
        exists|plain: Option<Seq<u8>>| #[trigger]
            opens_to(open, encrypted, plain) && reads_as(plain, metadata)
    }
}

/// Encrypts metadata for its recipient, who is fixed in `seal`.
pub fn encrypt_omr_metadata<S: Fn(&[u8]) -> Result<Vec<u8>, String>>(
    metadata: &[u8],
    seal: S,
) -> (encrypted: Result<Vec<u8>, String>)
    requires
        can_seal(seal),
    ensures
        match encrypted {
            Ok(out) => encrypts_to(seal, metadata@, out@),
            Err(m) => exists|reason: Seq<char>|
                m@ == "Failed to encrypt OMR metadata: "@ + reason && #[trigger] seal_fails(
                    seal,
                    blob(metadata@),
                    reason,
                ),
        },
{
    let plain = serialize_bytes(&crate::bytes::copy_bytes(metadata));
    match seal(plain.as_slice()) {
        Ok(out) => Ok(out),
        Err(reason) => {
            assert(seal_fails(seal, blob(metadata@), reason@));
            let mut m = "Failed to encrypt OMR metadata: ".to_owned();
            m.append(reason.as_str());
            Err(m)
        },
    }
}

/// Decrypts metadata with the recipient's key, which is fixed in `open`.
pub fn decrypt_omr_metadata<O: Fn(&[u8]) -> Option<Vec<u8>>>(encrypted_bytes: &[u8], open: O) -> (
metadata: Option<Vec<u8>>)
    requires
        can_open(open),
    ensures
        decrypts_to(open, encrypted_bytes@, crate::db::rows::opt_bytes(metadata)),
{
    if encrypted_bytes.len() < MIN_ENCRYPTED_METADATA {
        return None;
    }
    let opened = open(encrypted_bytes);
    assert(opens_to(open, encrypted_bytes@, crate::db::rows::opt_bytes(opened)));
    match opened {
        None => None,
        Some(plain) => {
            let metadata = decode_bytes(plain.as_slice());
            assert(metadata matches Some(m) ==> m.len() <= u64::MAX);
            metadata
        },
    }
}

/// A memo gives back its scheme, its seed and its text.
pub proof fn law_memo_reads_back(seed: Seq<u8>, text: Option<Seq<char>>, scheme: u8)
    requires
        seed.len() == 32,
        text_fits(text),
    ensures
        ({
            let m = memo_bytes(seed, text, scheme);
            &&& m[0] == OMR_MEMO_MAGIC
            &&& m[1] == scheme
            &&& (m[2] % 2 == 1) == (text is Some)
            &&& (m[2] / 2 == 1) == (scheme == SCHEME_UNIFOMR)
            &&& m.subrange(3, 35) == seed
            &&& m.len() == 36 + m[35]
            &&& text matches Some(t) ==> vstd::utf8::decode_utf8(m.skip(36)) == t
            &&& text is None ==> m[35] == 0
        }),
{
    let m = memo_bytes(seed, text, scheme);
    assert(m.subrange(3, 35) =~= seed);
    if let Some(t) = text {
        encode_utf8_decode_utf8(t);
        assert(m[35] == encode_utf8(t).len() as u8);
        assert(m.skip(36) =~= encode_utf8(t));
    } else {
        assert(m[35] == 0);
    }
}

/// A memo never exceeds its header, its seed and the longest text.
pub proof fn law_memo_is_bounded(seed: Seq<u8>, text: Option<Seq<char>>, scheme: u8)
    requires
        seed.len() == 32,
        text_fits(text),
    ensures
        36 <= memo_bytes(seed, text, scheme).len() <= 36 + MAX_PAYMENT_MEMO_BYTES,
{
}

/// Metadata that was encrypted is read back, and nothing else is, with a key that opens what was
/// sealed. (What is sealed has the bytes of an ephemeral key and of a tag, so it is never too
/// short to be looked at.)
pub proof fn law_metadata_reads_back<
    S: Fn(&[u8]) -> Result<Vec<u8>, String>,
    O: Fn(&[u8]) -> Option<Vec<u8>>,
>(seal: S, open: O, metadata: Seq<u8>, encrypted: Seq<u8>, read: Option<Seq<u8>>)
    requires
        metadata.len() <= u64::MAX,
        forall|p: Seq<u8>, c: Seq<u8>| #[trigger]
            seals_to(seal, p, c) ==> c.len() >= MIN_ENCRYPTED_METADATA,
        forall|p: Seq<u8>, c: Seq<u8>, o: Option<Seq<u8>>| #[trigger]
            seals_to(seal, p, c) && #[trigger] opens_to(open, c, o) ==> o == Some(p),
        encrypts_to(seal, metadata, encrypted),
        decrypts_to(open, encrypted, read),
    ensures
        read == Some(metadata),
{
    let p = blob(metadata);
    assert(seals_to(seal, p, encrypted));
    let plain = choose|plain: Option<Seq<u8>>| #[trigger]
        opens_to(open, encrypted, plain) && reads_as(plain, read);
    assert(plain == Some(p));
    match read {
        Some(m) => {
            assert(p + Seq::<u8>::empty() =~= p);
            crate::serial::law_blob_reads_back(metadata, Seq::empty(), m);
        },
        None => {
            assert(!fronted_by(plain->0, metadata));
            assert(fronted_by(p, metadata));
        },
    }
}

/// With a key that opens nothing of what was sealed, and of bytes that are too few, no metadata
/// is read.
pub proof fn law_nothing_reads_without_the_key<
    S: Fn(&[u8]) -> Result<Vec<u8>, String>,
    O: Fn(&[u8]) -> Option<Vec<u8>>,
>(seal: S, open: O, metadata: Seq<u8>, encrypted: Seq<u8>, read: Option<Seq<u8>>)
    requires
        ({
            ||| encrypted.len() < MIN_ENCRYPTED_METADATA
            ||| {
                &&& encrypts_to(seal, metadata, encrypted)
                &&& forall|p: Seq<u8>, c: Seq<u8>, o: Option<Seq<u8>>| #[trigger]
                    seals_to(seal, p, c) && #[trigger] opens_to(open, c, o) ==> o is None
            }
        }),
        decrypts_to(open, encrypted, read),
    ensures
        read is None,
{
}

// ---- What memos promise ----

/// The clue seed is the keyed hash, under the sender's secret, of the recipient's key, the domain
/// and the scheme, in this order.
pub proof fn law_clue_seed(sender_secret: Seq<u8>, recipient: Seq<u8>, scheme: u8)
    requires
        recipient.len() == 32,
    ensures
        clue_seed(sender_secret, recipient, scheme) == blake3_keyed_hash(
            sender_secret,
            clue_input(recipient, scheme),
        ),
        clue_input(recipient, scheme).take(32) == recipient,
        clue_input(recipient, scheme).last() == scheme,
        clue_input(recipient, scheme).subrange(32, clue_input(recipient, scheme).len() - 1)
            == encode_utf8("DarkFi-OMR-TxClue-v1"@),
{
    let input = clue_input(recipient, scheme);
    let domain = encode_utf8("DarkFi-OMR-TxClue-v1"@);
    assert(input.len() == 33 + domain.len());
    assert(input.take(32) =~= recipient);
    assert(input.subrange(32, input.len() - 1) =~= domain);
}

/// A blank text is none; any other is meant without the white space around it. A text fits up to
/// `255` bytes, and a payment without a scheme is of the UnifOMR scheme.
pub proof fn law_meant_texts(text: Seq<char>, scheme: u8)
    ensures
        meant_text(None) is None,
        trimmed(text).len() == 0 ==> meant_text(Some(text)) is None,
        trimmed(text).len() > 0 ==> meant_text(Some(text)) == Some(trimmed(text)),
        text_fits(None),
        text_fits(Some(text)) <==> encode_utf8(text).len() <= 255,
        scheme_or_default(Some(scheme)) == scheme,
        scheme_or_default(None) == 5,
{
}

/// The flags count one for a text and two for the UnifOMR scheme.
pub proof fn law_memo_flags(has_text: bool, scheme: u8)
    ensures
        memo_flags(has_text, scheme) == (if has_text {
            1int
        } else {
            0
        }) + (if scheme == 5 {
            2int
        } else {
            0
        }),
{
}

/// A memo is the magic byte, the scheme, the flags, the seed, and the text behind its length.
pub proof fn law_memo_parts(seed: Seq<u8>, text: Seq<char>, scheme: u8, i: int)
    requires
        encode_utf8(text).len() <= 255,
    ensures
        memo_bytes(seed, Some(text), scheme).len() == 4 + seed.len() + encode_utf8(text).len(),
        memo_bytes(seed, None, scheme).len() == 4 + seed.len(),
        memo_bytes(seed, Some(text), scheme)[0] == 0x4f,
        memo_bytes(seed, None, scheme)[0] == 0x4f,
        memo_bytes(seed, Some(text), scheme)[1] == scheme,
        memo_bytes(seed, None, scheme)[1] == scheme,
        memo_bytes(seed, Some(text), scheme)[2] == memo_flags(true, scheme),
        memo_bytes(seed, None, scheme)[2] == memo_flags(false, scheme),
        0 <= i < seed.len() ==> memo_bytes(seed, Some(text), scheme)[3 + i] == seed[i],
        0 <= i < seed.len() ==> memo_bytes(seed, None, scheme)[3 + i] == seed[i],
        memo_bytes(seed, Some(text), scheme)[3 + seed.len() as int] == encode_utf8(text).len(),
        memo_bytes(seed, None, scheme)[3 + seed.len() as int] == 0,
        0 <= i < encode_utf8(text).len() ==> memo_bytes(seed, Some(text), scheme)[4 + seed.len() + i]
            == encode_utf8(text)[i],
{
}

/// The words for a text that is too long tell its length.
pub proof fn law_too_long_words(length: nat)
    ensures
        too_long_message(length) == "memo exceeds 255 bytes (UTF-8 length "@ + decimal(length)
            + ")"@,
{
}

/// What was sealed, opened or refused is what the supplied function was given and gave back.
pub proof fn law_sealing_is_the_callers<
    S: Fn(&[u8]) -> Result<Vec<u8>, String>,
    O: Fn(&[u8]) -> Option<Vec<u8>>,
>(
    seal: S,
    open: O,
    b: &[u8],
    v: Vec<u8>,
    s: String,
    o: Option<Vec<u8>>,
    from: Seq<u8>,
    to: Seq<u8>,
    words: Seq<char>,
    opened: Option<Seq<u8>>,
)
    ensures
        call_ensures(seal, (b,), Ok(v)) ==> seals_to(seal, b@, v@),
        call_ensures(seal, (b,), Err(s)) ==> seal_fails(seal, b@, s@),
        call_ensures(open, (b,), o) ==> opens_to(open, b@, crate::db::rows::opt_bytes(o)),
        seals_to(seal, from, to) ==> exists|x: &[u8], y: Vec<u8>|
            x@ == from && y@ == to && #[trigger] call_ensures(seal, (x,), Ok(y)),
        seal_fails(seal, from, words) ==> exists|x: &[u8], y: String|
            x@ == from && y@ == words && #[trigger] call_ensures(seal, (x,), Err(y)),
        opens_to(open, from, opened) ==> exists|x: &[u8], y: Option<Vec<u8>>|
            x@ == from && opened == crate::db::rows::opt_bytes(y) && #[trigger] call_ensures(
                open,
                (x,),
                y,
            ),
{
}

/// Metadata is sealed behind its length, and what is opened is read from the front, where bytes
/// that are too few or cannot be opened give none.
pub proof fn law_metadata_frames<
    S: Fn(&[u8]) -> Result<Vec<u8>, String>,
    O: Fn(&[u8]) -> Option<Vec<u8>>,
>(seal: S, open: O, metadata: Seq<u8>, encrypted: Seq<u8>, read: Option<Seq<u8>>)
    ensures
        encrypts_to(seal, metadata, encrypted) <==> seals_to(
            seal,
            crate::serial::varint(metadata.len()) + metadata,
            encrypted,
        ),
        decrypts_to(open, encrypted, read) && encrypted.len() < 48 ==> read is None,
        decrypts_to(open, encrypted, read) && encrypted.len() >= 48 ==> exists|p: Option<Seq<u8>>|
            {
                &&& #[trigger] opens_to(open, encrypted, p)
                &&& p is None ==> read is None
                &&& p is Some && read is Some ==> fronted_by(p->0, read->0)
                &&& p is Some && read is None ==> forall|m: Seq<u8>| !#[trigger] fronted_by(p->0, m)
            },
{
    if decrypts_to(open, encrypted, read) && encrypted.len() >= 48 {
        let p = choose|p: Option<Seq<u8>>| #[trigger]
            opens_to(open, encrypted, p) && reads_as(p, read);
        assert(opens_to(open, encrypted, p));
    }
}

} // verus!
