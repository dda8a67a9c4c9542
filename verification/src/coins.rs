//! Coins ready to be spent, as a transaction builder takes them.
use crate::bytes::{exactly32, take32};
use crate::db::model::{lemma_filter_step, names_native};
use crate::db::rows::Note;
use crate::db::spending::{hook_of, shows, UnspentNote};
use crate::field::{
    base_modulus, decodes_as_base, decodes_as_scalar, is_base, is_scalar, le_value, scalar_modulus,
};
use crate::hexcodec::{hex_bytes, hex_decode, hex_encode, hex_text, is_hex};
use crate::text::{eq_ignore_ascii_case, same_ignoring_case, str_eq};
use vstd::prelude::*;

verus! {

/// A coin with all that a spend needs.
#[derive(Debug, Clone, Copy)]
pub struct SpendCoin {
    /// The coin's commitment.
    pub coin: [u8; 32],
    pub value: u64,
    pub token_id: [u8; 32],
    pub spend_hook: [u8; 32],
    pub user_data: [u8; 32],
    pub coin_blind: [u8; 32],
    pub value_blind: [u8; 32],
    pub token_blind: [u8; 32],
    /// The owner's secret key.
    pub secret: [u8; 32],
    /// The coin's position in the commitment tree.
    pub leaf_position: u64,
}

/// Why stored notes cannot be made into coins.
#[derive(Debug, Clone, Copy, PartialEq, Eq, Structural)]
pub enum CoinError {
    /// An owner's secret is shorter than a key.
    OwnerSecretTooShort,
}

/// The fields of a listed note have the form that a coin's have.
pub open spec fn well_formed(t: UnspentNote) -> bool {
    &&& is_hex(t.3@) && hex_bytes(t.3@).len() == 32
    &&& is_base(t.4@)
    &&& is_scalar(t.5@)
    &&& is_base(t.6@)
    &&& t.7@.len() == 32
    &&& is_base(t.8@)
    &&& t.10@.len() == 32
}

/// The coin of a listed note.
pub open spec fn is_coin_of(c: SpendCoin, t: UnspentNote) -> bool {
    &&& c.coin@ == t.10@
    &&& c.value == t.2 as u64
    &&& c.token_id@ == hex_bytes(t.3@)
    &&& c.spend_hook@ == t.7@
    &&& c.user_data@ == t.8@
    &&& c.coin_blind@ == t.4@
    &&& c.value_blind@ == t.5@
    &&& c.token_blind@ == t.6@
    &&& t.11@.len() >= 32
    &&& c.secret@ == t.11@.take(32)
    &&& c.leaf_position == t.9
}

/// Whether a byte string is the canonical form of a base field element.
fn base_bytes(bytes: &Vec<u8>) -> (ok: bool)
    ensures
        ok == is_base(bytes@),
{
    match exactly32(bytes.as_slice()) {
        Some(a) => decodes_as_base(&a),
        None => false,
    }
}

/// Whether a byte string is the canonical form of a scalar field element.
fn scalar_bytes(bytes: &Vec<u8>) -> (ok: bool)
    ensures
        ok == is_scalar(bytes@),
{
    match exactly32(bytes.as_slice()) {
        Some(a) => decodes_as_scalar(&a),
        None => false,
    }
}

/// Whether the fields of a listed note have the form that a coin's have.
pub fn fields_ok(row: &UnspentNote) -> (ok: bool)
    ensures
        ok == well_formed(*row),
{
    let token_ok = match hex_decode(row.3.as_str()) {
        Ok(t) => t.len() == 32,
        Err(_) => false,
    };
    token_ok && base_bytes(&row.4) && scalar_bytes(&row.5) && base_bytes(&row.6) && row.7.len()
        == 32 && base_bytes(&row.8) && row.10.len() == 32
}

/// The coin of a listed note.
pub fn spend_coin(row: &UnspentNote) -> (coin: Result<SpendCoin, CoinError>)
    requires
        well_formed(*row),
    ensures
        match coin {
            Ok(c) => is_coin_of(c, *row),
            Err(e) => e == CoinError::OwnerSecretTooShort && row.11@.len() < 32,
        },
{
    let token_id = match hex_decode(row.3.as_str()) {
        Ok(t) => {
            let a = take32(t.as_slice(), 0);
            assert(a@ =~= t@);
            a
        },
        Err(_) => [0u8;32],
    };
    if row.11.len() < 32 {
        return Err(CoinError::OwnerSecretTooShort);
    }
    let c = SpendCoin {
        coin: take32(row.10.as_slice(), 0),
        value: #[verifier::truncate] (row.2 as u64),
        token_id,
        spend_hook: take32(row.7.as_slice(), 0),
        user_data: take32(row.8.as_slice(), 0),
        coin_blind: take32(row.4.as_slice(), 0),
        value_blind: take32(row.5.as_slice(), 0),
        token_blind: take32(row.6.as_slice(), 0),
        secret: take32(row.11.as_slice(), 0),
        leaf_position: row.9 as u64,
    };
    assert(c.coin@ =~= row.10@);
    assert(c.spend_hook@ =~= row.7@);
    assert(c.user_data@ =~= row.8@);
    assert(c.coin_blind@ =~= row.4@);
    assert(c.value_blind@ =~= row.5@);
    assert(c.token_blind@ =~= row.6@);
    assert(c.secret@ =~= row.11@.take(32));
    Ok(c)
}

/// The coins of listed notes.
pub fn spend_coins(rows: &Vec<UnspentNote>) -> (coins: Result<Vec<SpendCoin>, CoinError>)
    requires
        forall|i: int| 0 <= i < rows@.len() ==> well_formed(#[trigger] rows@[i]),
    ensures
        match coins {
            Ok(v) => v@.len() == rows@.len() && forall|i: int|
                0 <= i < rows@.len() ==> is_coin_of(v@[i], #[trigger] rows@[i]),
            Err(_) => exists|i: int| 0 <= i < rows@.len() && (#[trigger] rows@[i]).11@.len() < 32,
        },
{
    let mut out: Vec<SpendCoin> = Vec::new();
    let mut i: usize = 0;
    while i < rows.len()
        invariant
            i <= rows.len(),
            out@.len() == i,
            forall|j: int| 0 <= j < rows@.len() ==> well_formed(#[trigger] rows@[j]),
            forall|j: int| 0 <= j < i ==> is_coin_of(out@[j], #[trigger] rows@[j]),
        decreases rows.len() - i,
    {
        match spend_coin(&rows[i]) {
            Ok(c) => {
                out.push(c);
            },
            Err(e) => {
                assert(rows@[i as int].11@.len() < 32);
                return Err(e);
            },
        }
        i += 1;
    }
    Ok(out)
}

/// The coins of a token, which is named by its id in hex or, for the native one, by its name.
pub open spec fn of_token_id(token: Seq<char>, native_hex: Seq<char>) -> spec_fn(SpendCoin) -> bool {
    |c: SpendCoin|
        if names_native(token, native_hex) {
            names_native(hex_text(c.token_id@), native_hex)
        } else {
            token == hex_text(c.token_id@)
        }
}

/// Keeps the coins of a token.
pub fn coins_of_token(coins: &Vec<SpendCoin>, token: &str, native_hex: &str) -> (kept: Vec<
    SpendCoin,
>)
    ensures
        kept@ == coins@.filter(of_token_id(token@, native_hex@)),
{
    let ghost p = of_token_id(token@, native_hex@);
    let want_native = eq_ignore_ascii_case(token, "DRK") || eq_ignore_ascii_case(token, native_hex);
    let mut kept: Vec<SpendCoin> = Vec::new();
    let mut i: usize = 0;
    proof {
        reveal(Seq::filter);
        assert(coins@.take(0) =~= Seq::empty());
    }
    while i < coins.len()
        invariant
            i <= coins.len(),
            p == of_token_id(token@, native_hex@),
            want_native == names_native(token@, native_hex@),
            kept@ == coins@.take(i as int).filter(p),
        decreases coins.len() - i,
    {
        proof {
            lemma_filter_step(coins@, i as int, p);
        }
        let hex = hex_encode(coins[i].token_id.as_slice());
        let hit = if want_native {
            eq_ignore_ascii_case(hex.as_str(), "DRK") || eq_ignore_ascii_case(
                hex.as_str(),
                native_hex,
            )
        } else {
            str_eq(token, hex.as_str())
        };
        if hit {
            kept.push(coins[i]);
        }
        i += 1;
    }
    assert(coins@.take(i as int) =~= coins@);
    kept
}

/// Where notes are listed under the id of the native token, every one of them makes a coin of
/// the native token.
pub proof fn law_native_coins_are_kept(native: Seq<u8>, c: SpendCoin)
    requires
        c.token_id@ == native,
    ensures
        of_token_id("DRK"@, hex_text(native))(c),
{
}

/// The coin of a stored note has the note's commitment, value, token, hook, user data, blinds and
/// tree position, and the first bytes of the owner's secret as its key.
pub proof fn law_coin_has_the_notes_fields(c: SpendCoin, t: UnspentNote, n: Note)
    requires
        is_coin_of(c, t),
        shows(t, n),
    ensures
        n.commitment == Some(c.coin@),
        n.value_raw >= 0 ==> c.value == n.value_raw,
        c.value == n.value_raw as u64,
        c.token_id@ == hex_bytes(n.token_id),
        c.spend_hook@ == hook_of(n),
        n.user_data == Some(c.user_data@),
        n.coin_blind == Some(c.coin_blind@),
        n.value_blind == Some(c.value_blind@),
        n.token_blind == Some(c.token_blind@),
        n.leaf_position is Some && n.leaf_position->0 == c.leaf_position,
        t.11@.len() >= 32,
        c.secret@ == t.11@.subrange(0, 32),
{
    assert(t.11@.take(32) =~= t.11@.subrange(0, 32));
}

/// The coin of a listed note is fixed by what the note shows.
pub proof fn law_coin_of_a_listed_note(c: SpendCoin, t: UnspentNote)
    ensures
        is_coin_of(c, t) <==> {
            &&& c.coin@ == t.10@
            &&& c.value == t.2 as u64
            &&& c.token_id@ == hex_bytes(t.3@)
            &&& c.spend_hook@ == t.7@
            &&& c.user_data@ == t.8@
            &&& c.coin_blind@ == t.4@
            &&& c.value_blind@ == t.5@
            &&& c.token_blind@ == t.6@
            &&& c.leaf_position == t.9
            &&& t.11@.len() >= 32
            &&& c.secret@ == t.11@.subrange(0, 32)
        },
{
    if t.11@.len() >= 32 {
        assert(t.11@.take(32) =~= t.11@.subrange(0, 32));
    }
}

/// A listed note is well formed exactly where its token is the hex of `32` bytes, its blinds and
/// user data are canonical field elements, and hook and commitment have `32` bytes.
pub proof fn law_well_formed_notes(t: UnspentNote)
    ensures
        well_formed(t) <==> {
            &&& is_hex(t.3@)
            &&& t.3@.len() == 64
            &&& t.4@.len() == 32 && le_value(t.4@) < base_modulus()
            &&& t.5@.len() == 32 && le_value(t.5@) < scalar_modulus()
            &&& t.6@.len() == 32 && le_value(t.6@) < base_modulus()
            &&& t.8@.len() == 32 && le_value(t.8@) < base_modulus()
            &&& t.7@.len() == 32
            &&& t.10@.len() == 32
        },
{
}

/// A coin is kept for a token exactly where the hex of its token id is the token, or names the
/// native token as the token does.
pub proof fn law_coins_kept_for_a_token(token: Seq<char>, native_hex: Seq<char>, c: SpendCoin)
    ensures
        ({
            let hex = hex_text(c.token_id@);
            let native = |s: Seq<char>|
                same_ignoring_case(s, "DRK"@) || same_ignoring_case(s, native_hex);
            of_token_id(token, native_hex)(c) <==> if native(token) {
                native(hex)
            } else {
                token == hex
            }
        }),
{
}

} // verus!
