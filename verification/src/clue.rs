//! Clues that let a recipient's server recognise a payment.
//!
//! A sender's clue is made from the recipient's clue key, which the server's directory hands
//! out. The directory answers with a decoy for an unknown recipient, so a clue is made only from
//! a key whose attestation holds. The attestation check and the clue scheme come from the chain's
//! own crates, as functions that the caller supplies.
use crate::bytes::take32;
use crate::text::bytes_eq;
use vstd::prelude::*;

verus! {

/// A directory entry for a recipient.
#[derive(Debug)]
pub struct CluePublicKey {
    pub clue_public_key: Vec<u8>,
    pub ownership_proof: Vec<u8>,
    pub key_version: u64,
}

/// `verify` takes any attestation: the directory's key, the network, the key's version, the
/// recipient, the clue key and the proof.
pub open spec fn can_verify<V: Fn(&[u8], u8, u64, &[u8; 32], &[u8], &[u8]) -> Result<(), String>>(
    verify: V,
) -> bool {
    forall|a: &[u8], n: u8, v: u64, r: &[u8; 32], c: &[u8], p: &[u8]|
        call_requires(verify, (a, n, v, r, c, p))
}

/// `verify` can give this verdict on an attestation.
pub open spec fn attests<V: Fn(&[u8], u8, u64, &[u8; 32], &[u8], &[u8]) -> Result<(), String>>(
    verify: V,
    attest_pk: Seq<u8>,
    network: u8,
    recipient: Seq<u8>,
    entry: CluePublicKey,
    refusal: Option<Seq<char>>,
) -> bool {
    exists|a: &[u8], r: &[u8; 32], c: &[u8], p: &[u8], out: Result<(), String>|
        {
            &&& a@ == attest_pk
            &&& r@ == recipient
            &&& c@ == entry.clue_public_key@
            &&& p@ == entry.ownership_proof@
            &&& refusal == match out {
                Ok(_) => None,
                Err(m) => Some(m@),
            }
            &&& #[trigger] call_ensures(verify, (a, network, entry.key_version, r, c, p), out)
        }
}

/// `build` takes any clue key.
pub open spec fn can_build<B: Fn(&[u8]) -> Result<Vec<u8>, String>>(build: B) -> bool {
    forall|c: &[u8]| call_requires(build, (c,))
}

/// `build` can make this clue from a clue key.
pub open spec fn builds<B: Fn(&[u8]) -> Result<Vec<u8>, String>>(
    build: B,
    clue_key: Seq<u8>,
    clue: Seq<u8>,
) -> bool {
    exists|c: &[u8], v: Vec<u8>|
        c@ == clue_key && v@ == clue && #[trigger] call_ensures(build, (c,), Ok(v))
}

/// `build` can refuse a clue key for this reason.
pub open spec fn build_fails<B: Fn(&[u8]) -> Result<Vec<u8>, String>>(
    build: B,
    clue_key: Seq<u8>,
    reason: Seq<char>,
) -> bool {
    exists|c: &[u8], m: String|
        c@ == clue_key && m@ == reason && #[trigger] call_ensures(build, (c,), Err(m))
}

/// Verifies a directory entry and makes a clue from it.
pub fn verified_unifomr_clue<
    V: Fn(&[u8], u8, u64, &[u8; 32], &[u8], &[u8]) -> Result<(), String>,
    B: Fn(&[u8]) -> Result<Vec<u8>, String>,
>(
    network_byte: u8,
    recipient_pk: &[u8; 32],
    entry: &CluePublicKey,
    attest_pk: &[u8],
    verify: V,
    build: B,
) -> (clue: Result<Vec<u8>, String>)
    requires
        can_verify(verify),
        can_build(build),
    ensures
        entry.clue_public_key@.len() == 0 ==> (clue matches Err(m) && m@
            == "empty clue public key"@),
        entry.clue_public_key@.len() > 0 && attest_pk@.len() != 32 ==> (clue matches Err(m) && m@
            == "GetLightInfo missing directory_attest_pubkey; upgrade lightwalletd"@),
        entry.clue_public_key@.len() > 0 && attest_pk@.len() == 32 ==> {
            ||| (clue matches Err(m) && attests(
                verify,
                attest_pk@,
                network_byte,
                recipient_pk@,
                *entry,
                Some(m@),
            ))
            ||| attests(verify, attest_pk@, network_byte, recipient_pk@, *entry, None) && match clue {
                Ok(c) => builds(build, entry.clue_public_key@, c@),
                Err(m) => exists|reason: Seq<char>|
                    m@ == "invalid UnifOMR clue public key: "@ + reason && #[trigger] build_fails(
                        build,
                        entry.clue_public_key@,
                        reason,
                    ),
            }
        },
{
    if entry.clue_public_key.len() == 0 {
        return Err("empty clue public key".to_owned());
    }
    if attest_pk.len() != 32 {
        return Err(
            "GetLightInfo missing directory_attest_pubkey; upgrade lightwalletd".to_owned(),
        );
    }
    let verdict = verify(
        attest_pk,
        network_byte,
        entry.key_version,
        recipient_pk,
        entry.clue_public_key.as_slice(),
        entry.ownership_proof.as_slice(),
    );
    match verdict {
        Err(m) => {
            assert(attests(
                verify,
                attest_pk@,
                network_byte,
                recipient_pk@,
                *entry,
                Some(m@),
            ));
            Err(m)
        },
        Ok(_) => {
            assert(attests(verify, attest_pk@, network_byte, recipient_pk@, *entry, None));
            match build(entry.clue_public_key.as_slice()) {
                Ok(c) => {
                    assert(builds(build, entry.clue_public_key@, c@));
                    Ok(c)
                },
                Err(reason) => {
                    assert(build_fails(build, entry.clue_public_key@, reason@));
                    let mut m = "invalid UnifOMR clue public key: ".to_owned();
                    m.append(reason.as_str());
                    Err(m)
                },
            }
        },
    }
}

/// `public_of` takes any secret key.
pub open spec fn can_publish<P: Fn(&[u8; 32]) -> Option<[u8; 32]>>(public_of: P) -> bool {
    forall|s: &[u8; 32]| call_requires(public_of, (s,))
}

/// `public_of` can give this public key, or none, for a secret key.
pub open spec fn publishes<P: Fn(&[u8; 32]) -> Option<[u8; 32]>>(
    public_of: P,
    secret: Seq<u8>,
    public: Option<Seq<u8>>,
) -> bool {
    exists|s: &[u8; 32], out: Option<[u8; 32]>|
        s@ == secret && public == crate::db::recompute::opt_array(out) && #[trigger] call_ensures(
            public_of,
            (s,),
            out,
        )
}

/// A payment key: public key and the secret key that owns it.
pub type PaymentKey = ([u8; 32], [u8; 32]);

/// What the secret of an address comes to: nothing if it is shorter than a key or no key, else
/// its public key with the key.
pub open spec fn key_comes_to<P: Fn(&[u8; 32]) -> Option<[u8; 32]>>(
    public_of: P,
    secret: Seq<u8>,
    key: Option<(Seq<u8>, Seq<u8>)>,
) -> bool {
    if secret.len() < 32 {
        key is None
    } else {
        match key {
            None => publishes(public_of, secret.take(32), None),
            Some(k) => publishes(public_of, secret.take(32), Some(k.0)) && k.1 == secret.take(32),
        }
    }
}

/// The keys found, in their order.
pub open spec fn found_keys(keys: Seq<Option<(Seq<u8>, Seq<u8>)>>) -> Seq<(Seq<u8>, Seq<u8>)>
    decreases keys.len(),
{
    if keys.len() == 0 {
        Seq::empty()
    } else {
        match keys.last() {
            Some(k) => found_keys(keys.drop_last()).push(k),
            None => found_keys(keys.drop_last()),
        }
    }
}

/// What payment keys hold.
pub open spec fn key_views(keys: Seq<PaymentKey>) -> Seq<(Seq<u8>, Seq<u8>)> {
    Seq::new(keys.len(), |i: int| (keys[i].0@, keys[i].1@))
}

/// The payment keys of the wallet's addresses. A secret that is shorter than a key, or that is
/// no key, is left out.
pub fn payment_keys<P: Fn(&[u8; 32]) -> Option<[u8; 32]>>(
    addresses: &Vec<(String, Vec<u8>, bool)>,
    public_of: P,
) -> (keys: Vec<PaymentKey>)
    requires
        can_publish(public_of),
    ensures
        exists|found: Seq<Option<(Seq<u8>, Seq<u8>)>>|
            {
                &&& found.len() == addresses@.len()
                &&& key_views(keys@) == #[trigger] found_keys(found)
                &&& forall|i: int|
                    0 <= i < addresses@.len() ==> key_comes_to(
                        public_of,
                        addresses@[i].1@,
                        #[trigger] found[i],
                    )
            },
{
    let mut keys: Vec<PaymentKey> = Vec::new();
    let ghost mut found: Seq<Option<(Seq<u8>, Seq<u8>)>> = Seq::empty();
    let mut i: usize = 0;
    assert(key_views(keys@) =~= found_keys(found));
    while i < addresses.len()
        invariant
            can_publish(public_of),
            i <= addresses.len(),
            found.len() == i,
            key_views(keys@) == found_keys(found),
            forall|j: int|
                0 <= j < i ==> key_comes_to(public_of, addresses@[j].1@, #[trigger] found[j]),
        decreases addresses.len() - i,
    {
        let ghost before = found;
        let ghost had = keys@;
        if addresses[i].1.len() < 32 {
            proof {
                found = found.push(None);
                assert(found.drop_last() =~= before);
            }
        } else {
            let secret = take32(addresses[i].1.as_slice(), 0);
            assert(secret@ =~= addresses@[i as int].1@.take(32));
            let public = public_of(&secret);
            assert(publishes(
                public_of,
                secret@,
                crate::db::recompute::opt_array(public),
            ));
            match public {
                None => {
                    proof {
                        found = found.push(None);
                        assert(found.drop_last() =~= before);
                    }
                },
                Some(pk) => {
                    keys.push((pk, secret));
                    proof {
                        found = found.push(Some((pk@, secret@)));
                        assert(found.drop_last() =~= before);
                        assert(key_views(keys@) =~= key_views(had).push((pk@, secret@)));
                    }
                },
            }
        }
        i += 1;
    }
    keys
}

/// The secret key that owns a public key: that of the last payment key with it.
pub fn owner_of(keys: &Vec<PaymentKey>, public: &[u8; 32]) -> (secret: Option<[u8; 32]>)
    ensures
        match secret {
            Some(s) => exists|i: int|
                {
                    &&& 0 <= i < keys@.len()
                    &&& (#[trigger] keys@[i]).0@ == public@
                    &&& keys@[i].1@ == s@
                    &&& forall|j: int| i < j < keys@.len() ==> (#[trigger] keys@[j]).0@ != public@
                },
            None => forall|j: int| 0 <= j < keys@.len() ==> (#[trigger] keys@[j]).0@ != public@,
        },
{
    let mut i: usize = keys.len();
    while i > 0
        invariant
            i <= keys.len(),
            forall|j: int| i <= j < keys@.len() ==> (#[trigger] keys@[j]).0@ != public@,
        decreases i,
    {
        i -= 1;
        if bytes_eq(keys[i].0.as_slice(), public.as_slice()) {
            assert(keys@[i as int].0@ == public@);
            return Some(keys[i].1);
        }
    }
    None
}

/// How far the registration of clue keys has come.
#[derive(Debug)]
pub struct Registration {
    /// Payment addresses registered.
    pub registered: usize,
    /// What went wrong last.
    pub last_error: Option<String>,
}

/// What to do about a payment address.
#[derive(Debug, Clone, Copy)]
pub enum RegistrationStep {
    /// Nothing: its clue key is registered.
    Done,
    /// Nothing: its secret key is not at hand.
    MissingKey,
    /// Register its clue key, with a proof under this secret key.
    Register([u8; 32]),
}

/// What came of registering the clue key of a payment address.
#[derive(Debug)]
pub enum RegistrationEvent {
    /// It was registered already.
    Known,
    /// Its secret key is not at hand.
    KeyMissing,
    /// The server took it.
    Taken,
    /// The server refused it.
    Refused(String),
}

/// What to do about a payment address.
pub fn registration_step(already: bool, keys: &Vec<PaymentKey>, public: &[u8; 32]) -> (step:
    RegistrationStep)
    ensures
        match step {
            RegistrationStep::Done => already,
            RegistrationStep::MissingKey => !already && forall|j: int|
                0 <= j < keys@.len() ==> (#[trigger] keys@[j]).0@ != public@,
            RegistrationStep::Register(s) => !already && exists|i: int|
                {
                    &&& 0 <= i < keys@.len()
                    &&& (#[trigger] keys@[i]).0@ == public@
                    &&& keys@[i].1@ == s@
                    &&& forall|j: int| i < j < keys@.len() ==> (#[trigger] keys@[j]).0@ != public@
                },
        },
{
    if already {
        return RegistrationStep::Done;
    }
    match owner_of(keys, public) {
        Some(secret) => RegistrationStep::Register(secret),
        None => RegistrationStep::MissingKey,
    }
}

impl Registration {
    /// No address has been looked at.
    pub fn new() -> (fresh: Registration)
        ensures
            fresh.registered == 0,
            fresh.last_error is None,
    {
        Registration { registered: 0, last_error: None }
    }

    /// Takes note of what came of one address.
    pub fn record(&mut self, event: RegistrationEvent)
        requires
            old(self).registered < usize::MAX,
        ensures
            match event {
                RegistrationEvent::Known | RegistrationEvent::Taken => final(self).registered
                    == old(self).registered + 1 && final(self).last_error == old(self).last_error,
                RegistrationEvent::KeyMissing => final(self).registered == old(self).registered
                    && final(self).last_error is Some && final(self).last_error->0@
                    == "missing payment SecretKey for ownership proof"@,
                RegistrationEvent::Refused(m) => final(self).registered == old(self).registered
                    && final(self).last_error == Some(m),
            },
    {
        match event {
            RegistrationEvent::Known => {
                self.registered = self.registered + 1;
            },
            RegistrationEvent::Taken => {
                self.registered = self.registered + 1;
            },
            RegistrationEvent::KeyMissing => {
                self.last_error = Some("missing payment SecretKey for ownership proof".to_owned());
            },
            RegistrationEvent::Refused(m) => {
                self.last_error = Some(m);
            },
        }
    }

    /// The last error in words.
    pub open spec fn last_words(self) -> Seq<char> {
        match self.last_error {
            Some(m) => m@,
            None => "unknown"@,
        }
    }

    /// The number of addresses registered. If there is none the sync must not go on: senders
    /// would be given decoys.
    pub fn finish(self, server_url: &str) -> (done: Result<usize, String>)
        ensures
            match done {
                Ok(n) => n == self.registered && n > 0,
                Err(m) => self.registered == 0 && m@
                    == "RegisterCluePublicKey failed for all payment addresses ("@
                    + self.last_words()
                    + "). Ensure darkfi-lightwalletd with UnifOMR is reachable at "@ + server_url@
                    + "."@,
            },
    {
        if self.registered > 0 {
            return Ok(self.registered);
        }
        let mut m = "RegisterCluePublicKey failed for all payment addresses (".to_owned();
        match &self.last_error {
            Some(e) => m.append(e.as_str()),
            None => m.append("unknown"),
        }
        m.append("). Ensure darkfi-lightwalletd with UnifOMR is reachable at ");
        m.append(server_url);
        m.append(".");
        Err(m)
    }
}

// ---- What clues and registration promise ----

/// What was attested, built, refused or published is what the supplied function was given and
/// gave back; an attestation is asked for with the directory's key, the network, the entry's
/// version, the recipient, the entry's clue key and its proof.
pub proof fn law_checks_are_the_callers<
    V: Fn(&[u8], u8, u64, &[u8; 32], &[u8], &[u8]) -> Result<(), String>,
    B: Fn(&[u8]) -> Result<Vec<u8>, String>,
    P: Fn(&[u8; 32]) -> Option<[u8; 32]>,
>(
    verify: V,
    build: B,
    public_of: P,
    attest_pk: Seq<u8>,
    network: u8,
    recipient: Seq<u8>,
    entry: CluePublicKey,
    refusal: Option<Seq<char>>,
    clue_key: Seq<u8>,
    clue: Seq<u8>,
    reason: Seq<char>,
    secret: Seq<u8>,
    public: Option<Seq<u8>>,
)
    ensures
        attests(verify, attest_pk, network, recipient, entry, refusal) <==> exists|
            a: &[u8],
            r: &[u8; 32],
            c: &[u8],
            p: &[u8],
            out: Result<(), String>,
        |
            {
                &&& a@ == attest_pk
                &&& r@ == recipient
                &&& c@ == entry.clue_public_key@
                &&& p@ == entry.ownership_proof@
                &&& refusal is None <==> out is Ok
                &&& out is Err ==> refusal == Some(out->Err_0@)
                &&& #[trigger] call_ensures(verify, (a, network, entry.key_version, r, c, p), out)
            },
        builds(build, clue_key, clue) <==> exists|c: &[u8], v: Vec<u8>|
            c@ == clue_key && v@ == clue && #[trigger] call_ensures(build, (c,), Ok(v)),
        build_fails(build, clue_key, reason) <==> exists|c: &[u8], m: String|
            c@ == clue_key && m@ == reason && #[trigger] call_ensures(build, (c,), Err(m)),
        publishes(public_of, secret, public) <==> exists|s: &[u8; 32], out: Option<[u8; 32]>|
            {
                &&& s@ == secret
                &&& public is None <==> out is None
                &&& out is Some ==> public == Some(out->0@)
                &&& #[trigger] call_ensures(public_of, (s,), out)
            },
{
}

/// An address comes to the public key of the first bytes of its secret, with those bytes, and to
/// nothing where the secret is too short or is no key.
pub proof fn law_key_of_an_address<P: Fn(&[u8; 32]) -> Option<[u8; 32]>>(
    public_of: P,
    secret: Seq<u8>,
    key: Option<(Seq<u8>, Seq<u8>)>,
)
    ensures
        key_comes_to(public_of, secret, key) <==> {
            ||| secret.len() < 32 && key is None
            ||| secret.len() >= 32 && key is None && publishes(
                public_of,
                secret.subrange(0, 32),
                None,
            )
            ||| secret.len() >= 32 && key is Some && (key->0).1 == secret.subrange(0, 32)
                && publishes(public_of, secret.subrange(0, 32), Some((key->0).0))
        },
{
    if secret.len() >= 32 {
        assert(secret.take(32) =~= secret.subrange(0, 32));
    }
}

/// The keys found are those that were found, all of them and in their order.
pub proof fn law_found_keys(keys: Seq<Option<(Seq<u8>, Seq<u8>)>>) -> (at: Seq<int>)
    ensures
        at.len() == found_keys(keys).len(),
        forall|k: int|
            0 <= k < at.len() ==> 0 <= #[trigger] at[k] < keys.len() && keys[at[k]] == Some(
                found_keys(keys)[k],
            ),
        forall|j: int, k: int| 0 <= j < k < at.len() ==> #[trigger] at[j] < #[trigger] at[k],
        forall|i: int| 0 <= i < keys.len() && (#[trigger] keys[i]) is Some ==> at.contains(i),
    decreases keys.len(),
{
    if keys.len() == 0 {
        Seq::empty()
    } else {
        let n = keys.len() - 1;
        let rest = keys.drop_last();
        let before = law_found_keys(rest);
        let at = if keys[n] is Some {
            before.push(n)
        } else {
            before
        };
        assert forall|i: int| 0 <= i < keys.len() && (#[trigger] keys[i]) is Some implies at.contains(
            i,
        ) by {
            if i < n {
                assert(rest[i] is Some);
                let k = choose|k: int| 0 <= k < before.len() && before[k] == i;
                assert(at[k] == i);
            } else {
                assert(at[before.len() as int] == i);
            }
        }
        assert forall|k: int| 0 <= k < at.len() implies 0 <= #[trigger] at[k] < keys.len()
            && keys[at[k]] == Some(found_keys(keys)[k]) by {
            if k < before.len() {
                assert(at[k] == before[k]);
                assert(rest[before[k]] == keys[before[k]]);
            }
        }
        at
    }
}

/// Payment keys hold the public key first and its secret key second.
pub proof fn law_payment_keys_hold(keys: Seq<PaymentKey>, i: int)
    ensures
        key_views(keys).len() == keys.len(),
        0 <= i < keys.len() ==> key_views(keys)[i].0 == keys[i].0@ && key_views(keys)[i].1
            == keys[i].1@,
{
}

/// What is said last of a registration is its last error, or that there was none to tell.
pub proof fn law_last_words(r: Registration)
    ensures
        r.last_error is Some ==> r.last_words() == r.last_error->0@,
        r.last_error is None ==> r.last_words() == "unknown"@,
{
}

} // verus!
