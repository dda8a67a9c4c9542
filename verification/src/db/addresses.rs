//! Payment addresses.
use crate::bytes::byte_views;
use crate::db::model::{addresses_ok, WalletState};
use crate::db::rows::{address_views, Address, AddressRow};
use crate::db::secrets::{
    can_unwrap, can_wrap, inverse, unwrap_fails, unwrap_secret, unwraps, unwraps_to, wrap_secret,
    wraps_to,
};
use crate::db::{DbError, WalletDb};
use crate::text::str_eq;
use vstd::prelude::*;

verus! {

impl WalletState {
    /// There is an address with this public key.
    pub open spec fn has_address(self, public_key: Seq<char>) -> bool {
        exists|i: int|
            0 <= i < self.addresses.len() && (#[trigger] self.addresses[i]).public_key
                == public_key
    }

    /// The database with one address more, under the next id.
    pub open spec fn address_added(self, public_key: Seq<char>, secret_key: Seq<u8>) -> WalletState {
        let id = (self.last_address_id + 1) as i64;
        WalletState {
            addresses: self.addresses.push(
                Address { id, public_key, secret_key, is_default: false },
            ),
            last_address_id: id,
            ..self
        }
    }

    /// The database with the default mark on the address of this key, if there is one, and on
    /// no other.
    pub open spec fn default_set(self, public_key: Seq<char>) -> WalletState {
        self.with_addresses(
            Seq::new(
                self.addresses.len(),
                |i: int|
                    Address {
                        is_default: self.addresses[i].public_key == public_key,
                        ..self.addresses[i]
                    },
            ),
        )
    }

    /// The public key of the first address that is marked as default.
    pub open spec fn default_address(self) -> Option<Seq<char>> {
        first_default(self.addresses)
    }
}

/// The public key of the first address that is marked as default.
pub open spec fn first_default(addresses: Seq<Address>) -> Option<Seq<char>>
    decreases addresses.len(),
{
    if addresses.len() == 0 {
        None
    } else if addresses[0].is_default {
        Some(addresses[0].public_key)
    } else {
        first_default(addresses.skip(1))
    }
}

/// What unwrapping the first `n` address secrets in turn came to.
pub open spec fn secrets_read<U: Fn(&[u8]) -> Result<Vec<u8>, String>>(
    addresses: Seq<Address>,
    unwrap: U,
    secrets: Seq<Seq<u8>>,
) -> bool {
    &&& secrets.len() == addresses.len()
    &&& forall|i: int|
        0 <= i < secrets.len() ==> unwraps_to(
            unwrap,
            addresses[i].secret_key,
            #[trigger] secrets[i],
        )
}

/// The first address secret that `unwrap` refused was refused with this message.
pub open spec fn secrets_refused<U: Fn(&[u8]) -> Result<Vec<u8>, String>>(
    addresses: Seq<Address>,
    unwrap: U,
    message: Seq<char>,
) -> bool {
    exists|i: int|
        {
            &&& 0 <= i < addresses.len()
            &&& unwrap_fails(unwrap, (#[trigger] addresses[i]).secret_key, message)
            &&& forall|j: int| 0 <= j < i ==> unwraps(unwrap, (#[trigger] addresses[j]).secret_key)
        }
}

/// The secrets in a list of address keys.
pub open spec fn key_secrets(v: Seq<(String, Vec<u8>, bool)>) -> Seq<Seq<u8>> {
    Seq::new(v.len(), |i: int| v[i].1@)
}

impl WalletDb {
    /// Inserts a new address and gives its id. The secret is stored wrapped.
    pub fn insert_address<W: Fn(&[u8]) -> Vec<u8>>(
        &mut self,
        public_key: &str,
        secret_key: &[u8],
        wrap: W,
    ) -> (id: Result<i64, DbError>)
        requires
            old(self).wf(),
            can_wrap(wrap),
        ensures
            final(self).wf(),
            match id {
                Ok(id) => {
                    &&& old(self)@.last_address_id < i64::MAX
                    &&& !old(self)@.has_address(public_key@)
                    &&& id == old(self)@.last_address_id + 1
                    &&& exists|stored: Seq<u8>| #[trigger]
                        wraps_to(wrap, secret_key@, stored) && final(self)@ == old(
                            self,
                        )@.address_added(public_key@, stored)
                },
                Err(DbError::Full) => {
                    &&& old(self)@.last_address_id == i64::MAX
                    &&& final(self)@ == old(self)@
                },
                Err(DbError::DuplicateAddress) => {
                    &&& old(self)@.last_address_id < i64::MAX
                    &&& old(self)@.has_address(public_key@)
                    &&& final(self)@ == old(self)@
                },
                Err(_) => false,
            },
    {
        let ghost before = self@;
        proof {
            self.lemma_wf();
        }
        let stored = wrap_secret(&wrap, secret_key);
        if self.tables.last_address_id == i64::MAX {
            return Err(DbError::Full);
        }
        let mut i: usize = 0;
        while i < self.tables.addresses.len()
            invariant
                i <= self.tables.addresses@.len(),
                *self == *old(self),
                self.wf(),
                self@ == before,
                before.last_address_id < i64::MAX,
                forall|j: int|
                    0 <= j < i ==> (#[trigger] before.addresses[j]).public_key != public_key@,
            decreases self.tables.addresses.len() - i,
        {
            assert(before.addresses[i as int] == self.tables.addresses@[i as int]@);
            if str_eq(self.tables.addresses[i].public_key.as_str(), public_key) {
                return Err(DbError::DuplicateAddress);
            }
            i += 1;
        }
        let id: i64 = self.tables.last_address_id + 1;
        let ghost plain = stored@;
        self.tables.addresses.push(
            AddressRow {
                id,
                public_key: public_key.to_owned(),
                secret_key: stored,
                is_default: false,
            },
        );
        self.tables.last_address_id = id;
        proof {
            let after = before.address_added(public_key@, plain);
            assert(self@.addresses =~= after.addresses);
            assert(self@ == after);
            assert(addresses_ok(self@.addresses)) by {
                let s = self@.addresses;
                assert forall|a: int, b: int| 0 <= a < b < s.len() implies (#[trigger] s[a]).id < (
                #[trigger] s[b]).id && s[a].public_key != s[b].public_key by {
                    assert(s[a] == before.addresses[a]);
                    if b < before.addresses.len() {
                        assert(s[b] == before.addresses[b]);
                    }
                }
            }
            assert forall|a: int| 0 <= a < self.tables.addresses@.len() implies (
            #[trigger] self.tables.addresses@[a]).id <= id by {
                if a < before.addresses.len() {
                    assert(before.addresses[a].id <= before.last_address_id);
                    assert(self@.addresses[a] == before.addresses[a]);
                }
            }
        }
        Ok(id)
    }

    /// Marks the address of this key as the default one, and no other.
    pub fn set_default_address(&mut self, public_key: &str) -> (done: Result<(), DbError>)
        requires
            old(self).wf(),
        ensures
            final(self).wf(),
            done is Ok,
            final(self)@ == old(self)@.default_set(public_key@),
    {
        let ghost before = self@.addresses;
        mark_default(&mut self.tables.addresses, public_key);
        proof {
            let s = self@.addresses;
            assert(self@ =~= old(self)@.default_set(public_key@));
            assert(addresses_ok(s)) by {
                assert forall|a: int, b: int| 0 <= a < b < s.len() implies (#[trigger] s[a]).id < (
                #[trigger] s[b]).id && s[a].public_key != s[b].public_key by {
                    assert(before[a].id < before[b].id);
                    assert(before[a].public_key != before[b].public_key);
                }
            }
            assert forall|a: int| 0 <= a < self.tables.addresses@.len() implies (
            #[trigger] self.tables.addresses@[a]).id <= self.tables.last_address_id by {
                assert(s[a].id == before[a].id);
                assert(old(self).tables.addresses@[a].id == before[a].id);
            }
        }
        Ok(())
    }

    /// The public key of the default address.
    pub fn get_default_address(&self) -> (address: Result<Option<String>, DbError>)
        ensures
            address matches Ok(a) && crate::db::rows::opt_text(a) == self@.default_address(),
    {
        let rows = &self.tables.addresses;
        let ghost views = self@.addresses;
        let mut i: usize = 0;
        assert(views.skip(0) =~= views);
        while i < rows.len()
            invariant
                i <= rows.len(),
                views == address_views(rows@),
                views == self@.addresses,
                first_default(views) == first_default(views.skip(i as int)),
            decreases rows.len() - i,
        {
            assert(views.skip(i as int)[0] == rows@[i as int]@);
            if rows[i].is_default {
                return Ok(Some(rows[i].public_key.clone()));
            }
            assert(views.skip(i as int).skip(1) =~= views.skip(i as int + 1));
            i += 1;
        }
        Ok(None)
    }

    /// The public keys of all addresses by rising id, each with its default mark.
    pub fn list_addresses(&self) -> (listed: Result<Vec<(String, bool)>, DbError>)
        ensures
            listed matches Ok(v) && v@.len() == self@.addresses.len() && forall|i: int|
                0 <= i < v@.len() ==> (#[trigger] v@[i]).0@ == self@.addresses[i].public_key
                    && v@[i].1 == self@.addresses[i].is_default,
    {
        let rows = &self.tables.addresses;
        let mut v: Vec<(String, bool)> = Vec::new();
        let mut i: usize = 0;
        while i < rows.len()
            invariant
                i <= rows.len(),
                v@.len() == i,
                forall|k: int|
                    0 <= k < i ==> (#[trigger] v@[k]).0@ == rows@[k]@.public_key && v@[k].1
                        == rows@[k]@.is_default,
            decreases rows.len() - i,
        {
            v.push((rows[i].public_key.clone(), rows[i].is_default));
            i += 1;
        }
        Ok(v)
    }

    /// All address secret keys, unwrapped, by rising id.
    pub fn get_all_secrets<U: Fn(&[u8]) -> Result<Vec<u8>, String>>(&self, unwrap: U) -> (secrets:
        Result<Vec<Vec<u8>>, DbError>)
        requires
            can_unwrap(unwrap),
        ensures
            match secrets {
                Ok(v) => secrets_read(self@.addresses, unwrap, byte_views(v@)),
                Err(DbError::Unwrap(m)) => secrets_refused(self@.addresses, unwrap, m@),
                Err(_) => false,
            },
    {
        let rows = &self.tables.addresses;
        let ghost views = self@.addresses;
        let mut v: Vec<Vec<u8>> = Vec::new();
        let mut i: usize = 0;
        while i < rows.len()
            invariant
                i <= rows.len(),
                can_unwrap(unwrap),
                views == address_views(rows@),
                views == self@.addresses,
                v@.len() == i,
                forall|k: int|
                    0 <= k < i ==> unwraps_to(unwrap, views[k].secret_key, (#[trigger] v@[k])@),
            decreases rows.len() - i,
        {
            assert(views[i as int] == rows@[i as int]@);
            match unwrap_secret(&unwrap, rows[i].secret_key.as_slice()) {
                Ok(plain) => {
                    v.push(plain);
                },
                Err(m) => {
                    assert forall|j: int| 0 <= j < i implies unwraps(
                        unwrap,
                        (#[trigger] views[j]).secret_key,
                    ) by {
                        assert(unwraps_to(unwrap, views[j].secret_key, v@[j]@));
                    }
                    assert(unwrap_fails(unwrap, views[i as int].secret_key, m@));
                    return Err(DbError::Unwrap(m));
                },
            }
            i += 1;
        }
        assert(secrets_read(views, unwrap, byte_views(v@)));
        Ok(v)
    }

    /// The public key, the unwrapped secret key and the default mark of every address, by rising
    /// id.
    pub fn get_all_address_keys<U: Fn(&[u8]) -> Result<Vec<u8>, String>>(&self, unwrap: U) -> (keys:
        Result<Vec<(String, Vec<u8>, bool)>, DbError>)
        requires
            can_unwrap(unwrap),
        ensures
            match keys {
                Ok(v) => {
                    &&& secrets_read(self@.addresses, unwrap, key_secrets(v@))
                    &&& forall|i: int|
                        0 <= i < v@.len() ==> (#[trigger] v@[i]).0@ == self@.addresses[i].public_key
                            && v@[i].2 == self@.addresses[i].is_default
                },
                Err(DbError::Unwrap(m)) => secrets_refused(self@.addresses, unwrap, m@),
                Err(_) => false,
            },
    {
        let rows = &self.tables.addresses;
        let ghost views = self@.addresses;
        let mut v: Vec<(String, Vec<u8>, bool)> = Vec::new();
        let mut i: usize = 0;
        while i < rows.len()
            invariant
                i <= rows.len(),
                can_unwrap(unwrap),
                views == address_views(rows@),
                views == self@.addresses,
                v@.len() == i,
                forall|k: int|
                    0 <= k < i ==> {
                        &&& unwraps_to(unwrap, views[k].secret_key, (#[trigger] v@[k]).1@)
                        &&& v@[k].0@ == views[k].public_key
                        &&& v@[k].2 == views[k].is_default
                    },
            decreases rows.len() - i,
        {
            assert(views[i as int] == rows@[i as int]@);
            match unwrap_secret(&unwrap, rows[i].secret_key.as_slice()) {
                Ok(plain) => {
                    v.push((rows[i].public_key.clone(), plain, rows[i].is_default));
                },
                Err(m) => {
                    assert forall|j: int| 0 <= j < i implies unwraps(
                        unwrap,
                        (#[trigger] views[j]).secret_key,
                    ) by {
                        assert(unwraps_to(unwrap, views[j].secret_key, v@[j].1@));
                    }
                    assert(unwrap_fails(unwrap, views[i as int].secret_key, m@));
                    return Err(DbError::Unwrap(m));
                },
            }
            i += 1;
        }
        assert(secrets_read(views, unwrap, key_secrets(v@)));
        Ok(v)
    }
}

/// Sets the default mark of every row by its key.
fn mark_default(rows: &mut Vec<AddressRow>, public_key: &str)
    ensures
        final(rows)@.len() == old(rows)@.len(),
        forall|j: int|
            0 <= j < final(rows)@.len() ==> (#[trigger] final(rows)@[j])@ == (Address {
                is_default: old(rows)@[j]@.public_key == public_key@,
                ..old(rows)@[j]@
            }),
{
    let ghost before = rows@;
    let mut i: usize = 0;
    while i < rows.len()
        invariant
            i <= rows.len(),
            rows@.len() == before.len(),
            forall|j: int|
                0 <= j < i ==> (#[trigger] rows@[j])@ == (Address {
                    is_default: before[j]@.public_key == public_key@,
                    ..before[j]@
                }),
            forall|j: int| i <= j < rows@.len() ==> #[trigger] rows@[j] == before[j],
        decreases rows.len() - i,
    {
        let is_default = str_eq(rows[i].public_key.as_str(), public_key);
        rows[i].is_default = is_default;
        i += 1;
    }
}

proof fn lemma_first_default(addresses: Seq<Address>, i: int)
    requires
        0 <= i < addresses.len(),
        addresses[i].is_default,
        forall|j: int| 0 <= j < i ==> !(#[trigger] addresses[j]).is_default,
    ensures
        first_default(addresses) == Some(addresses[i].public_key),
    decreases i,
{
    if i > 0 {
        let t = addresses.skip(1);
        assert(!addresses[0].is_default);
        assert forall|j: int| 0 <= j < i - 1 implies !(#[trigger] t[j]).is_default by {
            assert(!addresses[j + 1].is_default);
        }
        lemma_first_default(t, i - 1);
    }
}

proof fn lemma_no_default(addresses: Seq<Address>)
    requires
        forall|j: int| 0 <= j < addresses.len() ==> !(#[trigger] addresses[j]).is_default,
    ensures
        first_default(addresses) is None,
    decreases addresses.len(),
{
    if addresses.len() > 0 {
        let t = addresses.skip(1);
        assert(!addresses[0].is_default);
        assert forall|j: int| 0 <= j < t.len() implies !(#[trigger] t[j]).is_default by {
            assert(!addresses[j + 1].is_default);
        }
        lemma_no_default(t);
    }
}

/// After a default has been set, it is the default if its address exists, and there is none
/// otherwise; no other address bears the mark.
pub proof fn law_default_address(state: WalletState, public_key: Seq<char>)
    requires
        state.wf(),
    ensures
        state.default_set(public_key).default_address() == if state.has_address(public_key) {
            Some(public_key)
        } else {
            None
        },
        forall|i: int|
            0 <= i < state.addresses.len() ==> (#[trigger] state.default_set(
                public_key,
            ).addresses[i]).is_default == (state.addresses[i].public_key == public_key),
{
    let after = state.default_set(public_key).addresses;
    if state.has_address(public_key) {
        let i = choose|i: int|
            0 <= i < state.addresses.len() && (#[trigger] state.addresses[i]).public_key
                == public_key;
        assert forall|j: int| 0 <= j < i implies !(#[trigger] after[j]).is_default by {
            assert(state.addresses[j].public_key != state.addresses[i].public_key);
        }
        lemma_first_default(after, i);
    } else {
        assert forall|j: int| 0 <= j < after.len() implies !(#[trigger] after[j]).is_default by {
            assert(state.addresses[j].public_key != public_key);
        }
        lemma_no_default(after);
    }
}

/// With a wrapping scheme whose `unwrap` undoes its `wrap`, the secret of a freshly inserted
/// address is read back as it was given.
pub proof fn law_secret_reads_back<
    W: Fn(&[u8]) -> Vec<u8>,
    U: Fn(&[u8]) -> Result<Vec<u8>, String>,
>(
    state: WalletState,
    public_key: Seq<char>,
    plain: Seq<u8>,
    stored: Seq<u8>,
    wrap: W,
    unwrap: U,
    secrets: Seq<Seq<u8>>,
)
    requires
        inverse(wrap, unwrap),
        wraps_to(wrap, plain, stored),
        secrets_read(state.address_added(public_key, stored).addresses, unwrap, secrets),
    ensures
        secrets.last() == plain,
{
    let after = state.address_added(public_key, stored).addresses;
    let n = state.addresses.len();
    assert(after[n as int].secret_key == stored);
    assert(unwraps_to(unwrap, stored, secrets[n as int]));
}

/// The secrets read are one for each address, in their order, and each is what `unwrap` gave for
/// what is stored of that address.
pub proof fn law_secrets_are_read<U: Fn(&[u8]) -> Result<Vec<u8>, String>>(
    addresses: Seq<Address>,
    unwrap: U,
    secrets: Seq<Seq<u8>>,
    i: int,
)
    requires
        secrets_read(addresses, unwrap, secrets),
    ensures
        secrets.len() == addresses.len(),
        0 <= i < addresses.len() ==> exists|stored: &[u8], plain: Vec<u8>|
            {
                &&& stored@ == addresses[i].secret_key
                &&& plain@ == secrets[i]
                &&& #[trigger] call_ensures(unwrap, (stored,), Ok(plain))
            },
{
    if 0 <= i < addresses.len() {
        assert(unwraps_to(unwrap, addresses[i].secret_key, secrets[i]));
    }
}

/// A refusal is told in the words in which `unwrap` refused a stored secret, the first that it
/// refused.
pub proof fn law_secrets_are_refused<U: Fn(&[u8]) -> Result<Vec<u8>, String>>(
    addresses: Seq<Address>,
    unwrap: U,
    message: Seq<char>,
    j: int,
) -> (at: int)
    requires
        secrets_refused(addresses, unwrap, message),
    ensures
        0 <= at < addresses.len(),
        exists|stored: &[u8], words: String|
            {
                &&& stored@ == addresses[at].secret_key
                &&& words@ == message
                &&& #[trigger] call_ensures(unwrap, (stored,), Err(words))
            },
        0 <= j < at ==> exists|stored: &[u8], plain: Vec<u8>|
            {
                &&& stored@ == addresses[j].secret_key
                &&& #[trigger] call_ensures(unwrap, (stored,), Ok(plain))
            },
{
    let i = choose|i: int|
        {
            &&& 0 <= i < addresses.len()
            &&& unwrap_fails(unwrap, (#[trigger] addresses[i]).secret_key, message)
            &&& forall|j: int| 0 <= j < i ==> unwraps(unwrap, (#[trigger] addresses[j]).secret_key)
        };
    assert(unwrap_fails(unwrap, addresses[i].secret_key, message));
    if 0 <= j < i {
        assert(unwraps(unwrap, addresses[j].secret_key));
    }
    i
}

/// The secrets of address keys stand in the middle.
pub proof fn law_secrets_of_keys(keys: Seq<(String, Vec<u8>, bool)>, i: int)
    ensures
        key_secrets(keys).len() == keys.len(),
        0 <= i < keys.len() ==> key_secrets(keys)[i] == keys[i].1@,
{
}

} // verus!
