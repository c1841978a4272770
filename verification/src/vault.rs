//! The vault lifecycle: creation with key custody, unlock by master
//! password, status reads, settings updates and locking.
//!
//! The session is in one of three states: uninitialised (no vault row),
//! locked (a row, no key in memory), or unlocked (a row and the key).
//! At creation the vault key is wrapped under a key derived from the
//! master password and persisted beside the password hash and the
//! derivation salt, so a later unlock with the same password provably
//! recovers it.

use vstd::prelude::*;
use vstd::string::StringSliceAdditionalSpecFns;

use crate::adapters::{fresh_uuid, rfc3339_of, MAX_TIMESTAMP_SECS};
use crate::adapters::format_rfc3339;
use crate::crypto::{
    aead_open_spec, decrypt_outcome, derived_key32, password_matches, phc_valid, verify_outcome,
    CryptoManager, KEY_LEN, SALT_LEN,
};
use crate::errors::{CryptoError, VaultError};
use crate::store::{MemoryRow, Store, VaultRow};
use crate::types::{VaultConfig, VaultStatus};

verus! {

/// How many memory rows belong to a vault.
pub open spec fn count_mem(ms: Seq<MemoryRow>, vid: Seq<char>) -> int
    decreases ms.len(),
{
    if ms.len() == 0 {
        0
    } else {
        count_mem(ms.drop_last(), vid) + if ms.last().vault_id@ == vid {
            1int
        } else {
            0int
        }
    }
}

/// Counts the memory rows of a vault.
#[verifier::loop_isolation(false)]
fn count_memories_of(ms: &Vec<MemoryRow>, vid: &str) -> (r: u64)
    ensures
        r == count_mem(ms@, vid@),
{
    let mut count: u64 = 0;
    let mut i: usize = 0;
    proof {
        assert(ms@.take(0) =~= Seq::<MemoryRow>::empty());
    }
    while i < ms.len()
        invariant
            i <= ms@.len(),
            count <= i,
            count == count_mem(ms@.take(i as int), vid@),
        decreases ms@.len() - i,
    {
        proof {
            assert(ms@.take(i + 1).drop_last() =~= ms@.take(i as int));
            assert(ms@.take(i + 1).last() == ms@[i as int]);
        }
        if crate::text::str_eq(ms[i].vault_id.as_str(), vid) {
            count = count + 1;
        }
        i = i + 1;
    }
    proof {
        assert(ms@.take(ms@.len() as int) =~= ms@);
    }
    count
}

/// Owns the vault lifecycle and the session's key material.
pub struct VaultManager {
    pub crypto: CryptoManager,
    pub store: Store,
    pub current_vault: Option<usize>,
    pub key: Option<Vec<u8>>,
    pub is_unlocked: bool,
}

impl VaultManager {
    /// The manager invariant: a well-formed store holding at most one
    /// vault row with a full-length derivation salt; the session index
    /// points at a row; an unlocked session holds a full-length key.
    pub open spec fn wf(&self) -> bool {
        &&& self.store.wf()
        &&& self.store.vaults@.len() <= 1
        &&& forall|i: int|
            0 <= i < self.store.vaults@.len() ==> (#[trigger] self.store.vaults@[i]).key_salt@.len()
                == SALT_LEN
        &&& match self.current_vault {
            Some(i) => (i as int) < self.store.vaults@.len(),
            None => true,
        }
        &&& self.is_unlocked ==> self.current_vault is Some && self.key is Some
    }

    /// A manager over a freshly initialised store: uninitialised and
    /// locked.
    pub fn new() -> (r: VaultManager)
        ensures
            r.wf(),
            r.store.vaults@.len() == 0,
            r.store.memories@.len() == 0,
            !r.is_unlocked,
            r.current_vault is None,
            r.key is None,
    {
        VaultManager {
            crypto: CryptoManager::new(),
            store: Store::new(),
            current_vault: None,
            key: None,
            is_unlocked: false,
        }
    }

    /// Creates the vault: valid only while no vault exists. Hashes the
    /// master password, generates the vault key, wraps it under the
    /// password-derived key, persists the row, and leaves the session
    /// unlocked with the key in memory.
    pub fn create_vault(&mut self, config: VaultConfig, master_password: &str, now: u64) -> (r:
        Result<VaultStatus, VaultError>)
        requires
            old(self).wf(),
            now <= MAX_TIMESTAMP_SECS,
        ensures
            final(self).wf(),
            final(self).store.memories == old(self).store.memories,
            final(self).store.chunks == old(self).store.chunks,
            final(self).store.tags == old(self).store.tags,
            final(self).store.memory_tags == old(self).store.memory_tags,
            final(self).store.citations == old(self).store.citations,
            final(self).store.embeddings == old(self).store.embeddings,
            old(self).store.vaults@.len() > 0 ==> r == Err::<VaultStatus, VaultError>(
                VaultError::Validation,
            ) && *final(self) == *old(self),
            old(self).store.vaults@.len() == 0 ==> r != Err::<VaultStatus, VaultError>(
                VaultError::Validation,
            ),
            r matches Err(e) ==> (e == VaultError::Validation || e matches VaultError::Crypto(_))
                && final(self).store.vaults == old(self).store.vaults && final(self).is_unlocked
                == old(self).is_unlocked && final(self).key == old(self).key,
            r matches Ok(st) ==> old(self).store.vaults@.len() == 0
                && final(self).store.vaults@.len() == 1 && ({
                let v = final(self).store.vaults@[0];
                let pw = master_password.spec_bytes();
                &&& v.name == config.name
                &&& v.description == config.description
                &&& v.encryption_enabled == config.encryption_enabled
                &&& v.created_at == now
                &&& v.updated_at == now
                &&& phc_valid(v.password_hash@)
                &&& password_matches(pw, v.password_hash@)
                &&& v.key_salt@.len() == SALT_LEN
                &&& v.encrypted_key@.len() >= 12
                &&& (final(self).key matches Some(k) && k@.len() == KEY_LEN && aead_open_spec(
                    v.encrypted_key@,
                    derived_key32(pw, v.key_salt@),
                ) == Some(k@))
                &&& final(self).is_unlocked
                &&& final(self).current_vault == Some(0usize)
                &&& st.is_initialized
                &&& st.is_unlocked
                &&& st.memory_count == 0
                &&& (st.name matches Some(n) && n@ == config.name@)
                &&& (st.last_sync matches Some(t) && t@ == rfc3339_of(now))
            }),
    {
        if self.store.vaults.len() > 0 {
            return Err(VaultError::Validation);
        }
        let password_hash = match self.crypto.hash_password(master_password) {
            Ok(h) => h,
            Err(e) => {
                return Err(VaultError::Crypto(e));
            },
        };
        let key_salt = match self.crypto.generate_salt() {
            Ok(s) => s,
            Err(e) => {
                return Err(VaultError::Crypto(e));
            },
        };
        let wrap_key = match self.crypto.derive_key(master_password, &key_salt) {
            Ok(k) => k,
            Err(e) => {
                return Err(VaultError::Crypto(e));
            },
        };
        let vault_key = match self.crypto.generate_key() {
            Ok(k) => k,
            Err(e) => {
                return Err(VaultError::Crypto(e));
            },
        };
        let encrypted_key = match self.crypto.encrypt_data(vault_key.as_slice(), &wrap_key) {
            Ok(c) => c,
            Err(e) => {
                return Err(VaultError::Crypto(e));
            },
        };
        let vault_id = fresh_uuid();
        let name_copy = config.name.clone();
        let row = VaultRow {
            id: vault_id,
            name: config.name,
            description: config.description,
            encryption_enabled: config.encryption_enabled,
            created_at: now,
            updated_at: now,
            password_hash,
            key_salt,
            encrypted_key,
        };
        self.store.vaults.push(row);
        self.current_vault = Some(0);
        self.key = Some(vault_key);
        self.is_unlocked = true;
        proof {
            crate::store::lemma_wf_same_tables(&old(self).store, &self.store);
        }
        Ok(
            VaultStatus {
                is_initialized: true,
                is_unlocked: true,
                name: Some(name_copy),
                memory_count: 0,
                last_sync: Some(format_rfc3339(now)),
            },
        )
    }

    /// Unlocks the vault: with no vault row, a well-formed
    /// "not initialised" status; otherwise the master password is
    /// verified against the stored hash, a failure leaves the session
    /// exactly as it was, and on success the stored wrapped key is
    /// unwrapped under the password-derived key into memory.
    pub fn unlock_vault(&mut self, master_password: &str) -> (r: Result<VaultStatus, VaultError>)
        requires
            old(self).wf(),
        ensures
            final(self).wf(),
            final(self).store == old(self).store,
            old(self).store.vaults@.len() == 0 ==> *final(self) == *old(self) && (r matches Ok(st)
                && !st.is_initialized && !st.is_unlocked && st.memory_count == 0 && st.name is None
                && st.last_sync is None),
            old(self).store.vaults@.len() > 0 ==> ({
                let v = old(self).store.vaults@[0];
                let pw = master_password.spec_bytes();
                &&& (!phc_valid(v.password_hash@) ==> r == Err::<VaultStatus, VaultError>(
                    VaultError::Crypto(CryptoError::InvalidFormat),
                ) && *final(self) == *old(self))
                &&& (phc_valid(v.password_hash@) && !password_matches(pw, v.password_hash@) ==> r
                    == Err::<VaultStatus, VaultError>(VaultError::Authentication) && *final(self)
                    == *old(self))
                &&& (phc_valid(v.password_hash@) && password_matches(pw, v.password_hash@) ==> (
                r matches Err(e) ==> e matches VaultError::Crypto(_) && *final(self) == *old(self)))
                &&& (phc_valid(v.password_hash@) && password_matches(pw, v.password_hash@)
                    && pw.len() <= 0xFFFF_FFFF && decrypt_outcome(
                    v.encrypted_key@,
                    derived_key32(pw, v.key_salt@),
                ) is Ok ==> r is Ok)
                &&& (r matches Ok(st) ==> phc_valid(v.password_hash@) && password_matches(
                    pw,
                    v.password_hash@,
                ) && (decrypt_outcome(v.encrypted_key@, derived_key32(pw, v.key_salt@)) matches Ok(
                    k,
                ) && final(self).key matches Some(kk) && kk@ == k) && final(self).is_unlocked
                    && final(self).current_vault == Some(0usize) && st.is_initialized
                    && st.is_unlocked && (st.name matches Some(n) && n@ == v.name@)
                    && st.memory_count == count_mem(old(self).store.memories@, v.id@) && (
                st.last_sync matches Some(t) && t@ == rfc3339_of(v.updated_at)))
            }),
    {
        if self.store.vaults.len() == 0 {
            return Ok(
                VaultStatus {
                    is_initialized: false,
                    is_unlocked: false,
                    name: None,
                    memory_count: 0,
                    last_sync: None,
                },
            );
        }
        let verified = match self.crypto.verify_password(
            master_password,
            self.store.vaults[0].password_hash.as_str(),
        ) {
            Ok(b) => b,
            Err(e) => {
                return Err(VaultError::Crypto(e));
            },
        };
        if !verified {
            return Err(VaultError::Authentication);
        }
        let wrap_key = match self.crypto.derive_key(master_password, &self.store.vaults[0].key_salt) {
            Ok(k) => k,
            Err(e) => {
                return Err(VaultError::Crypto(e));
            },
        };
        let vault_key = match self.crypto.decrypt_data(
            self.store.vaults[0].encrypted_key.as_slice(),
            &wrap_key,
        ) {
            Ok(k) => k,
            Err(e) => {
                return Err(VaultError::Crypto(e));
            },
        };
        let memory_count = count_memories_of(&self.store.memories, self.store.vaults[0].id.as_str());
        let name_copy = self.store.vaults[0].name.clone();
        let last_sync = format_rfc3339(self.store.vaults[0].updated_at);
        self.current_vault = Some(0);
        self.key = Some(vault_key);
        self.is_unlocked = true;
        Ok(
            VaultStatus {
                is_initialized: true,
                is_unlocked: true,
                name: Some(name_copy),
                memory_count,
                last_sync: Some(last_sync),
            },
        )
    }

    /// A pure read of the session state: safe from any state.
    pub fn get_status(&self) -> (r: Result<VaultStatus, VaultError>)
        requires
            self.wf(),
        ensures
            r is Ok,
            r matches Ok(st) ==> match self.current_vault {
                Some(i) => ({
                    let v = self.store.vaults@[i as int];
                    &&& st.is_initialized
                    &&& st.is_unlocked == self.is_unlocked
                    &&& (st.name matches Some(n) && n@ == v.name@)
                    &&& st.memory_count == count_mem(self.store.memories@, v.id@)
                    &&& (st.last_sync matches Some(t) && t@ == rfc3339_of(v.updated_at))
                }),
                None => !st.is_initialized && !st.is_unlocked && st.memory_count == 0
                    && st.name is None && st.last_sync is None,
            },
    {
        match self.current_vault {
            Some(i) => {
                let memory_count = count_memories_of(
                    &self.store.memories,
                    self.store.vaults[i].id.as_str(),
                );
                Ok(
                    VaultStatus {
                        is_initialized: true,
                        is_unlocked: self.is_unlocked,
                        name: Some(self.store.vaults[i].name.clone()),
                        memory_count,
                        last_sync: Some(format_rfc3339(self.store.vaults[i].updated_at)),
                    },
                )
            },
            None => Ok(
                VaultStatus {
                    is_initialized: false,
                    is_unlocked: false,
                    name: None,
                    memory_count: 0,
                    last_sync: None,
                },
            ),
        }
    }

    /// Partially updates the vault's name and description: only the
    /// given fields change, and the update time is bumped. Valid only
    /// while unlocked.
    pub fn update_settings(
        &mut self,
        name: Option<String>,
        description: Option<String>,
        now: u64,
    ) -> (r: Result<(), VaultError>)
        requires
            old(self).wf(),
            now <= MAX_TIMESTAMP_SECS,
        ensures
            final(self).wf(),
            final(self).store.memories == old(self).store.memories,
            final(self).store.chunks == old(self).store.chunks,
            final(self).store.tags == old(self).store.tags,
            final(self).store.memory_tags == old(self).store.memory_tags,
            final(self).store.citations == old(self).store.citations,
            final(self).store.embeddings == old(self).store.embeddings,
            !(old(self).is_unlocked && old(self).current_vault is Some) ==> r == Err::<
                (),
                VaultError,
            >(VaultError::Validation) && *final(self) == *old(self),
            old(self).is_unlocked ==> (old(self).current_vault matches Some(i) ==> r == Ok::<
                (),
                VaultError,
            >(()) && ({
                let v0 = old(self).store.vaults@[i as int];
                let v1 = final(self).store.vaults@[i as int];
                &&& final(self).store.vaults@.len() == old(self).store.vaults@.len()
                &&& v1.id == v0.id
                &&& v1.name == (match name {
                    Some(n) => n,
                    None => v0.name,
                })
                &&& v1.description == (match description {
                    Some(d) => Some(d),
                    None => v0.description,
                })
                &&& v1.encryption_enabled == v0.encryption_enabled
                &&& v1.created_at == v0.created_at
                &&& v1.updated_at == now
                &&& v1.password_hash == v0.password_hash
                &&& v1.key_salt == v0.key_salt
                &&& v1.encrypted_key == v0.encrypted_key
                &&& final(self).is_unlocked
                &&& final(self).current_vault == old(self).current_vault
                &&& final(self).key == old(self).key
                &&& final(self).store.memories == old(self).store.memories
            })),
    {
        if !self.is_unlocked {
            return Err(VaultError::Validation);
        }
        let i = match self.current_vault {
            Some(i) => i,
            None => {
                return Err(VaultError::Validation);
            },
        };
        let old_row = self.store.vaults.remove(i);
        let new_name = match name {
            Some(n) => n,
            None => old_row.name,
        };
        let new_desc = match description {
            Some(d) => Some(d),
            None => old_row.description,
        };
        let row = VaultRow {
            id: old_row.id,
            name: new_name,
            description: new_desc,
            encryption_enabled: old_row.encryption_enabled,
            created_at: old_row.created_at,
            updated_at: now,
            password_hash: old_row.password_hash,
            key_salt: old_row.key_salt,
            encrypted_key: old_row.encrypted_key,
        };
        self.store.vaults.insert(i, row);
        proof {
            assert(self.store.vaults@ =~= old(self).store.vaults@.update(
                i as int,
                self.store.vaults@[i as int],
            ));
            assert forall|j: int|
                0 <= j < self.store.vaults@.len() implies (
            #[trigger] self.store.vaults@[j]).created_at <= MAX_TIMESTAMP_SECS
                && self.store.vaults@[j].updated_at <= MAX_TIMESTAMP_SECS
                && self.store.vaults@[j].key_salt@.len() == SALT_LEN by {
                assert(old(self).store.vaults@[j].created_at <= MAX_TIMESTAMP_SECS
                    && old(self).store.vaults@[j].updated_at <= MAX_TIMESTAMP_SECS);
                assert(old(self).store.vaults@[j].key_salt@.len() == SALT_LEN);
            }
            crate::store::lemma_wf_same_tables(&old(self).store, &self.store);
        }
        Ok(())
    }

    /// Drops the in-memory key: the session is locked, the store
    /// untouched.
    pub fn lock(&mut self)
        requires
            old(self).wf(),
        ensures
            final(self).wf(),
            final(self).store == old(self).store,
            final(self).current_vault == old(self).current_vault,
            !final(self).is_unlocked,
            final(self).key is None,
    {
        self.key = None;
        self.is_unlocked = false;
    }

    /// Whether the session holds the key.
    pub fn is_unlocked(&self) -> (r: bool)
        ensures
            r == self.is_unlocked,
    {
        self.is_unlocked
    }

    /// The active vault's id, if a vault is active.
    pub fn get_vault_id(&self) -> (r: Option<&String>)
        requires
            self.wf(),
        ensures
            match r {
                Some(s) => self.current_vault matches Some(i) && s@ == self.store.vaults@[
                    i as int
                ].id@,
                None => self.current_vault is None,
            },
    {
        match self.current_vault {
            Some(i) => Some(&self.store.vaults[i].id),
            None => None,
        }
    }
}

/// Key recoverability: a vault row shaped as `create_vault` persists it
/// — the stored hash verifies against the master password, and the
/// wrapped key opens under the password-derived key — is exactly what a
/// later unlock with the same password verifies and recovers.
pub proof fn lemma_create_then_unlock(v: VaultRow, pw: Seq<u8>, k: Seq<u8>)
    requires
        phc_valid(v.password_hash@),
        password_matches(pw, v.password_hash@),
        v.encrypted_key@.len() >= 12,
        aead_open_spec(v.encrypted_key@, derived_key32(pw, v.key_salt@)) == Some(k),
    ensures
        verify_outcome(pw, v.password_hash@) == Ok::<bool, crate::errors::CryptoError>(true),
        decrypt_outcome(v.encrypted_key@, derived_key32(pw, v.key_salt@)) == Ok::<
            Seq<u8>,
            crate::errors::CryptoError,
        >(k),
{
    crate::crypto::lemma_hash_verify_round_trip(pw, v.password_hash@);
    crate::crypto::lemma_encrypt_decrypt_round_trip(
        v.encrypted_key@,
        derived_key32(pw, v.key_salt@),
        k,
    );
}

} // verus!
