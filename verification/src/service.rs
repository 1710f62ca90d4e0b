//! The identity/profile service: the two tables (profiles and admin
//! authorization), checkpointed into their virtual regions of the
//! persistent memory at the upgrade boundary; the volatile
//! stable-maintenance set, re-populated after an upgrade by explicit
//! calls; the guard checks; and the upgrade coordinator itself. Every
//! privileged operation checks its guard first and changes nothing
//! when the guard refuses.
use vstd::prelude::*;
use vstd::bytes::*;
use crate::Error;
use crate::PAGE_SIZE;
use crate::auth::IdentitySet;
use crate::codec::Profile;
use crate::codec::ProfileV;
use crate::codec::spec_decode_profile;
use crate::codec::spec_encode_profile;
use crate::codec::view_opt_bytes;
use crate::crypto::spec_password;
use crate::principal::principal_text_of;
use crate::region::RawRegion;
use crate::region::RegionManager;
use crate::store::ByteStore;
use crate::store::EntryV;
use crate::store::has_key;
use crate::store::spec_get;
use crate::store::spec_insert;
use crate::store::spec_remove;

verus! {

/// Size budget for a stored key: a raw principal.
pub const MAX_KEY_SIZE: u32 = 29;

/// Size budget for an encoded profile record.
pub const MAX_PROFILE_BYTES: u32 = 256;

/// Size of an encoded authorization level.
pub const AUTH_VALUE_BYTES: u32 = 4;

/// The one privilege level, admin, as its stored little-endian value.
pub open spec fn spec_admin_value() -> Seq<u8> {
    spec_u32_to_le_bytes(0)
}

/// Build the stored form of the admin privilege level.
pub fn admin_value() -> (r: Vec<u8>)
    ensures
        r@ == spec_admin_value(),
        r@.len() == 4,
{
    let v = u32_to_le_bytes(0);
    proof {
        lemma_auto_spec_u32_to_from_le_bytes();
    }
    v
}

/// `a >= b` on optional timestamps, an absent one ranking lowest.
pub open spec fn time_ge(a: Option<u64>, b: Option<u64>) -> bool {
    match (a, b) {
        (None, None) => true,
        (None, Some(_)) => false,
        (Some(_), None) => true,
        (Some(x), Some(y)) => x >= y,
    }
}

fn time_ge_exec(a: &Option<u64>, b: &Option<u64>) -> (r: bool)
    ensures
        r == time_ge(*a, *b),
{
    match (a, b) {
        (None, None) => true,
        (None, Some(_)) => false,
        (Some(_), None) => true,
        (Some(x), Some(y)) => *x >= *y,
    }
}

/// Every stored profile value decodes.
pub open spec fn profiles_wf(es: Seq<EntryV>) -> bool {
    forall|i: int| 0 <= i < es.len() ==> spec_decode_profile((#[trigger] es[i]).1) is Some
}

/// Every stored authorization value is the admin level.
pub open spec fn auth_wf(es: Seq<EntryV>) -> bool {
    forall|i: int| 0 <= i < es.len() ==> (#[trigger] es[i]).1 == spec_admin_value()
}

/// The profile stored under a key, as a model value.
pub open spec fn spec_profile_of(es: Seq<EntryV>, k: Seq<u8>) -> Option<ProfileV> {
    match spec_get(es, k) {
        Some(v) => spec_decode_profile(v),
        None => None,
    }
}

/// The whole service: the raw region and its manager, the two durable
/// tables, and the volatile stable-maintenance set.
pub struct Service {
    pub region: RawRegion,
    pub mgr: RegionManager,
    pub profiles: ByteStore,
    pub auth: ByteStore,
    pub stable_auth: IdentitySet,
}

impl Service {
    pub open spec fn wf(&self) -> bool {
        &&& self.region.wf()
        &&& self.mgr.wf()
        &&& self.mgr.covered(self.region@)
        &&& self.profiles.wf()
        &&& self.profiles.max_key_size == MAX_KEY_SIZE
        &&& self.profiles.max_value_size == MAX_PROFILE_BYTES
        &&& profiles_wf(self.profiles@)
        &&& self.auth.wf()
        &&& self.auth.max_key_size == MAX_KEY_SIZE
        &&& self.auth.max_value_size == AUTH_VALUE_BYTES
        &&& auth_wf(self.auth@)
    }

    /// First deployment: empty tables, the deployer granted both the
    /// admin and the stable-maintenance privilege.
    pub fn init(deployer: &Vec<u8>) -> (s: Service)
        requires
            deployer@.len() <= MAX_KEY_SIZE,
        ensures
            s.wf(),
            s.profiles@ == Seq::<EntryV>::empty(),
            s.auth@ == spec_insert(Seq::<EntryV>::empty(), deployer@, spec_admin_value()),
            s.stable_auth@ == Set::<Seq<u8>>::empty().insert(deployer@),
            s.region@ == Seq::<u8>::empty(),
    {
        let mut s = Service {
            region: RawRegion::new(),
            mgr: RegionManager::new(),
            profiles: ByteStore::new(MAX_KEY_SIZE, MAX_PROFILE_BYTES),
            auth: ByteStore::new(MAX_KEY_SIZE, AUTH_VALUE_BYTES),
            stable_auth: IdentitySet::new(),
        };
        s.grant_admin(deployer);
        s.stable_auth.insert(deployer);
        s
    }

    /// The admin guard: is this identity in the durable admin table?
    pub open spec fn spec_is_authorized(&self, id: Seq<u8>) -> bool {
        has_key(self.auth@, id)
    }

    pub fn is_authorized(&self, id: &Vec<u8>) -> (r: bool)
        ensures
            r == self.spec_is_authorized(id@),
    {
        self.auth.contains(id)
    }

    /// The stable-maintenance guard: is this identity in the volatile
    /// set?
    pub open spec fn spec_is_stable_authorized(&self, id: Seq<u8>) -> bool {
        self.stable_auth@.contains(id)
    }

    pub fn is_stable_authorized(&self, id: &Vec<u8>) -> (r: bool)
        ensures
            r == self.spec_is_stable_authorized(id@),
    {
        self.stable_auth.contains(id)
    }

    /// Grant the admin privilege; idempotent in effect, since an equal
    /// key and value are written over themselves.
    fn grant_admin(&mut self, principal: &Vec<u8>)
        requires
            old(self).wf(),
            principal@.len() <= MAX_KEY_SIZE,
        ensures
            final(self).wf(),
            final(self).auth@ == spec_insert(old(self).auth@, principal@, spec_admin_value()),
            final(self).profiles == old(self).profiles,
            final(self).region == old(self).region,
            final(self).mgr == old(self).mgr,
            final(self).stable_auth == old(self).stable_auth,
    {
        let key = crate::codec::copy_bytes(principal);
        let value = admin_value();
        self.auth.insert(key, value);
        proof {
            crate::store::lemma_insert_entries_from(
                old(self).auth@,
                principal@,
                spec_admin_value(),
            );
        }
    }

    /// Admin-guarded: grant the admin privilege to an identity.
    pub fn authorize(&mut self, caller: &Vec<u8>, principal: &Vec<u8>) -> (r: Result<(), Error>)
        requires
            old(self).wf(),
        ensures
            final(self).wf(),
            final(self).profiles == old(self).profiles,
            final(self).region == old(self).region,
            final(self).mgr == old(self).mgr,
            final(self).stable_auth == old(self).stable_auth,
            match r {
                Ok(_) => {
                    &&& old(self).spec_is_authorized(caller@)
                    &&& principal@.len() <= MAX_KEY_SIZE
                    &&& final(self).auth@ == spec_insert(
                        old(self).auth@,
                        principal@,
                        spec_admin_value(),
                    )
                },
                Err(e) => {
                    &&& final(self).auth@ == old(self).auth@
                    &&& (e == Error::NotAuthorized && !old(self).spec_is_authorized(caller@) || (e
                        == Error::KeyTooLarge && old(self).spec_is_authorized(caller@)
                        && principal@.len() > MAX_KEY_SIZE))
                },
            },
    {
        if !self.is_authorized(caller) {
            return Err(Error::NotAuthorized);
        }
        if principal.len() > MAX_KEY_SIZE as usize {
            return Err(Error::KeyTooLarge);
        }
        self.grant_admin(principal);
        Ok(())
    }

    /// Admin-guarded: revoke the admin privilege. Revoking an identity
    /// that was never authorized fails and changes nothing.
    pub fn deauthorize(&mut self, caller: &Vec<u8>, principal: &Vec<u8>) -> (r: Result<(), Error>)
        requires
            old(self).wf(),
        ensures
            final(self).wf(),
            final(self).profiles == old(self).profiles,
            final(self).region == old(self).region,
            final(self).mgr == old(self).mgr,
            final(self).stable_auth == old(self).stable_auth,
            match r {
                Ok(_) => {
                    &&& old(self).spec_is_authorized(caller@)
                    &&& has_key(old(self).auth@, principal@)
                    &&& final(self).auth@ == spec_remove(old(self).auth@, principal@)
                },
                Err(e) => {
                    &&& final(self).auth@ == old(self).auth@
                    &&& (e == Error::NotAuthorized && !old(self).spec_is_authorized(caller@) || (e
                        == Error::NotFound && old(self).spec_is_authorized(caller@) && !has_key(
                        old(self).auth@,
                        principal@,
                    )))
                },
            },
    {
        if !self.is_authorized(caller) {
            return Err(Error::NotAuthorized);
        }
        match self.auth.remove(principal) {
            Some(_) => {
                proof {
                    crate::store::lemma_remove_entries_from(old(self).auth@, principal@);
                }
                Ok(())
            },
            None => Err(Error::NotFound),
        }
    }

    /// Stable-maintenance-guarded: add an identity to the volatile
    /// stable-maintenance set.
    pub fn stable_authorize(&mut self, caller: &Vec<u8>, principal: &Vec<u8>) -> (r: Result<
        (),
        Error,
    >)
        requires
            old(self).wf(),
        ensures
            final(self).wf(),
            final(self).profiles == old(self).profiles,
            final(self).auth == old(self).auth,
            final(self).region == old(self).region,
            final(self).mgr == old(self).mgr,
            match r {
                Ok(_) => {
                    &&& old(self).spec_is_stable_authorized(caller@)
                    &&& final(self).stable_auth@ == old(self).stable_auth@.insert(principal@)
                },
                Err(e) => {
                    &&& e == Error::NotStableAuthorized
                    &&& !old(self).spec_is_stable_authorized(caller@)
                    &&& final(self).stable_auth == old(self).stable_auth
                },
            },
    {
        if !self.is_stable_authorized(caller) {
            return Err(Error::NotStableAuthorized);
        }
        self.stable_auth.insert(principal);
        Ok(())
    }

    /// Admin-guarded: the identities holding the admin privilege, in
    /// key order.
    pub fn get_authorized(&self, caller: &Vec<u8>) -> (r: Result<Vec<Vec<u8>>, Error>)
        ensures
            match r {
                Ok(v) => {
                    &&& self.spec_is_authorized(caller@)
                    &&& v@.len() == self.auth@.len()
                    &&& forall|i: int| 0 <= i < v@.len() ==> (#[trigger] v@[i])@ == self.auth@[i].0
                },
                Err(e) => {
                    &&& e == Error::NotAuthorized
                    &&& !self.spec_is_authorized(caller@)
                },
            },
    {
        if !self.is_authorized(caller) {
            return Err(Error::NotAuthorized);
        }
        let mut out: Vec<Vec<u8>> = Vec::new();
        let mut i: usize = 0;
        while i < self.auth.entries.len()
            invariant
                i <= self.auth@.len(),
                self.auth@.len() == self.auth.entries@.len(),
                self.spec_is_authorized(caller@),
                out@.len() == i,
                forall|j: int| 0 <= j < i ==> (#[trigger] out@[j])@ == self.auth@[j].0,
            decreases self.auth@.len() - i,
        {
            proof {
                assert(self.auth@[i as int] == (
                    self.auth.entries@[i as int].0@,
                    self.auth.entries@[i as int].1@,
                ));
            }
            out.push(crate::codec::copy_bytes(&self.auth.entries[i].0));
            i += 1;
        }
        Ok(out)
    }

    /// Look up the caller's profile; an unregistered identity is
    /// refused.
    pub fn login(&self, caller: &Vec<u8>) -> (r: Result<Profile, Error>)
        requires
            self.wf(),
        ensures
            match r {
                Ok(p) => spec_profile_of(self.profiles@, caller@) == Some(p@),
                Err(e) => {
                    &&& e == Error::NotFound
                    &&& !has_key(self.profiles@, caller@)
                },
            },
    {
        match self.profiles.get(caller) {
            Some(v) => {
                proof {
                    crate::store::lemma_get_values_from(self.profiles@, caller@);
                }
                match crate::codec::decode_profile(&v) {
                    Some(p) => Ok(p),
                    None => {
                        proof {
                            let es = self.profiles@;
                            let i = choose|i: int|
                                0 <= i < es.len() && (#[trigger] es[i]).0 == caller@ && es[i].1
                                    == spec_get(es, caller@).unwrap();
                            assert(spec_decode_profile(es[i].1) is Some);
                            assert(false);
                        }
                        Err(Error::NotFound)
                    },
                }
            },
            None => Err(Error::NotFound),
        }
    }
}

// ------------------------------------------------------------------
// Profile operations.
// ------------------------------------------------------------------
/// The profile as stored when the caller supplied no password: one
/// derived from the host's random bytes.
pub open spec fn spec_with_password(p: ProfileV, rand: Seq<u8>) -> ProfileV {
    match p.password {
        Some(_) => p,
        None => ProfileV {
            updated_time_msecs: p.updated_time_msecs,
            username: p.username,
            password: Some(spec_password(rand)),
            email: p.email,
        },
    }
}

/// What `set_profile` does to the profile table: an update is dropped
/// unless strictly newer than the stored record; otherwise the profile,
/// with a password filled in if absent, replaces it.
pub open spec fn spec_set_profile(
    es: Seq<EntryV>,
    caller: Seq<u8>,
    p: ProfileV,
    rand: Seq<u8>,
) -> Seq<EntryV> {
    match spec_profile_of(es, caller) {
        Some(stored) if time_ge(stored.updated_time_msecs, p.updated_time_msecs) => es,
        _ => spec_insert(es, caller, spec_encode_profile(spec_with_password(p, rand))),
    }
}

/// The profile as stored by `register`: the submission time defaults to
/// the host clock, the username to the caller's canonical text form,
/// and the password to one derived from the host's random bytes.
pub open spec fn spec_register_fill(
    p: ProfileV,
    caller: Seq<u8>,
    now_msecs: u64,
    rand: Seq<u8>,
) -> ProfileV {
    spec_with_password(
        ProfileV {
            updated_time_msecs: match p.updated_time_msecs {
                Some(t) => Some(t),
                None => Some(now_msecs),
            },
            username: match p.username {
                Some(u) => Some(u),
                None => Some(principal_text_of(caller)),
            },
            password: p.password,
            email: p.email,
        },
        rand,
    )
}

/// A record whose fields are a present timestamp, a username of at
/// most 63 bytes, a 64-byte password and no email encodes well within
/// the record budget.
proof fn lemma_default_fill_fits(f: ProfileV)
    requires
        f.updated_time_msecs is Some,
        f.username matches Some(u) && u.len() <= 63,
        f.password matches Some(pw) && pw.len() == 64,
        f.email is None,
    ensures
        spec_encode_profile(f).len() <= MAX_PROFILE_BYTES,
{
    lemma_auto_spec_u64_to_from_le_bytes();
    lemma_auto_spec_u32_to_from_le_bytes();
    assert(crate::codec::enc_opt_u64(f.updated_time_msecs).len() == 9);
    assert(crate::codec::enc_opt_bytes(f.username).len() <= 68);
    assert(crate::codec::enc_opt_bytes(f.password).len() == 69);
    assert(crate::codec::enc_opt_bytes(f.email).len() == 1);
}

/// An unencodable profile is far over the record budget.
proof fn lemma_nonencodable_len(p: ProfileV)
    requires
        !crate::codec::profile_encodable(p),
    ensures
        spec_encode_profile(p).len() > MAX_PROFILE_BYTES,
{
    if !crate::codec::bounded_opt(p.username, u32::MAX as nat) {
        assert(spec_encode_profile(p).len() >= p.username.unwrap().len());
    } else if !crate::codec::bounded_opt(p.password, u32::MAX as nat) {
        assert(spec_encode_profile(p).len() >= p.password.unwrap().len());
    } else {
        assert(spec_encode_profile(p).len() >= p.email.unwrap().len());
    }
}

impl Service {
    /// Fill in a missing password from the host's random bytes.
    fn fill_password(profile: &Profile, rand: &Vec<u8>) -> (r: Profile)
        ensures
            r@ == spec_with_password(profile@, rand@),
            profile@.password is None ==> spec_password(rand@).len() == 64,
    {
        let mut p = profile.duplicate();
        match &p.password {
            Some(_) => {
            },
            None => {
                p.password = Some(crate::crypto::derive_password(rand));
            },
        }
        p
    }

    /// Encode a profile for storage, refusing one over the record
    /// budget.
    fn encode_checked(p: &Profile) -> (r: Result<Vec<u8>, Error>)
        ensures
            match r {
                Ok(v) => {
                    &&& crate::codec::profile_encodable(p@)
                    &&& v@ == spec_encode_profile(p@)
                    &&& v@.len() <= MAX_PROFILE_BYTES
                },
                Err(e) => {
                    &&& e == Error::ValueTooLarge
                    &&& spec_encode_profile(p@).len() > MAX_PROFILE_BYTES
                },
            },
    {
        match crate::codec::encode_profile(p) {
            Some(v) => {
                if v.len() > MAX_PROFILE_BYTES as usize {
                    Err(Error::ValueTooLarge)
                } else {
                    Ok(v)
                }
            },
            None => {
                proof {
                    lemma_nonencodable_len(p@);
                }
                Err(Error::ValueTooLarge)
            },
        }
    }

    /// Whether this identity already has a profile.
    pub fn is_registered(&self, caller: &Vec<u8>) -> (r: bool)
        ensures
            r == has_key(self.profiles@, caller@),
    {
        self.profiles.contains(caller)
    }

    /// Whether a `set_profile` call with this submission would need
    /// host randomness: the submission carries no password and no
    /// stored record would outrank it. The host edge asks this before
    /// paying for a randomness call.
    pub fn set_profile_needs_password(&self, caller: &Vec<u8>, profile: &Profile) -> (r: bool)
        requires
            self.wf(),
        ensures
            r == (profile@.password is None && match spec_profile_of(self.profiles@, caller@) {
                Some(stored) => !time_ge(stored.updated_time_msecs, profile@.updated_time_msecs),
                None => true,
            }),
    {
        if profile.password.is_some() {
            return false;
        }
        match self.profiles.get(caller) {
            Some(v) => {
                proof {
                    crate::store::lemma_get_values_from(self.profiles@, caller@);
                }
                match crate::codec::decode_profile(&v) {
                    Some(stored) => !time_ge_exec(
                        &stored.updated_time_msecs,
                        &profile.updated_time_msecs,
                    ),
                    None => {
                        proof {
                            let es = self.profiles@;
                            let i = choose|i: int|
                                0 <= i < es.len() && (#[trigger] es[i]).0 == caller@ && es[i].1
                                    == spec_get(es, caller@).unwrap();
                            assert(spec_decode_profile(es[i].1) is Some);
                            assert(false);
                        }
                        false
                    },
                }
            },
            None => true,
        }
    }

    /// Upsert the caller's profile, subject to the recency rule: a
    /// stored record is never overwritten by one whose timestamp is not
    /// strictly greater; ties keep the stored record, which is returned
    /// unchanged.
    pub fn set_profile(&mut self, caller: &Vec<u8>, profile: &Profile, rand: &Vec<u8>) -> (r:
        Result<Profile, Error>)
        requires
            old(self).wf(),
            caller@.len() <= MAX_KEY_SIZE,
        ensures
            final(self).wf(),
            final(self).auth == old(self).auth,
            final(self).stable_auth == old(self).stable_auth,
            final(self).region == old(self).region,
            final(self).mgr == old(self).mgr,
            match r {
                Ok(p) => {
                    &&& final(self).profiles@ == spec_set_profile(
                        old(self).profiles@,
                        caller@,
                        profile@,
                        rand@,
                    )
                    &&& match spec_profile_of(old(self).profiles@, caller@) {
                        Some(stored) if time_ge(
                            stored.updated_time_msecs,
                            profile@.updated_time_msecs,
                        ) => p@ == stored && final(self).profiles@ == old(self).profiles@,
                        _ => p@ == spec_with_password(profile@, rand@),
                    }
                },
                Err(e) => {
                    &&& e == Error::ValueTooLarge
                    &&& final(self).profiles@ == old(self).profiles@
                    &&& spec_encode_profile(spec_with_password(profile@, rand@)).len()
                        > MAX_PROFILE_BYTES
                    &&& match spec_profile_of(old(self).profiles@, caller@) {
                        Some(stored) => !time_ge(
                            stored.updated_time_msecs,
                            profile@.updated_time_msecs,
                        ),
                        None => true,
                    }
                },
            },
    {
        match self.profiles.get(caller) {
            Some(v) => {
                proof {
                    crate::store::lemma_get_values_from(self.profiles@, caller@);
                }
                match crate::codec::decode_profile(&v) {
                    Some(stored) => {
                        if time_ge_exec(&stored.updated_time_msecs, &profile.updated_time_msecs) {
                            return Ok(stored);
                        }
                    },
                    None => {
                        proof {
                            let es = self.profiles@;
                            let i = choose|i: int|
                                0 <= i < es.len() && (#[trigger] es[i]).0 == caller@ && es[i].1
                                    == spec_get(es, caller@).unwrap();
                            assert(spec_decode_profile(es[i].1) is Some);
                            assert(false);
                        }
                    },
                }
            },
            None => {
            },
        }
        let filled = Self::fill_password(profile, rand);
        let encoded = match Self::encode_checked(&filled) {
            Ok(v) => v,
            Err(e) => {
                return Err(e);
            },
        };
        let out = filled.duplicate();
        self.profiles.insert(crate::codec::copy_bytes(caller), encoded);
        proof {
            crate::store::lemma_insert_entries_from(
                old(self).profiles@,
                caller@,
                spec_encode_profile(filled@),
            );
            crate::codec::lemma_profile_round_trip(filled@);
        }
        Ok(out)
    }

    /// Create the caller's profile, filling in defaults; an identity
    /// that already has one is refused and keeps its record.
    pub fn register(
        &mut self,
        caller: &Vec<u8>,
        now_msecs: u64,
        profile: &Profile,
        rand: &Vec<u8>,
    ) -> (r: Result<Profile, Error>)
        requires
            old(self).wf(),
            caller@.len() <= MAX_KEY_SIZE,
        ensures
            final(self).wf(),
            final(self).auth == old(self).auth,
            final(self).stable_auth == old(self).stable_auth,
            final(self).region == old(self).region,
            final(self).mgr == old(self).mgr,
            match r {
                Ok(p) => {
                    &&& !has_key(old(self).profiles@, caller@)
                    &&& p@ == spec_register_fill(profile@, caller@, now_msecs, rand@)
                    &&& final(self).profiles@ == spec_insert(
                        old(self).profiles@,
                        caller@,
                        spec_encode_profile(p@),
                    )
                },
                Err(e) => {
                    &&& final(self).profiles@ == old(self).profiles@
                    &&& (e == Error::AlreadyRegistered && has_key(old(self).profiles@, caller@)
                        || (e == Error::ValueTooLarge && !has_key(old(self).profiles@, caller@)
                        && spec_encode_profile(
                        spec_register_fill(profile@, caller@, now_msecs, rand@),
                    ).len() > MAX_PROFILE_BYTES))
                },
            },
            (!has_key(old(self).profiles@, caller@) && profile@.username is None
                && profile@.password is None && profile@.email is None) ==> r is Ok,
    {
        if self.profiles.contains(caller) {
            return Err(Error::AlreadyRegistered);
        }
        let mut p = profile.duplicate();
        if p.updated_time_msecs.is_none() {
            p.updated_time_msecs = Some(now_msecs);
        }
        if p.username.is_none() {
            p.username = Some(crate::principal::principal_to_text(caller));
        }
        let filled = Self::fill_password(&p, rand);
        let encoded = match Self::encode_checked(&filled) {
            Ok(v) => v,
            Err(e) => {
                proof {
                    if profile@.username is None && profile@.password is None && profile@.email
                        is None {
                        lemma_default_fill_fits(filled@);
                    }
                }
                return Err(e);
            },
        };
        let out = filled.duplicate();
        self.profiles.insert(crate::codec::copy_bytes(caller), encoded);
        proof {
            crate::store::lemma_insert_entries_from(
                old(self).profiles@,
                caller@,
                spec_encode_profile(filled@),
            );
            crate::codec::lemma_profile_round_trip(filled@);
        }
        Ok(out)
    }

    /// Admin-guarded paged dump of the profile table, in
    /// byte-lexicographic key order, the keys in their canonical text
    /// form.
    pub fn backup(&self, caller: &Vec<u8>, offset: u32, count: u32) -> (r: Result<
        Vec<(Vec<u8>, Profile)>,
        Error,
    >)
        requires
            self.wf(),
        ensures
            match r {
                Ok(v) => {
                    let page = crate::store::spec_page_at(
                        self.profiles@,
                        offset as nat,
                        count as nat,
                    );
                    &&& self.spec_is_authorized(caller@)
                    &&& v@.len() == page.len()
                    &&& forall|i: int|
                        0 <= i < page.len() ==> (#[trigger] v@[i]).0@ == principal_text_of(
                            page[i].0,
                        ) && v@[i].1@ == spec_decode_profile(page[i].1).unwrap()
                },
                Err(e) => {
                    &&& e == Error::NotAuthorized
                    &&& !self.spec_is_authorized(caller@)
                },
            },
    {
        if !self.is_authorized(caller) {
            return Err(Error::NotAuthorized);
        }
        let page = self.profiles.iterate(offset, count);
        let ghost pagev = crate::store::spec_page_at(self.profiles@, offset as nat, count as nat);
        let mut out: Vec<(Vec<u8>, Profile)> = Vec::new();
        let mut i: usize = 0;
        while i < page.len()
            invariant
                self.wf(),
                i <= page@.len(),
                crate::codec::view_entries(page@) == pagev,
                pagev == crate::store::spec_page_at(self.profiles@, offset as nat, count as nat),
                page@.len() == pagev.len(),
                out@.len() == i,
                forall|j: int|
                    0 <= j < i ==> (#[trigger] out@[j]).0@ == principal_text_of(pagev[j].0)
                        && out@[j].1@ == spec_decode_profile(pagev[j].1).unwrap(),
            decreases page@.len() - i,
        {
            proof {
                assert(pagev[i as int] == (page@[i as int].0@, page@[i as int].1@));
                assert(exists|k: int|
                    0 <= k < self.profiles@.len() && #[trigger] self.profiles@[k]
                        == pagev[i as int]);
            }
            let text = crate::principal::principal_to_text(&page[i].0);
            match crate::codec::decode_profile(&page[i].1) {
                Some(p) => {
                    out.push((text, p));
                },
                None => {
                    proof {
                        assert(false);
                    }
                },
            }
            i += 1;
        }
        Ok(out)
    }
}

// ------------------------------------------------------------------
// Restore and controller grants.
// ------------------------------------------------------------------
/// The models of a list of backup pairs: text key and profile.
pub open spec fn view_pairs(ps: Seq<(Vec<u8>, Profile)>) -> Seq<(Seq<u8>, ProfileV)> {
    ps.map_values(|e: (Vec<u8>, Profile)| (e.0@, e.1@))
}

/// The models of a list of identities.
pub open spec fn view_ids(cs: Seq<Vec<u8>>) -> Seq<Seq<u8>> {
    cs.map_values(|v: Vec<u8>| v@)
}

/// What `restore` does: each pair's text key is parsed back to a raw
/// principal and the profile is written under it, in order; the first
/// bad pair stops the walk with the entries before it already applied,
/// as a mid-walk trap would leave them durable.
pub open spec fn spec_restore(es: Seq<EntryV>, ps: Seq<(Seq<u8>, ProfileV)>) -> (
    Seq<EntryV>,
    Option<Error>,
)
    decreases ps.len(),
{
    if ps.len() == 0 {
        (es, None)
    } else {
        match crate::principal::principal_of_text(ps[0].0) {
            None => (es, Some(Error::InvalidPrincipalText)),
            Some(k) => {
                let v = spec_encode_profile(ps[0].1);
                if v.len() > MAX_PROFILE_BYTES {
                    (es, Some(Error::ValueTooLarge))
                } else {
                    spec_restore(spec_insert(es, k, v), ps.skip(1))
                }
            },
        }
    }
}

/// What `authorize_controllers` does to the admin table: every
/// controller granted the admin privilege, in order.
pub open spec fn spec_grant_all(es: Seq<EntryV>, cs: Seq<Seq<u8>>) -> Seq<EntryV>
    decreases cs.len(),
{
    if cs.len() == 0 {
        es
    } else {
        spec_grant_all(spec_insert(es, cs[0], spec_admin_value()), cs.skip(1))
    }
}

/// And to the stable-maintenance set: every controller added.
pub open spec fn spec_add_all(s: Set<Seq<u8>>, cs: Seq<Seq<u8>>) -> Set<Seq<u8>>
    decreases cs.len(),
{
    if cs.len() == 0 {
        s
    } else {
        spec_add_all(s.insert(cs[0]), cs.skip(1))
    }
}

impl Service {
    /// Admin-guarded: write back a backup, re-keying each pair by the
    /// principal its text denotes. A pair that does not parse or does
    /// not fit stops the walk; pairs before it stay applied.
    pub fn restore(&mut self, caller: &Vec<u8>, pairs: &Vec<(Vec<u8>, Profile)>) -> (r: Result<
        (),
        Error,
    >)
        requires
            old(self).wf(),
        ensures
            final(self).wf(),
            final(self).auth == old(self).auth,
            final(self).stable_auth == old(self).stable_auth,
            final(self).region == old(self).region,
            final(self).mgr == old(self).mgr,
            match r {
                Ok(_) => {
                    &&& old(self).spec_is_authorized(caller@)
                    &&& spec_restore(old(self).profiles@, view_pairs(pairs@)) == (
                    final(self).profiles@,
                    None::<Error>,
                    )
                },
                Err(e) => {
                    &&& (e == Error::NotAuthorized && !old(self).spec_is_authorized(caller@)
                        && final(self).profiles@ == old(self).profiles@) || (old(
                        self,
                    ).spec_is_authorized(caller@) && spec_restore(
                        old(self).profiles@,
                        view_pairs(pairs@),
                    ) == (final(self).profiles@, Some(e)))
                },
            },
    {
        if !self.is_authorized(caller) {
            return Err(Error::NotAuthorized);
        }
        let ghost ps = view_pairs(pairs@);
        let ghost es0 = old(self).profiles@;
        proof {
            assert(ps.skip(0) =~= ps);
        }
        let mut i: usize = 0;
        while i < pairs.len()
            invariant
                i <= pairs@.len(),
                ps == view_pairs(pairs@),
                ps.len() == pairs@.len(),
                self.wf(),
                self.auth == old(self).auth,
                self.stable_auth == old(self).stable_auth,
                self.region == old(self).region,
                self.mgr == old(self).mgr,
                self.profiles.max_key_size == MAX_KEY_SIZE,
                self.profiles.max_value_size == MAX_PROFILE_BYTES,
                spec_restore(es0, ps) == spec_restore(self.profiles@, ps.skip(i as int)),
                es0 == old(self).profiles@,
                old(self).spec_is_authorized(caller@),
            decreases pairs@.len() - i,
        {
            proof {
                assert(ps[i as int] == (pairs@[i as int].0@, pairs@[i as int].1@));
                assert(ps.skip(i as int)[0] == ps[i as int]);
                assert(ps.skip(i as int).skip(1) =~= ps.skip(i + 1));
            }
            let key = match crate::principal::principal_from_text(&pairs[i].0) {
                Some(k) => k,
                None => {
                    return Err(Error::InvalidPrincipalText);
                },
            };
            let value = match Self::encode_checked(&pairs[i].1) {
                Ok(v) => v,
                Err(e) => {
                    return Err(e);
                },
            };
            let ghost before = self.profiles@;
            let ghost kview = key@;
            self.profiles.insert(key, value);
            proof {
                crate::store::lemma_insert_entries_from(
                    before,
                    kview,
                    spec_encode_profile(pairs@[i as int].1@),
                );
                crate::codec::lemma_profile_round_trip(pairs@[i as int].1@);
            }
            i += 1;
        }
        assert(ps.skip(i as int).len() == 0);
        Ok(())
    }

    /// Admin-guarded: grant both the admin and the stable-maintenance
    /// privilege to every one of the host's reported controllers;
    /// idempotent for identities already holding them.
    pub fn authorize_controllers(&mut self, caller: &Vec<u8>, controllers: &Vec<Vec<u8>>) -> (r:
        Result<(), Error>)
        requires
            old(self).wf(),
        ensures
            final(self).wf(),
            final(self).profiles == old(self).profiles,
            final(self).region == old(self).region,
            final(self).mgr == old(self).mgr,
            match r {
                Ok(_) => {
                    &&& old(self).spec_is_authorized(caller@)
                    &&& final(self).auth@ == spec_grant_all(
                        old(self).auth@,
                        view_ids(controllers@),
                    )
                    &&& final(self).stable_auth@ == spec_add_all(
                        old(self).stable_auth@,
                        view_ids(controllers@),
                    )
                },
                Err(e) => {
                    &&& final(self).auth == old(self).auth
                    &&& final(self).stable_auth == old(self).stable_auth
                    &&& (e == Error::NotAuthorized && !old(self).spec_is_authorized(caller@) || (e
                        == Error::KeyTooLarge && old(self).spec_is_authorized(caller@) && exists|
                        j: int,
                    |
                        0 <= j < controllers@.len() && (#[trigger] controllers@[j])@.len()
                            > MAX_KEY_SIZE))
                },
            },
    {
        if !self.is_authorized(caller) {
            return Err(Error::NotAuthorized);
        }
        let ghost cs = view_ids(controllers@);
        let mut i: usize = 0;
        while i < controllers.len()
            invariant
                i <= controllers@.len(),
                cs == view_ids(controllers@),
                cs.len() == controllers@.len(),
                forall|j: int| 0 <= j < i ==> (#[trigger] cs[j]).len() <= MAX_KEY_SIZE,
                *self == *old(self),
                old(self).wf(),
                old(self).spec_is_authorized(caller@),
            decreases controllers@.len() - i,
        {
            proof {
                assert(cs[i as int] == controllers@[i as int]@);
            }
            if controllers[i].len() > MAX_KEY_SIZE as usize {
                proof {
                    assert(0 <= i < controllers@.len() && controllers@[i as int]@.len()
                        > MAX_KEY_SIZE);
                }
                return Err(Error::KeyTooLarge);
            }
            i += 1;
        }
        proof {
            assert(cs.skip(0) =~= cs);
        }
        let ghost auth0 = old(self).auth@;
        let ghost stable0 = old(self).stable_auth@;
        let mut k: usize = 0;
        while k < controllers.len()
            invariant
                k <= controllers@.len(),
                cs == view_ids(controllers@),
                cs.len() == controllers@.len(),
                forall|j: int| 0 <= j < cs.len() ==> (#[trigger] cs[j]).len() <= MAX_KEY_SIZE,
                self.wf(),
                self.profiles == old(self).profiles,
                self.region == old(self).region,
                self.mgr == old(self).mgr,
                spec_grant_all(auth0, cs) == spec_grant_all(self.auth@, cs.skip(k as int)),
                spec_add_all(stable0, cs) == spec_add_all(self.stable_auth@, cs.skip(k as int)),
                auth0 == old(self).auth@,
                stable0 == old(self).stable_auth@,
                old(self).spec_is_authorized(caller@),
            decreases controllers@.len() - k,
        {
            proof {
                assert(cs[k as int] == controllers@[k as int]@);
                assert(cs.skip(k as int)[0] == cs[k as int]);
                assert(cs.skip(k as int).skip(1) =~= cs.skip(k + 1));
            }
            self.grant_admin(&controllers[k]);
            self.stable_auth.insert(&controllers[k]);
            k += 1;
        }
        assert(cs.skip(k as int).len() == 0);
        Ok(())
    }
}

// ------------------------------------------------------------------
// Raw-region maintenance passthrough (stable-maintenance-guarded).
// ------------------------------------------------------------------
impl Service {
    /// Current size of the persistent region, in bytes.
    pub fn stable_size(&self, caller: &Vec<u8>) -> (r: Result<u64, Error>)
        requires
            self.wf(),
        ensures
            match r {
                Ok(n) => self.spec_is_stable_authorized(caller@) && n == self.region@.len(),
                Err(e) => e == Error::NotStableAuthorized && !self.spec_is_stable_authorized(
                    caller@,
                ),
            },
    {
        if !self.is_stable_authorized(caller) {
            return Err(Error::NotStableAuthorized);
        }
        Ok(self.region.size_bytes())
    }

    /// Raw read of the persistent region, bypassing the tables.
    pub fn stable_read(&self, caller: &Vec<u8>, offset: u64, length: u64) -> (r: Result<
        Vec<u8>,
        Error,
    >)
        requires
            self.wf(),
        ensures
            match r {
                Ok(v) => {
                    &&& self.spec_is_stable_authorized(caller@)
                    &&& offset + length <= self.region@.len()
                    &&& v@ == self.region@.subrange(offset as int, offset + length)
                },
                Err(e) => {
                    &&& (e == Error::NotStableAuthorized && !self.spec_is_stable_authorized(
                        caller@,
                    )) || (e == Error::OutOfBounds && self.spec_is_stable_authorized(caller@)
                        && offset + length > self.region@.len())
                },
            },
    {
        if !self.is_stable_authorized(caller) {
            return Err(Error::NotStableAuthorized);
        }
        self.region.read(offset, length)
    }

    /// Raw write to the persistent region, bypassing the tables and
    /// growing the region in whole pages as needed: when
    /// `offset + len` exceeds the current size, the region grows to
    /// exactly `ceil((offset + len) / PAGE_SIZE)` pages, bytes below
    /// the old size and outside the written range are unchanged, and
    /// any gap is zero.
    pub fn stable_write(&mut self, caller: &Vec<u8>, offset: u64, data: &Vec<u8>) -> (r: Result<
        (),
        Error,
    >)
        requires
            old(self).wf(),
        ensures
            final(self).wf(),
            final(self).profiles == old(self).profiles,
            final(self).auth == old(self).auth,
            final(self).stable_auth == old(self).stable_auth,
            final(self).mgr == old(self).mgr,
            match r {
                Ok(_) => {
                    let end = offset + data@.len();
                    &&& old(self).spec_is_stable_authorized(caller@)
                    &&& end <= crate::region::RAW_MAX_BYTES
                    &&& final(self).region@.len() == RawRegion::spec_grown_len(
                        old(self).region@.len() as int,
                        end,
                    )
                    &&& final(self).region@.subrange(offset as int, end) == data@
                    &&& forall|i: int|
                        0 <= i < old(self).region@.len() && !(offset <= i < end)
                            ==> final(self).region@[i] == old(self).region@[i]
                    &&& forall|i: int|
                        old(self).region@.len() <= i < final(self).region@.len() && !(offset <= i
                            < end) ==> final(self).region@[i] == 0
                },
                Err(e) => {
                    &&& final(self).region@ == old(self).region@
                    &&& (e == Error::NotStableAuthorized
                        && !old(self).spec_is_stable_authorized(caller@)) || (e
                        == Error::RegionFull && old(self).spec_is_stable_authorized(caller@)
                        && offset + data@.len() > crate::region::RAW_MAX_BYTES)
                },
            },
    {
        if !self.is_stable_authorized(caller) {
            return Err(Error::NotStableAuthorized);
        }
        self.region.write_growing(offset, data)
    }
}

// ------------------------------------------------------------------
// The upgrade coordinator.
// ------------------------------------------------------------------
/// Virtual region holding the serialized profile table.
pub const PROFILES_REGION: usize = 0;

/// Virtual region holding the serialized authorization table.
pub const AUTH_REGION: usize = 3;

/// Virtual region holding the asset subsystem's opaque blob.
pub const SNAPSHOT_REGION: usize = 7;

/// The blob persisted in one virtual region: an 8-byte little-endian
/// length, then that many payload bytes.
pub open spec fn spec_read_blob(r: Seq<u8>, id: int) -> Option<Seq<u8>> {
    let base = crate::region::vm_base(id);
    if base + 8 <= r.len() {
        let l = spec_u64_from_le_bytes(r.subrange(base, base + 8)) as int;
        if 8 + l <= crate::region::REGION_CAP_BYTES && base + 8 + l <= r.len() {
            Some(r.subrange(base + 8, base + 8 + l))
        } else {
            None
        }
    } else {
        None
    }
}

/// What a restorable profile table looks like.
pub open spec fn profile_table_wf(es: Seq<EntryV>) -> bool {
    &&& crate::store::sorted(es)
    &&& crate::store::entries_bounded(es, MAX_KEY_SIZE as nat, MAX_PROFILE_BYTES as nat)
    &&& profiles_wf(es)
}

/// What a restorable authorization table looks like.
pub open spec fn auth_table_wf(es: Seq<EntryV>) -> bool {
    &&& crate::store::sorted(es)
    &&& crate::store::entries_bounded(es, MAX_KEY_SIZE as nat, AUTH_VALUE_BYTES as nat)
    &&& auth_wf(es)
}

/// What startup reads out of the persistent region: the two tables and
/// the asset blob, or nothing if the image does not restore.
pub open spec fn spec_load(r: Seq<u8>) -> Option<(Seq<EntryV>, Seq<EntryV>, Seq<u8>)> {
    match (
        spec_read_blob(r, PROFILES_REGION as int),
        spec_read_blob(r, AUTH_REGION as int),
        spec_read_blob(r, SNAPSHOT_REGION as int),
    ) {
        (Some(b0), Some(b3), Some(b7)) => match (
            crate::codec::spec_decode_table(b0),
            crate::codec::spec_decode_table(b3),
        ) {
            (Some(p), Some(a)) => if profile_table_wf(p) && auth_table_wf(a) {
                Some((p, a, b7))
            } else {
                None
            },
            _ => None,
        },
        _ => None,
    }
}

/// Changes confined to one virtual region's slot leave another slot's
/// persisted blob exactly as it was.
proof fn lemma_read_blob_stable(r1: Seq<u8>, r2: Seq<u8>, changed: int, id: int)
    requires
        0 <= changed < crate::region::NUM_REGIONS,
        0 <= id < crate::region::NUM_REGIONS,
        changed != id,
        r2.len() >= r1.len(),
        forall|i: int|
            0 <= i < r1.len() && !(crate::region::vm_base(changed) <= i < crate::region::vm_base(
                changed,
            ) + crate::region::REGION_CAP_BYTES) ==> r2[i] == r1[i],
        spec_read_blob(r1, id) is Some,
    ensures
        spec_read_blob(r2, id) == spec_read_blob(r1, id),
{
    let base = crate::region::vm_base(id);
    assert(base + crate::region::REGION_CAP_BYTES <= crate::region::vm_base(changed)
        || crate::region::vm_base(changed) + crate::region::REGION_CAP_BYTES <= base);
    assert forall|i: int| base <= i < base + crate::region::REGION_CAP_BYTES && i < r1.len()
        implies #[trigger] r2[i] == r1[i] by {}
    assert(r2.subrange(base, base + 8) =~= r1.subrange(base, base + 8));
    let l = spec_u64_from_le_bytes(r1.subrange(base, base + 8)) as int;
    assert(r2.subrange(base + 8, base + 8 + l) =~= r1.subrange(base + 8, base + 8 + l));
}

impl Service {
    /// Persist one blob into a virtual region, growing it as needed.
    fn write_vm_blob(&mut self, id: usize, payload: &Vec<u8>) -> (r: Result<(), Error>)
        requires
            old(self).mgr.wf(),
            old(self).region.wf(),
            old(self).mgr.covered(old(self).region@),
            id < crate::region::NUM_REGIONS,
        ensures
            final(self).mgr.wf(),
            final(self).region.wf(),
            final(self).mgr.covered(final(self).region@),
            final(self).profiles == old(self).profiles,
            final(self).auth == old(self).auth,
            final(self).stable_auth == old(self).stable_auth,
            final(self).region@.len() >= old(self).region@.len(),
            forall|i: int|
                0 <= i < old(self).region@.len() && !(crate::region::vm_base(id as int) <= i
                    < crate::region::vm_base(id as int) + crate::region::REGION_CAP_BYTES)
                    ==> final(self).region@[i] == old(self).region@[i],
            match r {
                Ok(_) => {
                    &&& 8 + payload@.len() <= crate::region::REGION_CAP_BYTES
                    &&& spec_read_blob(final(self).region@, id as int) == Some(payload@)
                },
                Err(e) => {
                    &&& e == Error::RegionFull
                    &&& 8 + payload@.len() > crate::region::REGION_CAP_BYTES
                    &&& final(self).region@ == old(self).region@
                    &&& final(self).mgr == old(self).mgr
                },
            },
    {
        if payload.len() as u64 > crate::region::REGION_CAP_BYTES - 8 {
            return Err(Error::RegionFull);
        }
        let total: u64 = 8 + payload.len() as u64;
        proof {
            crate::lemma_pages_for_cap(total);
        }
        let need_pages = crate::pages_for(total);
        let cur = self.mgr.vm_pages[id];
        if need_pages > cur {
            match self.mgr.vm_grow(&mut self.region, id, need_pages - cur) {
                Ok(_) => {
                },
                Err(_) => {
                    proof {
                        assert(false);
                    }
                    return Err(Error::RegionFull);
                },
            }
        }
        let mut buf = u64_to_le_bytes(payload.len() as u64);
        buf.extend_from_slice(payload.as_slice());
        let ghost grown = self.region@;
        let ghost count = self.mgr.vm_pages@[id as int];
        proof {
            assert(count * PAGE_SIZE >= need_pages * PAGE_SIZE) by (nonlinear_arith)
                requires
                    count >= need_pages,
                    PAGE_SIZE == 65536,
            ;
        }
        match self.mgr.vm_write(&mut self.region, id, 0, &buf) {
            Ok(_) => {
                proof {
                    let base = crate::region::vm_base(id as int);
                    let fin = final(self).region@;
                    lemma_auto_spec_u64_to_from_le_bytes();
                    assert(fin.subrange(base, base + 8) =~= spec_u64_to_le_bytes(
                        payload@.len() as u64,
                    ));
                    assert(fin.subrange(base + 8, base + 8 + payload@.len()) =~= payload@);
                }
                Ok(())
            },
            Err(_) => {
                proof {
                    assert(false);
                }
                Err(Error::RegionFull)
            },
        }
    }

    /// Teardown at the upgrade boundary: serialize both tables and
    /// write them, with the asset subsystem's opaque blob, into their
    /// virtual regions. After success the region restores to exactly
    /// the live state. Failure aborts the upgrade; the live tables are
    /// untouched.
    pub fn pre_upgrade(&mut self, assets: &Vec<u8>) -> (r: Result<(), Error>)
        requires
            old(self).wf(),
        ensures
            final(self).wf(),
            final(self).profiles == old(self).profiles,
            final(self).auth == old(self).auth,
            final(self).stable_auth == old(self).stable_auth,
            match r {
                Ok(_) => spec_load(final(self).region@) == Some(
                    (old(self).profiles@, old(self).auth@, assets@),
                ),
                Err(e) => {
                    let enc_p = crate::codec::entries_encodable(old(self).profiles@);
                    let enc_a = crate::codec::entries_encodable(old(self).auth@);
                    (e == Error::ValueTooLarge && (!enc_p || !enc_a)) || (e == Error::RegionFull
                        && enc_p && enc_a && (8 + crate::codec::spec_encode_table(
                        old(self).profiles@,
                    ).len() > crate::region::REGION_CAP_BYTES || 8
                        + crate::codec::spec_encode_table(old(self).auth@).len()
                        > crate::region::REGION_CAP_BYTES || 8 + assets@.len()
                        > crate::region::REGION_CAP_BYTES))
                },
            },
    {
        let blob_p = match crate::codec::encode_table(&self.profiles.entries) {
            Some(b) => b,
            None => {
                return Err(Error::ValueTooLarge);
            },
        };
        let blob_a = match crate::codec::encode_table(&self.auth.entries) {
            Some(b) => b,
            None => {
                return Err(Error::ValueTooLarge);
            },
        };
        match self.write_vm_blob(PROFILES_REGION, &blob_p) {
            Ok(_) => {
            },
            Err(e) => {
                return Err(e);
            },
        }
        let ghost r1 = self.region@;
        match self.write_vm_blob(AUTH_REGION, &blob_a) {
            Ok(_) => {
            },
            Err(e) => {
                return Err(e);
            },
        }
        let ghost r2 = self.region@;
        proof {
            lemma_read_blob_stable(r1, r2, AUTH_REGION as int, PROFILES_REGION as int);
        }
        match self.write_vm_blob(SNAPSHOT_REGION, assets) {
            Ok(_) => {
            },
            Err(e) => {
                return Err(e);
            },
        }
        proof {
            let r3 = self.region@;
            lemma_read_blob_stable(r2, r3, SNAPSHOT_REGION as int, PROFILES_REGION as int);
            lemma_read_blob_stable(r2, r3, SNAPSHOT_REGION as int, AUTH_REGION as int);
            crate::codec::lemma_table_round_trip(old(self).profiles@);
            crate::codec::lemma_table_round_trip(old(self).auth@);
        }
        Ok(())
    }

    /// Read one persisted blob out of the region.
    fn read_vm_blob(region: &RawRegion, id: usize) -> (r: Result<Vec<u8>, Error>)
        requires
            region.wf(),
            id < crate::region::NUM_REGIONS,
        ensures
            match r {
                Ok(b) => spec_read_blob(region@, id as int) == Some(b@),
                Err(e) => {
                    &&& e == Error::CorruptState
                    &&& spec_read_blob(region@, id as int) is None
                },
            },
    {
        let base: u64 = (id as u64) * crate::region::REGION_CAP_BYTES;
        let header = match region.read(base, 8) {
            Ok(h) => h,
            Err(_) => {
                return Err(Error::CorruptState);
            },
        };
        let l = u64_from_le_bytes(header.as_slice());
        if l > crate::region::REGION_CAP_BYTES - 8 {
            return Err(Error::CorruptState);
        }
        match region.read(base + 8, l) {
            Ok(b) => Ok(b),
            Err(_) => Err(Error::CorruptState),
        }
    }

    /// Startup after an upgrade: read the persisted image back and
    /// repopulate every component before any call is served. The
    /// volatile stable-maintenance set starts empty, to be repopulated
    /// by explicit calls. An image that does not restore is fatal.
    pub fn post_upgrade(region: RawRegion) -> (r: Result<(Service, Vec<u8>), Error>)
        requires
            region.wf(),
        ensures
            match r {
                Ok(p) => {
                    &&& p.0.wf()
                    &&& spec_load(region@) == Some((p.0.profiles@, p.0.auth@, p.1@))
                    &&& p.0.region@ == region@
                    &&& p.0.stable_auth@ == Set::<Seq<u8>>::empty()
                },
                Err(e) => {
                    &&& e == Error::CorruptState
                    &&& spec_load(region@) is None
                },
            },
    {
        let blob_p = match Self::read_vm_blob(&region, PROFILES_REGION) {
            Ok(b) => b,
            Err(e) => {
                return Err(e);
            },
        };
        let blob_a = match Self::read_vm_blob(&region, AUTH_REGION) {
            Ok(b) => b,
            Err(e) => {
                return Err(e);
            },
        };
        let assets = match Self::read_vm_blob(&region, SNAPSHOT_REGION) {
            Ok(b) => b,
            Err(e) => {
                return Err(e);
            },
        };
        let entries_p = match crate::codec::decode_table(&blob_p) {
            Some(es) => es,
            None => {
                return Err(Error::CorruptState);
            },
        };
        let entries_a = match crate::codec::decode_table(&blob_a) {
            Some(es) => es,
            None => {
                return Err(Error::CorruptState);
            },
        };
        if !Self::check_profile_table(&entries_p) {
            return Err(Error::CorruptState);
        }
        if !Self::check_auth_table(&entries_a) {
            return Err(Error::CorruptState);
        }
        let lp = blob_p.len() as u64;
        let la = blob_a.len() as u64;
        let ls = assets.len() as u64;
        let mgr = Self::rebuild_manager(&region, lp, la, ls);
        let s = Service {
            region,
            mgr,
            profiles: crate::store::ByteStore {
                max_key_size: MAX_KEY_SIZE,
                max_value_size: MAX_PROFILE_BYTES,
                entries: entries_p,
            },
            auth: crate::store::ByteStore {
                max_key_size: MAX_KEY_SIZE,
                max_value_size: AUTH_VALUE_BYTES,
                entries: entries_a,
            },
            stable_auth: IdentitySet::new(),
        };
        Ok((s, assets))
    }

    /// Reconstruct the manager's allocation from the persisted blob
    /// lengths.
    fn rebuild_manager(region: &RawRegion, lp: u64, la: u64, ls: u64) -> (mgr: RegionManager)
        requires
            region.wf(),
            8 + lp <= crate::region::REGION_CAP_BYTES,
            8 + la <= crate::region::REGION_CAP_BYTES,
            8 + ls <= crate::region::REGION_CAP_BYTES,
            crate::region::vm_base(PROFILES_REGION as int) + 8 + lp <= region@.len(),
            crate::region::vm_base(AUTH_REGION as int) + 8 + la <= region@.len(),
            crate::region::vm_base(SNAPSHOT_REGION as int) + 8 + ls <= region@.len(),
        ensures
            mgr.wf(),
            mgr.covered(region@),
    {
        proof {
            crate::lemma_pages_for_cap((8 + lp) as u64);
            crate::lemma_pages_for_cap((8 + la) as u64);
            crate::lemma_pages_for_cap((8 + ls) as u64);
            crate::lemma_cover_round(
                crate::region::vm_base(PROFILES_REGION as int),
                8 + lp,
                region@.len() as int,
            );
            crate::lemma_cover_round(
                crate::region::vm_base(AUTH_REGION as int),
                8 + la,
                region@.len() as int,
            );
            crate::lemma_cover_round(
                crate::region::vm_base(SNAPSHOT_REGION as int),
                8 + ls,
                region@.len() as int,
            );
        }
        let mut v: Vec<u64> = Vec::new();
        v.push(crate::pages_for(8 + lp));
        v.push(0);
        v.push(0);
        v.push(crate::pages_for(8 + la));
        v.push(0);
        v.push(0);
        v.push(0);
        v.push(crate::pages_for(8 + ls));
        RegionManager { vm_pages: v }
    }

    /// Check that decoded entries form a valid profile table.
    fn check_profile_table(es: &Vec<crate::store::Entry>) -> (r: bool)
        ensures
            r == profile_table_wf(crate::codec::view_entries(es@)),
    {
        let ghost ev = crate::codec::view_entries(es@);
        let mut i: usize = 0;
        while i < es.len()
            invariant
                i <= es@.len(),
                ev == crate::codec::view_entries(es@),
                ev.len() == es@.len(),
                forall|j: int|
                    0 <= j < i ==> (#[trigger] ev[j]).0.len() <= MAX_KEY_SIZE && ev[j].1.len()
                        <= MAX_PROFILE_BYTES && spec_decode_profile(ev[j].1) is Some,
                forall|j: int| 0 <= j && j + 1 < i ==> crate::store::lex_lt(
                    (#[trigger] ev[j]).0,
                    ev[j + 1].0,
                ),
            decreases es@.len() - i,
        {
            proof {
                assert(ev[i as int] == (es@[i as int].0@, es@[i as int].1@));
            }
            if es[i].0.len() > MAX_KEY_SIZE as usize || es[i].1.len() > MAX_PROFILE_BYTES as usize {
                return false;
            }
            match crate::codec::decode_profile(&es[i].1) {
                Some(_) => {
                },
                None => {
                    return false;
                },
            }
            if i > 0 {
                proof {
                    assert(ev[i - 1] == (es@[i - 1].0@, es@[i - 1].1@));
                }
                match crate::store::lex_cmp(&es[i - 1].0, &es[i].0) {
                    crate::store::KeyOrder::Less => {
                    },
                    _ => {
                        return false;
                    },
                }
            }
            i += 1;
        }
        proof {
            crate::store::lemma_adjacent_sorted(ev);
        }
        true
    }

    /// Check that decoded entries form a valid authorization table.
    fn check_auth_table(es: &Vec<crate::store::Entry>) -> (r: bool)
        ensures
            r == auth_table_wf(crate::codec::view_entries(es@)),
    {
        let ghost ev = crate::codec::view_entries(es@);
        let admin = admin_value();
        let mut i: usize = 0;
        while i < es.len()
            invariant
                i <= es@.len(),
                ev == crate::codec::view_entries(es@),
                ev.len() == es@.len(),
                admin@ == spec_admin_value(),
                forall|j: int|
                    0 <= j < i ==> (#[trigger] ev[j]).0.len() <= MAX_KEY_SIZE && ev[j].1
                        == spec_admin_value(),
                forall|j: int| 0 <= j && j + 1 < i ==> crate::store::lex_lt(
                    (#[trigger] ev[j]).0,
                    ev[j + 1].0,
                ),
            decreases es@.len() - i,
        {
            proof {
                assert(ev[i as int] == (es@[i as int].0@, es@[i as int].1@));
            }
            if es[i].0.len() > MAX_KEY_SIZE as usize {
                return false;
            }
            match crate::store::lex_cmp(&es[i].1, &admin) {
                crate::store::KeyOrder::Equal => {
                },
                _ => {
                    return false;
                },
            }
            if i > 0 {
                proof {
                    assert(ev[i - 1] == (es@[i - 1].0@, es@[i - 1].1@));
                }
                match crate::store::lex_cmp(&es[i - 1].0, &es[i].0) {
                    crate::store::KeyOrder::Less => {
                    },
                    _ => {
                        return false;
                    },
                }
            }
            i += 1;
        }
        proof {
            crate::store::lemma_adjacent_sorted(ev);
            assert(spec_admin_value().len() == 4) by {
                lemma_auto_spec_u32_to_from_le_bytes();
            }
        }
        true
    }
}

// ------------------------------------------------------------------
// Laws of the profile policy.
// ------------------------------------------------------------------
/// Last-writer-wins: once a profile `p1` is stored for an identity,
/// submitting any `p2` whose timestamp is not strictly greater leaves
/// the table exactly as it was; `p2` overwrites only when strictly
/// newer.
pub proof fn lemma_last_writer_wins(
    es: Seq<EntryV>,
    caller: Seq<u8>,
    p1: ProfileV,
    p2: ProfileV,
    rand: Seq<u8>,
)
    requires
        spec_profile_of(es, caller) == Some(p1),
    ensures
        time_ge(p1.updated_time_msecs, p2.updated_time_msecs) ==> spec_set_profile(
            es,
            caller,
            p2,
            rand,
        ) == es,
        !time_ge(p1.updated_time_msecs, p2.updated_time_msecs) ==> spec_set_profile(
            es,
            caller,
            p2,
            rand,
        ) == spec_insert(es, caller, spec_encode_profile(spec_with_password(p2, rand))),
{
}

/// After an accepted update, the stored profile is the submission with
/// its password filled in.
pub proof fn lemma_set_profile_stores(es: Seq<EntryV>, caller: Seq<u8>, p: ProfileV, rand: Seq<u8>)
    requires
        match spec_profile_of(es, caller) {
            Some(stored) => !time_ge(stored.updated_time_msecs, p.updated_time_msecs),
            None => true,
        },
        crate::codec::profile_encodable(spec_with_password(p, rand)),
    ensures
        spec_profile_of(spec_set_profile(es, caller, p, rand), caller) == Some(
            spec_with_password(p, rand),
        ),
{
    let v = spec_encode_profile(spec_with_password(p, rand));
    crate::store::lemma_get_insert(es, caller, v, caller);
    crate::codec::lemma_profile_round_trip(spec_with_password(p, rand));
}

/// Granting the admin privilege twice equals granting it once: the
/// authorization table is unchanged by the second grant, and revoking
/// an identity never granted fails with the table untouched (see
/// `deauthorize` and `spec_remove`).
pub proof fn lemma_authorize_idempotent(es: Seq<EntryV>, id: Seq<u8>)
    ensures
        spec_insert(spec_insert(es, id, spec_admin_value()), id, spec_admin_value())
            == spec_insert(es, id, spec_admin_value()),
{
    crate::store::lemma_insert_idempotent(es, id, spec_admin_value());
}

} // verus!
