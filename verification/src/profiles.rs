use crate::error::Error;
use crate::identity::{principal_text_bytes, Identity};
use crate::order::{by_name, is_by_name, page_indices, page_of, page_start};
use crate::text::{contains_text, copy_text, lowercase, lowercase_of, occurs_in};
use vstd::prelude::*;
use vstd::string::*;

verus! {

/// What the registry knows of one identity.
#[derive(Clone, Debug, PartialEq, Eq)]
pub struct Profile {
    pub user_principal: Identity,
    pub name: String,
    pub email: String,
    pub avatar_key: Option<String>,
    pub created_at_ns: u64,
}

/// A profile to start the registry with.
#[derive(Clone, Debug, PartialEq, Eq)]
pub struct SeedUser {
    pub user_principal: Identity,
    pub avatar_key: Option<String>,
    pub name: String,
    pub email: String,
}

/// The seed of a registry: the first profiles, and the ledger that gives
/// the airdrop. What is missing is taken from the built-in defaults.
#[derive(Clone, Debug)]
pub struct InitArg {
    pub seed_users: Option<Vec<SeedUser>>,
    pub token_canister_id: Option<Identity>,
}

/// The registry: the profiles, one for each identity, and the ledger to
/// ask for a newcomer's airdrop.
#[derive(Debug)]
pub struct ProfileStore {
    pub token_canister_id: Identity,
    pub profiles: Vec<Profile>,
}

/// What ensuring a profile answers: the profile, and, where it was made
/// by this call, the ledger that is now to be asked for the airdrop. The
/// profile is in the registry before the caller learns of the request, and
/// whatever becomes of the request the profile stays.
#[derive(Clone, Debug)]
pub struct Ensured {
    pub profile: Profile,
    pub airdrop_via: Option<Identity>,
}

impl Profile {
    /// A copy of the profile.
    pub fn duplicate(&self) -> (r: Profile)
        ensures
            r == *self,
    {
        Profile {
            user_principal: self.user_principal,
            name: self.name.clone(),
            email: self.email.clone(),
            avatar_key: copy_text(&self.avatar_key),
            created_at_ns: self.created_at_ns,
        }
    }

    /// The profile with the given fields overwritten and the others kept.
    pub open spec fn revised(self, name: Option<String>, email: Option<String>, avatar_key: Option<String>) -> Profile {
        Profile {
            user_principal: self.user_principal,
            name: match name {
                Some(n) => n,
                None => self.name,
            },
            email: match email {
                Some(e) => e,
                None => self.email,
            },
            avatar_key: match avatar_key {
                Some(a) => Some(a),
                None => self.avatar_key,
            },
            created_at_ns: self.created_at_ns,
        }
    }
}

/// No identity has two profiles.
pub open spec fn distinct_users(profiles: Seq<Profile>) -> bool {
    forall|i: int, j: int|
        0 <= i < j < profiles.len() ==> (#[trigger] profiles[i]).user_principal != (
        #[trigger] profiles[j]).user_principal
}

/// Whether `who` has a profile.
pub open spec fn holds(profiles: Seq<Profile>, who: Identity) -> bool {
    exists|i: int| 0 <= i < profiles.len() && (#[trigger] profiles[i]).user_principal == who
}

/// The profile of `who`, where there is one.
pub open spec fn profile_of(profiles: Seq<Profile>, who: Identity) -> Profile {
    profiles[choose|i: int| 0 <= i < profiles.len() && (#[trigger] profiles[i]).user_principal == who]
}

/// The index of the last seed for `who`, if there is one: a later seed
/// for an identity replaces an earlier one.
pub open spec fn last_seed(seeds: Seq<SeedUser>, who: Identity) -> Option<int>
    decreases seeds.len(),
{
    if seeds.len() == 0 {
        None
    } else if seeds.last().user_principal == who {
        Some(seeds.len() - 1)
    } else {
        last_seed(seeds.drop_last(), who)
    }
}

/// The profile that a seed makes at time `now`.
pub open spec fn as_profile(seed: SeedUser, now: u64) -> Profile {
    Profile {
        user_principal: seed.user_principal,
        name: seed.name,
        email: seed.email,
        avatar_key: seed.avatar_key,
        created_at_ns: now,
    }
}

/// The profiles are what the seeds make: each seeded identity has the
/// profile of its last seed, and nobody else has one.
pub open spec fn seeded_from(profiles: Seq<Profile>, seeds: Seq<SeedUser>, now: u64) -> bool {
    forall|who: Identity|
        match #[trigger] last_seed(seeds, who) {
            Some(k) => holds(profiles, who) && profile_of(profiles, who) == as_profile(seeds[k], now),
            None => !holds(profiles, who),
        }
}

/// The indices of the texts in which `needle` occurs, ascending.
pub open spec fn matching(lowered: Seq<Seq<char>>, needle: Seq<char>) -> Seq<usize>
    decreases lowered.len(),
{
    if lowered.len() == 0 {
        Seq::empty()
    } else if occurs_in(lowered.last(), needle) {
        matching(lowered.drop_last(), needle).push((lowered.len() - 1) as usize)
    } else {
        matching(lowered.drop_last(), needle)
    }
}

/// The names of the profiles that `picks` names.
pub open spec fn names_at(profiles: Seq<Profile>, picks: Seq<usize>) -> Seq<Seq<char>> {
    picks.map_values(|i: usize| profiles[i as int].name@)
}

/// The lower-case form of each profile's name.
pub open spec fn lowered_names(profiles: Seq<Profile>) -> Seq<Seq<char>> {
    profiles.map_values(|p: Profile| lowercase_of(p.name@))
}

/// Whether `page` is the page at `offset` of up to `limit` of the
/// profiles whose text in `lowered` holds `needle`, ascending by name.
pub open spec fn found_among(
    profiles: Seq<Profile>,
    lowered: Seq<Seq<char>>,
    needle: Seq<char>,
    offset: u64,
    limit: u64,
    page: Seq<Profile>,
) -> bool {
    exists|order: Seq<usize>|
        {
            &&& is_by_name(names_at(profiles, matching(lowered, needle)), order)
            &&& page == page_of(order, offset, limit).map_values(
                |k: usize| profiles[matching(lowered, needle)[k as int] as int],
            )
        }
}

/// Whether `u` is the seed with these texts; its identity is the one that
/// `text` stands for.
pub open spec fn is_seed_of(
    u: SeedUser,
    text: Seq<char>,
    name: Seq<char>,
    email: Seq<char>,
    avatar: Option<Seq<char>>,
) -> bool {
    &&& principal_text_bytes(text).is_some()
    &&& u.user_principal.canonical()
    &&& u.user_principal.key() == principal_text_bytes(text).unwrap()
    &&& u.name@ == name
    &&& u.email@ == email
    &&& match avatar {
        Some(a) => u.avatar_key.is_some() && u.avatar_key.unwrap()@ == a,
        None => u.avatar_key.is_none(),
    }
}

/// How many entries a text adds to the roster: one where it stands for an identity.
pub open spec fn counts(text: Seq<char>) -> int {
    if principal_text_bytes(text).is_some() {
        1
    } else {
        0
    }
}

/// The built-in roster: Alice, Bob and Charlie, in this order, each only
/// where the text of its identity stands for one.
pub open spec fn is_default_roster(r: Seq<SeedUser>) -> bool {
    &&& r.len() == counts("aaaaa-aa"@) + counts("bbbbb-bb"@) + counts("ccccc-cc"@)
    &&& counts("aaaaa-aa"@) == 1 ==> is_seed_of(
        r[0],
        "aaaaa-aa"@,
        "Alice"@,
        "alice@example.com"@,
        Some("alice_avatar.png"@),
    )
    &&& counts("bbbbb-bb"@) == 1 ==> is_seed_of(
        r[counts("aaaaa-aa"@)],
        "bbbbb-bb"@,
        "Bob"@,
        "bob@example.com"@,
        None,
    )
    &&& counts("ccccc-cc"@) == 1 ==> is_seed_of(
        r[counts("aaaaa-aa"@) + counts("bbbbb-bb"@)],
        "ccccc-cc"@,
        "Charlie"@,
        "charlie@example.com"@,
        Some("charlie.png"@),
    )
}

/// The built-in ledger reference: the identity that the built-in text
/// stands for, or the anonymous identity where it stands for none.
pub open spec fn is_default_ledger(id: Identity) -> bool {
    &&& id.canonical()
    &&& id.key() == match principal_text_bytes("uzt4z-lp777-77774-qaabq-cai"@) {
        Some(bytes) => bytes,
        None => seq![4u8],
    }
}

proof fn lemma_profile_at(profiles: Seq<Profile>, i: int)
    requires
        distinct_users(profiles),
        0 <= i < profiles.len(),
    ensures
        holds(profiles, profiles[i].user_principal),
        profile_of(profiles, profiles[i].user_principal) == profiles[i],
{
    let who = profiles[i].user_principal;
    let c = choose|c: int| 0 <= c < profiles.len() && (#[trigger] profiles[c]).user_principal == who;
    if c < i {
        assert(profiles[c].user_principal != profiles[i].user_principal);
    } else if i < c {
        assert(profiles[i].user_principal != profiles[c].user_principal);
    }
}

/// The index of the profile of `who`, if there is one.
fn position(profiles: &Vec<Profile>, who: &Identity) -> (r: Option<usize>)
    ensures
        match r {
            Some(i) => i < profiles@.len() && profiles@[i as int].user_principal == *who,
            None => !holds(profiles@, *who),
        },
{
    let mut i: usize = 0;
    while i < profiles.len()
        invariant
            i <= profiles@.len(),
            forall|k: int| 0 <= k < i ==> (#[trigger] profiles@[k]).user_principal != *who,
        decreases profiles@.len() - i,
    {
        if profiles[i].user_principal.same(who) {
            return Some(i);
        }
        i += 1;
    }
    None
}

/// One entry of the built-in roster, where `text` stands for an identity.
fn roster_entry(text: &str, name: &str, email: &str, avatar: Option<&str>) -> (r: Option<SeedUser>)
    ensures
        r.is_some() == principal_text_bytes(text@).is_some(),
        r.is_some() ==> is_seed_of(
            r.unwrap(),
            text@,
            name@,
            email@,
            match avatar {
                Some(a) => Some(a@),
                None => None,
            },
        ),
{
    match Identity::from_text(text) {
        Some(user_principal) => {
            let avatar_key = match avatar {
                Some(a) => Some(String::from_str(a)),
                None => None,
            };
            Some(
                SeedUser {
                    user_principal,
                    avatar_key,
                    name: String::from_str(name),
                    email: String::from_str(email),
                },
            )
        },
        None => None,
    }
}

/// The built-in roster.
pub fn default_roster() -> (r: Vec<SeedUser>)
    ensures
        is_default_roster(r@),
{
    let mut out: Vec<SeedUser> = Vec::new();
    if let Some(u) = roster_entry("aaaaa-aa", "Alice", "alice@example.com", Some("alice_avatar.png")) {
        out.push(u);
    }
    if let Some(u) = roster_entry("bbbbb-bb", "Bob", "bob@example.com", None) {
        out.push(u);
    }
    if let Some(u) = roster_entry("ccccc-cc", "Charlie", "charlie@example.com", Some("charlie.png")) {
        out.push(u);
    }
    out
}

/// The built-in ledger reference.
pub fn default_ledger() -> (r: Identity)
    ensures
        is_default_ledger(r),
{
    match Identity::from_text("uzt4z-lp777-77774-qaabq-cai") {
        Some(id) => id,
        None => Identity::anonymous(),
    }
}

impl ProfileStore {
    /// The invariant of a registry: one profile for each identity.
    pub open spec fn wf(&self) -> bool {
        distinct_users(self.profiles@)
    }

    /// Ensuring the caller's profile took `pre` to `post` and answered `out`.
    pub open spec fn ensure_step(
        pre: &ProfileStore,
        post: &ProfileStore,
        caller: Identity,
        name: Option<String>,
        email: Option<String>,
        avatar_key: Option<String>,
        now: u64,
        out: Ensured,
    ) -> bool {
        if holds(pre.profiles@, caller) {
            &&& *post == *pre
            &&& out.profile == profile_of(pre.profiles@, caller)
            &&& out.airdrop_via.is_none()
        } else {
            &&& out.profile.user_principal == caller
            &&& out.profile.name@ == match name {
                Some(n) => n@,
                None => "New User"@,
            }
            &&& out.profile.email@ == match email {
                Some(e) => e@,
                None => Seq::<char>::empty(),
            }
            &&& out.profile.avatar_key == avatar_key
            &&& out.profile.created_at_ns == now
            &&& post.profiles@ == pre.profiles@.push(out.profile)
            &&& post.token_canister_id == pre.token_canister_id
            &&& out.airdrop_via == Some(pre.token_canister_id)
        }
    }

    /// A registry with the given ledger reference and the profiles that
    /// the seeds make, all created at `now`.
    pub fn from_seeds(token_canister_id: Identity, seeds: &Vec<SeedUser>, now: u64) -> (r: ProfileStore)
        ensures
            r.wf(),
            r.token_canister_id == token_canister_id,
            seeded_from(r.profiles@, seeds@, now),
    {
        let mut profiles: Vec<Profile> = Vec::new();
        let mut i: usize = 0;
        while i < seeds.len()
            invariant
                i <= seeds@.len(),
                distinct_users(profiles@),
                seeded_from(profiles@, seeds@.take(i as int), now),
            decreases seeds@.len() - i,
        {
            let s = &seeds[i];
            let profile = Profile {
                user_principal: s.user_principal,
                name: s.name.clone(),
                email: s.email.clone(),
                avatar_key: copy_text(&s.avatar_key),
                created_at_ns: now,
            };
            let ghost before = profiles@;
            let ghost made = profile;
            let ghost at: int;
            match position(&profiles, &s.user_principal) {
                Some(j) => {
                    profiles.set(j, profile);
                    proof {
                        at = j as int;
                    }
                },
                None => {
                    profiles.push(profile);
                    proof {
                        at = before.len() as int;
                    }
                },
            }
            proof {
                let after = profiles@;
                assert(seeds@.take(i + 1).drop_last() =~= seeds@.take(i as int));
                assert(after[at] == made);
                assert forall|p: int, q: int| 0 <= p < q < after.len() implies (#[trigger] after[p]).user_principal
                    != (#[trigger] after[q]).user_principal by {
                    if p != at && q != at {
                        assert(after[p] == before[p] && after[q] == before[q]);
                    } else if p == at && q < before.len() {
                        assert(after[q] == before[q]);
                        assert(before[p].user_principal != before[q].user_principal);
                    } else if q == at && at < before.len() {
                        assert(after[p] == before[p]);
                        assert(before[p].user_principal != before[q].user_principal);
                    } else if q == at {
                        assert(after[p] == before[p]);
                        assert(!holds(before, made.user_principal));
                    }
                }
                assert forall|who: Identity|
                    match #[trigger] last_seed(seeds@.take(i + 1), who) {
                        Some(k) => holds(after, who) && profile_of(after, who) == as_profile(
                            seeds@.take(i + 1)[k],
                            now,
                        ),
                        None => !holds(after, who),
                    } by {
                    if who == made.user_principal {
                        lemma_profile_at(after, at);
                    } else {
                        let earlier = last_seed(seeds@.take(i as int), who);
                        assert(last_seed(seeds@.take(i + 1), who) == earlier);
                        if holds(before, who) {
                            let c = choose|c: int|
                                0 <= c < before.len() && (#[trigger] before[c]).user_principal == who;
                            lemma_profile_at(before, c);
                            assert(after[c] == before[c]);
                            lemma_profile_at(after, c);
                            assert(earlier.is_some());
                            assert(seeds@.take(i + 1)[earlier.unwrap()] == seeds@.take(i as int)[earlier.unwrap()]) by {
                                lemma_last_seed_bound(seeds@.take(i as int), who);
                            }
                        } else {
                            if holds(after, who) {
                                let c = choose|c: int|
                                    0 <= c < after.len() && (#[trigger] after[c]).user_principal == who;
                                assert(c != at);
                                assert(before[c].user_principal == who);
                                assert(false);
                            }
                        }
                    }
                }
            }
            i += 1;
        }
        proof {
            assert(seeds@.take(i as int) =~= seeds@);
        }
        ProfileStore { token_canister_id, profiles }
    }

    /// A registry at first start. A ledger reference or a roster that the
    /// seed leaves out is the built-in one.
    pub fn init(arg: Option<InitArg>, now: u64) -> (r: ProfileStore)
        ensures
            r.wf(),
            match arg {
                Some(InitArg { token_canister_id: Some(t), .. }) => r.token_canister_id == t,
                _ => is_default_ledger(r.token_canister_id),
            },
            match arg {
                Some(InitArg { seed_users: Some(s), .. }) => seeded_from(r.profiles@, s@, now),
                _ => exists|roster: Seq<SeedUser>|
                    is_default_roster(roster) && seeded_from(r.profiles@, roster, now),
            },
    {
        let (seeds, token): (Option<Vec<SeedUser>>, Option<Identity>) = match arg {
            Some(a) => (a.seed_users, a.token_canister_id),
            None => (None, None),
        };
        let ledger: Identity = match token {
            Some(t) => t,
            None => default_ledger(),
        };
        match seeds {
            Some(s) => ProfileStore::from_seeds(ledger, &s, now),
            None => {
                let roster = default_roster();
                ProfileStore::from_seeds(ledger, &roster, now)
            },
        }
    }

    /// Whether the invariant holds of this state.
    pub fn is_valid(&self) -> (r: bool)
        ensures
            r == self.wf(),
    {
        let mut j: usize = 0;
        while j < self.profiles.len()
            invariant
                j <= self.profiles@.len(),
                forall|p: int, q: int|
                    0 <= p < q < j ==> (#[trigger] self.profiles@[p]).user_principal != (
                    #[trigger] self.profiles@[q]).user_principal,
            decreases self.profiles@.len() - j,
        {
            let mut i: usize = 0;
            while i < j
                invariant
                    i <= j < self.profiles@.len(),
                    forall|p: int|
                        0 <= p < i ==> (#[trigger] self.profiles@[p]).user_principal
                            != self.profiles@[j as int].user_principal,
                decreases j - i,
            {
                if self.profiles[i].user_principal.same(&self.profiles[j].user_principal) {
                    assert(self.profiles@[i as int].user_principal == self.profiles@[j as int].user_principal);
                    return false;
                }
                i += 1;
            }
            j += 1;
        }
        true
    }

    /// The whole state as one bundle, for safekeeping.
    pub fn snapshot(&self) -> (r: ProfileStore)
        ensures
            r.token_canister_id == self.token_canister_id,
            r.profiles@ == self.profiles@,
            r.wf() == self.wf(),
    {
        let mut profiles: Vec<Profile> = Vec::new();
        let mut i: usize = 0;
        while i < self.profiles.len()
            invariant
                i <= self.profiles@.len(),
                profiles@ == self.profiles@.take(i as int),
            decreases self.profiles@.len() - i,
        {
            profiles.push(self.profiles[i].duplicate());
            assert(profiles@ =~= self.profiles@.take(i + 1));
            i += 1;
        }
        assert(self.profiles@.take(i as int) =~= self.profiles@);
        ProfileStore { token_canister_id: self.token_canister_id, profiles }
    }

    /// The state after a restart: the bundle that was kept, whole, where
    /// there is one and the invariant holds of it; else no profiles and
    /// the anonymous identity for a ledger. Nothing is ever restored in part.
    pub fn restore(saved: Option<ProfileStore>) -> (r: ProfileStore)
        ensures
            r.wf(),
            match saved {
                Some(s) => if s.wf() {
                    r == s
                } else {
                    r.is_blank()
                },
                None => r.is_blank(),
            },
    {
        match saved {
            Some(s) => {
                if s.is_valid() {
                    s
                } else {
                    ProfileStore { token_canister_id: Identity::anonymous(), profiles: Vec::new() }
                }
            },
            None => ProfileStore { token_canister_id: Identity::anonymous(), profiles: Vec::new() },
        }
    }

    /// A registry that has seen nothing: the state before any seed.
    pub open spec fn is_blank(&self) -> bool {
        &&& self.profiles@.len() == 0
        &&& self.token_canister_id.canonical()
        &&& self.token_canister_id.key() == seq![4u8]
    }

    /// The caller's profile, made now if there was none. A new profile is
    /// in the registry when this returns, and only a new profile comes with
    /// a request for the airdrop.
    pub fn ensure_user(
        &mut self,
        caller: Identity,
        default_name: Option<String>,
        default_email: Option<String>,
        default_avatar_key: Option<String>,
        now: u64,
    ) -> (r: Ensured)
        requires
            old(self).wf(),
        ensures
            final(self).wf(),
            ProfileStore::ensure_step(
                old(self),
                final(self),
                caller,
                default_name,
                default_email,
                default_avatar_key,
                now,
                r,
            ),
            holds(final(self).profiles@, caller),
            profile_of(final(self).profiles@, caller) == r.profile,
    {
        match position(&self.profiles, &caller) {
            Some(i) => {
                proof {
                    lemma_profile_at(self.profiles@, i as int);
                }
                Ensured { profile: self.profiles[i].duplicate(), airdrop_via: None }
            },
            None => {
                let name = match default_name {
                    Some(n) => n,
                    None => String::from_str("New User"),
                };
                let email = match default_email {
                    Some(e) => e,
                    None => String::new(),
                };
                let profile = Profile {
                    user_principal: caller,
                    name,
                    email,
                    avatar_key: default_avatar_key,
                    created_at_ns: now,
                };
                let copy = profile.duplicate();
                self.profiles.push(profile);
                proof {
                    let after = self.profiles@;
                    assert forall|p: int, q: int| 0 <= p < q < after.len() implies (
                    #[trigger] after[p]).user_principal != (#[trigger] after[q]).user_principal by {
                        assert(after[p] == old(self).profiles@[p]);
                        if q < after.len() - 1 {
                            assert(after[q] == old(self).profiles@[q]);
                        }
                    }
                    assert(after[after.len() - 1] == copy);
                    lemma_profile_at(after, after.len() - 1);
                }
                Ensured { profile: copy, airdrop_via: Some(self.token_canister_id) }
            },
        }
    }

    /// Overwrites the fields given in the caller's profile.
    pub fn update_profile(
        &mut self,
        caller: Identity,
        name: Option<String>,
        email: Option<String>,
        avatar_key: Option<String>,
    ) -> (r: Result<Profile, Error>)
        requires
            old(self).wf(),
        ensures
            final(self).wf(),
            r.is_ok() <==> holds(old(self).profiles@, caller),
            match r {
                Ok(p) => {
                    &&& p == profile_of(old(self).profiles@, caller).revised(name, email, avatar_key)
                    &&& final(self).token_canister_id == old(self).token_canister_id
                    &&& final(self).profiles@.len() == old(self).profiles@.len()
                    &&& forall|i: int|
                        0 <= i < old(self).profiles@.len() ==> #[trigger] final(self).profiles@[i] == if old(
                            self,
                        ).profiles@[i].user_principal == caller {
                            p
                        } else {
                            old(self).profiles@[i]
                        }
                },
                Err(e) => e == Error::ProfileNotFound && *final(self) == *old(self),
            },
    {
        let i: usize = match position(&self.profiles, &caller) {
            Some(i) => i,
            None => {
                return Err(Error::ProfileNotFound);
            },
        };
        proof {
            lemma_profile_at(self.profiles@, i as int);
        }
        let mut profile = self.profiles[i].duplicate();
        if let Some(n) = name {
            profile.name = n;
        }
        if let Some(e) = email {
            profile.email = e;
        }
        if let Some(a) = avatar_key {
            profile.avatar_key = Some(a);
        }
        let copy = profile.duplicate();
        self.profiles.set(i, profile);
        proof {
            let before = old(self).profiles@;
            let after = self.profiles@;
            assert forall|p: int, q: int| 0 <= p < q < after.len() implies (#[trigger] after[p]).user_principal
                != (#[trigger] after[q]).user_principal by {
                assert(before[p].user_principal != before[q].user_principal);
            }
            assert forall|k: int| 0 <= k < before.len() implies #[trigger] after[k] == if before[k].user_principal
                == caller {
                copy
            } else {
                before[k]
            } by {
                if k < i {
                    assert(before[k].user_principal != before[i as int].user_principal);
                } else if k > i {
                    assert(before[i as int].user_principal != before[k].user_principal);
                }
            }
        }
        Ok(copy)
    }

    /// The profile of `principal`, if there is one.
    pub fn get_profile(&self, principal: Identity) -> (r: Option<Profile>)
        requires
            self.wf(),
        ensures
            r.is_some() == holds(self.profiles@, principal),
            r.is_some() ==> r.unwrap() == profile_of(self.profiles@, principal),
    {
        match position(&self.profiles, &principal) {
            Some(i) => {
                proof {
                    lemma_profile_at(self.profiles@, i as int);
                }
                Some(self.profiles[i].duplicate())
            },
            None => None,
        }
    }

    /// The page of the profiles whose search text holds `needle`, by
    /// name. `lowered` gives the search text of each profile, in the order
    /// of the registry.
    pub fn pick_by_name(&self, lowered: &Vec<String>, needle: &str, offset: u64, limit: u64) -> (r: Vec<
        Profile,
    >)
        requires
            lowered@.len() == self.profiles@.len(),
        ensures
            found_among(self.profiles@, crate::order::texts(lowered@), needle@, offset, limit, r@),
    {
        let ghost low = crate::order::texts(lowered@);
        let mut picks: Vec<usize> = Vec::new();
        let mut names: Vec<String> = Vec::new();
        let mut i: usize = 0;
        while i < lowered.len()
            invariant
                i <= lowered@.len(),
                lowered@.len() == self.profiles@.len(),
                low == crate::order::texts(lowered@),
                picks@ == matching(low.take(i as int), needle@),
                forall|k: int| 0 <= k < picks@.len() ==> (#[trigger] picks@[k]) < i,
                crate::order::texts(names@) == names_at(self.profiles@, picks@),
            decreases lowered@.len() - i,
        {
            proof {
                assert(low.take(i + 1).drop_last() =~= low.take(i as int));
                assert(low.take(i + 1).last() == lowered@[i as int]@);
            }
            if contains_text(lowered[i].as_str(), needle) {
                let ghost old_names = crate::order::texts(names@);
                let ghost old_picks = picks@;
                picks.push(i);
                names.push(self.profiles[i].name.clone());
                proof {
                    let new_names = crate::order::texts(names@);
                    let expected = names_at(self.profiles@, picks@);
                    assert(old_names.len() == names_at(self.profiles@, old_picks).len());
                    assert(new_names.len() == expected.len());
                    assert forall|j: int| 0 <= j < new_names.len() implies new_names[j] == expected[j] by {
                        if j < old_names.len() {
                            assert(new_names[j] == old_names[j]);
                            assert(old_names[j] == names_at(self.profiles@, old_picks)[j]);
                        }
                    }
                    assert(new_names =~= expected);
                }
            }
            i += 1;
        }
        proof {
            assert(low.take(i as int) =~= low);
        }
        let order = by_name(&names);
        let chosen = page_indices(&order, offset, limit);
        let mut out: Vec<Profile> = Vec::new();
        let mut k: usize = 0;
        while k < chosen.len()
            invariant
                k <= chosen@.len(),
                chosen@ == page_of(order@, offset, limit),
                is_by_name(crate::order::texts(names@), order@),
                names@.len() == picks@.len(),
                picks@ == matching(low, needle@),
                forall|j: int| 0 <= j < picks@.len() ==> (#[trigger] picks@[j]) < self.profiles@.len(),
                out@ == chosen@.take(k as int).map_values(
                    |k: usize| self.profiles@[matching(low, needle@)[k as int] as int],
                ),
            decreases chosen@.len() - k,
        {
            let slot: usize = chosen[k];
            proof {
                let start = page_start(order@.len(), offset) as int;
                assert(chosen@[k as int] == order@[start + k]);
                assert(slot < picks@.len());
            }
            out.push(self.profiles[picks[slot]].duplicate());
            proof {
                assert(out@ =~= chosen@.take(k + 1).map_values(
                    |k: usize| self.profiles@[matching(low, needle@)[k as int] as int],
                ));
            }
            k += 1;
        }
        proof {
            assert(chosen@.take(k as int) =~= chosen@);
        }
        out
    }

    /// The page of the profiles whose name holds `q`, letter case aside,
    /// ascending by name; profiles of one name in the order of the registry.
    pub fn search_profiles_by_name(&self, q: String, offset: u64, limit: u64) -> (r: Vec<Profile>)
        ensures
            found_among(self.profiles@, lowered_names(self.profiles@), lowercase_of(q@), offset, limit, r@),
    {
        let needle = lowercase(q.as_str());
        let mut lowered: Vec<String> = Vec::new();
        let mut i: usize = 0;
        while i < self.profiles.len()
            invariant
                i <= self.profiles@.len(),
                crate::order::texts(lowered@) == lowered_names(self.profiles@.take(i as int)),
            decreases self.profiles@.len() - i,
        {
            let ghost old_lowered = crate::order::texts(lowered@);
            lowered.push(lowercase(self.profiles[i].name.as_str()));
            proof {
                let now_lowered = crate::order::texts(lowered@);
                let expected = lowered_names(self.profiles@.take(i + 1));
                assert(old_lowered.len() == lowered_names(self.profiles@.take(i as int)).len());
                assert(now_lowered.len() == expected.len());
                assert forall|j: int| 0 <= j < now_lowered.len() implies now_lowered[j] == expected[j] by {
                    if j < old_lowered.len() {
                        assert(now_lowered[j] == old_lowered[j]);
                        assert(old_lowered[j] == lowered_names(self.profiles@.take(i as int))[j]);
                    }
                }
                assert(now_lowered =~= expected);
            }
            i += 1;
        }
        proof {
            assert(self.profiles@.take(i as int) =~= self.profiles@);
            assert(lowered@.len() == crate::order::texts(lowered@).len());
        }
        self.pick_by_name(&lowered, needle.as_str(), offset, limit)
    }

    /// The caller's own profile, if there is one.
    pub fn get_my_profile(&self, caller: Identity) -> (r: Option<Profile>)
        requires
            self.wf(),
        ensures
            r.is_some() == holds(self.profiles@, caller),
            r.is_some() ==> r.unwrap() == profile_of(self.profiles@, caller),
    {
        self.get_profile(caller)
    }
}

proof fn lemma_last_seed_bound(seeds: Seq<SeedUser>, who: Identity)
    ensures
        last_seed(seeds, who).is_some() ==> 0 <= last_seed(seeds, who).unwrap() < seeds.len(),
    decreases seeds.len(),
{
    if seeds.len() > 0 {
        lemma_last_seed_bound(seeds.drop_last(), who);
    }
}

/// Ensuring is idempotent: of two calls by one identity, one after the
/// other, the second answers the profile that the first answered, asks for
/// no airdrop and changes nothing. So the airdrop is asked for at most once.
pub proof fn ensure_is_once(
    start: ProfileStore,
    middle: ProfileStore,
    end: ProfileStore,
    caller: Identity,
    first_name: Option<String>,
    first_email: Option<String>,
    first_avatar: Option<String>,
    first_time: u64,
    first: Ensured,
    second_name: Option<String>,
    second_email: Option<String>,
    second_avatar: Option<String>,
    second_time: u64,
    second: Ensured,
)
    requires
        start.wf(),
        ProfileStore::ensure_step(&start, &middle, caller, first_name, first_email, first_avatar, first_time, first),
        ProfileStore::ensure_step(
            &middle,
            &end,
            caller,
            second_name,
            second_email,
            second_avatar,
            second_time,
            second,
        ),
    ensures
        second.profile == first.profile,
        second.airdrop_via.is_none(),
        end == middle,
        first.airdrop_via.is_some() <==> !holds(start.profiles@, caller),
{
    if !holds(start.profiles@, caller) {
        let at = start.profiles@.len() as int;
        let after = middle.profiles@;
        assert(after[at] == first.profile);
        assert forall|p: int, q: int| 0 <= p < q < after.len() implies (#[trigger] after[p]).user_principal
            != (#[trigger] after[q]).user_principal by {
            assert(after[p] == start.profiles@[p]);
            if q < at {
                assert(after[q] == start.profiles@[q]);
            }
        }
        lemma_profile_at(after, at);
    }
}

} // verus!
