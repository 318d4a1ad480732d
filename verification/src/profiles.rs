//! Named, timestamped snapshots of the whole configuration.
//!
//! A [`Profile`] captures the mode and every parameter's value, keyed by
//! canonical name rather than by tag so that profiles survive schema
//! changes: applying one resolves each name back to a parameter and
//! silently skips names it no longer knows.  Applying is best-effort: a
//! failure on one parameter does not stop the rest.
//!
//! [`ProfileStore`] keeps profiles keyed by name and lists them most
//! recently created first.  The file plumbing around it — one file per
//! profile under a configuration directory — lives outside the library;
//! the store here carries the keying, ordering and replacement rules
//! that that plumbing must preserve.

use crate::fixed::Fpt;
use crate::params::{
    all_params, all_params_seq, lemma_schema_partition, lemma_slot_matches_name, spec_name,
    spec_slot, AccelMode, Param,
};
use crate::persist::{same_acceptance, would_write, ParamStore, StoreError};
use vstd::prelude::*;
use vstd::string::StringExecFns;
use vstd::string::StringSliceAdditionalSpecFns;

verus! {

/// Milliseconds of Unix time, read from the system clock.
///
/// Relies on std's `SystemTime::now` and `duration_since`, which cannot
/// panic; a clock set before the Unix epoch reads as zero.  Nothing is
/// promised of the value: the clock is outside the program.
#[verifier::external_body]
fn utc_now_millis() -> i64 {
    match std::time::SystemTime::now().duration_since(std::time::UNIX_EPOCH) {
        Ok(d) => d.as_millis() as i64,
        Err(_) => 0,
    }
}

/// A named, timestamped snapshot of the mode and the parameter values,
/// keyed by canonical parameter name.
#[derive(Debug, Clone)]
pub struct Profile {
    pub name: String,
    pub mode: AccelMode,
    pub params: Vec<(String, Fpt)>,
    pub created_at: i64,
}

/// The mathematical content of a profile.
pub ghost struct ProfileView {
    pub name: Seq<char>,
    pub mode: AccelMode,
    pub params: Seq<(Seq<char>, Fpt)>,
    pub created_at: int,
}

/// The views of a sequence of profiles.
pub open spec fn views_of(s: Seq<Profile>) -> Seq<ProfileView> {
    s.map_values(|p: Profile| p@)
}

impl View for Profile {
    type V = ProfileView;

    open spec fn view(&self) -> ProfileView {
        ProfileView {
            name: self.name@,
            mode: self.mode,
            params: self.params@.map_values(|e: (String, Fpt)| (e.0@, e.1)),
            created_at: self.created_at as int,
        }
    }
}

// ---------------------------------------------------------------------------
// Resolving canonical names back to parameters.
// ---------------------------------------------------------------------------
/// The first parameter in `ps` carrying `name`, if any.
pub open spec fn spec_lookup(ps: Seq<Param>, name: Seq<char>) -> Option<Param>
    decreases ps.len(),
{
    if ps.len() == 0 {
        None
    } else if spec_name(ps[0]) == name {
        Some(ps[0])
    } else {
        spec_lookup(ps.drop_first(), name)
    }
}

/// The parameter a stored name denotes: the first of the declared order
/// whose canonical name matches.
pub open spec fn spec_param_from_name(name: Seq<char>) -> Option<Param> {
    spec_lookup(all_params_seq(), name)
}

proof fn lemma_lookup_at(ps: Seq<Param>, name: Seq<char>, k: int)
    requires
        0 <= k <= ps.len(),
        forall|i: int| 0 <= i < k ==> spec_name(#[trigger] ps[i]) != name,
        k == ps.len() || spec_name(ps[k]) == name,
    ensures
        spec_lookup(ps, name) == if k < ps.len() {
            Some(ps[k])
        } else {
            None::<Param>
        },
    decreases ps.len(),
{
    if ps.len() > 0 && spec_name(ps[0]) != name {
        lemma_lookup_at(ps.drop_first(), name, k - 1);
        if k < ps.len() {
            assert(ps.drop_first()[k - 1] == ps[k]);
        }
    }
}

proof fn lemma_lookup_exists(ps: Seq<Param>, name: Seq<char>)
    requires
        exists|i: int| 0 <= i < ps.len() && spec_name(#[trigger] ps[i]) == name,
    ensures
        spec_lookup(ps, name) matches Some(p) && spec_name(p) == name,
    decreases ps.len(),
{
    if ps.len() > 0 && spec_name(ps[0]) != name {
        let w = choose|i: int| 0 <= i < ps.len() && spec_name(#[trigger] ps[i]) == name;
        assert(ps.drop_first()[w - 1] == ps[w]);
        lemma_lookup_exists(ps.drop_first(), name);
    }
}

/// Looking up the canonical name of any parameter finds a parameter
/// with that same name (the first of the declared order, which may be a
/// different tag sharing the name), hence the same value slot.
pub proof fn lemma_name_resolves(q: Param)
    ensures
        spec_param_from_name(spec_name(q)) matches Some(p) && spec_name(p) == spec_name(q)
            && spec_slot(p) == spec_slot(q),
{
    lemma_schema_partition();
    let ps = all_params_seq();
    let name = spec_name(q);
    assert(exists|i: int| 0 <= i < ps.len() && spec_name(#[trigger] ps[i]) == name) by {
        let w = choose|i: int| 0 <= i < ps.len() && ps[i] == q;
        assert(spec_name(ps[w]) == name);
    }
    lemma_lookup_exists(ps, name);
    let p = spec_lookup(ps, name)->Some_0;
    lemma_slot_matches_name(p, q);
}

/// Whether two byte slices hold the same bytes.
fn bytes_eq(a: &[u8], b: &[u8]) -> (r: bool)
    ensures
        r == (a@ == b@),
{
    if a.len() != b.len() {
        return false;
    }
    let n = a.len();
    let mut i: usize = 0;
    while i < n
        invariant
            i <= n,
            n == a@.len(),
            n == b@.len(),
            forall|j: int| 0 <= j < i ==> a@[j] == b@[j],
        decreases n - i,
    {
        if a[i] != b[i] {
            return false;
        }
        i = i + 1;
    }
    proof {
        assert(a@ =~= b@);
    }
    true
}

/// Whether two strings hold the same characters.
fn str_eq(a: &str, b: &str) -> (r: bool)
    ensures
        r == (a@ == b@),
{
    let r = bytes_eq(a.as_bytes(), b.as_bytes());
    proof {
        if a.spec_bytes() == b.spec_bytes() {
            vstd::utf8::encode_utf8_decode_utf8(a@);
            vstd::utf8::encode_utf8_decode_utf8(b@);
        }
    }
    r
}

/// Resolve a canonical name to its parameter: the first of the declared
/// order whose name matches, or nothing for a name from another schema
/// version.
pub fn param_from_name(name: &str) -> (r: Option<Param>)
    ensures
        r == spec_param_from_name(name@),
{
    let ps = all_params();
    let n = ps.len();
    let mut i: usize = 0;
    while i < n
        invariant
            i <= n,
            n == ps@.len(),
            ps@ == all_params_seq(),
            forall|j: int| 0 <= j < i ==> spec_name(#[trigger] ps@[j]) != name@,
        decreases n - i,
    {
        if str_eq(name, ps[i].name()) {
            proof {
                lemma_lookup_at(ps@, name@, i as int);
            }
            return Some(ps[i]);
        }
        i = i + 1;
    }
    proof {
        lemma_lookup_at(ps@, name@, n as int);
    }
    None
}

// ---------------------------------------------------------------------------
// Capturing and applying profiles.
// ---------------------------------------------------------------------------
/// Whether a name already occurs among the captured entries.
pub open spec fn spec_has_name(entries: Seq<(String, Fpt)>, name: Seq<char>) -> bool {
    exists|k: int| 0 <= k < entries.len() && (#[trigger] entries[k]).0@ == name
}

/// Whether one captured entry records exactly what the store holds.
pub open spec fn entry_matches_store<S: ParamStore>(entry: (String, Fpt), store: &S) -> bool {
    spec_param_from_name(entry.0@) matches Some(p) && store.param_vals().contains_key(spec_slot(p))
        && entry.1 == store.param_vals()[spec_slot(p)]
}

/// Whether replaying one stored entry would go through on a store with
/// this acceptance state: an unknown name is skipped harmlessly, a known
/// one needs a valid, accepted write.
pub open spec fn entry_applies<S: ParamStore>(entry: (String, Fpt), store: &S) -> bool {
    match spec_param_from_name(entry.0@) {
        Some(p) => would_write(store, p, entry.1),
        None => true,
    }
}

/// The stored values after replaying the entries in order on a store
/// with this acceptance state: each entry that resolves to a parameter
/// and would go through writes its value; the others change nothing.
pub open spec fn spec_apply_entries<S: ParamStore>(
    m: Map<int, Fpt>,
    entries: Seq<(String, Fpt)>,
    store: &S,
) -> Map<int, Fpt>
    decreases entries.len(),
{
    if entries.len() == 0 {
        m
    } else {
        let prefix = spec_apply_entries(m, entries.drop_last(), store);
        let e = entries.last();
        match spec_param_from_name(e.0@) {
            Some(p) => if would_write(store, p, e.1) {
                prefix.insert(spec_slot(p), e.1)
            } else {
                prefix
            },
            None => prefix,
        }
    }
}

/// Whether the captured entries include this name.
fn contains_name(entries: &Vec<(String, Fpt)>, name: &str) -> (r: bool)
    ensures
        r == spec_has_name(entries@, name@),
{
    let n = entries.len();
    let mut i: usize = 0;
    while i < n
        invariant
            i <= n,
            n == entries@.len(),
            forall|j: int| 0 <= j < i ==> (#[trigger] entries@[j]).0@ != name@,
        decreases n - i,
    {
        if str_eq(entries[i].0.as_str(), name) {
            return true;
        }
        i = i + 1;
    }
    false
}

impl Profile {
    /// An empty profile with the given name and mode, stamped with the
    /// clock's current time.
    pub fn new(name: String, mode: AccelMode) -> (r: Profile)
        ensures
            r.name == name,
            r.mode == mode,
            r.params@ =~= Seq::<(String, Fpt)>::empty(),
    {
        Profile { name, mode, params: Vec::new(), created_at: utc_now_millis() }
    }

    /// Capture the live state: the current mode and every parameter of
    /// every group, read straight from the store, one entry per
    /// canonical name, in declared order.  Any single read failure
    /// aborts the capture; a store that accepts every read cannot fail.
    pub fn from_current_settings<S: ParamStore>(name: String, store: &S) -> (r: Result<
        Profile,
        StoreError,
    >)
        ensures
            store.accepts_mode() && (forall|p: Param| store.accepts_get(p)) ==> r is Ok,
            match r {
                Ok(prof) => {
                    &&& prof.name == name
                    &&& prof.mode == store.mode_val()
                    &&& forall|k: int|
                        0 <= k < prof.params@.len() ==> entry_matches_store(
                            #[trigger] prof.params@[k],
                            store,
                        )
                    &&& forall|p: Param| spec_has_name(prof.params@, spec_name(p))
                    &&& forall|k1: int, k2: int|
                        0 <= k1 < k2 < prof.params@.len() ==> (#[trigger] prof.params@[k1]).0@ != (
                        #[trigger] prof.params@[k2]).0@
                },
                Err(_) => true,
            },
    {
        let mode = match store.get_current_accel_mode() {
            Ok(m) => m,
            Err(e) => {
                return Err(e);
            },
        };
        let mut prof = Profile { name, mode, params: Vec::new(), created_at: utc_now_millis() };
        let ghost name0 = prof.name;
        let ps = all_params();
        let n = ps.len();
        let mut i: usize = 0;
        while i < n
            invariant
                i <= n,
                n == ps@.len(),
                ps@ == all_params_seq(),
                prof.mode == store.mode_val(),
                prof.name == name0,
                forall|k: int|
                    0 <= k < prof.params@.len() ==> entry_matches_store(
                        #[trigger] prof.params@[k],
                        store,
                    ),
                forall|j: int|
                    0 <= j < i ==> spec_has_name(prof.params@, spec_name(#[trigger] ps@[j])),
                forall|k1: int, k2: int|
                    0 <= k1 < k2 < prof.params@.len() ==> (#[trigger] prof.params@[k1]).0@ != (
                    #[trigger] prof.params@[k2]).0@,
            decreases n - i,
        {
            let p = ps[i];
            let pname = p.name();
            let ghost before = prof.params@;
            let seen = contains_name(&prof.params, pname);
            if !seen {
                let value = match store.get(p) {
                    Ok(v) => v,
                    Err(e) => {
                        return Err(e);
                    },
                };
                proof {
                    lemma_name_resolves(p);
                }
                prof.params.push((pname.to_owned(), value));
                proof {
                    assert(prof.params@.last().0@ == spec_name(p));
                    assert forall|k: int|
                        0 <= k < prof.params@.len() implies entry_matches_store(
                        #[trigger] prof.params@[k],
                        store,
                    ) by {
                        if k < before.len() {
                            assert(prof.params@[k] == before[k]);
                        } else {
                            assert(prof.params@[k] == prof.params@.last());
                        }
                    }
                    assert forall|k1: int, k2: int|
                        0 <= k1 < k2 < prof.params@.len() implies (
                    #[trigger] prof.params@[k1]).0@ != (#[trigger] prof.params@[k2]).0@ by {
                        if k2 < before.len() {
                            assert(prof.params@[k1] == before[k1]);
                            assert(prof.params@[k2] == before[k2]);
                        } else {
                            assert(prof.params@[k1] == before[k1]);
                        }
                    }
                }
            }
            proof {
                assert(spec_has_name(prof.params@, spec_name(p))) by {
                    if seen {
                        let w = choose|k: int|
                            0 <= k < before.len() && (#[trigger] before[k]).0@ == pname@;
                        assert(prof.params@[w] == before[w]);
                    } else {
                        let last = prof.params@.len() - 1;
                        assert(prof.params@[last].0@ == spec_name(p));
                    }
                }
                assert forall|j: int|
                    0 <= j < i + 1 implies spec_has_name(
                    prof.params@,
                    spec_name(#[trigger] ps@[j]),
                ) by {
                    if j < i {
                        assert(spec_has_name(before, spec_name(ps@[j])));
                        let w = choose|k: int|
                            0 <= k < before.len() && (#[trigger] before[k]).0@ == spec_name(
                                ps@[j],
                            );
                        assert(prof.params@[w] == before[w]);
                    }
                }
            }
            i = i + 1;
        }
        proof {
            lemma_schema_partition();
            assert forall|p: Param| spec_has_name(prof.params@, spec_name(p)) by {
                let w = choose|j: int| 0 <= j < all_params_seq().len() && all_params_seq()[j] == p;
                assert(spec_has_name(prof.params@, spec_name(ps@[w])));
            }
        }
        Ok(prof)
    }

    /// Replay the snapshot: set the mode, then every stored entry in
    /// order, resolving names and silently skipping unknown ones; a
    /// failed entry does not stop the rest, and the first error is
    /// reported.  Reapplying a profile captured from the store's
    /// current state leaves the store unchanged; it also returns `Ok`
    /// when every stored value passes its own rule and the store
    /// accepts every write.
    pub fn apply<S: ParamStore>(&self, store: &mut S) -> (r: Result<(), StoreError>)
        ensures
            same_acceptance(old(store), final(store)),
            !old(store).accepts_mode() ==> r is Err && final(store).param_vals() == old(store).param_vals() && final(store).mode_val() == old(store).mode_val(),
            old(store).accepts_mode() ==> final(store).mode_val() == self.mode && final(store).param_vals() == spec_apply_entries(
                old(store).param_vals(),
                self.params@,
                old(store),
            ),
            r is Ok <==> old(store).accepts_mode() && (forall|k: int|
                0 <= k < self.params@.len() ==> entry_applies(
                    #[trigger] self.params@[k],
                    old(store),
                )),
            (self.mode == old(store).mode_val() && (forall|k: int|
                0 <= k < self.params@.len() ==> entry_matches_store(
                    #[trigger] self.params@[k],
                    old(store),
                ))) ==> final(store).param_vals() == old(store).param_vals()
                && final(store).mode_val() == old(store).mode_val(),
    {
        let ghost idempotent = self.mode == old(store).mode_val() && (forall|k: int|
            0 <= k < self.params@.len() ==> entry_matches_store(
                #[trigger] self.params@[k],
                old(store),
            ));
        match store.set_current_accel_mode(self.mode) {
            Ok(_) => (),
            Err(e) => {
                return Err(e);
            },
        }
        let n = self.params.len();
        let mut i: usize = 0;
        let mut first_err: Option<StoreError> = None;
        proof {
            assert(self.params@.take(0) =~= Seq::<(String, Fpt)>::empty());
        }
        while i < n
            invariant
                i <= n,
                n == self.params@.len(),
                store.mode_val() == self.mode,
                forall|q: Param| store.accepts_set(q) == old(store).accepts_set(q),
                forall|q: Param| store.accepts_get(q) == old(store).accepts_get(q),
                store.accepts_mode() == old(store).accepts_mode(),
                store.param_vals() == spec_apply_entries(
                    old(store).param_vals(),
                    self.params@.take(i as int),
                    old(store),
                ),
                first_err is None <==> (forall|k: int|
                    0 <= k < i ==> entry_applies(#[trigger] self.params@[k], old(store))),
                idempotent == (self.mode == old(store).mode_val() && (forall|k: int|
                    0 <= k < self.params@.len() ==> entry_matches_store(
                        #[trigger] self.params@[k],
                        old(store),
                    ))),
                idempotent ==> store.param_vals() == old(store).param_vals(),
            decreases n - i,
        {
            proof {
                assert(self.params@.take(i + 1).drop_last() =~= self.params@.take(i as int));
                assert(self.params@.take(i + 1).last() == self.params@[i as int]);
            }
            let entry_name = &self.params[i].0;
            let value = self.params[i].1;
            match param_from_name(entry_name.as_str()) {
                None => {
                    proof {
                        assert(entry_applies(self.params@[i as int], old(store)));
                    }
                },
                Some(p) => {
                    let ghost pre = store.param_vals();
                    let rs = store.set(p, value);
                    proof {
                        assert(rs is Ok <==> would_write(old(store), p, value));
                        assert(rs is Ok <==> entry_applies(self.params@[i as int], old(store)));
                        if idempotent {
                            assert(entry_matches_store(self.params@[i as int], old(store)));
                            if rs is Ok {
                                assert(store.param_vals() =~= pre);
                            }
                        }
                    }
                    if rs.is_err() && first_err.is_none() {
                        first_err = match rs {
                            Err(e) => Some(e),
                            Ok(_) => None,
                        };
                    }
                },
            }
            i = i + 1;
        }
        proof {
            assert(self.params@.take(n as int) =~= self.params@);
        }
        match first_err {
            None => Ok(()),
            Some(e) => Err(e),
        }
    }
}

// ---------------------------------------------------------------------------
// The keyed collection of profiles.
// ---------------------------------------------------------------------------
/// Index of the first profile named `name`, or `s.len()`.
pub open spec fn spec_profile_index(s: Seq<ProfileView>, name: Seq<char>) -> int
    decreases s.len(),
{
    if s.len() == 0 {
        0
    } else if s[0].name == name {
        0
    } else {
        1 + spec_profile_index(s.drop_first(), name)
    }
}

/// Whether some profile is named `name`.
pub open spec fn spec_has_profile(s: Seq<ProfileView>, name: Seq<char>) -> bool {
    exists|i: int| 0 <= i < s.len() && (#[trigger] s[i]).name == name
}

proof fn lemma_profile_index(s: Seq<ProfileView>, name: Seq<char>)
    ensures
        0 <= spec_profile_index(s, name) <= s.len(),
        forall|i: int| 0 <= i < spec_profile_index(s, name) ==> (#[trigger] s[i]).name != name,
        spec_profile_index(s, name) < s.len() ==> s[spec_profile_index(s, name)].name == name,
        spec_has_profile(s, name) <==> spec_profile_index(s, name) < s.len(),
    decreases s.len(),
{
    if s.len() > 0 && s[0].name != name {
        lemma_profile_index(s.drop_first(), name);
        let k = spec_profile_index(s, name);
        assert forall|i: int| 0 <= i < k implies (#[trigger] s[i]).name != name by {
            if i > 0 {
                assert(s.drop_first()[i - 1] == s[i]);
            }
        }
        if k < s.len() {
            assert(s.drop_first()[k - 1] == s[k]);
        }
        if spec_has_profile(s, name) {
            let w = choose|i: int| 0 <= i < s.len() && (#[trigger] s[i]).name == name;
            assert(s.drop_first()[w - 1] == s[w]);
        }
        if spec_has_profile(s.drop_first(), name) {
            let w = choose|i: int|
                0 <= i < s.drop_first().len() && (#[trigger] s.drop_first()[i]).name == name;
            assert(s[w + 1] == s.drop_first()[w]);
        }
    }
}

/// Profiles keyed by name, with the directory their files live under.
#[derive(Debug)]
pub struct ProfileStore {
    profiles_dir: String,
    profiles: Vec<Profile>,
}

/// Copy a parameter list entry by entry.
fn clone_params(v: &Vec<(String, Fpt)>) -> (r: Vec<(String, Fpt)>)
    ensures
        r@ == v@,
{
    let mut r: Vec<(String, Fpt)> = Vec::new();
    let n = v.len();
    let mut i: usize = 0;
    while i < n
        invariant
            i <= n,
            n == v@.len(),
            r@.len() == i,
            forall|j: int| 0 <= j < i ==> r@[j] == v@[j],
        decreases n - i,
    {
        let name = v[i].0.clone();
        let value = v[i].1;
        r.push((name, value));
        i = i + 1;
    }
    proof {
        assert(r@ =~= v@);
    }
    r
}

/// Copy a profile field by field.
fn clone_profile(p: &Profile) -> (r: Profile)
    ensures
        r@ == p@,
{
    let r = Profile {
        name: p.name.clone(),
        mode: p.mode,
        params: clone_params(&p.params),
        created_at: p.created_at,
    };
    r
}

impl ProfileStore {
    /// The held profiles, by content, in insertion order.
    pub closed spec fn profiles_view(&self) -> Seq<ProfileView> {
        views_of(self.profiles@)
    }

    /// The directory the profile files live under.
    pub closed spec fn dir_view(&self) -> Seq<char> {
        self.profiles_dir@
    }

    /// An empty store rooted at the given directory.
    pub fn from_path(path: String) -> (r: ProfileStore)
        ensures
            r.profiles_view() =~= Seq::<ProfileView>::empty(),
            r.dir_view() == path@,
    {
        ProfileStore { profiles_dir: path, profiles: Vec::new() }
    }

    /// The directory the profile files live under.
    pub fn dir(&self) -> (r: &str)
        ensures
            r@ == self.dir_view(),
    {
        self.profiles_dir.as_str()
    }

    /// Whether a profile of this name is held.
    pub fn has_profile(&self, name: &str) -> (r: bool)
        ensures
            r == spec_has_profile(self.profiles_view(), name@),
    {
        let n = self.profiles.len();
        let mut i: usize = 0;
        while i < n
            invariant
                i <= n,
                n == self.profiles_view().len(),
                forall|j: int| 0 <= j < i ==> (#[trigger] self.profiles_view()[j]).name != name@,
            decreases n - i,
        {
            if str_eq(self.profiles[i].name.as_str(), name) {
                proof {
                    assert(self.profiles_view()[i as int].name == name@);
                }
                return true;
            }
            i = i + 1;
        }
        false
    }

    /// Store a profile under its name, replacing any profile already
    /// held under it.
    pub fn save(&mut self, profile: &Profile) -> (r: Result<(), StoreError>)
        ensures
            r is Ok,
            spec_has_profile(old(self).profiles_view(), profile.name@) ==> final(self).profiles_view() =~= old(self).profiles_view().update(
                spec_profile_index(old(self).profiles_view(), profile.name@),
                profile@,
            ),
            !spec_has_profile(old(self).profiles_view(), profile.name@) ==> final(self).profiles_view() =~= old(self).profiles_view().push(profile@),
            final(self).dir_view() == old(self).dir_view(),
    {
        let n = self.profiles.len();
        let mut i: usize = 0;
        while i < n
            invariant
                i <= n,
                n == self.profiles_view().len(),
                self.profiles_view() == old(self).profiles_view(),
                self.dir_view() == old(self).dir_view(),
                self.profiles_dir == old(self).profiles_dir,
                forall|j: int|
                    0 <= j < i ==> (#[trigger] self.profiles_view()[j]).name != profile.name@,
            decreases n - i,
        {
            if str_eq(self.profiles[i].name.as_str(), profile.name.as_str()) {
                proof {
                    assert(self.profiles_view()[i as int].name == profile.name@);
                    lemma_profile_index_at(old(self).profiles_view(), profile.name@, i as int);
                }
                self.profiles[i] = clone_profile(profile);
                proof {
                    assert(self.profiles_view() =~= old(self).profiles_view().update(
                        i as int,
                        profile@,
                    ));
                }
                return Ok(());
            }
            i = i + 1;
        }
        self.profiles.push(clone_profile(profile));
        proof {
            assert(self.profiles_view() =~= old(self).profiles_view().push(profile@));
        }
        Ok(())
    }

    /// Fetch the profile of this name; fails exactly when none is held.
    pub fn load(&self, name: &str) -> (r: Result<Profile, StoreError>)
        ensures
            match r {
                Ok(p) => spec_has_profile(self.profiles_view(), name@) && p@ == self.profiles_view(
                )[spec_profile_index(self.profiles_view(), name@)],
                Err(e) => e == StoreError::Unavailable && !spec_has_profile(
                    self.profiles_view(),
                    name@,
                ),
            },
    {
        let n = self.profiles.len();
        let mut i: usize = 0;
        while i < n
            invariant
                i <= n,
                n == self.profiles_view().len(),
                forall|j: int| 0 <= j < i ==> (#[trigger] self.profiles_view()[j]).name != name@,
            decreases n - i,
        {
            if str_eq(self.profiles[i].name.as_str(), name) {
                proof {
                    assert(self.profiles_view()[i as int].name == name@);
                    lemma_profile_index_at(self.profiles_view(), name@, i as int);
                }
                return Ok(clone_profile(&self.profiles[i]));
            }
            i = i + 1;
        }
        proof {
            lemma_profile_index(self.profiles_view(), name@);
        }
        Err(StoreError::Unavailable)
    }

    /// Drop the profile of this name; fails exactly when none is held.
    pub fn delete(&mut self, name: &str) -> (r: Result<(), StoreError>)
        ensures
            final(self).dir_view() == old(self).dir_view(),
            match r {
                Ok(_) => spec_has_profile(old(self).profiles_view(), name@) && final(self).profiles_view() =~= old(self).profiles_view().remove(
                    spec_profile_index(old(self).profiles_view(), name@),
                ),
                Err(e) => e == StoreError::Unavailable && !spec_has_profile(
                    old(self).profiles_view(),
                    name@,
                ) && final(self).profiles_view() == old(self).profiles_view(),
            },
    {
        let n = self.profiles.len();
        let mut i: usize = 0;
        while i < n
            invariant
                i <= n,
                n == self.profiles_view().len(),
                self.profiles_view() == old(self).profiles_view(),
                self.dir_view() == old(self).dir_view(),
                self.profiles_dir == old(self).profiles_dir,
                forall|j: int| 0 <= j < i ==> (#[trigger] self.profiles_view()[j]).name != name@,
            decreases n - i,
        {
            if str_eq(self.profiles[i].name.as_str(), name) {
                proof {
                    assert(self.profiles_view()[i as int].name == name@);
                    lemma_profile_index_at(old(self).profiles_view(), name@, i as int);
                }
                self.profiles.remove(i);
                proof {
                    assert(self.profiles_view() =~= old(self).profiles_view().remove(i as int));
                }
                return Ok(());
            }
            i = i + 1;
        }
        proof {
            lemma_profile_index(self.profiles_view(), name@);
        }
        Err(StoreError::Unavailable)
    }

    /// All held profiles, most recently created first.
    pub fn list(&self) -> (r: Vec<Profile>)
        ensures
            views_of(r@).to_multiset() == self.profiles_view().to_multiset(),
            forall|i: int, j: int|
                0 <= i < j < r@.len() ==> (#[trigger] r@[i]).created_at >= (
                #[trigger] r@[j]).created_at,
    {
        let n = self.profiles.len();
        let mut out: Vec<Profile> = Vec::new();
        proof {
            assert(views_of(out@) =~= self.profiles_view().take(0));
        }
        let mut i: usize = 0;
        while i < n
            invariant
                i <= n,
                n == self.profiles_view().len(),
                views_of(out@).to_multiset() == self.profiles_view().take(i as int).to_multiset(),
                forall|a: int, b: int|
                    0 <= a < b < out@.len() ==> (#[trigger] out@[a]).created_at >= (
                    #[trigger] out@[b]).created_at,
            decreases n - i,
        {
            let p = clone_profile(&self.profiles[i]);
            let m = out.len();
            let mut pos: usize = 0;
            while pos < m
                invariant
                    pos <= m,
                    m == out@.len(),
                    forall|a: int| 0 <= a < pos ==> (#[trigger] out@[a]).created_at >= p.created_at,
                ensures
                    pos <= m,
                    forall|a: int| 0 <= a < pos ==> (#[trigger] out@[a]).created_at >= p.created_at,
                    pos < m ==> out@[pos as int].created_at < p.created_at,
                decreases m - pos,
            {
                if out[pos].created_at < p.created_at {
                    break;
                }
                pos = pos + 1;
            }
            let ghost prev = views_of(out@);
            out.insert(pos, p);
            proof {
                let ov = views_of(out@);
                ov.to_multiset_ensures();
                prev.to_multiset_ensures();
                self.profiles_view().take(i as int).to_multiset_ensures();
                assert(ov =~= prev.insert(pos as int, p@));
                assert(ov.remove(pos as int) =~= prev);
                assert(ov.remove(pos as int).to_multiset() =~= ov.to_multiset().remove(
                    ov[pos as int],
                ));
                assert(ov.to_multiset().contains(ov[pos as int])) by {
                    assert(ov[pos as int] == p@);
                    assert(ov.contains(p@));
                }
                assert(ov.to_multiset().remove(ov[pos as int]).insert(ov[pos as int])
                    =~= ov.to_multiset());
                assert(ov.to_multiset() =~= prev.to_multiset().insert(p@));
                assert(self.profiles_view().take(i + 1) =~= self.profiles_view().take(
                    i as int,
                ).push(self.profiles_view()[i as int]));
                assert(p@ == self.profiles_view()[i as int]);
                assert(self.profiles_view().take(i + 1).to_multiset() =~= self.profiles_view()
                    .take(i as int).to_multiset().insert(self.profiles_view()[i as int]));
            }
            i = i + 1;
        }
        proof {
            assert(self.profiles_view().take(n as int) =~= self.profiles_view());
        }
        out
    }
}

proof fn lemma_profile_index_at(s: Seq<ProfileView>, name: Seq<char>, k: int)
    requires
        0 <= k < s.len(),
        forall|i: int| 0 <= i < k ==> (#[trigger] s[i]).name != name,
        s[k].name == name,
    ensures
        spec_profile_index(s, name) == k,
{
    lemma_profile_index(s, name);
    let f = spec_profile_index(s, name);
    if f < k {
        assert(s[f].name == name);
    }
    if k < f {
        assert(s[k].name != name);
    }
}

} // verus!
