//! The set of live sessions. The manager creates and ends sessions, routes
//! every per-session operation to the session it names, and sweeps all
//! sessions when the background reaper wakes.
//!
//! Identifiers carry a serial number that grows with every session created,
//! so an identifier is never issued twice, and one whose session has ended
//! stays invalid.
use vstd::prelude::*;
use crate::cache::touch_entries;
use crate::config::IncognitoConfig;
use crate::error::{FetchCachedError, SessionNotFound};
use crate::id::{generate_session_id, is_token_char, token_of_draws, SessionId, SESSION_TOKEN_LEN};
use crate::keyed::{
    find, keys_unique, lemma_find_absent, lemma_find_bounds, lemma_find_index, lemma_push_fresh,
    lemma_remove_key, lemma_replace_value, lemma_unique_remove, lookup, remove_key, replace_value,
    upsert,
};
use crate::session::{
    fetch_outcome, fresh_session, recent_visits, swept, visible_cookie, visit_urls,
    IncognitoSession, SessionModel,
};

verus! {

/// Live sessions by identifier, oldest first.
pub type SessionTable = Seq<((u64, Seq<char>), SessionModel)>;

/// Every session of `t` after a sweep at `now`.
pub open spec fn sweep_table(t: SessionTable, now: u64) -> SessionTable {
    t.map_values(|e: ((u64, Seq<char>), SessionModel)| (e.0, swept(e.1, now)))
}

/// Session isolation: changing, adding or ending the session named `a`
/// leaves what every other identifier `b` names exactly as it was.
pub proof fn lemma_session_isolation(
    t: SessionTable,
    a: (u64, Seq<char>),
    b: (u64, Seq<char>),
    m: SessionModel,
)
    requires
        keys_unique(t),
        a != b,
    ensures
        lookup(replace_value(t, a, m), b) == lookup(t, b),
        lookup(remove_key(t, a), b) == lookup(t, b),
        lookup(t, a) is None ==> lookup(t.push((a, m)), b) == lookup(t, b),
{
    lemma_replace_value(t, a, m, b);
    lemma_remove_key(t, a, b);
    if lookup(t, a) is None {
        lemma_push_fresh(t, a, m, b);
    }
}

/// Idempotent teardown: ending a session a second time, or ending one that
/// does not exist, changes nothing.
pub proof fn lemma_teardown_idempotent(t: SessionTable, a: (u64, Seq<char>))
    requires
        keys_unique(t),
    ensures
        remove_key(remove_key(t, a), a) == remove_key(t, a),
        lookup(t, a) is None ==> remove_key(t, a) == t,
{
    lemma_remove_key(t, a, a);
}

/// The sweep keeps each session under its identifier and sweeps it alone.
pub proof fn lemma_sweep_table_lookup(t: SessionTable, now: u64, k: (u64, Seq<char>))
    requires
        keys_unique(t),
    ensures
        keys_unique(sweep_table(t, now)),
        lookup(sweep_table(t, now), k) == match lookup(t, k) {
            Some(m) => Some(swept(m, now)),
            None => None,
        },
{
    let s = sweep_table(t, now);
    assert forall|a: int, b: int| 0 <= a < s.len() && 0 <= b < s.len() && a != b implies s[a].0
        != s[b].0 by {
        assert(s[a].0 == t[a].0 && s[b].0 == t[b].0);
    }
    lemma_find_bounds(t, k);
    match find(t, k) {
        Some(i) => {
            lemma_find_index(s, i);
        },
        None => {
            assert forall|j: int| 0 <= j < s.len() implies s[j].0 != k by {
                assert(s[j].0 == t[j].0);
            }
            lemma_find_absent(s, k);
        },
    }
}

/// Every identifier other than `id` names in `after` what it named in `before`.
pub open spec fn others_unchanged(before: SessionTable, after: SessionTable, id: (u64, Seq<char>)) -> bool {
    forall|k: (u64, Seq<char>)| k != id ==> #[trigger] lookup(after, k) == lookup(before, k)
}

/// The table after the session named `a` took the states `ms`, one after
/// another.
pub open spec fn replace_each(t: SessionTable, a: (u64, Seq<char>), ms: Seq<SessionModel>) -> SessionTable
    decreases ms.len(),
{
    if ms.len() == 0 {
        t
    } else {
        replace_value(replace_each(t, a, ms.drop_last()), a, ms.last())
    }
}

proof fn lemma_replace_frame(t: SessionTable, a: (u64, Seq<char>), m: SessionModel)
    requires
        keys_unique(t),
    ensures
        keys_unique(replace_value(t, a, m)),
        others_unchanged(t, replace_value(t, a, m), a),
        lookup(t, a) is Some ==> lookup(replace_value(t, a, m), a) == Some(m),
{
    lemma_replace_value(t, a, m, a);
    assert forall|k: (u64, Seq<char>)| k != a implies #[trigger] lookup(replace_value(t, a, m), k)
        == lookup(t, k) by {
        lemma_replace_value(t, a, m, k);
    }
}

/// Session isolation over any run of operations: whatever states the
/// session named `a` goes through, every other identifier `b` names what
/// it named before.
pub proof fn lemma_isolation_any_sequence(
    t: SessionTable,
    a: (u64, Seq<char>),
    b: (u64, Seq<char>),
    ms: Seq<SessionModel>,
)
    requires
        keys_unique(t),
        a != b,
    ensures
        keys_unique(replace_each(t, a, ms)),
        lookup(replace_each(t, a, ms), b) == lookup(t, b),
    decreases ms.len(),
{
    if ms.len() > 0 {
        lemma_isolation_any_sequence(t, a, b, ms.drop_last());
        lemma_replace_value(replace_each(t, a, ms.drop_last()), a, ms.last(), b);
    }
}

pub struct IncognitoManager {
    config: IncognitoConfig,
    next_serial: u64,
    sessions: Vec<IncognitoSession>,
}

impl View for IncognitoManager {
    type V = SessionTable;

    closed spec fn view(&self) -> SessionTable {
        self.sessions@.map_values(|s: IncognitoSession| (s@.id, s@))
    }
}

impl IncognitoManager {
    /// The settings every session of this manager is created with.
    pub closed spec fn config(&self) -> IncognitoConfig {
        self.config
    }

    /// How many identifiers this manager has issued; the next one gets this
    /// serial number.
    pub closed spec fn issued(&self) -> u64 {
        self.next_serial
    }

    pub closed spec fn wf(&self) -> bool {
        &&& keys_unique(self@)
        &&& forall|i: int|
            0 <= i < self.sessions@.len() ==> {
                &&& (#[trigger] self.sessions@[i]).wf()
                &&& self.sessions@[i]@.config == self.config
                &&& self.sessions@[i]@.id.0 < self.next_serial
            }
    }

    /// The facts that hold of every well-formed manager: identifiers are
    /// distinct, each session is filed under its own identifier with a
    /// serial below `issued()`, and no session holds two cookies of one name.
    pub proof fn lemma_wf_facts(&self)
        requires
            self.wf(),
        ensures
            keys_unique(self@),
            forall|k: (u64, Seq<char>)| #[trigger] lookup(self@, k) is Some ==> {
                &&& keys_unique(lookup(self@, k)->0.cookies)
                &&& lookup(self@, k)->0.id == k
                &&& k.0 < self.issued()
                &&& lookup(self@, k)->0.config == self.config()
            },
    {
        assert forall|k: (u64, Seq<char>)| #[trigger] lookup(self@, k) is Some implies {
            &&& keys_unique(lookup(self@, k)->0.cookies)
            &&& lookup(self@, k)->0.id == k
            &&& k.0 < self.issued()
            &&& lookup(self@, k)->0.config == self.config()
        } by {
            lemma_find_bounds(self@, k);
            let i = find(self@, k)->0;
            self.sessions@[i].lemma_cookie_names_distinct();
        }
    }

    /// A manager with no sessions.
    pub fn new(config: IncognitoConfig) -> (r: IncognitoManager)
        ensures
            r.wf(),
            r@ == Seq::<((u64, Seq<char>), SessionModel)>::empty(),
            r.config() == config,
            r.issued() == 0,
    {
        let r = IncognitoManager { config, next_serial: 0, sessions: Vec::new() };
        assert(r@ =~= Seq::<((u64, Seq<char>), SessionModel)>::empty());
        r
    }

    /// How many identifiers this manager has issued.
    pub fn issued_count(&self) -> (r: u64)
        ensures
            r == self.issued(),
    {
        self.next_serial
    }

    /// The number of live sessions.
    pub fn session_count(&self) -> (r: usize)
        ensures
            r == self@.len(),
    {
        self.sessions.len()
    }

    /// Starts an empty session at `now` and returns its new identifier,
    /// which no earlier call has returned.
    pub fn create_session(&mut self, now: u64) -> (r: SessionId)
        requires
            old(self).wf(),
            old(self).issued() < u64::MAX,
        ensures
            final(self).wf(),
            final(self).config() == old(self).config(),
            r@.0 == old(self).issued(),
            final(self).issued() == old(self).issued() + 1,
            lookup(old(self)@, r@) is None,
            final(self)@ == old(self)@.push((r@, fresh_session(r@, now, old(self).config()))),
            lookup(final(self)@, r@) == Some(fresh_session(r@, now, old(self).config())),
            others_unchanged(old(self)@, final(self)@, r@),
            exists|draws: Seq<usize>|
                {
                    &&& draws.len() == SESSION_TOKEN_LEN
                    &&& forall|i: int| 0 <= i < draws.len() ==> #[trigger] draws[i] < 62
                    &&& r@.1 == token_of_draws(draws)
                },
            r@.1.len() == SESSION_TOKEN_LEN,
            forall|i: int| 0 <= i < r@.1.len() ==> is_token_char(#[trigger] r@.1[i]),
    {
        let token = generate_session_id();
        let serial = self.next_serial;
        let id = SessionId::new(serial, token.clone());
        let stored = SessionId::new(serial, token);
        let ghost t0 = self@;
        proof {
            assert forall|j: int| 0 <= j < t0.len() implies t0[j].0 != id@ by {
                assert(self.sessions@[j]@.id.0 < serial);
            }
            lemma_find_absent(t0, id@);
            lemma_push_fresh(t0, id@, fresh_session(id@, now, self.config), id@);
            assert forall|k: (u64, Seq<char>)| k != id@ implies #[trigger] lookup(
                t0.push((id@, fresh_session(id@, now, self.config))),
                k,
            ) == lookup(t0, k) by {
                lemma_push_fresh(t0, id@, fresh_session(id@, now, self.config), k);
            }
        }
        let session = IncognitoSession::new(stored, now, self.config);
        self.sessions.push(session);
        self.next_serial = serial + 1;
        proof {
            assert(self@ =~= t0.push((id@, fresh_session(id@, now, self.config))));
        }
        id
    }

    /// The position of the session named `id`, if it is live.
    fn session_index(&self, id: &SessionId) -> (r: Option<usize>)
        requires
            self.wf(),
        ensures
            match r {
                Some(i) => find(self@, id@) == Some(i as int) && i < self@.len(),
                None => find(self@, id@) is None,
            },
    {
        let mut i: usize = 0;
        while i < self.sessions.len()
            invariant
                self.wf(),
                i <= self.sessions@.len(),
                forall|j: int| 0 <= j < i ==> #[trigger] self@[j].0 != id@,
            decreases self.sessions@.len() - i,
        {
            if self.sessions[i].id() == id {
                proof {
                    lemma_find_index(self@, i as int);
                }
                return Some(i);
            }
            i += 1;
        }
        proof {
            lemma_find_absent(self@, id@);
        }
        None
    }

    /// The session named `id`, if it is live.
    pub fn get_session(&self, id: &SessionId) -> (r: Option<&IncognitoSession>)
        requires
            self.wf(),
        ensures
            match lookup(self@, id@) {
                Some(m) => r is Some && r->0@ == m && r->0.wf(),
                None => r is None,
            },
    {
        match self.session_index(id) {
            Some(i) => Some(&self.sessions[i]),
            None => None,
        }
    }

    /// Ends the session named `id` and drops everything it held. Ending a
    /// session that is not live does nothing.
    pub fn remove_session(&mut self, id: &SessionId)
        requires
            old(self).wf(),
        ensures
            final(self).wf(),
            final(self).config() == old(self).config(),
            final(self).issued() == old(self).issued(),
            final(self)@ == remove_key(old(self)@, id@),
            lookup(final(self)@, id@) is None,
            others_unchanged(old(self)@, final(self)@, id@),
    {
        let ghost t0 = self@;
        proof {
            lemma_find_bounds(t0, id@);
            lemma_remove_key(t0, id@, id@);
            assert forall|k: (u64, Seq<char>)| k != id@ implies #[trigger] lookup(
                remove_key(t0, id@),
                k,
            ) == lookup(t0, k) by {
                lemma_remove_key(t0, id@, k);
            }
        }
        match self.session_index(id) {
            Some(i) => {
                let ghost s0 = self.sessions@;
                self.sessions.remove(i);
                proof {
                    assert(self@ =~= t0.remove(i as int));
                    lemma_unique_remove(t0, i as int);
                    assert forall|j: int| 0 <= j < self.sessions@.len() implies {
                        &&& (#[trigger] self.sessions@[j]).wf()
                        &&& self.sessions@[j]@.config == self.config
                        &&& self.sessions@[j]@.id.0 < self.next_serial
                    } by {
                        let j0 = if j < i { j } else { j + 1 };
                        assert(self.sessions@[j] == s0[j0]);
                    }
                }
            },
            None => {},
        }
    }

    /// Sweeps every live session at `now`, as the background reaper does on
    /// each wake: expired cookies and visits outside the retention window
    /// are removed. The set of sessions does not change.
    pub fn cleanup_sessions(&mut self, now: u64)
        requires
            old(self).wf(),
        ensures
            final(self).wf(),
            final(self).config() == old(self).config(),
            final(self).issued() == old(self).issued(),
            final(self)@ == sweep_table(old(self)@, now),
            forall|k: (u64, Seq<char>)| #[trigger] lookup(final(self)@, k) == match lookup(
                old(self)@,
                k,
            ) {
                Some(m) => Some(swept(m, now)),
                None => None,
            },
    {
        let ghost t0 = self@;
        let mut i: usize = 0;
        while i < self.sessions.len()
            invariant
                i <= self.sessions@.len(),
                self.sessions@.len() == t0.len(),
                self.config == old(self).config,
                self.next_serial == old(self).next_serial,
                keys_unique(t0),
                forall|j: int|
                    0 <= j < self.sessions@.len() ==> {
                        &&& (#[trigger] self.sessions@[j]).wf()
                        &&& self.sessions@[j]@.config == self.config
                        &&& self.sessions@[j]@.id.0 < self.next_serial
                    },
                forall|j: int| 0 <= j < i ==> #[trigger] self@[j] == (t0[j].0, swept(t0[j].1, now)),
                forall|j: int| i <= j < self@.len() ==> #[trigger] self@[j] == t0[j],
            decreases self.sessions@.len() - i,
        {
            let ghost before = self.sessions@;
            let ghost view_before = self@;
            self.sessions[i].cleanup(now);
            proof {
                assert forall|j: int| 0 <= j < self@.len() && j != i implies #[trigger] self@[j]
                    == view_before[j] by {
                    assert(self.sessions@[j] == before[j]);
                }
                assert(view_before[i as int] == t0[i as int]);
                assert(view_before[i as int].1 == before[i as int]@);
                assert(self.sessions@[i as int]@ == swept(before[i as int]@, now));
                assert(self@[i as int] == (t0[i as int].0, swept(t0[i as int].1, now)));
            }
            i += 1;
        }
        proof {
            assert(self@ =~= sweep_table(t0, now));
            lemma_sweep_table_lookup(t0, now, (0u64, Seq::empty()));
            assert forall|k: (u64, Seq<char>)| #[trigger] lookup(self@, k) == match lookup(t0, k) {
                Some(m) => Some(swept(m, now)),
                None => None,
            } by {
                lemma_sweep_table_lookup(t0, now, k);
            }
        }
    }

    /// Sets cookie `name` to `value` at `now` in the session named `id`.
    pub fn set_cookie(&mut self, id: &SessionId, name: &str, value: &str, now: u64) -> (r: Result<
        (),
        SessionNotFound,
    >)
        requires
            old(self).wf(),
        ensures
            final(self).wf(),
            final(self).config() == old(self).config(),
            final(self).issued() == old(self).issued(),
            others_unchanged(old(self)@, final(self)@, id@),
            match lookup(old(self)@, id@) {
                Some(m) => {
                    let after = SessionModel { cookies: upsert(m.cookies, name@, (value@, now)), ..m };
                    &&& r is Ok
                    &&& final(self)@ == replace_value(old(self)@, id@, after)
                    &&& lookup(final(self)@, id@) == Some(after)
                },
                None => r == Err::<(), SessionNotFound>(SessionNotFound) && final(self)@ == old(
                    self,
                )@,
            },
    {
        let ghost t0 = self@;
        proof {
            lemma_find_bounds(t0, id@);
        }
        match self.session_index(id) {
            Some(i) => {
                let ghost before = self.sessions@;
                self.sessions[i].add_cookie(name.to_owned(), value.to_owned(), now);
                proof {
                    self.lemma_updated_at(before, i as int);
                    lemma_replace_frame(t0, id@, self.sessions@[i as int]@);
                }
                Ok(())
            },
            None => Err(SessionNotFound),
        }
    }

    /// After the session at `i` was changed in place, keeping its identifier,
    /// settings and well-formedness, the table is the old one with the value
    /// under that identifier replaced.
    proof fn lemma_updated_at(&self, before: Seq<IncognitoSession>, i: int)
        requires
            0 <= i < before.len(),
            self.sessions@.len() == before.len(),
            forall|j: int| 0 <= j < before.len() && j != i ==> self.sessions@[j] == before[j],
            self.sessions@[i].wf(),
            self.sessions@[i]@.id == before[i]@.id,
            self.sessions@[i]@.config == before[i]@.config,
            forall|j: int|
                0 <= j < before.len() ==> {
                    &&& (#[trigger] before[j]).wf()
                    &&& before[j]@.config == self.config
                    &&& before[j]@.id.0 < self.next_serial
                },
            keys_unique(before.map_values(|s: IncognitoSession| (s@.id, s@))),
        ensures
            self.wf(),
            self@ == replace_value(
                before.map_values(|s: IncognitoSession| (s@.id, s@)),
                before[i]@.id,
                self.sessions@[i]@,
            ),
    {
        let t0 = before.map_values(|s: IncognitoSession| (s@.id, s@));
        lemma_find_index(t0, i);
        assert(self@ =~= t0.update(i, (before[i]@.id, self.sessions@[i]@)));
        lemma_replace_value(t0, before[i]@.id, self.sessions@[i]@, before[i]@.id);
        assert forall|j: int| 0 <= j < self.sessions@.len() implies {
            &&& (#[trigger] self.sessions@[j]).wf()
            &&& self.sessions@[j]@.config == self.config
            &&& self.sessions@[j]@.id.0 < self.next_serial
        } by {
            if j != i {
                assert(self.sessions@[j] == before[j]);
            }
        }
    }

    /// The value of cookie `name` at `now` in the session named `id`.
    pub fn get_cookie(&self, id: &SessionId, name: &str, now: u64) -> (r: Result<
        Option<String>,
        SessionNotFound,
    >)
        requires
            self.wf(),
        ensures
            match lookup(self@, id@) {
                Some(m) => r is Ok && match visible_cookie(
                    m.cookies,
                    name@,
                    now,
                    m.config.cookie_lifetime,
                ) {
                    Some(v) => r->Ok_0 is Some && r->Ok_0->0@ == v,
                    None => r->Ok_0 is None,
                },
                None => r == Err::<Option<String>, SessionNotFound>(SessionNotFound),
            },
    {
        match self.get_session(id) {
            Some(s) => Ok(s.get_cookie(name, now)),
            None => Err(SessionNotFound),
        }
    }

    /// The urls visited in the session named `id` inside the retention
    /// window that ends at `now`, oldest first.
    pub fn get_history(&self, id: &SessionId, now: u64) -> (r: Result<Vec<String>, SessionNotFound>)
        requires
            self.wf(),
        ensures
            match lookup(self@, id@) {
                Some(m) => r is Ok && r->Ok_0@.map_values(|s: String| s@) == visit_urls(
                    recent_visits(m.history, now, m.config.history_retention),
                ),
                None => r == Err::<Vec<String>, SessionNotFound>(SessionNotFound),
            },
    {
        match self.get_session(id) {
            Some(s) => Ok(s.get_history(now)),
            None => Err(SessionNotFound),
        }
    }

    /// The cached bytes for `url` in the session named `id`, if cached,
    /// which become its most recently used entry.
    pub fn get_cached(&mut self, id: &SessionId, url: &str) -> (r: Result<
        Option<Vec<u8>>,
        SessionNotFound,
    >)
        requires
            old(self).wf(),
        ensures
            final(self).wf(),
            final(self).config() == old(self).config(),
            final(self).issued() == old(self).issued(),
            others_unchanged(old(self)@, final(self)@, id@),
            match lookup(old(self)@, id@) {
                Some(m) => {
                    &&& r is Ok
                    &&& final(self)@ == replace_value(
                        old(self)@,
                        id@,
                        SessionModel { cache: touch_entries(m.cache, url@), ..m },
                    )
                    &&& lookup(final(self)@, id@) == Some(
                        SessionModel { cache: touch_entries(m.cache, url@), ..m },
                    )
                    &&& match lookup(m.cache, url@) {
                        Some(b) => r->Ok_0 is Some && r->Ok_0->0@ == b,
                        None => r->Ok_0 is None,
                    }
                },
                None => r == Err::<Option<Vec<u8>>, SessionNotFound>(SessionNotFound)
                    && final(self)@ == old(self)@,
            },
    {
        let ghost t0 = self@;
        proof {
            lemma_find_bounds(t0, id@);
        }
        match self.session_index(id) {
            Some(i) => {
                let ghost before = self.sessions@;
                let r = self.sessions[i].get_from_cache(url);
                proof {
                    self.lemma_updated_at(before, i as int);
                    lemma_replace_frame(t0, id@, self.sessions@[i as int]@);
                }
                Ok(r)
            },
            None => Err(SessionNotFound),
        }
    }

    /// Records in the session named `id` that `url` was fetched at `now`
    /// with result `fetched`; see `IncognitoSession::store_fetched`.
    pub fn store_fetched<E>(
        &mut self,
        id: &SessionId,
        url: &str,
        fetched: Result<Vec<u8>, E>,
        now: u64,
    ) -> (r: Result<Vec<u8>, FetchCachedError<E>>)
        requires
            old(self).wf(),
        ensures
            final(self).wf(),
            final(self).config() == old(self).config(),
            final(self).issued() == old(self).issued(),
            others_unchanged(old(self)@, final(self)@, id@),
            match lookup(old(self)@, id@) {
                Some(m) => exists|after: SessionModel|
                    fetch_outcome(m, after, url@, now, fetched, r) && final(self)@ == replace_value(
                        old(self)@,
                        id@,
                        after,
                    ) && lookup(final(self)@, id@) == Some(after),
                None => r is Err && r->Err_0 is SessionNotFound && final(self)@ == old(self)@,
            },
    {
        let ghost t0 = self@;
        proof {
            lemma_find_bounds(t0, id@);
        }
        match self.session_index(id) {
            Some(i) => {
                let ghost before = self.sessions@;
                let r = self.sessions[i].store_fetched(url, fetched, now);
                proof {
                    self.lemma_updated_at(before, i as int);
                    lemma_replace_frame(t0, id@, self.sessions@[i as int]@);
                    let after = self.sessions@[i as int]@;
                    assert(fetch_outcome(before[i as int]@, after, url@, now, fetched, r));
                }
                r
            },
            None => Err(FetchCachedError::SessionNotFound),
        }
    }

    /// The bytes for `url` in the session named `id`: from its cache when
    /// present, otherwise from `fetcher`, whose result is recorded as
    /// `store_fetched` says. The fetcher is called only on a cache miss in
    /// a live session.
    pub fn fetch_cached<E, F>(&mut self, id: &SessionId, url: &str, now: u64, fetcher: F) -> (r: Result<
        Vec<u8>,
        FetchCachedError<E>,
    >) where F: FnOnce(&str) -> Result<Vec<u8>, E>
        requires
            old(self).wf(),
            fetcher.requires((url,)),
        ensures
            final(self).wf(),
            final(self).config() == old(self).config(),
            final(self).issued() == old(self).issued(),
            others_unchanged(old(self)@, final(self)@, id@),
            match lookup(old(self)@, id@) {
                Some(m) => match lookup(m.cache, url@) {
                    Some(b) => {
                        &&& r is Ok && r->Ok_0@ == b
                        &&& final(self)@ == replace_value(
                            old(self)@,
                            id@,
                            SessionModel { cache: touch_entries(m.cache, url@), ..m },
                        )
                        &&& lookup(final(self)@, id@) == Some(
                            SessionModel { cache: touch_entries(m.cache, url@), ..m },
                        )
                    },
                    None => exists|fetched: Result<Vec<u8>, E>, after: SessionModel|
                        fetcher.ensures((url,), fetched) && fetch_outcome(
                            m,
                            after,
                            url@,
                            now,
                            fetched,
                            r,
                        ) && final(self)@ == replace_value(old(self)@, id@, after) && lookup(
                            final(self)@,
                            id@,
                        ) == Some(after),
                },
                None => r is Err && r->Err_0 is SessionNotFound && final(self)@ == old(self)@,
            },
    {
        let ghost t0 = self@;
        proof {
            lemma_find_bounds(t0, id@);
        }
        match self.session_index(id) {
            Some(i) => {
                let ghost before = self.sessions@;
                let r = self.sessions[i].fetch_cached(url, now, fetcher);
                proof {
                    self.lemma_updated_at(before, i as int);
                    lemma_replace_frame(t0, id@, self.sessions@[i as int]@);
                }
                r
            },
            None => Err(FetchCachedError::SessionNotFound),
        }
    }
}

} // verus!
