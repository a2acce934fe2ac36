//! One private-browsing session: a cookie jar whose entries expire a fixed
//! time after they were set, a visit history with a retention window, and a
//! bounded response cache.
//!
//! Expiry is checked when a cookie is read, so an expired cookie is never
//! seen, and expired cookies and old visits are also removed by `cleanup`,
//! which the background sweep calls. History reads filter by the retention
//! window as well, so what a reader sees does not depend on when the last
//! sweep ran.
use vstd::prelude::*;
use crate::cache::{
    put_entries, total_size, touch_entries, BoundedCache, CacheEntries, CacheError,
};
use crate::config::IncognitoConfig;
use crate::error::FetchCachedError;
use crate::id::SessionId;
use crate::keyed::{
    find, keys_unique, lemma_find_absent, lemma_find_bounds, lemma_find_index, lemma_upsert,
    lookup, upsert,
};

verus! {

/// Cookies by name: `(name, (value, time set))`.
pub type CookieJar = Seq<(Seq<char>, (Seq<char>, u64))>;

/// Visits in the order they were made: `(url, time visited)`.
pub type History = Seq<(Seq<char>, u64)>;

/// A cookie set at `set_at` is still visible at `now`.
pub open spec fn cookie_live(set_at: u64, now: u64, lifetime: u64) -> bool {
    now < set_at + lifetime
}

/// A visit made at `visited_at` is still inside the retention window at `now`.
pub open spec fn visit_recent(visited_at: u64, now: u64, retention: u64) -> bool {
    now < visited_at + retention
}

/// What a reader of cookie `name` sees at `now`.
pub open spec fn visible_cookie(jar: CookieJar, name: Seq<char>, now: u64, lifetime: u64) -> Option<
    Seq<char>,
> {
    match lookup(jar, name) {
        Some(entry) => if cookie_live(entry.1, now, lifetime) {
            Some(entry.0)
        } else {
            None
        },
        None => None,
    }
}

/// The cookies still visible at `now`, in their order.
pub open spec fn live_cookies(jar: CookieJar, now: u64, lifetime: u64) -> CookieJar
    decreases jar.len(),
{
    if jar.len() == 0 {
        jar
    } else {
        let rest = live_cookies(jar.drop_last(), now, lifetime);
        if cookie_live(jar.last().1.1, now, lifetime) {
            rest.push(jar.last())
        } else {
            rest
        }
    }
}

/// The visits still inside the retention window at `now`, in their order.
pub open spec fn recent_visits(history: History, now: u64, retention: u64) -> History
    decreases history.len(),
{
    if history.len() == 0 {
        history
    } else {
        let rest = recent_visits(history.drop_last(), now, retention);
        if visit_recent(history.last().1, now, retention) {
            rest.push(history.last())
        } else {
            rest
        }
    }
}

/// The urls of a run of visits.
pub open spec fn visit_urls(history: History) -> Seq<Seq<char>> {
    history.map_values(|v: (Seq<char>, u64)| v.0)
}

/// The abstract state of a session.
pub struct SessionModel {
    pub id: (u64, Seq<char>),
    pub start_time: u64,
    pub config: IncognitoConfig,
    pub cookies: CookieJar,
    pub history: History,
    pub cache: CacheEntries,
}

/// A session as created at `now`: nothing stored yet.
pub open spec fn fresh_session(id: (u64, Seq<char>), now: u64, config: IncognitoConfig) -> SessionModel {
    SessionModel {
        id,
        start_time: now,
        config,
        cookies: Seq::empty(),
        history: Seq::empty(),
        cache: Seq::empty(),
    }
}

/// The session after a sweep at `now`.
pub open spec fn swept(m: SessionModel, now: u64) -> SessionModel {
    SessionModel {
        cookies: live_cookies(m.cookies, now, m.config.cookie_lifetime),
        history: recent_visits(m.history, now, m.config.history_retention),
        ..m
    }
}

/// The session after `bytes` were fetched for `url` at `now`: the visit is
/// recorded and the bytes are put into the cache, which refuses them when
/// they exceed its capacity.
pub open spec fn after_fetch(m: SessionModel, url: Seq<char>, bytes: Seq<u8>, now: u64) -> SessionModel {
    SessionModel {
        history: m.history.push((url, now)),
        cache: put_entries(m.cache, m.config.cache_capacity as nat, url, bytes),
        ..m
    }
}

/// How a session and the caller's result follow from a fetch result: a
/// failed fetch changes nothing and is passed on; fetched bytes are recorded
/// and returned, as an error that carries them when they cannot be cached.
pub open spec fn fetch_outcome<E>(
    before: SessionModel,
    after: SessionModel,
    url: Seq<char>,
    now: u64,
    fetched: Result<Vec<u8>, E>,
    r: Result<Vec<u8>, FetchCachedError<E>>,
) -> bool {
    match fetched {
        Err(e) => after == before && r == Err::<Vec<u8>, FetchCachedError<E>>(
            FetchCachedError::Fetch(e),
        ),
        Ok(bytes) => {
            &&& after == after_fetch(before, url, bytes@, now)
            &&& if bytes@.len() <= before.config.cache_capacity {
                r is Ok && r->Ok_0@ == bytes@
            } else {
                r is Err && r->Err_0 is CapacityExceeded && r->Err_0->CapacityExceeded_0@ == bytes@
            }
        },
    }
}

struct Cookie {
    name: String,
    value: String,
    set_at: u64,
}

spec fn cookie_view(c: Cookie) -> (Seq<char>, (Seq<char>, u64)) {
    (c.name@, (c.value@, c.set_at))
}

struct Visit {
    url: String,
    visited_at: u64,
}

spec fn visit_view(v: Visit) -> (Seq<char>, u64) {
    (v.url@, v.visited_at)
}

pub struct IncognitoSession {
    id: SessionId,
    start_time: u64,
    config: IncognitoConfig,
    cookies: Vec<Cookie>,
    history: Vec<Visit>,
    cache: BoundedCache,
}

impl View for IncognitoSession {
    type V = SessionModel;

    closed spec fn view(&self) -> SessionModel {
        SessionModel {
            id: self.id@,
            start_time: self.start_time,
            config: self.config,
            cookies: self.cookies@.map_values(|c: Cookie| cookie_view(c)),
            history: self.history@.map_values(|v: Visit| visit_view(v)),
            cache: self.cache@,
        }
    }
}

/// Exec form of `cookie_live`.
fn is_cookie_live(set_at: u64, now: u64, lifetime: u64) -> (r: bool)
    ensures
        r == cookie_live(set_at, now, lifetime),
{
    now < set_at || now - set_at < lifetime
}

/// Exec form of `visit_recent`.
fn is_visit_recent(visited_at: u64, now: u64, retention: u64) -> (r: bool)
    ensures
        r == visit_recent(visited_at, now, retention),
{
    now < visited_at || now - visited_at < retention
}

/// The cookies kept by a sweep are cookies of the jar, still live, with
/// distinct names; every live cookie of the jar is kept.
pub proof fn lemma_live_cookies(jar: CookieJar, now: u64, lifetime: u64)
    requires
        keys_unique(jar),
    ensures
        keys_unique(live_cookies(jar, now, lifetime)),
        forall|i: int|
            0 <= i < live_cookies(jar, now, lifetime).len() ==> jar.contains(
                #[trigger] live_cookies(jar, now, lifetime)[i],
            ) && cookie_live(live_cookies(jar, now, lifetime)[i].1.1, now, lifetime),
        forall|i: int|
            0 <= i < jar.len() && cookie_live(jar[i].1.1, now, lifetime) ==> live_cookies(
                jar,
                now,
                lifetime,
            ).contains(#[trigger] jar[i]),
    decreases jar.len(),
{
    if jar.len() > 0 {
        let t = jar.drop_last();
        assert(keys_unique(t)) by {
            assert forall|a: int, b: int|
                0 <= a < t.len() && 0 <= b < t.len() && a != b implies t[a].0 != t[b].0 by {
                assert(t[a] == jar[a] && t[b] == jar[b]);
            }
        }
        lemma_live_cookies(t, now, lifetime);
        let rest = live_cookies(t, now, lifetime);
        let x = jar.last();
        assert forall|i: int| 0 <= i < rest.len() implies jar.contains(#[trigger] rest[i]) by {
            let j = choose|j: int| 0 <= j < t.len() && t[j] == rest[i];
            assert(jar[j] == t[j]);
        }
        if cookie_live(x.1.1, now, lifetime) {
            let r = rest.push(x);
            assert forall|i: int| 0 <= i < rest.len() implies rest[i].0 != x.0 by {
                let j = choose|j: int| 0 <= j < t.len() && t[j] == rest[i];
                assert(jar[j] == t[j]);
                assert(j != jar.len() - 1);
            }
            assert(keys_unique(r)) by {
                assert forall|a: int, b: int|
                    0 <= a < r.len() && 0 <= b < r.len() && a != b implies r[a].0 != r[b].0 by {
                    if a < rest.len() && b < rest.len() {
                        assert(r[a] == rest[a] && r[b] == rest[b]);
                    } else if a < rest.len() {
                        assert(r[a] == rest[a]);
                    } else {
                        assert(r[b] == rest[b]);
                    }
                }
            }
            assert forall|i: int| 0 <= i < r.len() implies jar.contains(#[trigger] r[i])
                && cookie_live(r[i].1.1, now, lifetime) by {
                if i < rest.len() {
                    assert(r[i] == rest[i]);
                } else {
                    assert(jar[jar.len() - 1] == x);
                }
            }
            assert forall|i: int|
                0 <= i < jar.len() && cookie_live(jar[i].1.1, now, lifetime) implies r.contains(
                #[trigger] jar[i],
            ) by {
                if i < jar.len() - 1 {
                    assert(jar[i] == t[i]);
                    let j = choose|j: int| 0 <= j < rest.len() && rest[j] == t[i];
                    assert(r[j] == rest[j]);
                } else {
                    assert(r[rest.len() as int] == x);
                }
            }
        } else {
            assert forall|i: int|
                0 <= i < jar.len() && cookie_live(jar[i].1.1, now, lifetime) implies rest.contains(
                #[trigger] jar[i],
            ) by {
                assert(i != jar.len() - 1);
                assert(jar[i] == t[i]);
            }
        }
    }
}

/// After a sweep at `sweep_time`, a cookie is either gone or unchanged.
pub proof fn lemma_live_cookies_lookup(jar: CookieJar, sweep_time: u64, lifetime: u64, name: Seq<char>)
    requires
        keys_unique(jar),
    ensures
        lookup(live_cookies(jar, sweep_time, lifetime), name) == match lookup(jar, name) {
            Some(entry) => if cookie_live(entry.1, sweep_time, lifetime) {
                Some(entry)
            } else {
                None
            },
            None => None,
        },
{
    lemma_live_cookies(jar, sweep_time, lifetime);
    let live = live_cookies(jar, sweep_time, lifetime);
    lemma_find_bounds(jar, name);
    lemma_find_bounds(live, name);
    match find(jar, name) {
        Some(i) => {
            if cookie_live(jar[i].1.1, sweep_time, lifetime) {
                assert(live.contains(jar[i]));
                let j = choose|j: int| 0 <= j < live.len() && live[j] == jar[i];
                lemma_find_index(live, j);
            } else {
                assert forall|j: int| 0 <= j < live.len() implies live[j].0 != name by {
                    assert(jar.contains(live[j]));
                    let k = choose|k: int| 0 <= k < jar.len() && jar[k] == live[j];
                    if live[j].0 == name {
                        lemma_find_index(jar, k);
                    }
                }
                lemma_find_absent(live, name);
            }
        },
        None => {
            assert forall|j: int| 0 <= j < live.len() implies live[j].0 != name by {
                assert(jar.contains(live[j]));
            }
            lemma_find_absent(live, name);
        },
    }
}

/// Cookie lifetime: once `lifetime` seconds have passed since a cookie was
/// set, a reader no longer sees it, whether or not a sweep ran in between.
pub proof fn lemma_cookie_expires(
    jar: CookieJar,
    name: Seq<char>,
    value: Seq<char>,
    set_at: u64,
    sweep_time: u64,
    now: u64,
    lifetime: u64,
)
    requires
        keys_unique(jar),
        now >= set_at + lifetime,
    ensures
        visible_cookie(upsert(jar, name, (value, set_at)), name, now, lifetime) is None,
        visible_cookie(
            live_cookies(upsert(jar, name, (value, set_at)), sweep_time, lifetime),
            name,
            now,
            lifetime,
        ) is None,
{
    lemma_upsert(jar, name, (value, set_at), name);
    let set = upsert(jar, name, (value, set_at));
    lemma_live_cookies_lookup(set, sweep_time, lifetime, name);
}

/// Sweeping twice at the same time removes nothing more than sweeping once.
pub proof fn lemma_live_cookies_idempotent(jar: CookieJar, now: u64, lifetime: u64)
    ensures
        live_cookies(live_cookies(jar, now, lifetime), now, lifetime) == live_cookies(
            jar,
            now,
            lifetime,
        ),
    decreases jar.len(),
{
    if jar.len() > 0 {
        let rest = live_cookies(jar.drop_last(), now, lifetime);
        lemma_live_cookies_idempotent(jar.drop_last(), now, lifetime);
        if cookie_live(jar.last().1.1, now, lifetime) {
            assert(rest.push(jar.last()).drop_last() =~= rest);
        }
    }
}

/// The visits kept at `now` are visits of the history inside the window;
/// every visit inside the window is kept.
pub proof fn lemma_recent_visits(history: History, now: u64, retention: u64)
    ensures
        forall|i: int|
            0 <= i < recent_visits(history, now, retention).len() ==> history.contains(
                #[trigger] recent_visits(history, now, retention)[i],
            ) && visit_recent(recent_visits(history, now, retention)[i].1, now, retention),
        forall|i: int|
            0 <= i < history.len() && visit_recent(history[i].1, now, retention)
                ==> recent_visits(history, now, retention).contains(#[trigger] history[i]),
    decreases history.len(),
{
    if history.len() > 0 {
        let t = history.drop_last();
        lemma_recent_visits(t, now, retention);
        let rest = recent_visits(t, now, retention);
        let x = history.last();
        assert forall|i: int| 0 <= i < rest.len() implies history.contains(#[trigger] rest[i]) by {
            let j = choose|j: int| 0 <= j < t.len() && t[j] == rest[i];
            assert(history[j] == t[j]);
        }
        if visit_recent(x.1, now, retention) {
            let r = rest.push(x);
            assert forall|i: int| 0 <= i < r.len() implies history.contains(#[trigger] r[i])
                && visit_recent(r[i].1, now, retention) by {
                if i < rest.len() {
                    assert(r[i] == rest[i]);
                } else {
                    assert(history[history.len() - 1] == x);
                }
            }
            assert forall|i: int|
                0 <= i < history.len() && visit_recent(history[i].1, now, retention)
                    implies r.contains(#[trigger] history[i]) by {
                if i < history.len() - 1 {
                    assert(history[i] == t[i]);
                    let j = choose|j: int| 0 <= j < rest.len() && rest[j] == t[i];
                    assert(r[j] == rest[j]);
                } else {
                    assert(r[rest.len() as int] == x);
                }
            }
        } else {
            assert forall|i: int|
                0 <= i < history.len() && visit_recent(history[i].1, now, retention)
                    implies rest.contains(#[trigger] history[i]) by {
                if i < history.len() - 1 {
                    assert(history[i] == t[i]);
                } else {
                    assert(history[i] == x);
                }
            }
        }
    }
}

/// History window: a visit older than the retention window is not among
/// the visits a reader sees, and every visit inside the window is.
pub proof fn lemma_history_window(history: History, now: u64, retention: u64, i: int)
    requires
        0 <= i < history.len(),
    ensures
        recent_visits(history, now, retention).contains(history[i]) <==> visit_recent(
            history[i].1,
            now,
            retention,
        ),
{
    lemma_recent_visits(history, now, retention);
    let r = recent_visits(history, now, retention);
    if r.contains(history[i]) {
        let j = choose|j: int| 0 <= j < r.len() && r[j] == history[i];
        assert(visit_recent(r[j].1, now, retention));
    }
}

/// Sweeping twice at the same time removes nothing more than sweeping once.
pub proof fn lemma_recent_visits_idempotent(history: History, now: u64, retention: u64)
    ensures
        recent_visits(recent_visits(history, now, retention), now, retention) == recent_visits(
            history,
            now,
            retention,
        ),
    decreases history.len(),
{
    if history.len() > 0 {
        let rest = recent_visits(history.drop_last(), now, retention);
        lemma_recent_visits_idempotent(history.drop_last(), now, retention);
        if visit_recent(history.last().1, now, retention) {
            assert(rest.push(history.last()).drop_last() =~= rest);
        }
    }
}

/// Idempotent sweep: a second sweep at the same time, with nothing done in
/// between, changes nothing.
pub proof fn lemma_sweep_idempotent(m: SessionModel, now: u64)
    ensures
        swept(swept(m, now), now) == swept(m, now),
{
    lemma_live_cookies_idempotent(m.cookies, now, m.config.cookie_lifetime);
    lemma_recent_visits_idempotent(m.history, now, m.config.history_retention);
}

impl IncognitoSession {
    pub closed spec fn wf(&self) -> bool {
        &&& self.cache.wf()
        &&& self.cache.capacity() == self.config.cache_capacity
        &&& keys_unique(self@.cookies)
    }

    /// No two cookies of a session share a name.
    pub proof fn lemma_cookie_names_distinct(&self)
        requires
            self.wf(),
        ensures
            keys_unique(self@.cookies),
    {
    }

    /// An empty session named `id`, started at `now`.
    pub fn new(id: SessionId, now: u64, config: IncognitoConfig) -> (r: IncognitoSession)
        ensures
            r.wf(),
            r@ == fresh_session(id@, now, config),
    {
        let r = IncognitoSession {
            id,
            start_time: now,
            config,
            cookies: Vec::new(),
            history: Vec::new(),
            cache: BoundedCache::new(config.cache_capacity),
        };
        assert(r@.cookies =~= Seq::<(Seq<char>, (Seq<char>, u64))>::empty());
        assert(r@.history =~= Seq::<(Seq<char>, u64)>::empty());
        r
    }

    pub fn id(&self) -> (r: &SessionId)
        ensures
            r@ == self@.id,
    {
        &self.id
    }

    pub fn start_time(&self) -> (r: u64)
        ensures
            r == self@.start_time,
    {
        self.start_time
    }

    /// The number of response bytes the session's cache holds.
    pub fn cached_bytes(&self) -> (r: usize)
        requires
            self.wf(),
        ensures
            r == total_size(self@.cache),
    {
        self.cache.size()
    }

    /// The position of cookie `name`, if set.
    fn cookie_position(&self, name: &String) -> (r: Option<usize>)
        requires
            self.wf(),
        ensures
            match r {
                Some(i) => find(self@.cookies, name@) == Some(i as int) && i < self@.cookies.len(),
                None => find(self@.cookies, name@) is None,
            },
    {
        let mut i: usize = 0;
        while i < self.cookies.len()
            invariant
                self.wf(),
                i <= self.cookies@.len(),
                forall|j: int| 0 <= j < i ==> #[trigger] self@.cookies[j].0 != name@,
            decreases self.cookies@.len() - i,
        {
            if self.cookies[i].name == *name {
                proof {
                    lemma_find_index(self@.cookies, i as int);
                }
                return Some(i);
            }
            i += 1;
        }
        proof {
            lemma_find_absent(self@.cookies, name@);
        }
        None
    }

    /// Sets cookie `name` to `value` at `now`. A cookie of that name is
    /// replaced, and its lifetime starts again.
    pub fn add_cookie(&mut self, name: String, value: String, now: u64)
        requires
            old(self).wf(),
        ensures
            final(self).wf(),
            final(self)@ == (SessionModel {
                cookies: upsert(old(self)@.cookies, name@, (value@, now)),
                ..old(self)@
            }),
    {
        let ghost jar = self@.cookies;
        proof {
            lemma_upsert(jar, name@, (value@, now), name@);
            lemma_find_bounds(jar, name@);
        }
        match self.cookie_position(&name) {
            Some(i) => {
                self.cookies[i] = Cookie { name, value, set_at: now };
            },
            None => {
                self.cookies.push(Cookie { name, value, set_at: now });
            },
        }
        proof {
            assert(self@.cookies =~= upsert(jar, name@, (value@, now)));
        }
    }

    /// The value of cookie `name` as seen at `now`: absent when it was never
    /// set, or when its lifetime has run out, whether or not a sweep has
    /// removed it yet.
    pub fn get_cookie(&self, name: &str, now: u64) -> (r: Option<String>)
        requires
            self.wf(),
        ensures
            match visible_cookie(self@.cookies, name@, now, self@.config.cookie_lifetime) {
                Some(v) => r is Some && r->0@ == v,
                None => r is None,
            },
    {
        let name = name.to_owned();
        match self.cookie_position(&name) {
            Some(i) => {
                let c = &self.cookies[i];
                if is_cookie_live(c.set_at, now, self.config.cookie_lifetime) {
                    Some(c.value.clone())
                } else {
                    None
                }
            },
            None => None,
        }
    }

    /// Records a visit to `url` at `now`.
    pub fn add_history(&mut self, url: String, now: u64)
        requires
            old(self).wf(),
        ensures
            final(self).wf(),
            final(self)@ == (SessionModel {
                history: old(self)@.history.push((url@, now)),
                ..old(self)@
            }),
    {
        let ghost h = self@.history;
        self.history.push(Visit { url, visited_at: now });
        proof {
            assert(self@.history =~= h.push((url@, now)));
            assert(self@.cookies =~= old(self)@.cookies);
        }
    }

    /// The urls visited inside the retention window that ends at `now`, in
    /// the order they were visited.
    pub fn get_history(&self, now: u64) -> (r: Vec<String>)
        requires
            self.wf(),
        ensures
            r@.map_values(|s: String| s@) == visit_urls(
                recent_visits(self@.history, now, self@.config.history_retention),
            ),
    {
        let ghost h = self@.history;
        let retention = self.config.history_retention;
        let mut urls: Vec<String> = Vec::new();
        let mut i: usize = 0;
        while i < self.history.len()
            invariant
                i <= self.history@.len(),
                h == self@.history,
                retention == self@.config.history_retention,
                urls@.map_values(|s: String| s@) == visit_urls(
                    recent_visits(h.take(i as int), now, retention),
                ),
            decreases self.history@.len() - i,
        {
            let v = &self.history[i];
            let ghost before = urls@.map_values(|s: String| s@);
            proof {
                assert(h.take(i as int + 1).drop_last() =~= h.take(i as int));
                assert(h.take(i as int + 1).last() == h[i as int]);
            }
            if is_visit_recent(v.visited_at, now, retention) {
                urls.push(v.url.clone());
                proof {
                    let rest = recent_visits(h.take(i as int), now, retention);
                    assert(urls@.map_values(|s: String| s@) =~= before.push(v.url@));
                    assert(visit_urls(rest.push(h[i as int])) =~= visit_urls(rest).push(v.url@));
                }
            }
            i += 1;
        }
        proof {
            assert(h.take(h.len() as int) =~= h);
        }
        urls
    }

    /// Stores `value` in the cache under `key`; see `BoundedCache::put`.
    pub fn add_to_cache(&mut self, key: String, value: Vec<u8>) -> (r: Result<(), CacheError>)
        requires
            old(self).wf(),
        ensures
            final(self).wf(),
            final(self)@ == (SessionModel {
                cache: put_entries(
                    old(self)@.cache,
                    old(self)@.config.cache_capacity as nat,
                    key@,
                    value@,
                ),
                ..old(self)@
            }),
            r is Err <==> value@.len() > old(self)@.config.cache_capacity,
            r is Err ==> r == Err::<(), CacheError>(CacheError::CapacityExceeded),
    {
        let r = self.cache.put(key, value);
        proof {
            assert(self@.cookies =~= old(self)@.cookies);
            assert(self@.history =~= old(self)@.history);
        }
        r
    }

    /// The cached bytes for `key`, if any, which become the most recently
    /// used entry; see `BoundedCache::get`.
    pub fn get_from_cache(&mut self, key: &str) -> (r: Option<Vec<u8>>)
        requires
            old(self).wf(),
        ensures
            final(self).wf(),
            final(self)@ == (SessionModel { cache: touch_entries(old(self)@.cache, key@), ..old(self)@ }),
            match lookup(old(self)@.cache, key@) {
                Some(v) => r is Some && r->0@ == v,
                None => r is None,
            },
    {
        let r = self.cache.get(key);
        proof {
            assert(self@.cookies =~= old(self)@.cookies);
            assert(self@.history =~= old(self)@.history);
        }
        r
    }

    /// Removes the cookies whose lifetime has run out at `now` and the
    /// visits older than the retention window. Leaves the cache alone.
    pub fn cleanup(&mut self, now: u64)
        requires
            old(self).wf(),
        ensures
            final(self).wf(),
            final(self)@ == swept(old(self)@, now),
    {
        let ghost jar = self@.cookies;
        let ghost h = self@.history;
        let lifetime = self.config.cookie_lifetime;
        let retention = self.config.history_retention;
        let mut cookies: Vec<Cookie> = Vec::new();
        let mut visits: Vec<Visit> = Vec::new();
        std::mem::swap(&mut cookies, &mut self.cookies);
        std::mem::swap(&mut visits, &mut self.history);
        assert(cookies@.map_values(|c: Cookie| cookie_view(c)) == jar);
        assert(visits@.map_values(|v: Visit| visit_view(v)) == h);
        let mut kept_cookies: Vec<Cookie> = Vec::new();
        let ghost n: nat = cookies.len() as nat;
        let mut i: usize = 0;
        while cookies.len() > 0
            invariant
                i + cookies@.len() == n,
                n == jar.len(),
                n <= usize::MAX,
                forall|j: int| 0 <= j < cookies@.len() ==> cookie_view(#[trigger] cookies@[j]) == jar[i + j],
                kept_cookies@.map_values(|c: Cookie| cookie_view(c)) == live_cookies(
                    jar.take(i as int),
                    now,
                    lifetime,
                ),
            decreases cookies@.len(),
        {
            let ghost before = kept_cookies@.map_values(|c: Cookie| cookie_view(c));
            let ghost rest = cookies@;
            let c = cookies.remove(0);
            proof {
                assert(cookie_view(rest[0]) == jar[i as int]);
                assert(forall|j: int| 0 <= j < cookies@.len() ==> cookies@[j] == rest[j + 1]);
                assert(jar.take(i as int + 1).drop_last() =~= jar.take(i as int));
                assert(jar.take(i as int + 1).last() == jar[i as int]);
            }
            if is_cookie_live(c.set_at, now, lifetime) {
                let ghost cv = cookie_view(c);
                kept_cookies.push(c);
                proof {
                    assert(kept_cookies@.map_values(|c: Cookie| cookie_view(c)) =~= before.push(cv));
                }
            }
            i += 1;
        }
        proof {
            assert(jar.take(jar.len() as int) =~= jar);
        }
        let mut kept_visits: Vec<Visit> = Vec::new();
        let ghost m: nat = visits.len() as nat;
        let mut k: usize = 0;
        while visits.len() > 0
            invariant
                k + visits@.len() == m,
                m == h.len(),
                m <= usize::MAX,
                forall|j: int| 0 <= j < visits@.len() ==> visit_view(#[trigger] visits@[j]) == h[k + j],
                kept_visits@.map_values(|v: Visit| visit_view(v)) == recent_visits(
                    h.take(k as int),
                    now,
                    retention,
                ),
            decreases visits@.len(),
        {
            let ghost before = kept_visits@.map_values(|v: Visit| visit_view(v));
            let ghost rest = visits@;
            let v = visits.remove(0);
            proof {
                assert(visit_view(rest[0]) == h[k as int]);
                assert(forall|j: int| 0 <= j < visits@.len() ==> visits@[j] == rest[j + 1]);
                assert(h.take(k as int + 1).drop_last() =~= h.take(k as int));
                assert(h.take(k as int + 1).last() == h[k as int]);
            }
            if is_visit_recent(v.visited_at, now, retention) {
                let ghost vv = visit_view(v);
                kept_visits.push(v);
                proof {
                    assert(kept_visits@.map_values(|v: Visit| visit_view(v)) =~= before.push(vv));
                }
            }
            k += 1;
        }
        proof {
            assert(h.take(h.len() as int) =~= h);
            lemma_live_cookies(jar, now, lifetime);
        }
        self.cookies = kept_cookies;
        self.history = kept_visits;
    }

    /// Records that `url` was fetched at `now` with result `fetched`, and
    /// says what the caller of a cached fetch gets back: a fetch error is
    /// passed on and changes nothing; fetched bytes are recorded as a visit,
    /// cached, and returned, as `CapacityExceeded` carrying the bytes when
    /// they are larger than the whole cache.
    pub fn store_fetched<E>(&mut self, url: &str, fetched: Result<Vec<u8>, E>, now: u64) -> (r: Result<
        Vec<u8>,
        FetchCachedError<E>,
    >)
        requires
            old(self).wf(),
        ensures
            final(self).wf(),
            fetch_outcome(old(self)@, final(self)@, url@, now, fetched, r),
    {
        match fetched {
            Err(e) => Err(FetchCachedError::Fetch(e)),
            Ok(bytes) => {
                let ghost b = bytes@;
                let copy = bytes.clone();
                assert(copy@ =~= b);
                self.add_history(url.to_owned(), now);
                match self.add_to_cache(url.to_owned(), copy) {
                    Ok(()) => Ok(bytes),
                    Err(_) => Err(FetchCachedError::CapacityExceeded(bytes)),
                }
            },
        }
    }

    /// The bytes for `url`: from the cache when present there, which makes
    /// them the most recently used entry; otherwise from `fetcher`, after
    /// which the result is handled as `store_fetched` says. The fetcher is
    /// called only on a cache miss.
    pub fn fetch_cached<E, F>(&mut self, url: &str, now: u64, fetcher: F) -> (r: Result<
        Vec<u8>,
        FetchCachedError<E>,
    >) where F: FnOnce(&str) -> Result<Vec<u8>, E>
        requires
            old(self).wf(),
            fetcher.requires((url,)),
        ensures
            final(self).wf(),
            match lookup(old(self)@.cache, url@) {
                Some(b) => {
                    &&& r is Ok && r->Ok_0@ == b
                    &&& final(self)@ == (SessionModel {
                        cache: touch_entries(old(self)@.cache, url@),
                        ..old(self)@
                    })
                },
                None => exists|fetched: Result<Vec<u8>, E>|
                    fetcher.ensures((url,), fetched) && fetch_outcome(
                        old(self)@,
                        final(self)@,
                        url@,
                        now,
                        fetched,
                        r,
                    ),
            },
    {
        match self.get_from_cache(url) {
            Some(b) => Ok(b),
            None => {
                proof {
                    assert(touch_entries(old(self)@.cache, url@) == old(self)@.cache);
                    assert(self@ == old(self)@);
                }
                let fetched = fetcher(url);
                self.store_fetched(url, fetched, now)
            },
        }
    }
}

} // verus!
