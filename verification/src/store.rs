//! The cache store: a mapping from string keys to documents, each with an
//! expiration policy. Reads are against an injected clock (integer
//! milliseconds since the epoch); expiration is enforced lazily at read
//! time. The store tracks a dirty flag so its owner knows when the backing
//! file must be rewritten (write-through persistence).
use crate::json::str_eq;
use crate::json::wf_json;
use crate::json::Json;
use crate::json::JsonValue;
use vstd::prelude::*;

verus! {

/// The instant at which an entry written at `now` with time-to-live `ttl`
/// expires. Saturates at the largest representable instant instead of
/// wrapping around.
pub open spec fn deadline(now: u64, ttl: u64) -> u64 {
    if now + ttl <= u64::MAX {
        (now + ttl) as u64
    } else {
        u64::MAX
    }
}

/// Computes `deadline(now, ttl)` without overflow.
pub fn compute_deadline(now: u64, ttl: u64) -> (r: u64)
    ensures
        r == deadline(now, ttl),
{
    if ttl <= u64::MAX - now {
        now + ttl
    } else {
        u64::MAX
    }
}

/// Model of one cache entry.
#[verifier::ext_equal]
pub struct EntryModel {
    pub value: Json,
    pub expires_at: u64,
    pub sliding: bool,
    pub sliding_ttl: u64,
}

/// One cached document with its expiration policy. `expires_at` is an
/// absolute instant in epoch milliseconds; `sliding_ttl` is the window a
/// successful read extends the entry by, and is `0` when `sliding` is
/// false.
pub struct CacheEntry {
    pub value: JsonValue,
    pub expires_at: u64,
    pub sliding: bool,
    pub sliding_ttl: u64,
}

impl View for CacheEntry {
    type V = EntryModel;

    open spec fn view(&self) -> EntryModel {
        EntryModel {
            value: self.value@,
            expires_at: self.expires_at,
            sliding: self.sliding,
            sliding_ttl: self.sliding_ttl,
        }
    }
}

/// No key occurs twice.
pub open spec fn unique_keys(s: Seq<(Seq<char>, EntryModel)>) -> bool {
    forall|i: int, j: int| 0 <= i < j < s.len() ==> (#[trigger] s[i]).0 != (#[trigger] s[j]).0
}

/// The mapping described by an association sequence; a later pair with the
/// same key would win, but the store keeps keys unique.
pub open spec fn map_of(s: Seq<(Seq<char>, EntryModel)>) -> Map<Seq<char>, EntryModel>
    decreases s.len(),
{
    if s.len() == 0 {
        Map::empty()
    } else {
        map_of(s.drop_last()).insert(s.last().0, s.last().1)
    }
}

/// An entry is live when the clock has not yet reached its deadline.
pub open spec fn live(m: Map<Seq<char>, EntryModel>, key: Seq<char>, now: u64) -> bool {
    m.contains_key(key) && now < m[key].expires_at
}

/// What one read does to the mapping: an expired entry is purged, a live
/// sliding entry has its deadline reset to `now` plus its window, and a
/// live non-sliding entry is left untouched.
pub open spec fn spec_get_post(
    m: Map<Seq<char>, EntryModel>,
    key: Seq<char>,
    now: u64,
) -> Map<Seq<char>, EntryModel> {
    if !m.contains_key(key) {
        m
    } else if now >= m[key].expires_at {
        m.remove(key)
    } else if m[key].sliding {
        m.insert(
            key,
            EntryModel {
                value: m[key].value,
                expires_at: deadline(now, m[key].sliding_ttl),
                sliding: m[key].sliding,
                sliding_ttl: m[key].sliding_ttl,
            },
        )
    } else {
        m
    }
}

/// Whether one read mutates the store (and so must be flushed to disk).
pub open spec fn spec_get_writes(m: Map<Seq<char>, EntryModel>, key: Seq<char>, now: u64) -> bool {
    m.contains_key(key) && (now >= m[key].expires_at || m[key].sliding)
}

/// The entry written by `set`.
pub open spec fn spec_new_entry(value: Json, ttl_ms: u64, sliding: bool, now: u64) -> EntryModel {
    EntryModel {
        value: value,
        expires_at: deadline(now, ttl_ms),
        sliding: sliding,
        sliding_ttl: if sliding {
            ttl_ms
        } else {
            0
        },
    }
}

proof fn lemma_map_of_contains(s: Seq<(Seq<char>, EntryModel)>, key: Seq<char>)
    ensures
        map_of(s).contains_key(key) <==> exists|i: int| 0 <= i < s.len() && (#[trigger] s[i]).0 == key,
    decreases s.len(),
{
    if s.len() > 0 {
        lemma_map_of_contains(s.drop_last(), key);
        if s.last().0 == key {
            assert(s[s.len() - 1].0 == key);
        } else if map_of(s).contains_key(key) {
            let i = choose|i: int| 0 <= i < s.drop_last().len() && (#[trigger] s.drop_last()[i]).0 == key;
            assert(s[i].0 == key);
        } else {
            assert forall|i: int| 0 <= i < s.len() implies (#[trigger] s[i]).0 != key by {
                if i < s.len() - 1 {
                    assert(s.drop_last()[i] == s[i]);
                }
            }
        }
    }
}

proof fn lemma_map_of_index(s: Seq<(Seq<char>, EntryModel)>, i: int)
    requires
        unique_keys(s),
        0 <= i < s.len(),
    ensures
        map_of(s).contains_key(s[i].0),
        map_of(s)[s[i].0] == s[i].1,
    decreases s.len(),
{
    if i == s.len() - 1 {
        assert(s.last() == s[i]);
    } else {
        assert(unique_keys(s.drop_last())) by {
            assert forall|a: int, b: int|
                0 <= a < b < s.drop_last().len() implies (#[trigger] s.drop_last()[a]).0 != (
            #[trigger] s.drop_last()[b]).0 by {
                assert(s.drop_last()[a] == s[a]);
                assert(s.drop_last()[b] == s[b]);
            }
        }
        assert(s.drop_last()[i] == s[i]);
        lemma_map_of_index(s.drop_last(), i);
        assert(s[i].0 != s.last().0) by {
            assert(s.last() == s[s.len() - 1]);
        }
    }
}

proof fn lemma_unique_drop_last(s: Seq<(Seq<char>, EntryModel)>)
    requires
        unique_keys(s),
        s.len() > 0,
    ensures
        unique_keys(s.drop_last()),
{
    assert forall|a: int, b: int|
        0 <= a < b < s.drop_last().len() implies (#[trigger] s.drop_last()[a]).0 != (
    #[trigger] s.drop_last()[b]).0 by {
        assert(s.drop_last()[a] == s[a]);
        assert(s.drop_last()[b] == s[b]);
    }
}

proof fn lemma_map_of_update(s: Seq<(Seq<char>, EntryModel)>, i: int, e: EntryModel)
    requires
        unique_keys(s),
        0 <= i < s.len(),
    ensures
        map_of(s.update(i, (s[i].0, e))) == map_of(s).insert(s[i].0, e),
    decreases s.len(),
{
    let s2 = s.update(i, (s[i].0, e));
    lemma_unique_drop_last(s);
    if i == s.len() - 1 {
        assert(s2.drop_last() =~= s.drop_last());
        assert(s2.last() == (s[i].0, e));
        assert(map_of(s2) =~= map_of(s).insert(s[i].0, e));
    } else {
        assert(s2.drop_last() =~= s.drop_last().update(i, (s[i].0, e)));
        assert(s.drop_last()[i] == s[i]);
        lemma_map_of_update(s.drop_last(), i, e);
        assert(s2.last() == s.last());
        assert(s[i].0 != s.last().0) by {
            assert(s.last() == s[s.len() - 1]);
        }
        assert(map_of(s2) =~= map_of(s).insert(s[i].0, e));
    }
}

proof fn lemma_map_of_remove(s: Seq<(Seq<char>, EntryModel)>, i: int)
    requires
        unique_keys(s),
        0 <= i < s.len(),
    ensures
        map_of(s.remove(i)) == map_of(s).remove(s[i].0),
    decreases s.len(),
{
    let s2 = s.remove(i);
    lemma_unique_drop_last(s);
    if i == s.len() - 1 {
        assert(s2 =~= s.drop_last());
        lemma_map_of_contains(s.drop_last(), s[i].0);
        assert forall|j: int| 0 <= j < s.drop_last().len() implies (#[trigger] s.drop_last()[j]).0
            != s[i].0 by {
            assert(s.drop_last()[j] == s[j]);
        }
        assert(!map_of(s.drop_last()).contains_key(s[i].0));
        assert(s.last() == s[i]);
        assert(map_of(s.drop_last()) =~= map_of(s).remove(s[i].0));
    } else {
        assert(s2.drop_last() =~= s.drop_last().remove(i));
        assert(s.drop_last()[i] == s[i]);
        lemma_map_of_remove(s.drop_last(), i);
        assert(s2.last() == s.last()) by {
            assert(s2[s2.len() - 1] == s[s.len() - 1]);
            assert(s.last() == s[s.len() - 1]);
        }
        assert(s[i].0 != s.last().0) by {
            assert(s.last() == s[s.len() - 1]);
        }
        assert(map_of(s2) =~= map_of(s).remove(s[i].0));
    }
}

proof fn lemma_map_of_push(s: Seq<(Seq<char>, EntryModel)>, key: Seq<char>, e: EntryModel)
    ensures
        map_of(s.push((key, e))) == map_of(s).insert(key, e),
{
    assert(s.push((key, e)).drop_last() =~= s);
    assert(s.push((key, e)).last() == (key, e));
}

/// The in-memory cache store. The backing file itself is written by the
/// owner of the store: after any operation that leaves the store dirty,
/// the owner renders the store with `to_text` and rewrites the file.
pub struct DiskCache {
    entries: Vec<(String, CacheEntry)>,
    dirty: bool,
}

impl View for DiskCache {
    type V = Map<Seq<char>, EntryModel>;

    closed spec fn view(&self) -> Map<Seq<char>, EntryModel> {
        map_of(self.entries_view())
    }
}

impl DiskCache {
    /// The store's contents as an association sequence, in storage order.
    pub closed spec fn entries_view(&self) -> Seq<(Seq<char>, EntryModel)> {
        Seq::new(self.entries@.len(), |i: int| (self.entries@[i].0@, self.entries@[i].1@))
    }

    /// Internal invariant: keys are unique, every stored document is
    /// well-formed, and a non-sliding entry carries a zero window.
    pub closed spec fn inv(&self) -> bool {
        &&& unique_keys(self.entries_view())
        &&& forall|i: int|
            0 <= i < self.entries_view().len() ==> wf_json((#[trigger] self.entries_view()[i]).1.value)
        &&& forall|i: int|
            0 <= i < self.entries_view().len() ==> ((#[trigger] self.entries_view()[i]).1.sliding
                == false ==> self.entries_view()[i].1.sliding_ttl == 0)
    }

    /// Whether the store has mutations that are not yet on disk.
    pub closed spec fn dirty_flag(&self) -> bool {
        self.dirty
    }

    /// An empty store, as used when the backing file is absent or invalid.
    pub fn new() -> (c: DiskCache)
        ensures
            c.inv(),
            c@ == Map::<Seq<char>, EntryModel>::empty(),
            c.entries_view() == Seq::<(Seq<char>, EntryModel)>::empty(),
            !c.dirty_flag(),
    {
        let c = DiskCache { entries: Vec::new(), dirty: false };
        proof {
            assert(c.entries_view() =~= Seq::<(Seq<char>, EntryModel)>::empty());
        }
        c
    }

    /// Index of the entry for `key`, if any.
    fn find(&self, key: &str) -> (r: Option<usize>)
        ensures
            match r {
                Some(i) => i < self.entries_view().len() && self.entries_view()[i as int].0 == key@,
                None => forall|j: int|
                    0 <= j < self.entries_view().len() ==> (#[trigger] self.entries_view()[j]).0
                        != key@,
            },
    {
        let mut i: usize = 0;
        while i < self.entries.len()
            invariant
                i <= self.entries@.len(),
                forall|j: int| 0 <= j < i ==> (#[trigger] self.entries_view()[j]).0 != key@,
            decreases self.entries@.len() - i,
        {
            if str_eq(self.entries[i].0.as_str(), key) {
                return Some(i);
            }
            i += 1;
        }
        None
    }

    /// Read a key at instant `now_ms`. A value comes back exactly when the
    /// entry is live; an expired entry is purged; a live sliding entry has
    /// its deadline reset to `now_ms` plus its window. The returned
    /// document is a deep copy of the stored one.
    #[verifier::loop_isolation(false)]
    pub fn get(&mut self, key: &str, now_ms: u64) -> (r: Option<JsonValue>)
        requires
            old(self).inv(),
        ensures
            final(self).inv(),
            r is Some <==> live(old(self)@, key@, now_ms),
            (r matches Some(v) ==> v@ == old(self)@[key@].value),
            final(self)@ == spec_get_post(old(self)@, key@, now_ms),
            final(self).dirty_flag() == (old(self).dirty_flag() || spec_get_writes(
                old(self)@,
                key@,
                now_ms,
            )),
    {
        proof {
            lemma_map_of_contains(self.entries_view(), key@);
        }
        let found = self.find(key);
        match found {
            None => {
                proof {
                    assert(!old(self)@.contains_key(key@));
                }
                None
            },
            Some(i) => {
                proof {
                    lemma_map_of_index(self.entries_view(), i as int);
                }
                let expires_at = self.entries[i].1.expires_at;
                if now_ms >= expires_at {
                    self.entries.remove(i);
                    self.dirty = true;
                    proof {
                        assert(self.entries_view() =~= old(self).entries_view().remove(i as int));
                        lemma_map_of_remove(old(self).entries_view(), i as int);
                    }
                    None
                } else if self.entries[i].1.sliding {
                    let new_deadline = compute_deadline(now_ms, self.entries[i].1.sliding_ttl);
                    let key_copy = self.entries[i].0.clone();
                    let returned = self.entries[i].1.value.duplicate();
                    let kept = self.entries[i].1.value.duplicate();
                    let refreshed = CacheEntry {
                        value: kept,
                        expires_at: new_deadline,
                        sliding: true,
                        sliding_ttl: self.entries[i].1.sliding_ttl,
                    };
                    let ghost target = old(self).entries_view()[i as int].0;
                    self.entries[i] = (key_copy, refreshed);
                    self.dirty = true;
                    proof {
                        assert(self.entries_view() =~= old(self).entries_view().update(
                            i as int,
                            (target, spec_get_post(old(self)@, key@, now_ms)[key@]),
                        ));
                        lemma_map_of_update(
                            old(self).entries_view(),
                            i as int,
                            spec_get_post(old(self)@, key@, now_ms)[key@],
                        );
                    }
                    Some(returned)
                } else {
                    let returned = self.entries[i].1.value.duplicate();
                    Some(returned)
                }
            },
        }
    }

    /// Write a key at instant `now_ms`, overwriting any existing entry.
    /// The new deadline is `now_ms` plus the time-to-live; a sliding entry
    /// keeps the time-to-live as its window. A write always leaves the
    /// store dirty.
    pub fn set(&mut self, key: String, value: JsonValue, ttl_ms: u64, sliding: bool, now_ms: u64)
        requires
            old(self).inv(),
            wf_json(value@),
        ensures
            final(self).inv(),
            final(self)@ == old(self)@.insert(key@, spec_new_entry(value@, ttl_ms, sliding, now_ms)),
            final(self).dirty_flag(),
    {
        let expires_at = compute_deadline(now_ms, ttl_ms);
        let entry = CacheEntry {
            value,
            expires_at,
            sliding,
            sliding_ttl: if sliding {
                ttl_ms
            } else {
                0
            },
        };
        let found = self.find(key.as_str());
        match found {
            Some(i) => {
                proof {
                    lemma_map_of_index(self.entries_view(), i as int);
                }
                let ghost target = self.entries_view()[i as int].0;
                self.entries[i] = (key, entry);
                self.dirty = true;
                proof {
                    assert(self.entries_view() =~= old(self).entries_view().update(
                        i as int,
                        (target, spec_new_entry(value@, ttl_ms, sliding, now_ms)),
                    ));
                    lemma_map_of_update(
                        old(self).entries_view(),
                        i as int,
                        spec_new_entry(value@, ttl_ms, sliding, now_ms),
                    );
                }
            },
            None => {
                proof {
                    lemma_map_of_contains(self.entries_view(), key@);
                }
                self.entries.push((key, entry));
                self.dirty = true;
                proof {
                    assert(self.entries_view() =~= old(self).entries_view().push(
                        (key@, spec_new_entry(value@, ttl_ms, sliding, now_ms)),
                    ));
                    lemma_map_of_push(
                        old(self).entries_view(),
                        key@,
                        spec_new_entry(value@, ttl_ms, sliding, now_ms),
                    );
                }
            },
        }
    }

    /// Report and clear the dirty flag; the contents are untouched. The
    /// owner calls this after each operation and rewrites the backing file
    /// when it comes back true.
    pub fn take_dirty(&mut self) -> (was: bool)
        ensures
            was == old(self).dirty_flag(),
            !final(self).dirty_flag(),
            final(self)@ == old(self)@,
            final(self).entries_view() == old(self).entries_view(),
            final(self).inv() == old(self).inv(),
    {
        let was = self.dirty;
        self.dirty = false;
        was
    }

    /// The store rendered as one text document, ready to be written to
    /// the backing file.
    pub fn to_text(&self) -> (t: String)
        ensures
            t@ == crate::codec::store_text(self.entries_view()),
    {
        let mut out = String::new();
        crate::text::push_char(&mut out, '{');
        if self.entries.len() > 0 {
            crate::codec::push_store_members(&mut out, &self.entries, 0);
            proof {
                assert(crate::codec::entries_model(&self.entries).skip(0) =~= self.entries_view());
            }
        } else {
            proof {
                assert(self.entries_view().len() == 0);
            }
        }
        crate::text::push_char(&mut out, '}');
        proof {
            assert(out@ =~= crate::codec::store_text(self.entries_view()));
        }
        out
    }

    /// A store reconstructed from the backing file's text. Exactly the
    /// renderings of valid store images are accepted, and such an image is
    /// read back unchanged — so a store that is rendered with `to_text`
    /// and reconstructed from the same text has the same contents. Any
    /// other text yields an empty store, as an absent or damaged backing
    /// file is not an error.
    pub fn from_text(t: &str) -> (c: DiskCache)
        ensures
            c.inv(),
            !c.dirty_flag(),
            forall|es: Seq<(Seq<char>, EntryModel)>| #[trigger]
                crate::codec::store_here(t@, es) ==> c.entries_view() == es,
    {
        let chars = crate::text::to_chars(t);
        let n = chars.len();
        proof {
            assert forall|es: Seq<(Seq<char>, EntryModel)>| #[trigger]
                crate::codec::store_here(t@, es) implies n >= 2 && chars@[0] == '{' && (es.len()
                == 0 ==> n == 2 && chars@[1] == '}') && (es.len() >= 1 ==> chars@[1] == '"'
                && crate::codec::store_members_here(chars@, 1, es)) by {
                let body = crate::codec::store_members_text(es);
                let bl = body.len() as int;
                assert(chars@[0] == crate::codec::store_text(es)[0]);
                assert(chars@[n - 1] == crate::codec::store_text(es)[n - 1]);
                assert(n == bl + 2);
                if es.len() >= 1 {
                    assert(chars@.subrange(1, 1 + bl) =~= body) by {
                        assert forall|i: int| 0 <= i < bl implies chars@.subrange(1, 1 + bl)[i]
                            == body[i] by {
                            assert(chars@[1 + i] == crate::codec::store_text(es)[1 + i]);
                        }
                    }
                    assert(chars@[1 + bl] == crate::codec::store_text(es)[1 + bl]);
                    assert(chars@[1] == body[0]);
                    assert(body[0] == crate::codec::string_text(es[0].0)[0]) by {
                        crate::codec::lemma_store_members_split_pub(es);
                    }
                } else {
                    assert(body =~= Seq::<char>::empty());
                    assert(chars@[1] == crate::codec::store_text(es)[1]);
                }
            }
        }
        if n < 2 || t.get_char(0) != '{' {
            return DiskCache::new();
        }
        proof {
            assert(chars@[0] == '{');
        }
        if t.get_char(1) == '}' {
            if n == 2 {
                let c = DiskCache::new();
                proof {
                    assert forall|es: Seq<(Seq<char>, EntryModel)>| #[trigger]
                        crate::codec::store_here(t@, es) implies c.entries_view() == es by {
                        assert(es.len() == 0);
                        assert(c.entries_view() =~= es);
                    }
                }
                return c;
            }
            return DiskCache::new();
        }
        let parsed = match crate::codec::parse_store_members(&chars, 1) {
            None => {
                return DiskCache::new();
            },
            Some(p) => p,
        };
        let (entries, e) = parsed;
        if e != n {
            return DiskCache::new();
        }
        let c = DiskCache { entries, dirty: false };
        proof {
            assert(c.entries_view() =~= crate::codec::entries_model(&c.entries));
            assert(c.inv()) by {
                assert(unique_keys(c.entries_view()));
                assert forall|i: int| 0 <= i < c.entries_view().len() implies wf_json(
                    (#[trigger] c.entries_view()[i]).1.value,
                ) && ((#[trigger] c.entries_view()[i]).1.sliding == false
                    ==> c.entries_view()[i].1.sliding_ttl == 0) by {
                    assert(crate::codec::wf_entry(c.entries_view()[i].1));
                }
            }
            assert forall|es: Seq<(Seq<char>, EntryModel)>| #[trigger]
                crate::codec::store_here(t@, es) implies c.entries_view() == es by {
                assert(es.len() >= 1);
                assert(crate::codec::store_members_here(chars@, 1, es));
            }
        }
        c
    }

    /// Number of entries held in memory, stale ones included.
    pub fn len(&self) -> (n: usize)
        ensures
            n == self.entries_view().len(),
    {
        self.entries.len()
    }
}

/// A write followed by an immediate read with no elapsed time returns the
/// written value unchanged: the fresh entry is live whenever its
/// time-to-live is positive.
pub proof fn lemma_set_then_get(
    m: Map<Seq<char>, EntryModel>,
    key: Seq<char>,
    value: Json,
    ttl_ms: u64,
    sliding: bool,
    now: u64,
)
    requires
        ttl_ms > 0,
        now < u64::MAX,
    ensures
        live(m.insert(key, spec_new_entry(value, ttl_ms, sliding, now)), key, now),
        m.insert(key, spec_new_entry(value, ttl_ms, sliding, now))[key].value == value,
{
}

/// Reading a live non-sliding entry changes nothing: any number of
/// consecutive reads before the deadline leaves the mapping, and so the
/// entry's deadline, exactly as it was.
pub proof fn lemma_nonsliding_get_preserves(
    m: Map<Seq<char>, EntryModel>,
    key: Seq<char>,
    now: u64,
)
    requires
        live(m, key, now),
        !m[key].sliding,
    ensures
        spec_get_post(m, key, now) == m,
{
}

/// Reading a live sliding entry resets its deadline to `now` plus the
/// sliding window, and keeps its value.
pub proof fn lemma_sliding_get_resets(m: Map<Seq<char>, EntryModel>, key: Seq<char>, now: u64)
    requires
        live(m, key, now),
        m[key].sliding,
    ensures
        spec_get_post(m, key, now).contains_key(key),
        spec_get_post(m, key, now)[key].expires_at == deadline(now, m[key].sliding_ttl),
        spec_get_post(m, key, now)[key].value == m[key].value,
        spec_get_post(m, key, now)[key].sliding,
        spec_get_post(m, key, now)[key].sliding_ttl == m[key].sliding_ttl,
{
}

/// After a sliding read at `t1`, the entry is no longer live at any
/// instant from `t1` plus the window onwards, if untouched in between.
pub proof fn lemma_sliding_entry_lapses(
    m: Map<Seq<char>, EntryModel>,
    key: Seq<char>,
    t1: u64,
    t2: u64,
)
    requires
        live(m, key, t1),
        m[key].sliding,
        t2 >= deadline(t1, m[key].sliding_ttl),
    ensures
        !live(spec_get_post(m, key, t1), key, t2),
{
}

} // verus!

