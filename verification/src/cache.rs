//! What is remembered of earlier checks of web links, to avoid unnecessary
//! requests.

use vstd::prelude::*;

verus! {

/// An entry in the cache: when a link was last checked, and how that went.
#[derive(Debug, Copy, Clone, PartialEq, Eq, Structural)]
pub struct CacheEntry {
    /// When the link was checked, in seconds since the Unix epoch.
    pub unix_timestamp: u64,
    /// Did the check find a valid resource?
    pub successful: bool,
}

impl CacheEntry {
    /// An entry for a check made `unix_timestamp` seconds after the Unix
    /// epoch.
    pub fn new(unix_timestamp: u64, successful: bool) -> (entry: CacheEntry)
        ensures
            entry == (CacheEntry { unix_timestamp, successful }),
    {
        CacheEntry { unix_timestamp, successful }
    }

    /// The number of seconds between the check and `now`, which must not lie
    /// before the check.
    pub fn elapsed(&self, now: u64) -> (seconds: u64)
        requires
            self.unix_timestamp <= now,
        ensures
            seconds == now - self.unix_timestamp,
    {
        now - self.unix_timestamp
    }

    /// Whether the entry spares a request at the time `now`: the check went
    /// well, does not lie in the future, and is less than `timeout` seconds
    /// old.
    pub open spec fn still_valid(self, now: u64, timeout: u64) -> bool {
        self.successful && self.unix_timestamp <= now && now - self.unix_timestamp < timeout
    }

    /// Whether the entry spares a request at the time `now`.
    pub fn is_still_valid(&self, now: u64, timeout: u64) -> (valid: bool)
        ensures
            valid == self.still_valid(now, timeout),
    {
        self.successful && self.unix_timestamp <= now && now - self.unix_timestamp < timeout
    }
}

/// The entries as a map: a later entry for a URL replaces an earlier one.
pub open spec fn as_map(entries: Seq<(Seq<char>, CacheEntry)>) -> Map<Seq<char>, CacheEntry>
    decreases entries.len(),
{
    if entries.len() == 0 {
        Map::empty()
    } else {
        as_map(entries.drop_last()).insert(entries.last().0, entries.last().1)
    }
}

/// The entries with their URLs as texts.
pub open spec fn entries_view(entries: Seq<(String, CacheEntry)>) -> Seq<(Seq<char>, CacheEntry)> {
    entries.map_values(|e: (String, CacheEntry)| (e.0@, e.1))
}

/// No URL occurs twice.
pub open spec fn distinct_urls(entries: Seq<(Seq<char>, CacheEntry)>) -> bool {
    forall|i: int, j: int|
        0 <= i < j < entries.len() ==> (#[trigger] entries[i]).0 != (#[trigger] entries[j]).0
}

/// The counter behind `n`. It starts again at zero when it is full.
pub open spec fn counted(n: usize) -> usize {
    if n == usize::MAX {
        0
    } else {
        (n + 1) as usize
    }
}

/// A URL that no entry has is not in the map.
pub proof fn lemma_as_map_misses(entries: Seq<(Seq<char>, CacheEntry)>, url: Seq<char>)
    requires
        forall|i: int| 0 <= i < entries.len() ==> (#[trigger] entries[i]).0 != url,
    ensures
        !as_map(entries).contains_key(url),
    decreases entries.len(),
{
    if entries.len() > 0 {
        let front = entries.drop_last();
        lemma_as_map_misses(front, url);
    }
}

/// The one entry of a URL is what the map holds for it.
pub proof fn lemma_as_map_finds(entries: Seq<(Seq<char>, CacheEntry)>, at: int)
    requires
        0 <= at < entries.len(),
        distinct_urls(entries),
    ensures
        as_map(entries).contains_key(entries[at].0),
        as_map(entries)[entries[at].0] == entries[at].1,
    decreases entries.len(),
{
    let front = entries.drop_last();
    if at < entries.len() - 1 {
        lemma_as_map_finds(front, at);
    }
}

/// Replacing the entry at `at` by one for the same URL is an insert.
pub proof fn lemma_as_map_update(entries: Seq<(Seq<char>, CacheEntry)>, at: int, entry: CacheEntry)
    requires
        0 <= at < entries.len(),
        distinct_urls(entries),
    ensures
        distinct_urls(entries.update(at, (entries[at].0, entry))),
        as_map(entries.update(at, (entries[at].0, entry))) == as_map(entries).insert(
            entries[at].0,
            entry,
        ),
    decreases entries.len(),
{
    let url = entries[at].0;
    let after = entries.update(at, (url, entry));
    let front = entries.drop_last();
    if at == entries.len() - 1 {
        assert(after.drop_last() =~= front);
    } else {
        lemma_as_map_update(front, at, entry);
        assert(after.drop_last() =~= front.update(at, (url, entry)));
    }
}

/// A cache used to avoid unnecessary web requests. It holds one entry for
/// each URL it knows, and counts the lookups that found one and those that
/// did not.
#[derive(Debug)]
pub struct Cache {
    links: Vec<(String, CacheEntry)>,
    cache_hits: usize,
    cache_misses: usize,
}

impl View for Cache {
    type V = Map<Seq<char>, CacheEntry>;

    closed spec fn view(&self) -> Map<Seq<char>, CacheEntry> {
        as_map(entries_view(self.links@))
    }
}

impl Cache {
    #[verifier::type_invariant]
    spec fn inv(&self) -> bool {
        distinct_urls(entries_view(self.links@))
    }

    /// The number of lookups that found an entry.
    pub closed spec fn hits(&self) -> usize {
        self.cache_hits
    }

    /// The number of lookups that found none.
    pub closed spec fn misses(&self) -> usize {
        self.cache_misses
    }

    /// The entries in the order in which their URLs came.
    pub closed spec fn listing(&self) -> Seq<(Seq<char>, CacheEntry)> {
        entries_view(self.links@)
    }

    /// A cache that knows nothing: it lists no entry, and has counted no
    /// lookup.
    pub fn new() -> (cache: Cache)
        ensures
            cache@ == Map::<Seq<char>, CacheEntry>::empty(),
            cache.listing() == Seq::<(Seq<char>, CacheEntry)>::empty(),
            cache.hits() == 0,
            cache.misses() == 0,
    {
        let cache = Cache { links: Vec::new(), cache_hits: 0, cache_misses: 0 };
        cache
    }

    /// The position of the entry for `url`, if there is one.
    fn position(&self, url: &str) -> (at: Option<usize>)
        ensures
            match at {
                Some(i) => i < self.links@.len() && self.links@[i as int].0@ == url@,
                None => forall|i: int|
                    0 <= i < self.links@.len() ==> (#[trigger] self.links@[i]).0@ != url@,
            },
    {
        let key = url.to_owned();
        let mut i: usize = 0;
        while i < self.links.len()
            invariant
                i <= self.links.len(),
                key@ == url@,
                forall|k: int| 0 <= k < i ==> (#[trigger] self.links@[k]).0@ != url@,
            decreases self.links.len() - i,
        {
            if self.links[i].0 == key {
                return Some(i);
            }
            i += 1;
        }
        None
    }

    /// The entry for `url`, if the cache has one. The lookup is counted.
    pub fn lookup(&mut self, url: &str) -> (entry: Option<CacheEntry>)
        ensures
            entry == if old(self)@.contains_key(url@) {
                Some(old(self)@[url@])
            } else {
                None
            },
            final(self)@ == old(self)@,
            final(self).hits() == if entry is Some {
                counted(old(self).hits())
            } else {
                old(self).hits()
            },
            final(self).misses() == if entry is Some {
                old(self).misses()
            } else {
                counted(old(self).misses())
            },
    {
        proof {
            use_type_invariant(&*self);
        }
        let ghost listing = entries_view(self.links@);
        match self.position(url) {
            Some(i) => {
                proof {
                    lemma_as_map_finds(listing, i as int);
                }
                let entry = self.links[i].1;
                self.cache_hits = if self.cache_hits == usize::MAX {
                    0
                } else {
                    self.cache_hits + 1
                };
                Some(entry)
            },
            None => {
                proof {
                    lemma_as_map_misses(listing, url@);
                }
                self.cache_misses = if self.cache_misses == usize::MAX {
                    0
                } else {
                    self.cache_misses + 1
                };
                None
            },
        }
    }

    /// Remembers `entry` for `url`, in place of what was known of it.
    pub fn insert(&mut self, url: String, entry: CacheEntry)
        ensures
            final(self)@ == old(self)@.insert(url@, entry),
            final(self).hits() == old(self).hits(),
            final(self).misses() == old(self).misses(),
    {
        proof {
            use_type_invariant(&*self);
        }
        let ghost listing = entries_view(self.links@);
        let at = self.position(url.as_str());
        let n: usize = self.links.len();
        let replaced: usize = match at {
            Some(k) => k,
            None => n,
        };
        let mut out: Vec<(String, CacheEntry)> = Vec::new();
        let mut i: usize = 0;
        while i < n
            invariant
                i <= n,
                n == self.links.len(),
                listing == entries_view(self.links@),
                out@.len() == i,
                forall|k: int|
                    0 <= k < i ==> (#[trigger] out@[k]).0@ == (if k == replaced {
                        url@
                    } else {
                        listing[k].0
                    }) && out@[k].1 == (if k == replaced {
                        entry
                    } else {
                        listing[k].1
                    }),
            decreases n - i,
        {
            if i == replaced {
                out.push((url.clone(), entry));
            } else {
                out.push((self.links[i].0.clone(), self.links[i].1));
            }
            i += 1;
        }
        match at {
            Some(k) => {
                proof {
                    lemma_as_map_update(listing, k as int, entry);
                    let after = entries_view(out@);
                    let want = listing.update(k as int, (url@, entry));
                    assert(after =~= want);
                }
            },
            None => {
                out.push((url, entry));
                proof {
                    let after = entries_view(out@);
                    assert(after.drop_last() =~= listing);
                }
            },
        }
        self.links = out;
    }

    /// Reset the [`Cache::cache_hits()`] and [`Cache::cache_misses()`]
    /// counters.
    pub fn reset_counters(&mut self)
        ensures
            final(self)@ == old(self)@,
            final(self).listing() == old(self).listing(),
            final(self).hits() == 0,
            final(self).misses() == 0,
    {
        proof {
            use_type_invariant(&*self);
        }
        self.cache_hits = 0;
        self.cache_misses = 0;
    }

    /// The number of times a lookup was successful.
    pub fn cache_hits(&self) -> (n: usize)
        ensures
            n == self.hits(),
    {
        self.cache_hits
    }

    /// The number of times a lookup was unsuccessful.
    pub fn cache_misses(&self) -> (n: usize)
        ensures
            n == self.misses(),
    {
        self.cache_misses
    }

    /// The entries with their URLs, to be written down.
    pub fn entries(&self) -> (out: Vec<(String, CacheEntry)>)
        ensures
            entries_view(out@) == self.listing(),
            as_map(entries_view(out@)) == self@,
    {
        let mut out: Vec<(String, CacheEntry)> = Vec::new();
        let mut i: usize = 0;
        while i < self.links.len()
            invariant
                i <= self.links.len(),
                entries_view(out@) == entries_view(self.links@).take(i as int),
            decreases self.links.len() - i,
        {
            let ghost before = entries_view(out@);
            out.push((self.links[i].0.clone(), self.links[i].1));
            i += 1;
            assert(entries_view(out@) =~= before.push(
                (self.links@[i - 1].0@, self.links@[i - 1].1),
            ));
        }
        assert(entries_view(self.links@).take(self.links@.len() as int) =~= entries_view(
            self.links@,
        ));
        out
    }

    /// A cache of the entries that were written down. Where a URL comes
    /// twice, the later entry counts.
    pub fn from_entries(entries: Vec<(String, CacheEntry)>) -> (cache: Cache)
        ensures
            cache@ == as_map(entries_view(entries@)),
            cache.hits() == 0,
            cache.misses() == 0,
    {
        let mut cache = Cache::new();
        let mut i: usize = 0;
        let ghost all = entries_view(entries@);
        while i < entries.len()
            invariant
                i <= entries.len(),
                all == entries_view(entries@),
                cache@ == as_map(all.take(i as int)),
                cache.hits() == 0,
                cache.misses() == 0,
            decreases entries.len() - i,
        {
            proof {
                assert(all.take(i + 1).drop_last() =~= all.take(i as int));
            }
            cache.insert(entries[i].0.clone(), entries[i].1);
            i += 1;
        }
        assert(all.take(all.len() as int) =~= all);
        cache
    }
}

impl Default for Cache {
    fn default() -> (cache: Cache)
        ensures
            cache@ == Map::<Seq<char>, CacheEntry>::empty(),
            cache.listing() == Seq::<(Seq<char>, CacheEntry)>::empty(),
            cache.hits() == 0,
            cache.misses() == 0,
    {
        Cache::new()
    }
}

} // verus!
