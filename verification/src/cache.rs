//! The response cache: a bounded, URL-keyed store of serialized
//! 200-responses with a time-to-live that slides on write, not on
//! read.  Time is handed in by the caller, so the behaviour is a pure
//! function of the state, the key and the clock value.

use vstd::prelude::*;

verus! {

/// One cached response: the request URL, the content type, the
/// serialized body and the write time.
pub struct CacheEntry {
    pub url: String,
    pub content_type: String,
    pub body: String,
    pub inserted_at_ms: u64,
}

/// Mathematical value of a [`CacheEntry`].
#[verifier::ext_equal]
pub struct CacheEntryView {
    pub url: Seq<char>,
    pub content_type: Seq<char>,
    pub body: Seq<char>,
    pub inserted_at_ms: u64,
}

impl View for CacheEntry {
    type V = CacheEntryView;

    open spec fn view(&self) -> CacheEntryView {
        CacheEntryView {
            url: self.url@,
            content_type: self.content_type@,
            body: self.body@,
            inserted_at_ms: self.inserted_at_ms,
        }
    }
}

/// The sequence of views of the cache entries.
pub open spec fn entries_view(s: Seq<CacheEntry>) -> Seq<CacheEntryView> {
    Seq::new(s.len(), |i: int| s[i]@)
}

/// The bounded, URL-keyed response cache.
pub struct ResponseCache {
    pub entries: Vec<CacheEntry>,
    pub capacity: usize,
    pub ttl_ms: u64,
}

/// The cache state is well-formed: it can hold at least one entry, is
/// within its capacity, and holds each URL at most once.
pub open spec fn cache_wf(es: Seq<CacheEntryView>, capacity: usize) -> bool {
    &&& capacity >= 1
    &&& es.len() <= capacity
    &&& forall|a: int, b: int|
        0 <= a < b < es.len() ==> (#[trigger] es[a]).url != (#[trigger] es[b]).url
}

/// An entry is still live at time `now`.
pub open spec fn entry_fresh(e: CacheEntryView, ttl_ms: u64, now: u64) -> bool {
    now < e.inserted_at_ms + ttl_ms
}

/// Index of the entry for `url` at or after `i`, or -1.
pub open spec fn url_idx(es: Seq<CacheEntryView>, url: Seq<char>, i: nat) -> int
    decreases es.len() - i when i <= es.len()
{
    if i >= es.len() {
        -1
    } else if es[i as int].url == url {
        i as int
    } else {
        url_idx(es, url, i + 1)
    }
}

/// What a lookup returns: the entry for `url`, provided it is still
/// live; expiry is purely time-based.
pub open spec fn cache_lookup(
    es: Seq<CacheEntryView>,
    ttl_ms: u64,
    url: Seq<char>,
    now: u64,
) -> Option<CacheEntryView> {
    let i = url_idx(es, url, 0);
    if i >= 0 && entry_fresh(es[i], ttl_ms, now) {
        Some(es[i])
    } else {
        None
    }
}

/// Index of the entry with the oldest write among `best` and
/// everything at or after `i` (first among ties).
pub open spec fn oldest_entry_from(es: Seq<CacheEntryView>, i: nat, best: int) -> int
    decreases es.len() - i when i <= es.len()
{
    if i >= es.len() {
        best
    } else if 0 <= best < es.len() && es[i as int].inserted_at_ms < es[best].inserted_at_ms {
        oldest_entry_from(es, i + 1, i as int)
    } else {
        oldest_entry_from(es, i + 1, best)
    }
}

/// What a write does: only status-200 responses are stored; a present
/// URL is overwritten with a fresh write time (the time-to-live slides
/// on write); a new URL is appended, evicting the entry with the
/// oldest write when the cache is full.
pub open spec fn cache_store(
    es: Seq<CacheEntryView>,
    capacity: usize,
    url: Seq<char>,
    status: u16,
    content_type: Seq<char>,
    body: Seq<char>,
    now: u64,
) -> Seq<CacheEntryView> {
    if status != 200 {
        es
    } else {
        let e = CacheEntryView { url: url, content_type: content_type, body: body, inserted_at_ms: now };
        let i = url_idx(es, url, 0);
        if i >= 0 {
            es.update(i, e)
        } else {
            let es1 = if es.len() >= capacity && es.len() > 0 {
                es.remove(oldest_entry_from(es, 1, 0))
            } else {
                es
            };
            es1.push(e)
        }
    }
}

/// Soundness and minimality of [`url_idx`].
proof fn lemma_url_idx(es: Seq<CacheEntryView>, url: Seq<char>, i: nat)
    requires
        i <= es.len(),
    ensures
        -1 <= url_idx(es, url, i) < es.len(),
        url_idx(es, url, i) >= 0 ==> i <= url_idx(es, url, i) && es[url_idx(es, url, i)].url
            == url,
        url_idx(es, url, i) < 0 ==> forall|j: int| i <= j < es.len() ==> es[j].url != url,
    decreases es.len() - i,
{
    if i < es.len() && es[i as int].url != url {
        lemma_url_idx(es, url, i + 1);
    }
}

/// [`oldest_entry_from`] stays in range.
proof fn lemma_oldest_entry_range(es: Seq<CacheEntryView>, i: nat, best: int)
    requires
        i <= es.len(),
        0 <= best < es.len(),
    ensures
        0 <= oldest_entry_from(es, i, best) < es.len(),
    decreases es.len() - i,
{
    if i < es.len() {
        if es[i as int].inserted_at_ms < es[best].inserted_at_ms {
            lemma_oldest_entry_range(es, i + 1, i as int);
        } else {
            lemma_oldest_entry_range(es, i + 1, best);
        }
    }
}

impl ResponseCache {
    /// Creates an empty cache with the given capacity and
    /// time-to-live.
    pub fn new(capacity: usize, ttl_ms: u64) -> (r: ResponseCache)
        requires
            capacity >= 1,
        ensures
            entries_view(r.entries@) == Seq::<CacheEntryView>::empty(),
            r.capacity == capacity,
            r.ttl_ms == ttl_ms,
            cache_wf(entries_view(r.entries@), r.capacity),
    {
        let r = ResponseCache { entries: Vec::new(), capacity: capacity, ttl_ms: ttl_ms };
        proof {
            assert(entries_view(r.entries@) =~= Seq::<CacheEntryView>::empty());
        }
        r
    }

    /// Looks a URL up at time `now_ms`: a hit replays the stored body
    /// with its original content type, per [`cache_lookup`].
    #[verifier::loop_isolation(false)]
    pub fn get(&self, url: &str, now_ms: u64) -> (r: Option<(String, String)>)
        ensures
            match r {
                Some(p) => {
                    &&& cache_lookup(entries_view(self.entries@), self.ttl_ms, url@, now_ms)
                        matches Some(e) && p.0@ == e.content_type && p.1@ == e.body
                },
                None => cache_lookup(entries_view(self.entries@), self.ttl_ms, url@, now_ms)
                    is None,
            },
    {
        let ghost es = entries_view(self.entries@);
        proof {
            lemma_url_idx(es, url@, 0);
        }
        let n = self.entries.len();
        let mut i: usize = 0;
        while i < n
            invariant
                i <= n,
                n == self.entries@.len(),
                url_idx(es, url@, 0) == url_idx(es, url@, i as nat),
            decreases n - i,
        {
            proof {
                assert(es[i as int] == self.entries@[i as int]@);
            }
            if crate::text::str_eq(self.entries[i].url.as_str(), url) {
                proof {
                    assert(url_idx(es, url@, i as nat) == i as int);
                }
                let e = &self.entries[i];
                let live = now_ms < e.inserted_at_ms || now_ms - e.inserted_at_ms < self.ttl_ms;
                if live {
                    return Some((e.content_type.clone(), e.body.clone()));
                } else {
                    return None;
                }
            }
            proof {
                assert(url_idx(es, url@, i as nat) == url_idx(es, url@, (i + 1) as nat));
            }
            i += 1;
        }
        None
    }

    /// Records a response at time `now_ms`, per [`cache_store`]: only
    /// a 200 is stored, a present URL is overwritten, and a full cache
    /// evicts its oldest entry.
    #[verifier::loop_isolation(false)]
    pub fn store_response(
        &mut self,
        url: &str,
        status: u16,
        content_type: &str,
        body: &str,
        now_ms: u64,
    )
        requires
            cache_wf(entries_view(old(self).entries@), old(self).capacity),
        ensures
            cache_wf(entries_view(final(self).entries@), final(self).capacity),
            final(self).capacity == old(self).capacity,
            final(self).ttl_ms == old(self).ttl_ms,
            entries_view(final(self).entries@) == cache_store(
                entries_view(old(self).entries@),
                old(self).capacity,
                url@,
                status,
                content_type@,
                body@,
                now_ms,
            ),
    {
        let ghost es0 = entries_view(old(self).entries@);
        proof {
            lemma_url_idx(es0, url@, 0);
        }
        if status != 200 {
            return ;
        }
        let ghost newe = CacheEntryView {
            url: url@,
            content_type: content_type@,
            body: body@,
            inserted_at_ms: now_ms,
        };
        let n = self.entries.len();
        let mut i: usize = 0;
        let mut found = false;
        while i < n && !found
            invariant
                i <= n,
                n == self.entries@.len(),
                self == old(self),
                found ==> i < n && es0[i as int].url == url@ && url_idx(es0, url@, 0) == i as int,
                !found ==> url_idx(es0, url@, 0) == url_idx(es0, url@, i as nat),
            decreases n - i + (if found {
                0int
            } else {
                1int
            }),
        {
            proof {
                assert(es0[i as int] == self.entries@[i as int]@);
            }
            if crate::text::str_eq(self.entries[i].url.as_str(), url) {
                found = true;
            } else {
                proof {
                    assert(url_idx(es0, url@, i as nat) == url_idx(es0, url@, (i + 1) as nat));
                }
                i += 1;
            }
        }
        if found {
            let old_entry = self.entries.remove(i);
            self.entries.insert(
                i,
                CacheEntry {
                    url: old_entry.url,
                    content_type: content_type.to_owned(),
                    body: body.to_owned(),
                    inserted_at_ms: now_ms,
                },
            );
            proof {
                assert(entries_view(self.entries@) =~= es0.update(i as int, newe));
            }
        } else {
            proof {
                assert(url_idx(es0, url@, 0) == -1);
            }
            if self.entries.len() >= self.capacity && self.entries.len() > 0 {
                let v = self.find_oldest();
                let ghost pre = entries_view(self.entries@);
                self.entries.remove(v);
                proof {
                    assert(entries_view(self.entries@) =~= pre.remove(v as int));
                }
            }
            let ghost pre2 = entries_view(self.entries@);
            self.entries.push(
                CacheEntry {
                    url: url.to_owned(),
                    content_type: content_type.to_owned(),
                    body: body.to_owned(),
                    inserted_at_ms: now_ms,
                },
            );
            proof {
                assert(entries_view(self.entries@) =~= pre2.push(newe));
                let es1 = cache_store(es0, self.capacity, url@, status, content_type@, body@, now_ms);
                assert(entries_view(self.entries@) =~= es1);
                assert(cache_wf(entries_view(self.entries@), self.capacity)) by {
                    if es0.len() >= self.capacity && es0.len() > 0 {
                        let o = oldest_entry_from(es0, 1, 0);
                        lemma_oldest_entry_range(es0, 1, 0);
                        es0.remove_ensures(o);
                        assert forall|a: int, b: int|
                            0 <= a < b < entries_view(self.entries@).len() implies (
                        #[trigger] entries_view(self.entries@)[a]).url != (
                        #[trigger] entries_view(self.entries@)[b]).url by {
                            lemma_url_idx(es0, url@, 0);
                        }
                    }
                }
            }
        }
    }

    /// Index of the entry with the oldest write (first among ties).
    fn find_oldest(&self) -> (r: usize)
        requires
            self.entries@.len() > 0,
        ensures
            r < self.entries@.len(),
            r as int == oldest_entry_from(entries_view(self.entries@), 1, 0),
    {
        let ghost es = entries_view(self.entries@);
        let n = self.entries.len();
        let mut best: usize = 0;
        let mut i: usize = 1;
        while i < n
            invariant
                n == self.entries@.len(),
                es == entries_view(self.entries@),
                1 <= i <= n,
                best < n,
                best < i,
                oldest_entry_from(es, 1, 0) == oldest_entry_from(es, i as nat, best as int),
            decreases n - i,
        {
            proof {
                assert(es[i as int] == self.entries@[i as int]@);
                assert(es[best as int] == self.entries@[best as int]@);
            }
            if self.entries[i].inserted_at_ms < self.entries[best].inserted_at_ms {
                best = i;
            }
            i += 1;
        }
        best
    }
}

} // verus!
