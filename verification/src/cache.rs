//! LRU cache for parsed markdown documents.
//!
//! Avoids re-parsing identical markdown sources on every render. The cache
//! is an ordinary value, so its owner controls its lifetime and can share it
//! across render sites.

use crate::parse::{gfm_ok, parse_markdown, spec_gfm};
use crate::types::{blocks_view, ParsedMarkdown};
use vstd::prelude::*;
use vstd::utf8::encode_utf8;

verus! {

/// Default maximum number of cached entries.
pub const DEFAULT_MAX_ENTRIES: usize = 256;

/// Sources longer than this (in bytes) are never cached.
pub const DEFAULT_MAX_SOURCE_LEN: usize = 100_000;

/// An entry: a source text and its parsed document.
pub type EntryV = (Seq<char>, ParsedMarkdown);

/// LRU cache mapping source strings to parsed documents; entries are kept
/// from least to most recently used.
pub struct MarkdownCache {
    entries: Vec<(String, ParsedMarkdown)>,
    max_entries: usize,
    max_source_len: usize,
}

/// Index of the entry with key `k`, or `-1`.
pub open spec fn find_key(s: Seq<EntryV>, k: Seq<char>) -> int
    decreases s.len(),
{
    if s.len() == 0 {
        -1
    } else if s[s.len() - 1].0 == k {
        s.len() - 1
    } else {
        find_key(s.subrange(0, s.len() - 1), k)
    }
}

/// No key occurs twice.
pub open spec fn unique_keys(s: Seq<EntryV>) -> bool {
    forall|i: int, j: int| 0 <= i < j < s.len() ==> s[i].0 != s[j].0
}

/// The document cached for `k`, if any.
pub open spec fn lookup(s: Seq<EntryV>, k: Seq<char>) -> Option<ParsedMarkdown> {
    if find_key(s, k) >= 0 {
        Some(s[find_key(s, k)].1)
    } else {
        None
    }
}

/// Entry `i` moved to the most-recently-used end.
pub open spec fn touch_at(s: Seq<EntryV>, i: int) -> Seq<EntryV> {
    s.remove(i).push(s[i])
}

/// The order after a lookup of `k`: its entry refreshed when present.
pub open spec fn refresh(s: Seq<EntryV>, k: Seq<char>) -> Seq<EntryV> {
    if find_key(s, k) >= 0 {
        touch_at(s, find_key(s, k))
    } else {
        s
    }
}

/// The `max` most recently used entries.
pub open spec fn keep_recent(s: Seq<EntryV>, max: int) -> Seq<EntryV> {
    if s.len() > max {
        s.subrange(s.len() - max, s.len() as int)
    } else {
        s
    }
}

/// The entries after inserting `(k, p)`: an existing key is refreshed and
/// keeps its document; a new entry is added as most recently used, and the
/// least recently used entries beyond `max` are dropped.
pub open spec fn insert_entry(s: Seq<EntryV>, k: Seq<char>, p: ParsedMarkdown, max: int) -> Seq<
    EntryV,
> {
    if find_key(s, k) >= 0 {
        touch_at(s, find_key(s, k))
    } else {
        keep_recent(s.push((k, p)), max)
    }
}

pub proof fn lemma_find_key(s: Seq<EntryV>, k: Seq<char>)
    ensures
        -1 <= find_key(s, k) < s.len(),
        find_key(s, k) >= 0 ==> s[find_key(s, k)].0 == k,
        find_key(s, k) < 0 ==> forall|i: int| 0 <= i < s.len() ==> s[i].0 != k,
        unique_keys(s) ==> forall|i: int| 0 <= i < s.len() && s[i].0 == k ==> i == find_key(s, k),
    decreases s.len(),
{
    if s.len() > 0 {
        let t = s.subrange(0, s.len() - 1);
        lemma_find_key(t, k);
        assert forall|i: int| 0 <= i < t.len() implies t[i] == s[i] by {}
    }
}

impl MarkdownCache {
    /// The entries, least recently used first.
    pub closed spec fn entries_view(&self) -> Seq<EntryV> {
        self.entries@.map_values(|e: (String, ParsedMarkdown)| (e.0@, e.1))
    }

    /// The maximum number of entries.
    pub closed spec fn spec_max_entries(&self) -> int {
        self.max_entries as int
    }

    /// The maximum source length (in bytes) that is cached.
    pub closed spec fn spec_max_source_len(&self) -> int {
        self.max_source_len as int
    }

    /// At least one entry is allowed, no more than the maximum are held, and
    /// no key occurs twice.
    pub closed spec fn well_formed(&self) -> bool {
        &&& self.max_entries >= 1
        &&& self.entries@.len() <= self.max_entries
        &&& unique_keys(self.entries_view())
    }

    /// Create a cache with custom limits; at least one entry is allowed.
    pub fn new(max_entries: usize, max_source_len: usize) -> (r: Self)
        ensures
            r.well_formed(),
            r.entries_view() == Seq::<EntryV>::empty(),
            r.spec_max_entries() == if max_entries >= 1 {
                max_entries as int
            } else {
                1
            },
            r.spec_max_source_len() == max_source_len,
    {
        let r = MarkdownCache {
            entries: Vec::new(),
            max_entries: if max_entries >= 1 {
                max_entries
            } else {
                1
            },
            max_source_len,
        };
        assert(r.entries_view() =~= Seq::<EntryV>::empty());
        r
    }

    /// Index of the entry for `source`, or `None`.
    fn position(&self, source: &str) -> (r: Option<usize>)
        ensures
            match r {
                Some(i) => i == find_key(self.entries_view(), source@) && i < self.entries@.len(),
                None => find_key(self.entries_view(), source@) < 0,
            },
    {
        proof {
            lemma_find_key(self.entries_view(), source@);
        }
        let mut i = self.entries.len();
        while i > 0
            invariant
                i <= self.entries.len(),
                find_key(self.entries_view(), source@) < i,
                forall|j: int|
                    i <= j < self.entries@.len() ==> self.entries_view()[j].0 != source@,
                -1 <= find_key(self.entries_view(), source@) < self.entries@.len(),
                find_key(self.entries_view(), source@) >= 0 ==> self.entries_view()[find_key(
                    self.entries_view(),
                    source@,
                )].0 == source@,
                find_key(self.entries_view(), source@) < 0 ==> forall|j: int|
                    0 <= j < self.entries@.len() ==> self.entries_view()[j].0 != source@,
            decreases i,
        {
            let j = i - 1;
            assert(self.entries_view()[j as int].0 == self.entries@[j as int].0@);
            if crate::text::str_eq(self.entries[j].0.as_str(), source) {
                proof {
                    lemma_find_key_last(self.entries_view(), source@, j as int);
                }
                return Some(j);
            }
            i = j;
        }
        None
    }

    /// Move entry `i` to the most-recently-used end.
    fn touch(&mut self, i: usize)
        requires
            old(self).well_formed(),
            i < old(self).entries@.len(),
        ensures
            final(self).well_formed(),
            final(self).entries@.len() == old(self).entries@.len(),
            final(self).entries_view() == touch_at(old(self).entries_view(), i as int),
            final(self).spec_max_entries() == old(self).spec_max_entries(),
            final(self).spec_max_source_len() == old(self).spec_max_source_len(),
    {
        let ghost v0 = self.entries_view();
        let e = self.entries.remove(i);
        self.entries.push(e);
        proof {
            assert(self.entries_view() =~= touch_at(v0, i as int));
            let v = self.entries_view();
            assert forall|a: int, b: int| 0 <= a < b < v.len() implies v[a].0 != v[b].0 by {
                let ia = if a < i {
                    a
                } else if a < v.len() - 1 {
                    a + 1
                } else {
                    i as int
                };
                let ib = if b < i {
                    b
                } else if b < v.len() - 1 {
                    b + 1
                } else {
                    i as int
                };
                assert(v[a] == v0[ia]);
                assert(v[b] == v0[ib]);
            }
        }
    }

    /// Look up a previously parsed document; `None` on a miss. A hit
    /// becomes the most recently used entry.
    pub fn get(&mut self, source: &str) -> (r: Option<ParsedMarkdown>)
        requires
            old(self).well_formed(),
        ensures
            final(self).well_formed(),
            r == lookup(old(self).entries_view(), source@),
            final(self).entries_view() == refresh(old(self).entries_view(), source@),
            final(self).spec_max_entries() == old(self).spec_max_entries(),
            final(self).spec_max_source_len() == old(self).spec_max_source_len(),
    {
        match self.position(source) {
            None => None,
            Some(i) => {
                let ghost v0 = self.entries_view();
                assert(v0[i as int].1 == self.entries@[i as int].1);
                self.touch(i);
                let last = self.entries.len() - 1;
                assert(touch_at(v0, i as int)[last as int] == v0[i as int]);
                assert(self.entries_view()[last as int].1 == self.entries@[last as int].1);
                Some(self.entries[last].1.clone())
            },
        }
    }

    /// Insert a parsed document. If the key already exists its entry is
    /// refreshed but its document is **not** replaced.
    pub fn insert(&mut self, source: &str, parsed: ParsedMarkdown)
        requires
            old(self).well_formed(),
        ensures
            final(self).well_formed(),
            final(self).entries_view() == insert_entry(
                old(self).entries_view(),
                source@,
                parsed,
                old(self).spec_max_entries(),
            ),
            final(self).spec_max_entries() == old(self).spec_max_entries(),
            final(self).spec_max_source_len() == old(self).spec_max_source_len(),
    {
        if let Some(i) = self.position(source) {
            self.touch(i);
            return;
        }
        let ghost v0 = self.entries_view();
        proof {
            lemma_find_key(v0, source@);
        }
        let key = crate::text::to_owned_string(source);
        self.entries.push((key, parsed));
        assert(self.entries_view() =~= v0.push((source@, parsed)));
        proof {
            let v = self.entries_view();
            assert forall|a: int, b: int| 0 <= a < b < v.len() implies v[a].0 != v[b].0 by {
                if b < v0.len() {
                    assert(v[a] == v0[a] && v[b] == v0[b]);
                } else {
                    assert(v[a] == v0[a]);
                }
            }
        }
        self.evict_excess();
    }

    /// Drop the least recently used entries beyond the maximum.
    fn evict_excess(&mut self)
        requires
            old(self).max_entries >= 1,
            old(self).entries@.len() <= old(self).max_entries + 1,
            unique_keys(old(self).entries_view()),
        ensures
            final(self).well_formed(),
            final(self).entries_view() == keep_recent(
                old(self).entries_view(),
                old(self).spec_max_entries(),
            ),
            final(self).spec_max_entries() == old(self).spec_max_entries(),
            final(self).spec_max_source_len() == old(self).spec_max_source_len(),
    {
        let ghost v0 = self.entries_view();
        if self.entries.len() > self.max_entries {
            self.entries.remove(0);
            proof {
                let v = self.entries_view();
                assert(v =~= v0.subrange(v0.len() - self.max_entries, v0.len() as int));
                assert forall|a: int, b: int| 0 <= a < b < v.len() implies v[a].0 != v[b].0 by {
                    assert(v[a] == v0[a + 1]);
                    assert(v[b] == v0[b + 1]);
                }
            }
        }
    }

    /// Parse `source`, or return its cached document. Sources longer than
    /// the maximum source length are parsed but not cached.
    pub fn get_or_parse(&mut self, source: &str) -> (r: ParsedMarkdown)
        requires
            old(self).well_formed(),
            gfm_ok(source@),
        ensures
            final(self).well_formed(),
            final(self).spec_max_entries() == old(self).spec_max_entries(),
            final(self).spec_max_source_len() == old(self).spec_max_source_len(),
            get_or_parse_step(
                old(self).entries_view(),
                source@,
                r,
                final(self).entries_view(),
                old(self).spec_max_entries(),
                old(self).spec_max_source_len(),
            ),
    {
        if let Some(cached) = self.get(source) {
            return cached;
        }
        let parsed = parse_markdown(source);
        if source.as_bytes().len() <= self.max_source_len {
            self.insert(source, parsed.clone());
        }
        parsed
    }

    /// Remove all entries.
    pub fn clear(&mut self)
        requires
            old(self).well_formed(),
        ensures
            final(self).well_formed(),
            final(self).entries_view() == Seq::<EntryV>::empty(),
            final(self).spec_max_entries() == old(self).spec_max_entries(),
            final(self).spec_max_source_len() == old(self).spec_max_source_len(),
    {
        self.entries.clear();
        assert(self.entries_view() =~= Seq::<EntryV>::empty());
    }

    /// Number of entries currently cached.
    pub fn len(&self) -> (r: usize)
        ensures
            r == self.entries_view().len(),
    {
        self.entries.len()
    }

    /// Whether the cache is empty.
    pub fn is_empty(&self) -> (r: bool)
        ensures
            r == (self.entries_view().len() == 0),
    {
        self.entries.len() == 0
    }

    /// Maximum number of entries this cache will hold.
    pub fn max_entries(&self) -> (r: usize)
        ensures
            r == self.spec_max_entries(),
    {
        self.max_entries
    }
}

proof fn lemma_find_key_last(s: Seq<EntryV>, k: Seq<char>, j: int)
    requires
        0 <= j < s.len(),
        s[j].0 == k,
        forall|i: int| j < i < s.len() ==> s[i].0 != k,
    ensures
        find_key(s, k) == j,
    decreases s.len(),
{
    if j < s.len() - 1 {
        let t = s.subrange(0, s.len() - 1);
        assert forall|i: int| j < i < t.len() implies t[i].0 != k by {
            assert(t[i] == s[i]);
        }
        lemma_find_key_last(t, k, j);
    }
}

/// A document inserted under a new key is then found under that key; one
/// inserted under an existing key leaves the cached document in place.
pub proof fn lemma_insert_then_lookup(s: Seq<EntryV>, k: Seq<char>, p: ParsedMarkdown, max: int)
    requires
        unique_keys(s),
        max >= 1,
        s.len() <= max,
    ensures
        lookup(insert_entry(s, k, p, max), k) == if lookup(s, k) is Some {
            lookup(s, k)
        } else {
            Some(p)
        },
{
    lemma_find_key(s, k);
    let r = insert_entry(s, k, p, max);
    if find_key(s, k) >= 0 {
        let i = find_key(s, k);
        let t = touch_at(s, i);
        assert forall|j: int| 0 <= j < t.len() - 1 implies t[j].0 != k by {
            let sj = if j < i {
                j
            } else {
                j + 1
            };
            assert(t[j] == s[sj]);
        }
        lemma_find_key_last(t, k, t.len() - 1);
    } else {
        let u = s.push((k, p));
        assert(u[u.len() - 1].0 == k);
        lemma_find_key_last(r, k, r.len() - 1);
    }
}

/// Inserting never takes the cache past its maximum, and keeps keys unique.
pub proof fn lemma_insert_bounded(s: Seq<EntryV>, k: Seq<char>, p: ParsedMarkdown, max: int)
    requires
        unique_keys(s),
        max >= 1,
        s.len() <= max,
    ensures
        insert_entry(s, k, p, max).len() <= max,
        unique_keys(insert_entry(s, k, p, max)),
{
    lemma_find_key(s, k);
    let r = insert_entry(s, k, p, max);
    if find_key(s, k) >= 0 {
        let i = find_key(s, k);
        assert forall|a: int, b: int| 0 <= a < b < r.len() implies r[a].0 != r[b].0 by {
            let ia = if a < i {
                a
            } else if a < r.len() - 1 {
                a + 1
            } else {
                i
            };
            let ib = if b < i {
                b
            } else if b < r.len() - 1 {
                b + 1
            } else {
                i
            };
            assert(r[a] == s[ia]);
            assert(r[b] == s[ib]);
        }
    } else {
        let u = s.push((k, p));
        assert forall|a: int, b: int| 0 <= a < b < u.len() implies u[a].0 != u[b].0 by {
            if b < s.len() {
                assert(u[a] == s[a] && u[b] == s[b]);
            } else {
                assert(u[a] == s[a]);
            }
        }
        if u.len() > max {
            assert forall|a: int, b: int| 0 <= a < b < r.len() implies r[a].0 != r[b].0 by {
                assert(r[a] == u[a + u.len() - max]);
                assert(r[b] == u[b + u.len() - max]);
            }
        }
    }
}

/// A new key inserted into a full cache evicts exactly the least recently
/// used entry; the others keep their order, and the new entry is the most
/// recently used.
pub proof fn lemma_insert_evicts_oldest(s: Seq<EntryV>, k: Seq<char>, p: ParsedMarkdown, max: int)
    requires
        unique_keys(s),
        max >= 1,
        s.len() == max,
        lookup(s, k) is None,
    ensures
        insert_entry(s, k, p, max) == s.drop_first().push((k, p)),
{
    assert(insert_entry(s, k, p, max) =~= s.drop_first().push((k, p)));
}

/// A lookup that hits makes the entry the most recently used, keeping every
/// entry and document; a miss changes nothing.
pub proof fn lemma_refresh(s: Seq<EntryV>, k: Seq<char>)
    requires
        unique_keys(s),
    ensures
        lookup(s, k) is Some ==> refresh(s, k).len() == s.len() && refresh(s, k).last() == (
            k,
            lookup(s, k).unwrap(),
        ) && refresh(s, k).to_multiset() == s.to_multiset(),
        lookup(s, k) is None ==> refresh(s, k) == s,
{
    lemma_find_key(s, k);
    if find_key(s, k) >= 0 {
        let i = find_key(s, k);
        let r = refresh(s, k);
        broadcast use {vstd::seq_lib::group_seq_properties, vstd::multiset::group_multiset_properties};

        vstd::seq_lib::to_multiset_remove(s, i);
        assert(s.to_multiset().remove(s[i]).insert(s[i]) =~= s.to_multiset());
    }
}

/// What `get_or_parse` does with entries `s` for source `k`, giving `r` and
/// entries `s2`: a hit returns the cached document and refreshes its entry;
/// a miss returns the parsed document and inserts it when the source's byte
/// length is at most `max_len`.
pub open spec fn get_or_parse_step(
    s: Seq<EntryV>,
    k: Seq<char>,
    r: ParsedMarkdown,
    s2: Seq<EntryV>,
    max: int,
    max_len: int,
) -> bool {
    match lookup(s, k) {
        Some(p) => r == p && s2 == refresh(s, k),
        None => {
            &&& blocks_view(r.spec_blocks()) == spec_gfm(k)
            &&& s2 == if encode_utf8(k).len() <= max_len {
                insert_entry(s, k, r, max)
            } else {
                s
            }
        },
    }
}

/// Every cached document is the parse of its source.
pub open spec fn entries_parsed(s: Seq<EntryV>) -> bool {
    forall|i: int| 0 <= i < s.len() ==> blocks_view((#[trigger] s[i]).1.spec_blocks()) == spec_gfm(s[i].0)
}

impl MarkdownCache {
    /// A well-formed cache allows at least one entry, holds no more than its
    /// maximum, and has no key twice.
    pub proof fn lemma_well_formed(&self)
        requires
            self.well_formed(),
        ensures
            self.spec_max_entries() >= 1,
            self.entries_view().len() <= self.spec_max_entries(),
            unique_keys(self.entries_view()),
    {
    }
}

/// `get_or_parse` on a cache whose documents are the parses of their sources
/// returns the parse of the source, keeps every document the parse of its
/// source, stays within its bound, and afterwards holds the source exactly
/// when it held it before or the source is short enough to be cached.
pub proof fn lemma_get_or_parse(
    s: Seq<EntryV>,
    k: Seq<char>,
    r: ParsedMarkdown,
    s2: Seq<EntryV>,
    max: int,
    max_len: int,
)
    requires
        unique_keys(s),
        max >= 1,
        s.len() <= max,
        entries_parsed(s),
        get_or_parse_step(s, k, r, s2, max, max_len),
    ensures
        blocks_view(r.spec_blocks()) == spec_gfm(k),
        entries_parsed(s2),
        unique_keys(s2),
        s2.len() <= max,
        (lookup(s2, k) is Some) == (lookup(s, k) is Some || encode_utf8(k).len() <= max_len),
{
    lemma_find_key(s, k);
    if lookup(s, k) is Some {
        let i = find_key(s, k);
        assert(blocks_view(s[i].1.spec_blocks()) == spec_gfm(s[i].0));
        lemma_refresh(s, k);
        assert(s2 == touch_at(s, i));
        assert forall|j: int| 0 <= j < s2.len() implies blocks_view((#[trigger] s2[j]).1.spec_blocks())
            == spec_gfm(s2[j].0) by {
            if j < s2.len() - 1 {
                if j < i {
                    assert(s2[j] == s[j]);
                } else {
                    assert(s2[j] == s[j + 1]);
                }
            } else {
                assert(s2[j] == s[i]);
            }
        }
        lemma_insert_bounded(s, k, r, max);
        lemma_find_key(s2, k);
        assert(s2[s2.len() - 1].0 == k);
    } else if encode_utf8(k).len() <= max_len {
        lemma_insert_bounded(s, k, r, max);
        lemma_insert_then_lookup(s, k, r, max);
        let t = s.push((k, r));
        assert forall|j: int| 0 <= j < t.len() implies blocks_view((#[trigger] t[j]).1.spec_blocks())
            == spec_gfm(t[j].0) by {
            if j < s.len() {
                assert(t[j] == s[j]);
            }
        }
        assert forall|j: int| 0 <= j < s2.len() implies blocks_view((#[trigger] s2[j]).1.spec_blocks())
            == spec_gfm(s2[j].0) by {
            if t.len() > max {
                assert(s2[j] == t[j + t.len() - max]);
            } else {
                assert(s2[j] == t[j]);
            }
        }
    }
}

impl Default for MarkdownCache {
    fn default() -> (r: Self)
        ensures
            r.well_formed(),
            r.entries_view() == Seq::<EntryV>::empty(),
            r.spec_max_entries() == DEFAULT_MAX_ENTRIES,
            r.spec_max_source_len() == DEFAULT_MAX_SOURCE_LEN,
    {
        MarkdownCache::new(DEFAULT_MAX_ENTRIES, DEFAULT_MAX_SOURCE_LEN)
    }
}

} // verus!
