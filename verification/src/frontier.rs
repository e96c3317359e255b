use vstd::prelude::*;
use crate::page::{Page, PageView};
use crate::strutil::str_eq_str;

verus! {

/// One frontier entry, abstractly: the normalized URL and the page state.
pub type EntryView = (Seq<char>, PageView);

/// Keys are unique: no URL appears more than once.
pub open spec fn wf_entries(s: Seq<EntryView>) -> bool {
    forall|i: int, j: int| 0 <= i < j < s.len() ==> s[i].0 != s[j].0
}

/// Whether the URL `k` is a key of the frontier.
pub open spec fn contains_key(s: Seq<EntryView>, k: Seq<char>) -> bool {
    exists|i: int| 0 <= i < s.len() && s[i].0 == k
}

/// The index of the entry keyed by `k` (unique when the keys are unique).
pub open spec fn key_index(s: Seq<EntryView>, k: Seq<char>) -> int {
    choose|i: int| 0 <= i < s.len() && s[i].0 == k
}

/// The page state stored under the key `k`.
pub open spec fn page_at(s: Seq<EntryView>, k: Seq<char>) -> PageView {
    s[key_index(s, k)].1
}

/// All keys of the frontier, in frontier order.
pub open spec fn keys_of(s: Seq<EntryView>) -> Seq<Seq<char>>
    decreases s.len(),
{
    if s.len() == 0 {
        Seq::empty()
    } else {
        keys_of(s.drop_last()).push(s.last().0)
    }
}

/// The keys of the not-yet-crawled entries, in frontier order.
pub open spec fn pending_keys(s: Seq<EntryView>) -> Seq<Seq<char>>
    decreases s.len(),
{
    if s.len() == 0 {
        Seq::empty()
    } else if !s.last().1.crawled {
        pending_keys(s.drop_last()).push(s.last().0)
    } else {
        pending_keys(s.drop_last())
    }
}

/// In a frontier with unique keys, an entry's index is the key's unique index.
pub proof fn lemma_key_index(s: Seq<EntryView>, k: Seq<char>, i: int)
    requires
        wf_entries(s),
        0 <= i < s.len(),
        s[i].0 == k,
    ensures
        contains_key(s, k),
        key_index(s, k) == i,
        page_at(s, k) == s[i].1,
{
    assert(contains_key(s, k));
    let j = key_index(s, k);
    assert(0 <= j < s.len() && s[j].0 == k);
}

/// Replacing pages without touching any key keeps the keys unique.
pub proof fn lemma_wf_same_keys(s1: Seq<EntryView>, s2: Seq<EntryView>)
    requires
        wf_entries(s1),
        s1.len() == s2.len(),
        forall|i: int| 0 <= i < s2.len() ==> s2[i].0 == s1[i].0,
    ensures
        wf_entries(s2),
{
}


/// The (key, body) pairs of the not-yet-crawled entries, in frontier order.
pub open spec fn pending_pairs(s: Seq<EntryView>) -> Seq<(Seq<char>, Seq<char>)>
    decreases s.len(),
{
    if s.len() == 0 {
        Seq::empty()
    } else if !s.last().1.crawled {
        pending_pairs(s.drop_last()).push((s.last().0, s.last().1.body))
    } else {
        pending_pairs(s.drop_last())
    }
}

/// Every pending pair lists a pending entry, and every pending entry is
/// listed; `pending_keys` lists exactly the keys of `pending_pairs`.
pub proof fn lemma_pending_pairs(s: Seq<EntryView>)
    ensures
        pending_pairs(s).len() == pending_keys(s).len(),
        forall|j: int| 0 <= j < pending_pairs(s).len() ==> #[trigger] pending_pairs(s)[j].0
            == pending_keys(s)[j],
        forall|j: int| 0 <= j < pending_pairs(s).len() ==> pair_of_pending_entry(
            s,
            #[trigger] pending_pairs(s)[j],
        ),
        forall|i: int| 0 <= i < s.len() && !(#[trigger] s[i]).1.crawled ==> entry_pair_listed(s, i),
    decreases s.len(),
{
    if s.len() > 0 {
        lemma_pending_pairs(s.drop_last());
        let d = s.drop_last();
        assert(forall|i: int| 0 <= i < d.len() ==> d[i] == s[i]);
        assert forall|i: int| 0 <= i < s.len() && !(#[trigger] s[i]).1.crawled implies
            entry_pair_listed(s, i) by {
            if i < s.len() - 1 {
                assert(entry_pair_listed(d, i));
                let j = choose|j: int| 0 <= j < pending_pairs(d).len() && pending_pairs(d)[j] == (
                    d[i].0,
                    d[i].1.body,
                );
                assert(pending_pairs(s)[j] == (s[i].0, s[i].1.body));
            } else {
                assert(pending_pairs(s).last() == (s[i].0, s[i].1.body));
            }
        }
        assert forall|j: int| 0 <= j < pending_pairs(s).len() implies pair_of_pending_entry(
            s,
            #[trigger] pending_pairs(s)[j],
        ) by {
            if j < pending_pairs(d).len() {
                assert(pair_of_pending_entry(d, pending_pairs(d)[j]));
                let i = choose|i: int| 0 <= i < d.len() && !d[i].1.crawled && d[i].0
                    == pending_pairs(d)[j].0 && d[i].1.body == pending_pairs(d)[j].1;
                assert(s[i] == d[i]);
            } else {
                assert(!s.last().1.crawled);
                assert(s[s.len() - 1] == s.last());
            }
        }
    }
}

/// Some pending entry of `s` has exactly this key and body.
pub open spec fn pair_of_pending_entry(s: Seq<EntryView>, p: (Seq<char>, Seq<char>)) -> bool {
    exists|i: int| 0 <= i < s.len() && !s[i].1.crawled && s[i].0 == p.0 && s[i].1.body == p.1
}

/// The pending entry at index `i` appears among the pending pairs.
pub open spec fn entry_pair_listed(s: Seq<EntryView>, i: int) -> bool {
    exists|j: int| 0 <= j < pending_pairs(s).len() && pending_pairs(s)[j] == (s[i].0, s[i].1.body)
}

/// The first body listed for the key `k` among fetch results, if any.
pub open spec fn spec_lookup(rs: Seq<(Seq<char>, Seq<char>)>, k: Seq<char>) -> Option<Seq<char>>
    decreases rs.len(),
{
    if rs.len() == 0 {
        None
    } else if rs[0].0 == k {
        Some(rs[0].1)
    } else {
        spec_lookup(rs.drop_first(), k)
    }
}

/// The pair (`k`, `b`) occurs among the listed results.
pub open spec fn listed(rs: Seq<(Seq<char>, Seq<char>)>, k: Seq<char>, b: Seq<char>) -> bool {
    exists|i: int| 0 <= i < rs.len() && rs[i].0 == k && rs[i].1 == b
}

/// A successful lookup returns a listed pair; a failed one means the key is
/// not listed at all.
pub proof fn lemma_lookup_listed(rs: Seq<(Seq<char>, Seq<char>)>, k: Seq<char>)
    ensures
        match spec_lookup(rs, k) {
            Some(b) => listed(rs, k, b),
            None => forall|i: int| 0 <= i < rs.len() ==> (#[trigger] rs[i]).0 != k,
        },
    decreases rs.len(),
{
    if rs.len() > 0 && rs[0].0 != k {
        lemma_lookup_listed(rs.drop_first(), k);
        let d = rs.drop_first();
        match spec_lookup(rs, k) {
            Some(b) => {
                let i = choose|i: int| 0 <= i < d.len() && d[i].0 == k && d[i].1 == b;
                assert(rs[i + 1].0 == k && rs[i + 1].1 == b);
            },
            None => {
                assert forall|i: int| 0 <= i < rs.len() implies (#[trigger] rs[i]).0 != k by {
                    if i > 0 {
                        assert(rs[i] == d[i - 1]);
                    }
                }
            },
        }
    }
}

/// With unique result keys, lookup finds exactly the listed pair.
pub proof fn lemma_listed_lookup(rs: Seq<(Seq<char>, Seq<char>)>, k: Seq<char>, b: Seq<char>)
    requires
        unique_result_keys(rs),
        listed(rs, k, b),
    ensures
        spec_lookup(rs, k) == Some(b),
    decreases rs.len(),
{
    let i = choose|i: int| 0 <= i < rs.len() && rs[i].0 == k && rs[i].1 == b;
    if rs[0].0 == k {
        assert(i == 0);
    } else {
        let d = rs.drop_first();
        assert(d[i - 1].0 == k && d[i - 1].1 == b);
        assert forall|x: int, y: int| 0 <= x < y < d.len() implies (#[trigger] d[x]).0
            != (#[trigger] d[y]).0 by {
            assert(d[x] == rs[x + 1] && d[y] == rs[y + 1]);
        }
        lemma_listed_lookup(d, k, b);
    }
}

/// No URL is listed twice among a round's fetch results.
pub open spec fn unique_result_keys(rs: Seq<(Seq<char>, Seq<char>)>) -> bool {
    forall|i: int, j: int| 0 <= i < j < rs.len() ==> rs[i].0 != rs[j].0
}

/// How one entry looks after a round's fetch results are written back: a
/// pending entry whose URL has a result takes that body; everything else is
/// untouched.
pub open spec fn spec_applied(e: EntryView, rs: Seq<(Seq<char>, Seq<char>)>) -> EntryView {
    if e.1.crawled {
        e
    } else {
        match spec_lookup(rs, e.0) {
            Some(b) => (e.0, PageView { body: b, crawled: false }),
            None => e,
        }
    }
}

/// The mapping from normalized URL to page state: the single source of truth
/// for crawl progress. Keys are unique by construction (insert-if-absent
/// only) and entries are never removed.
#[derive(Clone, Debug, PartialEq)]
pub struct Frontier {
    entries: Vec<(String, Page)>,
}

impl View for Frontier {
    type V = Seq<EntryView>;

    closed spec fn view(&self) -> Seq<EntryView> {
        self.entries@.map_values(|e: (String, Page)| (e.0@, e.1@))
    }
}

impl Frontier {
    pub fn new() -> (f: Frontier)
        ensures
            f@ =~= Seq::<EntryView>::empty(),
    {
        Frontier { entries: Vec::new() }
    }

    pub fn len(&self) -> (n: usize)
        ensures
            n == self@.len(),
    {
        self.entries.len()
    }

    /// The index of the entry keyed by `url`, if that URL is present.
    fn find_index(&self, url: &str) -> (r: Option<usize>)
        requires
            wf_entries(self@),
        ensures
            match r {
                Some(i) => i < self@.len() && self@[i as int].0 == url@ && key_index(self@, url@)
                    == i as int,
                None => !contains_key(self@, url@),
            },
    {
        let n = self.entries.len();
        let mut i: usize = 0;
        while i < n
            invariant
                n == self@.len(),
                n == self.entries@.len(),
                i <= n,
                wf_entries(self@),
                forall|j: int| 0 <= j < i ==> self@[j].0 != url@,
            decreases n - i,
        {
            if str_eq_str(self.entries[i].0.as_str(), url) {
                proof {
                    lemma_key_index(self@, url@, i as int);
                }
                return Some(i);
            }
            i = i + 1;
        }
        None
    }

    /// The page stored under `url`, if that URL is present.
    pub fn get(&self, url: &str) -> (r: Option<&Page>)
        requires
            wf_entries(self@),
        ensures
            match r {
                Some(p) => contains_key(self@, url@) && p@ == page_at(self@, url@),
                None => !contains_key(self@, url@),
            },
    {
        match self.find_index(url) {
            Some(i) => Some(&self.entries[i].1),
            None => None,
        }
    }

    /// Adds a new pending page only if the URL is not already a key; returns
    /// whether an insertion occurred. Inserting an existing key is a no-op.
    pub fn insert_if_absent(&mut self, url: &str) -> (r: bool)
        requires
            wf_entries(old(self)@),
        ensures
            wf_entries(final(self)@),
            contains_key(final(self)@, url@),
            r == !contains_key(old(self)@, url@),
            r ==> final(self)@ =~= old(self)@.push((url@, PageView::pending())),
            !r ==> final(self)@ =~= old(self)@,
    {
        match self.find_index(url) {
            Some(_) => false,
            None => {
                self.entries.push((url.to_owned(), Page::new()));
                proof {
                    assert(self@ =~= old(self)@.push((url@, PageView::pending())));
                    lemma_key_index(self@, url@, old(self)@.len() as int);
                }
                true
            },
        }
    }

    /// How many entries are still pending (not yet crawled).
    pub fn pending_count(&self) -> (n: usize)
        ensures
            n == pending_keys(self@).len(),
    {
        let len = self.entries.len();
        let mut n: usize = 0;
        let mut i: usize = 0;
        while i < len
            invariant
                len == self@.len(),
                len == self.entries@.len(),
                i <= len,
                n == pending_keys(self@.take(i as int)).len(),
                n <= i,
            decreases len - i,
        {
            proof {
                assert(self@.take(i + 1).drop_last() =~= self@.take(i as int));
                assert(self@.take(i + 1).last() == self@[i as int]);
            }
            if !self.entries[i].1.crawled() {
                n = n + 1;
            }
            i = i + 1;
        }
        proof {
            assert(self@.take(len as int) =~= self@);
        }
        n
    }

    /// A snapshot of the pending URLs, in frontier order.
    pub fn pending_urls(&self) -> (r: Vec<String>)
        ensures
            r.deep_view() =~= pending_keys(self@),
    {
        let len = self.entries.len();
        let mut r: Vec<String> = Vec::new();
        let mut i: usize = 0;
        while i < len
            invariant
                len == self@.len(),
                len == self.entries@.len(),
                i <= len,
                r.deep_view() =~= pending_keys(self@.take(i as int)),
            decreases len - i,
        {
            proof {
                assert(self@.take(i + 1).drop_last() =~= self@.take(i as int));
                assert(self@.take(i + 1).last() == self@[i as int]);
            }
            if !self.entries[i].1.crawled() {
                r.push(self.entries[i].0.clone());
                proof {
                    assert(r.deep_view() =~= pending_keys(self@.take(i + 1)));
                }
            }
            i = i + 1;
        }
        proof {
            assert(self@.take(len as int) =~= self@);
        }
        r
    }

    /// All keys of the frontier, in frontier order.
    pub fn keys(&self) -> (r: Vec<String>)
        ensures
            r.deep_view() =~= keys_of(self@),
    {
        let len = self.entries.len();
        let mut r: Vec<String> = Vec::new();
        let mut i: usize = 0;
        while i < len
            invariant
                len == self@.len(),
                len == self.entries@.len(),
                i <= len,
                r.deep_view() =~= keys_of(self@.take(i as int)),
            decreases len - i,
        {
            proof {
                assert(self@.take(i + 1).drop_last() =~= self@.take(i as int));
                assert(self@.take(i + 1).last() == self@[i as int]);
            }
            r.push(self.entries[i].0.clone());
            proof {
                assert(r.deep_view() =~= keys_of(self@.take(i + 1)));
            }
            i = i + 1;
        }
        proof {
            assert(self@.take(len as int) =~= self@);
        }
        r
    }


    /// A snapshot of the pending URLs with their current bodies.
    pub fn pending_pages(&self) -> (r: Vec<(String, String)>)
        ensures
            r.deep_view() =~= pending_pairs(self@),
    {
        let len = self.entries.len();
        let mut r: Vec<(String, String)> = Vec::new();
        let mut i: usize = 0;
        while i < len
            invariant
                len == self@.len(),
                len == self.entries@.len(),
                i <= len,
                r.deep_view() =~= pending_pairs(self@.take(i as int)),
            decreases len - i,
        {
            proof {
                assert(self@.take(i + 1).drop_last() =~= self@.take(i as int));
                assert(self@.take(i + 1).last() == self@[i as int]);
            }
            if !self.entries[i].1.crawled() {
                r.push((self.entries[i].0.clone(), self.entries[i].1.body().clone()));
                proof {
                    assert(r.deep_view() =~= pending_pairs(self@.take(i + 1)));
                }
            }
            i = i + 1;
        }
        proof {
            assert(self@.take(len as int) =~= self@);
        }
        r
    }

    /// Writes a round's fetch results back into the frontier, matched to
    /// their originating URL by direct keyed lookup: every pending entry
    /// whose URL has a listed body takes that body; nothing else changes.
    pub fn apply_fetch_results(&mut self, results: &Vec<(String, String)>)
        requires
            wf_entries(old(self)@),
        ensures
            wf_entries(final(self)@),
            final(self)@.len() == old(self)@.len(),
            forall|i: int| 0 <= i < old(self)@.len() ==> final(self)@[i] == spec_applied(
                old(self)@[i],
                results.deep_view(),
            ),
    {
        let len = self.entries.len();
        let mut i: usize = 0;
        while i < len
            invariant
                len == self@.len(),
                len == self.entries@.len(),
                i <= len,
                len == old(self)@.len(),
                wf_entries(self@),
                forall|j: int| 0 <= j < len ==> (#[trigger] self@[j]).0 == old(self)@[j].0,
                forall|j: int| i <= j < len ==> #[trigger] self@[j] == old(self)@[j],
                forall|j: int| 0 <= j < i ==> #[trigger] self@[j] == spec_applied(
                    old(self)@[j],
                    results.deep_view(),
                ),
            decreases len - i,
        {
            if !self.entries[i].1.crawled() {
                match lookup_result(results, self.entries[i].0.as_str()) {
                    Some(b) => {
                        let key = self.entries[i].0.clone();
                        let page = Page::with_values(b.as_str(), &false);
                        let ghost before = self@;
                        self.entries.set(i, (key, page));
                        proof {
                            assert(self@ =~= before.update(
                                i as int,
                                (before[i as int].0, PageView { body: b@, crawled: false }),
                            ));
                            lemma_wf_same_keys(before, self@);
                        }
                    },
                    None => {},
                }
            }
            i = i + 1;
        }
    }

    /// Stores the fetched body for `url`; the crawled flag is not touched.
    pub fn mark_fetched(&mut self, url: &str, body: &str)
        requires
            wf_entries(old(self)@),
            contains_key(old(self)@, url@),
        ensures
            wf_entries(final(self)@),
            final(self)@ =~= old(self)@.update(
                key_index(old(self)@, url@),
                (url@, PageView { body: body@, crawled: page_at(old(self)@, url@).crawled }),
            ),
    {
        self.replace_page_at(url, Some(body), None);
    }

    /// Clears the body of `url` to empty once extraction has consumed it.
    pub fn clear_body(&mut self, url: &str)
        requires
            wf_entries(old(self)@),
            contains_key(old(self)@, url@),
        ensures
            wf_entries(final(self)@),
            final(self)@ =~= old(self)@.update(
                key_index(old(self)@, url@),
                (url@, PageView {
                    body: Seq::<char>::empty(),
                    crawled: page_at(old(self)@, url@).crawled,
                }),
            ),
    {
        proof {
            reveal_strlit("");
            assert(""@ =~= Seq::<char>::empty());
        }
        self.replace_page_at(url, Some(""), None);
    }

    /// Marks the page under `url` as crawled; its body is not touched.
    pub fn mark_crawled(&mut self, url: &str)
        requires
            wf_entries(old(self)@),
            contains_key(old(self)@, url@),
        ensures
            wf_entries(final(self)@),
            final(self)@ =~= old(self)@.update(
                key_index(old(self)@, url@),
                (url@, PageView { body: page_at(old(self)@, url@).body, crawled: true }),
            ),
    {
        self.replace_page_at(url, None, Some(true));
    }

    /// Replaces parts of the page stored under `url`: the body when `body` is
    /// given, the crawled flag when `crawled` is given.
    fn replace_page_at(&mut self, url: &str, body: Option<&str>, crawled: Option<bool>)
        requires
            wf_entries(old(self)@),
            contains_key(old(self)@, url@),
        ensures
            wf_entries(final(self)@),
            final(self)@ =~= old(self)@.update(
                key_index(old(self)@, url@),
                (url@, PageView {
                    body: match body {
                        Some(b) => b@,
                        None => page_at(old(self)@, url@).body,
                    },
                    crawled: match crawled {
                        Some(c) => c,
                        None => page_at(old(self)@, url@).crawled,
                    },
                }),
            ),
    {
        let i = match self.find_index(url) {
            Some(i) => i,
            None => {
                proof {
                    assert(false);
                }
                0
            },
        };
        let old_flag = self.entries[i].1.crawled();
        let new_page = match body {
            Some(b) => Page::with_values(
                b,
                &match crawled {
                    Some(c) => c,
                    None => old_flag,
                },
            ),
            None => {
                let kept = self.entries[i].1.body().clone();
                Page::with_values(
                    kept.as_str(),
                    &match crawled {
                        Some(c) => c,
                        None => old_flag,
                    },
                )
            },
        };
        let key = self.entries[i].0.clone();
        self.entries.set(i, (key, new_page));
        proof {
            lemma_key_index(old(self)@, url@, i as int);
            lemma_wf_same_keys(old(self)@, self@);
        }
    }
}


/// Finds the first fetch result listed for `key`, as `spec_lookup` states.
pub fn lookup_result(results: &Vec<(String, String)>, key: &str) -> (r: Option<String>)
    ensures
        match r {
            Some(b) => spec_lookup(results.deep_view(), key@) == Some(b@),
            None => spec_lookup(results.deep_view(), key@) is None,
        },
{
    let n = results.len();
    let mut i: usize = 0;
    proof {
        assert(results.deep_view().skip(0) =~= results.deep_view());
    }
    while i < n
        invariant
            n == results@.len(),
            n == results.deep_view().len(),
            i <= n,
            spec_lookup(results.deep_view(), key@) == spec_lookup(
                results.deep_view().skip(i as int),
                key@,
            ),
        decreases n - i,
    {
        proof {
            let dv = results.deep_view();
            assert(dv.skip(i as int)[0] == dv[i as int]);
            assert(dv.skip(i as int).drop_first() =~= dv.skip(i + 1));
            assert(dv[i as int] == (results@[i as int].0@, results@[i as int].1@));
        }
        if str_eq_str(results[i].0.as_str(), key) {
            return Some(results[i].1.clone());
        }
        i = i + 1;
    }
    proof {
        assert(results.deep_view().skip(n as int) =~= Seq::<(Seq<char>, Seq<char>)>::empty());
    }
    None
}

} // verus!
