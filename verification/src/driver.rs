use vstd::prelude::*;
use vstd::set_lib::lemma_len_subset;
use vstd::string::StringExecFns;
use crate::errors::{CrawlError, FetchError};
use crate::extract::{extract_links, links_of};
use crate::frontier::{
    contains_key, entry_pair_listed, lemma_key_index, lemma_listed_lookup, lemma_lookup_listed,
    lemma_pending_pairs, listed, pair_of_pending_entry, pending_keys, pending_pairs, spec_applied,
    spec_lookup, unique_result_keys, EntryView,
};
use crate::page::PageView;
use crate::strutil::str_eq_str;
use crate::utils::{lemma_normalize_gives_valid_keys, spec_normalize, valid_key};
use crate::SimpleCrawler;

verus! {

broadcast use vstd::seq_lib::seq_to_set_is_finite;

/// What the fetch of one URL yielded: its body text, or the failure cause.
pub type FetchResult = Result<String, String>;

/// The response a fixed response table gives for the URL `k`: the first body
/// or failure cause listed under that URL, or nothing at all.
pub open spec fn spec_fetch(t: Seq<(String, FetchResult)>, k: Seq<char>) -> Option<
    Result<Seq<char>, Seq<char>>,
>
    decreases t.len(),
{
    if t.len() == 0 {
        None
    } else if t[0].0@ == k {
        Some(
            match t[0].1 {
                Ok(b) => Ok(b@),
                Err(c) => Err(c@),
            },
        )
    } else {
        spec_fetch(t.drop_first(), k)
    }
}

/// The URLs the response table answers for.
pub open spec fn table_keys(t: Seq<(String, FetchResult)>) -> Seq<Seq<char>>
    decreases t.len(),
{
    if t.len() == 0 {
        Seq::empty()
    } else {
        table_keys(t.drop_first()).push(t[0].0@)
    }
}

/// A URL the table answers for is among the table's keys.
pub proof fn lemma_fetch_in_keys(t: Seq<(String, FetchResult)>, k: Seq<char>)
    requires
        spec_fetch(t, k) is Some,
    ensures
        table_keys(t).contains(k),
    decreases t.len(),
{
    if t.len() > 0 {
        if t[0].0@ == k {
            assert(table_keys(t)[table_keys(t).len() - 1] == k);
        } else {
            lemma_fetch_in_keys(t.drop_first(), k);
            let d = table_keys(t.drop_first());
            let i = choose|i: int| 0 <= i < d.len() && d[i] == k;
            assert(table_keys(t)[i] == k);
        }
    }
}

/// Every accepted link of `body` is a key of `s`.
pub open spec fn links_included(base: Seq<char>, body: Seq<char>, s: Seq<EntryView>) -> bool {
    forall|l: int| 0 <= l < links_of(body).len() ==> #[trigger] link_present(base, body, l, s)
}

/// A page the crawl itself fetched: the table answers its URL with a body and
/// every accepted link of that body is a key of `s`.
pub open spec fn fetched_and_expanded(
    base: Seq<char>,
    t: Seq<(String, FetchResult)>,
    k: Seq<char>,
    s: Seq<EntryView>,
) -> bool {
    spec_fetch(t, k) matches Some(Ok(b)) && links_included(base, b, s)
}

/// The table answers `k` with a body.
pub open spec fn answered_ok(t: Seq<(String, FetchResult)>, k: Seq<char>) -> bool {
    spec_fetch(t, k) is Some && spec_fetch(t, k)->Some_0 is Ok
}

/// The body the table serves for `k` (meaningful when `answered_ok` holds).
pub open spec fn served_body(t: Seq<(String, FetchResult)>, k: Seq<char>) -> Seq<char> {
    spec_fetch(t, k)->Some_0->Ok_0
}

/// The URL `k` is reachable from the keys of `s0` in at most `n` link steps,
/// each step following an accepted link of a body the table serves.
pub open spec fn reachable_in(
    base: Seq<char>,
    t: Seq<(String, FetchResult)>,
    s0: Seq<EntryView>,
    k: Seq<char>,
    n: nat,
) -> bool
    decreases n,
{
    if contains_key(s0, k) {
        true
    } else if n == 0 {
        false
    } else {
        exists|u: Seq<char>, l: int|
            reachable_in(base, t, s0, u, (n - 1) as nat) && answered_ok(t, u) && 0 <= l < links_of(
                served_body(t, u),
            ).len() && #[trigger] spec_normalize(base, links_of(served_body(t, u))[l]) == Some(k)
    }
}

/// The URL `k` lies in the transitive closure of accepted links starting from
/// the keys of `s0`, following the bodies the table serves.
pub open spec fn reachable(
    base: Seq<char>,
    t: Seq<(String, FetchResult)>,
    s0: Seq<EntryView>,
    k: Seq<char>,
) -> bool {
    exists|n: nat| reachable_in(base, t, s0, k, n)
}

/// The table serves this crawl completely: every pending URL of `s0` is
/// answered with a body, and so is every accepted link of every served body.
pub open spec fn table_serves_crawl(
    base: Seq<char>,
    t: Seq<(String, FetchResult)>,
    s0: Seq<EntryView>,
) -> bool {
    &&& (forall|i: int|
        0 <= i < s0.len() && !(#[trigger] s0[i]).1.crawled ==> answered_ok(t, s0[i].0))
    &&& (forall|u: Seq<char>, l: int|
        answered_ok(t, u) && 0 <= l < links_of(served_body(t, u)).len() && (
        #[trigger] spec_normalize(base, links_of(served_body(t, u))[l])) is Some ==> answered_ok(
            t,
            spec_normalize(base, links_of(served_body(t, u))[l])->Some_0,
        ))
}

/// A URL the table serves the crawl for cannot fail: a reachable URL that no
/// crawled page of `s0` accounts for is answered with a body.
pub proof fn lemma_served_when_reachable(
    base: Seq<char>,
    t: Seq<(String, FetchResult)>,
    s0: Seq<EntryView>,
    k: Seq<char>,
)
    requires
        table_serves_crawl(base, t, s0),
        reachable(base, t, s0, k),
        !was_crawled(s0, k),
    ensures
        answered_ok(t, k),
{
    let n = choose|n: nat| reachable_in(base, t, s0, k, n);
    if contains_key(s0, k) {
        let j = choose|j: int| 0 <= j < s0.len() && s0[j].0 == k;
        assert(!s0[j].1.crawled);
    } else {
        assert(n > 0);
    }
}

/// The fetch of `u` failed: the table answers it with this cause, or not at
/// all.
pub open spec fn failed_fetch(t: Seq<(String, FetchResult)>, u: Seq<char>, c: Seq<char>) -> bool {
    spec_fetch(t, u) is None || spec_fetch(t, u) == Some(Err::<Seq<char>, Seq<char>>(c))
}

/// Looks up the response recorded for `key`, as `spec_fetch` states.
fn table_fetch(t: &Vec<(String, FetchResult)>, key: &str) -> (r: Option<FetchResult>)
    ensures
        match r {
            Some(Ok(b)) => spec_fetch(t@, key@) == Some(Ok::<Seq<char>, Seq<char>>(b@)),
            Some(Err(c)) => spec_fetch(t@, key@) == Some(Err::<Seq<char>, Seq<char>>(c@)),
            None => spec_fetch(t@, key@) is None,
        },
{
    let n = t.len();
    let mut i: usize = 0;
    proof {
        assert(t@.skip(0) =~= t@);
    }
    while i < n
        invariant
            n == t@.len(),
            i <= n,
            spec_fetch(t@, key@) == spec_fetch(t@.skip(i as int), key@),
        decreases n - i,
    {
        proof {
            assert(t@.skip(i as int)[0] == t@[i as int]);
            assert(t@.skip(i as int).drop_first() =~= t@.skip(i + 1));
        }
        if str_eq_str(t[i].0.as_str(), key) {
            let r = match &t[i].1 {
                Ok(b) => Ok(b.clone()),
                Err(c) => Err(c.clone()),
            };
            return Some(r);
        }
        i = i + 1;
    }
    proof {
        assert(t@.skip(n as int) =~= Seq::<(String, FetchResult)>::empty());
    }
    None
}

/// How an entry of the snapshot region looks once the round is over: a
/// pending page has been consumed and finished, a crawled one is untouched.
pub open spec fn spec_finished(p: PageView) -> PageView {
    if p.crawled {
        p
    } else {
        PageView::done()
    }
}

/// The URL `u` is the accepted normalization of some link found in the body
/// of some pending page of `pre`.
pub open spec fn discovered(base: Seq<char>, pre: Seq<EntryView>, u: Seq<char>) -> bool {
    exists|i: int, j: int|
        0 <= i < pre.len() && !pre[i].1.crawled && 0 <= j < links_of(pre[i].1.body).len()
            && spec_normalize(base, links_of(pre[i].1.body)[j]) == Some(u)
}

/// The `j`-th link of `body` is either rejected by normalization or its
/// accepted form is a key of `s`.
pub open spec fn link_present(base: Seq<char>, body: Seq<char>, j: int, s: Seq<EntryView>) -> bool {
    match spec_normalize(base, links_of(body)[j]) {
        Some(u) => contains_key(s, u),
        None => true,
    }
}

/// Every URL the extraction round discovers is a fit frontier key under the
/// base: it parses as an absolute URL on the base's host and holds no query
/// or fragment — the frontier's data-model invariant for new keys.
pub proof fn lemma_discovered_valid(base: Seq<char>, pre: Seq<EntryView>, u: Seq<char>)
    ensures
        discovered(base, pre, u) ==> valid_key(base, u),
{
    if discovered(base, pre, u) {
        let (i, j) = choose|i: int, j: int|
            0 <= i < pre.len() && !pre[i].1.crawled && 0 <= j < links_of(pre[i].1.body).len()
                && spec_normalize(base, links_of(pre[i].1.body)[j]) == Some(u);
        lemma_normalize_gives_valid_keys(base, links_of(pre[i].1.body)[j]);
    }
}

/// An entry added by the extraction round: a fresh pending page whose URL was
/// not a key before and was discovered in a pending body.
pub open spec fn fresh_entry(base: Seq<char>, pre: Seq<EntryView>, e: EntryView) -> bool {
    &&& e.1 == PageView::pending()
    &&& !contains_key(pre, e.0)
    &&& discovered(base, pre, e.0)
}

/// Everything one extraction round does to the frontier: the old entries keep
/// their keys and positions, pending ones are finished (marked crawled, body
/// cleared), crawled ones are untouched, every accepted link of a pending
/// body is a key afterwards, and everything appended is a fresh discovery.
pub open spec fn post_extract(base: Seq<char>, pre: Seq<EntryView>, post: Seq<EntryView>) -> bool {
    &&& pre.len() <= post.len()
    &&& (forall|i: int| 0 <= i < pre.len() ==> (#[trigger] post[i]).0 == pre[i].0)
    &&& (forall|i: int| 0 <= i < pre.len() ==> (#[trigger] post[i]).1 == spec_finished(pre[i].1))
    &&& (forall|i: int|
        pre.len() <= i < post.len() ==> fresh_entry(base, pre, #[trigger] post[i]))
    &&& (forall|i: int, j: int|
        0 <= i < pre.len() && !pre[i].1.crawled && 0 <= j < links_of(pre[i].1.body).len()
            ==> #[trigger] link_present(base, pre[i].1.body, j, post))
}

/// A key of `pre` whose page is already crawled.
pub open spec fn was_crawled(pre: Seq<EntryView>, k: Seq<char>) -> bool {
    exists|i: int| 0 <= i < pre.len() && pre[i].0 == k && pre[i].1.crawled
}

/// The key `k` occurs among the first `m` snapshot pairs.
pub open spec fn key_in_prefix(pp: Seq<(Seq<char>, Seq<char>)>, m: int, k: Seq<char>) -> bool {
    exists|j: int| 0 <= j < m && pp[j].0 == k
}

/// What the snapshot region's page at index `i` is after the first `m`
/// snapshot pairs have been consumed.
pub open spec fn entry_status(
    pre: Seq<EntryView>,
    pp: Seq<(Seq<char>, Seq<char>)>,
    m: int,
    i: int,
) -> PageView {
    if !pre[i].1.crawled && key_in_prefix(pp, m, pre[i].0) {
        PageView::done()
    } else {
        pre[i].1
    }
}

/// A frontier that extends another entry for entry has at least its keys.
pub proof fn lemma_contains_key_mono(s1: Seq<EntryView>, s2: Seq<EntryView>)
    requires
        s1.len() <= s2.len(),
        forall|i: int| 0 <= i < s1.len() ==> (#[trigger] s2[i]).0 == s1[i].0,
    ensures
        forall|k: Seq<char>| #[trigger] contains_key(s1, k) ==> contains_key(s2, k),
{
    assert forall|k: Seq<char>| #[trigger] contains_key(s1, k) implies contains_key(s2, k) by {
        let i = choose|i: int| 0 <= i < s1.len() && s1[i].0 == k;
        assert(s2[i].0 == k);
    }
}

/// Two complete result sets that list the same pairs, each with no URL listed
/// twice, write back exactly the same pages: dispatch strategies that differ
/// only in the completion order of their fetches update the frontier
/// identically.
pub proof fn lemma_apply_results_order_independent(
    s: Seq<EntryView>,
    rs1: Seq<(Seq<char>, Seq<char>)>,
    rs2: Seq<(Seq<char>, Seq<char>)>,
)
    requires
        unique_result_keys(rs1),
        unique_result_keys(rs2),
        forall|k: Seq<char>, b: Seq<char>| listed(rs1, k, b) <==> listed(rs2, k, b),
    ensures
        forall|i: int|
            0 <= i < s.len() ==> spec_applied(#[trigger] s[i], rs1) == spec_applied(s[i], rs2),
{
    assert forall|i: int|
        0 <= i < s.len() implies spec_applied(#[trigger] s[i], rs1) == spec_applied(s[i], rs2) by {
        let k = s[i].0;
        lemma_lookup_listed(rs1, k);
        lemma_lookup_listed(rs2, k);
        match spec_lookup(rs1, k) {
            Some(b) => {
                assert(listed(rs2, k, b));
                lemma_listed_lookup(rs2, k, b);
            },
            None => {
                match spec_lookup(rs2, k) {
                    Some(b2) => {
                        assert(listed(rs1, k, b2));
                        let j = choose|j: int|
                            0 <= j < rs1.len() && rs1[j].0 == k && rs1[j].1 == b2;
                        assert(false);
                    },
                    None => {},
                }
            },
        }
    }
}

/// A URL taken from the pending snapshot of the current frontier `cs` was
/// never crawled before the run started and is reachable from the initial
/// frontier `s0`, given the run's standing invariants relating the two.
proof fn lemma_failing_url_was_reached(
    base: Seq<char>,
    t: Seq<(String, FetchResult)>,
    s0: Seq<EntryView>,
    cs: Seq<EntryView>,
    snew: Set<Seq<char>>,
    pk: Seq<Seq<char>>,
    fi: int,
)
    requires
        pk == pending_keys(cs),
        0 <= fi < pk.len(),
        forall|i: int|
            0 <= i < cs.len() ==> ((#[trigger] cs[i]).1.crawled <==> was_crawled(s0, cs[i].0)
                || snew.contains(cs[i].0)),
        forall|i: int| 0 <= i < cs.len() ==> reachable(base, t, s0, (#[trigger] cs[i]).0),
    ensures
        !was_crawled(s0, pk[fi]),
        reachable(base, t, s0, pk[fi]),
        table_serves_crawl(base, t, s0) ==> answered_ok(t, pk[fi]),
{
    lemma_pending_pairs(cs);
    assert(pending_pairs(cs)[fi].0 == pk[fi]);
    assert(pair_of_pending_entry(cs, pending_pairs(cs)[fi]));
    let ei = choose|i: int|
        0 <= i < cs.len() && !cs[i].1.crawled && cs[i].0 == pending_pairs(cs)[fi].0
            && cs[i].1.body == pending_pairs(cs)[fi].1;
    assert(!was_crawled(s0, pk[fi]));
    assert(reachable(base, t, s0, pk[fi]));
    if table_serves_crawl(base, t, s0) {
        lemma_served_when_reachable(base, t, s0, pk[fi]);
    }
}


/// The (URL, body) pairs a round's outcomes carry; it reads every outcome as
/// a body, so it describes the write-back only when every outcome is one.
pub open spec fn outcome_pairs(os: Seq<(String, Result<String, String>)>) -> Seq<
    (Seq<char>, Seq<char>),
> {
    Seq::new(os.len(), |j: int| (os[j].0@, os[j].1->Ok_0@))
}

/// The frontier after a round's bodies are written back, entry by entry.
pub open spec fn applied_entries(s: Seq<EntryView>, rs: Seq<(Seq<char>, Seq<char>)>) -> Seq<
    EntryView,
> {
    Seq::new(s.len(), |i: int| spec_applied(s[i], rs))
}

impl SimpleCrawler {
    /// One extraction round, as the crawl driver runs it between fetch
    /// batches: for every pending page, extracts the anchor targets of its
    /// body, normalizes each against the base URL and inserts accepted ones
    /// that are new, then marks the page crawled and clears its body.
    #[verifier::loop_isolation(false)]
    pub fn get_urls(self) -> (r: SimpleCrawler)
        requires
            self.wf(),
        ensures
            r.wf(),
            r.spec_base() == self.spec_base(),
            post_extract(self.spec_base(), self.urls@, r.urls@),
    {
        let ghost base = self.spec_base();
        let ghost pre = self.urls@;
        let pairs: Vec<(String, String)> = self.urls.pending_pages();
        let ghost pp = pairs.deep_view();
        proof {
            lemma_pending_pairs(pre);
        }
        let n = pairs.len();
        let mut cur = self;
        let mut pi: usize = 0;
        while pi < n
            invariant
                cur.wf(),
                cur.spec_base() == base,
                pi <= n,
                pre.len() <= cur.urls@.len(),
                forall|i: int| 0 <= i < pre.len() ==> (#[trigger] cur.urls@[i]).0 == pre[i].0,
                forall|i: int|
                    0 <= i < pre.len() ==> (#[trigger] cur.urls@[i]).1 == entry_status(
                        pre,
                        pp,
                        pi as int,
                        i,
                    ),
                forall|i: int|
                    pre.len() <= i < cur.urls@.len() ==> fresh_entry(
                        base,
                        pre,
                        #[trigger] cur.urls@[i],
                    ),
                forall|j: int, l: int|
                    0 <= j < pi && 0 <= l < links_of(pp[j].1).len() ==> #[trigger] link_present(
                        base,
                        pp[j].1,
                        l,
                        cur.urls@,
                    ),
            decreases n - pi,
        {
            proof {
                assert(pp[pi as int] == (pairs@[pi as int].0@, pairs@[pi as int].1@));
                assert(pair_of_pending_entry(pre, pp[pi as int]));
            }
            let ghost i0 = choose|i: int|
                0 <= i < pre.len() && !pre[i].1.crawled && pre[i].0 == pp[pi as int].0
                    && pre[i].1.body == pp[pi as int].1;
            let key: String = pairs[pi].0.clone();
            let body: String = pairs[pi].1.clone();
            let links: Vec<String> = extract_links(body.as_str());
            let nl = links.len();
            let mut li: usize = 0;
            while li < nl
                invariant
                    li <= nl,
                    cur.wf(),
                    cur.spec_base() == base,
                    pre.len() <= cur.urls@.len(),
                    forall|i: int| 0 <= i < pre.len() ==> (#[trigger] cur.urls@[i]).0 == pre[i].0,
                    forall|i: int|
                        0 <= i < pre.len() ==> (#[trigger] cur.urls@[i]).1 == entry_status(
                            pre,
                            pp,
                            pi as int,
                            i,
                        ),
                    forall|i: int|
                        pre.len() <= i < cur.urls@.len() ==> fresh_entry(
                            base,
                            pre,
                            #[trigger] cur.urls@[i],
                        ),
                    forall|j: int, l: int|
                        0 <= j < pi && 0 <= l < links_of(pp[j].1).len() ==> #[trigger] link_present(
                            base,
                            pp[j].1,
                            l,
                            cur.urls@,
                        ),
                    forall|l: int|
                        0 <= l < li ==> #[trigger] link_present(base, pp[pi as int].1, l, cur.urls@),
                decreases nl - li,
            {
                proof {
                    assert(links.deep_view()[li as int] == links_of(pp[pi as int].1)[li as int]);
                }
                let ghost before = cur.urls@;
                match crate::utils::normalise_url(cur.base_url.as_str(), links[li].as_str()) {
                    Some(u) => {
                        cur.urls.insert_if_absent(u.as_str());
                        proof {
                            lemma_contains_key_mono(before, cur.urls@);
                            lemma_contains_key_mono(pre, before);
                            assert forall|j: int, l: int|
                                0 <= j < pi && 0 <= l < links_of(pp[j].1).len() implies
                                #[trigger] link_present(base, pp[j].1, l, cur.urls@) by {
                                assert(link_present(base, pp[j].1, l, before));
                            }
                            assert forall|l: int| 0 <= l < li + 1 implies #[trigger] link_present(
                                base,
                                pp[pi as int].1,
                                l,
                                cur.urls@,
                            ) by {
                                if l < li {
                                    assert(link_present(base, pp[pi as int].1, l, before));
                                }
                            }
                            assert forall|i: int|
                                pre.len() <= i < cur.urls@.len() implies fresh_entry(
                                base,
                                pre,
                                #[trigger] cur.urls@[i],
                            ) by {
                                if i < before.len() {
                                    assert(cur.urls@[i] == before[i]);
                                } else {
                                    assert(cur.urls@[i] == (u@, PageView::pending()));
                                    if contains_key(pre, u@) {
                                        assert(contains_key(before, u@));
                                        assert(false);
                                    }
                                    assert(spec_normalize(base, links_of(pp[pi as int].1)[li as int])
                                        == Some(u@));
                                    assert(discovered(base, pre, u@));
                                }
                            }
                        }
                    },
                    None => {},
                }
                li = li + 1;
            }
            let ghost before_mark = cur.urls@;
            proof {
                lemma_key_index(before_mark, key@, i0);
            }
            cur.urls.mark_crawled(key.as_str());
            let ghost mid = cur.urls@;
            proof {
                lemma_key_index(mid, key@, i0);
            }
            cur.urls.clear_body(key.as_str());
            proof {
                assert(cur.urls@[i0].1 == PageView::done());
                lemma_contains_key_mono(before_mark, cur.urls@);
                assert forall|i: int|
                    0 <= i < pre.len() implies (#[trigger] cur.urls@[i]).1 == entry_status(
                    pre,
                    pp,
                    pi + 1,
                    i,
                ) by {
                    if i == i0 {
                        assert(key_in_prefix(pp, pi + 1, pre[i].0));
                    } else {
                        assert(pre[i].0 != pre[i0].0);
                        assert(cur.urls@[i] == before_mark[i]);
                        assert(key_in_prefix(pp, pi + 1, pre[i].0) == key_in_prefix(
                            pp,
                            pi as int,
                            pre[i].0,
                        )) by {
                            if key_in_prefix(pp, pi + 1, pre[i].0) {
                                let j = choose|j: int| 0 <= j < pi + 1 && pp[j].0 == pre[i].0;
                                if j == pi {
                                    assert(false);
                                } else {
                                    assert(key_in_prefix(pp, pi as int, pre[i].0));
                                }
                            }
                        }
                    }
                }
                assert forall|j: int, l: int|
                    0 <= j < pi + 1 && 0 <= l < links_of(pp[j].1).len() implies
                    #[trigger] link_present(base, pp[j].1, l, cur.urls@) by {
                    assert(link_present(base, pp[j].1, l, before_mark));
                }
                assert forall|i: int|
                    pre.len() <= i < cur.urls@.len() implies fresh_entry(
                    base,
                    pre,
                    #[trigger] cur.urls@[i],
                ) by {
                    assert(cur.urls@[i] == before_mark[i]);
                }
            }
            pi = pi + 1;
        }
        proof {
            assert forall|i: int|
                0 <= i < pre.len() implies (#[trigger] cur.urls@[i]).1 == spec_finished(
                pre[i].1,
            ) by {
                if !pre[i].1.crawled {
                    assert(entry_pair_listed(pre, i));
                    let j = choose|j: int|
                        0 <= j < pending_pairs(pre).len() && pending_pairs(pre)[j] == (
                            pre[i].0,
                            pre[i].1.body,
                        );
                    assert(key_in_prefix(pp, n as int, pre[i].0));
                }
            }
            assert forall|i: int, j: int|
                0 <= i < pre.len() && !pre[i].1.crawled && 0 <= j < links_of(pre[i].1.body).len()
                implies #[trigger] link_present(base, pre[i].1.body, j, cur.urls@) by {
                assert(entry_pair_listed(pre, i));
                let jj = choose|jj: int|
                    0 <= jj < pending_pairs(pre).len() && pending_pairs(pre)[jj] == (
                        pre[i].0,
                        pre[i].1.body,
                    );
                assert(pp[jj].1 == pre[i].1.body);
                assert(link_present(base, pp[jj].1, j, cur.urls@));
            }
        }
        cur
    }


    /// Commits one round of fetch outcomes, as every dispatch strategy does:
    /// the first failed outcome aborts the whole crawl with that URL and its
    /// cause, and no partial result is committed; otherwise every body is
    /// written back and one extraction round runs.
    pub fn process_round(self, outcomes: Vec<(String, Result<String, String>)>) -> (r: Result<
        SimpleCrawler,
        CrawlError,
    >)
        requires
            self.wf(),
        ensures
            match r {
                Ok(c) => {
                    &&& (forall|j: int|
                        0 <= j < outcomes@.len() ==> (#[trigger] outcomes@[j]).1 is Ok)
                    &&& c.wf()
                    &&& c.spec_base() == self.spec_base()
                    &&& post_extract(
                        self.spec_base(),
                        applied_entries(self.urls@, outcome_pairs(outcomes@)),
                        c.urls@,
                    )
                },
                Err(e) => match e {
                    CrawlError::Aborted(fe) => exists|j: int|
                        0 <= j < outcomes@.len() && (#[trigger] outcomes@[j]).0@ == fe.url@
                            && outcomes@[j].1 is Err && outcomes@[j].1->Err_0@ == fe.cause@ && (
                        forall|l: int| 0 <= l < j ==> (#[trigger] outcomes@[l]).1 is Ok),
                    CrawlError::InvalidBaseUrl => false,
                },
            },
    {
        let ghost s0 = self.urls@;
        let n = outcomes.len();
        let mut bodies: Vec<(String, String)> = Vec::new();
        let mut i: usize = 0;
        while i < n
            invariant
                i <= n,
                n == outcomes@.len(),
                forall|l: int| 0 <= l < i ==> (#[trigger] outcomes@[l]).1 is Ok,
                bodies.deep_view() =~= outcome_pairs(outcomes@).take(i as int),
            decreases n - i,
        {
            match &outcomes[i].1 {
                Ok(b) => {
                    let ghost bprev = bodies.deep_view();
                    bodies.push((outcomes[i].0.clone(), b.clone()));
                    proof {
                        assert(bodies.deep_view() =~= bprev.push((outcomes@[i as int].0@, b@)));
                        assert(bodies.deep_view() =~= outcome_pairs(outcomes@).take(i + 1));
                    }
                },
                Err(c) => {
                    let failed = FetchError { url: outcomes[i].0.clone(), cause: c.clone() };
                    proof {
                        assert(outcomes@[i as int].0@ == failed.url@ && outcomes@[i as int].1
                            is Err && outcomes@[i as int].1->Err_0@ == failed.cause@);
                    }
                    return Err(CrawlError::Aborted(failed));
                },
            }
            i = i + 1;
        }
        proof {
            assert(outcome_pairs(outcomes@).take(n as int) =~= outcome_pairs(outcomes@));
        }
        let mut cur = self;
        cur.urls.apply_fetch_results(&bodies);
        proof {
            assert(cur.urls@ =~= applied_entries(s0, outcome_pairs(outcomes@)));
        }
        Ok(cur.get_urls())
    }

    /// Drives the fixed-point loop against a fixed table of responses: each
    /// round fetches every pending URL from the table and runs one extraction
    /// round, until no pending page remains. The first URL the table answers
    /// with a failure, or not at all, aborts the whole crawl; no partial
    /// frontier is returned.
    #[verifier::loop_isolation(false)]
    pub fn run_with_responses(self, responses: &Vec<(String, FetchResult)>) -> (r: Result<
        SimpleCrawler,
        CrawlError,
    >)
        requires
            self.wf(),
        ensures
            match r {
                Ok(c) => {
                    &&& c.wf()
                    &&& c.spec_base() == self.spec_base()
                    &&& (forall|i: int|
                        0 <= i < c.urls@.len() ==> (#[trigger] c.urls@[i]).1.crawled)
                    &&& (forall|i: int|
                        0 <= i < c.urls@.len() && !was_crawled(self.urls@, (#[trigger] c.urls@[i]).0)
                            ==> c.urls@[i].1.body == Seq::<char>::empty())
                    &&& (forall|k: Seq<char>|
                        #[trigger] contains_key(self.urls@, k) ==> contains_key(c.urls@, k))
                    &&& (forall|i: int|
                        0 <= i < c.urls@.len() && !was_crawled(self.urls@, (#[trigger] c.urls@[i]).0)
                            ==> fetched_and_expanded(
                            self.spec_base(),
                            responses@,
                            c.urls@[i].0,
                            c.urls@,
                        ))
                    &&& (forall|i: int|
                        0 <= i < c.urls@.len() ==> reachable(
                            self.spec_base(),
                            responses@,
                            self.urls@,
                            (#[trigger] c.urls@[i]).0,
                        ))
                    &&& ((forall|i: int|
                        0 <= i < self.urls@.len() && (#[trigger] self.urls@[i]).1.crawled
                            ==> self.urls@[i].1.body == Seq::<char>::empty()) ==> (forall|i: int|
                        0 <= i < c.urls@.len() ==> (#[trigger] c.urls@[i]).1.body == Seq::<
                            char,
                        >::empty()))
                },
                Err(e) => match e {
                    CrawlError::Aborted(fe) => failed_fetch(responses@, fe.url@, fe.cause@),
                    CrawlError::InvalidBaseUrl => false,
                },
            },
            (match r {
                Err(e) => match e {
                    CrawlError::Aborted(fe) => !was_crawled(self.urls@, fe.url@) && reachable(
                        self.spec_base(),
                        responses@,
                        self.urls@,
                        fe.url@,
                    ),
                    CrawlError::InvalidBaseUrl => true,
                },
                Ok(_) => true,
            }),
            table_serves_crawl(self.spec_base(), responses@, self.urls@) ==> r is Ok,
            pending_keys(self.urls@).len() == 0 ==> r is Ok,
    {
        let ghost base = self.spec_base();
        let ghost pre = self.urls@;
        let ghost tset = table_keys(responses@).to_set();
        let mut cur = self;
        let ghost mut snew: Set<Seq<char>> = Set::empty();
        proof {
            assert forall|i: int|
                0 <= i < cur.urls@.len() implies ((#[trigger] cur.urls@[i]).1.crawled
                <==> was_crawled(pre, cur.urls@[i].0) || snew.contains(cur.urls@[i].0)) by {
                if was_crawled(pre, cur.urls@[i].0) {
                    let j = choose|j: int|
                        0 <= j < pre.len() && pre[j].0 == cur.urls@[i].0 && pre[j].1.crawled;
                    assert(j == i);
                }
            }
        }
        proof {
            assert forall|i: int|
                0 <= i < cur.urls@.len() implies reachable(
                base,
                responses@,
                pre,
                (#[trigger] cur.urls@[i]).0,
            ) by {
                assert(pre[i].0 == cur.urls@[i].0);
                assert(reachable_in(base, responses@, pre, cur.urls@[i].0, 0));
            }
        }
        let mut pending_now = cur.urls.pending_count();
        while pending_now > 0
            invariant
                cur.wf(),
                cur.spec_base() == base,
                pending_now == pending_keys(cur.urls@).len(),
                pre.len() <= cur.urls@.len(),
                forall|i: int| 0 <= i < pre.len() ==> (#[trigger] cur.urls@[i]).0 == pre[i].0,
                snew.finite(),
                snew.subset_of(tset),
                snew.len() <= tset.len(),
                forall|k: Seq<char>| #[trigger] snew.contains(k) ==> contains_key(cur.urls@, k),
                forall|i: int|
                    0 <= i < cur.urls@.len() ==> ((#[trigger] cur.urls@[i]).1.crawled
                        <==> was_crawled(pre, cur.urls@[i].0) || snew.contains(cur.urls@[i].0)),
                forall|i: int|
                    0 <= i < cur.urls@.len() && (#[trigger] cur.urls@[i]).1.crawled && !was_crawled(
                        pre,
                        cur.urls@[i].0,
                    ) ==> cur.urls@[i].1.body == Seq::<char>::empty(),
                forall|i: int|
                    0 <= i < cur.urls@.len() && (#[trigger] cur.urls@[i]).1.crawled && !was_crawled(
                        pre,
                        cur.urls@[i].0,
                    ) ==> fetched_and_expanded(base, responses@, cur.urls@[i].0, cur.urls@),
                forall|i: int|
                    0 <= i < cur.urls@.len() ==> reachable(
                        base,
                        responses@,
                        pre,
                        (#[trigger] cur.urls@[i]).0,
                    ),
                forall|i: int|
                    0 <= i < pre.len() && (#[trigger] pre[i]).1.crawled ==> cur.urls@[i].1
                        == pre[i].1,
                forall|i: int|
                    pre.len() <= i < cur.urls@.len() ==> !contains_key(
                        pre,
                        (#[trigger] cur.urls@[i]).0,
                    ),
                pending_keys(pre).len() == 0 ==> cur.urls@ =~= pre,
            decreases tset.len() - snew.len(),
        {
            proof {
                if pending_keys(pre).len() == 0 {
                    assert(cur.urls@ == pre);
                    assert(false);
                }
            }
            let pend: Vec<String> = cur.urls.pending_urls();
            let ghost cs = cur.urls@;
            proof {
                lemma_pending_pairs(cs);
            }
            let n = pend.len();
            let mut results: Vec<(String, String)> = Vec::new();
            let mut fi: usize = 0;
            while fi < n
                invariant
                    fi <= n,
                    results.deep_view().len() == fi,
                    forall|j: int|
                        0 <= j < fi ==> (#[trigger] results.deep_view()[j]).0
                            == pend.deep_view()[j],
                    forall|j: int|
                        0 <= j < fi ==> spec_fetch(
                            responses@,
                            (#[trigger] results.deep_view()[j]).0,
                        ) == Some(Ok::<Seq<char>, Seq<char>>(results.deep_view()[j].1)),
                decreases n - fi,
            {
                let url = pend[fi].clone();
                proof {
                    assert(url@ == pend.deep_view()[fi as int]);
                }
                match table_fetch(responses, url.as_str()) {
                    Some(Ok(b)) => {
                        let ghost bv = b@;
                        let ghost uv = url@;
                        let ghost rprev = results.deep_view();
                        results.push((url, b));
                        proof {
                            assert(results.deep_view() =~= rprev.push((uv, bv)));
                        }
                    },
                    Some(Err(c)) => {
                        proof {
                            lemma_failing_url_was_reached(
                                base,
                                responses@,
                                pre,
                                cs,
                                snew,
                                pending_keys(cs),
                                fi as int,
                            );
                        }
                        return Err(CrawlError::Aborted(FetchError { url, cause: c }));
                    },
                    None => {
                        proof {
                            lemma_failing_url_was_reached(
                                base,
                                responses@,
                                pre,
                                cs,
                                snew,
                                pending_keys(cs),
                                fi as int,
                            );
                        }
                        let cause = String::from_str("no response recorded for this URL");
                        return Err(CrawlError::Aborted(FetchError { url, cause }));
                    },
                }
                fi = fi + 1;
            }
            let ghost rdv = results.deep_view();
            cur.urls.apply_fetch_results(&results);
            let ghost applied = cur.urls@;
            proof {
                assert forall|i: int|
                    0 <= i < cs.len() && !(#[trigger] cs[i]).1.crawled implies (applied[i].1.crawled
                    == false && applied[i].0 == cs[i].0 && spec_fetch(responses@, cs[i].0) == Some(
                    Ok::<Seq<char>, Seq<char>>(applied[i].1.body),
                )) by {
                    let k = cs[i].0;
                    assert(entry_pair_listed(cs, i));
                    let j = choose|j: int|
                        0 <= j < pending_pairs(cs).len() && pending_pairs(cs)[j] == (
                            cs[i].0,
                            cs[i].1.body,
                        );
                    assert(pending_pairs(cs)[j].0 == pending_keys(cs)[j]);
                    assert(pend.deep_view()[j] == k);
                    assert(rdv[j].0 == k);
                    lemma_lookup_listed(rdv, k);
                    match spec_lookup(rdv, k) {
                        None => {
                            assert(false);
                        },
                        Some(b) => {
                            let jj = choose|jj: int|
                                0 <= jj < rdv.len() && rdv[jj].0 == k && rdv[jj].1 == b;
                            assert(spec_fetch(responses@, k) == Some(Ok::<Seq<char>, Seq<char>>(b)));
                            assert(applied[i] == spec_applied(cs[i], rdv));
                        },
                    }
                }
                assert forall|i: int|
                    0 <= i < cs.len() && (#[trigger] cs[i]).1.crawled implies applied[i]
                    == cs[i] by {
                    assert(applied[i] == spec_applied(cs[i], rdv));
                }
            }
            cur = cur.get_urls();
            proof {
                let post = cur.urls@;
                let ghost pset = pending_keys(cs).to_set();
                let ghost snew2 = snew.union(pset);
                lemma_contains_key_mono(cs, post);
                lemma_contains_key_mono(pre, cs);
                // freshly crawled keys all come from the table
                assert forall|k: Seq<char>| #[trigger] pset.contains(k) implies tset.contains(
                    k,
                ) by {
                    let j = choose|j: int| 0 <= j < pending_keys(cs).len() && pending_keys(cs)[j] == k;
                    assert(pending_pairs(cs)[j].0 == k);
                    assert(pair_of_pending_entry(cs, pending_pairs(cs)[j]));
                    let i = choose|i: int|
                        0 <= i < cs.len() && !cs[i].1.crawled && cs[i].0 == pending_pairs(cs)[j].0
                            && cs[i].1.body == pending_pairs(cs)[j].1;
                    assert(spec_fetch(responses@, cs[i].0) is Some);
                    lemma_fetch_in_keys(responses@, k);
                    assert(table_keys(responses@).to_set().contains(k));
                }
                assert(snew2.subset_of(tset));
                assert(snew2.finite());
                lemma_len_subset(snew2, tset);
                // every key the new set names is already a key of the round's
                // starting frontier, hence of the new one
                assert forall|k: Seq<char>| #[trigger] snew2.contains(k) implies contains_key(
                    cs,
                    k,
                ) by {
                    if !snew.contains(k) {
                        assert(pending_keys(cs).contains(k));
                        let j = choose|j: int|
                            0 <= j < pending_keys(cs).len() && pending_keys(cs)[j] == k;
                        assert(pending_pairs(cs)[j].0 == k);
                        assert(pair_of_pending_entry(cs, pending_pairs(cs)[j]));
                        let i = choose|i: int|
                            0 <= i < cs.len() && !cs[i].1.crawled && cs[i].0 == pending_pairs(
                                cs,
                            )[j].0 && cs[i].1.body == pending_pairs(cs)[j].1;
                        assert(cs[i].0 == k);
                    }
                }
                // the crawled flags now match the enlarged set
                assert forall|i: int|
                    0 <= i < post.len() implies ((#[trigger] post[i]).1.crawled <==> was_crawled(
                    pre,
                    post[i].0,
                ) || snew2.contains(post[i].0)) by {
                    if i < cs.len() {
                        assert(post[i].1 == spec_finished(applied[i].1));
                        if !cs[i].1.crawled {
                            assert(entry_pair_listed(cs, i));
                            let j = choose|j: int|
                                0 <= j < pending_pairs(cs).len() && pending_pairs(cs)[j] == (
                                    cs[i].0,
                                    cs[i].1.body,
                                );
                            assert(pending_keys(cs)[j] == cs[i].0);
                            assert(pending_keys(cs).contains(cs[i].0));
                            assert(pset.contains(cs[i].0));
                        }
                    } else {
                        assert(fresh_entry(base, applied, post[i]));
                        if was_crawled(pre, post[i].0) {
                            assert(contains_key(pre, post[i].0));
                            assert(contains_key(applied, post[i].0));
                            assert(false);
                        }
                        if snew2.contains(post[i].0) {
                            assert(contains_key(cs, post[i].0));
                            assert(false);
                        }
                    }
                }
                // bodies of self-crawled pages are cleared
                assert forall|i: int|
                    0 <= i < post.len() && (#[trigger] post[i]).1.crawled && !was_crawled(
                    pre,
                    post[i].0,
                ) implies post[i].1.body == Seq::<char>::empty() by {
                    if i < cs.len() {
                        assert(post[i].1 == spec_finished(applied[i].1));
                        if cs[i].1.crawled {
                            assert(applied[i] == cs[i]);
                        }
                    }
                }
                // closure: every self-crawled page was fetched from the table
                // and its accepted links are keys
                assert forall|i: int|
                    0 <= i < post.len() && (#[trigger] post[i]).1.crawled && !was_crawled(
                    pre,
                    post[i].0,
                ) implies fetched_and_expanded(base, responses@, post[i].0, post) by {
                    if i < cs.len() {
                        if cs[i].1.crawled {
                            assert(applied[i] == cs[i]);
                            assert(fetched_and_expanded(base, responses@, cs[i].0, cs));
                            let b = spec_fetch(responses@, cs[i].0)->Some_0->Ok_0;
                            assert forall|l: int|
                                0 <= l < links_of(b).len() implies #[trigger] link_present(
                                base,
                                b,
                                l,
                                post,
                            ) by {
                                assert(link_present(base, b, l, cs));
                            }
                        } else {
                            let b = applied[i].1.body;
                            assert(spec_fetch(responses@, post[i].0) == Some(Ok::<
                                Seq<char>,
                                Seq<char>,
                            >(b)));
                            assert forall|l: int|
                                0 <= l < links_of(b).len() implies #[trigger] link_present(
                                base,
                                b,
                                l,
                                post,
                            ) by {
                                assert(link_present(base, applied[i].1.body, l, post));
                            }
                        }
                    }
                }
                // every key stays inside the transitive closure of accepted
                // links from the initial frontier
                assert forall|i: int|
                    0 <= i < post.len() implies reachable(
                    base,
                    responses@,
                    pre,
                    (#[trigger] post[i]).0,
                ) by {
                    if i < cs.len() {
                        assert(post[i].0 == cs[i].0);
                        assert(reachable(base, responses@, pre, cs[i].0));
                    } else {
                        assert(fresh_entry(base, applied, post[i]));
                        let (i2, j) = choose|i2: int, j: int|
                            0 <= i2 < applied.len() && !applied[i2].1.crawled && 0 <= j < links_of(
                                applied[i2].1.body,
                            ).len() && spec_normalize(base, links_of(applied[i2].1.body)[j])
                                == Some(post[i].0);
                        assert(!cs[i2].1.crawled) by {
                            if cs[i2].1.crawled {
                                assert(applied[i2] == cs[i2]);
                            }
                        }
                        assert(spec_fetch(responses@, applied[i2].0) == Some(Ok::<
                            Seq<char>,
                            Seq<char>,
                        >(applied[i2].1.body)));
                        assert(answered_ok(responses@, applied[i2].0));
                        assert(served_body(responses@, applied[i2].0) == applied[i2].1.body);
                        assert(applied[i2].0 == cs[i2].0);
                        assert(reachable(base, responses@, pre, applied[i2].0));
                        let n0 = choose|n: nat|
                            reachable_in(base, responses@, pre, applied[i2].0, n);
                        assert(spec_normalize(
                            base,
                            links_of(served_body(responses@, applied[i2].0))[j],
                        ) == Some(post[i].0));
                        assert(reachable_in(base, responses@, pre, post[i].0, n0 + 1));
                        assert(reachable(base, responses@, pre, post[i].0));
                    }
                }
                // pages crawled before the run are never touched
                assert forall|i: int|
                    0 <= i < pre.len() && (#[trigger] pre[i]).1.crawled implies post[i].1
                    == pre[i].1 by {
                    assert(cs[i].1 == pre[i].1);
                    assert(applied[i] == cs[i]);
                    assert(post[i].1 == spec_finished(applied[i].1));
                }
                // appended entries never carry an initial key
                assert forall|i: int|
                    pre.len() <= i < post.len() implies !contains_key(
                    pre,
                    (#[trigger] post[i]).0,
                ) by {
                    if i < cs.len() {
                        assert(post[i].0 == cs[i].0);
                        assert(applied[i] == spec_applied(cs[i], rdv));
                    } else {
                        assert(fresh_entry(base, applied, post[i]));
                        if contains_key(pre, post[i].0) {
                            assert(contains_key(cs, post[i].0));
                            let w = choose|w: int| 0 <= w < cs.len() && cs[w].0 == post[i].0;
                            assert(applied[w] == spec_applied(cs[w], rdv));
                            assert(applied[w].0 == post[i].0);
                            assert(contains_key(applied, post[i].0));
                            assert(false);
                        }
                    }
                }
                // the round strictly grows the set of self-crawled keys
                let k0 = pending_keys(cs)[0];
                assert(pending_pairs(cs)[0].0 == k0);
                assert(pair_of_pending_entry(cs, pending_pairs(cs)[0]));
                let i0 = choose|i: int|
                    0 <= i < cs.len() && !cs[i].1.crawled && cs[i].0 == pending_pairs(cs)[0].0
                        && cs[i].1.body == pending_pairs(cs)[0].1;
                assert(!snew.contains(k0));
                assert(pset.contains(k0));
                assert(snew2.contains(k0));
                assert(snew.subset_of(snew2.remove(k0)));
                lemma_len_subset(snew, snew2.remove(k0));
                assert(snew2.remove(k0).len() == snew2.len() - 1);
                assert(snew.len() < snew2.len());
                snew = snew2;
            }
            pending_now = cur.urls.pending_count();
        }
        proof {
            lemma_pending_pairs(cur.urls@);
            assert forall|i: int|
                0 <= i < cur.urls@.len() implies (#[trigger] cur.urls@[i]).1.crawled by {
                if !cur.urls@[i].1.crawled {
                    assert(entry_pair_listed(cur.urls@, i));
                    let j = choose|j: int|
                        0 <= j < pending_pairs(cur.urls@).len() && pending_pairs(cur.urls@)[j] == (
                            cur.urls@[i].0,
                            cur.urls@[i].1.body,
                        );
                    assert(false);
                }
            }
            lemma_contains_key_mono(pre, cur.urls@);
            if forall|i: int|
                0 <= i < pre.len() && (#[trigger] pre[i]).1.crawled ==> pre[i].1.body == Seq::<
                    char,
                >::empty() {
                assert forall|i: int| 0 <= i < cur.urls@.len() implies (#[trigger] cur.urls@[i]).1.body
                    == Seq::<char>::empty() by {
                    let k = cur.urls@[i].0;
                    if was_crawled(pre, k) {
                        let j = choose|j: int|
                            0 <= j < pre.len() && pre[j].0 == k && pre[j].1.crawled;
                        assert(contains_key(pre, k));
                        if i < pre.len() {
                            assert(cur.urls@[i].0 == pre[i].0);
                            assert(j == i);
                            assert(cur.urls@[i].1 == pre[i].1);
                        } else {
                            assert(false);
                        }
                    }
                }
            }
        }
        Ok(cur)
    }
}

} // verus!
