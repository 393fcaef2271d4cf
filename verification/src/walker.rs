//! The crawl engine.
//!
//! The traversal is a work queue over canonical URLs: `init` seeds it with
//! the canonicalized seed URL, `next_url` hands out the next page to fetch
//! (recording it as fetched), and `on_page` folds the hrefs found on that
//! page into the state — canonicalizing each one, recording new URLs in
//! the result set, and enqueueing new same-origin URLs when recursion is
//! enabled. `walk_sync` runs the whole traversal against pages that are
//! already in memory and is proved to terminate.
//!
//! The registry (`set`) always equals the fetched and pending URLs taken
//! together, holds no duplicates, and holds only same-origin URLs; this is
//! the invariant that bounds the traversal on cyclic link graphs.

use vstd::prelude::*;

use crate::canon::canon_of;
use crate::canon::canonicalize;
use crate::canon::is_absolute_spec;
use crate::canon::is_absolute_str;
use crate::canon::is_fragment_href;
use crate::canon::origin_of;
use crate::canon::origin_str;
use crate::canon::parse_defrag;
use crate::canon::parse_norm_of;
use crate::canon::resolve;
use crate::canon::resolve_spec;
use crate::canon::same_origin;
use crate::canon::same_origin_check;
use crate::canon::CanonOutcome;
use crate::strutil::lemma_strip_idempotent;
use crate::strutil::strip_slashes_spec;
use crate::strutil::strip_trailing_slashes;

verus! {

// ------------------------------------------------------------------
// Set membership helpers
// ------------------------------------------------------------------
proof fn lemma_to_set_push<A>(s: Seq<A>, x: A)
    ensures
        s.push(x).to_set() =~= s.to_set().insert(x),
{
    assert forall|y: A| s.push(x).to_set().contains(y) implies s.to_set().insert(x).contains(
        y,
    ) by {
        let i = choose|i: int| 0 <= i < s.push(x).len() && s.push(x)[i] == y;
        if i < s.len() {
            assert(s[i] == y);
        }
    }
    assert forall|y: A| s.to_set().insert(x).contains(y) implies s.push(x).to_set().contains(
        y,
    ) by {
        if y == x {
            assert(s.push(x)[s.len() as int] == y);
        } else {
            let i = choose|i: int| 0 <= i < s.len() && s[i] == y;
            assert(s.push(x)[i] == y);
        }
    }
}

proof fn lemma_to_set_drop_last<A>(s: Seq<A>)
    requires
        s.len() > 0,
    ensures
        s.drop_last().to_set().insert(s.last()) =~= s.to_set(),
{
    assert forall|y: A|
        s.drop_last().to_set().insert(s.last()).contains(y) implies s.to_set().contains(y) by {
        if y == s.last() {
            assert(s[s.len() - 1] == y);
        } else {
            let i = choose|i: int| 0 <= i < s.drop_last().len() && s.drop_last()[i] == y;
            assert(s[i] == y);
        }
    }
    assert forall|y: A|
        s.to_set().contains(y) implies s.drop_last().to_set().insert(s.last()).contains(y) by {
        let i = choose|i: int| 0 <= i < s.len() && s[i] == y;
        if i < s.len() - 1 {
            assert(s.drop_last()[i] == y);
        }
    }
}

// ------------------------------------------------------------------
// The result / registry set
// ------------------------------------------------------------------
/// A set of canonical URL strings, deduplicated by string value.
pub struct URLs {
    urls: Vec<String>,
}

impl URLs {
    /// The URLs in insertion order.
    pub closed spec fn seq_view(&self) -> Seq<Seq<char>> {
        self.urls@.map_values(|s: String| s@)
    }

    /// The URLs as a set.
    pub open spec fn set_view(&self) -> Set<Seq<char>> {
        self.seq_view().to_set()
    }

    /// No URL is held twice.
    pub open spec fn wf(&self) -> bool {
        self.seq_view().no_duplicates()
    }

    /// An empty set.
    pub fn new() -> (r: URLs)
        ensures
            r.wf(),
            r.seq_view() == Seq::<Seq<char>>::empty(),
            r.set_view() =~= Set::<Seq<char>>::empty(),
    {
        let r = URLs { urls: Vec::new() };
        proof {
            assert(r.seq_view() =~= Seq::<Seq<char>>::empty());
        }
        r
    }

    /// How many URLs are held.
    pub fn len(&self) -> (n: usize)
        ensures
            n == self.seq_view().len(),
    {
        self.urls.len()
    }

    /// The URL at position `i`.
    pub fn get(&self, i: usize) -> (r: &String)
        requires
            i < self.seq_view().len(),
        ensures
            r@ == self.seq_view()[i as int],
    {
        &self.urls[i]
    }

    /// Whether `u` is already held.
    pub fn contains(&self, u: &String) -> (r: bool)
        ensures
            r == self.set_view().contains(u@),
            r == self.seq_view().contains(u@),
    {
        let mut i: usize = 0;
        while i < self.urls.len()
            invariant
                i <= self.urls.len(),
                forall|k: int| 0 <= k < i ==> self.seq_view()[k] != u@,
            decreases self.urls.len() - i,
        {
            if self.urls[i] == *u {
                assert(self.seq_view()[i as int] == u@);
                return true;
            }
            i += 1;
        }
        assert(!self.seq_view().contains(u@));
        false
    }

    /// `url` with its trailing slashes removed.
    pub fn remove_trailing_slashes(&self, url: String) -> (r: String)
        ensures
            r@ == strip_slashes_spec(url@),
    {
        strip_trailing_slashes(&url)
    }

    /// Insert a URL after stripping its trailing slashes; empty strings
    /// and URLs already held are ignored.
    pub fn insert_and_remove_trailing_slashes(&mut self, value: String)
        requires
            old(self).wf(),
        ensures
            final(self).wf(),
            value@.len() == 0 ==> final(self).seq_view() == old(self).seq_view(),
            value@.len() > 0 && old(self).set_view().contains(strip_slashes_spec(value@))
                ==> final(self).seq_view() == old(self).seq_view(),
            value@.len() > 0 && !old(self).set_view().contains(strip_slashes_spec(value@))
                ==> final(self).seq_view() == old(self).seq_view().push(
                strip_slashes_spec(value@),
            ),
            value@.len() > 0 ==> final(self).set_view() == old(self).set_view().insert(
                strip_slashes_spec(value@),
            ),
            value@.len() == 0 ==> final(self).set_view() == old(self).set_view(),
    {
        if !value.as_str().is_empty() {
            let stripped = strip_trailing_slashes(&value);
            if !self.contains(&stripped) {
                proof {
                    lemma_to_set_push(self.seq_view(), stripped@);
                }
                let ghost pre = self.seq_view();
                self.urls.push(stripped);
                proof {
                    assert(self.seq_view() =~= pre.push(strip_slashes_spec(value@)));
                }
            } else {
                proof {
                    assert(self.set_view().insert(strip_slashes_spec(value@))
                        =~= self.set_view());
                }
            }
        }
    }

    /// A copy of this set.
    pub fn duplicate(&self) -> (r: URLs)
        ensures
            r.seq_view() == self.seq_view(),
    {
        let mut v: Vec<String> = Vec::new();
        let mut i: usize = 0;
        while i < self.urls.len()
            invariant
                i <= self.urls.len(),
                v@.len() == i,
                forall|k: int| 0 <= k < i ==> v@[k]@ == self.seq_view()[k],
            decreases self.urls.len() - i,
        {
            v.push(self.urls[i].clone());
            i += 1;
        }
        let r = URLs { urls: v };
        proof {
            assert forall|k: int| 0 <= k < r.seq_view().len() implies r.seq_view()[k]
                == self.seq_view()[k] by {
                assert(r.seq_view()[k] == v@[k]@);
            }
            assert(r.seq_view() =~= self.seq_view());
        }
        r
    }
}

// ------------------------------------------------------------------
// The abstract crawl state and its transition
// ------------------------------------------------------------------
/// The mathematical state of a traversal: the registry of URLs already
/// fetched or enqueued, the queue of pages still to fetch, the result
/// set, and the history of pages handed out for fetching.
#[verifier::ext_equal]
pub ghost struct WalkState {
    pub registry: Set<Seq<char>>,
    pub pending: Seq<Seq<char>>,
    pub results: Set<Seq<char>>,
    pub fetched: Seq<Seq<char>>,
}

/// The effect of one href found on the page `base`: hrefs that denote no
/// canonical URL change nothing; a URL already registered changes
/// nothing; a new URL always enters the results, and enters the registry
/// and the queue exactly when recursion is on and it is same-origin.
pub open spec fn href_step(
    st: WalkState,
    origin: Seq<char>,
    follow: bool,
    base: Seq<char>,
    h: Seq<char>,
) -> WalkState {
    match canon_of(base, h) {
        None => st,
        Some(u) => {
            if st.registry.contains(u) {
                st
            } else if follow && same_origin(u, origin) {
                WalkState {
                    registry: st.registry.insert(u),
                    pending: st.pending.push(u),
                    results: st.results.insert(u),
                    fetched: st.fetched,
                }
            } else {
                WalkState {
                    registry: st.registry,
                    pending: st.pending,
                    results: st.results.insert(u),
                    fetched: st.fetched,
                }
            }
        },
    }
}

/// The effect of a whole page: its hrefs applied in order.
pub open spec fn page_steps(
    st: WalkState,
    origin: Seq<char>,
    follow: bool,
    base: Seq<char>,
    hrefs: Seq<Seq<char>>,
) -> WalkState
    decreases hrefs.len(),
{
    if hrefs.len() == 0 {
        st
    } else {
        page_steps(href_step(st, origin, follow, base, hrefs[0]), origin, follow, base,
        hrefs.drop_first())
    }
}

/// The crawl invariant: the queue and the fetch history hold no
/// duplicates and do not overlap, the registry is exactly their union,
/// and everything registered lies on the traversal's origin.
pub open spec fn walk_inv(st: WalkState, origin: Seq<char>) -> bool {
    &&& st.pending.no_duplicates()
    &&& st.fetched.no_duplicates()
    &&& st.pending.disjoint(st.fetched)
    &&& st.registry == st.pending.to_set() + st.fetched.to_set()
    &&& forall|u: Seq<char>| #[trigger] st.registry.contains(u) ==> same_origin(u, origin)
}

/// One href keeps the invariant; it never touches the fetch history and
/// only grows the registry and results.
proof fn lemma_href_step_inv(
    st: WalkState,
    origin: Seq<char>,
    follow: bool,
    base: Seq<char>,
    h: Seq<char>,
)
    requires
        walk_inv(st, origin),
    ensures
        walk_inv(href_step(st, origin, follow, base, h), origin),
        href_step(st, origin, follow, base, h).fetched == st.fetched,
        st.registry.subset_of(href_step(st, origin, follow, base, h).registry),
        st.results.subset_of(href_step(st, origin, follow, base, h).results),
{
    let st2 = href_step(st, origin, follow, base, h);
    match canon_of(base, h) {
        None => {},
        Some(u) => {
            if !st.registry.contains(u) && follow && same_origin(u, origin) {
                assert(!st.pending.to_set().contains(u));
                assert(!st.pending.contains(u));
                assert(!st.fetched.to_set().contains(u));
                assert(!st.fetched.contains(u));
                assert(st2.pending.no_duplicates()) by {
                    assert(forall|i: int|
                        0 <= i < st.pending.len() ==> st2.pending[i] == st.pending[i]);
                }
                assert(st2.pending.disjoint(st2.fetched));
                lemma_to_set_push(st.pending, u);
                assert(st2.registry =~= st2.pending.to_set() + st2.fetched.to_set());
            }
        },
    }
}

/// A whole page keeps the invariant, never touches the fetch history,
/// and only grows the registry and results.
proof fn lemma_page_steps_inv(
    st: WalkState,
    origin: Seq<char>,
    follow: bool,
    base: Seq<char>,
    hrefs: Seq<Seq<char>>,
)
    requires
        walk_inv(st, origin),
    ensures
        walk_inv(page_steps(st, origin, follow, base, hrefs), origin),
        page_steps(st, origin, follow, base, hrefs).fetched == st.fetched,
        st.registry.subset_of(page_steps(st, origin, follow, base, hrefs).registry),
        st.results.subset_of(page_steps(st, origin, follow, base, hrefs).results),
    decreases hrefs.len(),
{
    if hrefs.len() > 0 {
        lemma_href_step_inv(st, origin, follow, base, hrefs[0]);
        lemma_page_steps_inv(
            href_step(st, origin, follow, base, hrefs[0]),
            origin,
            follow,
            base,
            hrefs.drop_first(),
        );
    }
}

/// Folding the hrefs one further: the page fold over `hrefs.push(h)` is
/// the fold over `hrefs` followed by the step for `h`.
proof fn lemma_page_steps_snoc(
    st: WalkState,
    origin: Seq<char>,
    follow: bool,
    base: Seq<char>,
    hrefs: Seq<Seq<char>>,
    h: Seq<char>,
)
    ensures
        page_steps(st, origin, follow, base, hrefs.push(h)) == href_step(
            page_steps(st, origin, follow, base, hrefs),
            origin,
            follow,
            base,
            h,
        ),
    decreases hrefs.len(),
{
    if hrefs.len() == 0 {
        assert(hrefs.push(h)[0] == h);
        assert(hrefs.push(h).drop_first() =~= Seq::<Seq<char>>::empty());
        let st1 = href_step(st, origin, follow, base, h);
        assert(page_steps(st, origin, follow, base, hrefs.push(h)) == page_steps(st1, origin,
        follow, base, hrefs.push(h).drop_first()));
        assert(page_steps(st1, origin, follow, base, Seq::<Seq<char>>::empty()) == st1);
        assert(page_steps(st, origin, follow, base, hrefs) == st);
    } else {
        assert(hrefs.push(h)[0] == hrefs[0]);
        assert(hrefs.push(h).drop_first() =~= hrefs.drop_first().push(h));
        let st1 = href_step(st, origin, follow, base, hrefs[0]);
        assert(page_steps(st, origin, follow, base, hrefs.push(h)) == page_steps(st1, origin,
        follow, base, hrefs.drop_first().push(h)));
        lemma_page_steps_snoc(st1, origin, follow, base, hrefs.drop_first(), h);
        assert(page_steps(st, origin, follow, base, hrefs) == page_steps(st1, origin, follow,
        base, hrefs.drop_first()));
    }
}

// ------------------------------------------------------------------
// The engine
// ------------------------------------------------------------------
/// The seed URL could not be parsed as an absolute URL with an origin;
/// this is the only error that aborts a traversal before it starts.
#[derive(Debug)]
pub struct SeedParseError;

/// The crawl engine's state: the seed URL, the recursion and debug
/// flags, the visited registry, and the traversal bookkeeping.
pub struct Args {
    url: String,
    search_relative: bool,
    debug: bool,
    set: URLs,
    origin: String,
    pending: Vec<String>,
    found: URLs,
    fetched: Ghost<Seq<Seq<char>>>,
}

impl Args {
    /// The seed URL as given.
    pub closed spec fn url_view(&self) -> Seq<char> {
        self.url@
    }

    /// Whether same-origin pages are crawled recursively.
    pub closed spec fn relative_flag(&self) -> bool {
        self.search_relative
    }

    /// The debug flag as given.
    pub closed spec fn debug_flag(&self) -> bool {
        self.debug
    }

    /// The registry in insertion order.
    pub closed spec fn registry_seq(&self) -> Seq<Seq<char>> {
        self.set.seq_view()
    }

    /// The queue of pages still to fetch.
    pub closed spec fn pending_view(&self) -> Seq<Seq<char>> {
        self.pending@.map_values(|s: String| s@)
    }

    /// The traversal origin.
    pub closed spec fn origin_view(&self) -> Seq<char> {
        self.origin@
    }

    /// The pages handed out for fetching so far.
    pub closed spec fn fetched_view(&self) -> Seq<Seq<char>> {
        self.fetched@
    }

    /// The result set discovered so far.
    pub closed spec fn results_view(&self) -> Set<Seq<char>> {
        self.found.set_view()
    }

    /// The result list discovered so far, in insertion order.
    pub closed spec fn results_seq(&self) -> Seq<Seq<char>> {
        self.found.seq_view()
    }

    /// The result set holds no duplicates.
    pub closed spec fn results_wf(&self) -> bool {
        self.found.wf()
    }

    /// The registry holds no duplicates.
    pub closed spec fn registry_wf(&self) -> bool {
        self.set.wf()
    }

    /// The abstract state of this engine.
    pub closed spec fn walk_view(&self) -> WalkState {
        WalkState {
            registry: self.set.set_view(),
            pending: self.pending_view(),
            results: self.found.set_view(),
            fetched: self.fetched@,
        }
    }

    /// The engine is well-formed for crawling.
    pub open spec fn crawl_wf(&self) -> bool {
        &&& self.registry_wf()
        &&& self.results_wf()
        &&& walk_inv(self.walk_view(), self.origin_view())
    }

    /// The configuration fields are the same in both states.
    pub open spec fn same_config(&self, o: &Args) -> bool {
        &&& self.url_view() == o.url_view()
        &&& self.relative_flag() == o.relative_flag()
        &&& self.debug_flag() == o.debug_flag()
        &&& self.origin_view() == o.origin_view()
    }

    /// A fresh engine for `url`; `search_relative` decides whether
    /// same-origin pages are crawled recursively.
    pub fn new(url: String, search_relative: bool, debug: bool, set: URLs) -> (r: Args)
        ensures
            r.url_view() == url@,
            r.relative_flag() == search_relative,
            r.debug_flag() == debug,
            r.registry_seq() == set.seq_view(),
            r.origin_view() == Seq::<char>::empty(),
            r.pending_view() =~= Seq::<Seq<char>>::empty(),
            r.fetched_view() == Seq::<Seq<char>>::empty(),
            r.results_seq() == Seq::<Seq<char>>::empty(),
    {
        let r = Args {
            url,
            search_relative,
            debug,
            set,
            origin: String::new(),
            pending: Vec::new(),
            found: URLs::new(),
            fetched: Ghost(Seq::empty()),
        };
        proof {
            assert(r.pending_view() =~= Seq::<Seq<char>>::empty());
        }
        r
    }

    /// The seed URL.
    pub fn seed_url(&self) -> (r: &String)
        ensures
            r@ == self.url_view(),
    {
        &self.url
    }

    /// The debug flag.
    pub fn debug_enabled(&self) -> (r: bool)
        ensures
            r == self.debug_flag(),
    {
        self.debug
    }

    /// The visited registry.
    pub fn registry_urls(&self) -> (r: &URLs)
        ensures
            r.seq_view() == self.registry_seq(),
    {
        &self.set
    }

    /// The result set discovered so far.
    pub fn found_urls(&self) -> (r: &URLs)
        ensures
            r.seq_view() == self.results_seq(),
    {
        &self.found
    }

    /// The traversal origin computed by `init`.
    pub fn origin_string(&self) -> (r: &String)
        ensures
            r@ == self.origin_view(),
    {
        &self.origin
    }

    /// Canonicalize the seed URL, compute the traversal origin, and seed
    /// the registry and the queue. Fails exactly when the seed does not
    /// parse as an absolute URL or has no origin.
    pub fn init(&mut self) -> (r: Result<(), SeedParseError>)
        requires
            old(self).registry_seq() == Seq::<Seq<char>>::empty(),
            old(self).pending_view() == Seq::<Seq<char>>::empty(),
            old(self).fetched_view() == Seq::<Seq<char>>::empty(),
            old(self).results_seq() == Seq::<Seq<char>>::empty(),
        ensures
            final(self).url_view() == old(self).url_view(),
            final(self).relative_flag() == old(self).relative_flag(),
            final(self).debug_flag() == old(self).debug_flag(),
            r is Ok <==> (match parse_norm_of(old(self).url_view()) {
                Some(t) => origin_of(strip_slashes_spec(t)) is Some,
                None => false,
            }),
            r is Err ==> *final(self) == *old(self),
            r is Ok ==> ({
                let u = strip_slashes_spec(parse_norm_of(old(self).url_view())->0);
                &&& final(self).crawl_wf()
                &&& final(self).pending_view() == seq![u]
                &&& final(self).walk_view().registry == set![u]
                &&& final(self).results_view() =~= Set::<Seq<char>>::empty()
                &&& final(self).fetched_view() == Seq::<Seq<char>>::empty()
                &&& same_origin(u, final(self).origin_view())
            }),
    {
        let t = match parse_defrag(self.url.as_str()) {
            Some(t) => t,
            None => {
                return Err(SeedParseError);
            },
        };
        let u = strip_trailing_slashes(&t);
        let o = match origin_str(u.as_str()) {
            Some(o) => o,
            None => {
                return Err(SeedParseError);
            },
        };
        self.origin = o;
        self.set.insert_and_remove_trailing_slashes(u.clone());
        proof {
            lemma_strip_idempotent(t@);
            assert(self.set.seq_view() =~= seq![u@]);
            assert(self.set.set_view() =~= set![u@]);
        }
        self.pending.push(u);
        proof {
            assert(self.pending_view() =~= seq![strip_slashes_spec(t@)]);
            assert(self.pending_view().to_set() + self.fetched@.to_set() =~= set![
                strip_slashes_spec(t@),
            ]);
            assert(self.walk_view().registry =~= set![strip_slashes_spec(t@)]);
        }
        Ok(())
    }

    /// Hand out the next page to fetch, moving it from the queue to the
    /// fetch history. A page is handed out at most once per traversal,
    /// and always lies on the traversal's origin.
    pub fn next_url(&mut self) -> (r: Option<String>)
        requires
            old(self).crawl_wf(),
        ensures
            final(self).crawl_wf(),
            final(self).same_config(old(self)),
            final(self).registry_seq() == old(self).registry_seq(),
            final(self).results_seq() == old(self).results_seq(),
            match r {
                None => {
                    &&& final(self).walk_view() == old(self).walk_view()
                    &&& final(self).fetched_view() == old(self).fetched_view()
                    &&& old(self).pending_view().len() == 0
                },
                Some(u) => {
                    &&& old(self).pending_view().len() > 0
                    &&& u@ == old(self).pending_view().last()
                    &&& final(self).pending_view() == old(self).pending_view().drop_last()
                    &&& final(self).fetched_view() == old(self).fetched_view().push(u@)
                    &&& !old(self).fetched_view().contains(u@)
                    &&& old(self).walk_view().registry.contains(u@)
                    &&& same_origin(u@, old(self).origin_view())
                },
            },
    {
        match self.pending.pop() {
            Some(u) => {
                proof {
                    assert(self.pending_view() =~= old(self).pending_view().drop_last());
                    let pv = old(self).pending_view();
                    assert(pv[pv.len() - 1] == u@);
                    assert(pv.contains(u@));
                    assert(pv.to_set().contains(u@));
                    assert(old(self).walk_view().registry.contains(u@));
                    if old(self).fetched_view().contains(u@) {
                        let j = choose|j: int|
                            0 <= j < old(self).fetched_view().len() && old(
                                self,
                            ).fetched_view()[j] == u@;
                        assert(false);
                    }
                }
                let ghost prefetched = self.fetched@;
                self.fetched = Ghost(self.fetched@.push(u@));
                proof {
                    let st = self.walk_view();
                    let pre = old(self).walk_view();
                    assert(st.fetched.no_duplicates()) by {
                        assert(forall|i: int|
                            0 <= i < prefetched.len() ==> st.fetched[i] == prefetched[i]);
                    }
                    assert(st.pending.disjoint(st.fetched)) by {
                        assert(forall|i: int|
                            0 <= i < st.pending.len() ==> pre.pending[i] == st.pending[i]);
                        assert(forall|i: int, j: int|
                            0 <= i < st.pending.len() && 0 <= j < prefetched.len()
                                ==> st.pending[i] != st.fetched[j]);
                        assert(forall|i: int|
                            0 <= i < st.pending.len() ==> st.pending[i] != u@);
                    }
                    lemma_to_set_drop_last(pre.pending);
                    lemma_to_set_push(prefetched, u@);
                    assert(st.registry =~= st.pending.to_set() + st.fetched.to_set());
                }
                Some(u)
            },
            None => {
                proof {
                    assert(self.pending_view() =~= old(self).pending_view());
                    assert(self.walk_view() =~= old(self).walk_view());
                }
                None
            },
        }
    }

    /// Fold the hrefs extracted from the page `base` into the traversal
    /// state, exactly as `page_steps` describes.
    pub fn on_page(&mut self, base: &String, hrefs: &Vec<String>)
        requires
            old(self).crawl_wf(),
        ensures
            final(self).crawl_wf(),
            final(self).same_config(old(self)),
            final(self).fetched_view() == old(self).fetched_view(),
            final(self).walk_view() == page_steps(
                old(self).walk_view(),
                old(self).origin_view(),
                old(self).relative_flag(),
                base@,
                hrefs.deep_view(),
            ),
    {
        let ghost st0 = self.walk_view();
        let ghost o = self.origin@;
        let ghost fl = self.search_relative;
        let mut i: usize = 0;
        while i < hrefs.len()
            invariant
                i <= hrefs.len(),
                self.crawl_wf(),
                self.same_config(old(self)),
                self.origin@ == o,
                self.search_relative == fl,
                self.fetched_view() == old(self).fetched_view(),
                self.walk_view() == page_steps(st0, o, fl, base@, hrefs.deep_view().take(
                    i as int,
                )),
                st0 == old(self).walk_view(),
            decreases hrefs.len() - i,
        {
            let ghost pre = self.walk_view();
            let href = &hrefs[i];
            proof {
                assert(hrefs.deep_view()[i as int] == href@);
            }
            match canonicalize(base.as_str(), href.as_str()) {
                CanonOutcome::Url(u) => {
                    if !self.set.contains(&u) {
                        self.found.insert_and_remove_trailing_slashes(u.clone());
                        proof {
                            assert(strip_slashes_spec(u@) == u@);
                            assert(self.found.set_view() == pre.results.insert(u@));
                        }
                        if self.search_relative && same_origin_check(&u, &self.origin) {
                            self.set.insert_and_remove_trailing_slashes(u.clone());
                            self.pending.push(u);
                            proof {
                                assert(self.pending_view() =~= pre.pending.push(u@));
                                assert(self.walk_view() =~= href_step(pre, o, fl, base@,
                                href@));
                            }
                        } else {
                            proof {
                                assert(self.pending_view() =~= pre.pending);
                                assert(self.walk_view() =~= href_step(pre, o, fl, base@,
                                href@));
                            }
                        }
                    } else {
                        proof {
                            assert(self.walk_view() =~= href_step(pre, o, fl, base@, href@));
                        }
                    }
                },
                CanonOutcome::Fragment => {
                    proof {
                        assert(self.walk_view() =~= href_step(pre, o, fl, base@, href@));
                    }
                },
                CanonOutcome::Malformed => {
                    proof {
                        assert(self.walk_view() =~= href_step(pre, o, fl, base@, href@));
                    }
                },
            }
            proof {
                lemma_href_step_inv(pre, o, fl, base@, href@);
                lemma_page_steps_snoc(st0, o, fl, base@, hrefs.deep_view().take(i as int),
                href@);
                assert(hrefs.deep_view().take(i as int).push(href@) =~= hrefs.deep_view().take(
                    i + 1,
                ));
            }
            i += 1;
        }
        proof {
            assert(hrefs.deep_view().take(hrefs.len() as int) =~= hrefs.deep_view());
        }
    }

    /// Whether `url` is an absolute URL reference (it carries a scheme
    /// and is not a Windows drive path).
    pub fn is_absolute_url(&self, url: &str) -> (r: bool)
        ensures
            r == is_absolute_spec(url@),
    {
        is_absolute_str(url)
    }

    /// Whether `url` is a relative reference.
    pub fn is_relative_url(&self, url: &str) -> (r: bool)
        ensures
            r == !is_absolute_spec(url@),
    {
        !is_absolute_str(url)
    }

    /// Parse `url` and drop its fragment; `None` when it does not parse
    /// as an absolute URL.
    pub fn remove_fragment(&self, url: String) -> (r: Option<String>)
        ensures
            match r {
                Some(t) => parse_norm_of(url@) == Some(t@),
                None => parse_norm_of(url@) is None,
            },
    {
        parse_defrag(url.as_str())
    }

    /// `url` with its trailing slashes removed.
    pub fn remove_trailing_slashes(&self, url: String) -> (r: String)
        ensures
            r@ == strip_slashes_spec(url@),
    {
        strip_trailing_slashes(&url)
    }

    /// Resolve `href` against this engine's seed URL, dropping the
    /// fragment; `None` when resolution fails.
    pub fn get_effective_href(&self, href: String) -> (r: Option<String>)
        ensures
            match r {
                Some(t) => resolve_spec(self.url_view(), href@) == Some(t@),
                None => resolve_spec(self.url_view(), href@) is None,
            },
    {
        resolve(self.url.as_str(), href.as_str())
    }

    /// The base of `url`: its origin with path and query cleared, ending
    /// in a single slash. Errs on URLs that do not parse or carry no
    /// authority.
    pub fn base_url(&self, url: String) -> (r: Result<String, String>)
        ensures
            match r {
                Ok(o) => match parse_norm_of(url@) {
                    Some(t) => origin_of(t) matches Some(g) && o@ == g + "/"@,
                    None => false,
                },
                Err(m) => m@ == "Cannot base URL"@ && (match parse_norm_of(url@) {
                    Some(t) => origin_of(t) is None,
                    None => true,
                }),
            },
    {
        match parse_defrag(url.as_str()) {
            Some(t) => match origin_str(t.as_str()) {
                Some(o) => Ok(o.concat("/")),
                None => Err(String::from_str("Cannot base URL")),
            },
            None => Err(String::from_str("Cannot base URL")),
        }
    }
}

// ------------------------------------------------------------------
// The whole traversal over pages held in memory
// ------------------------------------------------------------------
/// A page as the link extractor reports it: its URL and the raw href
/// values of its anchor tags.
pub struct Page {
    pub url: String,
    pub hrefs: Vec<String>,
}

/// The hrefs of the first page in `pages` whose URL is `u`; empty when
/// no page matches.
pub open spec fn page_links(pages: Seq<Page>, u: Seq<char>) -> Seq<Seq<char>>
    decreases pages.len(),
{
    if pages.len() == 0 {
        Seq::empty()
    } else if pages[0].url@ == u {
        pages[0].hrefs.deep_view()
    } else {
        page_links(pages.drop_first(), u)
    }
}

/// Whether some page in `pages` has the URL `u`.
pub open spec fn has_page(pages: Seq<Page>, u: Seq<char>) -> bool
    decreases pages.len(),
{
    if pages.len() == 0 {
        false
    } else if pages[0].url@ == u {
        true
    } else {
        has_page(pages.drop_first(), u)
    }
}

/// How many entries of `pages` have a URL that was not fetched yet.
pub open spec fn unvisited_count(pages: Seq<Page>, fetched: Seq<Seq<char>>) -> nat
    decreases pages.len(),
{
    if pages.len() == 0 {
        0nat
    } else {
        (if fetched.contains(pages[0].url@) {
            0nat
        } else {
            1nat
        }) + unvisited_count(pages.drop_first(), fetched)
    }
}

proof fn lemma_contains_push<A>(s: Seq<A>, x: A, y: A)
    ensures
        s.push(x).contains(y) == (s.contains(y) || y == x),
{
    if s.push(x).contains(y) {
        let i = choose|i: int| 0 <= i < s.push(x).len() && s.push(x)[i] == y;
        if i < s.len() {
            assert(s[i] == y);
        }
    }
    if s.contains(y) {
        let i = choose|i: int| 0 <= i < s.len() && s[i] == y;
        assert(s.push(x)[i] == y);
    }
    if y == x {
        assert(s.push(x)[s.len() as int] == y);
    }
}

proof fn lemma_unvisited_push_le(pages: Seq<Page>, fetched: Seq<Seq<char>>, u: Seq<char>)
    ensures
        unvisited_count(pages, fetched.push(u)) <= unvisited_count(pages, fetched),
    decreases pages.len(),
{
    if pages.len() > 0 {
        lemma_contains_push(fetched, u, pages[0].url@);
        lemma_unvisited_push_le(pages.drop_first(), fetched, u);
    }
}

proof fn lemma_unvisited_push_found(pages: Seq<Page>, fetched: Seq<Seq<char>>, u: Seq<char>)
    requires
        has_page(pages, u),
        !fetched.contains(u),
    ensures
        unvisited_count(pages, fetched.push(u)) < unvisited_count(pages, fetched),
    decreases pages.len(),
{
    lemma_contains_push(fetched, u, pages[0].url@);
    if pages[0].url@ == u {
        lemma_unvisited_push_le(pages.drop_first(), fetched, u);
    } else {
        lemma_unvisited_push_found(pages.drop_first(), fetched, u);
    }
}

proof fn lemma_unvisited_push_nomatch(pages: Seq<Page>, fetched: Seq<Seq<char>>, u: Seq<char>)
    requires
        !has_page(pages, u),
    ensures
        unvisited_count(pages, fetched.push(u)) == unvisited_count(pages, fetched),
    decreases pages.len(),
{
    if pages.len() > 0 {
        lemma_contains_push(fetched, u, pages[0].url@);
        lemma_unvisited_push_nomatch(pages.drop_first(), fetched, u);
    }
}

proof fn lemma_page_links_absent(pages: Seq<Page>, u: Seq<char>)
    requires
        !has_page(pages, u),
    ensures
        page_links(pages, u) == Seq::<Seq<char>>::empty(),
    decreases pages.len(),
{
    if pages.len() > 0 {
        lemma_page_links_absent(pages.drop_first(), u);
    }
}

proof fn lemma_page_steps_fetched(
    st: WalkState,
    origin: Seq<char>,
    follow: bool,
    base: Seq<char>,
    hrefs: Seq<Seq<char>>,
)
    ensures
        page_steps(st, origin, follow, base, hrefs).fetched == st.fetched,
    decreases hrefs.len(),
{
    if hrefs.len() > 0 {
        lemma_page_steps_fetched(
            href_step(st, origin, follow, base, hrefs[0]),
            origin,
            follow,
            base,
            hrefs.drop_first(),
        );
    }
}

/// One traversal round: pop the last queued page, mark it fetched, and
/// fold in the links of the page with that URL (none if no page has it).
pub open spec fn walk_step(
    pages: Seq<Page>,
    origin: Seq<char>,
    follow: bool,
    st: WalkState,
) -> WalkState {
    let u = st.pending.last();
    let st1 = WalkState {
        registry: st.registry,
        pending: st.pending.drop_last(),
        results: st.results,
        fetched: st.fetched.push(u),
    };
    page_steps(st1, origin, follow, u, page_links(pages, u))
}

/// Popping the queue and marking the page fetched keeps the invariant.
proof fn lemma_pop_inv(st: WalkState, origin: Seq<char>)
    requires
        walk_inv(st, origin),
        st.pending.len() > 0,
    ensures
        walk_inv(
            WalkState {
                registry: st.registry,
                pending: st.pending.drop_last(),
                results: st.results,
                fetched: st.fetched.push(st.pending.last()),
            },
            origin,
        ),
        !st.fetched.contains(st.pending.last()),
{
    let u = st.pending.last();
    assert(st.pending[st.pending.len() - 1] == u);
    assert(st.pending.contains(u));
    if st.fetched.contains(u) {
        let j = choose|j: int| 0 <= j < st.fetched.len() && st.fetched[j] == u;
        assert(false);
    }
    let st1 = WalkState {
        registry: st.registry,
        pending: st.pending.drop_last(),
        results: st.results,
        fetched: st.fetched.push(u),
    };
    assert(st1.pending.no_duplicates()) by {
        assert(forall|i: int|
            0 <= i < st1.pending.len() ==> st1.pending[i] == st.pending[i]);
    }
    assert(st1.fetched.no_duplicates()) by {
        assert(forall|i: int| 0 <= i < st.fetched.len() ==> st1.fetched[i] == st.fetched[i]);
        assert(forall|i: int| 0 <= i < st.fetched.len() ==> st.fetched[i] != u);
    }
    assert(st1.pending.disjoint(st1.fetched)) by {
        assert(forall|i: int|
            0 <= i < st1.pending.len() ==> st1.pending[i] == st.pending[i]);
        assert(forall|i: int|
            0 <= i < st1.pending.len() ==> st1.pending[i] != st.pending[st.pending.len()
                - 1]);
    }
    lemma_to_set_drop_last(st.pending);
    lemma_to_set_push(st.fetched, u);
    assert(st1.registry =~= st1.pending.to_set() + st1.fetched.to_set());
}

/// One traversal round keeps the invariant.
proof fn lemma_walk_step_inv(pages: Seq<Page>, origin: Seq<char>, follow: bool, st: WalkState)
    requires
        walk_inv(st, origin),
        st.pending.len() > 0,
    ensures
        walk_inv(walk_step(pages, origin, follow, st), origin),
{
    let u = st.pending.last();
    lemma_pop_inv(st, origin);
    let st1 = WalkState {
        registry: st.registry,
        pending: st.pending.drop_last(),
        results: st.results,
        fetched: st.fetched.push(u),
    };
    lemma_page_steps_inv(st1, origin, follow, u, page_links(pages, u));
}

/// One traversal round shrinks the measure: either a page with the
/// popped URL exists and the count of unvisited pages drops, or none
/// does and the queue shrinks while the count stays put.
proof fn lemma_walk_step_measure(
    pages: Seq<Page>,
    origin: Seq<char>,
    follow: bool,
    st: WalkState,
)
    requires
        walk_inv(st, origin),
        st.pending.len() > 0,
    ensures
        ({
            let st2 = walk_step(pages, origin, follow, st);
            ||| unvisited_count(pages, st2.fetched) < unvisited_count(pages, st.fetched)
            ||| (unvisited_count(pages, st2.fetched) == unvisited_count(pages, st.fetched)
                && st2.pending.len() < st.pending.len())
        }),
{
    let u = st.pending.last();
    lemma_pop_inv(st, origin);
    let st1 = WalkState {
        registry: st.registry,
        pending: st.pending.drop_last(),
        results: st.results,
        fetched: st.fetched.push(u),
    };
    lemma_page_steps_fetched(st1, origin, follow, u, page_links(pages, u));
    if has_page(pages, u) {
        lemma_unvisited_push_found(pages, st.fetched, u);
    } else {
        lemma_unvisited_push_nomatch(pages, st.fetched, u);
        lemma_page_links_absent(pages, u);
        assert(walk_step(pages, origin, follow, st) == st1);
    }
}

/// The state a traversal reaches from `st` against the pages in
/// `pages`: rounds of `walk_step` until the queue is empty.
pub open spec fn crawl_all(
    pages: Seq<Page>,
    origin: Seq<char>,
    follow: bool,
    st: WalkState,
) -> WalkState
    decreases unvisited_count(pages, st.fetched), st.pending.len(),
    when walk_inv(st, origin)
    via crawl_all_decreases
{
    if st.pending.len() == 0 {
        st
    } else {
        crawl_all(pages, origin, follow, walk_step(pages, origin, follow, st))
    }
}

#[via_fn]
proof fn crawl_all_decreases(pages: Seq<Page>, origin: Seq<char>, follow: bool, st: WalkState) {
    if st.pending.len() > 0 {
        lemma_walk_step_inv(pages, origin, follow, st);
        lemma_walk_step_measure(pages, origin, follow, st);
    }
}

/// Every traversal completes — the queue empties after finitely many
/// rounds even on cyclic link graphs — and no page is ever fetched
/// twice: the final fetch history is duplicate-free.
pub proof fn lemma_crawl_all_completes(
    pages: Seq<Page>,
    origin: Seq<char>,
    follow: bool,
    st: WalkState,
)
    requires
        walk_inv(st, origin),
    ensures
        walk_inv(crawl_all(pages, origin, follow, st), origin),
        crawl_all(pages, origin, follow, st).pending.len() == 0,
        crawl_all(pages, origin, follow, st).fetched.no_duplicates(),
    decreases unvisited_count(pages, st.fetched), st.pending.len(),
{
    if st.pending.len() > 0 {
        lemma_walk_step_inv(pages, origin, follow, st);
        lemma_walk_step_measure(pages, origin, follow, st);
        lemma_crawl_all_completes(pages, origin, follow, walk_step(pages, origin, follow, st));
    }
}

/// The registry is append-only: whatever is registered when a traversal
/// starts is still registered when it completes; a URL, once inserted,
/// is never removed.
pub proof fn lemma_registry_append_only(
    pages: Seq<Page>,
    origin: Seq<char>,
    follow: bool,
    st: WalkState,
)
    requires
        walk_inv(st, origin),
    ensures
        st.registry.subset_of(crawl_all(pages, origin, follow, st).registry),
        st.results.subset_of(crawl_all(pages, origin, follow, st).results),
    decreases unvisited_count(pages, st.fetched), st.pending.len(),
{
    if st.pending.len() > 0 {
        let u = st.pending.last();
        lemma_pop_inv(st, origin);
        let st1 = WalkState {
            registry: st.registry,
            pending: st.pending.drop_last(),
            results: st.results,
            fetched: st.fetched.push(u),
        };
        lemma_page_steps_inv(st1, origin, follow, u, page_links(pages, u));
        lemma_walk_step_inv(pages, origin, follow, st);
        lemma_walk_step_measure(pages, origin, follow, st);
        lemma_registry_append_only(pages, origin, follow, walk_step(pages, origin, follow, st));
    }
}

/// The origin boundary: every page a traversal ever fetches lies on the
/// traversal's origin, so an off-site URL — recorded as a leaf in the
/// results or not — is never fetched.
pub proof fn lemma_origin_boundary(
    pages: Seq<Page>,
    origin: Seq<char>,
    follow: bool,
    st: WalkState,
)
    requires
        walk_inv(st, origin),
    ensures
        forall|u: Seq<char>|
            #[trigger] crawl_all(pages, origin, follow, st).fetched.contains(u)
                ==> same_origin(u, origin),
        forall|u: Seq<char>|
            crawl_all(pages, origin, follow, st).results.contains(u) && !same_origin(u, origin)
                ==> !(#[trigger] crawl_all(pages, origin, follow, st).fetched.contains(u)),
{
    lemma_crawl_all_completes(pages, origin, follow, st);
    let f = crawl_all(pages, origin, follow, st);
    assert forall|u: Seq<char>| #[trigger] f.fetched.contains(u) implies same_origin(
        u,
        origin,
    ) by {
        assert(f.fetched.to_set().contains(u));
        assert(f.registry.contains(u));
    }
}

/// Fragment discard: folding a page's hrefs adds nothing to the result
/// set but canonicalizations of its non-fragment hrefs. In particular a
/// page whose hrefs are all fragment-only leaves the results unchanged.
pub proof fn lemma_fragment_discard(
    st: WalkState,
    origin: Seq<char>,
    follow: bool,
    base: Seq<char>,
    hrefs: Seq<Seq<char>>,
)
    ensures
        forall|x: Seq<char>|
            #[trigger] page_steps(st, origin, follow, base, hrefs).results.contains(x)
                ==> st.results.contains(x) || exists|k: int|
                0 <= k < hrefs.len() && !is_fragment_href(#[trigger] hrefs[k]) && canon_of(
                    base,
                    hrefs[k],
                ) == Some(x),
    decreases hrefs.len(),
{
    if hrefs.len() > 0 {
        let st1 = href_step(st, origin, follow, base, hrefs[0]);
        lemma_fragment_discard(st1, origin, follow, base, hrefs.drop_first());
        assert forall|x: Seq<char>|
            #[trigger] page_steps(st, origin, follow, base, hrefs).results.contains(
                x,
            ) implies st.results.contains(x) || exists|k: int|
            0 <= k < hrefs.len() && !is_fragment_href(#[trigger] hrefs[k]) && canon_of(
                base,
                hrefs[k],
            ) == Some(x) by {
            assert(page_steps(st, origin, follow, base, hrefs) == page_steps(st1, origin,
            follow, base, hrefs.drop_first()));
            assert(page_steps(st1, origin, follow, base, hrefs.drop_first()).results.contains(
                x,
            ));
            if !st.results.contains(x) {
                if st1.results.contains(x) {
                    assert(canon_of(base, hrefs[0]) == Some(x));
                    assert(!is_fragment_href(hrefs[0]));
                    assert(0 <= 0 < hrefs.len() && !is_fragment_href(hrefs[0]) && canon_of(
                        base,
                        hrefs[0],
                    ) == Some(x));
                } else {
                    let k = choose|k: int|
                        0 <= k < hrefs.drop_first().len() && !is_fragment_href(
                            #[trigger] hrefs.drop_first()[k],
                        ) && canon_of(base, hrefs.drop_first()[k]) == Some(x);
                    assert(hrefs.drop_first()[k] == hrefs[k + 1]);
                    assert(0 <= k + 1 < hrefs.len() && !is_fragment_href(hrefs[k + 1])
                        && canon_of(base, hrefs[k + 1]) == Some(x));
                }
            }
        }
    }
}

/// The dedup invariant: in a well-formed engine the registry never
/// holds two copies of one canonical URL, and neither does the result
/// set.
pub proof fn lemma_registry_dedup(a: &Args)
    requires
        a.crawl_wf(),
    ensures
        a.registry_seq().no_duplicates(),
        a.results_seq().no_duplicates(),
{
}

fn find_page_links<'a>(pages: &'a Vec<Page>, u: &String) -> (r: Option<&'a Vec<String>>)
    ensures
        match r {
            Some(h) => has_page(pages@, u@) && h.deep_view() == page_links(pages@, u@),
            None => !has_page(pages@, u@),
        },
{
    proof {
        assert(pages@.skip(0) =~= pages@);
    }
    let mut i: usize = 0;
    while i < pages.len()
        invariant
            i <= pages.len(),
            page_links(pages@, u@) == page_links(pages@.skip(i as int), u@),
            has_page(pages@, u@) == has_page(pages@.skip(i as int), u@),
        decreases pages.len() - i,
    {
        proof {
            assert(pages@.skip(i as int)[0] == pages@[i as int]);
        }
        if pages[i].url == *u {
            return Some(&pages[i].hrefs);
        }
        proof {
            assert(pages@.skip(i as int).drop_first() =~= pages@.skip(i as int + 1));
        }
        i += 1;
    }
    None
}

impl Args {
    /// Run the whole traversal against pages already in memory, from the
    /// current queue until it is empty, and return the result set. The
    /// loop provably terminates — cycles in the link graph included —
    /// and fetches every page at most once, never leaving the origin.
    pub fn walk_sync(&mut self, pages: &Vec<Page>) -> (r: URLs)
        requires
            old(self).crawl_wf(),
        ensures
            final(self).crawl_wf(),
            final(self).same_config(old(self)),
            final(self).walk_view() == crawl_all(
                pages@,
                old(self).origin_view(),
                old(self).relative_flag(),
                old(self).walk_view(),
            ),
            final(self).pending_view().len() == 0,
            r.seq_view() == final(self).results_seq(),
            r.wf(),
            final(self).fetched_view().no_duplicates(),
            forall|u: Seq<char>|
                #[trigger] final(self).fetched_view().contains(u) ==> same_origin(
                    u,
                    old(self).origin_view(),
                ),
    {
        let ghost o = self.origin@;
        let ghost fl = self.search_relative;
        let ghost init_st = self.walk_view();
        while self.pending.len() > 0
            invariant
                self.crawl_wf(),
                self.same_config(old(self)),
                self.origin@ == o,
                self.search_relative == fl,
                init_st == old(self).walk_view(),
                crawl_all(pages@, o, fl, self.walk_view()) == crawl_all(pages@, o, fl, init_st),
            decreases unvisited_count(pages@, self.fetched@), self.pending@.len(),
        {
            let ghost st_pre = self.walk_view();
            proof {
                lemma_walk_step_measure(pages@, o, fl, st_pre);
            }
            let u = match self.next_url() {
                Some(u) => u,
                None => {
                    proof {
                        assert(false);
                    }
                    String::new()
                },
            };
            let ghost st1 = WalkState {
                registry: st_pre.registry,
                pending: st_pre.pending.drop_last(),
                results: st_pre.results,
                fetched: st_pre.fetched.push(u@),
            };
            proof {
                assert(self.walk_view() =~= st1);
            }
            match find_page_links(pages, &u) {
                Some(h) => {
                    self.on_page(&u, h);
                    proof {
                        assert(self.walk_view() == page_steps(st1, o, fl, u@, page_links(
                            pages@,
                            u@,
                        )));
                    }
                },
                None => {
                    proof {
                        lemma_page_links_absent(pages@, u@);
                        assert(self.walk_view() == page_steps(st1, o, fl, u@, page_links(
                            pages@,
                            u@,
                        )));
                    }
                },
            }
            proof {
                assert(self.walk_view() == walk_step(pages@, o, fl, st_pre));
                assert(crawl_all(pages@, o, fl, st_pre) == crawl_all(pages@, o, fl,
                self.walk_view()));
            }
        }
        proof {
            assert(crawl_all(pages@, o, fl, self.walk_view()) == self.walk_view());
            assert forall|u: Seq<char>| #[trigger] self.fetched@.contains(u) implies same_origin(
                u,
                o,
            ) by {
                assert(self.fetched@.to_set().contains(u));
                assert(self.walk_view().registry.contains(u));
            }
        }
        self.found.duplicate()
    }
}


} // verus!
