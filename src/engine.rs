//! The crawl engine: seeding, bounded dispatch of URLs to workers, link
//! admission when a worker reports back, and the termination decision.
//!
//! The engine decides; its caller performs. The caller asks for the next
//! action, runs a fetch for each URL it is handed, and reports each page's
//! links back once its pipeline has finished.
use crate::canon::{canonical_form, canonicalize, joined_url, opt_text, parsed_url, sanitize_link};
use crate::frontier::{texts, Frontier, VisitedSet};
use vstd::prelude::*;

verus! {

/// The default bound on pipelines that run at once.
pub const DEFAULT_MAX_IN_FLIGHT: usize = 100;

#[derive(PartialEq, Eq, Structural, Clone, Copy, Debug)]
pub enum Phase {
    /// Dispatching URLs from the frontier.
    Running,
    /// Cancelled: no new dispatch, waiting for running pipelines.
    Draining,
    /// Terminal: nothing in flight, and nothing more is dispatched.
    Done,
}

/// What the caller should do next.
#[derive(Debug)]
pub enum Action {
    /// Run the pipeline for this URL; it holds one slot until reported back.
    Fetch(String),
    /// Wait for a running pipeline to report back, then ask again.
    Wait,
    /// The crawl is over.
    Finish,
}

#[derive(PartialEq, Eq, Structural, Clone, Copy, Debug)]
pub enum ConfigError {
    /// The seed is not an `http` or `https` URL.
    InvalidSeed,
    /// The concurrency bound is zero: nothing could ever run.
    NoSlots,
}

/// Each candidate link, canonicalized against the page it was found on.
pub open spec fn resolved_links(base: Seq<char>, hrefs: Seq<Seq<char>>) -> Seq<Option<Seq<char>>> {
    hrefs.map_values(|h: Seq<char>| canonical_form(joined_url(base, h)))
}

/// The URLs among `cands` that admission lets into the frontier, in order,
/// starting from the visited set `seen`.
pub open spec fn admitted_links(seen: Set<Seq<char>>, cands: Seq<Option<Seq<char>>>) -> Seq<
    Seq<char>,
>
    decreases cands.len(),
{
    if cands.len() == 0 {
        Seq::empty()
    } else {
        match cands[0] {
            Some(c) => if !seen.contains(c) {
                seq![c] + admitted_links(seen.insert(c), cands.drop_first())
            } else {
                admitted_links(seen, cands.drop_first())
            },
            None => admitted_links(seen, cands.drop_first()),
        }
    }
}

pub struct CrawlEngine {
    frontier: Frontier,
    visited: VisitedSet,
    in_flight: Vec<String>,
    max_in_flight: usize,
    phase: Phase,
    dispatched: Ghost<Seq<Seq<char>>>,
    cancelled: Ghost<bool>,
}

impl CrawlEngine {
    /// URLs waiting in the frontier, front first.
    pub closed spec fn queued(&self) -> Seq<Seq<char>> {
        self.frontier@
    }

    /// URLs admitted so far.
    pub closed spec fn visited(&self) -> Set<Seq<char>> {
        self.visited@
    }

    /// URLs whose pipelines are running.
    pub closed spec fn running(&self) -> Seq<Seq<char>> {
        texts(self.in_flight@)
    }

    /// Every URL ever handed to a pipeline, in order.
    pub closed spec fn dispatched(&self) -> Seq<Seq<char>> {
        self.dispatched@
    }

    pub closed spec fn slots(&self) -> nat {
        self.max_in_flight as nat
    }

    pub closed spec fn phase(&self) -> Phase {
        self.phase
    }

    /// Whether `cancel` has been called.
    pub closed spec fn was_cancelled(&self) -> bool {
        self.cancelled@
    }

    /// Nothing queued and nothing in flight.
    pub open spec fn is_quiescent(&self) -> bool {
        self.queued().len() == 0 && self.running().len() == 0
    }

    pub closed spec fn wf(&self) -> bool {
        &&& self.visited.wf()
        &&& self.frontier@.no_duplicates()
        &&& self.dispatched@.no_duplicates()
        &&& texts(self.in_flight@).no_duplicates()
        &&& forall|i: int|
            0 <= i < self.frontier@.len() ==> #[trigger] self.visited@.contains(self.frontier@[i])
        &&& forall|i: int|
            0 <= i < self.dispatched@.len() ==> #[trigger] self.visited@.contains(
                self.dispatched@[i],
            )
        &&& forall|i: int|
            0 <= i < self.frontier@.len() ==> !#[trigger] self.dispatched@.contains(
                self.frontier@[i],
            )
        &&& forall|i: int|
            0 <= i < self.in_flight@.len() ==> #[trigger] self.dispatched@.contains(
                texts(self.in_flight@)[i],
            )
        &&& 1 <= self.max_in_flight
        &&& self.in_flight@.len() <= self.max_in_flight
        &&& self.phase == Phase::Done ==> self.in_flight@.len() == 0
        &&& self.phase == Phase::Done && !self.cancelled@ ==> self.frontier@.len() == 0
        &&& self.phase == Phase::Draining ==> self.cancelled@
    }

    /// Seeds a crawl: the seed is canonicalized and admitted as the one URL
    /// of the frontier and of the visited set.
    pub fn new(seed: &str, max_in_flight: usize) -> (r: Result<CrawlEngine, ConfigError>)
        ensures
            r matches Err(ConfigError::InvalidSeed) <==> canonical_form(parsed_url(seed@))
                is None,
            r matches Err(ConfigError::NoSlots) <==> canonical_form(parsed_url(seed@)) is Some
                && max_in_flight == 0,
            r matches Ok(e) ==> {
                &&& e.wf()
                &&& canonical_form(parsed_url(seed@)) matches Some(c)
                &&& e.queued() == seq![c]
                &&& e.visited() == set![c]
                &&& e.running().len() == 0
                &&& e.dispatched().len() == 0
                &&& e.slots() == max_in_flight
                &&& e.phase() == Phase::Running
                &&& !e.was_cancelled()
            },
    {
        let c = match sanitize_link(seed) {
            Some(c) => c,
            None => return Err(ConfigError::InvalidSeed),
        };
        if max_in_flight == 0 {
            return Err(ConfigError::NoSlots);
        }
        let mut visited = VisitedSet::new();
        let mut frontier = Frontier::new();
        let ghost cv = c@;
        visited.try_admit(c.clone());
        frontier.push_back(c);
        let e = CrawlEngine {
            frontier,
            visited,
            in_flight: Vec::new(),
            max_in_flight,
            phase: Phase::Running,
            dispatched: Ghost(Seq::empty()),
            cancelled: Ghost(false),
        };
        assert(e.visited@ =~= set![cv]);
        assert(e.frontier@ =~= seq![cv]);
        assert(texts(e.in_flight@) =~= Seq::<Seq<char>>::empty());
        Ok(e)
    }

    /// Decides the next step. While running, the front URL of the frontier
    /// is dispatched where a slot is free; the crawl finishes exactly when
    /// nothing is queued and nothing is in flight; otherwise the caller waits.
    /// Once cancelled, nothing more is dispatched and the crawl finishes when
    /// nothing is in flight.
    pub fn next_action(&mut self) -> (r: Action)
        requires
            old(self).wf(),
        ensures
            final(self).wf(),
            final(self).visited() == old(self).visited(),
            final(self).slots() == old(self).slots(),
            final(self).was_cancelled() == old(self).was_cancelled(),
            old(self).phase() == Phase::Running ==> (r is Finish <==> old(self).is_quiescent()),
            match r {
                Action::Fetch(u) => {
                    &&& old(self).phase() == Phase::Running
                    &&& old(self).queued().len() > 0
                    &&& old(self).running().len() < old(self).slots()
                    &&& u@ == old(self).queued()[0]
                    &&& final(self).queued() == old(self).queued().drop_first()
                    &&& final(self).running() == old(self).running().push(u@)
                    &&& final(self).dispatched() == old(self).dispatched().push(u@)
                    &&& final(self).phase() == Phase::Running
                },
                Action::Wait => {
                    &&& old(self).phase() != Phase::Done
                    &&& old(self).running().len() > 0
                    &&& (old(self).phase() == Phase::Running ==> old(self).queued().len() == 0
                        || old(self).running().len() == old(self).slots())
                    &&& *final(self) == *old(self)
                },
                Action::Finish => {
                    &&& old(self).running().len() == 0
                    &&& (old(self).phase() == Phase::Running ==> old(self).queued().len() == 0)
                    &&& final(self).queued() == old(self).queued()
                    &&& final(self).running() == old(self).running()
                    &&& final(self).dispatched() == old(self).dispatched()
                    &&& final(self).phase() == Phase::Done
                },
            },
    {
        match self.phase {
            Phase::Done => Action::Finish,
            Phase::Draining => {
                if self.in_flight.len() == 0 {
                    self.phase = Phase::Done;
                    Action::Finish
                } else {
                    Action::Wait
                }
            },
            Phase::Running => {
                if self.frontier.is_empty() {
                    if self.in_flight.len() == 0 {
                        self.phase = Phase::Done;
                        Action::Finish
                    } else {
                        Action::Wait
                    }
                } else if self.in_flight.len() < self.max_in_flight {
                    let u = match self.frontier.pop_front() {
                        Some(u) => u,
                        None => return Action::Wait,
                    };
                    let ghost q = old(self).frontier@;
                    let ghost d = old(self).dispatched@;
                    let ghost uv = u@;
                    self.in_flight.push(u.clone());
                    self.dispatched = Ghost(d.push(uv));
                    proof {
                        assert(texts(self.in_flight@) =~= texts(old(self).in_flight@).push(uv));
                        assert(q[0] == uv);
                        assert forall|i: int| 0 <= i < self.frontier@.len() implies #[trigger] self.visited@.contains(self.frontier@[i]) by {
                            assert(self.frontier@[i] == q[i + 1]);
                        }
                        assert forall|i: int| 0 <= i < self.dispatched@.len() implies #[trigger] self.visited@.contains(self.dispatched@[i]) by {
                            if i < d.len() {
                                assert(self.dispatched@[i] == d[i]);
                            }
                        }
                        assert forall|i: int| 0 <= i < self.frontier@.len() implies !#[trigger] self.dispatched@.contains(self.frontier@[i]) by {
                            assert(self.frontier@[i] == q[i + 1]);
                            if self.dispatched@.contains(q[i + 1]) {
                                let k = choose|k: int| 0 <= k < self.dispatched@.len() && #[trigger] self.dispatched@[k] == q[i + 1];
                                if k < d.len() {
                                    assert(d[k] == q[i + 1]);
                                    assert(d.contains(q[i + 1]));
                                } else {
                                    assert(q[0] == q[i + 1]);
                                }
                            }
                        }
                        assert forall|i: int| 0 <= i < self.in_flight@.len() implies #[trigger] self.dispatched@.contains(texts(self.in_flight@)[i]) by {
                            if i < old(self).in_flight@.len() {
                                assert(texts(old(self).in_flight@)[i] == texts(self.in_flight@)[i]);
                                assert(d.contains(texts(old(self).in_flight@)[i]));
                                let k = choose|k: int| 0 <= k < d.len() && #[trigger] d[k] == texts(old(self).in_flight@)[i];
                                assert(self.dispatched@[k] == d[k]);
                            } else {
                                assert(self.dispatched@[d.len() as int] == uv);
                            }
                        }
                        assert(!d.contains(uv)) by {
                            assert(!d.contains(q[0]));
                        }
                        assert(self.dispatched@.no_duplicates()) by {
                            assert forall|i: int, j: int| 0 <= i < self.dispatched@.len() && 0 <= j < self.dispatched@.len() && i != j implies self.dispatched@[i] != self.dispatched@[j] by {
                                if i == d.len() {
                                    assert(d[j] == self.dispatched@[j]);
                                } else if j == d.len() {
                                    assert(d[i] == self.dispatched@[i]);
                                }
                            }
                        }
                        assert(!texts(old(self).in_flight@).contains(uv)) by {
                            if texts(old(self).in_flight@).contains(uv) {
                                let k = choose|k: int| 0 <= k < texts(old(self).in_flight@).len() && #[trigger] texts(old(self).in_flight@)[k] == uv;
                                assert(d.contains(texts(old(self).in_flight@)[k]));
                            }
                        }
                    }
                    Action::Fetch(u)
                } else {
                    Action::Wait
                }
            },
        }
    }
    /// Records that the pipeline for `url` has finished, with the hrefs found
    /// on its page (none where the fetch failed). Each href is canonicalized
    /// against `url`; each result that admission accepts is appended to the
    /// frontier. Returns the URLs appended, in order. A `url` that is not in
    /// flight changes nothing.
    pub fn finish_page(&mut self, url: &String, hrefs: &Vec<String>) -> (r: Vec<String>)
        requires
            old(self).wf(),
        ensures
            final(self).wf(),
            final(self).slots() == old(self).slots(),
            final(self).phase() == old(self).phase(),
            final(self).dispatched() == old(self).dispatched(),
            final(self).was_cancelled() == old(self).was_cancelled(),
            !old(self).running().contains(url@) ==> r@.len() == 0 && *final(self) == *old(self),
            old(self).running().contains(url@) ==> {
                &&& texts(r@) == admitted_links(
                    old(self).visited(),
                    resolved_links(url@, texts(hrefs@)),
                )
                &&& final(self).queued() == old(self).queued() + texts(r@)
                &&& final(self).visited() == old(self).visited().union(texts(r@).to_set())
                &&& final(self).running() == old(self).running().remove(
                    old(self).running().index_of(url@),
                )
            },
    {
        let mut k: usize = 0;
        let mut found = false;
        while k < self.in_flight.len() && !found
            invariant
                k <= self.in_flight@.len(),
                found ==> k < self.in_flight@.len() && self.in_flight@[k as int]@ == url@,
                forall|j: int| 0 <= j < k ==> self.in_flight@[j]@ != url@,
            decreases self.in_flight@.len() - k - (if found { 1int } else { 0int }),
        {
            if self.in_flight[k] == *url {
                found = true;
            } else {
                k = k + 1;
            }
        }
        if !found {
            assert(!texts(self.in_flight@).contains(url@)) by {
                if texts(self.in_flight@).contains(url@) {
                    let j = choose|j: int| 0 <= j < texts(self.in_flight@).len() && #[trigger] texts(self.in_flight@)[j] == url@;
                    assert(self.in_flight@[j]@ == url@);
                }
            }
            return Vec::new();
        }
        let ghost run0 = texts(self.in_flight@);
        let ghost inf0 = self.in_flight@;
        proof {
            assert(run0[k as int] == url@);
            let m = run0.index_of(url@);
            assert(run0.contains(url@));
            assert(run0[m] == url@);
            assert(m == k);
        }
        self.in_flight.remove(k);
        assert(texts(self.in_flight@) =~= run0.remove(k as int));

        let ghost cands = resolved_links(url@, texts(hrefs@));
        let ghost v0 = self.visited@;
        let ghost q0 = self.frontier@;
        let mut added: Vec<String> = Vec::new();
        let mut i: usize = 0;
        assert(cands.skip(0) =~= cands);
        while i < hrefs.len()
            invariant
                i <= hrefs@.len(),
                cands == resolved_links(url@, texts(hrefs@)),
                cands.len() == hrefs@.len(),
                k < inf0.len(),
                self.in_flight@ == inf0.remove(k as int),
                self.dispatched == old(self).dispatched,
                self.max_in_flight == old(self).max_in_flight,
                self.phase == old(self).phase,
                self.cancelled == old(self).cancelled,
                old(self).phase != Phase::Done,
                self.visited.wf(),
                admitted_links(v0, cands) == texts(added@) + admitted_links(self.visited@, cands.skip(i as int)),
                self.frontier@ == q0 + texts(added@),
                self.visited@ == v0.union(texts(added@).to_set()),
                texts(added@).no_duplicates(),
                forall|j: int| 0 <= j < added@.len() ==> !v0.contains(#[trigger] texts(added@)[j]),
            decreases hrefs@.len() - i,
        {
            let c = canonicalize(hrefs[i].as_str(), url.as_str());
            let ghost rest = cands.skip(i as int);
            let ghost a0 = texts(added@);
            let ghost vi = self.visited@;
            assert(rest[0] == cands[i as int]);
            assert(cands[i as int] == opt_text(c));
            assert(rest.drop_first() =~= cands.skip(i + 1));
            match c {
                Some(u) => {
                    let uc = u.clone();
                    if self.visited.try_admit(u) {
                        self.frontier.push_back(uc.clone());
                        added.push(uc);
                        proof {
                            assert(admitted_links(vi, rest) == seq![uc@] + admitted_links(vi.insert(uc@), rest.drop_first()));
                            assert(texts(added@) =~= a0.push(uc@));
                            assert(a0 + seq![uc@] + admitted_links(vi.insert(uc@), cands.skip(i + 1)) =~= a0 + (seq![uc@] + admitted_links(vi.insert(uc@), cands.skip(i + 1))));
                            assert(self.frontier@ =~= q0 + texts(added@));
                            a0.lemma_push_to_set_commute(uc@);
                            assert(self.visited@ =~= v0.union(texts(added@).to_set()));
                            assert(!a0.contains(uc@)) by {
                                if a0.contains(uc@) {
                                    let j = choose|j: int| 0 <= j < a0.len() && #[trigger] a0[j] == uc@;
                                    assert(a0.to_set().contains(uc@));
                                }
                            }
                        }
                    } else {
                        assert(admitted_links(vi, rest) == admitted_links(vi, rest.drop_first()));
                        assert(self.visited@ =~= vi);
                    }
                },
                None => {
                    assert(admitted_links(vi, rest) == admitted_links(vi, rest.drop_first()));
                },
            }
            i = i + 1;
        }
        proof {
            assert(cands.skip(hrefs@.len() as int) =~= Seq::<Option<Seq<char>>>::empty());
            assert(texts(added@) + Seq::<Seq<char>>::empty() =~= texts(added@));
            let q = self.frontier@;
            let a = texts(added@);
            assert forall|j: int| 0 <= j < q.len() implies #[trigger] self.visited@.contains(q[j]) by {
                if j < q0.len() {
                    assert(v0.contains(q0[j]));
                } else {
                    assert(q[j] == a[j - q0.len()]);
                    assert(a.to_set().contains(a[j - q0.len()]));
                }
            }
            assert forall|j: int| 0 <= j < self.dispatched@.len() implies #[trigger] self.visited@.contains(self.dispatched@[j]) by {
                assert(old(self).visited@.contains(old(self).dispatched@[j]));
            }
            assert forall|j: int| 0 <= j < q.len() implies !#[trigger] self.dispatched@.contains(q[j]) by {
                if j < q0.len() {
                    assert(q[j] == q0[j]);
                } else {
                    assert(q[j] == a[j - q0.len()]);
                    if self.dispatched@.contains(q[j]) {
                        let m = choose|m: int| 0 <= m < self.dispatched@.len() && #[trigger] self.dispatched@[m] == q[j];
                        assert(v0.contains(self.dispatched@[m]));
                    }
                }
            }
            assert(q.no_duplicates()) by {
                assert forall|x: int, y: int| 0 <= x < q.len() && 0 <= y < q.len() && x != y implies q[x] != q[y] by {
                    if x < q0.len() && y < q0.len() {
                    } else if x >= q0.len() && y >= q0.len() {
                        assert(q[x] == a[x - q0.len()] && q[y] == a[y - q0.len()]);
                    } else if x < q0.len() {
                        assert(v0.contains(q0[x]));
                        assert(q[y] == a[y - q0.len()]);
                    } else {
                        assert(v0.contains(q0[y]));
                        assert(q[x] == a[x - q0.len()]);
                    }
                }
            }
            let run = texts(self.in_flight@);
            assert forall|j: int| 0 <= j < self.in_flight@.len() implies #[trigger] self.dispatched@.contains(texts(self.in_flight@)[j]) by {
                if j < k {
                    assert(run[j] == run0[j]);
                    assert(self.dispatched@.contains(texts(old(self).in_flight@)[j]));
                } else {
                    assert(run[j] == run0[j + 1]);
                    assert(self.dispatched@.contains(texts(old(self).in_flight@)[j + 1]));
                }
            }
            assert(run.no_duplicates()) by {
                assert forall|x: int, y: int| 0 <= x < run.len() && 0 <= y < run.len() && x != y implies run[x] != run[y] by {
                    let x0 = if x < k { x } else { x + 1 };
                    let y0 = if y < k { y } else { y + 1 };
                    assert(run[x] == run0[x0] && run[y] == run0[y0]);
                }
            }
        }
        added
    }

    /// Stops dispatch: pipelines already running finish and are reported as
    /// usual, and the crawl finishes once none is left.
    pub fn cancel(&mut self)
        requires
            old(self).wf(),
        ensures
            final(self).wf(),
            final(self).queued() == old(self).queued(),
            final(self).visited() == old(self).visited(),
            final(self).running() == old(self).running(),
            final(self).dispatched() == old(self).dispatched(),
            final(self).slots() == old(self).slots(),
            final(self).was_cancelled(),
            final(self).phase() == (if old(self).phase() == Phase::Done {
                Phase::Done
            } else {
                Phase::Draining
            }),
    {
        if self.phase != Phase::Done {
            self.phase = Phase::Draining;
        }
        self.cancelled = Ghost(true);
    }

    /// Number of pipelines running.
    pub fn in_flight_count(&self) -> (r: usize)
        ensures
            r == self.running().len(),
    {
        self.in_flight.len()
    }

    /// Number of URLs waiting in the frontier.
    pub fn queued_count(&self) -> (r: usize)
        ensures
            r == self.queued().len(),
    {
        self.frontier.len()
    }

    /// Number of URLs admitted so far.
    pub fn visited_count(&self) -> (r: usize)
        requires
            self.wf(),
        ensures
            r == self.visited().len(),
    {
        self.visited.len()
    }

    /// Whether `url` has been admitted.
    pub fn is_visited(&self, url: &String) -> (r: bool)
        ensures
            r == self.visited().contains(url@),
    {
        self.visited.contains(url)
    }

    /// The bound on pipelines that run at once.
    pub fn max_in_flight(&self) -> (r: usize)
        ensures
            r == self.slots(),
    {
        self.max_in_flight
    }

    pub fn is_done(&self) -> (r: bool)
        ensures
            r == (self.phase() == Phase::Done),
    {
        self.phase == Phase::Done
    }
}

/// No URL is handed to a pipeline twice, and no URL waiting in the frontier
/// has been handed to one already.
pub proof fn lemma_no_duplicate_work(e: &CrawlEngine)
    requires
        e.wf(),
    ensures
        e.dispatched().no_duplicates(),
        forall|i: int| 0 <= i < e.queued().len() ==> !e.dispatched().contains(#[trigger] e.queued()[i]),
        forall|i: int| 0 <= i < e.queued().len() ==> e.visited().contains(#[trigger] e.queued()[i]),
{
}

/// A finished crawl has no pipeline running, and, unless it was cancelled,
/// nothing left in the frontier.
pub proof fn lemma_done_means_idle(e: &CrawlEngine)
    requires
        e.wf(),
    ensures
        e.phase() == Phase::Done ==> e.running().len() == 0,
        e.phase() == Phase::Done && !e.was_cancelled() ==> e.queued().len() == 0,
{
}

/// The number of pipelines running never exceeds the bound.
pub proof fn lemma_concurrency_bounded(e: &CrawlEngine)
    requires
        e.wf(),
    ensures
        e.running().len() <= e.slots(),
        1 <= e.slots(),
{
}

} // verus!
