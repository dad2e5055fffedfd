//! The crawl's shared work state: the FIFO frontier of URLs awaiting fetch
//! and the visited set that admits each URL at most once.
use std::collections::VecDeque;
use vstd::prelude::*;

verus! {

/// The texts of a sequence of strings.
pub open spec fn texts(v: Seq<String>) -> Seq<Seq<char>> {
    v.map_values(|s: String| s@)
}

/// FIFO queue of canonical URLs awaiting fetch.
pub struct Frontier {
    queue: VecDeque<String>,
}

impl View for Frontier {
    type V = Seq<Seq<char>>;

    closed spec fn view(&self) -> Seq<Seq<char>> {
        texts(self.queue@)
    }
}

impl Frontier {
    pub fn new() -> (f: Frontier)
        ensures
            f@ == Seq::<Seq<char>>::empty(),
    {
        let f = Frontier { queue: VecDeque::new() };
        assert(f@ =~= Seq::<Seq<char>>::empty());
        f
    }

    /// Appends `url` at the back.
    pub fn push_back(&mut self, url: String)
        ensures
            final(self)@ == old(self)@.push(url@),
    {
        self.queue.push_back(url);
        assert(final(self)@ =~= old(self)@.push(url@));
    }

    /// Removes and returns the URL at the front; `None` when empty.
    pub fn pop_front(&mut self) -> (r: Option<String>)
        ensures
            match r {
                Some(u) => old(self)@.len() > 0 && u@ == old(self)@[0] && final(self)@
                    == old(self)@.drop_first(),
                None => old(self)@.len() == 0 && final(self)@ == old(self)@,
            },
    {
        let r = self.queue.pop_front();
        if r.is_some() {
            assert(final(self)@ =~= old(self)@.drop_first());
        }
        r
    }

    pub fn is_empty(&self) -> (r: bool)
        ensures
            r == (self@.len() == 0),
    {
        self.queue.len() == 0
    }

    pub fn len(&self) -> (r: usize)
        ensures
            r == self@.len(),
    {
        self.queue.len()
    }
}

/// Outcome of admitting `u` into the set `seen`: the new set, and whether
/// this admission was the one that inserted `u`.
pub open spec fn admission_step(seen: Set<Seq<char>>, u: Seq<char>) -> (Set<Seq<char>>, bool) {
    (seen.insert(u), !seen.contains(u))
}

/// The answers that a run of admissions, in the order given, receives when
/// it starts from `seen`.
pub open spec fn admission_answers(seen: Set<Seq<char>>, calls: Seq<Seq<char>>) -> Seq<bool>
    decreases calls.len(),
{
    if calls.len() == 0 {
        Seq::empty()
    } else {
        let (next, answer) = admission_step(seen, calls[0]);
        seq![answer] + admission_answers(next, calls.drop_first())
    }
}

/// Set of canonical URLs admitted so far; it only grows.
pub struct VisitedSet {
    urls: Vec<String>,
}

impl View for VisitedSet {
    type V = Set<Seq<char>>;

    closed spec fn view(&self) -> Set<Seq<char>> {
        texts(self.urls@).to_set()
    }
}

impl VisitedSet {
    pub closed spec fn wf(&self) -> bool {
        texts(self.urls@).no_duplicates()
    }

    pub fn new() -> (v: VisitedSet)
        ensures
            v.wf(),
            v@ == Set::<Seq<char>>::empty(),
    {
        let v = VisitedSet { urls: Vec::new() };
        assert(v@ =~= Set::<Seq<char>>::empty());
        v
    }

    /// Whether `url` has been admitted.
    pub fn contains(&self, url: &String) -> (r: bool)
        ensures
            r == self@.contains(url@),
    {
        let mut i: usize = 0;
        while i < self.urls.len()
            invariant
                i <= self.urls@.len(),
                forall|k: int| 0 <= k < i ==> self.urls@[k]@ != url@,
            decreases self.urls@.len() - i,
        {
            if self.urls[i] == *url {
                assert(texts(self.urls@)[i as int] == url@);
                return true;
            }
            i = i + 1;
        }
        assert(!texts(self.urls@).contains(url@)) by {
            if texts(self.urls@).contains(url@) {
                let k = choose|k: int| 0 <= k < texts(self.urls@).len() && texts(self.urls@)[k] == url@;
                assert(self.urls@[k]@ == url@);
            }
        }
        false
    }

    /// Admits `url`: inserts it where it is absent, and answers whether this
    /// call made the insertion. Membership test and insertion are one step.
    pub fn try_admit(&mut self, url: String) -> (r: bool)
        requires
            old(self).wf(),
        ensures
            final(self).wf(),
            (final(self)@, r) == admission_step(old(self)@, url@),
    {
        if self.contains(&url) {
            assert(self@ =~= old(self)@.insert(url@));
            false
        } else {
            let ghost u = url@;
            self.urls.push(url);
            assert(texts(self.urls@) =~= texts(old(self).urls@).push(u));
            proof {
                texts(old(self).urls@).lemma_push_to_set_commute(u);
            }
            true
        }
    }

    pub fn len(&self) -> (r: usize)
        requires
            self.wf(),
        ensures
            r == self@.len(),
    {
        proof {
            texts(self.urls@).unique_seq_to_set();
        }
        self.urls.len()
    }
}

proof fn lemma_admission_answers_len(seen: Set<Seq<char>>, calls: Seq<Seq<char>>)
    ensures
        admission_answers(seen, calls).len() == calls.len(),
    decreases calls.len(),
{
    if calls.len() > 0 {
        lemma_admission_answers_len(seen.insert(calls[0]), calls.drop_first());
    }
}

/// In any run of admissions, the answer a call gets is `true` exactly when
/// its URL was neither in the starting set nor asked for by an earlier call.
pub proof fn lemma_admission_answer(seen: Set<Seq<char>>, calls: Seq<Seq<char>>, j: int)
    requires
        0 <= j < calls.len(),
    ensures
        admission_answers(seen, calls)[j] == !(seen.contains(calls[j]) || calls.take(j).contains(
            calls[j],
        )),
    decreases j,
{
    let rest = calls.drop_first();
    lemma_admission_answers_len(seen, calls);
    if j > 0 {
        lemma_admission_answers_len(seen.insert(calls[0]), rest);
        lemma_admission_answer(seen.insert(calls[0]), rest, j - 1);
        assert(admission_answers(seen, calls)[j] == admission_answers(seen.insert(calls[0]), rest)[j
            - 1]);
        assert(calls.take(j) =~= seq![calls[0]] + rest.take(j - 1));
        assert(rest[j - 1] == calls[j]);
        if calls[0] == calls[j] {
            assert(calls.take(j)[0] == calls[j]);
        }
        if rest.take(j - 1).contains(calls[j]) {
            let k = choose|k: int| 0 <= k < rest.take(j - 1).len() && #[trigger] rest.take(j - 1)[k] == calls[j];
            assert(calls.take(j)[k + 1] == calls[j]);
        }
        if calls.take(j).contains(calls[j]) {
            let k = choose|k: int| 0 <= k < calls.take(j).len() && #[trigger] calls.take(j)[k] == calls[j];
            if k > 0 {
                assert(rest.take(j - 1)[k - 1] == calls[j]);
            }
        }
    } else {
        assert(calls.take(0) =~= Seq::<Seq<char>>::empty());
        assert(admission_answers(seen, calls)[0] == !seen.contains(calls[0]));
    }
}

/// Admitting the same URL any number of times, from any interleaving of
/// callers, yields at most one `true`: every later call for the URL gets
/// `false`, and the first call gets `true` exactly when the URL was new.
pub proof fn lemma_admission_once(seen: Set<Seq<char>>, calls: Seq<Seq<char>>, i: int, j: int)
    requires
        0 <= i < j < calls.len(),
        calls[i] == calls[j],
    ensures
        !admission_answers(seen, calls)[j],
        (forall|k: int| 0 <= k < i ==> calls[k] != calls[i]) ==> admission_answers(seen, calls)[i]
            == !seen.contains(calls[i]),
{
    lemma_admission_answer(seen, calls, i);
    lemma_admission_answer(seen, calls, j);
    assert(calls.take(j)[i] == calls[j]);
    if forall|k: int| 0 <= k < i ==> #[trigger] calls[k] != calls[i] {
        assert(!calls.take(i).contains(calls[i]));
    }
}

} // verus!
