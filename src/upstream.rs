//! Bookkeeping of a load balancer: which upstream servers are up, how one
//! is picked, and how many requests each client made in the current window.
use vstd::prelude::*;
use crate::text::str_eq;
use rand::Rng;

verus! {

/// Number of `true` entries in `s`.
pub open spec fn count_true(s: Seq<bool>) -> nat
    decreases s.len(),
{
    if s.len() == 0 {
        0
    } else {
        count_true(s.drop_last()) + if s.last() {
            1nat
        } else {
            0nat
        }
    }
}

proof fn lemma_count_bound(s: Seq<bool>)
    ensures
        count_true(s) <= s.len(),
    decreases s.len(),
{
    if s.len() > 0 {
        lemma_count_bound(s.drop_last());
    }
}

proof fn lemma_count_update(s: Seq<bool>, i: int, v: bool)
    requires
        0 <= i < s.len(),
    ensures
        count_true(s.update(i, v)) + (if s[i] { 1nat } else { 0nat }) == count_true(s) + (if v {
            1nat
        } else {
            0nat
        }),
    decreases s.len(),
{
    let t = s.update(i, v);
    if i == s.len() - 1 {
        assert(t.drop_last() =~= s.drop_last());
    } else {
        assert(t.drop_last() =~= s.drop_last().update(i, v));
        lemma_count_update(s.drop_last(), i, v);
    }
}

proof fn lemma_count_all(n: nat)
    ensures
        count_true(Seq::new(n, |i: int| true)) == n,
    decreases n,
{
    if n > 0 {
        assert(Seq::new(n, |i: int| true).drop_last() =~= Seq::new((n - 1) as nat, |i: int| true));
        lemma_count_all((n - 1) as nat);
    }
}

/// Relies on rand::Rng::gen_range on rand::thread_rng: a number drawn from
/// `0..n` (the call panics on an empty range).
#[verifier::external_body]
fn random_below(n: usize) -> (r: usize)
    requires
        n > 0,
    ensures
        r < n,
{
    rand::thread_rng().gen_range(0..n)
}

/// Which upstream servers are believed to be up.
pub struct UpstreamPool {
    active: Vec<bool>,
    num_active: usize,
}

impl View for UpstreamPool {
    type V = Seq<bool>;

    closed spec fn view(&self) -> Seq<bool> {
        self.active@
    }
}

impl UpstreamPool {
    /// The kept count is the number of servers up.
    pub closed spec fn wf(&self) -> bool {
        self.num_active == count_true(self.active@)
    }

    /// A pool of `n` servers, all up.
    pub fn new(n: usize) -> (r: UpstreamPool)
        ensures
            r.wf(),
            r@ == Seq::new(n as nat, |i: int| true),
    {
        let mut active: Vec<bool> = Vec::new();
        let mut i: usize = 0;
        while i < n
            invariant
                i <= n,
                active@ == Seq::new(i as nat, |j: int| true),
            decreases n - i,
        {
            active.push(true);
            assert(active@ =~= Seq::new((i + 1) as nat, |j: int| true));
            i += 1;
        }
        proof {
            lemma_count_all(n as nat);
        }
        UpstreamPool { active, num_active: n }
    }

    pub fn len(&self) -> (r: usize)
        ensures
            r == self@.len(),
    {
        self.active.len()
    }

    /// How many servers are up.
    pub fn num_active(&self) -> (r: usize)
        requires
            self.wf(),
        ensures
            r == count_true(self@),
    {
        self.num_active
    }

    pub fn is_active(&self, i: usize) -> (r: bool)
        requires
            i < self@.len(),
        ensures
            r == self@[i as int],
    {
        self.active[i]
    }

    /// Records whether server `i` is up; the count changes only when the
    /// state of `i` does.
    pub fn set_active(&mut self, i: usize, up: bool)
        requires
            old(self).wf(),
            i < old(self)@.len(),
        ensures
            final(self).wf(),
            final(self)@ == old(self)@.update(i as int, up),
    {
        proof {
            lemma_count_update(self.active@, i as int, up);
            lemma_count_bound(self.active@);
        }
        let n = self.active.len();
        proof {
            lemma_count_bound(self.active@.update(i as int, up));
        }
        if self.active[i] != up {
            if up {
                self.num_active = self.num_active + 1;
            } else {
                self.num_active = self.num_active - 1;
            }
            self.active.set(i, up);
        }
        assert(self.active@ =~= old(self).active@.update(i as int, up));
    }

    /// The `k`-th server that is up, counting from zero.
    pub fn nth_active(&self, k: usize) -> (r: usize)
        requires
            self.wf(),
            k < count_true(self@),
        ensures
            r < self@.len(),
            self@[r as int],
            count_true(self@.take(r as int)) == k,
    {
        let mut seen: usize = 0;
        let mut i: usize = 0;
        while i < self.active.len()
            invariant
                i <= self.active@.len(),
                seen == count_true(self.active@.take(i as int)),
                seen <= k,
                k < count_true(self.active@),
            decreases self.active@.len() - i,
        {
            assert(self.active@.take(i as int + 1).drop_last() =~= self.active@.take(i as int));
            if self.active[i] {
                if seen == k {
                    return i;
                }
                seen = seen + 1;
            }
            i += 1;
        }
        assert(self.active@.take(i as int) =~= self.active@);
        i
    }

    /// Picks a server uniformly among those up; `None` when all are down.
    pub fn pick(&self) -> (r: Option<usize>)
        requires
            self.wf(),
        ensures
            r is None <==> count_true(self@) == 0,
            r is Some ==> r->Some_0 < self@.len() && self@[r->Some_0 as int],
    {
        if self.num_active == 0 {
            return None;
        }
        let k = random_below(self.num_active);
        Some(self.nth_active(k))
    }
}

/// Requests per client address in the current window.
pub struct RateLimiter {
    counts: Vec<(String, usize)>,
    limit: usize,
}

impl RateLimiter {
    pub closed spec fn wf(&self) -> bool {
        forall|i: int, j: int|
            0 <= i < self.counts@.len() && 0 <= j < self.counts@.len() && i != j ==> (
            #[trigger] self.counts@[i]).0@ != (#[trigger] self.counts@[j]).0@
    }

    /// Requests recorded for each client in this window.
    pub closed spec fn counts(&self) -> Map<Seq<char>, nat> {
        Map::new(
            |k: Seq<char>| exists|i: int| 0 <= i < self.counts@.len() && (#[trigger] self.counts@[i]).0@ == k,
            |k: Seq<char>| {
                let i = choose|i: int| 0 <= i < self.counts@.len() && (#[trigger] self.counts@[i]).0@ == k;
                self.counts@[i].1 as nat
            },
        )
    }

    pub closed spec fn limit_spec(&self) -> nat {
        self.limit as nat
    }

    /// A limiter allowing `limit` requests per client and window; zero
    /// means no limit.
    pub fn new(limit: usize) -> (r: RateLimiter)
        ensures
            r.wf(),
            r.counts() == Map::<Seq<char>, nat>::empty(),
            r.limit_spec() == limit,
    {
        let r = RateLimiter { counts: Vec::new(), limit };
        assert(r.counts() =~= Map::<Seq<char>, nat>::empty());
        r
    }

    /// Index of the entry of `client`, if any.
    fn find(&self, client: &str) -> (r: Option<usize>)
        ensures
            r is Some ==> r->Some_0 < self.counts@.len() && self.counts@[r->Some_0 as int].0@ == client@,
            r is None ==> forall|j: int| 0 <= j < self.counts@.len() ==> (#[trigger] self.counts@[j]).0@ != client@,
    {
        let mut i: usize = 0;
        while i < self.counts.len()
            invariant
                i <= self.counts@.len(),
                forall|j: int| 0 <= j < i ==> (#[trigger] self.counts@[j]).0@ != client@,
            decreases self.counts@.len() - i,
        {
            if str_eq(self.counts[i].0.as_str(), client) {
                return Some(i);
            }
            i += 1;
        }
        None
    }

    /// Counts one request of `client` and says whether it is allowed.
    pub fn record(&mut self, client: &str) -> (r: bool)
        requires
            old(self).wf(),
        ensures
            final(self).wf(),
            final(self).limit_spec() == old(self).limit_spec(),
            ({
                let before: nat = if old(self).counts().contains_key(client@) {
                    old(self).counts()[client@]
                } else {
                    0
                };
                let now: nat = if before < usize::MAX {
                    before + 1
                } else {
                    before
                };
                &&& final(self).counts() == old(self).counts().insert(client@, now)
                &&& r == (old(self).limit_spec() == 0 || now <= old(self).limit_spec())
            }),
    {
        let ghost m0 = self.counts();
        let found = self.find(client);
        let now: usize;
        if let Some(i) = found {
            let ghost old_counts = self.counts@;
            let c = self.counts[i].1;
            now = if c < usize::MAX { c + 1 } else { c };
            let name = self.counts[i].0.clone();
            self.counts.set(i, (name, now));
            proof {
                assert(m0.contains_key(client@));
                assert forall|j: int| 0 <= j < old_counts.len() && old_counts[j].0@ == client@ implies j == i by {}
                assert(m0[client@] == c);
                assert forall|k: Seq<char>| #[trigger] self.counts().contains_key(k) == m0.insert(client@, now as nat).contains_key(k) by {
                    if k == client@ {
                        assert(self.counts@[i as int].0@ == k);
                    }
                    if k != client@ {
                        if m0.contains_key(k) {
                            let j = choose|j: int| 0 <= j < old_counts.len() && (#[trigger] old_counts[j]).0@ == k;
                            assert(self.counts@[j].0@ == k);
                        }
                    }
                    if self.counts().contains_key(k) {
                        let j = choose|j: int| 0 <= j < self.counts@.len() && (#[trigger] self.counts@[j]).0@ == k;
                        if j != i {
                            assert(old_counts[j].0@ == k);
                        }
                    }
                }
                assert forall|k: Seq<char>| #[trigger] self.counts().contains_key(k) implies self.counts()[k] == m0.insert(client@, now as nat)[k] by {
                    let j = choose|j: int| 0 <= j < self.counts@.len() && (#[trigger] self.counts@[j]).0@ == k;
                    let j0 = choose|j: int| 0 <= j < old_counts.len() && (#[trigger] old_counts[j]).0@ == k;
                    if k != client@ {
                        assert(j != i);
                        assert(old_counts[j].0@ == k);
                        assert(self.counts@[j0].0@ == k);
                    }
                }
                assert(self.counts() =~= m0.insert(client@, now as nat));
            }
        } else {
            now = 1;
            let ghost old_counts = self.counts@;
            self.counts.push((client.to_owned(), 1));
            proof {
                assert(!m0.contains_key(client@));
                assert forall|k: Seq<char>| #[trigger] self.counts().contains_key(k) == m0.insert(client@, 1nat).contains_key(k) by {
                    if k != client@ && m0.contains_key(k) {
                        let j = choose|j: int| 0 <= j < old_counts.len() && (#[trigger] old_counts[j]).0@ == k;
                        assert(self.counts@[j].0@ == k);
                    }
                    if self.counts().contains_key(k) && k != client@ {
                        let j = choose|j: int| 0 <= j < self.counts@.len() && (#[trigger] self.counts@[j]).0@ == k;
                        assert(j < old_counts.len());
                        assert(old_counts[j].0@ == k);
                    }
                    if k == client@ {
                        assert(self.counts@[old_counts.len() as int].0@ == k);
                    }
                }
                assert forall|k: Seq<char>| #[trigger] self.counts().contains_key(k) implies self.counts()[k] == m0.insert(client@, 1nat)[k] by {
                    let j = choose|j: int| 0 <= j < self.counts@.len() && (#[trigger] self.counts@[j]).0@ == k;
                    if k != client@ {
                        let j0 = choose|j: int| 0 <= j < old_counts.len() && (#[trigger] old_counts[j]).0@ == k;
                        assert(self.counts@[j0] == old_counts[j0]);
                    } else {
                        assert(self.counts@[old_counts.len() as int].0@ == k);
                    }
                }
                assert(self.counts() =~= m0.insert(client@, 1nat));
            }
        }
        self.limit == 0 || now <= self.limit
    }

    /// Starts a new window: forgets every count.
    pub fn clear(&mut self)
        ensures
            final(self).wf(),
            final(self).counts() == Map::<Seq<char>, nat>::empty(),
            final(self).limit_spec() == old(self).limit_spec(),
    {
        self.counts = Vec::new();
        assert(self.counts() =~= Map::<Seq<char>, nat>::empty());
    }
}

} // verus!
