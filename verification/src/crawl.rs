use vstd::prelude::*;

use crate::address::Address;
use crate::model::crawl_complete;
use crate::model::crawl_inv;
use crate::model::lemma_inv_claim;
use crate::model::lemma_inv_complete;
use crate::model::lemma_inv_finish;
use crate::model::lemma_inv_init;
use crate::model::lemma_inv_skip;
use crate::model::neighbors_of;
use crate::model::net_outcome;
use crate::outcome::CrawlOutcome;
use crate::outcome::OutcomeView;
use crate::outcome::copy_outcome;
use crate::queue::FrontierQueue;
use crate::store::ClaimResult;
use crate::store::VisitedStore;
use crate::store::record_keys_unique;

verus! {

/// The outcome stored in a lookup table for `a` in a list of entries.
spec fn table_lookup(es: Seq<(Address, CrawlOutcome)>, a: Address) -> Option<OutcomeView> {
    if exists|i: int| 0 <= i < es.len() && es[i].0 == a {
        let i = choose|i: int| 0 <= i < es.len() && es[i].0 == a;
        Some(es[i].1@)
    } else {
        None
    }
}

/// A deterministic network, given as a finite table: each listed address
/// answers with its outcome, every other address is unreachable.
///
/// It plays the connector's part when a crawl is driven from a fixed
/// description of the network instead of live peers.
pub struct Network {
    entries: Vec<(Address, CrawlOutcome)>,
}

impl View for Network {
    type V = Map<Address, OutcomeView>;

    closed spec fn view(&self) -> Map<Address, OutcomeView> {
        Map::new(
            |a: Address| table_lookup(self.entries@, a) is Some,
            |a: Address| table_lookup(self.entries@, a)->0,
        )
    }
}

impl Network {
    /// No address is listed twice.
    pub closed spec fn wf(&self) -> bool {
        record_keys_unique(self.entries@)
    }

    /// Every address that any listed peer reports as a neighbor.
    pub closed spec fn neighbor_universe(&self) -> Set<Address> {
        table_neighbors(self.entries@)
    }

    /// Creates a network that knows no peer.
    pub fn new() -> (n: Network)
        ensures
            n.wf(),
            n@ == Map::<Address, OutcomeView>::empty(),
    {
        let n = Network { entries: Vec::new() };
        proof {
            assert(n@ =~= Map::<Address, OutcomeView>::empty());
        }
        n
    }

    /// Adds the answer of one address.
    pub fn add(&mut self, a: Address, outcome: CrawlOutcome)
        requires
            old(self).wf(),
            !old(self)@.contains_key(a),
        ensures
            final(self).wf(),
            final(self)@ == old(self)@.insert(a, outcome@),
    {
        let ghost pre = *self;
        proof {
            assert forall|i: int| 0 <= i < pre.entries@.len() implies #[trigger] pre.entries@[i].0
                != a by {
                if pre.entries@[i].0 == a {
                    assert(table_lookup(pre.entries@, a) is Some);
                    assert(pre@.contains_key(a));
                }
            }
        }
        self.entries.push((a, outcome));
        proof {
            let post = self.entries@;
            assert forall|b: Address| #[trigger]
                table_lookup(post, b) == if b == a {
                    Some(outcome@)
                } else {
                    table_lookup(pre.entries@, b)
                } by {
                if b == a {
                    assert(post[post.len() - 1].0 == a);
                    let i = choose|i: int| 0 <= i < post.len() && post[i].0 == a;
                    if i < post.len() - 1 {
                        assert(pre.entries@[i].0 == a);
                    }
                } else {
                    if exists|i: int| 0 <= i < pre.entries@.len() && pre.entries@[i].0 == b {
                        let i1 = choose|i: int|
                            0 <= i < pre.entries@.len() && pre.entries@[i].0 == b;
                        assert(post[i1].0 == b);
                        let i2 = choose|i: int| 0 <= i < post.len() && post[i].0 == b;
                        assert(i2 < post.len() - 1);
                        assert(pre.entries@[i2].0 == b);
                        assert(i1 == i2);
                    } else {
                        if exists|i: int| 0 <= i < post.len() && post[i].0 == b {
                            let i = choose|i: int| 0 <= i < post.len() && post[i].0 == b;
                            assert(i < post.len() - 1);
                            assert(pre.entries@[i].0 == b);
                        }
                    }
                }
            }
            assert(self@ =~= pre@.insert(a, outcome@));
        }
    }

    /// The network's answer for `a`: its listed outcome, or `Unreachable`
    /// for an address it does not list.
    pub fn lookup(&self, a: Address) -> (r: CrawlOutcome)
        requires
            self.wf(),
        ensures
            r@ == net_outcome(self@, a),
    {
        let mut i: usize = 0;
        while i < self.entries.len()
            invariant
                self.wf(),
                i <= self.entries@.len(),
                forall|j: int| 0 <= j < i ==> self.entries@[j].0 != a,
            decreases self.entries@.len() - i,
        {
            if self.entries[i].0 == a {
                let out = copy_outcome(&self.entries[i].1);
                proof {
                    let k = choose|k: int|
                        0 <= k < self.entries@.len() && self.entries@[k].0 == a;
                    assert(k == i);
                    assert(self@.contains_key(a));
                    assert(self@[a] == self.entries@[i as int].1@);
                }
                return out;
            }
            i = i + 1;
        }
        proof {
            assert(table_lookup(self.entries@, a) is None);
            assert(!self@.contains_key(a));
        }
        CrawlOutcome::Unreachable
    }
}

/// The neighbors one outcome reports, as a set.
spec fn outcome_neighbor_set(o: OutcomeView) -> Set<Address> {
    neighbors_of(o).to_set()
}

/// Every neighbor any entry of the table reports.
spec fn table_neighbors(es: Seq<(Address, CrawlOutcome)>) -> Set<Address>
    decreases es.len(),
{
    if es.len() == 0 {
        Set::empty()
    } else {
        table_neighbors(es.drop_last()).union(outcome_neighbor_set(es.last().1@))
    }
}

proof fn lemma_table_neighbors_finite(es: Seq<(Address, CrawlOutcome)>)
    ensures
        table_neighbors(es).finite(),
    decreases es.len(),
{
    broadcast use vstd::seq_lib::seq_to_set_is_finite;

    if es.len() > 0 {
        lemma_table_neighbors_finite(es.drop_last());
    }
}

proof fn lemma_entry_neighbors_in_table(es: Seq<(Address, CrawlOutcome)>, i: int)
    requires
        0 <= i < es.len(),
    ensures
        outcome_neighbor_set(es[i].1@).subset_of(table_neighbors(es)),
    decreases es.len(),
{
    if i == es.len() - 1 {
        assert(es.last() == es[i]);
    } else {
        lemma_entry_neighbors_in_table(es.drop_last(), i);
        assert(es.drop_last()[i] == es[i]);
    }
}

impl Network {
    /// The set of addresses any peer of this network reports is finite.
    proof fn lemma_universe_finite(&self)
        ensures
            self.neighbor_universe().finite(),
    {
        lemma_table_neighbors_finite(self.entries@);
    }

    /// Whatever the network answers for `a`, the reported neighbors lie
    /// in its neighbor universe.
    proof fn lemma_neighbors_in_universe(&self, a: Address)
        requires
            self.wf(),
        ensures
            forall|b: Address|
                neighbors_of(net_outcome(self@, a)).contains(b) ==> self.neighbor_universe()
                    .contains(b),
    {
        if self@.contains_key(a) {
            assert(table_lookup(self.entries@, a) is Some);
            let i = choose|i: int|
                0 <= i < self.entries@.len() && self.entries@[i].0 == a;
            assert(0 <= i < self.entries@.len() && self.entries@[i].0 == a);
            assert(self@[a] == table_lookup(self.entries@, a)->0);
            assert(self@[a] == self.entries@[i].1@);
            lemma_entry_neighbors_in_table(self.entries@, i);
            assert forall|b: Address|
                neighbors_of(net_outcome(self@, a)).contains(b) implies self.neighbor_universe()
                .contains(b) by {
                assert(outcome_neighbor_set(self.entries@[i].1@).contains(b));
            }
        }
    }
}

/// What one pop of the frontier leads to: the queue had nothing, the
/// popped address was already claimed by an earlier attempt and is
/// discarded, or the popped address was claimed by this worker, which
/// now owns its one crawl attempt.
#[derive(Clone, Copy, PartialEq, Eq, Structural, Debug)]
pub enum BeginOutcome {
    QueueEmpty,
    AlreadyVisited(Address),
    Claimed(Address),
}

/// One crawl's shared state: the frontier queue and the visited store.
///
/// Workers drive it through two steps. `begin_attempt` pops an address
/// and passes it through the claim gate; `finish_attempt` records the
/// connector's answer and enqueues every discovered neighbor. Between
/// the two the attempt is in flight: the crawl is complete only when
/// the frontier is empty and nothing is in flight.
pub struct Crawl {
    frontier: FrontierQueue,
    visited: VisitedStore,
}

impl Crawl {
    /// The addresses awaiting an attempt, head first.
    pub closed spec fn frontier_view(&self) -> Seq<Address> {
        self.frontier@
    }

    /// The visited store's value.
    pub closed spec fn visited_view(&self) -> Map<Address, Option<OutcomeView>> {
        self.visited@
    }

    /// The number of attempts in flight.
    pub closed spec fn pending_count(&self) -> int {
        self.visited.pending_count()
    }

    /// How many addresses were ever claimed.
    pub closed spec fn claimed_len(&self) -> nat {
        self.visited.claimed_len()
    }

    pub closed spec fn wf(&self) -> bool {
        self.visited.wf()
    }

    /// The crawl is complete exactly when the frontier is empty and no
    /// attempt is in flight.
    pub open spec fn complete_spec(&self) -> bool {
        self.frontier_view().len() == 0 && self.pending_count() == 0
    }

    /// A well-formed crawl has no negative in-flight count.
    pub proof fn lemma_wf_pending(&self)
        requires
            self.wf(),
        ensures
            0 <= self.pending_count(),
    {
        self.visited.lemma_pending_counts();
    }

    /// An attempt mid-flight blocks completion: while any claimed
    /// address still awaits its record, the crawl does not report
    /// completion, even at a moment when the frontier is empty.
    pub proof fn lemma_in_flight_blocks_completion(&self, a: Address)
        requires
            self.wf(),
            self.visited_view().contains_key(a),
            self.visited_view()[a] is None,
        ensures
            !self.complete_spec(),
    {
        self.visited.lemma_pending_counts();
    }

    /// Creates a crawl with an empty frontier and an empty store.
    pub fn new() -> (c: Crawl)
        ensures
            c.wf(),
            c.frontier_view() == Seq::<Address>::empty(),
            c.visited_view() == Map::<Address, Option<OutcomeView>>::empty(),
            c.pending_count() == 0,
            c.claimed_len() == 0,
    {
        Crawl { frontier: FrontierQueue::new(), visited: VisitedStore::new() }
    }

    /// Enqueues one address, as seeding does for a bootstrap address.
    pub fn enqueue(&mut self, a: Address)
        requires
            old(self).wf(),
        ensures
            final(self).wf(),
            final(self).frontier_view() == old(self).frontier_view().push(a),
            final(self).visited_view() == old(self).visited_view(),
            final(self).pending_count() == old(self).pending_count(),
            final(self).claimed_len() == old(self).claimed_len(),
    {
        self.frontier.push(a);
    }

    /// Pops one address and passes it through the claim gate. A claim is
    /// granted at most once per address over the crawl's whole lifetime,
    /// so the connector is invoked at most once for any address.
    pub fn begin_attempt(&mut self) -> (r: BeginOutcome)
        requires
            old(self).wf(),
        ensures
            final(self).wf(),
            match r {
                BeginOutcome::QueueEmpty => {
                    &&& old(self).frontier_view().len() == 0
                    &&& final(self).frontier_view() == old(self).frontier_view()
                    &&& final(self).visited_view() == old(self).visited_view()
                    &&& final(self).pending_count() == old(self).pending_count()
                    &&& final(self).claimed_len() == old(self).claimed_len()
                },
                BeginOutcome::AlreadyVisited(a) => {
                    &&& old(self).frontier_view().len() > 0
                    &&& a == old(self).frontier_view()[0]
                    &&& old(self).visited_view().contains_key(a)
                    &&& final(self).frontier_view() == old(self).frontier_view().drop_first()
                    &&& final(self).visited_view() == old(self).visited_view()
                    &&& final(self).pending_count() == old(self).pending_count()
                    &&& final(self).claimed_len() == old(self).claimed_len()
                },
                BeginOutcome::Claimed(a) => {
                    &&& old(self).frontier_view().len() > 0
                    &&& a == old(self).frontier_view()[0]
                    &&& !old(self).visited_view().contains_key(a)
                    &&& final(self).frontier_view() == old(self).frontier_view().drop_first()
                    &&& final(self).visited_view() == old(self).visited_view().insert(
                        a,
                        None::<OutcomeView>,
                    )
                    &&& final(self).pending_count() == old(self).pending_count() + 1
                    &&& final(self).claimed_len() == old(self).claimed_len() + 1
                },
            },
    {
        match self.frontier.pop() {
            None => BeginOutcome::QueueEmpty,
            Some(a) => {
                match self.visited.claim(a) {
                    ClaimResult::AlreadyClaimed => BeginOutcome::AlreadyVisited(a),
                    ClaimResult::ClaimedByMe => BeginOutcome::Claimed(a),
                }
            },
        }
    }

    /// Records the terminal outcome of the in-flight attempt for `a`,
    /// then enqueues every discovered neighbor, in order: no discovery
    /// is lost, and duplicates are left for the claim gate to absorb.
    pub fn finish_attempt(&mut self, a: Address, outcome: CrawlOutcome)
        requires
            old(self).wf(),
            old(self).visited_view().contains_key(a),
            old(self).visited_view()[a] is None,
        ensures
            final(self).wf(),
            final(self).visited_view() == old(self).visited_view().insert(a, Some(outcome@)),
            final(self).frontier_view() == old(self).frontier_view() + neighbors_of(outcome@),
            final(self).pending_count() == old(self).pending_count() - 1,
            final(self).claimed_len() == old(self).claimed_len(),
    {
        match &outcome {
            CrawlOutcome::Discovered(ns) => {
                let ghost fr0 = self.frontier@;
                let mut i: usize = 0;
                while i < ns.len()
                    invariant
                        i <= ns@.len(),
                        self.frontier@ == fr0 + ns@.subrange(0, i as int),
                        self.visited == old(self).visited,
                    decreases ns@.len() - i,
                {
                    self.frontier.push(ns[i]);
                    proof {
                        assert(self.frontier@ =~= fr0 + ns@.subrange(0, i + 1));
                    }
                    i = i + 1;
                }
                proof {
                    assert(self.frontier@ =~= fr0 + ns@);
                }
            },
            CrawlOutcome::Unreachable => {
                proof {
                    assert(self.frontier@ =~= self.frontier@ + Seq::<Address>::empty());
                }
            },
        }
        self.visited.record(a, outcome);
    }

    /// The number of addresses currently queued.
    pub fn frontier_len(&self) -> (n: usize)
        ensures
            n == self.frontier_view().len(),
    {
        self.frontier.len()
    }

    /// The explicit in-flight counter: how many attempts were begun and
    /// not yet finished.
    pub fn in_flight(&self) -> (n: usize)
        requires
            self.wf(),
        ensures
            n == self.pending_count(),
    {
        self.visited.pending()
    }

    /// Detects global termination: the frontier is empty and no worker
    /// holds an unfinished attempt. An empty frontier alone is not
    /// enough — an in-flight attempt may be about to push new work.
    pub fn is_complete(&self) -> (r: bool)
        requires
            self.wf(),
        ensures
            r == self.complete_spec(),
    {
        self.frontier_len() == 0 && self.in_flight() == 0
    }

    /// Hands the visited store out, once the crawl is over.
    pub fn take_store(self) -> (s: VisitedStore)
        requires
            self.wf(),
        ensures
            s.wf(),
            s@ == self.visited_view(),
    {
        self.visited
    }
}

/// What the pool controller does after one sample of the crawl's state.
#[derive(Clone, Copy, PartialEq, Eq, Structural, Debug)]
pub enum PoolDecision {
    Spawn,
    Wait,
    Complete,
}

/// One sampling step of the pool controller: report completion when the
/// queue is empty and nothing is in flight; spawn one more worker when
/// the backlog exceeds the threshold and the pool is below its cap;
/// otherwise wait and sample again.
pub fn controller_decide(
    queue_len: usize,
    in_flight: usize,
    live_workers: usize,
    max_workers: usize,
    backlog_threshold: usize,
) -> (d: PoolDecision)
    ensures
        (d == PoolDecision::Complete) == (queue_len == 0 && in_flight == 0),
        (d == PoolDecision::Spawn) == (!(queue_len == 0 && in_flight == 0) && queue_len
            > backlog_threshold && live_workers < max_workers),
{
    if queue_len == 0 && in_flight == 0 {
        PoolDecision::Complete
    } else if queue_len > backlog_threshold && live_workers < max_workers {
        PoolDecision::Spawn
    } else {
        PoolDecision::Wait
    }
}

/// A sequence extended by one element holds `b` iff it held `b` already
/// or `b` is the new element.
proof fn lemma_contains_push(s: Seq<Address>, x: Address, b: Address)
    ensures
        s.push(x).contains(b) <==> (s.contains(b) || b == x),
{
    if s.contains(b) {
        let i = choose|i: int| 0 <= i < s.len() && s[i] == b;
        assert(s.push(x)[i] == b);
    }
    if b == x {
        assert(s.push(x)[s.len() as int] == b);
    }
    if s.push(x).contains(b) {
        let i = choose|i: int| 0 <= i < s.push(x).len() && s.push(x)[i] == b;
        if i < s.len() {
            assert(s[i] == b);
        }
    }
}

/// Dropping the last element of a duplicate-free sequence keeps exactly
/// the other elements.
proof fn lemma_drop_last_contains(s: Seq<Address>, b: Address)
    requires
        s.len() > 0,
        s.no_duplicates(),
    ensures
        s.subrange(0, s.len() - 1).contains(b) <==> (s.contains(b) && b != s[s.len() - 1]),
{
    let t = s.subrange(0, s.len() - 1);
    if t.contains(b) {
        let i = choose|i: int| 0 <= i < t.len() && t[i] == b;
        assert(s[i] == b);
    }
    if s.contains(b) && b != s[s.len() - 1] {
        let i = choose|i: int| 0 <= i < s.len() && s[i] == b;
        assert(i < s.len() - 1);
        assert(t[i] == b);
    }
}

/// Runs one whole crawl against a deterministic network: seeds the
/// frontier with the bootstrap addresses, drives a pool of workers under
/// the controller's scaling policy, and hands the visited store back
/// once the frontier is empty and no attempt is in flight.
///
/// The store then holds a record for exactly the addresses reachable
/// from the bootstrap set, each carrying the network's own answer —
/// whatever worker cap and backlog threshold the pool ran under.
pub fn run_pool(
    bootstrap: &Vec<Address>,
    net: &Network,
    max_workers: usize,
    backlog_threshold: usize,
) -> (store: VisitedStore)
    requires
        net.wf(),
        max_workers >= 1,
    ensures
        store.wf(),
        crawl_complete(net@, bootstrap@.to_set(), store@),
{
    broadcast use vstd::seq_lib::seq_to_set_is_finite;

    let ghost bset = bootstrap@.to_set();
    let ghost uni = bset.union(net.neighbor_universe());
    proof {
        net.lemma_universe_finite();
        assert(uni.finite());
    }
    let mut crawl = Crawl::new();
    let mut i: usize = 0;
    while i < bootstrap.len()
        invariant
            crawl.wf(),
            i <= bootstrap@.len(),
            crawl.frontier_view() == bootstrap@.subrange(0, i as int),
            crawl.visited_view() == Map::<Address, Option<OutcomeView>>::empty(),
            crawl.pending_count() == 0,
            crawl.claimed_len() == 0,
        decreases bootstrap@.len() - i,
    {
        crawl.enqueue(bootstrap[i]);
        proof {
            assert(crawl.frontier_view() =~= bootstrap@.subrange(0, i + 1));
        }
        i = i + 1;
    }
    proof {
        assert(bootstrap@.subrange(0, bootstrap@.len() as int) =~= bootstrap@);
        lemma_inv_init(net@, bootstrap@);
        assert forall|k: int| 0 <= k < crawl.frontier_view().len() implies uni.contains(
            #[trigger] crawl.frontier_view()[k],
        ) by {
            assert(bset.contains(bootstrap@[k]));
        }
    }
    let mut workers: usize = 1;
    let mut in_flight_addrs: Vec<Address> = Vec::new();
    loop
        invariant_except_break
            crawl.wf(),
            net.wf(),
            max_workers >= 1,
            1 <= workers <= max_workers,
            in_flight_addrs@.len() <= workers,
            in_flight_addrs@.no_duplicates(),
            crawl.pending_count() == in_flight_addrs@.len(),
            forall|a: Address|
                (crawl.visited_view().contains_key(a) && crawl.visited_view()[a] is None)
                    <==> #[trigger] in_flight_addrs@.contains(a),
            crawl_inv(net@, bset, crawl.frontier_view(), crawl.visited_view()),
            uni.finite(),
            uni == bset.union(net.neighbor_universe()),
            bset == bootstrap@.to_set(),
            forall|a: Address| #[trigger]
                crawl.visited_view().contains_key(a) ==> uni.contains(a),
            forall|k: int|
                0 <= k < crawl.frontier_view().len() ==> uni.contains(
                    #[trigger] crawl.frontier_view()[k],
                ),
        ensures
            crawl.wf(),
            crawl_complete(net@, bset, crawl.visited_view()),
        decreases uni.len() - crawl.claimed_len(), crawl.pending_count(),
            crawl.frontier_view().len(),
    {
        proof {
            crawl.visited.lemma_claimed_len_bounded(uni);
        }
        let qlen = crawl.frontier_len();
        let inflight = in_flight_addrs.len();
        match controller_decide(qlen, inflight, workers, max_workers, backlog_threshold) {
            PoolDecision::Complete => {
                proof {
                    crawl.visited.lemma_pending_counts();
                    lemma_inv_complete(net@, bset, crawl.frontier_view(), crawl.visited_view());
                }
                break;
            },
            PoolDecision::Spawn => {
                workers = workers + 1;
            },
            PoolDecision::Wait => {},
        }
        let idle = workers - in_flight_addrs.len();
        if qlen > 0 && idle > 0 {
            let ghost fr0 = crawl.frontier_view();
            let ghost vs0 = crawl.visited_view();
            let ghost list0 = in_flight_addrs@;
            match crawl.begin_attempt() {
                // Never taken: this branch runs only when the frontier
                // holds at least one address.
                BeginOutcome::QueueEmpty => {
                    proof {
                        assert(false);
                    }
                },
                BeginOutcome::AlreadyVisited(a) => {
                    proof {
                        lemma_inv_skip(net@, bset, fr0, vs0);
                        assert forall|k: int|
                            0 <= k < crawl.frontier_view().len() implies uni.contains(
                            #[trigger] crawl.frontier_view()[k],
                        ) by {
                            assert(crawl.frontier_view()[k] == fr0[k + 1]);
                        }
                    }
                },
                BeginOutcome::Claimed(a) => {
                    in_flight_addrs.push(a);
                    proof {
                        lemma_inv_claim(net@, bset, fr0, vs0);
                        assert(!list0.contains(a));
                        assert forall|x: int, y: int|
                            0 <= x < in_flight_addrs@.len() && 0 <= y < in_flight_addrs@.len()
                                && x != y implies in_flight_addrs@[x] != in_flight_addrs@[y] by {
                            if x < list0.len() && y < list0.len() {
                                assert(in_flight_addrs@[x] == list0[x]);
                                assert(in_flight_addrs@[y] == list0[y]);
                            } else if x < list0.len() {
                                assert(in_flight_addrs@[y] == a);
                                if in_flight_addrs@[x] == a {
                                    assert(list0[x] == a);
                                    assert(list0.contains(a));
                                }
                            } else {
                                assert(in_flight_addrs@[x] == a);
                                if in_flight_addrs@[y] == a {
                                    assert(list0[y] == a);
                                    assert(list0.contains(a));
                                }
                            }
                        }
                        assert(in_flight_addrs@.no_duplicates());
                        assert forall|b: Address|
                            (crawl.visited_view().contains_key(b) && crawl.visited_view()[b]
                                is None) <==> #[trigger] in_flight_addrs@.contains(b) by {
                            lemma_contains_push(list0, a, b);
                        }
                        assert forall|k: int|
                            0 <= k < crawl.frontier_view().len() implies uni.contains(
                            #[trigger] crawl.frontier_view()[k],
                        ) by {
                            assert(crawl.frontier_view()[k] == fr0[k + 1]);
                        }
                        assert(uni.contains(a));
                    }
                },
            }
        } else {
            proof {
                if in_flight_addrs@.len() == 0 {
                    assert(qlen > 0);
                    assert(idle == workers);
                    assert(false);
                }
            }
            let ghost list_pre = in_flight_addrs@;
            let a = match in_flight_addrs.pop() {
                Some(x) => x,
                // Never taken: the list was shown nonempty just above.
                None => {
                    proof {
                        assert(false);
                    }
                    Address::v4(0, 0, 0, 0, 0)
                },
            };
            proof {
                assert(a == list_pre[list_pre.len() - 1]);
                assert(list_pre.contains(a));
            }
            let out = net.lookup(a);
            let ghost fr0 = crawl.frontier_view();
            let ghost vs0 = crawl.visited_view();
            crawl.finish_attempt(a, out);
            proof {
                lemma_inv_finish(net@, bset, fr0, vs0, a, out@);
                net.lemma_neighbors_in_universe(a);
                assert forall|k: int|
                    0 <= k < crawl.frontier_view().len() implies uni.contains(
                    #[trigger] crawl.frontier_view()[k],
                ) by {
                    if k < fr0.len() {
                        assert(crawl.frontier_view()[k] == fr0[k]);
                    } else {
                        let b = crawl.frontier_view()[k];
                        assert(b == neighbors_of(out@)[k - fr0.len()]);
                        assert(neighbors_of(net_outcome(net@, a)).contains(b));
                        assert(net.neighbor_universe().contains(b));
                    }
                }
                assert forall|b: Address|
                    (crawl.visited_view().contains_key(b) && crawl.visited_view()[b] is None)
                        <==> #[trigger] in_flight_addrs@.contains(b) by {
                    lemma_drop_last_contains(list_pre, b);
                    assert(in_flight_addrs@ == list_pre.subrange(0, list_pre.len() - 1));
                }
                assert forall|x: int, y: int|
                    0 <= x < in_flight_addrs@.len() && 0 <= y < in_flight_addrs@.len() && x
                        != y implies in_flight_addrs@[x] != in_flight_addrs@[y] by {
                    assert(in_flight_addrs@[x] == list_pre[x]);
                    assert(in_flight_addrs@[y] == list_pre[y]);
                }
                assert(in_flight_addrs@.no_duplicates());
            }
        }
        proof {
            crawl.visited.lemma_claimed_len_bounded(uni);
        }
    }
    let store = crawl.take_store();
    store
}

} // verus!
