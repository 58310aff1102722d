use vstd::prelude::*;

use crate::address::Address;
use crate::outcome::CrawlOutcome;
use crate::outcome::OutcomeView;
use crate::outcome::copy_outcome;

verus! {

/// The answer of the visited store's gate: exactly one caller among all
/// that ever claim the same address receives `ClaimedByMe`.
#[derive(Clone, Copy, PartialEq, Eq, Structural, Debug)]
pub enum ClaimResult {
    ClaimedByMe,
    AlreadyClaimed,
}

/// Whether a claim of `a` against a store whose value is `m` is granted:
/// it is, exactly when the address was never claimed before.
pub open spec fn claim_grants(m: Map<Address, Option<OutcomeView>>, a: Address) -> bool {
    !m.contains_key(a)
}

/// No two entries of a record list share an address.
pub open spec fn record_keys_unique(done: Seq<(Address, CrawlOutcome)>) -> bool {
    forall|i: int, j: int| 0 <= i < j < done.len() ==> done[i].0 != done[j].0
}

/// How many entries of a record list carry a neighbor list: the peers
/// that answered, as opposed to the unreachable ones.
pub open spec fn spec_count_discovered(es: Seq<(Address, CrawlOutcome)>) -> int
    decreases es.len(),
{
    if es.len() == 0 {
        0int
    } else {
        spec_count_discovered(es.drop_last()) + if es.last().1 is Discovered {
            1int
        } else {
            0int
        }
    }
}

/// Counts the entries of a snapshot whose peer answered with a neighbor
/// list.
pub fn count_discovered(entries: &Vec<(Address, CrawlOutcome)>) -> (n: usize)
    ensures
        n == spec_count_discovered(entries@),
{
    let mut n: usize = 0;
    let mut i: usize = 0;
    while i < entries.len()
        invariant
            i <= entries@.len(),
            n <= i,
            n == spec_count_discovered(entries@.subrange(0, i as int)),
        decreases entries@.len() - i,
    {
        if matches!(&entries[i].1, CrawlOutcome::Discovered(_)) {
            n = n + 1;
        }
        proof {
            let sub = entries@.subrange(0, i + 1);
            assert(sub.drop_last() =~= entries@.subrange(0, i as int));
            assert(sub.last() == entries@[i as int]);
        }
        i = i + 1;
    }
    proof {
        assert(entries@.subrange(0, entries@.len() as int) =~= entries@);
    }
    n
}

/// The recorded outcome for `a` in a record list, if any.
spec fn record_lookup(done: Seq<(Address, CrawlOutcome)>, a: Address) -> Option<OutcomeView> {
    if exists|i: int| 0 <= i < done.len() && done[i].0 == a {
        let i = choose|i: int| 0 <= i < done.len() && done[i].0 == a;
        Some(done[i].1@)
    } else {
        None
    }
}

/// The archive of crawl attempts: which addresses were ever claimed, and
/// the terminal outcome of each finished attempt.
///
/// Its value is a map from every claimed address to `Some(outcome)` once
/// the attempt was recorded, and to `None` while it is still in flight.
/// `claim` grants an address at most once over the crawl's lifetime, so
/// no address is ever attempted twice. `record` stores the terminal
/// outcome of a granted claim; an outcome, once written, is never
/// overwritten.
pub struct VisitedStore {
    claimed: Vec<Address>,
    done: Vec<(Address, CrawlOutcome)>,
}

impl View for VisitedStore {
    type V = Map<Address, Option<OutcomeView>>;

    closed spec fn view(&self) -> Map<Address, Option<OutcomeView>> {
        Map::new(
            |a: Address| self.claimed@.contains(a),
            |a: Address| record_lookup(self.done@, a),
        )
    }
}

impl VisitedStore {
    /// The store is well formed: no address was claimed or recorded twice,
    /// and only claimed addresses carry records.
    pub closed spec fn wf(&self) -> bool {
        &&& self.claimed@.no_duplicates()
        &&& record_keys_unique(self.done@)
        &&& forall|i: int|
            0 <= i < self.done@.len() ==> self.claimed@.contains(#[trigger] self.done@[i].0)
    }

    /// How many claimed addresses still await their record: the number of
    /// attempts in flight.
    pub closed spec fn pending_count(&self) -> int {
        self.claimed@.len() - self.done@.len()
    }

    /// How many addresses were ever claimed, as a mathematical value.
    pub closed spec fn claimed_len(&self) -> nat {
        self.claimed@.len()
    }

    /// Creates an empty store.
    pub fn new() -> (s: VisitedStore)
        ensures
            s.wf(),
            s@ == Map::<Address, Option<OutcomeView>>::empty(),
            s.pending_count() == 0,
            s.claimed_len() == 0,
    {
        let s = VisitedStore { claimed: Vec::new(), done: Vec::new() };
        proof {
            assert(s@ =~= Map::<Address, Option<OutcomeView>>::empty());
        }
        s
    }

    fn claimed_contains(&self, a: Address) -> (r: bool)
        ensures
            r == self.claimed@.contains(a),
    {
        let mut i: usize = 0;
        while i < self.claimed.len()
            invariant
                i <= self.claimed@.len(),
                forall|j: int| 0 <= j < i ==> self.claimed@[j] != a,
            decreases self.claimed@.len() - i,
        {
            if self.claimed[i] == a {
                return true;
            }
            i = i + 1;
        }
        false
    }

    /// Whether `a` was ever claimed.
    pub fn contains(&self, a: Address) -> (r: bool)
        ensures
            r == self@.contains_key(a),
    {
        self.claimed_contains(a)
    }

    /// The atomic check-and-claim gate. The claim is granted exactly when
    /// the address was never claimed before; a granted address enters the
    /// store as pending, and nothing else changes.
    pub fn claim(&mut self, a: Address) -> (r: ClaimResult)
        requires
            old(self).wf(),
        ensures
            final(self).wf(),
            (r == ClaimResult::ClaimedByMe) == claim_grants(old(self)@, a),
            claim_grants(old(self)@, a) ==> final(self)@ == old(self)@.insert(
                a,
                None::<OutcomeView>,
            ) && final(self).pending_count() == old(self).pending_count() + 1
                && final(self).claimed_len() == old(self).claimed_len() + 1,
            !claim_grants(old(self)@, a) ==> *final(self) == *old(self),
            old(self)@.dom().subset_of(final(self)@.dom()),
    {
        if self.claimed_contains(a) {
            ClaimResult::AlreadyClaimed
        } else {
            let ghost pre = *self;
            self.claimed.push(a);
            proof {
                assert forall|b: Address| #[trigger]
                    self.claimed@.contains(b) == (pre.claimed@.contains(b) || b == a) by {
                    if self.claimed@.contains(b) {
                        let i = choose|i: int|
                            0 <= i < self.claimed@.len() && self.claimed@[i] == b;
                        if i < pre.claimed@.len() {
                            assert(pre.claimed@[i] == b);
                        }
                    }
                    if pre.claimed@.contains(b) {
                        let i = choose|i: int|
                            0 <= i < pre.claimed@.len() && pre.claimed@[i] == b;
                        assert(self.claimed@[i] == b);
                    }
                    if b == a {
                        assert(self.claimed@[pre.claimed@.len() as int] == a);
                    }
                }
                assert(self.claimed@.no_duplicates());
                assert forall|i: int| 0 <= i < self.done@.len() implies #[trigger]
                    self.done@[i].0 != a by {
                    assert(pre.claimed@.contains(self.done@[i].0));
                }
                assert(record_lookup(self.done@, a) == None::<OutcomeView>);
                let m1 = pre@.insert(a, None::<OutcomeView>);
                assert forall|b: Address| self@.contains_key(b) == m1.contains_key(b) by {
                    assert(self.claimed@.contains(b) == (pre.claimed@.contains(b) || b == a));
                }
                assert forall|b: Address| #[trigger]
                    self@.contains_key(b) implies self@[b] == m1[b] by {
                    assert(self.claimed@.contains(b) == (pre.claimed@.contains(b) || b == a));
                    if b == a {
                        assert(self@[a] == record_lookup(self.done@, a));
                    } else {
                        assert(self@[b] == record_lookup(self.done@, b));
                        assert(m1[b] == record_lookup(pre.done@, b));
                    }
                }
                assert(self@ =~= m1);
            }
            ClaimResult::ClaimedByMe
        }
    }

    /// Stores the terminal outcome of a claimed, still pending address.
    pub fn record(&mut self, a: Address, outcome: CrawlOutcome)
        requires
            old(self).wf(),
            old(self)@.contains_key(a),
            old(self)@[a] is None,
        ensures
            final(self).wf(),
            final(self)@ == old(self)@.insert(a, Some(outcome@)),
            final(self).pending_count() == old(self).pending_count() - 1,
            final(self).claimed_len() == old(self).claimed_len(),
            final(self)@.dom() == old(self)@.dom(),
    {
        let ghost pre = *self;
        proof {
            assert forall|i: int| 0 <= i < pre.done@.len() implies #[trigger] pre.done@[i].0
                != a by {
                if pre.done@[i].0 == a {
                    assert(record_lookup(pre.done@, a) is Some);
                }
            }
        }
        self.done.push((a, outcome));
        proof {
            let post = self.done@;
            assert forall|b: Address| #[trigger]
                record_lookup(post, b) == if b == a {
                    Some(outcome@)
                } else {
                    record_lookup(pre.done@, b)
                } by {
                if b == a {
                    assert(post[post.len() - 1].0 == a);
                    let i = choose|i: int| 0 <= i < post.len() && post[i].0 == a;
                    if i < post.len() - 1 {
                        assert(pre.done@[i].0 == a);
                    }
                    assert(record_lookup(post, a) == Some(outcome@));
                } else {
                    if exists|i: int| 0 <= i < pre.done@.len() && pre.done@[i].0 == b {
                        let i1 = choose|i: int|
                            0 <= i < pre.done@.len() && pre.done@[i].0 == b;
                        assert(post[i1].0 == b);
                        let i2 = choose|i: int| 0 <= i < post.len() && post[i].0 == b;
                        assert(i2 < post.len() - 1);
                        assert(pre.done@[i2].0 == b);
                        assert(i1 == i2);
                    } else {
                        if exists|i: int| 0 <= i < post.len() && post[i].0 == b {
                            let i = choose|i: int| 0 <= i < post.len() && post[i].0 == b;
                            assert(i < post.len() - 1);
                            assert(pre.done@[i].0 == b);
                        }
                    }
                }
            }
            assert(self@ =~= pre@.insert(a, Some(outcome@)));
            assert(self@.dom() =~= pre@.dom());
        }
    }

    /// The recorded outcome for `a`: `None` while `a` is unclaimed or
    /// still pending.
    pub fn get(&self, a: Address) -> (r: Option<CrawlOutcome>)
        requires
            self.wf(),
        ensures
            match r {
                Option::Some(o) => self@.contains_key(a) && self@[a] == Some(o@),
                Option::None => !self@.contains_key(a) || self@[a] is None,
            },
    {
        let mut i: usize = 0;
        while i < self.done.len()
            invariant
                self.wf(),
                i <= self.done@.len(),
                forall|j: int| 0 <= j < i ==> self.done@[j].0 != a,
            decreases self.done@.len() - i,
        {
            if self.done[i].0 == a {
                let out = copy_outcome(&self.done[i].1);
                proof {
                    let k = choose|k: int| 0 <= k < self.done@.len() && self.done@[k].0 == a;
                    assert(k == i);
                    assert(self@[a] == Some(self.done@[i as int].1@));
                }
                return Some(out);
            }
            i = i + 1;
        }
        proof {
            assert(record_lookup(self.done@, a) is None);
        }
        None
    }

    /// How many addresses were ever claimed.
    pub fn len(&self) -> (n: usize)
        requires
            self.wf(),
        ensures
            n == self@.dom().len(),
    {
        proof {
            broadcast use vstd::seq_lib::seq_to_set_is_finite;

            self.claimed@.unique_seq_to_set();
            assert(self@.dom() =~= self.claimed@.to_set());
        }
        self.claimed.len()
    }

    /// Exactly-once gate: once an address stands in the store, every later
    /// claim of it is refused, however the store has grown meanwhile.
    pub proof fn lemma_claim_exactly_once(
        m1: Map<Address, Option<OutcomeView>>,
        m2: Map<Address, Option<OutcomeView>>,
        a: Address,
    )
        requires
            m1.dom().subset_of(m2.dom()),
            m1.contains_key(a),
        ensures
            !claim_grants(m2, a),
    {
    }

    /// Relates the in-flight counter to the records: it never goes
    /// negative, and it is zero exactly when every claimed address
    /// carries a recorded outcome. So a crawl with no pending attempt
    /// left no address behind, and an attempt mid-flight keeps the
    /// counter above zero.
    pub proof fn lemma_pending_counts(&self)
        requires
            self.wf(),
        ensures
            0 <= self.pending_count(),
            (self.pending_count() == 0) <==> (forall|a: Address| #[trigger]
                self@.contains_key(a) ==> self@[a] is Some),
    {
        broadcast use vstd::seq_lib::seq_to_set_is_finite;

        let ckeys = self.claimed@.to_set();
        let dseq = self.done@.map_values(|p: (Address, CrawlOutcome)| p.0);
        let dkeys = dseq.to_set();
        assert(dseq.no_duplicates());
        self.claimed@.unique_seq_to_set();
        dseq.unique_seq_to_set();
        assert forall|b: Address| dkeys.contains(b) implies ckeys.contains(b) by {
            let i = choose|i: int| 0 <= i < dseq.len() && dseq[i] == b;
            assert(self.done@[i].0 == b);
            assert(self.claimed@.contains(b));
        }
        assert(dkeys.subset_of(ckeys));
        vstd::set_lib::lemma_len_subset(dkeys, ckeys);
        if self.pending_count() == 0 {
            if !ckeys.subset_of(dkeys) {
                let x = choose|x: Address| ckeys.contains(x) && !dkeys.contains(x);
                let smaller = ckeys.remove(x);
                assert(dkeys.subset_of(smaller));
                vstd::set_lib::lemma_len_subset(dkeys, smaller);
                assert(smaller.len() == ckeys.len() - 1);
                assert(false);
            }
            assert forall|a: Address| #[trigger] self@.contains_key(a) implies self@[a] is Some by {
                assert(ckeys.contains(a));
                assert(dkeys.contains(a));
                let i = choose|i: int| 0 <= i < dseq.len() && dseq[i] == a;
                assert(self.done@[i].0 == a);
                assert(record_lookup(self.done@, a) is Some);
            }
        }
        if forall|a: Address| #[trigger] self@.contains_key(a) ==> self@[a] is Some {
            assert forall|b: Address| ckeys.contains(b) implies dkeys.contains(b) by {
                assert(self.claimed@.contains(b));
                assert(self@.contains_key(b));
                assert(self@[b] is Some);
                assert(record_lookup(self.done@, b) is Some);
                let i = choose|i: int| 0 <= i < self.done@.len() && self.done@[i].0 == b;
                assert(dseq[i] == b);
            }
            vstd::set_lib::lemma_len_subset(ckeys, dkeys);
        }
    }

    /// The number of attempts in flight: addresses claimed whose record
    /// has not arrived yet.
    pub fn pending(&self) -> (n: usize)
        requires
            self.wf(),
        ensures
            n == self.pending_count(),
    {
        proof {
            self.lemma_pending_counts();
        }
        self.claimed.len() - self.done.len()
    }

    /// A store whose addresses all lie in a finite universe has claimed
    /// no more addresses than the universe holds.
    pub proof fn lemma_claimed_len_bounded(&self, u: Set<Address>)
        requires
            self.wf(),
            u.finite(),
            forall|a: Address| #[trigger] self@.contains_key(a) ==> u.contains(a),
        ensures
            self.claimed_len() <= u.len(),
    {
        broadcast use vstd::seq_lib::seq_to_set_is_finite;

        self.claimed@.unique_seq_to_set();
        assert forall|b: Address| self.claimed@.to_set().contains(b) implies u.contains(b) by {
            assert(self.claimed@.contains(b));
            assert(self@.contains_key(b));
        }
        vstd::set_lib::lemma_len_subset(self.claimed@.to_set(), u);
    }

    /// The recorded entries, one per finished attempt, in record order.
    pub fn snapshot(&self) -> (r: Vec<(Address, CrawlOutcome)>)
        requires
            self.wf(),
        ensures
            record_keys_unique(r@),
            forall|i: int|
                0 <= i < r@.len() ==> self@.contains_key(#[trigger] r@[i].0) && self@[r@[i].0]
                    == Some(r@[i].1@),
            forall|a: Address|
                self@.contains_key(a) && self@[a] is Some ==> exists|i: int|
                    0 <= i < r@.len() && #[trigger] r@[i].0 == a,
    {
        let mut r: Vec<(Address, CrawlOutcome)> = Vec::new();
        let mut i: usize = 0;
        while i < self.done.len()
            invariant
                self.wf(),
                i <= self.done@.len(),
                r@.len() == i,
                forall|j: int|
                    0 <= j < i ==> (#[trigger] r@[j]).0 == self.done@[j].0 && r@[j].1@
                        == self.done@[j].1@,
            decreases self.done@.len() - i,
        {
            let a = self.done[i].0;
            let out = copy_outcome(&self.done[i].1);
            r.push((a, out));
            i = i + 1;
        }
        proof {
            assert forall|i: int|
                0 <= i < r@.len() implies self@.contains_key(#[trigger] r@[i].0) && self@[r@[i].0]
                == Some(r@[i].1@) by {
                assert(self.done@[i].0 == r@[i].0);
                assert(self.claimed@.contains(r@[i].0));
                let k = choose|k: int|
                    0 <= k < self.done@.len() && self.done@[k].0 == r@[i].0;
                assert(k == i);
            }
            assert forall|a: Address|
                self@.contains_key(a) && self@[a] is Some implies exists|i: int|
                0 <= i < r@.len() && #[trigger] r@[i].0 == a by {
                assert(record_lookup(self.done@, a) is Some);
                let k = choose|k: int| 0 <= k < self.done@.len() && self.done@[k].0 == a;
                assert(r@[k].0 == a);
            }
        }
        r
    }
}

} // verus!
