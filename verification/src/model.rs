use vstd::prelude::*;

use crate::address::Address;
use crate::outcome::OutcomeView;

verus! {

// The mathematical model of one crawl: what a deterministic network
// answers, which addresses are reachable from the bootstrap set, and the
// invariant that ties the frontier and the visited store together at
// every step, whichever worker moves next.

/// What the network answers for `a`: the outcome it holds, or
/// `Unreachable` for an address it knows nothing about.
pub open spec fn net_outcome(net: Map<Address, OutcomeView>, a: Address) -> OutcomeView {
    if net.contains_key(a) {
        net[a]
    } else {
        OutcomeView::Unreachable
    }
}

/// The neighbors an outcome discovered; none for an unreachable peer.
pub open spec fn neighbors_of(o: OutcomeView) -> Seq<Address> {
    match o {
        OutcomeView::Discovered(ns) => ns,
        OutcomeView::Unreachable => Seq::empty(),
    }
}

/// There is a discovered edge from `a` to `b`: crawling `a` succeeds and
/// reports `b` among its neighbors.
pub open spec fn edge(net: Map<Address, OutcomeView>, a: Address, b: Address) -> bool {
    neighbors_of(net_outcome(net, a)).contains(b)
}

/// The addresses reachable from `boot` by at most `n` discovered edges.
pub open spec fn reach_n(net: Map<Address, OutcomeView>, boot: Set<Address>, n: nat) -> Set<
    Address,
>
    decreases n,
{
    if n == 0 {
        boot
    } else {
        let prev = reach_n(net, boot, (n - 1) as nat);
        Set::new(
            |b: Address| prev.contains(b) || exists|a: Address| prev.contains(a) && edge(net, a, b),
        )
    }
}

/// `a` is reachable from the bootstrap set via a chain of discovered
/// edges; the bootstrap addresses themselves are reachable.
pub open spec fn reachable(net: Map<Address, OutcomeView>, boot: Set<Address>, a: Address) -> bool {
    exists|n: nat| reach_n(net, boot, n).contains(a)
}

/// One discovered edge keeps reachability.
pub proof fn lemma_reachable_step(
    net: Map<Address, OutcomeView>,
    boot: Set<Address>,
    a: Address,
    b: Address,
)
    requires
        reachable(net, boot, a),
        edge(net, a, b),
    ensures
        reachable(net, boot, b),
{
    let n = choose|n: nat| reach_n(net, boot, n).contains(a);
    assert(reach_n(net, boot, n + 1).contains(b));
}

/// A set that holds the bootstrap addresses and is closed under
/// discovered edges holds every reach set.
pub proof fn lemma_closed_covers(
    net: Map<Address, OutcomeView>,
    boot: Set<Address>,
    s: Set<Address>,
    n: nat,
)
    requires
        boot.subset_of(s),
        forall|a: Address, b: Address| s.contains(a) && #[trigger] edge(net, a, b) ==> s.contains(
            b,
        ),
    ensures
        reach_n(net, boot, n).subset_of(s),
    decreases n,
{
    if n > 0 {
        lemma_closed_covers(net, boot, s, (n - 1) as nat);
        let prev = reach_n(net, boot, (n - 1) as nat);
        assert forall|b: Address| reach_n(net, boot, n).contains(b) implies s.contains(b) by {
            if !prev.contains(b) {
                let a = choose|a: Address| prev.contains(a) && edge(net, a, b);
                assert(s.contains(a));
            }
        }
    }
}

/// What a finished crawl leaves behind: a record for exactly the
/// reachable addresses, each holding the network's own answer for it.
pub open spec fn crawl_complete(
    net: Map<Address, OutcomeView>,
    boot: Set<Address>,
    m: Map<Address, Option<OutcomeView>>,
) -> bool {
    &&& (forall|a: Address| #[trigger] m.contains_key(a) <==> reachable(net, boot, a))
    &&& (forall|a: Address| #[trigger] m.contains_key(a) ==> m[a] == Some(net_outcome(net, a)))
}

/// The completed store is a function of the network and the bootstrap
/// set alone: two finished crawls of the same network agree, however
/// many workers each ran and in whatever order the frontier surfaced
/// its work.
pub proof fn lemma_crawl_result_unique(
    net: Map<Address, OutcomeView>,
    boot: Set<Address>,
    m1: Map<Address, Option<OutcomeView>>,
    m2: Map<Address, Option<OutcomeView>>,
)
    requires
        crawl_complete(net, boot, m1),
        crawl_complete(net, boot, m2),
    ensures
        m1 == m2,
{
    assert forall|a: Address| #[trigger] m1.contains_key(a) == m2.contains_key(a) by {
        assert(m1.contains_key(a) <==> reachable(net, boot, a));
        assert(m2.contains_key(a) <==> reachable(net, boot, a));
    }
    assert(m1 =~= m2);
}

/// The crawl invariant. It holds when the frontier is seeded with the
/// bootstrap addresses and it is kept by every worker step, under any
/// interleaving:
/// - every visited address and every frontier entry is reachable;
/// - every bootstrap address is visited or still in the frontier;
/// - every recorded outcome is the network's answer for its address;
/// - every discovered edge out of a recorded address leads to an address
///   that is visited or still in the frontier.
pub open spec fn crawl_inv(
    net: Map<Address, OutcomeView>,
    boot: Set<Address>,
    fr: Seq<Address>,
    vs: Map<Address, Option<OutcomeView>>,
) -> bool {
    &&& (forall|a: Address| #[trigger] vs.contains_key(a) ==> reachable(net, boot, a))
    &&& (forall|i: int| 0 <= i < fr.len() ==> reachable(net, boot, #[trigger] fr[i]))
    &&& (forall|a: Address| #[trigger] boot.contains(a) ==> vs.contains_key(a) || fr.contains(a))
    &&& (forall|a: Address| #[trigger] vs.contains_key(a) && vs[a] is Some ==> vs[a] == Some(
        net_outcome(net, a),
    ))
    &&& (forall|a: Address, b: Address|
        vs.contains_key(a) && vs[a] is Some && #[trigger] edge(net, a, b) ==> vs.contains_key(b)
            || fr.contains(b))
}

/// A nonempty sequence holds an element iff it is the head or the tail
/// holds it.
proof fn lemma_contains_head_tail<A>(s: Seq<A>, b: A)
    requires
        s.len() > 0,
    ensures
        s.contains(b) <==> (b == s[0] || s.drop_first().contains(b)),
{
    if s.contains(b) {
        let i = choose|i: int| 0 <= i < s.len() && s[i] == b;
        if i > 0 {
            assert(s.drop_first()[i - 1] == b);
        }
    }
    if s.drop_first().contains(b) {
        let i = choose|i: int| 0 <= i < s.drop_first().len() && s.drop_first()[i] == b;
        assert(s[i + 1] == b);
    }
}

/// A concatenation holds an element iff one of its parts holds it.
proof fn lemma_contains_concat<A>(s1: Seq<A>, s2: Seq<A>, b: A)
    ensures
        (s1 + s2).contains(b) <==> (s1.contains(b) || s2.contains(b)),
{
    if (s1 + s2).contains(b) {
        let i = choose|i: int| 0 <= i < (s1 + s2).len() && (s1 + s2)[i] == b;
        if i < s1.len() {
            assert(s1[i] == b);
        } else {
            assert(s2[i - s1.len()] == b);
        }
    }
    if s1.contains(b) {
        let i = choose|i: int| 0 <= i < s1.len() && s1[i] == b;
        assert((s1 + s2)[i] == b);
    }
    if s2.contains(b) {
        let i = choose|i: int| 0 <= i < s2.len() && s2[i] == b;
        assert((s1 + s2)[s1.len() + i] == b);
    }
}

/// Seeding the frontier with the bootstrap addresses establishes the
/// crawl invariant over an empty store.
pub proof fn lemma_inv_init(net: Map<Address, OutcomeView>, boot: Seq<Address>)
    ensures
        crawl_inv(net, boot.to_set(), boot, Map::empty()),
{
    let bset = boot.to_set();
    assert forall|i: int| 0 <= i < boot.len() implies reachable(net, bset, #[trigger] boot[i]) by {
        assert(bset.contains(boot[i]));
        assert(reach_n(net, bset, 0).contains(boot[i]));
    }
}

/// Popping an already visited address keeps the crawl invariant.
pub proof fn lemma_inv_skip(
    net: Map<Address, OutcomeView>,
    boot: Set<Address>,
    fr: Seq<Address>,
    vs: Map<Address, Option<OutcomeView>>,
)
    requires
        crawl_inv(net, boot, fr, vs),
        fr.len() > 0,
        vs.contains_key(fr[0]),
    ensures
        crawl_inv(net, boot, fr.drop_first(), vs),
{
    let tail = fr.drop_first();
    assert forall|i: int| 0 <= i < tail.len() implies reachable(net, boot, #[trigger] tail[i]) by {
        assert(tail[i] == fr[i + 1]);
    }
    assert forall|a: Address| #[trigger] boot.contains(a) implies vs.contains_key(a)
        || tail.contains(a) by {
        if !vs.contains_key(a) {
            lemma_contains_head_tail(fr, a);
        }
    }
    assert forall|a: Address, b: Address|
        vs.contains_key(a) && vs[a] is Some && #[trigger] edge(net, a, b) implies vs.contains_key(
        b,
    ) || tail.contains(b) by {
        if !vs.contains_key(b) {
            lemma_contains_head_tail(fr, b);
        }
    }
}

/// Claiming the frontier's head keeps the crawl invariant: the address
/// enters the store as pending.
pub proof fn lemma_inv_claim(
    net: Map<Address, OutcomeView>,
    boot: Set<Address>,
    fr: Seq<Address>,
    vs: Map<Address, Option<OutcomeView>>,
)
    requires
        crawl_inv(net, boot, fr, vs),
        fr.len() > 0,
        !vs.contains_key(fr[0]),
    ensures
        crawl_inv(net, boot, fr.drop_first(), vs.insert(fr[0], None::<OutcomeView>)),
{
    let tail = fr.drop_first();
    let vs2 = vs.insert(fr[0], None::<OutcomeView>);
    assert forall|i: int| 0 <= i < tail.len() implies reachable(net, boot, #[trigger] tail[i]) by {
        assert(tail[i] == fr[i + 1]);
    }
    assert forall|a: Address| #[trigger] boot.contains(a) implies vs2.contains_key(a)
        || tail.contains(a) by {
        if !vs2.contains_key(a) {
            lemma_contains_head_tail(fr, a);
        }
    }
    assert forall|a: Address, b: Address|
        vs2.contains_key(a) && vs2[a] is Some && #[trigger] edge(net, a, b) implies
        vs2.contains_key(b) || tail.contains(b) by {
        assert(a != fr[0]);
        assert(vs.contains_key(a) && vs[a] is Some);
        if !vs.contains_key(b) {
            lemma_contains_head_tail(fr, b);
        }
    }
}

/// Recording the network's answer for a pending address and enqueueing
/// every discovered neighbor keeps the crawl invariant.
pub proof fn lemma_inv_finish(
    net: Map<Address, OutcomeView>,
    boot: Set<Address>,
    fr: Seq<Address>,
    vs: Map<Address, Option<OutcomeView>>,
    a: Address,
    o: OutcomeView,
)
    requires
        crawl_inv(net, boot, fr, vs),
        vs.contains_key(a),
        vs[a] is None,
        o == net_outcome(net, a),
    ensures
        crawl_inv(net, boot, fr + neighbors_of(o), vs.insert(a, Some(o))),
{
    let fr2 = fr + neighbors_of(o);
    let vs2 = vs.insert(a, Some(o));
    assert forall|i: int| 0 <= i < fr2.len() implies reachable(net, boot, #[trigger] fr2[i]) by {
        if i < fr.len() {
            assert(fr2[i] == fr[i]);
        } else {
            let b = fr2[i];
            assert(b == neighbors_of(o)[i - fr.len()]);
            assert(neighbors_of(net_outcome(net, a)).contains(b));
            assert(edge(net, a, b));
            lemma_reachable_step(net, boot, a, b);
        }
    }
    assert forall|b: Address| #[trigger] boot.contains(b) implies vs2.contains_key(b)
        || fr2.contains(b) by {
        if !vs2.contains_key(b) && fr.contains(b) {
            lemma_contains_concat(fr, neighbors_of(o), b);
        }
    }
    assert forall|x: Address, b: Address|
        vs2.contains_key(x) && vs2[x] is Some && #[trigger] edge(net, x, b) implies
        vs2.contains_key(b) || fr2.contains(b) by {
        if x == a {
            assert(neighbors_of(net_outcome(net, a)).contains(b));
            lemma_contains_concat(fr, neighbors_of(o), b);
        } else {
            assert(vs.contains_key(x) && vs[x] is Some);
            if !vs.contains_key(b) {
                assert(fr.contains(b));
                lemma_contains_concat(fr, neighbors_of(o), b);
            }
        }
    }
}

/// When the frontier is empty and no attempt is pending, the crawl
/// invariant gives completion: the store holds exactly the reachable
/// addresses, each with the network's answer. An empty frontier alone
/// is not enough; the lemma asks that no address is still pending.
pub proof fn lemma_inv_complete(
    net: Map<Address, OutcomeView>,
    boot: Set<Address>,
    fr: Seq<Address>,
    vs: Map<Address, Option<OutcomeView>>,
)
    requires
        crawl_inv(net, boot, fr, vs),
        fr.len() == 0,
        forall|a: Address| #[trigger] vs.contains_key(a) ==> vs[a] is Some,
    ensures
        crawl_complete(net, boot, vs),
{
    let s = Set::new(|a: Address| vs.contains_key(a));
    assert forall|a: Address| #[trigger] boot.contains(a) implies s.contains(a) by {
        assert(vs.contains_key(a) || fr.contains(a));
    }
    assert forall|a: Address, b: Address|
        s.contains(a) && #[trigger] edge(net, a, b) implies s.contains(b) by {
        assert(vs.contains_key(a) && vs[a] is Some);
        assert(vs.contains_key(b) || fr.contains(b));
    }
    assert forall|a: Address| reachable(net, boot, a) implies #[trigger] vs.contains_key(a) by {
        let n = choose|n: nat| reach_n(net, boot, n).contains(a);
        lemma_closed_covers(net, boot, s, n);
        assert(s.contains(a));
    }
}

} // verus!
