use peer_crawler::address::Address;
use peer_crawler::crawl::BeginOutcome;
use peer_crawler::crawl::Crawl;
use peer_crawler::crawl::Network;
use peer_crawler::crawl::PoolDecision;
use peer_crawler::crawl::controller_decide;
use peer_crawler::crawl::run_pool;
use peer_crawler::export::export_csv;
use peer_crawler::outcome::CrawlOutcome;
use peer_crawler::queue::FrontierQueue;
use peer_crawler::store::ClaimResult;
use peer_crawler::store::count_discovered;
use peer_crawler::store::VisitedStore;

fn addr(last: u8, port: u16) -> Address {
    Address::v4(10, 0, 0, last, port)
}

#[test]
fn frontier_is_fifo() {
    let mut q = FrontierQueue::new();
    assert_eq!(q.len(), 0);
    assert_eq!(q.pop(), None);
    let a = addr(1, 3414);
    let b = addr(2, 3414);
    q.push(a);
    q.push(b);
    assert_eq!(q.len(), 2);
    assert_eq!(q.pop(), Some(a));
    assert_eq!(q.pop(), Some(b));
    assert_eq!(q.pop(), None);
    assert_eq!(q.len(), 0);
}

#[test]
fn claim_is_granted_once() {
    let mut s = VisitedStore::new();
    let x = addr(1, 3414);
    let y = addr(2, 3414);
    assert!(!s.contains(x));
    assert_eq!(s.claim(x), ClaimResult::ClaimedByMe);
    assert_eq!(s.claim(x), ClaimResult::AlreadyClaimed);
    assert!(s.contains(x));
    assert_eq!(s.pending(), 1);
    s.record(x, CrawlOutcome::Discovered(vec![y]));
    assert_eq!(s.pending(), 0);
    assert_eq!(s.get(x), Some(CrawlOutcome::Discovered(vec![y])));
    assert_eq!(s.get(y), None);
    assert_eq!(s.len(), 1);
}

#[test]
fn store_records_unreachable() {
    let mut s = VisitedStore::new();
    let x = addr(7, 13414);
    assert_eq!(s.claim(x), ClaimResult::ClaimedByMe);
    s.record(x, CrawlOutcome::Unreachable);
    assert_eq!(s.get(x), Some(CrawlOutcome::Unreachable));
    assert_eq!(s.len(), 1);
}

#[test]
fn completion_waits_for_in_flight_attempt() {
    let mut c = Crawl::new();
    let x = addr(1, 3414);
    assert!(c.is_complete());
    c.enqueue(x);
    assert!(!c.is_complete());
    assert_eq!(c.frontier_len(), 1);
    match c.begin_attempt() {
        BeginOutcome::Claimed(a) => assert_eq!(a, x),
        _ => panic!("the first pop must claim the seeded address"),
    }
    // The queue is now empty, but the attempt for x is still in flight:
    // completion must not be reported yet.
    assert_eq!(c.frontier_len(), 0);
    assert_eq!(c.in_flight(), 1);
    assert!(!c.is_complete());
    c.finish_attempt(x, CrawlOutcome::Unreachable);
    assert_eq!(c.in_flight(), 0);
    assert!(c.is_complete());
}

#[test]
fn finish_enqueues_every_neighbor_in_order() {
    let mut c = Crawl::new();
    let x = addr(1, 3414);
    let b = addr(2, 3414);
    let d = addr(3, 3414);
    c.enqueue(x);
    match c.begin_attempt() {
        BeginOutcome::Claimed(a) => assert_eq!(a, x),
        _ => panic!("expected a claim"),
    }
    c.finish_attempt(x, CrawlOutcome::Discovered(vec![b, d]));
    assert_eq!(c.frontier_len(), 2);
    match c.begin_attempt() {
        BeginOutcome::Claimed(a) => assert_eq!(a, b),
        _ => panic!("expected to claim the first neighbor"),
    }
    c.finish_attempt(b, CrawlOutcome::Unreachable);
    match c.begin_attempt() {
        BeginOutcome::Claimed(a) => assert_eq!(a, d),
        _ => panic!("expected to claim the second neighbor"),
    }
}

#[test]
fn second_pop_of_same_address_is_discarded() {
    let mut c = Crawl::new();
    let x = addr(1, 3414);
    c.enqueue(x);
    c.enqueue(x);
    match c.begin_attempt() {
        BeginOutcome::Claimed(a) => assert_eq!(a, x),
        _ => panic!("expected a claim"),
    }
    c.finish_attempt(x, CrawlOutcome::Unreachable);
    match c.begin_attempt() {
        BeginOutcome::AlreadyVisited(a) => assert_eq!(a, x),
        _ => panic!("the duplicate must be discarded without a new claim"),
    }
    assert!(c.is_complete());
}

#[test]
fn scenario_two_reachable_peers() {
    let x = addr(1, 3414);
    let y = addr(2, 3414);
    let mut net = Network::new();
    net.add(x, CrawlOutcome::Discovered(vec![y]));
    net.add(y, CrawlOutcome::Discovered(vec![]));
    let store = run_pool(&vec![x], &net, 1, 5);
    assert_eq!(store.len(), 2);
    assert_eq!(store.get(x), Some(CrawlOutcome::Discovered(vec![y])));
    assert_eq!(store.get(y), Some(CrawlOutcome::Discovered(vec![])));
    let out = export_csv(&store.snapshot());
    let text = String::from_utf8(out).unwrap();
    assert_eq!(text, "10.0.0.1:3414,[10.0.0.2:3414]\n10.0.0.2:3414,[]\n");
    assert_eq!(text.lines().count(), 2);
}

#[test]
fn scenario_unreachable_bootstrap() {
    let x = addr(1, 3414);
    let net = Network::new();
    let store = run_pool(&vec![x], &net, 1, 5);
    assert_eq!(store.len(), 1);
    assert_eq!(store.get(x), Some(CrawlOutcome::Unreachable));
    let out = export_csv(&store.snapshot());
    let text = String::from_utf8(out).unwrap();
    assert_eq!(text, "10.0.0.1:3414,[]\n");
    assert_eq!(text.lines().count(), 1);
}

#[test]
fn scenario_shared_neighbor_claimed_once() {
    let x = addr(1, 3414);
    let y = addr(2, 3414);
    let z = addr(3, 3414);
    let mut net = Network::new();
    net.add(x, CrawlOutcome::Discovered(vec![z]));
    net.add(y, CrawlOutcome::Discovered(vec![z]));
    net.add(z, CrawlOutcome::Discovered(vec![]));
    let store = run_pool(&vec![x, y], &net, 4, 0);
    assert_eq!(store.len(), 3);
    assert_eq!(store.get(x), Some(CrawlOutcome::Discovered(vec![z])));
    assert_eq!(store.get(y), Some(CrawlOutcome::Discovered(vec![z])));
    assert_eq!(store.get(z), Some(CrawlOutcome::Discovered(vec![])));
}

#[test]
fn duplicate_bootstrap_attempted_once() {
    let x = addr(1, 3414);
    let mut net = Network::new();
    net.add(x, CrawlOutcome::Discovered(vec![x]));
    let store = run_pool(&vec![x, x], &net, 3, 0);
    assert_eq!(store.len(), 1);
    assert_eq!(store.get(x), Some(CrawlOutcome::Discovered(vec![x])));
}

#[test]
fn scaling_does_not_change_the_result() {
    let x = addr(1, 3414);
    let a = addr(2, 3414);
    let b = addr(3, 3414);
    let d = addr(4, 3414);
    let lone = addr(9, 3414);
    let mut net = Network::new();
    net.add(x, CrawlOutcome::Discovered(vec![a, b]));
    net.add(a, CrawlOutcome::Discovered(vec![b, d]));
    net.add(b, CrawlOutcome::Discovered(vec![x]));
    net.add(lone, CrawlOutcome::Discovered(vec![x]));
    let one = run_pool(&vec![x], &net, 1, 0);
    let fifty = run_pool(&vec![x], &net, 50, 2);
    assert_eq!(one.len(), fifty.len());
    for p in [x, a, b, d] {
        assert_eq!(one.get(p), fifty.get(p));
    }
    // d is only reachable through a and is unreachable itself; lone is
    // not reachable from the bootstrap set and must not be visited.
    assert_eq!(one.get(d), Some(CrawlOutcome::Unreachable));
    assert_eq!(one.get(lone), None);
    assert_eq!(one.len(), 4);
}

#[test]
fn controller_policy() {
    assert_eq!(controller_decide(0, 0, 1, 8, 5), PoolDecision::Complete);
    assert_eq!(controller_decide(0, 1, 1, 8, 5), PoolDecision::Wait);
    assert_eq!(controller_decide(10, 1, 1, 8, 5), PoolDecision::Spawn);
    assert_eq!(controller_decide(10, 1, 8, 8, 5), PoolDecision::Wait);
    assert_eq!(controller_decide(3, 1, 1, 8, 5), PoolDecision::Wait);
}

#[test]
fn export_layout_exact_bytes() {
    let k = Address::v4(192, 168, 1, 10, 65535);
    let n1 = Address::v4(5, 9, 152, 75, 3414);
    let n2 = Address::v4(0, 0, 0, 0, 0);
    let entries = vec![
        (k, CrawlOutcome::Discovered(vec![n1, n2])),
        (n1, CrawlOutcome::Unreachable),
    ];
    let out = export_csv(&entries);
    let text = String::from_utf8(out).unwrap();
    assert_eq!(
        text,
        "192.168.1.10:65535,[5.9.152.75:3414,0.0.0.0:0]\n5.9.152.75:3414,[]\n"
    );
}

#[test]
fn network_answers_unknown_addresses_with_unreachable() {
    let x = addr(1, 3414);
    let y = addr(2, 3414);
    let mut net = Network::new();
    net.add(x, CrawlOutcome::Discovered(vec![y]));
    assert_eq!(net.lookup(x), CrawlOutcome::Discovered(vec![y]));
    assert_eq!(net.lookup(y), CrawlOutcome::Unreachable);
}

#[test]
fn snapshot_holds_only_recorded_outcomes() {
    let mut s = VisitedStore::new();
    let x = addr(1, 3414);
    let y = addr(2, 3414);
    assert_eq!(s.claim(x), ClaimResult::ClaimedByMe);
    assert_eq!(s.claim(y), ClaimResult::ClaimedByMe);
    s.record(x, CrawlOutcome::Unreachable);
    let snap = s.snapshot();
    assert_eq!(snap.len(), 1);
    assert_eq!(snap[0].0, x);
    assert_eq!(snap[0].1, CrawlOutcome::Unreachable);
}

#[test]
fn export_lays_out_ipv6_addresses() {
    let doc = Address::v6(0x2001, 0xdb8, 0, 0, 0, 0xff00, 0x42, 0x8329, 13414);
    let loopback = Address::v6(0, 0, 0, 0, 0, 0, 0, 1, 3414);
    let unspecified = Address::v6(0, 0, 0, 0, 0, 0, 0, 0, 0);
    let mapped = Address::v6(0, 0, 0, 0, 0, 0xffff, 0x0102, 0x0304, 80);
    let single_zero = Address::v6(1, 0, 2, 3, 4, 5, 6, 7, 9);
    let two_runs = Address::v6(0, 0, 1, 0, 0, 2, 3, 4, 9);
    let entries = vec![(
        doc,
        CrawlOutcome::Discovered(vec![loopback, unspecified, mapped, single_zero, two_runs]),
    )];
    let out = export_csv(&entries);
    let text = String::from_utf8(out).unwrap();
    assert_eq!(
        text,
        "[2001:db8::ff00:42:8329]:13414,[[::1]:3414,[::]:0,\
         [::ffff:1.2.3.4]:80,[1:0:2:3:4:5:6:7]:9,[::1:0:0:2:3:4]:9]\n"
    );
}

#[test]
fn crawl_reaches_ipv6_peers() {
    let x = addr(1, 3414);
    let w = Address::v6(0xfe80, 0, 0, 0, 0, 0, 0, 0x11, 13414);
    let mut net = Network::new();
    net.add(x, CrawlOutcome::Discovered(vec![w]));
    net.add(w, CrawlOutcome::Discovered(vec![x]));
    let store = run_pool(&vec![x], &net, 2, 0);
    assert_eq!(store.len(), 2);
    assert_eq!(store.get(x), Some(CrawlOutcome::Discovered(vec![w])));
    assert_eq!(store.get(w), Some(CrawlOutcome::Discovered(vec![x])));
}

#[test]
fn counts_peers_that_answered() {
    let x = addr(1, 3414);
    let y = addr(2, 3414);
    let z = addr(3, 3414);
    let entries = vec![
        (x, CrawlOutcome::Discovered(vec![y])),
        (y, CrawlOutcome::Unreachable),
        (z, CrawlOutcome::Discovered(vec![])),
    ];
    assert_eq!(count_discovered(&entries), 2);
    assert_eq!(count_discovered(&Vec::new()), 0);
}

#[test]
fn shared_neighbor_claimed_once_when_unreachable() {
    let x = addr(1, 3414);
    let y = addr(2, 3414);
    let z = addr(3, 3414);
    let mut net = Network::new();
    net.add(x, CrawlOutcome::Discovered(vec![z]));
    net.add(y, CrawlOutcome::Discovered(vec![z]));
    let store = run_pool(&vec![x, y], &net, 4, 0);
    assert_eq!(store.len(), 3);
    assert_eq!(store.get(x), Some(CrawlOutcome::Discovered(vec![z])));
    assert_eq!(store.get(y), Some(CrawlOutcome::Discovered(vec![z])));
    assert_eq!(store.get(z), Some(CrawlOutcome::Unreachable));
}
