//! A peer-to-peer network crawler core.
//!
//! The crawler explores a network's topology by repeatedly asking known
//! peers for their neighbors and visiting every newly discovered address
//! until no unexplored address remains. This crate holds the verified
//! core: the frontier queue of addresses awaiting an attempt, the visited
//! store with its atomic claim/record protocol, the worker step functions,
//! and the pool controller's scaling and termination rules. Network I/O
//! (the protocol handshake against a live peer) and file output live
//! outside the core and hand it plain values.
//!
//! The proved guarantees, in brief:
//! - an address is claimed at most once over a crawl's lifetime, however
//!   often it is pushed ([`store::VisitedStore::claim`],
//!   [`store::VisitedStore::lemma_claim_exactly_once`]);
//! - a finished attempt records its outcome and enqueues every reported
//!   neighbor, none lost ([`crawl::Crawl::finish_attempt`]);
//! - completion is reported only when the frontier is empty and no
//!   attempt is in flight ([`crawl::Crawl::is_complete`],
//!   [`crawl::Crawl::lemma_in_flight_blocks_completion`]);
//! - a crawl of a deterministic network visits exactly the addresses
//!   reachable from the bootstrap set and records each one's answer
//!   ([`crawl::run_pool`]), so the worker cap and the pop order cannot
//!   change the result ([`model::lemma_crawl_result_unique`]).

pub mod address;
pub mod crawl;
pub mod export;
pub mod model;
pub mod outcome;
pub mod queue;
pub mod store;
