use vstd::prelude::*;

use crate::address::Address;

verus! {

/// The terminal result of one crawl attempt: the ordered neighbor list
/// the peer reported, or the mark that it could not be reached.
///
/// Written exactly once per address and never overwritten.
#[derive(Clone, Debug, PartialEq, Eq)]
pub enum CrawlOutcome {
    Discovered(Vec<Address>),
    Unreachable,
}

/// The mathematical value of a [`CrawlOutcome`].
pub enum OutcomeView {
    Discovered(Seq<Address>),
    Unreachable,
}

impl View for CrawlOutcome {
    type V = OutcomeView;

    open spec fn view(&self) -> OutcomeView {
        match self {
            CrawlOutcome::Discovered(ns) => OutcomeView::Discovered(ns@),
            CrawlOutcome::Unreachable => OutcomeView::Unreachable,
        }
    }
}

/// Copies a vector of addresses element by element.
pub fn copy_addresses(v: &Vec<Address>) -> (r: Vec<Address>)
    ensures
        r@ == v@,
{
    let mut out: Vec<Address> = Vec::new();
    let mut i: usize = 0;
    while i < v.len()
        invariant
            i <= v.len(),
            out@ == v@.subrange(0, i as int),
        decreases v.len() - i,
    {
        out.push(v[i]);
        proof {
            assert(out@ =~= v@.subrange(0, i + 1));
        }
        i = i + 1;
    }
    proof {
        assert(out@ =~= v@);
    }
    out
}

/// Copies an outcome, neighbor list included.
pub fn copy_outcome(o: &CrawlOutcome) -> (r: CrawlOutcome)
    ensures
        r@ == o@,
{
    match o {
        CrawlOutcome::Discovered(ns) => CrawlOutcome::Discovered(copy_addresses(ns)),
        CrawlOutcome::Unreachable => CrawlOutcome::Unreachable,
    }
}

} // verus!
