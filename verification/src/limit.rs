//! The hourly request limit of a client address group.

use vstd::prelude::*;
use crate::assoc::{distinct_keys, has_key, key_index, to_map, lemma_to_map_at,
    lemma_to_map_push, lemma_to_map_update};

verus! {

/// The answer to a request over the limit of its address group.
#[derive(Debug, Clone, Copy, PartialEq, Eq, Structural)]
pub struct RateLimited;

/// How many requests each address group has made.
pub struct RequestCounter {
    counts: Vec<(String, u32)>,
}

/// The pairs of the counter, keyed by the text of their address group.
pub open spec fn count_entries(counts: Seq<(String, u32)>) -> Seq<(Seq<char>, u32)> {
    counts.map_values(|e: (String, u32)| (e.0@, e.1))
}

impl View for RequestCounter {
    type V = Map<Seq<char>, u32>;

    closed spec fn view(&self) -> Map<Seq<char>, u32> {
        to_map(count_entries(self.counts@))
    }
}

/// The number of requests that the group `ip_group` has made so far.
pub open spec fn requests_of(counts: Map<Seq<char>, u32>, ip_group: Seq<char>) -> u32 {
    if counts.dom().contains(ip_group) {
        counts[ip_group]
    } else {
        0
    }
}

/// The counts after a request of `ip_group` under the limit `max_requests`:
/// counted where the group is under the limit; otherwise unchanged, but the
/// group recorded (with no request) if it was not yet.
pub open spec fn counted(counts: Map<Seq<char>, u32>, ip_group: Seq<char>, max_requests: u32) -> Map<
    Seq<char>,
    u32,
> {
    let c = requests_of(counts, ip_group);
    if c >= max_requests {
        counts.insert(ip_group, c)
    } else {
        counts.insert(ip_group, (c + 1) as u32)
    }
}

/// A group within its limit stays within it, and every other group keeps its
/// count.
pub proof fn lemma_counts_within_limit(
    counts: Map<Seq<char>, u32>,
    ip_group: Seq<char>,
    max_requests: u32,
    other: Seq<char>,
)
    ensures
        requests_of(counts, other) <= max_requests ==> requests_of(
            counted(counts, ip_group, max_requests),
            other,
        ) <= max_requests,
        other != ip_group ==> requests_of(counted(counts, ip_group, max_requests), other)
            == requests_of(counts, other),
        requests_of(counted(counts, ip_group, max_requests), ip_group) == if requests_of(
            counts,
            ip_group,
        ) >= max_requests {
            requests_of(counts, ip_group)
        } else {
            (requests_of(counts, ip_group) + 1) as u32
        },
{
}

/// The counts after `n` requests of `ip_group` in a row.
pub open spec fn after_requests(
    counts: Map<Seq<char>, u32>,
    ip_group: Seq<char>,
    max_requests: u32,
    n: nat,
) -> Map<Seq<char>, u32>
    decreases n,
{
    if n == 0 {
        counts
    } else {
        counted(after_requests(counts, ip_group, max_requests, (n - 1) as nat), ip_group, max_requests)
    }
}

/// How many of `n` requests of `ip_group` in a row are let through.
pub open spec fn granted(counts: Map<Seq<char>, u32>, ip_group: Seq<char>, max_requests: u32, n: nat) -> nat
    decreases n,
{
    if n == 0 {
        0
    } else {
        granted(counts, ip_group, max_requests, (n - 1) as nat) + if requests_of(
            after_requests(counts, ip_group, max_requests, (n - 1) as nat),
            ip_group,
        ) < max_requests {
            1nat
        } else {
            0nat
        }
    }
}

/// Of `n` requests of a group that has made `c` of its `max_requests`, the
/// first `max_requests - c` (or all `n`, if fewer) are let through and the
/// rest refused (the request after `k` others is let through exactly when
/// `k < max_requests - c`); the group's count ends at `c + n` or at the limit, whichever
/// is smaller, and never falls; no other group's count changes.
pub proof fn lemma_requests_in_sequence(
    counts: Map<Seq<char>, u32>,
    ip_group: Seq<char>,
    max_requests: u32,
    n: nat,
    other: Seq<char>,
)
    requires
        requests_of(counts, ip_group) <= max_requests,
    ensures
        requests_of(after_requests(counts, ip_group, max_requests, n), ip_group) == if requests_of(
            counts,
            ip_group,
        ) + n <= max_requests {
            requests_of(counts, ip_group) + n
        } else {
            max_requests as int
        },
        granted(counts, ip_group, max_requests, n) == if n <= max_requests - requests_of(
            counts,
            ip_group,
        ) {
            n as int
        } else {
            max_requests - requests_of(counts, ip_group)
        },
        requests_of(after_requests(counts, ip_group, max_requests, n), ip_group) >= requests_of(
            counts,
            ip_group,
        ),
        other != ip_group ==> requests_of(after_requests(counts, ip_group, max_requests, n), other)
            == requests_of(counts, other),
        forall|k: nat|
            k < n ==> (requests_of(#[trigger] after_requests(counts, ip_group, max_requests, k), ip_group)
                < max_requests <==> k < max_requests - requests_of(counts, ip_group)),
    decreases n,
{
    if n > 0 {
        assert forall|k: nat| k < n implies (requests_of(
            #[trigger] after_requests(counts, ip_group, max_requests, k),
            ip_group,
        ) < max_requests <==> k < max_requests - requests_of(counts, ip_group)) by {
            lemma_requests_in_sequence(counts, ip_group, max_requests, k, other);
        }
        lemma_requests_in_sequence(counts, ip_group, max_requests, (n - 1) as nat, other);
        lemma_counts_within_limit(
            after_requests(counts, ip_group, max_requests, (n - 1) as nat),
            ip_group,
            max_requests,
            other,
        );
    }
}

impl RequestCounter {
    /// Each address group is counted once.
    pub closed spec fn wf(&self) -> bool {
        distinct_keys(count_entries(self.counts@))
    }

    /// A counter of no requests.
    pub fn new() -> (r: Self)
        ensures
            r.wf(),
            r@ == Map::<Seq<char>, u32>::empty(),
    {
        let r = RequestCounter { counts: Vec::new() };
        assert(to_map(count_entries(r.counts@)) =~= Map::<Seq<char>, u32>::empty());
        r
    }

    /// Counts one request of `ip_group`, refusing it where the group has
    /// already made `max_requests` requests. A refused request is not
    /// counted, but the group is recorded (with no request) if it was not yet.
    pub fn rate_limit(&mut self, ip_group: &str, max_requests: u32) -> (r: Result<(), RateLimited>)
        requires
            old(self).wf(),
        ensures
            final(self).wf(),
            r is Ok <==> requests_of(old(self)@, ip_group@) < max_requests,
            final(self)@ == counted(old(self)@, ip_group@, max_requests),
    {
        let key = ip_group.to_owned();
        let ghost entries = count_entries(self.counts@);
        let mut i: usize = 0;
        while i < self.counts.len()
            invariant
                i <= self.counts@.len(),
                entries == count_entries(self.counts@),
                key@ == ip_group@,
                forall|j: int| 0 <= j < i ==> #[trigger] entries[j].0 != key@,
            ensures
                i <= self.counts@.len(),
                i < self.counts@.len() ==> entries[i as int].0 == key@,
                forall|j: int| 0 <= j < i ==> #[trigger] entries[j].0 != key@,
            decreases self.counts@.len() - i,
        {
            if self.counts[i].0 == key {
                break;
            }
            i = i + 1;
        }
        if i < self.counts.len() {
            let count = self.counts[i].1;
            proof {
                assert(entries[i as int].0 == key@);
                lemma_to_map_at(entries, i as int);
            }
            let new_count = if count >= max_requests {
                count
            } else {
                count + 1
            };
            let ghost before = self.counts@;
            self.counts.set(i, (key, new_count));
            proof {
                lemma_to_map_update(entries, i as int, new_count);
                assert(count_entries(self.counts@) =~= entries.update(
                    i as int,
                    (entries[i as int].0, new_count),
                ));
            }
            if count >= max_requests {
                Err(RateLimited)
            } else {
                Ok(())
            }
        } else {
            proof {
                assert(!has_key(entries, key@)) by {
                    if has_key(entries, key@) {
                        let j = key_index(entries, key@);
                        assert(entries[j].0 == key@);
                    }
                }
            }
            let new_count: u32 = if max_requests == 0 {
                0
            } else {
                1
            };
            self.counts.push((key, new_count));
            proof {
                lemma_to_map_push(entries, ip_group@, new_count);
                assert(count_entries(self.counts@) =~= entries.push((ip_group@, new_count)));
            }
            if max_requests == 0 {
                Err(RateLimited)
            } else {
                Ok(())
            }
        }
    }
}

} // verus!
