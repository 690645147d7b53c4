use vstd::prelude::*;
use crate::config::MetricsConfig;

verus! {

// ---------------------------------------------------------------------------
// Metrics
//
// Monotonic counters (saturating at the top of `u64`) and bounded latency
// reservoirs in nanoseconds.  When a reservoir outgrows `max_samples`, the
// oldest half (by `max_samples / 2`) is dropped in one step.
// ---------------------------------------------------------------------------

pub struct Metrics {
    pub enabled: bool,
    pub total_inserts: u64,
    pub total_gets: u64,
    pub total_queries: u64,
    pub insert_times: Vec<u64>,
    pub get_times: Vec<u64>,
}

/// One counter step: up by one, saturating.
pub open spec fn bump(n: u64) -> u64 {
    if n < u64::MAX {
        (n + 1) as u64
    } else {
        n
    }
}

/// One reservoir step: push the sample, then evict the oldest half when the
/// cap is exceeded.
pub open spec fn reservoir_push(times: Seq<u64>, d: u64, max_samples: int) -> Seq<u64> {
    let pushed = times.push(d);
    if pushed.len() > max_samples {
        pushed.skip(max_samples / 2)
    } else {
        pushed
    }
}

fn bump_counter(n: u64) -> (r: u64)
    ensures
        r == bump(n),
{
    if n < u64::MAX {
        n + 1
    } else {
        n
    }
}

fn tail_from(s: &Vec<u64>, k: usize) -> (r: Vec<u64>)
    requires
        k <= s@.len(),
    ensures
        r@ == s@.skip(k as int),
{
    let mut out: Vec<u64> = Vec::new();
    let mut q: usize = k;
    while q < s.len()
        invariant
            k <= q <= s@.len(),
            out@ == s@.subrange(k as int, q as int),
        decreases s@.len() - q,
    {
        proof {
            assert(s@.subrange(k as int, q as int + 1) =~= s@.subrange(k as int, q as int).push(
                s@[q as int],
            ));
        }
        out.push(s[q]);
        q += 1;
    }
    proof {
        assert(s@.subrange(k as int, s@.len() as int) =~= s@.skip(k as int));
    }
    out
}

impl Metrics {
    pub fn new(config: &MetricsConfig) -> (r: Self)
        ensures
            r.enabled == config.enable,
            r.total_inserts == 0 && r.total_gets == 0 && r.total_queries == 0,
            r.insert_times@.len() == 0 && r.get_times@.len() == 0,
    {
        Metrics {
            enabled: config.enable,
            total_inserts: 0,
            total_gets: 0,
            total_queries: 0,
            insert_times: Vec::new(),
            get_times: Vec::new(),
        }
    }

    /// Records one insert and its latency sample.
    pub fn record_insert(&mut self, duration_ns: u64, max_samples: usize)
        ensures
            !old(self).enabled ==> *final(self) == *old(self),
            old(self).enabled ==> {
                &&& final(self).total_inserts == bump(old(self).total_inserts)
                &&& final(self).insert_times@ == reservoir_push(
                    old(self).insert_times@,
                    duration_ns,
                    max_samples as int,
                )
                &&& final(self).total_gets == old(self).total_gets
                &&& final(self).total_queries == old(self).total_queries
                &&& final(self).get_times == old(self).get_times
                &&& final(self).enabled == old(self).enabled
            },
    {
        if !self.enabled {
            return ;
        }
        self.total_inserts = bump_counter(self.total_inserts);
        self.insert_times.push(duration_ns);
        if self.insert_times.len() > max_samples {
            let rest = tail_from(&self.insert_times, max_samples / 2);
            self.insert_times = rest;
        }
    }

    /// Records one point read and its latency sample.
    pub fn record_get(&mut self, duration_ns: u64, max_samples: usize)
        ensures
            !old(self).enabled ==> *final(self) == *old(self),
            old(self).enabled ==> {
                &&& final(self).total_gets == bump(old(self).total_gets)
                &&& final(self).get_times@ == reservoir_push(
                    old(self).get_times@,
                    duration_ns,
                    max_samples as int,
                )
                &&& final(self).total_inserts == old(self).total_inserts
                &&& final(self).total_queries == old(self).total_queries
                &&& final(self).insert_times == old(self).insert_times
                &&& final(self).enabled == old(self).enabled
            },
    {
        if !self.enabled {
            return ;
        }
        self.total_gets = bump_counter(self.total_gets);
        self.get_times.push(duration_ns);
        if self.get_times.len() > max_samples {
            let rest = tail_from(&self.get_times, max_samples / 2);
            self.get_times = rest;
        }
    }

    /// Records one scan or field query.
    pub fn record_query(&mut self)
        ensures
            !old(self).enabled ==> *final(self) == *old(self),
            old(self).enabled ==> {
                &&& final(self).total_queries == bump(old(self).total_queries)
                &&& final(self).total_inserts == old(self).total_inserts
                &&& final(self).total_gets == old(self).total_gets
                &&& final(self).insert_times == old(self).insert_times
                &&& final(self).get_times == old(self).get_times
                &&& final(self).enabled == old(self).enabled
            },
    {
        if !self.enabled {
            return ;
        }
        self.total_queries = bump_counter(self.total_queries);
    }

    /// Records one insert that went through the batch path.
    pub fn record_batch_insert(&mut self)
        ensures
            !old(self).enabled ==> *final(self) == *old(self),
            old(self).enabled ==> {
                &&& final(self).total_inserts == bump(old(self).total_inserts)
                &&& final(self).total_gets == old(self).total_gets
                &&& final(self).total_queries == old(self).total_queries
                &&& final(self).insert_times == old(self).insert_times
                &&& final(self).get_times == old(self).get_times
                &&& final(self).enabled == old(self).enabled
            },
    {
        if !self.enabled {
            return ;
        }
        self.total_inserts = bump_counter(self.total_inserts);
    }

    /// A copy of the counters and reservoirs; rate and percentile
    /// computations happen outside the library.
    pub fn get_stats(&self) -> (r: MetricsSnapshot)
        ensures
            r.total_inserts == self.total_inserts,
            r.total_gets == self.total_gets,
            r.total_queries == self.total_queries,
            r.total_operations as int == (if self.total_inserts as int + self.total_gets as int
                + self.total_queries as int <= u64::MAX {
                self.total_inserts as int + self.total_gets as int + self.total_queries as int
            } else {
                u64::MAX as int
            }),
            r.insert_times@ == self.insert_times@,
            r.get_times@ == self.get_times@,
    {
        let mut ops: u64 = self.total_inserts;
        if ops <= u64::MAX - self.total_gets {
            ops = ops + self.total_gets;
        } else {
            ops = u64::MAX;
        }
        if ops <= u64::MAX - self.total_queries {
            ops = ops + self.total_queries;
        } else {
            ops = u64::MAX;
        }
        MetricsSnapshot {
            total_operations: ops,
            total_inserts: self.total_inserts,
            total_gets: self.total_gets,
            total_queries: self.total_queries,
            insert_times: tail_from(&self.insert_times, 0),
            get_times: tail_from(&self.get_times, 0),
        }
    }
}

/// A point-in-time copy of the metrics state.
pub struct MetricsSnapshot {
    pub total_operations: u64,
    pub total_inserts: u64,
    pub total_gets: u64,
    pub total_queries: u64,
    pub insert_times: Vec<u64>,
    pub get_times: Vec<u64>,
}

} // verus!
