//! The token-bucket admission gate.
//!
//! Every outbound call must be admitted before it proceeds.  The bucket
//! refills continuously at one token per `period_ns` nanoseconds up to its
//! capacity; a request either takes a token now or learns the time at which
//! one will be there.  The caller owns the clock and the waiting: rate
//! limiting never fails a call, it only delays it.

use vstd::prelude::*;

verus! {

/// The bucket's state.  `last_ns` is the instant up to which refill credit
/// has been accounted; `tokens` are whole tokens available now.
pub struct TokenBucket {
    pub capacity: u64,
    pub period_ns: u64,
    pub tokens: u64,
    pub last_ns: u64,
}

/// The answer to an admission request: proceed now, or ask again at the
/// given instant.
pub enum Admission {
    Admit,
    WaitUntil(u64),
}

pub const NANOS_PER_SECOND: u64 = 1_000_000_000;

impl TokenBucket {
    pub open spec fn wf(self) -> bool {
        &&& self.capacity >= 1
        &&& self.period_ns >= 1
        &&& self.tokens <= self.capacity
    }

    /// A full bucket admitting `rate_per_second` calls per second, with
    /// bursts up to the same count.
    pub fn new(rate_per_second: u64, now_ns: u64) -> (r: TokenBucket)
        requires
            1 <= rate_per_second <= NANOS_PER_SECOND,
        ensures
            r.wf(),
            r.capacity == rate_per_second,
            r.period_ns == NANOS_PER_SECOND / rate_per_second,
            r.tokens == r.capacity,
            r.last_ns == now_ns,
    {
        proof {
            vstd::arithmetic::div_mod::lemma_div_is_ordered(
                rate_per_second as int,
                NANOS_PER_SECOND as int,
                rate_per_second as int,
            );
            vstd::arithmetic::div_mod::lemma_div_by_self(rate_per_second as int);
        }
        TokenBucket {
            capacity: rate_per_second,
            period_ns: NANOS_PER_SECOND / rate_per_second,
            tokens: rate_per_second,
            last_ns: now_ns,
        }
    }

    /// The state after accounting refill credit up to `now`.  A clock that
    /// runs backwards grants nothing.
    pub open spec fn spec_refill(self, now: u64) -> TokenBucket {
        let t = if now > self.last_ns {
            now
        } else {
            self.last_ns
        };
        let add = ((t - self.last_ns) as int / self.period_ns as int) as int;
        if self.tokens + add >= self.capacity {
            TokenBucket { tokens: self.capacity, last_ns: t, ..self }
        } else {
            TokenBucket {
                tokens: (self.tokens + add) as u64,
                last_ns: (self.last_ns + add * self.period_ns) as u64,
                ..self
            }
        }
    }

    /// One admission request at instant `now`.
    pub open spec fn spec_request(self, now: u64) -> (TokenBucket, Admission) {
        let r = self.spec_refill(now);
        if r.tokens >= 1 {
            (TokenBucket { tokens: (r.tokens - 1) as u64, ..r }, Admission::Admit)
        } else {
            (r, Admission::WaitUntil((r.last_ns + r.period_ns) as u64))
        }
    }

    /// Request admission at instant `now`: take a token, or learn when the
    /// next one is there.  Never admits faster than the refill allows, never
    /// denies for good.
    pub fn request(&mut self, now_ns: u64) -> (a: Admission)
        requires
            old(self).wf(),
            now_ns + old(self).period_ns < u64::MAX,
            old(self).last_ns + old(self).period_ns < u64::MAX,
        ensures
            final(self).wf(),
            (*final(self), a) == old(self).spec_request(now_ns),
            final(self).capacity == old(self).capacity,
            final(self).period_ns == old(self).period_ns,
            a matches Admission::WaitUntil(w) ==> w > now_ns,
    {
        let t = if now_ns > self.last_ns {
            now_ns
        } else {
            self.last_ns
        };
        let elapsed = t - self.last_ns;
        let add = elapsed / self.period_ns;
        proof {
            vstd::arithmetic::div_mod::lemma_fundamental_div_mod(
                elapsed as int,
                self.period_ns as int,
            );
            vstd::arithmetic::div_mod::lemma_mod_bound(elapsed as int, self.period_ns as int);
            vstd::arithmetic::div_mod::lemma_div_pos_is_pos(elapsed as int, self.period_ns as int);
            assert(add as int == elapsed as int / self.period_ns as int);
            assert(elapsed as int == (self.period_ns as int) * (elapsed as int
                / self.period_ns as int) + (elapsed as int % self.period_ns as int));
            assert((add as int) * (self.period_ns as int) == (self.period_ns as int) * (
            add as int)) by (nonlinear_arith);
            assert((add as int) * (self.period_ns as int) <= elapsed as int);
        }
        if add >= self.capacity - self.tokens {
            self.tokens = self.capacity;
            self.last_ns = t;
        } else {
            self.tokens = self.tokens + add;
            self.last_ns = self.last_ns + add * self.period_ns;
        }
        if self.tokens >= 1 {
            self.tokens = self.tokens - 1;
            Admission::Admit
        } else {
            proof {
                assert(self.last_ns <= t);
            }
            Admission::WaitUntil(self.last_ns + self.period_ns)
        }
    }
}

/// The bucket's credit, the conserved quantity of the refill rule: tokens in
/// time units, minus the time already accounted.
pub open spec fn credit(st: TokenBucket) -> int {
    st.tokens * st.period_ns - st.last_ns
}

/// Refilling never creates credit, never un-accounts time, and never
/// accounts past the clock.
proof fn lemma_refill(st: TokenBucket, now: u64)
    requires
        st.wf(),
    ensures
        st.spec_refill(now).wf(),
        credit(st.spec_refill(now)) <= credit(st),
        st.last_ns <= st.spec_refill(now).last_ns,
        st.spec_refill(now).last_ns <= (if now > st.last_ns {
            now
        } else {
            st.last_ns
        }),
        st.spec_refill(now).capacity == st.capacity,
        st.spec_refill(now).period_ns == st.period_ns,
{
    let t: u64 = if now > st.last_ns {
        now
    } else {
        st.last_ns
    };
    let elapsed = t - st.last_ns;
    let p = st.period_ns as int;
    let add = elapsed as int / p;
    vstd::arithmetic::div_mod::lemma_fundamental_div_mod(elapsed as int, p);
    assert(add * p <= elapsed as int);
    assert(add >= 0) by {
        vstd::arithmetic::div_mod::lemma_div_pos_is_pos(elapsed as int, p);
    }
    if st.tokens + add >= st.capacity {
        let r = st.spec_refill(now);
        assert(r.tokens == st.capacity);
        assert(r.last_ns == t);
        // tokens*p >= capacity*p - add*p >= capacity*p - elapsed
        assert((st.tokens + add) * p >= st.capacity * p) by (nonlinear_arith)
            requires
                st.tokens + add >= st.capacity,
                p >= 1,
        ;
        assert(st.tokens * p + add * p == (st.tokens + add) * p) by (nonlinear_arith);
        assert(credit(r) <= credit(st));
    } else {
        let r = st.spec_refill(now);
        assert(r.tokens == st.tokens + add);
        assert(r.last_ns == st.last_ns + add * p);
        assert((st.tokens + add) * p == st.tokens * p + add * p) by (nonlinear_arith);
        assert(credit(r) == credit(st));
    }
}

/// One request never creates credit; an admission consumes one token's
/// worth.
proof fn lemma_request(st: TokenBucket, now: u64)
    requires
        st.wf(),
    ensures
        st.spec_request(now).0.wf(),
        st.spec_request(now).0.capacity == st.capacity,
        st.spec_request(now).0.period_ns == st.period_ns,
        st.last_ns <= st.spec_request(now).0.last_ns,
        st.spec_request(now).0.last_ns <= (if now > st.last_ns {
            now
        } else {
            st.last_ns
        }),
        st.spec_request(now).1 is Admit ==> credit(st.spec_request(now).0) <= credit(st)
            - st.period_ns,
        credit(st.spec_request(now).0) <= credit(st),
{
    lemma_refill(st, now);
    let r = st.spec_refill(now);
    if r.tokens >= 1 {
        let r2 = st.spec_request(now).0;
        assert(r2.tokens == r.tokens - 1);
        assert((r.tokens - 1) * r.period_ns == r.tokens * r.period_ns - r.period_ns)
            by (nonlinear_arith);
    }
}

/// The admissions over a sequence of requests: the final state and how many
/// were admitted.
pub open spec fn spec_run(st: TokenBucket, times: Seq<u64>) -> (TokenBucket, int)
    decreases times.len(),
{
    if times.len() == 0 {
        (st, 0)
    } else {
        let first = st.spec_request(times[0]);
        let rest = spec_run(first.0, times.skip(1));
        (rest.0, rest.1 + (if first.1 is Admit {
            1int
        } else {
            0int
        }))
    }
}

/// Rate-limiter admission: over any run of requests made in time order, the
/// number admitted never exceeds the tokens available at the start plus one
/// per elapsed refill period — sustained demand is throttled to the
/// configured rate, bursts to the configured capacity.
pub proof fn lemma_admission_bound(st: TokenBucket, times: Seq<u64>)
    requires
        st.wf(),
        times.len() > 0,
        forall|i: int, j: int| 0 <= i <= j < times.len() ==> times[i] <= times[j],
        st.last_ns <= times[0],
    ensures
        spec_run(st, times).1 * st.period_ns <= st.tokens * st.period_ns + (
        times.last() - st.last_ns),
        spec_run(st, times).1 <= st.capacity + (times.last() - st.last_ns) / (
        st.period_ns as int) + 1,
    decreases times.len(),
{
    lemma_run_credit(st, times);
    let fin = spec_run(st, times).0;
    let admits = spec_run(st, times).1;
    let p = st.period_ns as int;
    // credit(fin) >= -fin.last_ns >= -times.last()
    assert(fin.tokens * p >= 0) by (nonlinear_arith)
        requires
            p >= 1,
            fin.tokens >= 0,
    ;
    assert(credit(fin) >= -(times.last() as int));
    assert(admits * p <= credit(st) - credit(fin));
    assert(admits * p <= st.tokens * p + (times.last() - st.last_ns));
    // Divide through for the per-count form.
    assert(st.tokens * p <= st.capacity * p) by (nonlinear_arith)
        requires
            st.tokens <= st.capacity,
            p >= 1,
    ;
    let d = times.last() - st.last_ns;
    let q = d / p;
    vstd::arithmetic::div_mod::lemma_fundamental_div_mod(d, p);
    vstd::arithmetic::div_mod::lemma_mod_bound(d, p);
    assert(q * p <= d < q * p + p);
    assert(admits <= st.capacity + q + 1) by (nonlinear_arith)
        requires
            admits * p <= st.capacity * p + d,
            q * p <= d,
            d < q * p + p,
            p >= 1,
    ;
}

/// The conserved-credit induction behind the admission bound.
proof fn lemma_run_credit(st: TokenBucket, times: Seq<u64>)
    requires
        st.wf(),
        times.len() > 0,
        forall|i: int, j: int| 0 <= i <= j < times.len() ==> times[i] <= times[j],
        st.last_ns <= times[0],
    ensures
        spec_run(st, times).0.wf(),
        spec_run(st, times).1 >= 0,
        credit(spec_run(st, times).0) <= credit(st) - spec_run(st, times).1 * st.period_ns,
        spec_run(st, times).0.period_ns == st.period_ns,
        spec_run(st, times).0.last_ns <= times.last(),
    decreases times.len(),
{
    lemma_request(st, times[0]);
    let first = st.spec_request(times[0]);
    let p = st.period_ns as int;
    if times.len() == 1 {
        assert(spec_run(first.0, times.skip(1)) == (first.0, 0int));
        if first.1 is Admit {
            assert(1int * p == p) by (nonlinear_arith);
        } else {
            assert(0int * p == 0) by (nonlinear_arith);
        }
    } else {
        assert(times.skip(1).len() > 0);
        assert(forall|i: int, j: int|
            0 <= i <= j < times.skip(1).len() ==> times.skip(1)[i] <= times.skip(1)[j]);
        assert(first.0.last_ns <= times[0]);
        assert(times.skip(1)[0] == times[1]);
        assert(times[0] <= times[1]);
        lemma_run_credit(first.0, times.skip(1));
        assert(times.skip(1).last() == times.last());
        let admits_rest = spec_run(first.0, times.skip(1)).1;
        let admits = spec_run(st, times).1;
        if first.1 is Admit {
            assert(admits == admits_rest + 1);
            assert((admits_rest + 1) * p == admits_rest * p + p) by (nonlinear_arith);
        } else {
            assert(admits == admits_rest);
        }
    }
}

/// No permanent denial: after a told wait, a lone caller asking again at or
/// past the returned instant is admitted.
pub proof fn lemma_wait_then_admit(st: TokenBucket, now: u64, t2: u64)
    requires
        st.wf(),
        st.spec_request(now).1 matches Admission::WaitUntil(w) && t2 >= w && w == st.spec_request(
            now,
        ).0.last_ns + st.period_ns,
    ensures
        st.spec_request(now).0.spec_request(t2).1 is Admit,
{
    lemma_request(st, now);
    let st1 = st.spec_request(now).0;
    assert(st1.tokens == 0);
    let p = st1.period_ns as int;
    let t: u64 = if t2 > st1.last_ns {
        t2
    } else {
        st1.last_ns
    };
    let elapsed = (t - st1.last_ns) as int;
    assert(elapsed >= p);
    let add = elapsed / p;
    assert(add >= 1) by {
        vstd::arithmetic::div_mod::lemma_div_is_ordered(p, elapsed, p);
        vstd::arithmetic::div_mod::lemma_div_by_self(p);
    }
}

} // verus!