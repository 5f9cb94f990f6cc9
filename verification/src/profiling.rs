//! Timing of named phases: a timer is started and stopped by name, and
//! each stop records the time since the matching start.
use vstd::prelude::*;
use std::time::{Duration, Instant};
use crate::text::str_eq;
use crate::fingerprint::distinct;

verus! {

#[verifier::external_type_specification]
#[verifier::external_body]
pub struct ExInstant(Instant);

/// `Instant::now`: the current time; nothing is stated of it.
#[verifier::external_body]
fn now() -> Instant {
    Instant::now()
}

/// `Instant::elapsed`: the time since `start`; nothing is stated of it.
#[verifier::external_body]
fn elapsed(start: &Instant) -> Duration {
    start.elapsed()
}

pub struct Profiler {
    timers: Vec<(String, Vec<Duration>)>,
    active_timers: Vec<(String, Instant)>,
}

/// The number of entries keyed `k` (0 when absent) over keys `ks` and counts `cs`.
pub open spec fn count_for(ks: Seq<Seq<char>>, cs: Seq<nat>, k: Seq<char>) -> nat {
    if exists|j: int| 0 <= j < ks.len() && ks[j] == k {
        cs[choose|j: int| 0 <= j < ks.len() && ks[j] == k]
    } else {
        0
    }
}

proof fn lemma_count_for_found(ks: Seq<Seq<char>>, cs: Seq<nat>, k: Seq<char>, j: int)
    requires
        distinct(ks),
        0 <= j < ks.len(),
        ks[j] == k,
    ensures
        count_for(ks, cs, k) == cs[j],
{
    let c = choose|c: int| 0 <= c < ks.len() && ks[c] == k;
    if c != j {
        if c < j {
            assert(ks[c] != ks[j]);
        } else {
            assert(ks[j] != ks[c]);
        }
    }
}

impl Profiler {
    pub closed spec fn active_names(&self) -> Seq<Seq<char>> {
        self.active_timers@.map_values(|e: (String, Instant)| e.0@)
    }

    pub closed spec fn timer_names(&self) -> Seq<Seq<char>> {
        self.timers@.map_values(|e: (String, Vec<Duration>)| e.0@)
    }

    pub closed spec fn timer_counts(&self) -> Seq<nat> {
        self.timers@.map_values(|e: (String, Vec<Duration>)| e.1@.len())
    }

    /// Whether timer `name` is running.
    pub open spec fn is_active(&self, name: Seq<char>) -> bool {
        self.active_names().contains(name)
    }

    /// How many times timer `name` was stopped.
    pub open spec fn recorded(&self, name: Seq<char>) -> nat {
        count_for(self.timer_names(), self.timer_counts(), name)
    }

    /// One entry per running timer and one per recorded name.
    pub closed spec fn wf(&self) -> bool {
        distinct(self.active_names()) && distinct(self.timer_names())
    }

    /// A profiler with no timers.
    pub fn new() -> (r: Profiler)
        ensures
            r.wf(),
            forall|n: Seq<char>| !r.is_active(n) && r.recorded(n) == 0,
    {
        let r = Profiler { timers: Vec::new(), active_timers: Vec::new() };
        assert(r.active_names() =~= Seq::<Seq<char>>::empty());
        assert(r.timer_names() =~= Seq::<Seq<char>>::empty());
        r
    }

    fn find_active(&self, name: &str) -> (r: Option<usize>)
        ensures
            match r {
                Some(j) => j < self.active_timers@.len() && self.active_names()[j as int] == name@,
                None => !self.is_active(name@),
            },
    {
        let mut j: usize = 0;
        while j < self.active_timers.len()
            invariant
                j <= self.active_timers@.len(),
                forall|a: int| 0 <= a < j ==> self.active_names()[a] != name@,
            decreases self.active_timers@.len() - j,
        {
            if str_eq(self.active_timers[j].0.as_str(), name) {
                return Some(j);
            }
            j = j + 1;
        }
        None
    }

    /// Starts (or restarts) timer `name`.
    pub fn start(&mut self, name: &str)
        requires
            old(self).wf(),
        ensures
            final(self).wf(),
            final(self).is_active(name@),
            forall|n: Seq<char>| n != name@ ==> final(self).is_active(n) == old(self).is_active(n),
            forall|n: Seq<char>| final(self).recorded(n) == old(self).recorded(n),
    {
        let ghost before = self.active_names();
        let t = now();
        match self.find_active(name) {
            Some(j) => {
                let key = self.active_timers[j].0.clone();
                self.active_timers.set(j, (key, t));
                assert(self.active_names() =~= before);
            },
            None => {
                self.active_timers.push((String::from_str(name), t));
                proof {
                    assert(self.active_names() =~= before.push(name@));
                    assert(self.active_names()[before.len() as int] == name@);
                    assert forall|n: Seq<char>| n != name@ implies self.active_names().contains(n) == before.contains(n) by {
                        if self.active_names().contains(n) {
                            let a = choose|a: int| 0 <= a < self.active_names().len() && self.active_names()[a] == n;
                            assert(a < before.len());
                            assert(before[a] == n);
                        }
                        if before.contains(n) {
                            let a = choose|a: int| 0 <= a < before.len() && before[a] == n;
                            assert(self.active_names()[a] == n);
                        }
                    }
                }
            },
        }
    }

    /// Stops timer `name` if it is running and records the time since it started.
    pub fn stop(&mut self, name: &str)
        requires
            old(self).wf(),
        ensures
            final(self).wf(),
            !final(self).is_active(name@),
            final(self).recorded(name@) == old(self).recorded(name@) + if old(self).is_active(name@) {
                1nat
            } else {
                0nat
            },
            forall|n: Seq<char>| n != name@ ==> final(self).is_active(n) == old(self).is_active(n),
            forall|n: Seq<char>| n != name@ ==> final(self).recorded(n) == old(self).recorded(n),
    {
        match self.find_active(name) {
            Some(j) => {
                let ghost names0 = self.active_names();
                let ghost tn0 = self.timer_names();
                let ghost tc0 = self.timer_counts();
                let (key, start) = self.active_timers.remove(j);
                proof {
                    assert(self.active_names() =~= names0.remove(j as int));
                    assert forall|n: Seq<char>| #[trigger] self.active_names().contains(n) <==> names0.contains(n) && n
                        != name@ by {
                        if self.active_names().contains(n) {
                            let a = choose|a: int| 0 <= a < self.active_names().len() && self.active_names()[a] == n;
                            if a < j {
                                assert(names0[a] == n);
                                assert(names0[a] != names0[j as int]);
                            } else {
                                assert(names0[a + 1] == n);
                                assert(names0[j as int] != names0[a + 1]);
                            }
                        }
                        if names0.contains(n) && n != name@ {
                            let a = choose|a: int| 0 <= a < names0.len() && names0[a] == n;
                            assert(a != j);
                            if a < j {
                                assert(self.active_names()[a] == n);
                            } else {
                                assert(self.active_names()[a - 1] == n);
                            }
                        }
                    }
                    assert(distinct(self.active_names())) by {
                        assert forall|a: int, b: int| 0 <= a < b < self.active_names().len() implies self.active_names()[a]
                            != self.active_names()[b] by {
                            let a0 = if a < j { a } else { a + 1 };
                            let b0 = if b < j { b } else { b + 1 };
                            assert(self.active_names()[a] == names0[a0]);
                            assert(self.active_names()[b] == names0[b0]);
                            assert(names0[a0] != names0[b0]);
                        }
                    }
                }
                let d = elapsed(&start);
                let mut k: usize = 0;
                let mut found = false;
                while k < self.timers.len()
                    invariant
                        k <= self.timers@.len(),
                        !found,
                        self.timer_names() == tn0,
                        self.timer_counts() == tc0,
                        forall|a: int| 0 <= a < k ==> tn0[a] != key@,
                    ensures
                        self.timer_names() == tn0,
                        self.timer_counts() == tc0,
                        !found,
                        k < self.timers@.len() ==> tn0[k as int] == key@,
                        k >= self.timers@.len() ==> forall|a: int| 0 <= a < tn0.len() ==> tn0[a] != key@,
                    decreases self.timers@.len() - k,
                {
                    if str_eq(self.timers[k].0.as_str(), key.as_str()) {
                        break;
                    }
                    k = k + 1;
                }
                if k < self.timers.len() {
                    proof {
                        assert(tn0[k as int] == self.timers@[k as int].0@);
                    }
                    let ghost old_len = self.timers@[k as int].1@.len();
                    let (kname, mut ds) = self.timers.remove(k);
                    ds.push(d);
                    self.timers.insert(k, (kname, ds));
                    proof {
                        assert(self.timer_names() =~= tn0);
                        assert(self.timer_counts() =~= tc0.update(k as int, old_len + 1));
                        lemma_count_for_found(tn0, tc0, name@, k as int);
                        lemma_count_for_found(tn0, tc0.update(k as int, old_len + 1), name@, k as int);
                        assert forall|n: Seq<char>| n != name@ implies count_for(tn0, tc0.update(k as int, old_len + 1), n)
                            == count_for(tn0, tc0, n) by {
                            if exists|a: int| 0 <= a < tn0.len() && tn0[a] == n {
                                let a = choose|a: int| 0 <= a < tn0.len() && tn0[a] == n;
                                lemma_count_for_found(tn0, tc0, n, a);
                                lemma_count_for_found(tn0, tc0.update(k as int, old_len + 1), n, a);
                            }
                        }
                    }
                } else {
                    let mut ds: Vec<Duration> = Vec::new();
                    ds.push(d);
                    self.timers.push((key, ds));
                    proof {
                        assert(self.timer_names() =~= tn0.push(name@));
                        assert(self.timer_counts() =~= tc0.push(1));
                        assert(distinct(self.timer_names())) by {
                            assert forall|a: int, b: int| 0 <= a < b < self.timer_names().len() implies self.timer_names()[a]
                                != self.timer_names()[b] by {
                                if b < tn0.len() {
                                    assert(tn0[a] != tn0[b]);
                                }
                            }
                        }
                        lemma_count_for_found(self.timer_names(), self.timer_counts(), name@, tn0.len() as int);
                        assert forall|n: Seq<char>| n != name@ implies count_for(tn0.push(name@), tc0.push(1), n) == count_for(
                            tn0,
                            tc0,
                            n,
                        ) by {
                            if exists|a: int| 0 <= a < tn0.len() && tn0[a] == n {
                                let a = choose|a: int| 0 <= a < tn0.len() && tn0[a] == n;
                                lemma_count_for_found(tn0, tc0, n, a);
                                lemma_count_for_found(tn0.push(name@), tc0.push(1), n, a);
                            } else {
                                assert forall|a: int| 0 <= a < tn0.push(name@).len() implies tn0.push(name@)[a] != n by {
                                    if a < tn0.len() {
                                        assert(tn0.push(name@)[a] == tn0[a]);
                                    }
                                }
                            }
                        }
                    }
                }
            },
            None => {},
        }
    }

    /// The recorded times, one entry per timer name.
    pub fn timers(&self) -> (r: &Vec<(String, Vec<Duration>)>)
        ensures
            r@.map_values(|e: (String, Vec<Duration>)| e.0@) == self.timer_names(),
    {
        &self.timers
    }
}

} // verus!
