//! Worker-pool planning and result aggregation.
//!
//! The pool is sized to the detected logical processor count, never below
//! one. The discovered test identities, in their stable order, are split
//! into contiguous partitions as close to equal in size as possible: every
//! spawned slot gets a non-empty partition, the partitions are pairwise
//! disjoint, and together they are exactly the discovered set. When every
//! slot has terminated, its reported outcomes are aggregated into one
//! report; a slot that exited abnormally has its whole partition recorded
//! as failed, and the run succeeds only if every test passed.

use vstd::prelude::*;
use crate::errors::Abort;
use crate::interface::TestIdentity;

verus! {

/// Relies on num_cpus::get for the number of logical processors available;
/// its documentation states that it always returns at least 1.
#[verifier::external_body]
fn detected_cpu_count() -> (n: usize)
    ensures
        n >= 1,
{
    num_cpus::get()
}

/// The worker-pool size for a given processor count: the count itself,
/// floored at one.
pub fn pool_size(cpu_count: usize) -> (n: usize)
    ensures
        n == if cpu_count == 0 { 1usize } else { cpu_count },
        n >= 1,
{
    if cpu_count == 0 {
        1
    } else {
        cpu_count
    }
}

/// The worker-pool size of this run: the detected logical processor count,
/// floored at one.
pub fn worker_pool_size() -> (n: usize)
    ensures
        n >= 1,
{
    pool_size(detected_cpu_count())
}

/// The concatenation of a sequence of partitions.
pub open spec fn concat_all<T>(parts: Seq<Seq<T>>) -> Seq<T>
    decreases parts.len(),
{
    if parts.len() == 0 {
        Seq::empty()
    } else {
        concat_all(parts.drop_last()) + parts.last()
    }
}

/// How many slots a run with `n` tests and a pool of `pool` fills: one per
/// test when tests are scarcer than processors, else the whole pool.
pub open spec fn slot_count(n: int, pool: int) -> int {
    if n < pool {
        n
    } else {
        pool
    }
}

/// The size of slot `i`'s partition: an even share of the tests, with the
/// remainder spread one each over the first slots.
pub open spec fn slot_size(n: int, k: int, i: int) -> int {
    n / k + if i < n % k {
        1int
    } else {
        0int
    }
}

/// Split the tests, in their given order, into contiguous partitions: one
/// non-empty, near-equal slice per slot.
#[verifier::loop_isolation(false)]
#[verifier::rlimit(30)]
pub fn partition(tests: Vec<TestIdentity>, pool: usize) -> (parts: Vec<Vec<TestIdentity>>)
    requires
        pool >= 1,
    ensures
        parts.len() == slot_count(tests.deep_view().len() as int, pool as int),
        concat_all(parts.deep_view()) == tests.deep_view(),
        forall|i: int|
            0 <= i < parts.len() ==> #[trigger] parts.deep_view()[i].len() == slot_size(
                tests.deep_view().len() as int,
                parts.len() as int,
                i,
            ),
        forall|i: int| 0 <= i < parts.len() ==> #[trigger] parts.deep_view()[i].len() >= 1,
        forall|i: int, j: int|
            0 <= i < parts.len() && 0 <= j < parts.len() ==> parts.deep_view()[i].len()
                - parts.deep_view()[j].len() <= 1,
{
    let ghost tv = tests.deep_view();
    let n = tests.len();
    proof {
        assert(tv.len() == n);
    }
    let mut parts: Vec<Vec<TestIdentity>> = Vec::new();
    if n == 0 {
        proof {
            assert(parts.deep_view() =~= Seq::<Seq<(Seq<Seq<char>>, Seq<u8>)>>::empty());
            assert(concat_all(parts.deep_view()) =~= tv);
        }
        return parts;
    }
    let k: usize = if n < pool {
        n
    } else {
        pool
    };
    let base: usize = n / k;
    let extra: usize = n % k;
    proof {
        vstd::arithmetic::div_mod::lemma_fundamental_div_mod(n as int, k as int);
        assert(n == k * base + extra);
        vstd::arithmetic::div_mod::lemma_mod_bound(n as int, k as int);
        assert(extra < k);
        assert(base >= 1) by {
            if base == 0 {
                assert(n == extra) by {
                    assert(k * 0 == 0) by (nonlinear_arith);
                };
                assert(extra < k <= n);
                assert(false);
            }
        };
        assert(base <= n) by (nonlinear_arith)
            requires
                n == k * base + extra,
                k >= 1,
                base >= 0,
                extra >= 0,
        ;
    }
    let mut rest = tests;
    let mut i: usize = 0;
    while i < k
        invariant
            1 <= k <= n == tv.len(),
            base == n as int / k as int,
            extra == n as int % k as int,
            base >= 1,
            extra < k,
            i <= k,
            parts.len() == i,
            rest.deep_view() =~= tv.skip(
                i as int * base + if i <= extra {
                    i as int
                } else {
                    extra as int
                },
            ),
            concat_all(parts.deep_view()) + rest.deep_view() =~= tv,
            forall|p: int|
                0 <= p < i ==> #[trigger] parts.deep_view()[p].len() == slot_size(
                    n as int,
                    k as int,
                    p,
                ),
        decreases k - i,
    {
        let size: usize;
        if i < extra {
            proof {
                assert(base < n) by (nonlinear_arith)
                    requires
                        n == k * base + extra,
                        extra >= 1,
                        k >= 1,
                        base >= 0,
                ;
            }
            size = base + 1;
        } else {
            size = base;
        }
        proof {
            let consumed = i as int * base + if i <= extra {
                i as int
            } else {
                extra as int
            };
            assert(consumed + size <= n) by {
                assert(i as int * base + base == (i as int + 1) * base) by (nonlinear_arith);
                assert((i as int + 1) * base <= k as int * base) by (nonlinear_arith)
                    requires
                        i as int + 1 <= k as int,
                        base >= 1,
                ;
                assert(n == k as int * base + extra);
            };
            assert(rest.deep_view().len() == n - consumed);
            assert(size <= rest.len());
        }
        let ghost pre_rest = rest.deep_view();
        let tail = rest.split_off(size);
        proof {
            assert(rest.deep_view() =~= pre_rest.take(size as int));
            assert(tail.deep_view() =~= pre_rest.skip(size as int));
        }
        let ghost pre_parts = parts.deep_view();
        let ghost slice = rest.deep_view();
        parts.push(rest);
        rest = tail;
        proof {
            assert(parts.deep_view() =~= pre_parts.push(slice));
            assert(parts.deep_view().drop_last() =~= pre_parts);
            assert(concat_all(parts.deep_view()) =~= concat_all(pre_parts) + slice);
            let consumed = i as int * base + if i <= extra {
                i as int
            } else {
                extra as int
            };
            assert((i + 1) as int * base + if i + 1 <= extra {
                (i + 1) as int
            } else {
                extra as int
            } == consumed + size) by (nonlinear_arith)
                requires
                    0 <= i,
                    base >= 0,
                    0 <= extra,
                    size == base + if i < extra {
                        1int
                    } else {
                        0int
                    },
                    consumed == i as int * base + if i <= extra {
                        i as int
                    } else {
                        extra as int
                    },
            ;
            assert(rest.deep_view() =~= tv.skip(consumed + size));
            assert(concat_all(parts.deep_view()) + rest.deep_view() =~= tv);
            assert(slice.len() == slot_size(n as int, k as int, i as int));
        }
        i = i + 1;
    }
    proof {
        let consumed = k as int * base + extra;
        assert(k as int * base + extra == n);
        assert(rest.deep_view() =~= tv.skip(n as int));
        assert(rest.deep_view().len() == 0);
        assert(concat_all(parts.deep_view()) =~= tv);
        assert(parts.len() == slot_count(n as int, pool as int));
        assert forall|p: int| 0 <= p < parts.len() implies #[trigger] parts.deep_view()[p].len()
            >= 1 by {
            assert(parts.deep_view()[p].len() == slot_size(n as int, k as int, p));
        }
    }
    parts
}

/// The outcome a worker reported for one test.
#[derive(Clone, Copy, PartialEq, Eq, Structural)]
pub enum TestOutcome {
    Passed,
    Failed,
    Errored,
}

impl DeepView for TestOutcome {
    type V = TestOutcome;

    open spec fn deep_view(&self) -> TestOutcome {
        *self
    }
}

/// How one worker slot ended.
pub enum WorkerStatus {
    /// The slot's process could not be started at all.
    NotSpawned,
    /// The process ran to termination: whether it exited successfully, and
    /// the outcome it reported for each test of its partition, in partition
    /// order.
    Exited { success: bool, outcomes: Vec<TestOutcome> },
}

impl DeepView for WorkerStatus {
    type V = Option<(bool, Seq<TestOutcome>)>;

    open spec fn deep_view(&self) -> Option<(bool, Seq<TestOutcome>)> {
        match self {
            WorkerStatus::NotSpawned => Option::None,
            WorkerStatus::Exited { success, outcomes } => Option::Some((*success, outcomes@)),
        }
    }
}

/// One test's recorded outcome in the final report.
pub struct TestResult {
    pub test: TestIdentity,
    pub outcome: TestOutcome,
}

impl DeepView for TestResult {
    type V = ((Seq<Seq<char>>, Seq<u8>), TestOutcome);

    open spec fn deep_view(&self) -> ((Seq<Seq<char>>, Seq<u8>), TestOutcome) {
        (self.test.deep_view(), self.outcome)
    }
}

/// The aggregated outcomes of a run: every dispatched test with its
/// recorded outcome, and whether the run as a whole succeeded.
pub struct ExecutionReport {
    pub results: Vec<TestResult>,
    pub success: bool,
}

/// What one slot contributes to the report: the outcomes it reported when
/// it exited successfully and accounted for its whole partition, else its
/// whole partition recorded as failed.
pub open spec fn slot_report(
    part: Seq<(Seq<Seq<char>>, Seq<u8>)>,
    status: (bool, Seq<TestOutcome>),
) -> Seq<((Seq<Seq<char>>, Seq<u8>), TestOutcome)> {
    if status.0 && status.1.len() == part.len() {
        Seq::new(part.len(), |i: int| (part[i], status.1[i]))
    } else {
        Seq::new(part.len(), |i: int| (part[i], TestOutcome::Failed))
    }
}

/// The whole report body, slot by slot.
pub open spec fn full_report(
    parts: Seq<Seq<(Seq<Seq<char>>, Seq<u8>)>>,
    statuses: Seq<Option<(bool, Seq<TestOutcome>)>>,
) -> Seq<((Seq<Seq<char>>, Seq<u8>), TestOutcome)>
    decreases parts.len(),
{
    if parts.len() == 0 {
        Seq::empty()
    } else {
        full_report(parts.drop_last(), statuses.drop_last()) + slot_report(
            parts.last(),
            statuses.last()->0,
        )
    }
}

/// Whether every recorded outcome is a pass.
pub open spec fn all_passed(results: Seq<((Seq<Seq<char>>, Seq<u8>), TestOutcome)>) -> bool {
    forall|i: int| 0 <= i < results.len() ==> results[i].1 == TestOutcome::Passed
}

/// Aggregate the terminated slots' statuses into the run's report.
///
/// A slot that never spawned is fatal: a worker that never starts cannot
/// report, and silently dropping its partition would under-report. A slot
/// that exited abnormally, or did not account for its whole partition, has
/// the partition recorded as failed; the other slots' outcomes still count.
/// The run succeeds only if every test passed.
pub fn aggregate_report(parts: &Vec<Vec<TestIdentity>>, statuses: &Vec<WorkerStatus>) -> (r:
    Result<ExecutionReport, Abort>)
    requires
        parts.len() == statuses.len(),
    ensures
        match r {
            Ok(rep) => (forall|i: int|
                0 <= i < statuses.deep_view().len() ==> #[trigger] statuses.deep_view()[i]
                    is Some) && rep.results.deep_view() == full_report(
                parts.deep_view(),
                statuses.deep_view(),
            ) && rep.success == all_passed(
                full_report(parts.deep_view(), statuses.deep_view()),
            ),
            Err(e) => e is SpawnFailed && exists|i: int|
                0 <= i < statuses.deep_view().len() && #[trigger] statuses.deep_view()[i]
                    is None,
        },
{
    let ghost pv = parts.deep_view();
    let ghost sv = statuses.deep_view();
    let n = statuses.len();
    proof {
        assert(pv.len() == n);
        assert(sv.len() == n);
    }
    let mut results: Vec<TestResult> = Vec::new();
    let mut success = true;
    let mut i: usize = 0;
    while i < n
        invariant
            n == statuses.len() == parts.len(),
            sv == statuses.deep_view(),
            pv == parts.deep_view(),
            sv.len() == n,
            pv.len() == n,
            i <= n,
            forall|j: int| 0 <= j < i ==> #[trigger] sv[j] is Some,
            results.deep_view() =~= full_report(pv.take(i as int), sv.take(i as int)),
            success == all_passed(full_report(pv.take(i as int), sv.take(i as int))),
        decreases n - i,
    {
        let part = &parts[i];
        proof {
            assert(part.deep_view() == pv[i as int]);
            assert(sv[i as int] == statuses[i as int].deep_view());
        }
        let ghost partv = part.deep_view();
        match &statuses[i] {
            WorkerStatus::NotSpawned => {
                proof {
                    assert(sv[i as int] is None);
                }
                return Err(Abort::SpawnFailed);
            },
            WorkerStatus::Exited { success: exited_ok, outcomes } => {
                let use_reported = *exited_ok && outcomes.len() == part.len();
                let ghost st = sv[i as int]->0;
                let ghost report_here = slot_report(partv, st);
                let m = part.len();
                let mut j: usize = 0;
                while j < m
                    invariant
                        m == partv.len(),
                        m == part.len(),
                        partv == part.deep_view(),
                        j <= m,
                        st == sv[i as int]->0,
                        outcomes@ == st.1,
                        *exited_ok == st.0,
                        use_reported == (st.0 && st.1.len() == partv.len()),
                        report_here == slot_report(partv, st),
                        results.deep_view() =~= full_report(
                            pv.take(i as int),
                            sv.take(i as int),
                        ) + report_here.take(j as int),
                        success == all_passed(
                            full_report(pv.take(i as int), sv.take(i as int))
                                + report_here.take(j as int),
                        ),
                    decreases m - j,
                {
                    let t = crate::interface::clone_identity(&part[j]);
                    proof {
                        assert(t.deep_view() == partv[j as int]);
                    }
                    let outcome: TestOutcome;
                    if use_reported {
                        outcome = outcomes[j];
                    } else {
                        outcome = TestOutcome::Failed;
                    }
                    proof {
                        assert(report_here[j as int] == (partv[j as int], outcome));
                    }
                    if !(outcome == TestOutcome::Passed) {
                        success = false;
                    }
                    let ghost pre_results = results.deep_view();
                    let ghost tr_view = (t.deep_view(), outcome);
                    results.push(TestResult { test: t, outcome });
                    proof {
                        assert(results.deep_view() =~= pre_results.push(tr_view));
                        assert(report_here.take(j + 1) =~= report_here.take(j as int).push(
                            report_here[j as int],
                        ));
                        assert(results.deep_view() =~= full_report(
                            pv.take(i as int),
                            sv.take(i as int),
                        ) + report_here.take(j + 1));
                        let acc = full_report(pv.take(i as int), sv.take(i as int))
                            + report_here.take(j + 1);
                        if success {
                            assert forall|q: int| 0 <= q < acc.len() implies acc[q].1
                                == TestOutcome::Passed by {
                                if q < acc.len() - 1 {
                                    let prev = full_report(
                                        pv.take(i as int),
                                        sv.take(i as int),
                                    ) + report_here.take(j as int);
                                    assert(prev[q] == acc[q]);
                                }
                            }
                        } else {
                            let prev = full_report(pv.take(i as int), sv.take(i as int))
                                + report_here.take(j as int);
                            if all_passed(prev) {
                                assert(acc[acc.len() - 1].1 != TestOutcome::Passed);
                            } else {
                                let q = choose|q: int|
                                    0 <= q < prev.len() && prev[q].1 != TestOutcome::Passed;
                                assert(acc[q] == prev[q]);
                            }
                            assert(!all_passed(acc));
                        }
                    }
                    j = j + 1;
                }
                proof {
                    assert(report_here.take(m as int) =~= report_here);
                    assert(pv.take(i + 1).drop_last() =~= pv.take(i as int));
                    assert(sv.take(i + 1).drop_last() =~= sv.take(i as int));
                    assert(pv.take(i + 1).last() == pv[i as int]);
                    assert(sv.take(i + 1).last() == sv[i as int]);
                    assert(results.deep_view() =~= full_report(pv.take(i + 1), sv.take(i + 1)));
                }
            },
        }
        i = i + 1;
    }
    proof {
        assert(pv.take(n as int) =~= pv);
        assert(sv.take(n as int) =~= sv);
    }
    Ok(ExecutionReport { results, success })
}

/// Whether a sequence holds no element twice.
pub open spec fn no_dup<T>(s: Seq<T>) -> bool {
    forall|i: int, j: int| 0 <= i < j < s.len() ==> s[i] != s[j]
}

/// Everything some partition holds.
pub open spec fn partition_union<T>(parts: Seq<Seq<T>>) -> Set<T> {
    Set::new(|t: T| exists|i: int| 0 <= i < parts.len() && #[trigger] parts[i].contains(t))
}

proof fn lemma_concat_no_dup_split<T>(a: Seq<T>, b: Seq<T>)
    requires
        no_dup(a + b),
    ensures
        no_dup(a),
        no_dup(b),
        forall|x: T| a.contains(x) ==> !b.contains(x),
{
    let c = a + b;
    assert forall|i: int, j: int| 0 <= i < j < a.len() implies a[i] != a[j] by {
        assert(c[i] == a[i]);
        assert(c[j] == a[j]);
    }
    assert forall|i: int, j: int| 0 <= i < j < b.len() implies b[i] != b[j] by {
        assert(c[a.len() + i] == b[i]);
        assert(c[a.len() + j] == b[j]);
    }
    assert forall|x: T| a.contains(x) implies !b.contains(x) by {
        if b.contains(x) {
            let i = choose|i: int| 0 <= i < a.len() && a[i] == x;
            let j = choose|j: int| 0 <= j < b.len() && b[j] == x;
            assert(c[i] == x);
            assert(c[a.len() + j] == x);
        }
    }
}

/// The partitions of a duplicate-free sequence cover exactly its elements,
/// and pairwise share none: for any pool size, the union of the worker
/// partitions is the full discovered set and the partitions are disjoint.
pub proof fn lemma_partition_disjoint_cover<T>(parts: Seq<Seq<T>>, tests: Seq<T>)
    requires
        concat_all(parts) == tests,
        no_dup(tests),
    ensures
        partition_union(parts) == tests.to_set(),
        forall|i: int, j: int, x: T|
            0 <= i < parts.len() && 0 <= j < parts.len() && i != j && #[trigger] parts[i].contains(
                x,
            ) ==> !(#[trigger] parts[j].contains(x)),
    decreases parts.len(),
{
    if parts.len() == 0 {
        assert(partition_union(parts) =~= tests.to_set());
    } else {
        let init = parts.drop_last();
        let last = parts.last();
        let front = concat_all(init);
        assert(tests == front + last);
        lemma_concat_no_dup_split(front, last);
        lemma_partition_disjoint_cover(init, front);
        assert forall|t: T| partition_union(parts).contains(t) implies tests.to_set().contains(
            t,
        ) by {
            let i = choose|i: int| 0 <= i < parts.len() && #[trigger] parts[i].contains(t);
            if i < parts.len() - 1 {
                assert(init[i] == parts[i]);
                assert(partition_union(init).contains(t));
                assert(front.to_set().contains(t));
                let k = choose|k: int| 0 <= k < front.len() && front[k] == t;
                assert(tests[k] == t);
            } else {
                let k = choose|k: int| 0 <= k < last.len() && last[k] == t;
                assert(tests[front.len() + k] == t);
            }
        }
        assert forall|t: T| tests.to_set().contains(t) implies partition_union(parts).contains(
            t,
        ) by {
            let k = choose|k: int| 0 <= k < tests.len() && tests[k] == t;
            if k < front.len() {
                assert(front[k] == t);
                assert(front.to_set().contains(t));
                assert(partition_union(init).contains(t));
                let i = choose|i: int| 0 <= i < init.len() && #[trigger] init[i].contains(t);
                assert(parts[i] == init[i]);
                assert(parts[i].contains(t));
            } else {
                assert(last[k - front.len()] == t);
                assert(parts[parts.len() - 1].contains(t));
            }
        }
        assert(partition_union(parts) =~= tests.to_set());
        assert forall|i: int, j: int, x: T|
            0 <= i < parts.len() && 0 <= j < parts.len() && i != j && #[trigger] parts[i].contains(
                x,
            ) implies !(#[trigger] parts[j].contains(x)) by {
            if parts[j].contains(x) {
                if i < parts.len() - 1 && j < parts.len() - 1 {
                    assert(init[i] == parts[i]);
                    assert(init[j] == parts[j]);
                } else if i < parts.len() - 1 {
                    assert(init[i] == parts[i]);
                    assert(partition_union(init).contains(x));
                    assert(front.to_set().contains(x));
                    let k = choose|k: int| 0 <= k < front.len() && front[k] == x;
                    assert(front.contains(x));
                    assert(last.contains(x));
                } else {
                    assert(init[j] == parts[j]);
                    assert(partition_union(init).contains(x));
                    assert(front.to_set().contains(x));
                    assert(front.contains(x));
                    assert(last.contains(x));
                }
            }
        }
    }
}

} // verus!
