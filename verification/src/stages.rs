//! The stages that a process goes through, and the time it spends in each.
use crate::text;
use vstd::prelude::*;

verus! {

/// Whether a text comes before another in the order of their characters.
pub open spec fn before(a: Seq<char>, b: Seq<char>) -> bool
    decreases a.len(),
{
    if b.len() == 0 {
        false
    } else if a.len() == 0 {
        true
    } else if a[0] != b[0] {
        (a[0] as int) < (b[0] as int)
    } else {
        before(a.skip(1), b.skip(1))
    }
}

/// Of two different texts, one comes before the other, and not the other way round.
pub proof fn lemma_before_total(a: Seq<char>, b: Seq<char>)
    ensures
        before(a, b) ==> !before(b, a) && a != b,
        a != b ==> before(a, b) || before(b, a),
    decreases a.len(),
{
    if a.len() > 0 && b.len() > 0 {
        if a[0] == b[0] {
            lemma_before_total(a.skip(1), b.skip(1));
            if a.skip(1) == b.skip(1) {
                assert forall|i: int| 0 <= i < a.len() implies a[i] == b[i] by {
                    if i > 0 {
                        assert(a.skip(1)[i - 1] == b.skip(1)[i - 1]);
                    }
                }
                assert(a.skip(1).len() == b.skip(1).len());
                assert(a =~= b);
            }
        }
    } else {
        if a.len() == b.len() {
            assert(a =~= b);
        }
    }
}

pub proof fn lemma_before_transitive(a: Seq<char>, b: Seq<char>, c: Seq<char>)
    requires
        before(a, b),
        before(b, c),
    ensures
        before(a, c),
    decreases a.len(),
{
    if a.len() > 0 && a[0] == b[0] && b[0] == c[0] {
        lemma_before_transitive(a.skip(1), b.skip(1), c.skip(1));
    }
}

proof fn lemma_common_prefix(a: Seq<char>, b: Seq<char>, i: int)
    requires
        0 <= i <= a.len(),
        i <= b.len(),
        forall|j: int| 0 <= j < i ==> a[j] == b[j],
    ensures
        before(a, b) == before(a.skip(i), b.skip(i)),
    decreases i,
{
    if i == 0 {
        assert(a.skip(0) =~= a);
        assert(b.skip(0) =~= b);
    } else {
        let (x, y) = (a.skip(1), b.skip(1));
        assert(a[0] == b[0]);
        lemma_common_prefix(x, y, i - 1);
        assert(x.skip(i - 1) =~= a.skip(i));
        assert(y.skip(i - 1) =~= b.skip(i));
    }
}

fn is_before(a: &str, b: &str) -> (r: bool)
    ensures
        r == before(a@, b@),
{
    let x = text::chars_of(a);
    let y = text::chars_of(b);
    let mut i: usize = 0;
    while i < x.len() && i < y.len() && x[i] == y[i]
        invariant
            x@ == a@,
            y@ == b@,
            i <= x@.len(),
            i <= y@.len(),
            forall|j: int| 0 <= j < i ==> x@[j] == y@[j],
        decreases x@.len() - i,
    {
        i = i + 1;
    }
    proof {
        lemma_common_prefix(a@, b@, i as int);
    }
    if i >= y.len() {
        false
    } else if i >= x.len() {
        true
    } else {
        x[i] < y[i]
    }
}

/// The time that was spent in a stage.
#[derive(Clone, Debug, PartialEq, Eq)]
pub struct StageTiming {
    pub stage: String,
    pub nanos: u128,
}

/// The times of a list, by stage.
pub open spec fn times_of(timings: Seq<StageTiming>) -> Map<Seq<char>, u128>
    decreases timings.len(),
{
    if timings.len() == 0 {
        Map::empty()
    } else {
        times_of(timings.drop_last()).insert(timings.last().stage@, timings.last().nanos)
    }
}

/// Whether the stages of a list are in order, each once.
pub open spec fn ordered(timings: Seq<StageTiming>) -> bool {
    forall|i: int, j: int|
        0 <= i < j < timings.len() ==> before(#[trigger] timings[i].stage@, #[trigger] timings[j].stage@)
}

proof fn lemma_times(timings: Seq<StageTiming>)
    requires
        ordered(timings),
    ensures
        forall|i: int|
            0 <= i < timings.len() ==> #[trigger] times_of(timings).dom().contains(timings[i].stage@) && times_of(
                timings,
            )[timings[i].stage@] == timings[i].nanos,
        forall|k: Seq<char>| #[trigger]
            times_of(timings).dom().contains(k) ==> exists|i: int|
                0 <= i < timings.len() && (#[trigger] timings[i]).stage@ == k,
    decreases timings.len(),
{
    if timings.len() > 0 {
        let front = timings.drop_last();
        lemma_times(front);
        let n: int = timings.len() - 1;
        assert forall|i: int| 0 <= i < timings.len() implies #[trigger] times_of(timings).dom().contains(
            timings[i].stage@,
        ) && times_of(timings)[timings[i].stage@] == timings[i].nanos by {
            if i < n {
                assert(front[i] == timings[i]);
                assert(times_of(front).dom().contains(front[i].stage@));
                assert(before(timings[i].stage@, timings[n].stage@));
                lemma_before_total(timings[i].stage@, timings[n].stage@);
            }
        }
        assert forall|k: Seq<char>| #[trigger] times_of(timings).dom().contains(k) implies exists|i: int|
            0 <= i < timings.len() && (#[trigger] timings[i]).stage@ == k by {
            if k != timings[n].stage@ {
                assert(times_of(front).dom().contains(k));
                let i = choose|i: int| 0 <= i < front.len() && (#[trigger] front[i]).stage@ == k;
                assert(timings[i].stage@ == k);
            } else {
                assert(timings[n].stage@ == k);
            }
        }
    }
}

/// The time of a stage, zero where it has none.
pub open spec fn time_in(times: Map<Seq<char>, u128>, stage: Seq<char>) -> u128 {
    if times.dom().contains(stage) {
        times[stage]
    } else {
        0
    }
}

/// A time and what is added to it, at most the largest number there is.
pub open spec fn time_sum(nanos: u128, more: u64) -> u128 {
    if nanos + more <= u128::MAX {
        (nanos + more) as u128
    } else {
        u128::MAX
    }
}

/// Adds time to a stage.
fn add_time(timings: &mut Vec<StageTiming>, stage: String, nanos: u64)
    requires
        ordered(old(timings)@),
    ensures
        ordered(final(timings)@),
        times_of(final(timings)@) == times_of(old(timings)@).insert(
            stage@,
            time_sum(time_in(times_of(old(timings)@), stage@), nanos),
        ),
{
    let ghost t = timings@;
    let ghost k = stage@;
    let mut at: usize = 0;
    while at < timings.len() && is_before(timings[at].stage.as_str(), stage.as_str())
        invariant
            timings@ == t,
            k == stage@,
            at <= t.len(),
            forall|i: int| 0 <= i < at ==> before((#[trigger] t[i]).stage@, k),
        decreases t.len() - at,
    {
        at = at + 1;
    }
    proof {
        lemma_times(t);
        assert forall|i: int| at < i < t.len() implies before(k, (#[trigger] t[i]).stage@) by {
            lemma_before_total(t[at as int].stage@, k);
            assert(before(t[at as int].stage@, t[i].stage@));
            if t[at as int].stage@ != k {
                lemma_before_transitive(k, t[at as int].stage@, t[i].stage@);
            }
        }
        if at < t.len() {
            lemma_before_total(t[at as int].stage@, k);
        }
    }
    let ghost total: u128 = time_sum(time_in(times_of(t), k), nanos);
    if at < timings.len() && timings[at].stage == stage {
        let spent: u128 = timings[at].nanos;
        let sum: u128 = if spent <= u128::MAX - nanos as u128 {
            spent + nanos as u128
        } else {
            u128::MAX
        };
        timings.set(at, StageTiming { stage, nanos: sum });
        proof {
            let u = timings@;
            lemma_times(u);
            assert(u[at as int].stage@ == k);
            assert forall|x: Seq<char>| times_of(u).dom().contains(x) <==> times_of(t).dom().contains(x) by {
                if times_of(u).dom().contains(x) {
                    let i = choose|i: int| 0 <= i < u.len() && (#[trigger] u[i]).stage@ == x;
                    assert(times_of(t).dom().contains(t[i].stage@));
                }
                if times_of(t).dom().contains(x) {
                    let i = choose|i: int| 0 <= i < t.len() && (#[trigger] t[i]).stage@ == x;
                    assert(times_of(u).dom().contains(u[i].stage@));
                }
            }
            assert forall|x: Seq<char>| #[trigger] times_of(u).dom().contains(x) implies times_of(u)[x]
                == times_of(t).insert(k, total)[x] by {
                let i = choose|i: int| 0 <= i < u.len() && (#[trigger] u[i]).stage@ == x;
                assert(times_of(u).dom().contains(u[i].stage@));
                assert(times_of(t).dom().contains(t[i].stage@));
            }
            assert(times_of(u) =~= times_of(t).insert(k, total));
        }
    } else {
        proof {
            if times_of(t).dom().contains(k) {
                let i = choose|i: int| 0 <= i < t.len() && (#[trigger] t[i]).stage@ == k;
                lemma_before_total(k, k);
                if i == at {
                    assert(false);
                }
                assert(false);
            }
            if at < t.len() {
                assert(before(k, t[at as int].stage@));
            }
        }
        timings.insert(at, StageTiming { stage, nanos: nanos as u128 });
        proof {
            let u = timings@;
            assert(u[at as int].stage@ == k);
            assert forall|i: int, j: int| 0 <= i < j < u.len() implies before(
                #[trigger] u[i].stage@,
                #[trigger] u[j].stage@,
            ) by {
                let p: int = if i < at {
                    i
                } else {
                    i - 1
                };
                let q: int = if j < at {
                    j
                } else {
                    j - 1
                };
                if i != at {
                    assert(u[i] == t[p]);
                }
                if j != at {
                    assert(u[j] == t[q]);
                }
                if i != at && j != at {
                    assert(before(t[p].stage@, t[q].stage@));
                }
            }
            lemma_times(u);
            assert forall|x: Seq<char>|
                times_of(u).dom().contains(x) <==> times_of(t).insert(k, total).dom().contains(x) by {
                if times_of(u).dom().contains(x) {
                    let i = choose|i: int| 0 <= i < u.len() && (#[trigger] u[i]).stage@ == x;
                    if i < at {
                        assert(times_of(t).dom().contains(t[i].stage@));
                    } else if i > at {
                        assert(times_of(t).dom().contains(t[i - 1].stage@));
                    }
                }
                if times_of(t).dom().contains(x) {
                    let i = choose|i: int| 0 <= i < t.len() && (#[trigger] t[i]).stage@ == x;
                    if i < at {
                        assert(u[i] == t[i]);
                        assert(times_of(u).dom().contains(u[i].stage@));
                    } else {
                        assert(u[i + 1] == t[i]);
                        assert(times_of(u).dom().contains(u[i + 1].stage@));
                    }
                }
                assert(times_of(u).dom().contains(u[at as int].stage@));
            }
            assert forall|x: Seq<char>| #[trigger] times_of(u).dom().contains(x) implies times_of(u)[x]
                == times_of(t).insert(k, total)[x] by {
                let i = choose|i: int| 0 <= i < u.len() && (#[trigger] u[i]).stage@ == x;
                assert(times_of(u).dom().contains(u[i].stage@));
                if i < at {
                    assert(times_of(t).dom().contains(t[i].stage@));
                } else if i > at {
                    assert(times_of(t).dom().contains(t[i - 1].stage@));
                }
            }
            assert(times_of(u) =~= times_of(t).insert(k, total));
        }
    }
}

/// The stage that the process is in, and the times of those it has left. Without profiling
/// nothing is kept.
#[derive(Clone, Debug, PartialEq, Eq)]
pub struct CpuStages {
    pub profiling: bool,
    pub current: String,
    pub timing: bool,
    pub timings: Vec<StageTiming>,
}

/// What [`enter_cpu_stage`] gives for [`leave_cpu_stage`].
#[derive(Clone, Debug, PartialEq, Eq)]
pub struct CpuStageGuard {
    pub previous: String,
    pub stage: String,
    pub start_nanos: Option<u64>,
}

impl CpuStages {
    /// Whether the times are in order.
    pub open spec fn wf(self) -> bool {
        ordered(self.timings@)
    }

    /// The times that were taken, by stage.
    pub open spec fn times(self) -> Map<Seq<char>, u128> {
        times_of(self.timings@)
    }

    /// A process that has entered no stage.
    pub fn new(profiling: bool) -> (r: CpuStages)
        ensures
            r.wf(),
            r.profiling == profiling,
            r.current@ == "idle"@,
            !r.timing,
            r.times() == Map::<Seq<char>, u128>::empty(),
    {
        CpuStages { profiling, current: "idle".to_owned(), timing: false, timings: Vec::new() }
    }
}

/// Whether a stage was entered: with profiling it is the current one, and the guard keeps the one
/// before it and, where times are taken, the time.
pub open spec fn entered(
    before: CpuStages,
    after: CpuStages,
    guard: CpuStageGuard,
    stage: Seq<char>,
    now_nanos: u64,
) -> bool {
    &&& after.profiling == before.profiling
    &&& after.timing == before.timing
    &&& after.times() == before.times()
    &&& before.profiling ==> {
        &&& after.current@ == stage
        &&& guard.previous@ == before.current@
        &&& guard.stage@ == stage
        &&& guard.start_nanos == if before.timing {
            Some(now_nanos)
        } else {
            None
        }
    }
    &&& !before.profiling ==> {
        &&& after.current@ == before.current@
        &&& guard.start_nanos is None
    }
}

/// Enters a stage at the given time. Its start is kept where times are taken.
pub fn enter_cpu_stage(stages: &mut CpuStages, stage: String, now_nanos: u64) -> (r: CpuStageGuard)
    requires
        old(stages).wf(),
    ensures
        final(stages).wf(),
        entered(*old(stages), *final(stages), r, stage@, now_nanos),
{
    if !stages.profiling {
        return CpuStageGuard { previous: String::new(), stage, start_nanos: None };
    }
    let previous = stages.current.clone();
    stages.current = stage.clone();
    let start_nanos = if stages.timing {
        Some(now_nanos)
    } else {
        None
    };
    CpuStageGuard { previous, stage, start_nanos }
}

/// The time from the start of a stage.
pub open spec fn elapsed(start_nanos: u64, now_nanos: u64) -> u64 {
    if now_nanos < start_nanos {
        0
    } else {
        (now_nanos - start_nanos) as u64
    }
}

/// Whether a stage was left: with profiling the one that the guard keeps is the current one again,
/// and the time of the stage has grown where its start was kept.
pub open spec fn left(before: CpuStages, after: CpuStages, guard: CpuStageGuard, now_nanos: u64) -> bool {
    &&& after.profiling == before.profiling
    &&& after.timing == before.timing
    &&& after.current@ == if before.profiling {
        guard.previous@
    } else {
        before.current@
    }
    &&& after.times() == if before.profiling && guard.start_nanos is Some {
        before.times().insert(
            guard.stage@,
            time_sum(time_in(before.times(), guard.stage@), elapsed(guard.start_nanos->0, now_nanos)),
        )
    } else {
        before.times()
    }
}

/// Leaves a stage at the given time: its time is added where its start was kept, and the stage
/// before it is the current one again.
pub fn leave_cpu_stage(stages: &mut CpuStages, guard: CpuStageGuard, now_nanos: u64)
    requires
        old(stages).wf(),
    ensures
        final(stages).wf(),
        left(*old(stages), *final(stages), guard, now_nanos),
{
    if !stages.profiling {
        return;
    }
    if let Some(start) = guard.start_nanos {
        let nanos: u64 = if now_nanos < start {
            0
        } else {
            now_nanos - start
        };
        add_time(&mut stages.timings, guard.stage, nanos);
    }
    stages.current = guard.previous;
}

/// Whether stages are kept at all.
pub fn cpu_stage_profiling_enabled(stages: &CpuStages) -> (r: bool)
    ensures
        r == stages.profiling,
{
    stages.profiling
}

/// The stage that the process is said to be in.
pub open spec fn shown(stages: CpuStages) -> Seq<char> {
    if stages.profiling {
        stages.current@
    } else {
        "profiling-disabled"@
    }
}

/// The stage that the process is in.
pub fn current_cpu_stage(stages: &CpuStages) -> (r: String)
    ensures
        r@ == shown(*stages),
{
    if stages.profiling {
        stages.current.clone()
    } else {
        "profiling-disabled".to_owned()
    }
}

/// Forgets all times and takes those from now on.
pub fn reset_cpu_stage_timings(stages: &mut CpuStages)
    requires
        old(stages).wf(),
    ensures
        final(stages).wf(),
        final(stages).profiling == old(stages).profiling,
        final(stages).current@ == old(stages).current@,
        old(stages).profiling ==> final(stages).timing && final(stages).times() == Map::<Seq<char>, u128>::empty(),
        !old(stages).profiling ==> final(stages).timing == old(stages).timing && final(stages).times() == old(
            stages,
        ).times(),
{
    if stages.profiling {
        stages.timings = Vec::new();
        stages.timing = true;
    }
}

/// Takes no more times and gives those that were taken, in the order of their stages.
pub fn take_cpu_stage_timings(stages: &mut CpuStages) -> (r: Vec<StageTiming>)
    requires
        old(stages).wf(),
    ensures
        final(stages).wf(),
        final(stages).profiling == old(stages).profiling,
        final(stages).current@ == old(stages).current@,
        ordered(r@),
        old(stages).profiling ==> {
            &&& times_of(r@) == old(stages).times()
            &&& !final(stages).timing
            &&& final(stages).times() == Map::<Seq<char>, u128>::empty()
        },
        !old(stages).profiling ==> {
            &&& r@.len() == 0
            &&& final(stages).timing == old(stages).timing
            &&& final(stages).times() == old(stages).times()
        },
{
    let mut taken: Vec<StageTiming> = Vec::new();
    if stages.profiling {
        stages.timing = false;
        std::mem::swap(&mut taken, &mut stages.timings);
    }
    taken
}

/// The microseconds and seconds of a time of the system, in nanoseconds; negative parts count as
/// nothing.
pub open spec fn time_nanos(seconds: i64, micros: i64) -> int {
    (if seconds < 0 {
        0
    } else {
        seconds * 1_000_000_000
    }) + (if micros < 0 {
        0
    } else {
        micros * 1_000
    })
}

/// A time of the system in nanoseconds.
pub fn timeval_nanos(seconds: i64, micros: i64) -> (r: u128)
    ensures
        r == time_nanos(seconds, micros),
{
    let seconds: u128 = if seconds < 0 {
        0
    } else {
        seconds as u128
    };
    let micros: u128 = if micros < 0 {
        0
    } else {
        micros as u128
    };
    seconds * 1_000_000_000 + micros * 1_000
}

/// The time that a process has spent, as user and in the system.
pub fn process_nanos(user: (i64, i64), system: (i64, i64)) -> (r: u128)
    ensures
        r == time_nanos(user.0, user.1) + time_nanos(system.0, system.1),
{
    timeval_nanos(user.0, user.1) + timeval_nanos(system.0, system.1)
}

/// The peak memory in bytes, where the system counts bytes or kibibytes.
pub fn peak_bytes(max_rss: u64, counts_bytes: bool) -> (r: u64)
    requires
        !counts_bytes ==> max_rss * 1024 <= u64::MAX,
    ensures
        r == if counts_bytes {
            max_rss as int
        } else {
            max_rss * 1024
        },
{
    if counts_bytes {
        max_rss
    } else {
        max_rss * 1024
    }
}

/// The time of a stage in a list: that of the first entry with its name.
pub open spec fn listed_time(timings: Seq<StageTiming>, stage: Seq<char>) -> Option<u128>
    decreases timings.len(),
{
    if timings.len() == 0 {
        None
    } else if timings[0].stage@ == stage {
        Some(timings[0].nanos)
    } else {
        listed_time(timings.skip(1), stage)
    }
}

/// The time of a stage in a list, none where it is not listed.
pub fn stage_duration(timings: &Vec<StageTiming>, stage: &str) -> (r: Option<u128>)
    ensures
        r == listed_time(timings@, stage@),
{
    let wanted = stage.to_owned();
    let mut i: usize = 0;
    assert(timings@.skip(0) =~= timings@);
    while i < timings.len()
        invariant
            wanted@ == stage@,
            i <= timings@.len(),
            listed_time(timings@, stage@) == listed_time(timings@.skip(i as int), stage@),
        decreases timings@.len() - i,
    {
        assert(timings@.skip(i as int)[0] == timings@[i as int]);
        if timings[i].stage == wanted {
            return Some(timings[i].nanos);
        }
        assert(timings@.skip(i as int).skip(1) =~= timings@.skip(i + 1));
        i = i + 1;
    }
    None
}

/// The number of the first `n` runs that list a stage, and the time they spend in it.
pub open spec fn listed(runs: Seq<Vec<StageTiming>>, n: nat, stage: Seq<char>) -> (int, int)
    decreases n,
{
    if n == 0 {
        (0, 0)
    } else {
        let (count, total) = listed(runs, (n - 1) as nat, stage);
        match listed_time(runs[n - 1]@, stage) {
            Some(nanos) => (count + 1, total + nanos),
            None => (count, total),
        }
    }
}

proof fn lemma_listed(runs: Seq<Vec<StageTiming>>, n: nat, m: nat, stage: Seq<char>)
    requires
        n <= m,
    ensures
        0 <= listed(runs, n, stage).0 <= n,
        0 <= listed(runs, n, stage).1 <= listed(runs, m, stage).1,
    decreases m,
{
    if n > 0 {
        lemma_listed(runs, (n - 1) as nat, (n - 1) as nat, stage);
    }
    if n < m {
        lemma_listed(runs, n, (m - 1) as nat, stage);
    }
}

/// The mean time that the runs spend in a stage, over those that list it.
pub fn mean_stage_duration(runs: &Vec<Vec<StageTiming>>, stage: &str) -> (r: Option<u128>)
    requires
        listed(runs@, runs@.len(), stage@).1 <= u128::MAX,
    ensures
        r is None <==> listed(runs@, runs@.len(), stage@).0 == 0,
        r matches Some(mean) ==> mean == listed(runs@, runs@.len(), stage@).1 / listed(
            runs@,
            runs@.len(),
            stage@,
        ).0,
{
    let n: usize = runs.len();
    let mut count: u128 = 0;
    let mut total: u128 = 0;
    let mut i: usize = 0;
    while i < n
        invariant
            n == runs@.len(),
            i <= n,
            listed(runs@, n as nat, stage@).1 <= u128::MAX,
            (count as int, total as int) == listed(runs@, i as nat, stage@),
        decreases n - i,
    {
        proof {
            lemma_listed(runs@, i as nat, n as nat, stage@);
            lemma_listed(runs@, (i + 1) as nat, n as nat, stage@);
        }
        if let Some(nanos) = stage_duration(&runs[i], stage) {
            total = total + nanos;
            count = count + 1;
        }
        i = i + 1;
    }
    if count == 0 {
        None
    } else {
        Some(total / count)
    }
}

/// A stage that is entered and left again leaves the stage before it in place, whatever was entered
/// and left in between, and changes no time but its own.
pub proof fn law_leaving_restores(
    outer: CpuStages,
    first: CpuStages,
    inner: CpuStages,
    after: CpuStages,
    guard: CpuStageGuard,
    stage: Seq<char>,
    start: u64,
    now: u64,
)
    requires
        entered(outer, first, guard, stage, start),
        inner.profiling == first.profiling,
        left(inner, after, guard, now),
    ensures
        shown(first) == if outer.profiling {
            stage
        } else {
            "profiling-disabled"@
        },
        shown(after) == shown(outer),
        forall|other: Seq<char>|
            other != stage ==> #[trigger] time_in(after.times(), other) == time_in(inner.times(), other),
{
}

/// Stages that are entered one inside the other and left in reverse are each the current one while
/// they are the innermost, and leave all stages around them as they were. State `i` of `down` is the
/// one in which stage `i` is entered, and state `i` of `up` the one in which it has been left.
pub proof fn law_nested_stages_restore(
    down: Seq<CpuStages>,
    up: Seq<CpuStages>,
    guards: Seq<CpuStageGuard>,
    stages: Seq<Seq<char>>,
    starts: Seq<u64>,
    ends: Seq<u64>,
    i: int,
)
    requires
        down.len() == guards.len() + 1,
        up.len() == guards.len() + 1,
        up.last() == down.last(),
        forall|j: int|
            0 <= j < guards.len() ==> entered(down[j], down[j + 1], #[trigger] guards[j], stages[j], starts[j]),
        forall|j: int| 0 <= j < guards.len() ==> left(up[j + 1], up[j], #[trigger] guards[j], ends[j]),
        0 <= i <= guards.len(),
    ensures
        up[i].profiling == down[i].profiling,
        shown(up[i]) == shown(down[i]),
        i > 0 && down[i].profiling ==> shown(down[i]) == stages[i - 1],
    decreases guards.len() - i,
{
    if i < guards.len() {
        law_nested_stages_restore(down, up, guards, stages, starts, ends, i + 1);
        let guard = guards[i];
        law_leaving_restores(down[i], down[i + 1], up[i + 1], up[i], guard, stages[i], starts[i], ends[i]);
    }
    if i > 0 {
        assert(entered(down[i - 1], down[i], guards[i - 1], stages[i - 1], starts[i - 1]));
    }
}

/// Names are ordered as in a dictionary: what two have in common at their start decides nothing, then the
/// smaller character comes first, and a name comes before those that go on from it.
pub proof fn law_names_are_in_dictionary_order(common: Seq<char>, x: char, y: char, a: Seq<char>, b: Seq<char>)
    requires
        (x as int) < (y as int),
    ensures
        before(common + seq![x] + a, common + seq![y] + b),
        before(common, common + seq![x] + a),
        !before(common, common),
{
    let (s, t) = (common + seq![x] + a, common + seq![y] + b);
    lemma_common_prefix(s, t, common.len() as int);
    assert(s.skip(common.len() as int)[0] == x && t.skip(common.len() as int)[0] == y);
    lemma_common_prefix(common, s, common.len() as int);
    lemma_before_total(common, common);
}

/// The time of a clock, in nanoseconds: a thousand for every microsecond, a million of them a second, and
/// nothing for parts below zero.
pub proof fn law_clock_time_adds_up(seconds: i64, micros: i64)
    ensures
        seconds >= 0 && micros >= 0 ==> time_nanos(seconds, micros) == 1_000 * (1_000_000 * seconds + micros),
        seconds < 0 ==> time_nanos(seconds, micros) == time_nanos(0, micros),
        micros < 0 ==> time_nanos(seconds, micros) == time_nanos(seconds, 0),
{
}

/// The time between two readings: what the second exceeds the first by, and nothing where it does not.
pub proof fn law_elapsed_is_difference(start_nanos: u64, now_nanos: u64)
    ensures
        now_nanos >= start_nanos ==> start_nanos + elapsed(start_nanos, now_nanos) == now_nanos,
        now_nanos <= start_nanos ==> elapsed(start_nanos, now_nanos) == 0,
{
}

/// Times are added up, up to the largest that can be held.
pub proof fn law_time_sum_saturates(nanos: u128, more: u64)
    ensures
        time_sum(nanos, more) <= nanos + more,
        time_sum(nanos, more) == nanos + more || time_sum(nanos, more) == u128::MAX,
        nanos <= time_sum(nanos, more),
{
}

/// The time that is listed for a stage is that of its first entry.
pub proof fn law_listed_time_is_first(timings: Seq<StageTiming>, stage: Seq<char>, i: int)
    requires
        0 <= i <= timings.len(),
        forall|j: int| 0 <= j < i ==> (#[trigger] timings[j]).stage@ != stage,
    ensures
        i < timings.len() && timings[i].stage@ == stage ==> listed_time(timings, stage) == Some(timings[i].nanos),
        i == timings.len() ==> listed_time(timings, stage) is None,
    decreases timings.len(),
{
    if i > 0 {
        assert(timings[0].stage@ != stage);
        let rest = timings.skip(1);
        assert forall|j: int| 0 <= j < i - 1 implies (#[trigger] rest[j]).stage@ != stage by {
            assert(timings[j + 1].stage@ != stage);
        }
        law_listed_time_is_first(rest, stage, i - 1);
    }
}

proof fn lemma_listed_prefix(a: Seq<Vec<StageTiming>>, b: Seq<Vec<StageTiming>>, n: nat, stage: Seq<char>)
    requires
        forall|i: int| 0 <= i < n ==> #[trigger] a[i] == b[i],
    ensures
        listed(a, n, stage) == listed(b, n, stage),
    decreases n,
{
    if n > 0 {
        lemma_listed_prefix(a, b, (n - 1) as nat, stage);
        assert(a[n - 1] == b[n - 1]);
    }
}

proof fn lemma_listed_insert(
    first: Seq<Vec<StageTiming>>,
    run: Vec<StageTiming>,
    rest: Seq<Vec<StageTiming>>,
    n: nat,
    stage: Seq<char>,
)
    requires
        n <= rest.len(),
    ensures
        ({
            let with = listed(first + seq![run] + rest, first.len() + 1 + n, stage);
            let without = listed(first + rest, first.len() + n, stage);
            match listed_time(run@, stage) {
                Some(nanos) => with.0 == without.0 + 1 && with.1 == without.1 + nanos,
                None => with == without,
            }
        }),
    decreases n,
{
    let with = first + seq![run] + rest;
    let without = first + rest;
    if n == 0 {
        lemma_listed_prefix(with, without, first.len(), stage);
        assert(with[first.len() as int] == run);
    } else {
        lemma_listed_insert(first, run, rest, (n - 1) as nat, stage);
        assert(with[(first.len() + n) as int] == rest[n - 1]);
        assert(without[first.len() + n - 1] == rest[n - 1]);
    }
}

/// A run counts for the mean of a stage, wherever it stands among the runs: once and with its time where
/// it lists the stage, and not at all where it does not.
pub proof fn law_every_listing_run_counts(
    first: Seq<Vec<StageTiming>>,
    run: Vec<StageTiming>,
    rest: Seq<Vec<StageTiming>>,
    stage: Seq<char>,
)
    ensures
        listed(Seq::empty(), 0, stage) == (0int, 0int),
        ({
            let with = listed(first + seq![run] + rest, first.len() + 1 + rest.len(), stage);
            let without = listed(first + rest, first.len() + rest.len(), stage);
            match listed_time(run@, stage) {
                Some(nanos) => with.0 == without.0 + 1 && with.1 == without.1 + nanos,
                None => with == without,
            }
        }),
{
    lemma_listed_insert(first, run, rest, rest.len(), stage);
}

/// A stage that is entered and left adds the time between to what was listed for it, where stages are
/// profiled and timed; otherwise no time changes.
pub proof fn law_stage_time_is_added(
    outer: CpuStages,
    first: CpuStages,
    inner: CpuStages,
    after: CpuStages,
    guard: CpuStageGuard,
    stage: Seq<char>,
    start: u64,
    now: u64,
)
    requires
        entered(outer, first, guard, stage, start),
        inner.profiling == first.profiling,
        left(inner, after, guard, now),
        start <= now,
    ensures
        outer.profiling && outer.timing && time_in(inner.times(), stage) + now - start <= u128::MAX ==> time_in(
            after.times(),
            stage,
        ) == time_in(inner.times(), stage) + now - start,
        outer.profiling && outer.timing ==> after.times().dom().contains(stage),
        !(outer.profiling && outer.timing) ==> after.times() == inner.times(),
        first.times() == outer.times(),
{
}

/// The times that are kept are those of the list, stage by stage.
pub proof fn law_times_are_of_list(timings: Seq<StageTiming>, i: int)
    requires
        ordered(timings),
        0 <= i < timings.len(),
    ensures
        times_of(timings).dom().contains(timings[i].stage@),
        times_of(timings)[timings[i].stage@] == timings[i].nanos,
        forall|stage: Seq<char>|
            #[trigger] times_of(timings).dom().contains(stage) ==> exists|j: int|
                0 <= j < timings.len() && (#[trigger] timings[j]).stage@ == stage,
{
    lemma_times(timings);
    assert(times_of(timings).dom().contains(timings[i].stage@));
}

} // verus!
