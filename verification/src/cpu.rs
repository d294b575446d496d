//! `/proc/stat`: the cumulative CPU time counters of the whole machine and
//! of each core, and their growth between two readings.
use vstd::prelude::*;

use crate::text::{
    chars_of, has_prefix, join_fields, lemma_join_fields, lines, lines_of, plain_field,
    starts_with_str, u64_or_zero, u64_or_zero_of, views, words, words_of,
};

verus! {

/// The time counters of one `cpu` line, in clock ticks.
#[derive(Debug, Clone, Copy, Default)]
pub struct CpuTimes {
    pub user: u64,
    pub nice: u64,
    pub system: u64,
    pub idle: u64,
    pub iowait: u64,
    pub irq: u64,
    pub softirq: u64,
    pub steal: u64,
}

impl CpuTimes {
    /// All time spent.
    pub open spec fn ticks(&self) -> nat {
        self.user as nat + self.nice as nat + self.system as nat + self.idle as nat
            + self.iowait as nat + self.irq as nat + self.softirq as nat + self.steal as nat
    }

    /// Time spent idle or waiting for I/O.
    pub open spec fn idle_ticks(&self) -> nat {
        self.idle as nat + self.iowait as nat
    }

    /// Time spent in user mode, niced or not.
    pub open spec fn user_ticks(&self) -> nat {
        self.user as nat + self.nice as nat
    }

    /// Time spent in the kernel, servicing interrupts included.
    pub open spec fn sys_ticks(&self) -> nat {
        self.system as nat + self.irq as nat + self.softirq as nat
    }

    /// Whether all time fits in a `u64`.
    pub fn fits(&self) -> (r: bool)
        ensures
            r == (self.ticks() <= u64::MAX),
    {
        let a = self.user as u128 + self.nice as u128 + self.system as u128 + self.idle as u128;
        let b = self.iowait as u128 + self.irq as u128 + self.softirq as u128 + self.steal as u128;
        a + b <= u64::MAX as u128
    }

    pub fn total(&self) -> (r: u64)
        requires
            self.ticks() <= u64::MAX,
        ensures
            r == self.ticks(),
    {
        self.user + self.nice + self.system + self.idle + self.iowait + self.irq + self.softirq
            + self.steal
    }

    pub fn idle_total(&self) -> (r: u64)
        requires
            self.idle_ticks() <= u64::MAX,
        ensures
            r == self.idle_ticks(),
    {
        self.idle + self.iowait
    }

    pub fn user_total(&self) -> (r: u64)
        requires
            self.user_ticks() <= u64::MAX,
        ensures
            r == self.user_ticks(),
    {
        self.user + self.nice
    }

    pub fn sys_total(&self) -> (r: u64)
        requires
            self.sys_ticks() <= u64::MAX,
        ensures
            r == self.sys_ticks(),
    {
        self.system + self.irq + self.softirq
    }
}

/// Idle, user, kernel and stolen time together make up all the time.
pub proof fn lemma_ticks_partition(t: CpuTimes)
    ensures
        t.idle_ticks() + t.user_ticks() + t.sys_ticks() + t.steal == t.ticks(),
        t.idle_ticks() <= t.ticks(),
        t.user_ticks() <= t.ticks(),
        t.sys_ticks() <= t.ticks(),
{
}

/// The counters of one `cpu` line: at least eight fields, the seven after
/// the name and the optional ninth (steal) read as numbers, 0 where
/// unreadable.
pub open spec fn cpu_line(line: Seq<char>) -> Option<CpuTimes> {
    let p = words(line);
    if p.len() < 8 {
        None
    } else {
        Some(
            CpuTimes {
                user: u64_or_zero(p[1]),
                nice: u64_or_zero(p[2]),
                system: u64_or_zero(p[3]),
                idle: u64_or_zero(p[4]),
                iowait: u64_or_zero(p[5]),
                irq: u64_or_zero(p[6]),
                softirq: u64_or_zero(p[7]),
                steal: if p.len() > 8 {
                    u64_or_zero(p[8])
                } else {
                    0
                },
            },
        )
    }
}

/// The counters of the leading lines that start with `cpu`; reading stops
/// at the first line that does not.
pub open spec fn cpu_lines(ls: Seq<Seq<char>>) -> Seq<CpuTimes>
    decreases ls.len(),
{
    if ls.len() == 0 || !has_prefix(ls[0], "cpu"@) {
        Seq::empty()
    } else {
        match cpu_line(ls[0]) {
            Some(t) => seq![t] + cpu_lines(ls.drop_first()),
            None => cpu_lines(ls.drop_first()),
        }
    }
}

/// The counters of a `/proc/stat` text: the aggregate line first, then one
/// per core.
pub open spec fn cpu_stat(content: Seq<char>) -> Seq<CpuTimes> {
    cpu_lines(lines(content))
}

fn parse_cpu_line(line: &[char]) -> (r: Option<CpuTimes>)
    ensures
        r == cpu_line(line@),
{
    let p = words_of(line);
    let ghost w = words(line@);
    assert(views(p@) == w);
    if p.len() < 8 {
        return None;
    }
    assert(w[1] == p@[1]@ && w[2] == p@[2]@ && w[3] == p@[3]@ && w[4] == p@[4]@);
    assert(w[5] == p@[5]@ && w[6] == p@[6]@ && w[7] == p@[7]@);
    let steal = if p.len() > 8 {
        assert(w[8] == p@[8]@);
        u64_or_zero_of(&p[8])
    } else {
        0
    };
    Some(
        CpuTimes {
            user: u64_or_zero_of(&p[1]),
            nice: u64_or_zero_of(&p[2]),
            system: u64_or_zero_of(&p[3]),
            idle: u64_or_zero_of(&p[4]),
            iowait: u64_or_zero_of(&p[5]),
            irq: u64_or_zero_of(&p[6]),
            softirq: u64_or_zero_of(&p[7]),
            steal,
        },
    )
}

/// Parse the `cpu` lines at the start of `/proc/stat` content.
pub fn parse_stat(content: &str) -> (r: Vec<CpuTimes>)
    ensures
        r@ == cpu_stat(content@),
{
    let chars = chars_of(content);
    let ls = lines_of(&chars);
    let ghost lv = lines(content@);
    let mut result: Vec<CpuTimes> = Vec::new();
    let mut i: usize = 0;
    assert(lv.skip(0) =~= lv);
    while i < ls.len()
        invariant
            i <= ls@.len(),
            views(ls@) == lv,
            lv == lines(content@),
            cpu_lines(lv) == result@ + cpu_lines(lv.skip(i as int)),
        decreases ls@.len() - i,
    {
        let line = &ls[i];
        let ghost rest = lv.skip(i as int);
        assert(rest[0] == line@);
        assert(rest.drop_first() =~= lv.skip(i + 1));
        if !starts_with_str(line, "cpu") {
            assert(result@ + cpu_lines(rest) =~= result@);
            return result;
        }
        match parse_cpu_line(line) {
            Some(t) => {
                let ghost prev = result@;
                result.push(t);
                assert(prev + (seq![t] + cpu_lines(lv.skip(i + 1))) =~= result@ + cpu_lines(
                    lv.skip(i + 1),
                ));
            },
            None => {},
        }
        i = i + 1;
    }
    assert(lv.skip(lv.len() as int) =~= Seq::<Seq<char>>::empty());
    assert(result@ + Seq::<CpuTimes>::empty() =~= result@);
    result
}

/// The growth of the time counters between two readings of one line.
#[derive(Debug, Clone, Copy)]
pub struct CpuDelta {
    pub total: u64,
    pub idle: u64,
    pub user: u64,
    pub sys: u64,
}

pub open spec fn growth(before: nat, after: nat) -> nat {
    if after >= before {
        (after - before) as nat
    } else {
        0
    }
}

/// The growth of all, idle, user and kernel time from `before` to `after`
/// (0 where a count went down); where all time did not grow, every figure
/// is 0.
pub open spec fn delta_of(before: CpuTimes, after: CpuTimes) -> CpuDelta {
    let total = growth(before.ticks(), after.ticks());
    if total == 0 {
        CpuDelta { total: 0, idle: 0, user: 0, sys: 0 }
    } else {
        CpuDelta {
            total: total as u64,
            idle: growth(before.idle_ticks(), after.idle_ticks()) as u64,
            user: growth(before.user_ticks(), after.user_ticks()) as u64,
            sys: growth(before.sys_ticks(), after.sys_ticks()) as u64,
        }
    }
}

pub fn delta_ticks(before: &CpuTimes, after: &CpuTimes) -> (r: CpuDelta)
    requires
        before.ticks() <= u64::MAX,
        after.ticks() <= u64::MAX,
    ensures
        r == delta_of(*before, *after),
        before.system <= after.system && before.irq <= after.irq && before.softirq
            <= after.softirq && r.total > 0 ==> r.sys == (after.system + after.irq + after.softirq)
            - (before.system + before.irq + before.softirq),
{
    let total = after.total().saturating_sub(before.total());
    if total == 0 {
        return CpuDelta { total: 0, idle: 0, user: 0, sys: 0 };
    }
    CpuDelta {
        total,
        idle: after.idle_total().saturating_sub(before.idle_total()),
        user: after.user_total().saturating_sub(before.user_total()),
        sys: after.sys_total().saturating_sub(before.sys_total()),
    }
}

/// Whether the totals of the lines that are compared fit in a `u64`; where
/// one does not, its addition overflows.
pub open spec fn totals_fit(before: Seq<CpuTimes>, after: Seq<CpuTimes>) -> bool {
    forall|i: int|
        #![trigger before[i]]
        0 <= i < before.len() && i < after.len() ==> before[i].ticks() <= u64::MAX && after[i].ticks()
            <= u64::MAX
}

/// `totals_fit`, as a value.
pub fn cpu_totals_fit(before: &[CpuTimes], after: &[CpuTimes]) -> (r: bool)
    ensures
        r == totals_fit(before@, after@),
{
    let mut i: usize = 0;
    while i < before.len() && i < after.len()
        invariant
            i <= before@.len(),
            i <= after@.len(),
            forall|j: int|
                #![trigger before@[j]]
                0 <= j < i ==> before@[j].ticks() <= u64::MAX && after@[j].ticks() <= u64::MAX,
        decreases before@.len() - i,
    {
        if !before[i].fits() || !after[i].fits() {
            return false;
        }
        i = i + 1;
    }
    true
}

/// The growth of the aggregate line (where both readings have one) and of
/// each core line present in both readings, in order.
pub fn compute_deltas(before: &[CpuTimes], after: &[CpuTimes]) -> (r: (
    Option<CpuDelta>,
    Vec<CpuDelta>,
))
    requires
        totals_fit(before@, after@),
    ensures
        r.0 == (if before@.len() >= 1 && after@.len() >= 1 {
            Some(delta_of(before@[0], after@[0]))
        } else {
            None::<CpuDelta>
        }),
        r.1@.len() == (if before@.len() >= 1 && after@.len() >= 1 {
            if before@.len() < after@.len() {
                before@.len() - 1
            } else {
                after@.len() - 1
            }
        } else {
            0
        }),
        forall|k: int| 0 <= k < r.1@.len() ==> #[trigger] r.1@[k] == delta_of(before@[k + 1], after@[k + 1]),
{
    let aggregate = if before.len() >= 1 && after.len() >= 1 {
        Some(delta_ticks(&before[0], &after[0]))
    } else {
        None
    };
    let n = if before.len() < after.len() {
        before.len()
    } else {
        after.len()
    };
    let mut cores: Vec<CpuDelta> = Vec::new();
    let mut i: usize = 1;
    while i < n
        invariant
            1 <= i,
            n <= before@.len(),
            n <= after@.len(),
            n == before@.len() || n == after@.len(),
            n == 0 ==> i == 1,
            n > 0 ==> i <= n,
            totals_fit(before@, after@),
            cores@.len() == i - 1,
            forall|k: int| 0 <= k < cores@.len() ==> #[trigger] cores@[k] == delta_of(before@[k + 1], after@[k + 1]),
        decreases n - i,
    {
        assert(before@[i as int].ticks() <= u64::MAX && after@[i as int].ticks() <= u64::MAX);
        cores.push(delta_ticks(&before[i], &after[i]));
        i = i + 1;
    }
    (aggregate, cores)
}


/// Two identical readings show no growth at all.
pub proof fn lemma_identical_readings_no_delta(t: CpuTimes)
    ensures
        delta_of(t, t) == (CpuDelta { total: 0, idle: 0, user: 0, sys: 0 }),
{
}

/// When no counter went down, the idle, user and kernel growth together
/// are at most the growth of all time, so each share is at most 100 %.
pub proof fn lemma_shares_within_total(before: CpuTimes, after: CpuTimes)
    requires
        before.ticks() <= u64::MAX,
        after.ticks() <= u64::MAX,
        before.user <= after.user,
        before.nice <= after.nice,
        before.system <= after.system,
        before.idle <= after.idle,
        before.iowait <= after.iowait,
        before.irq <= after.irq,
        before.softirq <= after.softirq,
        before.steal <= after.steal,
    ensures
        delta_of(before, after).idle + delta_of(before, after).user + delta_of(before, after).sys
            <= delta_of(before, after).total,
{
}

/// Where no counter went down, each figure of the growth is the difference
/// of the raw counters that make it up: all eight for the total,
/// `idle + iowait` for idle time, `user + nice` for user time and
/// `system + irq + softirq` for kernel time (all time fitting in a `u64`,
/// as `delta_ticks` requires); and idle, user, kernel and
/// stolen growth together make up the total growth.
pub proof fn lemma_delta_counts_each_counter(before: CpuTimes, after: CpuTimes)
    requires
        before.ticks() <= u64::MAX,
        after.ticks() <= u64::MAX,
        before.user <= after.user,
        before.nice <= after.nice,
        before.system <= after.system,
        before.idle <= after.idle,
        before.iowait <= after.iowait,
        before.irq <= after.irq,
        before.softirq <= after.softirq,
        before.steal <= after.steal,
    ensures
        delta_of(before, after).total == (after.user + after.nice + after.system + after.idle
            + after.iowait + after.irq + after.softirq + after.steal) - (before.user + before.nice
            + before.system + before.idle + before.iowait + before.irq + before.softirq
            + before.steal),
        delta_of(before, after).idle == (after.idle + after.iowait) - (before.idle + before.iowait),
        delta_of(before, after).user == (after.user + after.nice) - (before.user + before.nice),
        delta_of(before, after).sys == (after.system + after.irq + after.softirq) - (before.system
            + before.irq + before.softirq),
        delta_of(before, after).idle + delta_of(before, after).user + delta_of(before, after).sys
            + (after.steal - before.steal) == delta_of(before, after).total,
{
}

/// A `cpu` line of eight or more space-separated fields reads its counters
/// in the kernel's order: user, nice, system, idle, iowait, irq, softirq,
/// then steal where a ninth field is present (0 otherwise).
pub proof fn lemma_cpu_line_fields(ws: Seq<Seq<char>>)
    requires
        ws.len() >= 8,
        forall|i: int| 0 <= i < ws.len() ==> plain_field(#[trigger] ws[i], '\n'),
    ensures
        cpu_line(join_fields(ws)) == Some(
            CpuTimes {
                user: u64_or_zero(ws[1]),
                nice: u64_or_zero(ws[2]),
                system: u64_or_zero(ws[3]),
                idle: u64_or_zero(ws[4]),
                iowait: u64_or_zero(ws[5]),
                irq: u64_or_zero(ws[6]),
                softirq: u64_or_zero(ws[7]),
                steal: if ws.len() > 8 {
                    u64_or_zero(ws[8])
                } else {
                    0
                },
            },
        ),
{
    lemma_join_fields(ws, '\n');
}

} // verus!
