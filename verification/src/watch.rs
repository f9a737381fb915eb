//! The growth of processes between two samples.

use crate::accuracy::{tells_bytes, tells_change};
use crate::double::{lemma_two_to_positive, two_to, Double};
use crate::human::{
    fixed, human_signed, human_signed_text, law_human_signed_tells_the_change, lemma_fixed,
    lemma_human_is_a_word, push_fixed,
};
use crate::kernel::{parent_of, ppid_of, ProcBsdInfo};
use crate::order::{
    distinct, firsts, in_order, is_ordering_of, is_ranked, law_distinct_ranks_fix_the_order,
    law_firsts_are_distinct,
    law_ordering_keeps_the_items, precedes, shown, shown_count, Ranked,
};
use crate::rate::{
    elapsed_in, elapsed_seconds, growth, growth_of, is_elapsed, law_growth_is_the_difference,
    law_rate_is_accurate, rate, rate_of,
};
use crate::reading::{
    decimal_value, decimals, is_word, lemma_forth, shows, signed_worth, size, tells, until,
    word, word_from_end, worth,
};
use crate::snapshot::{
    behind, bytes_string, bytes_text, law_bytes_are_told, lemma_headings, lemma_label,
    lemma_label_with_parent, listed, name_cell, narrow_heading, parent_cell, pid_cell,
    wide_heading,
};
use crate::text::{
    decimal, law_decimal_is_read_back, left, lemma_last_cell, lemma_next_cell, push_decimal,
    push_left, push_right, right, signed_text, texts, truncate,
};
use std::collections::HashMap;
use vstd::prelude::*;

verus! {

/// When a process started, in seconds and microseconds.
pub type StartTime = (u64, u64);

/// A process at one time.
#[derive(Clone, Copy, Debug, PartialEq, Eq)]
pub struct Sample {
    pub footprint: u64,
    pub start: Option<StartTime>,
    pub ppid: i32,
}

/// The processes at one time: those that could be read, and how many could not.
#[derive(Debug)]
pub struct SampleSet {
    pub rows: HashMap<i32, Sample>,
    pub denied: usize,
}

/// A process that was looked at: its compressed bytes and footprint unless access was denied,
/// and what else is known of it.
#[derive(Debug)]
pub struct SampleProbe {
    pub pid: i32,
    pub memory: Option<(u64, u64)>,
    pub info: Option<ProcBsdInfo>,
}

/// The sample of a process with the footprint `footprint`.
pub open spec fn sample_of(footprint: u64, info: Option<ProcBsdInfo>) -> Sample {
    Sample {
        footprint,
        start: match info {
            Some(i) => Some((i.pbi_start_tvsec, i.pbi_start_tvusec)),
            None => None,
        },
        ppid: parent_of(info) as i32,
    }
}

/// The samples of the processes that could be read. A process that was looked at twice counts
/// as it was the last time.
pub open spec fn samples_of(probes: Seq<SampleProbe>) -> Map<i32, Sample>
    decreases probes.len(),
{
    if probes.len() == 0 {
        Map::empty()
    } else {
        let samples = samples_of(probes.drop_last());
        let probe = probes.last();
        match probe.memory {
            Some(memory) => samples.insert(probe.pid, sample_of(memory.1, probe.info)),
            None => samples,
        }
    }
}

/// How many processes could not be read.
pub open spec fn unread(probes: Seq<SampleProbe>) -> nat
    decreases probes.len(),
{
    if probes.len() == 0 {
        0
    } else {
        unread(probes.drop_last()) + if probes.last().memory is None {
            1nat
        } else {
            0nat
        }
    }
}

/// The process `pid` was read at `k`, and not again behind that.
pub open spec fn last_reading(probes: Seq<SampleProbe>, k: int, pid: i32) -> bool {
    &&& 0 <= k < probes.len()
    &&& probes[k].pid == pid && probes[k].memory is Some
    &&& forall|l: int|
        k < l < probes.len() ==> (#[trigger] probes[l]).pid != pid || probes[l].memory is None
}

/// A sample holds what was read of a process.
pub open spec fn samples(sample: Sample, probe: SampleProbe) -> bool {
    &&& probe.memory is Some
    &&& sample.footprint == (probe.memory->0).1
    &&& probe.info is None ==> sample.start is None && sample.ppid == 0
    &&& probe.info is Some ==> {
        &&& sample.start is Some
        &&& (sample.start->0).0 == probe.info->0.pbi_start_tvsec
        &&& (sample.start->0).1 == probe.info->0.pbi_start_tvusec
        &&& (sample.ppid - probe.info->0.pbi_ppid) % 0x1_0000_0000 == 0
    }
}

/// The samples are those of the processes that could be read, each as it was read last, and the
/// readings that failed are counted.
pub proof fn law_samples_are_the_last_readings(probes: Seq<SampleProbe>)
    ensures
        unread(probes) == probes.filter(|p: SampleProbe| p.memory is None).len(),
        forall|pid: i32| #[trigger]
            samples_of(probes).contains_key(pid) <==> exists|k: int| #[trigger]
                last_reading(probes, k, pid),
        forall|k: int, pid: i32| #[trigger]
            last_reading(probes, k, pid) ==> samples(samples_of(probes)[pid], probes[k]),
    decreases probes.len(),
{
    reveal(Seq::filter);
    if probes.len() > 0 {
        let front = probes.drop_last();
        let last = probes.last();
        let n = probes.len() - 1;
        law_samples_are_the_last_readings(front);
        assert forall|k: int, pid: i32|
            #![trigger last_reading(front, k, pid)]
            #![trigger last_reading(probes, k, pid)]
            k < n implies last_reading(probes, k, pid) == (last_reading(front, k, pid) && (last.pid
            != pid || last.memory is None)) by {
            if last_reading(probes, k, pid) {
                assert(probes[n] == last);
                assert forall|l: int| k < l < front.len() implies (#[trigger] front[l]).pid != pid
                    || front[l].memory is None by {
                    assert(probes[l] == front[l]);
                }
            }
            if last_reading(front, k, pid) && (last.pid != pid || last.memory is None) {
                assert forall|l: int| k < l < probes.len() implies (#[trigger] probes[l]).pid
                    != pid || probes[l].memory is None by {
                    if l < n {
                        assert(probes[l] == front[l]);
                    }
                }
            }
        }
        assert forall|pid: i32|
            last_reading(probes, n, pid) == (last.pid == pid && last.memory is Some) by {}
        assert forall|pid: i32| #[trigger]
            samples_of(probes).contains_key(pid) <==> exists|k: int| #[trigger]
                last_reading(probes, k, pid) by {
            if samples_of(probes).contains_key(pid) {
                if last.memory is Some && last.pid == pid {
                    assert(last_reading(probes, n, pid));
                } else {
                    assert(samples_of(front).contains_key(pid));
                    let k = choose|k: int| #[trigger] last_reading(front, k, pid);
                    assert(last_reading(probes, k, pid));
                }
            }
            if exists|k: int| #[trigger] last_reading(probes, k, pid) {
                let k = choose|k: int| #[trigger] last_reading(probes, k, pid);
                if k < n {
                    assert(last_reading(front, k, pid));
                }
            }
        }
        assert forall|k: int, pid: i32| #[trigger] last_reading(probes, k, pid) implies samples(
            samples_of(probes)[pid],
            probes[k],
        ) by {
            if k < n {
                assert(last_reading(front, k, pid));
                assert(samples(samples_of(front)[pid], front[k]));
            }
        }
    }
}

/// Collects a sample of each process that could be read and counts the others.
pub fn sample(probes: &Vec<SampleProbe>) -> (r: SampleSet)
    ensures
        r.rows@ == samples_of(probes@),
        r.denied == unread(probes@),
        r.rows@.len() + r.denied <= probes@.len(),
        r.wf(),
        r.denied == probes@.filter(|p: SampleProbe| p.memory is None).len(),
        forall|pid: i32| #[trigger]
            r.rows@.contains_key(pid) <==> exists|k: int| #[trigger] last_reading(probes@, k, pid),
        forall|k: int, pid: i32| #[trigger]
            last_reading(probes@, k, pid) ==> samples(r.rows@[pid], probes@[k]),
{
    broadcast use vstd::std_specs::hash::group_hash_axioms;

    let mut rows: HashMap<i32, Sample> = HashMap::new();
    let mut denied: usize = 0;
    let mut i: usize = 0;
    assert(probes@.take(0) =~= Seq::<SampleProbe>::empty());
    while i < probes.len()
        invariant
            i <= probes@.len(),
            rows@ == samples_of(probes@.take(i as int)),
            denied == unread(probes@.take(i as int)),
            rows@.dom().finite(),
            rows@.len() + denied <= i,
        decreases probes@.len() - i,
    {
        broadcast use vstd::std_specs::hash::group_hash_axioms;

        assert(probes@.take(i + 1).drop_last() =~= probes@.take(i as int));
        let probe = &probes[i];
        match probe.memory {
            Some(memory) => {
                let start = match &probe.info {
                    Some(info) => Some((info.pbi_start_tvsec, info.pbi_start_tvusec)),
                    None => None,
                };
                rows.insert(
                    probe.pid,
                    Sample { footprint: memory.1, start, ppid: ppid_of(&probe.info) },
                );
            },
            None => {
                denied = denied + 1;
            },
        }
        i = i + 1;
    }
    assert(probes@.take(probes@.len() as int) =~= probes@);
    proof {
        law_samples_are_the_last_readings(probes@);
    }
    SampleSet { rows, denied }
}

impl SampleSet {
    /// The processes that were looked at can be counted.
    pub open spec fn wf(self) -> bool {
        self.rows@.len() + self.denied <= usize::MAX
    }

    /// How many processes were looked at.
    pub fn total(&self) -> (r: usize)
        requires
            self.wf(),
        ensures
            r == self.rows@.len() + self.denied,
    {
        broadcast use vstd::std_specs::hash::group_hash_axioms;

        self.rows.len() + self.denied
    }
}

/// Two start times are known and the same.
pub open spec fn same_start(a: Option<StartTime>, b: Option<StartTime>) -> bool {
    a is Some && b is Some && a->0 == b->0
}

/// Tells whether a process number stands for the same process. If a start time is not known it
/// is taken for another one.
pub fn same_process_start(a: Option<StartTime>, b: Option<StartTime>) -> (r: bool)
    ensures
        r == same_start(a, b),
        r <==> (a matches Some(x) && b matches Some(y) && x.0 == y.0 && x.1 == y.1),
{
    match (a, b) {
        (Some(x), Some(y)) => x.0 == y.0 && x.1 == y.1,
        _ => false,
    }
}

/// How a process has grown.
#[derive(Clone, Copy, Debug, PartialEq, Eq)]
pub struct Delta {
    pub pid: i32,
    pub ppid: i32,
    pub foot0: u64,
    pub foot1: u64,
    pub delta: i128,
}

impl Ranked for Delta {
    /// More growth first, then the lower process number.
    open spec fn rank(&self) -> (int, int) {
        (-(self.delta as int), self.pid as int)
    }

    fn goes_before(&self, other: &Self) -> bool {
        self.delta > other.delta || (self.delta == other.delta && self.pid < other.pid)
    }
}

/// The process `pid` is in both samples, and is the same process.
pub open spec fn survives(a: Map<i32, Sample>, b: Map<i32, Sample>, pid: i32) -> bool {
    a.contains_key(pid) && b.contains_key(pid) && same_start(a[pid].start, b[pid].start)
}

/// The growth of the process `pid`.
pub open spec fn delta_of(
    a: Map<i32, Sample>,
    b: Map<i32, Sample>,
    pid: i32,
    show_parent: bool,
) -> Delta {
    Delta {
        pid,
        ppid: if show_parent {
            b[pid].ppid
        } else {
            0
        },
        foot0: a[pid].footprint,
        foot1: b[pid].footprint,
        delta: (b[pid].footprint - a[pid].footprint) as i128,
    }
}

/// `deltas` holds the growth of every process that is in both samples, and of no other, each
/// once.
pub open spec fn covers(
    a: Map<i32, Sample>,
    b: Map<i32, Sample>,
    show_parent: bool,
    deltas: Seq<Delta>,
) -> bool {
    &&& forall|i: int|
        0 <= i < deltas.len() ==> survives(a, b, (#[trigger] deltas[i]).pid) && deltas[i]
            == delta_of(a, b, deltas[i].pid, show_parent)
    &&& forall|i: int, j: int|
        0 <= i < j < deltas.len() ==> (#[trigger] deltas[i]).pid != (#[trigger] deltas[j]).pid
    &&& forall|pid: i32| #[trigger]
        survives(a, b, pid) ==> deltas.contains(delta_of(a, b, pid, show_parent))
}

/// Ordering keeps what is covered.
proof fn lemma_covers_ordered(
    a: Map<i32, Sample>,
    b: Map<i32, Sample>,
    show_parent: bool,
    before: Seq<Delta>,
    after: Seq<Delta>,
)
    requires
        covers(a, b, show_parent, before),
        is_ordering_of(before, after),
    ensures
        covers(a, b, show_parent, after),
{
    law_ordering_keeps_the_items(before, after);
    before.to_multiset_ensures();
    after.to_multiset_ensures();
    assert forall|x: Delta| #[trigger] after.contains(x) == before.contains(x) by {
        assert(after.to_multiset().count(x) == before.to_multiset().count(x));
    }
    assert forall|i: int| 0 <= i < after.len() implies survives(a, b, (#[trigger] after[i]).pid)
        && after[i] == delta_of(a, b, after[i].pid, show_parent) by {
        assert(after.contains(after[i]));
        assert(before.contains(after[i]));
        let k = choose|k: int| 0 <= k < before.len() && before[k] == after[i];
    }
    assert(before.no_duplicates());
    before.lemma_multiset_has_no_duplicates();
    after.lemma_multiset_has_no_duplicates_conv();
    assert forall|i: int, j: int| 0 <= i < j < after.len() implies (#[trigger] after[i]).pid != (
    #[trigger] after[j]).pid by {
        assert(after[i] != after[j]);
    }
    assert forall|pid: i32| #[trigger] survives(a, b, pid) implies after.contains(
        delta_of(a, b, pid, show_parent),
    ) by {
        assert(before.contains(delta_of(a, b, pid, show_parent)));
    }
}

/// The process `pid` was sampled both times, and started at the same known time.
pub open spec fn stays(a: Map<i32, Sample>, b: Map<i32, Sample>, pid: i32) -> bool {
    &&& a.contains_key(pid) && b.contains_key(pid)
    &&& a[pid].start is Some && b[pid].start is Some
    &&& (a[pid].start->0).0 == (b[pid].start->0).0
    &&& (a[pid].start->0).1 == (b[pid].start->0).1
}

/// A change tells of a process that was sampled both times, and tells what was sampled of it.
pub open spec fn compares(
    a: Map<i32, Sample>,
    b: Map<i32, Sample>,
    show_parent: bool,
    d: Delta,
) -> bool {
    &&& stays(a, b, d.pid)
    &&& d.foot0 == a[d.pid].footprint
    &&& d.foot1 == b[d.pid].footprint
    &&& d.delta == b[d.pid].footprint - a[d.pid].footprint
    &&& show_parent ==> d.ppid == b[d.pid].ppid
    &&& !show_parent ==> d.ppid == 0
}

/// More growth comes first, and of the same growth the lower process number. A process that has
/// shrunk comes behind all that have not.
pub proof fn law_more_growth_comes_first(
    a: Map<i32, Sample>,
    b: Map<i32, Sample>,
    show_parent: bool,
    deltas: Seq<Delta>,
)
    requires
        covers(a, b, show_parent, deltas),
        is_ranked(deltas),
    ensures
        forall|i: int, j: int|
            0 <= i < j < deltas.len() ==> {
                ||| (#[trigger] deltas[i]).delta > (#[trigger] deltas[j]).delta
                ||| deltas[i].delta == deltas[j].delta && deltas[i].pid < deltas[j].pid
            },
{
    assert forall|i: int, j: int| 0 <= i < j < deltas.len() implies {
        ||| (#[trigger] deltas[i]).delta > (#[trigger] deltas[j]).delta
        ||| deltas[i].delta == deltas[j].delta && deltas[i].pid < deltas[j].pid
    } by {
        assert(!precedes(deltas[j].rank(), deltas[i].rank()));
        assert(deltas[i].pid != deltas[j].pid);
    }
}

/// The changes are those of the processes that were sampled both times and have not been replaced
/// in between: of all of them, of no other, and each once.
pub proof fn law_the_same_processes_are_compared(
    a: Map<i32, Sample>,
    b: Map<i32, Sample>,
    show_parent: bool,
    deltas: Seq<Delta>,
)
    requires
        covers(a, b, show_parent, deltas),
    ensures
        forall|i: int|
            0 <= i < deltas.len() ==> compares(a, b, show_parent, #[trigger] deltas[i]),
        forall|i: int, j: int|
            0 <= i < j < deltas.len() ==> (#[trigger] deltas[i]).pid != (#[trigger] deltas[j]).pid,
        forall|pid: i32| #[trigger]
            stays(a, b, pid) ==> exists|i: int|
                0 <= i < deltas.len() && (#[trigger] deltas[i]).pid == pid,
{
    assert forall|i: int| 0 <= i < deltas.len() implies compares(
        a,
        b,
        show_parent,
        #[trigger] deltas[i],
    ) by {
        assert(survives(a, b, deltas[i].pid));
    }
    assert forall|pid: i32| #[trigger] stays(a, b, pid) implies exists|i: int|
        0 <= i < deltas.len() && (#[trigger] deltas[i]).pid == pid by {
        assert(survives(a, b, pid));
        let d = delta_of(a, b, pid, show_parent);
        assert(deltas.contains(d));
        let i = choose|i: int| 0 <= i < deltas.len() && deltas[i] == d;
        assert(deltas[i].pid == pid);
    }
}

/// Compares two samples.
pub fn compare(a: &SampleSet, b: &SampleSet, show_parent: bool) -> (r: Vec<Delta>)
    ensures
        covers(a.rows@, b.rows@, show_parent, r@),
        is_ranked(r@),
        forall|i: int, j: int|
            0 <= i < j < r@.len() ==> {
                ||| (#[trigger] r@[i]).delta > (#[trigger] r@[j]).delta
                ||| r@[i].delta == r@[j].delta && r@[i].pid < r@[j].pid
            },
        forall|i: int|
            0 <= i < r@.len() ==> compares(a.rows@, b.rows@, show_parent, #[trigger] r@[i]),
        forall|pid: i32| #[trigger]
            stays(a.rows@, b.rows@, pid) ==> exists|i: int|
                0 <= i < r@.len() && (#[trigger] r@[i]).pid == pid,
{
    broadcast use vstd::std_specs::hash::group_hash_axioms;

    let mut deltas: Vec<Delta> = Vec::new();
    let ghost (x, y) = (a.rows@, b.rows@);
    for (pid, after) in it: b.rows.iter()
        invariant
            x == a.rows@,
            y == b.rows@,
            it.seq().no_duplicates(),
            forall|i: int|
                #![trigger it.seq()[i]]
                0 <= i < it.seq().len() ==> y.contains_key(*it.seq()[i].0) && y[*it.seq()[i].0]
                    == *it.seq()[i].1,
            forall|k: i32| #[trigger] y.contains_key(k) ==> it.seq().contains((&k, &y[k])),
            forall|k: int|
                0 <= k < deltas@.len() ==> survives(x, y, (#[trigger] deltas@[k]).pid)
                    && deltas@[k] == delta_of(x, y, deltas@[k].pid, show_parent),
            forall|i: int, k: int|
                it.index() <= i < it.seq().len() && 0 <= k < deltas@.len() ==> *(
                #[trigger] it.seq()[i]).0 != (#[trigger] deltas@[k]).pid,
            forall|k: int, l: int|
                0 <= k < l < deltas@.len() ==> (#[trigger] deltas@[k]).pid != (
                #[trigger] deltas@[l]).pid,
            forall|i: int|
                #![trigger it.seq()[i]]
                0 <= i < it.index() && survives(x, y, *it.seq()[i].0) ==> deltas@.contains(
                    delta_of(x, y, *it.seq()[i].0, show_parent),
                ),
    {
        broadcast use vstd::std_specs::hash::group_hash_axioms;

        let ghost at = it.index();
        assert(it.seq()[at as int] == (pid, after));
        let ghost before_push = deltas@;
        match a.rows.get(pid) {
            Some(before) => {
                if same_process_start(before.start, after.start) {
                    deltas.push(
                        Delta {
                            pid: *pid,
                            ppid: if show_parent {
                                after.ppid
                            } else {
                                0
                            },
                            foot0: before.footprint,
                            foot1: after.footprint,
                            delta: after.footprint as i128 - before.footprint as i128,
                        },
                    );
                    assert(deltas@[deltas@.len() - 1] == delta_of(x, y, *pid, show_parent));
                }
            },
            None => {},
        }
        assert forall|d: Delta| before_push.contains(d) implies deltas@.contains(d) by {
            let k = choose|k: int| 0 <= k < before_push.len() && before_push[k] == d;
            assert(deltas@[k] == d);
        }
    }
    assert forall|pid: i32| #[trigger] survives(x, y, pid) implies deltas@.contains(
        delta_of(x, y, pid, show_parent),
    ) by {
        assert(y.contains_key(pid));
    }
    let ghost found = deltas@;
    let ordered = in_order(deltas);
    proof {
        lemma_covers_ordered(x, y, show_parent, found, ordered@);
        law_more_growth_comes_first(x, y, show_parent, ordered@);
        law_the_same_processes_are_compared(x, y, show_parent, ordered@);
    }
    ordered
}

/// The growth of a process is exactly the difference of its two footprints.
pub proof fn law_growth_is_exact(
    a: Map<i32, Sample>,
    b: Map<i32, Sample>,
    show_parent: bool,
    deltas: Seq<Delta>,
    i: int,
)
    requires
        covers(a, b, show_parent, deltas),
        0 <= i < deltas.len(),
    ensures
        deltas[i].delta == deltas[i].foot1 - deltas[i].foot0,
        deltas[i].foot0 == a[deltas[i].pid].footprint,
        deltas[i].foot1 == b[deltas[i].pid].footprint,
{
    assert(survives(a, b, deltas[i].pid));
}

/// A process number that was given to another process in between, or of which a start time is
/// not known, is never compared.
pub proof fn law_reused_pid_is_left_out(
    a: Map<i32, Sample>,
    b: Map<i32, Sample>,
    show_parent: bool,
    deltas: Seq<Delta>,
    pid: i32,
)
    requires
        covers(a, b, show_parent, deltas),
        a[pid].start is None || b[pid].start is None || a[pid].start != b[pid].start,
    ensures
        forall|i: int| 0 <= i < deltas.len() ==> (#[trigger] deltas[i]).pid != pid,
{
}

/// Two samples can be compared in one way only: the order in which the processes were found
/// leaves no trace.
pub proof fn law_comparison_is_unique(
    a: Map<i32, Sample>,
    b: Map<i32, Sample>,
    show_parent: bool,
    x: Seq<Delta>,
    y: Seq<Delta>,
)
    requires
        covers(a, b, show_parent, x) && is_ranked(x),
        covers(a, b, show_parent, y) && is_ranked(y),
    ensures
        x == y,
{
    assert forall|d: Delta| #[trigger] x.contains(d) <==> y.contains(d) by {
        if x.contains(d) {
            let i = choose|i: int| 0 <= i < x.len() && x[i] == d;
            assert(survives(a, b, x[i].pid));
        }
        if y.contains(d) {
            let i = choose|i: int| 0 <= i < y.len() && y[i] == d;
            assert(survives(a, b, y[i].pid));
        }
    }
    assert forall|i: int, j: int| 0 <= i < j < x.len() implies #[trigger] x[i].rank() != (
    #[trigger] x[j].rank()) by {
        assert(x[i].pid != x[j].pid);
    }
    assert forall|i: int, j: int| 0 <= i < j < y.len() implies #[trigger] y[i].rank() != (
    #[trigger] y[j].rank()) by {
        assert(y[i].pid != y[j].pid);
    }
    law_distinct_ranks_fix_the_order(x, y);
}

/// Where no process was looked at twice, each was either sampled or counted as denied.
pub proof fn law_every_sample_is_accounted_for(probes: Seq<SampleProbe>)
    requires
        forall|i: int, j: int|
            0 <= i < j < probes.len() ==> (#[trigger] probes[i]).pid != (#[trigger] probes[j]).pid,
    ensures
        samples_of(probes).dom().finite(),
        samples_of(probes).len() + unread(probes) == probes.len(),
    decreases probes.len(),
{
    if probes.len() > 0 {
        let front = probes.drop_last();
        law_every_sample_is_accounted_for(front);
        if samples_of(front).contains_key(probes.last().pid) {
            lemma_sampled(front, probes.last().pid);
        }
        assert forall|i: int| 0 <= i < front.len() implies (#[trigger] front[i]).pid
            != probes.last().pid by {
            assert(probes[i].pid != probes[probes.len() - 1].pid);
        }
    }
}

proof fn lemma_sampled(probes: Seq<SampleProbe>, pid: i32)
    requires
        samples_of(probes).contains_key(pid),
    ensures
        exists|i: int| 0 <= i < probes.len() && (#[trigger] probes[i]).pid == pid,
    decreases probes.len(),
{
    if probes.len() > 0 {
        if probes.last().pid == pid {
            assert(probes[probes.len() - 1].pid == pid);
        } else {
            lemma_sampled(probes.drop_last(), pid);
            let i = choose|i: int|
                0 <= i < probes.drop_last().len() && (#[trigger] probes.drop_last()[i]).pid == pid;
            assert(probes[i].pid == pid);
        }
    }
}

/// The seconds to wait where `interval` are asked for.
pub open spec fn pause_of(interval: u64) -> u64 {
    if interval == 0 {
        1
    } else {
        interval
    }
}

/// How long to wait between the samples, in seconds: one at least.
pub fn pause_secs(interval: u64) -> (r: u64)
    ensures
        r == pause_of(interval),
{
    if interval == 0 {
        1
    } else {
        interval
    }
}

/// What has to be done next to compare two samples.
#[derive(Debug)]
pub enum WatchStep {
    /// Take the first sample.
    SampleFirst { secs: u64 },
    /// Start the clock and wait so many seconds.
    Pause { secs: u64, first: SampleSet },
    /// Take the second sample.
    SampleSecond { first: SampleSet },
    /// Read the clock.
    ReadClock { first: SampleSet, second: SampleSet },
    /// Nothing: these are the samples, and the seconds between them if a clock can count so many.
    Done { first: SampleSet, second: SampleSet, elapsed: Option<Double> },
}

/// What has been done.
#[derive(Debug)]
pub enum WatchEvent {
    /// A sample was taken.
    Sampled { samples: SampleSet },
    /// The time to wait has passed.
    Paused,
    /// The clock was read: the seconds, by the bits of a double.
    Clock { bits: u64 },
}

impl WatchStep {
    /// The first step where `interval` seconds are asked for.
    pub open spec fn first_of(interval: u64) -> WatchStep {
        WatchStep::SampleFirst { secs: pause_of(interval) }
    }

    /// `event` is what the step waits for.
    pub open spec fn awaits(self, event: WatchEvent) -> bool {
        match self {
            WatchStep::SampleFirst { .. } => event is Sampled,
            WatchStep::Pause { .. } => event is Paused,
            WatchStep::SampleSecond { .. } => event is Sampled,
            WatchStep::ReadClock { .. } => event is Clock,
            WatchStep::Done { .. } => false,
        }
    }

    /// The step that follows an event. One that the step does not wait for changes nothing.
    pub open spec fn after(self, event: WatchEvent) -> WatchStep {
        match (self, event) {
            (WatchStep::SampleFirst { secs }, WatchEvent::Sampled { samples }) => {
                WatchStep::Pause { secs, first: samples }
            },
            (WatchStep::Pause { secs, first }, WatchEvent::Paused) => WatchStep::SampleSecond {
                first,
            },
            (WatchStep::SampleSecond { first }, WatchEvent::Sampled { samples }) => {
                WatchStep::ReadClock { first, second: samples }
            },
            (WatchStep::ReadClock { first, second }, WatchEvent::Clock { bits }) => {
                WatchStep::Done { first, second, elapsed: elapsed_in(bits) }
            },
            _ => self,
        }
    }

    /// Begins a comparison over `interval` seconds.
    pub fn start(interval: u64) -> (r: WatchStep)
        ensures
            r == WatchStep::first_of(interval),
    {
        WatchStep::SampleFirst { secs: pause_secs(interval) }
    }

    /// Takes note of what has been done. The seconds in the end can be divided by.
    pub fn next(self, event: WatchEvent) -> (r: WatchStep)
        ensures
            r == self.after(event),
            self is ReadClock && r is Done ==> (r->elapsed matches Some(d) ==> is_elapsed(d)),
    {
        match (self, event) {
            (WatchStep::SampleFirst { secs }, WatchEvent::Sampled { samples }) => {
                WatchStep::Pause { secs, first: samples }
            },
            (WatchStep::Pause { secs: _, first }, WatchEvent::Paused) => {
                WatchStep::SampleSecond { first }
            },
            (WatchStep::SampleSecond { first }, WatchEvent::Sampled { samples }) => {
                WatchStep::ReadClock { first, second: samples }
            },
            (WatchStep::ReadClock { first, second }, WatchEvent::Clock { bits }) => {
                WatchStep::Done { first, second, elapsed: elapsed_seconds(bits) }
            },
            (step, _) => step,
        }
    }
}

/// The step that events lead to, one after the other.
pub open spec fn reached(step: WatchStep, events: Seq<WatchEvent>) -> WatchStep
    decreases events.len(),
{
    if events.len() == 0 {
        step
    } else {
        reached(step.after(events[0]), events.drop_first())
    }
}

/// Those of the events that were waited for when they came.
pub open spec fn heeded(step: WatchStep, events: Seq<WatchEvent>) -> Seq<WatchEvent>
    decreases events.len(),
{
    if events.len() == 0 {
        Seq::empty()
    } else {
        let rest = heeded(step.after(events[0]), events.drop_first());
        if step.awaits(events[0]) {
            seq![events[0]] + rest
        } else {
            rest
        }
    }
}

/// What is still to come when `step` is reached, if the comparison is carried through.
proof fn lemma_heeded(step: WatchStep, events: Seq<WatchEvent>)
    requires
        reached(step, events) is Done,
    ensures
        ({
            let h = heeded(step, events);
            match step {
                WatchStep::SampleFirst { secs } => {
                    &&& h.len() == 4
                    &&& h[0] is Sampled && h[1] is Paused && h[2] is Sampled && h[3] is Clock
                    &&& reached(step, events) == (WatchStep::Done {
                        first: h[0]->samples,
                        second: h[2]->samples,
                        elapsed: elapsed_in(h[3]->bits),
                    })
                },
                WatchStep::Pause { secs, first } => {
                    &&& h.len() == 3
                    &&& h[0] is Paused && h[1] is Sampled && h[2] is Clock
                    &&& reached(step, events) == (WatchStep::Done {
                        first,
                        second: h[1]->samples,
                        elapsed: elapsed_in(h[2]->bits),
                    })
                },
                WatchStep::SampleSecond { first } => {
                    &&& h.len() == 2
                    &&& h[0] is Sampled && h[1] is Clock
                    &&& reached(step, events) == (WatchStep::Done {
                        first,
                        second: h[0]->samples,
                        elapsed: elapsed_in(h[1]->bits),
                    })
                },
                WatchStep::ReadClock { first, second } => {
                    &&& h.len() == 1
                    &&& h[0] is Clock
                    &&& reached(step, events) == (WatchStep::Done {
                        first,
                        second,
                        elapsed: elapsed_in(h[0]->bits),
                    })
                },
                WatchStep::Done { .. } => h.len() == 0 && reached(step, events) == step,
            }
        }),
    decreases events.len(),
{
    if events.len() > 0 {
        lemma_heeded(step.after(events[0]), events.drop_first());
    }
}

/// A comparison that is carried through takes exactly two samples, with one pause between them
/// and one look at the clock behind them, whatever else happens: it ends with the first sample,
/// the second one and the time that the clock told.
pub proof fn law_two_samples_and_one_pause(interval: u64, events: Seq<WatchEvent>)
    requires
        reached(WatchStep::first_of(interval), events) is Done,
    ensures
        ({
            let h = heeded(WatchStep::first_of(interval), events);
            &&& h.len() == 4
            &&& h[0] is Sampled && h[1] is Paused && h[2] is Sampled && h[3] is Clock
            &&& reached(WatchStep::first_of(interval), events) == (WatchStep::Done {
                first: h[0]->samples,
                second: h[2]->samples,
                elapsed: elapsed_in(h[3]->bits),
            })
        }),
{
    lemma_heeded(WatchStep::first_of(interval), events);
}

/// The pause lasts as long as was asked for, but a second at least, whatever happened before it.
pub proof fn law_pause_is_the_interval(interval: u64, events: Seq<WatchEvent>)
    ensures
        reached(WatchStep::first_of(interval), events) matches WatchStep::Pause { secs, .. }
            ==> secs == (if interval > 1 {
            interval
        } else {
            1
        }),
{
    lemma_secs(WatchStep::first_of(interval), events);
}

proof fn lemma_secs(step: WatchStep, events: Seq<WatchEvent>)
    ensures
        reached(step, events) matches WatchStep::Pause { secs, .. } ==> match step {
            WatchStep::SampleFirst { secs: s } => secs == s,
            WatchStep::Pause { secs: s, .. } => secs == s,
            _ => false,
        },
    decreases events.len(),
{
    if events.len() > 0 {
        lemma_secs(step.after(events[0]), events.drop_first());
    }
}

/// Asking for no seconds comes to the same as asking for one.
pub proof fn law_no_seconds_are_one_second(events: Seq<WatchEvent>)
    ensures
        reached(WatchStep::first_of(0), events) == reached(WatchStep::first_of(1), events),
{
}

/// The heading of the comparison.
pub open spec fn watch_header(show_parent: bool) -> Seq<char> {
    (if show_parent {
        left("PID"@, 7) + " "@ + left("PPID"@, 7) + " "@ + left("NAME"@, 24) + " "@ + left(
            "PARENT"@,
            20,
        )
    } else {
        left("PID"@, 7) + " "@ + left("NAME"@, 24)
    }) + " "@ + right("FOOT0"@, 12) + " "@ + right("FOOT1"@, 12) + " "@ + right("DELTA"@, 12)
        + " "@ + right("RATE/s"@, 12)
}

/// The cells for the two footprints of a process, their difference and its rate.
pub open spec fn growth_cells(d: Delta, elapsed: Double) -> Seq<char> {
    right(bytes_text(d.foot0), 12) + " "@ + right(bytes_text(d.foot1), 12) + " "@ + right(
        human_signed_text(growth(d.delta)),
        12,
    ) + " "@ + right(human_signed_text(rate_of(d.delta, elapsed)), 12)
}

/// The line for a process with its name, and its parent's name if parents are shown.
pub open spec fn delta_line(
    d: Delta,
    name: Seq<char>,
    parent: Option<Seq<char>>,
    elapsed: Double,
) -> Seq<char> {
    match parent {
        Some(p) => pid_cell(d.pid) + " "@ + pid_cell(d.ppid) + " "@ + name_cell(name) + " "@
            + parent_cell(p) + " "@ + growth_cells(d, elapsed),
        None => pid_cell(d.pid) + " "@ + name_cell(name) + " "@ + growth_cells(d, elapsed),
    }
}

/// The time between the samples, and what it is worth.
pub open spec fn interval_line(elapsed: Double) -> Seq<char> {
    "interval "@ + fixed(elapsed.magnitude(), 1)
        + "s — one interval = allocation churn; trust SUSTAINED growth as leak signal."@
}

/// How many processes were read at both times.
pub open spec fn sampled_line(
    read0: nat,
    denied0: nat,
    read1: nat,
    denied1: nat,
) -> Seq<char> {
    "sampled procs: first "@ + decimal(read0) + "/"@ + decimal(read0 + denied0) + " readable ("@
        + decimal(denied0) + " denied), second "@ + decimal(read1) + "/"@ + decimal(
        read1 + denied1,
    ) + " readable ("@ + decimal(denied1) + " denied)"@
}

/// The line for each of `deltas`, which have the names `names`.
pub open spec fn delta_lines(
    deltas: Seq<Delta>,
    names: Seq<String>,
    show_parent: bool,
    parents: Map<i32, String>,
    elapsed: Double,
) -> Seq<Seq<char>> {
    Seq::new(
        deltas.len(),
        |i: int|
            delta_line(
                deltas[i],
                names[i]@,
                if show_parent {
                    Some(parents[deltas[i].ppid]@)
                } else {
                    None
                },
                elapsed,
            ),
    )
}

/// The changes to show when `topn` are asked for.
pub open spec fn top_deltas(deltas: Seq<Delta>, topn: usize) -> Seq<Delta> {
    deltas.take(shown(topn, deltas.len()) as int)
}

/// The parent of each of `deltas`.
pub open spec fn delta_parents(deltas: Seq<Delta>) -> Seq<i32> {
    deltas.map_values(|d: Delta| d.ppid)
}

/// The processes to name as parents are those of the changes shown, each once.
pub proof fn law_parents_to_name(deltas: Seq<Delta>, topn: usize)
    ensures
        ({
            let named = firsts(delta_parents(top_deltas(deltas, topn)));
            &&& named.no_duplicates()
            &&& forall|i: int|
                0 <= i < listed(topn, deltas.len()) ==> named.contains((#[trigger] deltas[i]).ppid)
            &&& forall|pid: i32| #[trigger]
                named.contains(pid) ==> exists|i: int|
                    0 <= i < listed(topn, deltas.len()) && (#[trigger] deltas[i]).ppid == pid
        }),
{
    let n = listed(topn, deltas.len());
    assert(shown(topn, deltas.len()) == n);
    let pids = delta_parents(top_deltas(deltas, topn));
    let named = firsts(pids);
    law_firsts_are_distinct(pids);
    assert forall|i: int| 0 <= i < n implies named.contains((#[trigger] deltas[i]).ppid) by {
        assert(pids[i] == deltas[i].ppid);
        assert(pids.contains(pids[i]));
    }
    assert forall|pid: i32| #[trigger] named.contains(pid) implies exists|i: int|
        0 <= i < n && (#[trigger] deltas[i]).ppid == pid by {
        assert(pids.contains(pid));
        let i = choose|i: int| 0 <= i < pids.len() && pids[i] == pid;
        assert(deltas[i].ppid == pid);
    }
}

/// The processes of which the names are shown, in the order of their lines.
pub fn pids_to_name(deltas: &Vec<Delta>, topn: usize) -> (r: Vec<i32>)
    ensures
        r@ == top_deltas(deltas@, topn).map_values(|d: Delta| d.pid),
        r@.len() == listed(topn, deltas@.len()),
        forall|i: int| 0 <= i < r@.len() ==> #[trigger] r@[i] == deltas@[i].pid,
{
    let n: usize = shown_count(topn, deltas.len());
    let mut pids: Vec<i32> = Vec::new();
    let mut i: usize = 0;
    while i < n
        invariant
            i <= n <= deltas@.len(),
            pids@ == deltas@.take(i as int).map_values(|d: Delta| d.pid),
        decreases n - i,
    {
        pids.push(deltas[i].pid);
        i = i + 1;
        assert(pids@ =~= deltas@.take(i as int).map_values(|d: Delta| d.pid));
    }
    pids
}

/// The processes of which the names are shown as parents, each once.
pub fn delta_parents_to_name(deltas: &Vec<Delta>, topn: usize) -> (r: Vec<i32>)
    ensures
        r@ == firsts(delta_parents(top_deltas(deltas@, topn))),
        r@.no_duplicates(),
        forall|i: int|
            0 <= i < listed(topn, deltas@.len()) ==> r@.contains((#[trigger] deltas@[i]).ppid),
        forall|pid: i32| #[trigger]
            r@.contains(pid) ==> exists|i: int|
                0 <= i < listed(topn, deltas@.len()) && (#[trigger] deltas@[i]).ppid == pid,
{
    proof {
        law_parents_to_name(deltas@, topn);
    }
    let n: usize = shown_count(topn, deltas.len());
    let mut pids: Vec<i32> = Vec::new();
    let mut i: usize = 0;
    while i < n
        invariant
            i <= n <= deltas@.len(),
            pids@ == delta_parents(deltas@.take(i as int)),
        decreases n - i,
    {
        pids.push(deltas[i].ppid);
        i = i + 1;
        assert(pids@ =~= delta_parents(deltas@.take(i as int)));
    }
    distinct(&pids)
}

fn header_string(show_parent: bool) -> (r: String)
    ensures
        r@ == watch_header(show_parent),
{
    let mut out = String::new();
    push_left(&mut out, "PID", 7);
    assert(out@ =~= left("PID"@, 7));
    out.append(" ");
    if show_parent {
        push_left(&mut out, "PPID", 7);
        out.append(" ");
        push_left(&mut out, "NAME", 24);
        out.append(" ");
        push_left(&mut out, "PARENT", 20);
    } else {
        push_left(&mut out, "NAME", 24);
    }
    out.append(" ");
    push_right(&mut out, "FOOT0", 12);
    out.append(" ");
    push_right(&mut out, "FOOT1", 12);
    out.append(" ");
    push_right(&mut out, "DELTA", 12);
    out.append(" ");
    push_right(&mut out, "RATE/s", 12);
    out
}

fn push_growth(out: &mut String, d: &Delta, elapsed: Double)
    requires
        -0x1_0000_0000_0000_0000 < d.delta < 0x1_0000_0000_0000_0000,
        is_elapsed(elapsed),
    ensures
        final(out)@ == old(out)@ + growth_cells(*d, elapsed),
{
    let ghost start = out@;
    push_right(out, bytes_string(d.foot0).as_str(), 12);
    out.append(" ");
    push_right(out, bytes_string(d.foot1).as_str(), 12);
    let ghost feet = right(bytes_text(d.foot0), 12) + " "@ + right(bytes_text(d.foot1), 12);
    assert(out@ =~= start + feet);
    out.append(" ");
    push_right(out, human_signed(growth_of(d.delta)).as_str(), 12);
    let ghost grown = feet + " "@ + right(human_signed_text(growth(d.delta)), 12);
    assert(out@ =~= start + grown);
    out.append(" ");
    push_right(out, human_signed(rate(d.delta, elapsed)).as_str(), 12);
    assert(out@ =~= start + (grown + " "@ + right(
        human_signed_text(rate_of(d.delta, elapsed)),
        12,
    )));
}

fn delta_string(d: &Delta, name: &str, parent: Option<&str>, elapsed: Double) -> (r: String)
    requires
        -0x1_0000_0000_0000_0000 < d.delta < 0x1_0000_0000_0000_0000,
        is_elapsed(elapsed),
    ensures
        r@ == delta_line(
            *d,
            name@,
            match parent {
                Some(p) => Some(p@),
                None => None,
            },
            elapsed,
        ),
{
    let mut out = String::new();
    push_left(&mut out, signed_text(d.pid).as_str(), 7);
    assert(out@ =~= pid_cell(d.pid));
    out.append(" ");
    match parent {
        Some(p) => {
            push_left(&mut out, signed_text(d.ppid).as_str(), 7);
            out.append(" ");
            push_left(&mut out, truncate(name, 24).as_str(), 24);
            out.append(" ");
            push_left(&mut out, truncate(p, 20).as_str(), 20);
        },
        None => {
            push_left(&mut out, truncate(name, 24).as_str(), 24);
        },
    }
    out.append(" ");
    push_growth(&mut out, d, elapsed);
    out
}

fn interval_string(elapsed: Double) -> (r: String)
    requires
        is_elapsed(elapsed),
    ensures
        r@ == interval_line(elapsed),
{
    let mut out = "interval ".to_owned();
    match elapsed {
        Double::Finite { mantissa, exponent, .. } => {
            push_fixed(&mut out, mantissa, exponent, 1);
        },
        _ => {},
    }
    out.append("s — one interval = allocation churn; trust SUSTAINED growth as leak signal.");
    out
}

fn sampled_string(a: &SampleSet, b: &SampleSet) -> (r: String)
    requires
        a.wf(),
        b.wf(),
    ensures
        r@ == sampled_line(
            a.rows@.len(),
            a.denied as nat,
            b.rows@.len(),
            b.denied as nat,
        ),
{
    broadcast use vstd::std_specs::hash::group_hash_axioms;

    let mut out = "sampled procs: first ".to_owned();
    push_decimal(&mut out, a.rows.len() as u64);
    out.append("/");
    push_decimal(&mut out, a.total() as u64);
    out.append(" readable (");
    push_decimal(&mut out, a.denied as u64);
    out.append(" denied), second ");
    push_decimal(&mut out, b.rows.len() as u64);
    out.append("/");
    push_decimal(&mut out, b.total() as u64);
    out.append(" readable (");
    push_decimal(&mut out, b.denied as u64);
    out.append(" denied)");
    out
}

/// All lines of the comparison.
pub open spec fn watch_lines(
    a: SampleSet,
    b: SampleSet,
    deltas: Seq<Delta>,
    topn: usize,
    names: Seq<String>,
    show_parent: bool,
    parents: Map<i32, String>,
    elapsed: Double,
) -> Seq<Seq<char>> {
    seq![watch_header(show_parent)] + delta_lines(
        top_deltas(deltas, topn),
        names,
        show_parent,
        parents,
        elapsed,
    ) + seq![
        Seq::empty(),
        interval_line(elapsed),
        sampled_line(a.rows@.len(), a.denied as nat, b.rows@.len(), b.denied as nat),
    ]
}

/// Writes the comparison of two samples, where `deltas` is what they differ in, `names` are the
/// names of the processes shown and `parents` those of their parents. Amounts of bytes differ
/// by less than `2^64`.
pub fn watch_report(
    a: &SampleSet,
    b: &SampleSet,
    deltas: &Vec<Delta>,
    topn: usize,
    names: &Vec<String>,
    show_parent: bool,
    parents: &HashMap<i32, String>,
    elapsed: Double,
) -> (r: Vec<String>)
    requires
        a.wf(),
        b.wf(),
        forall|i: int|
            0 <= i < deltas@.len() ==> -0x1_0000_0000_0000_0000 < (#[trigger] deltas@[i]).delta
                < 0x1_0000_0000_0000_0000,
        names@.len() == top_deltas(deltas@, topn).len(),
        show_parent ==> forall|i: int|
            0 <= i < top_deltas(deltas@, topn).len() ==> parents@.contains_key(
                (#[trigger] top_deltas(deltas@, topn)[i]).ppid,
            ),
        is_elapsed(elapsed),
    ensures
        texts(r@) == watch_lines(*a, *b, deltas@, topn, names@, show_parent, parents@, elapsed),
{
    let n: usize = shown_count(topn, deltas.len());
    let ghost top = top_deltas(deltas@, topn);
    let mut lines: Vec<String> = Vec::new();
    lines.push(header_string(show_parent));
    let ghost wanted = delta_lines(top, names@, show_parent, parents@, elapsed);
    assert(texts(lines@) =~= seq![watch_header(show_parent)] + wanted.take(0));
    let mut i: usize = 0;
    while i < n
        invariant
            i <= n <= deltas@.len(),
            n == names@.len(),
            n == shown(topn, deltas@.len()),
            top == top_deltas(deltas@, topn),
            wanted == delta_lines(top, names@, show_parent, parents@, elapsed),
            forall|k: int|
                0 <= k < deltas@.len() ==> -0x1_0000_0000_0000_0000 < (#[trigger] deltas@[k]).delta
                    < 0x1_0000_0000_0000_0000,
            is_elapsed(elapsed),
            show_parent ==> forall|k: int|
                0 <= k < top.len() ==> parents@.contains_key((#[trigger] top[k]).ppid),
            texts(lines@) == seq![watch_header(show_parent)] + wanted.take(i as int),
        decreases n - i,
    {
        broadcast use vstd::std_specs::hash::group_hash_axioms;

        let d = &deltas[i];
        assert(*d == top[i as int]);
        let parent: Option<&str> = if show_parent {
            Some(parents.get(&d.ppid).unwrap().as_str())
        } else {
            None
        };
        let ghost so_far = texts(lines@);
        let line = delta_string(d, names[i].as_str(), parent, elapsed);
        assert(line@ == wanted[i as int]);
        lines.push(line);
        i = i + 1;
        assert(texts(lines@) =~= so_far.push(wanted[i - 1]));
        assert(texts(lines@) =~= seq![watch_header(show_parent)] + wanted.take(i as int));
    }
    assert(wanted.take(n as int) =~= wanted);
    lines.push(String::new());
    lines.push(interval_string(elapsed));
    lines.push(sampled_string(a, b));
    assert(texts(lines@) =~= watch_lines(
        *a,
        *b,
        deltas@,
        topn,
        names@,
        show_parent,
        parents@,
        elapsed,
    ));
    lines
}

/// A change as it is where parents are not shown.
pub open spec fn without_parent(d: Delta) -> Delta {
    Delta { ppid: 0, ..d }
}

/// Showing parents changes neither which processes are compared, nor their order, nor anything
/// else that is told of them.
pub proof fn law_parents_leave_the_deltas(
    a: Map<i32, Sample>,
    b: Map<i32, Sample>,
    with: Seq<Delta>,
    without: Seq<Delta>,
)
    requires
        covers(a, b, true, with) && is_ranked(with),
        covers(a, b, false, without) && is_ranked(without),
    ensures
        without == with.map_values(|d: Delta| without_parent(d)),
{
    let bare = with.map_values(|d: Delta| without_parent(d));
    assert forall|i: int| 0 <= i < bare.len() implies survives(a, b, (#[trigger] bare[i]).pid)
        && bare[i] == delta_of(a, b, bare[i].pid, false) by {
        assert(survives(a, b, with[i].pid) && with[i] == delta_of(a, b, with[i].pid, true));
    }
    assert forall|i: int, j: int| 0 <= i < j < bare.len() implies (#[trigger] bare[i]).pid != (
    #[trigger] bare[j]).pid by {
        assert(with[i].pid != with[j].pid);
    }
    assert forall|pid: i32| #[trigger] survives(a, b, pid) implies bare.contains(
        delta_of(a, b, pid, false),
    ) by {
        assert(with.contains(delta_of(a, b, pid, true)));
        let i = choose|i: int| 0 <= i < with.len() && with[i] == delta_of(a, b, pid, true);
        assert(bare[i] == delta_of(a, b, pid, false));
    }
    assert forall|i: int, j: int| 0 <= i < j < bare.len() implies !precedes(
        #[trigger] bare[j].rank(),
        #[trigger] bare[i].rank(),
    ) by {
        assert(bare[j].rank() == with[j].rank() && bare[i].rank() == with[i].rank());
    }
    law_comparison_is_unique(a, b, false, without, bare);
}

/// Showing parents adds two cells to the line of each process, its parent's number behind its
/// own and its parent's name behind its own, and changes no other cell; the lines below the
/// table stay as they are.
pub proof fn law_parents_only_add_cells(
    a: SampleSet,
    b: SampleSet,
    with: Seq<Delta>,
    without: Seq<Delta>,
    topn: usize,
    names: Seq<String>,
    parents: Map<i32, String>,
    unused: Map<i32, String>,
    elapsed: Double,
)
    requires
        covers(a.rows@, b.rows@, true, with) && is_ranked(with),
        covers(a.rows@, b.rows@, false, without) && is_ranked(without),
    ensures
        ({
            let n = shown(topn, with.len()) as int;
            let wide = watch_lines(a, b, with, topn, names, true, parents, elapsed);
            let narrow = watch_lines(a, b, without, topn, names, false, unused, elapsed);
            &&& wide.len() == narrow.len() == n + 4
            &&& forall|i: int|
                #![trigger with[i]]
                0 <= i < n ==> {
                    let d = with[i];
                    &&& narrow[i + 1] == pid_cell(d.pid) + " "@ + name_cell(names[i]@) + " "@
                        + growth_cells(d, elapsed)
                    &&& wide[i + 1] == pid_cell(d.pid) + " "@ + pid_cell(d.ppid) + " "@
                        + name_cell(names[i]@) + " "@ + parent_cell(parents[d.ppid]@) + " "@
                        + growth_cells(d, elapsed)
                }
            &&& wide.skip(n + 1) == narrow.skip(n + 1)
        }),
{
    law_parents_leave_the_deltas(a.rows@, b.rows@, with, without);
    let n = shown(topn, with.len()) as int;
    let (top, bare) = (top_deltas(with, topn), top_deltas(without, topn));
    let wide = watch_lines(a, b, with, topn, names, true, parents, elapsed);
    let narrow = watch_lines(a, b, without, topn, names, false, unused, elapsed);
    assert(wide.skip(n + 1) =~= narrow.skip(n + 1));
    assert forall|i: int| 0 <= i < n implies {
        &&& without[i] == without_parent(#[trigger] with[i])
        &&& top[i] == with[i]
        &&& bare[i] == without[i]
    } by {}
}

/// What can be read at the end of the line of a process.
proof fn lemma_growth_words(head: Seq<char>, d: Delta, elapsed: Double)
    requires
        -0x1_0000_0000_0000_0000 < d.delta < 0x1_0000_0000_0000_0000,
        is_elapsed(elapsed),
    ensures
        ({
            let line = head + seq![' '] + growth_cells(d, elapsed);
            &&& word_from_end(line, 0) == human_signed_text(rate_of(d.delta, elapsed))
            &&& word_from_end(line, 1) == human_signed_text(growth(d.delta))
            &&& word_from_end(line, 2) == bytes_text(d.foot1)
            &&& word_from_end(line, 3) == bytes_text(d.foot0)
        }),
{
    let blank = seq![' '];
    reveal_strlit(" ");
    assert(" "@ =~= blank);
    let (a, b) = (bytes_text(d.foot0), bytes_text(d.foot1));
    let (c, e) = (
        human_signed_text(growth(d.delta)),
        human_signed_text(rate_of(d.delta, elapsed)),
    );
    law_bytes_are_told(d.foot0);
    law_bytes_are_told(d.foot1);
    law_growth_is_the_difference(d.delta);
    law_rate_is_accurate(d.delta, elapsed);
    lemma_human_is_a_word(growth(d.delta));
    lemma_human_is_a_word(rate_of(d.delta, elapsed));
    let one = head + blank + right(a, 12);
    let two = one + blank + right(b, 12);
    let three = two + blank + right(c, 12);
    let line = head + blank + growth_cells(d, elapsed);
    assert(line =~= three + blank + right(e, 12));
    lemma_next_cell(head, a, 12);
    lemma_next_cell(one, b, 12);
    lemma_next_cell(two, c, 12);
    lemma_last_cell(one, b, 12, 0);
    lemma_last_cell(two, c, 12, 0);
    lemma_last_cell(two, c, 12, 1);
    lemma_last_cell(three, e, 12, 0);
    lemma_last_cell(three, e, 12, 1);
    lemma_last_cell(three, e, 12, 2);
}

/// What is written of a change and of its rate.
proof fn lemma_change_told(delta: i128, elapsed: Double)
    requires
        -0x1_0000_0000_0000_0000 < delta < 0x1_0000_0000_0000_0000,
        is_elapsed(elapsed),
    ensures
        tells_change(human_signed_text(growth(delta)), delta as real, 1),
        -0x20_0000_0000_0000 <= delta <= 0x20_0000_0000_0000 ==> tells(
            human_signed_text(growth(delta)),
            delta as real,
        ),
        tells_change(
            human_signed_text(rate_of(delta, elapsed)),
            (delta as real) / elapsed.value(),
            2,
        ),
{
    law_growth_is_the_difference(delta);
    law_rate_is_accurate(delta, elapsed);
    let (g, r) = (growth(delta), rate_of(delta, elapsed));
    law_human_signed_tells_the_change(g);
    law_human_signed_tells_the_change(r);
    assert(tells(human_signed_text(g), g.value()));
    assert(tells(human_signed_text(r), r.value()));
    let (x, t) = (delta as real, elapsed.value());
    lemma_positive(elapsed);
    let q = x / t;
    assert((q < 0 as real <==> x < 0 as real) && (-x) / t == -q) by (nonlinear_arith)
        requires
            t > 0 as real,
            q == x / t,
    ;
    assert(size(q) == size(x) / t);
}

proof fn lemma_positive(elapsed: Double)
    requires
        is_elapsed(elapsed),
    ensures
        elapsed.value() > 0 as real,
        elapsed.value() == elapsed.magnitude(),
{
    let (m, t) = (elapsed->mantissa as real, two_to(elapsed->exponent as int));
    lemma_two_to_positive(elapsed->exponent as int);
    assert(m * t > 0 as real) by (nonlinear_arith)
        requires
            m > 0 as real,
            t > 0 as real,
    ;
}

/// What can be read in the line of a process.
proof fn lemma_delta_line(d: Delta, name: Seq<char>, parent: Option<Seq<char>>, elapsed: Double)
    requires
        -0x1_0000_0000_0000_0000 < d.delta < 0x1_0000_0000_0000_0000,
        is_elapsed(elapsed),
    ensures
        ({
            let line = delta_line(d, name, parent, elapsed);
            let at = behind(word(line, 0)) + if parent is Some {
                behind(word(line, 1))
            } else {
                0
            };
            &&& signed_worth(word(line, 0)) == d.pid
            &&& parent is Some ==> signed_worth(word(line, 1)) == d.ppid
            &&& shows(line, at, 24, name)
            &&& parent is Some ==> shows(line, at + 25, 20, parent->0)
            &&& word_from_end(line, 0) == human_signed_text(rate_of(d.delta, elapsed))
            &&& word_from_end(line, 1) == human_signed_text(growth(d.delta))
            &&& word_from_end(line, 2) == bytes_text(d.foot1)
            &&& word_from_end(line, 3) == bytes_text(d.foot0)
        }),
{
    let blank = seq![' '];
    assert(" "@ == blank) by {
        reveal_strlit(" ");
        assert(" "@ =~= blank);
    }
    let tail = growth_cells(d, elapsed);
    match parent {
        Some(p) => {
            lemma_label_with_parent(d.pid, d.ppid, name, p, tail);
            lemma_growth_words(
                pid_cell(d.pid) + blank + pid_cell(d.ppid) + blank + name_cell(name) + blank
                    + parent_cell(p),
                d,
                elapsed,
            );
        },
        None => {
            lemma_label(d.pid, name, tail);
            lemma_growth_words(pid_cell(d.pid) + blank + name_cell(name), d, elapsed);
        },
    }
}

/// The table shows the first changes, as many as were asked for or all. In the line of each stand
/// the number and the name of the process, both footprints, their difference behind its sign, and
/// that difference divided by the time, each as exactly as it can be written.
pub proof fn law_lines_show_the_growth(
    a: SampleSet,
    b: SampleSet,
    deltas: Seq<Delta>,
    topn: usize,
    names: Seq<String>,
    show_parent: bool,
    parents: Map<i32, String>,
    elapsed: Double,
    i: int,
)
    requires
        0 <= i < listed(topn, deltas.len()),
        -0x1_0000_0000_0000_0000 < deltas[i].delta < 0x1_0000_0000_0000_0000,
        is_elapsed(elapsed),
    ensures
        ({
            let lines = watch_lines(a, b, deltas, topn, names, show_parent, parents, elapsed);
            let line = lines[i + 1];
            let d = deltas[i];
            let at = behind(word(line, 0)) + if show_parent {
                behind(word(line, 1))
            } else {
                0
            };
            &&& lines.len() == listed(topn, deltas.len()) + 4
            &&& signed_worth(word(line, 0)) == d.pid
            &&& show_parent ==> signed_worth(word(line, 1)) == d.ppid
            &&& shows(line, at, 24, names[i]@)
            &&& show_parent ==> shows(line, at + 25, 20, parents[d.ppid]@)
            &&& tells_bytes(word_from_end(line, 3), d.foot0 as int)
            &&& tells_bytes(word_from_end(line, 2), d.foot1 as int)
            &&& tells_change(word_from_end(line, 1), d.delta as real, 1)
            &&& -0x20_0000_0000_0000 <= d.delta <= 0x20_0000_0000_0000 ==> tells(
                word_from_end(line, 1),
                d.delta as real,
            )
            &&& tells_change(word_from_end(line, 0), (d.delta as real) / elapsed.value(), 2)
        }),
{
    let d = deltas[i];
    let parent = if show_parent {
        Some(parents[d.ppid]@)
    } else {
        None
    };
    let lines = watch_lines(a, b, deltas, topn, names, show_parent, parents, elapsed);
    assert(lines[i + 1] == delta_line(d, names[i]@, parent, elapsed)) by {
        assert(shown(topn, deltas.len()) == listed(topn, deltas.len()));
        assert(top_deltas(deltas, topn)[i] == d);
    }
    law_bytes_are_told(d.foot0);
    law_bytes_are_told(d.foot1);
    lemma_change_told(d.delta, elapsed);
    lemma_delta_line(d, names[i]@, parent, elapsed);
}

/// Below the table stand an empty line and the time between the samples with one decimal, right
/// to half of it.
pub proof fn law_interval_is_told(
    a: SampleSet,
    b: SampleSet,
    deltas: Seq<Delta>,
    topn: usize,
    names: Seq<String>,
    show_parent: bool,
    parents: Map<i32, String>,
    elapsed: Double,
)
    requires
        is_elapsed(elapsed),
    ensures
        ({
            let n = listed(topn, deltas.len());
            let lines = watch_lines(a, b, deltas, topn, names, show_parent, parents, elapsed);
            let line = lines[n + 2];
            let time = word(line, 1);
            &&& lines.len() == n + 4
            &&& lines[n + 1].len() == 0
            &&& word(line, 0) == "interval"@
            &&& time.len() > 0 && time.last() == 's'
            &&& decimals(time.drop_last()) == 1
            &&& (20 as real) * size(decimal_value(time.drop_last()) - elapsed.value()) <= 1 as real
            &&& line.skip((8 + time.len()) as int)
                == "s — one interval = allocation churn; trust SUSTAINED growth as leak signal."@
        }),
{
    let n = listed(topn, deltas.len());
    assert(shown(topn, deltas.len()) == n);
    let lines = watch_lines(a, b, deltas, topn, names, show_parent, parents, elapsed);
    let line = lines[n + 2];
    assert(line == interval_line(elapsed));
    lemma_positive(elapsed);
    let x = elapsed.magnitude();
    lemma_fixed(x, 1);
    vstd::arithmetic::power::lemma_pow1(10);
    let digits = fixed(x, 1);
    let end = "s — one interval = allocation churn; trust SUSTAINED growth as leak signal."@;
    reveal_strlit("interval ");
    reveal_strlit("interval");
    reveal_strlit("s — one interval = allocation churn; trust SUSTAINED growth as leak signal.");
    let one = seq![' '];
    let time = digits + seq!['s'];
    let rest = end.skip(2);
    assert(end =~= seq!['s'] + one + rest);
    let tail = time + one + rest;
    assert(line =~= "interval"@ + one + tail);
    assert(is_word(time)) by {
        let p = until(digits, '.');
        assert forall|i: int| 0 <= i < time.len() implies #[trigger] time[i] != ' ' by {
            if i < p {
                assert(digits[i] == digits.take(p)[i]);
            } else if p < i < digits.len() {
                assert(digits[i] == digits.skip(p + 1)[i - p - 1]);
            } else if i == p {
                crate::reading::lemma_until_found(digits, '.');
            }
        }
    }
    assert(tail[0] == time[0]);
    lemma_forth("interval"@, one, tail, 0);
    lemma_forth(time, one, rest, 0);
    assert(time.drop_last() =~= digits);
    assert(word(line, 1) == time);
    let (v, ten) = (decimal_value(digits), vstd::arithmetic::power::pow(10, 1) as real);
    assert((2 as real) * ten * (v - x) == (20 as real) * (v - x)) by (nonlinear_arith)
        requires
            ten == 10 as real,
    ;
    assert(-(1 as real) <= (20 as real) * (v - x) <= 1 as real);
    assert(lines[n + 1].len() == 0);
    assert(line.skip((8 + time.len()) as int) =~= end);
    assert(decimals(digits) == 1);
    assert((20 as real) * size(v - x) <= 1 as real);
}

/// The last line tells how many processes were read, looked at and denied, at both times.
pub proof fn law_samples_are_counted(
    a: SampleSet,
    b: SampleSet,
    deltas: Seq<Delta>,
    topn: usize,
    names: Seq<String>,
    show_parent: bool,
    parents: Map<i32, String>,
    elapsed: Double,
)
    ensures
        ({
            let n = listed(topn, deltas.len());
            let lines = watch_lines(a, b, deltas, topn, names, show_parent, parents, elapsed);
            let line = lines[n + 3];
            let (x, y) = (word(line, 3), word(line, 8));
            &&& lines.len() == n + 4
            &&& word(line, 2) == "first"@
            &&& worth(x.take(until(x, '/'))) == a.rows@.len()
            &&& worth(x.skip(until(x, '/') + 1)) == a.rows@.len() + a.denied
            &&& worth(word(line, 5).skip(1)) == a.denied
            &&& word(line, 7) == "second"@
            &&& worth(y.take(until(y, '/'))) == b.rows@.len()
            &&& worth(y.skip(until(y, '/') + 1)) == b.rows@.len() + b.denied
            &&& worth(word(line, 10).skip(1)) == b.denied
        }),
{
    let n = listed(topn, deltas.len());
    assert(shown(topn, deltas.len()) == n);
    let lines = watch_lines(a, b, deltas, topn, names, show_parent, parents, elapsed);
    lemma_sampled_line(a.rows@.len(), a.denied as nat, b.rows@.len(), b.denied as nat);
    assert(lines[n + 3] == sampled_line(
        a.rows@.len(),
        a.denied as nat,
        b.rows@.len(),
        b.denied as nat,
    ));
}

/// A pair of counts with a slash between them.
proof fn lemma_counts(x: nat, y: nat)
    ensures
        ({
            let s = decimal(x) + seq!['/'] + decimal(y);
            &&& is_word(s)
            &&& worth(s.take(until(s, '/'))) == x
            &&& worth(s.skip(until(s, '/') + 1)) == y
        }),
{
    let (a, b) = (decimal(x), decimal(y));
    let s = a + seq!['/'] + b;
    law_decimal_is_read_back(x);
    law_decimal_is_read_back(y);
    crate::reading::lemma_until(s, '/', a.len() as int);
    assert(s.take(a.len() as int) =~= a);
    assert(s.skip((a.len() + 1) as int) =~= b);
}

/// What can be read behind a count: that processes were readable, and how many were denied.
proof fn lemma_readable(x: nat, y: nat, denied: nat, rest: Seq<char>, k: nat)
    requires
        rest.len() > 0 && rest[0] != ' ',
    ensures
        ({
            let counts = decimal(x) + seq!['/'] + decimal(y);
            let s = counts + " readable ("@ + decimal(denied) + seq![' '] + rest;
            &&& word(s, 0) == counts
            &&& worth(word(s, 2).skip(1)) == denied
            &&& word(s, k + 3) == word(rest, k)
            &&& s[0] != ' '
        }),
{
    let counts = decimal(x) + seq!['/'] + decimal(y);
    let c = decimal(denied);
    let one = seq![' '];
    let s = counts + " readable ("@ + c + one + rest;
    lemma_counts(x, y);
    law_decimal_is_read_back(denied);
    reveal_strlit(" readable (");
    let w = seq!['r', 'e', 'a', 'd', 'a', 'b', 'l', 'e'];
    let d = seq!['('] + c;
    let two = d + one + rest;
    let one_on = w + one + two;
    assert(s =~= counts + one + one_on);
    assert(is_word(d));
    lemma_forth(counts, one, one_on, 1);
    lemma_forth(counts, one, one_on, k + 2);
    lemma_forth(w, one, two, 0);
    lemma_forth(w, one, two, k + 1);
    lemma_forth(d, one, rest, k);
    assert(d.skip(1) =~= c);
    assert(s[0] == counts[0]);
}

/// The line without the words in front of the counts.
proof fn lemma_sampled_shape(read0: nat, denied0: nat, read1: nat, denied1: nat)
    ensures
        ({
            let one = seq![' '];
            let denied = seq!['d', 'e', 'n', 'i', 'e', 'd', ')'];
            let late = decimal(read1) + seq!['/'] + decimal(read1 + denied1) + " readable ("@
                + decimal(denied1) + one + denied;
            let middle = denied + seq![','] + one + ("second"@ + one + late);
            let early = decimal(read0) + seq!['/'] + decimal(read0 + denied0) + " readable ("@
                + decimal(denied0) + one + middle;
            sampled_line(read0, denied0, read1, denied1) == seq![
                's',
                'a',
                'm',
                'p',
                'l',
                'e',
                'd',
            ] + one + (seq!['p', 'r', 'o', 'c', 's', ':'] + one + ("first"@ + one + early))
        }),
{
    let one = seq![' '];
    let denied = seq!['d', 'e', 'n', 'i', 'e', 'd', ')'];
    let (sampled, procs) = (
        seq!['s', 'a', 'm', 'p', 'l', 'e', 'd'],
        seq!['p', 'r', 'o', 'c', 's', ':'],
    );
    let comma = denied + seq![','];
    assert("/"@ == seq!['/']) by {
        reveal_strlit("/");
        assert("/"@ =~= seq!['/']);
    }
    assert("sampled procs: first "@ == sampled + one + (procs + one + ("first"@ + one))) by {
        reveal_strlit("sampled procs: first ");
        reveal_strlit("first");
        assert("sampled procs: first "@ =~= sampled + one + (procs + one + ("first"@ + one)));
    }
    assert(" denied), second "@ == one + comma + one + "second"@ + one) by {
        reveal_strlit(" denied), second ");
        reveal_strlit("second");
        assert(" denied), second "@ =~= one + comma + one + "second"@ + one);
    }
    assert(" denied)"@ == one + denied) by {
        reveal_strlit(" denied)");
        assert(" denied)"@ =~= one + denied);
    }
    let late = decimal(read1) + seq!['/'] + decimal(read1 + denied1) + " readable ("@ + decimal(
        denied1,
    ) + one + denied;
    let middle = comma + one + ("second"@ + one + late);
    let early = decimal(read0) + seq!['/'] + decimal(read0 + denied0) + " readable ("@ + decimal(
        denied0,
    ) + one + middle;
    let (a, b, c) = (decimal(read0), decimal(read0 + denied0), decimal(denied0));
    let (d, e, f) = (decimal(read1), decimal(read1 + denied1), decimal(denied1));
    let (slash, open) = (seq!['/'], " readable ("@);
    let start = "sampled procs: first "@;
    let between = " denied), second "@;
    let (x, y) = (a + slash + b + open + c, d + slash + e + open + f);
    lemma_grouped(start, a, slash, b, open, c);
    lemma_grouped(start + x + between, d, slash, e, open, f);
    assert(sampled_line(read0, denied0, read1, denied1) == start + x + between + y + (one
        + denied));
    assert(late =~= y + (one + denied));
    assert(early =~= x + one + middle);
    lemma_regrouped(sampled, procs, "first"@, x, comma, "second"@, y, denied);
}

proof fn lemma_grouped(
    p: Seq<char>,
    a: Seq<char>,
    b: Seq<char>,
    c: Seq<char>,
    d: Seq<char>,
    e: Seq<char>,
)
    ensures
        p + a + b + c + d + e == p + (a + b + c + d + e),
{
    assert(p + a + b + c + d + e =~= p + (a + b + c + d + e));
}

proof fn lemma_regrouped(
    a: Seq<char>,
    b: Seq<char>,
    c: Seq<char>,
    x: Seq<char>,
    d: Seq<char>,
    e: Seq<char>,
    y: Seq<char>,
    f: Seq<char>,
)
    ensures
        ({
            let one = seq![' '];
            (a + one + (b + one + (c + one))) + x + (one + d + one + e + one) + y + (one + f) == a
                + one + (b + one + (c + one + (x + one + (d + one + (e + one + (y + one + f))))))
        }),
{
    let one = seq![' '];
    let tail = y + one + f;
    let mid = one + d + one + e + one;
    let head = a + one + (b + one + (c + one));
    assert(head + x + mid + y + (one + f) =~= head + (x + mid + tail));
    assert(x + mid + tail =~= x + one + (d + one + (e + one + tail)));
    let rest = x + one + (d + one + (e + one + tail));
    assert(head + rest =~= a + one + (b + one + (c + one + rest)));
}

proof fn lemma_sampled_line(read0: nat, denied0: nat, read1: nat, denied1: nat)
    ensures
        ({
            let line = sampled_line(read0, denied0, read1, denied1);
            let (x, y) = (word(line, 3), word(line, 8));
            &&& word(line, 2) == "first"@
            &&& worth(x.take(until(x, '/'))) == read0
            &&& worth(x.skip(until(x, '/') + 1)) == read0 + denied0
            &&& worth(word(line, 5).skip(1)) == denied0
            &&& word(line, 7) == "second"@
            &&& worth(y.take(until(y, '/'))) == read1
            &&& worth(y.skip(until(y, '/') + 1)) == read1 + denied1
            &&& worth(word(line, 10).skip(1)) == denied1
        }),
{
    let line = sampled_line(read0, denied0, read1, denied1);
    let one = seq![' '];
    let denied = seq!['d', 'e', 'n', 'i', 'e', 'd', ')'];
    let comma = denied + seq![','];
    let (sampled, procs) = (
        seq!['s', 'a', 'm', 'p', 'l', 'e', 'd'],
        seq!['p', 'r', 'o', 'c', 's', ':'],
    );
    let late = decimal(read1) + seq!['/'] + decimal(read1 + denied1) + " readable ("@ + decimal(
        denied1,
    ) + one + denied;
    let second = "second"@ + one + late;
    let middle = comma + one + second;
    let early = decimal(read0) + seq!['/'] + decimal(read0 + denied0) + " readable ("@ + decimal(
        denied0,
    ) + one + middle;
    let first = "first"@ + one + early;
    lemma_sampled_shape(read0, denied0, read1, denied1);
    assert(is_word("first"@) && is_word("second"@)) by {
        reveal_strlit("first");
        reveal_strlit("second");
    }
    lemma_counts(read0, read0 + denied0);
    lemma_counts(read1, read1 + denied1);
    lemma_readable(read1, read1 + denied1, denied1, denied, 0);
    assert(second[0] == "second"@[0]);
    assert(first[0] == "first"@[0]);
    assert(word(middle, 1) == "second"@) by {
        lemma_forth(comma, one, second, 0);
        lemma_forth("second"@, one, late, 0);
    }
    lemma_behind_two(comma, "second"@, late, 0);
    lemma_behind_two(comma, "second"@, late, 2);
    lemma_readable(read0, read0 + denied0, denied0, middle, 1);
    lemma_readable(read0, read0 + denied0, denied0, middle, 2);
    lemma_readable(read0, read0 + denied0, denied0, middle, 4);
    lemma_behind_two(sampled, procs, first, 0);
    assert(word(line, 2) == "first"@) by {
        lemma_forth("first"@, one, early, 0);
    }
    assert(word(line, 3) == word(early, 0)) by {
        lemma_behind_two(sampled, procs, first, 1);
        lemma_forth("first"@, one, early, 0);
    }
    assert(word(line, 5) == word(early, 2)) by {
        lemma_behind_two(sampled, procs, first, 3);
        lemma_forth("first"@, one, early, 2);
    }
    assert(word(line, 7) == word(early, 4)) by {
        lemma_behind_two(sampled, procs, first, 5);
        lemma_forth("first"@, one, early, 4);
    }
    assert(word(line, 8) == word(early, 5)) by {
        lemma_behind_two(sampled, procs, first, 6);
        lemma_forth("first"@, one, early, 5);
    }
    assert(word(line, 10) == word(early, 7)) by {
        lemma_behind_two(sampled, procs, first, 8);
        lemma_forth("first"@, one, early, 7);
    }
}

proof fn lemma_behind_two(a: Seq<char>, b: Seq<char>, rest: Seq<char>, k: nat)
    requires
        is_word(a),
        is_word(b),
        rest.len() > 0 && rest[0] != ' ',
    ensures
        word(a + seq![' '] + (b + seq![' '] + rest), k + 2) == word(rest, k),
{
    let one = seq![' '];
    lemma_forth(a, one, b + one + rest, k + 1);
    lemma_forth(b, one, rest, k);
}

/// The heading names the columns, each over its cells.
pub proof fn law_heading_names_the_columns(
    a: SampleSet,
    b: SampleSet,
    deltas: Seq<Delta>,
    topn: usize,
    names: Seq<String>,
    show_parent: bool,
    parents: Map<i32, String>,
    elapsed: Double,
)
    ensures
        watch_lines(a, b, deltas, topn, names, show_parent, parents, elapsed)[0] == (
        if show_parent {
            "PID     PPID    NAME                     PARENT                      FOOT0        FOOT1        DELTA       RATE/s"@
        } else {
            "PID     NAME                            FOOT0        FOOT1        DELTA       RATE/s"@
        }),
{
    let lines = watch_lines(a, b, deltas, topn, names, show_parent, parents, elapsed);
    assert(lines[0] == watch_header(show_parent));
    lemma_headings();
    reveal_strlit("FOOT0");
    reveal_strlit("FOOT1");
    reveal_strlit("DELTA");
    reveal_strlit("RATE/s");
    let tail = " "@ + right("FOOT0"@, 12) + " "@ + right("FOOT1"@, 12) + " "@ + right("DELTA"@, 12)
        + " "@ + right("RATE/s"@, 12);
    if show_parent {
        let text = "PID     PPID    NAME                     PARENT                      FOOT0        FOOT1        DELTA       RATE/s"@;
        reveal_strlit("PID     PPID    NAME                     PARENT                      FOOT0        FOOT1        DELTA       RATE/s");
        reveal_strlit("PID     PPID    NAME                     PARENT              ");
        assert(watch_header(true) =~= wide_heading() + tail);
        assert(wide_heading() + tail =~= text);
    } else {
        let text = "PID     NAME                            FOOT0        FOOT1        DELTA       RATE/s"@;
        reveal_strlit("PID     NAME                            FOOT0        FOOT1        DELTA       RATE/s");
        reveal_strlit("PID     NAME                    ");
        assert(watch_header(false) =~= narrow_heading() + tail);
        assert(narrow_heading() + tail =~= text);
    }
}

} // verus!
