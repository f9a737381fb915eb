//! The list of processes with their memory and their estimated part of the swap.

use crate::accuracy::{lemma_nearest_within, tells_bytes, tells_within, within};
use crate::double::{nearest, Double};
use crate::human::{
    human, human_text, law_human_tells_the_amount, lemma_human_is_a_word,
};
use crate::kernel::{parent_of, ppid_of, ProcBsdInfo};
use crate::order::{
    distinct, firsts, in_order, is_ordering_of, is_ranked, law_firsts_are_distinct,
    law_ordering_is_unique, law_ordering_keeps_the_items, lemma_ordering_mapped, precedes, shown, shown_count, Ranked,
};
use crate::reading::{
    is_word, lemma_back, lemma_forth, shows, signed_worth, tells, until, word,
    word_from_end, worth,
};
use crate::share::{
    bytes_share, checked_sum, estimate_sum, estimate_total, law_estimates_conserve_swap,
    law_estimates_of_some_processes, law_share_is_accurate, law_share_is_monotone,
    law_small_integers_are_exact, law_sum_is_one_by_one, lemma_rounded_integer,
    lemma_share_moderate, lemma_sum_prefix, lemma_summand, share, sum_of,
    swap_estimates_available,
};
use crate::text::{
    decimal, law_decimal_is_read_back, law_signed_decimal_is_read_back, left, lemma_first_cell,
    lemma_last_cell, lemma_next_cell, lemma_shows, lemma_signed_decimal_is_a_word, push_decimal,
    push_left, push_right, right, signed_decimal, signed_text, texts, truncate, truncated,
};
use std::collections::HashMap;
use vstd::prelude::*;

verus! {

/// What could be read of a process.
#[derive(Debug)]
pub struct Reading {
    pub name: String,
    /// The compressed bytes and the physical footprint.
    pub memory: (u64, u64),
    pub info: Option<ProcBsdInfo>,
}

/// A process that was looked at, with nothing read if access was denied.
#[derive(Debug)]
pub struct Probe {
    pub pid: i32,
    pub reading: Option<Reading>,
}

/// A process in the list.
#[derive(Debug, PartialEq, Eq)]
pub struct Row {
    pub pid: i32,
    pub name: String,
    pub compressed: u64,
    pub footprint: u64,
    pub ppid: i32,
}

impl Ranked for Row {
    /// More compressed memory first, then the lower process number.
    open spec fn rank(&self) -> (int, int) {
        (-(self.compressed as int), self.pid as int)
    }

    fn goes_before(&self, other: &Self) -> bool {
        self.compressed > other.compressed || (self.compressed == other.compressed && self.pid
            < other.pid)
    }
}

/// The row for a process that could be read.
pub open spec fn row_of(pid: i32, reading: Reading, show_parent: bool) -> Row {
    Row {
        pid,
        name: reading.name,
        compressed: reading.memory.0,
        footprint: reading.memory.1,
        ppid: (if show_parent {
            parent_of(reading.info)
        } else {
            0
        }) as i32,
    }
}

/// The rows for the processes that could be read, in the order in which they were looked at.
pub open spec fn rows_of(probes: Seq<Probe>, show_parent: bool) -> Seq<Row>
    decreases probes.len(),
{
    if probes.len() == 0 {
        Seq::empty()
    } else {
        let rows = rows_of(probes.drop_last(), show_parent);
        match probes.last().reading {
            Some(reading) => rows.push(row_of(probes.last().pid, reading, show_parent)),
            None => rows,
        }
    }
}

/// How many processes could not be read.
pub open spec fn denied_of(probes: Seq<Probe>) -> nat
    decreases probes.len(),
{
    if probes.len() == 0 {
        0
    } else {
        denied_of(probes.drop_last()) + if probes.last().reading is None {
            1nat
        } else {
            0nat
        }
    }
}

/// The processes as they are at one time.
#[derive(Debug, PartialEq, Eq)]
pub struct Snapshot {
    /// Those that could be read, in order.
    pub rows: Vec<Row>,
    /// How many could not.
    pub denied: usize,
}

/// Every process looked at is either listed or counted as denied.
pub proof fn law_every_process_is_accounted_for(probes: Seq<Probe>, show_parent: bool)
    ensures
        rows_of(probes, show_parent).len() + denied_of(probes) == probes.len(),
    decreases probes.len(),
{
    if probes.len() > 0 {
        law_every_process_is_accounted_for(probes.drop_last(), show_parent);
    }
}

impl Snapshot {
    /// Lists the processes that could be read and counts the others.
    pub fn take(probes: &Vec<Probe>, show_parent: bool) -> (r: Snapshot)
        ensures
            is_ordering_of(rows_of(probes@, show_parent), r.rows@),
            r.denied == denied_of(probes@),
            forall|i: int, j: int|
                0 <= i < j < r.rows@.len() ==> {
                    ||| (#[trigger] r.rows@[i]).compressed > (#[trigger] r.rows@[j]).compressed
                    ||| r.rows@[i].compressed == r.rows@[j].compressed && r.rows@[i].pid
                        <= r.rows@[j].pid
                },
            forall|i: int|
                0 <= i < r.rows@.len() ==> was_read(probes@, #[trigger] r.rows@[i], show_parent),
            forall|k: int|
                0 <= k < probes@.len() && (#[trigger] probes@[k]).reading is Some ==> is_listed(
                    r.rows@,
                    probes@[k],
                    show_parent,
                ),
            r.denied == probes@.filter(|p: Probe| p.reading is None).len(),
            r.rows@.len() + r.denied == probes@.len(),
    {
        let mut rows: Vec<Row> = Vec::new();
        let mut denied: usize = 0;
        let mut i: usize = 0;
        assert(probes@.take(0) =~= Seq::<Probe>::empty());
        while i < probes.len()
            invariant
                i <= probes@.len(),
                rows@ == rows_of(probes@.take(i as int), show_parent),
                denied == denied_of(probes@.take(i as int)),
                denied <= i,
            decreases probes@.len() - i,
        {
            assert(probes@.take(i + 1).drop_last() =~= probes@.take(i as int));
            let probe = &probes[i];
            match &probe.reading {
                Some(reading) => {
                    rows.push(
                        Row {
                            pid: probe.pid,
                            name: reading.name.clone(),
                            compressed: reading.memory.0,
                            footprint: reading.memory.1,
                            ppid: if show_parent {
                                ppid_of(&reading.info)
                            } else {
                                0
                            },
                        },
                    );
                },
                None => {
                    denied = denied + 1;
                },
            }
            i = i + 1;
        }
        assert(probes@.take(probes@.len() as int) =~= probes@);
        let rows = in_order(rows);
        proof {
            law_rows_are_ordered_by_memory(rows@);
            law_rows_are_the_readable_processes(probes@, show_parent, rows@);
        }
        Snapshot { rows, denied }
    }
}

/// A row tells of a process that could be read, and tells what was read of it.
pub open spec fn lists(row: Row, probe: Probe, show_parent: bool) -> bool {
    &&& probe.reading is Some
    &&& row.pid == probe.pid
    &&& row.name@ == probe.reading->0.name@
    &&& row.compressed == probe.reading->0.memory.0
    &&& row.footprint == probe.reading->0.memory.1
    &&& !show_parent || probe.reading->0.info is None ==> row.ppid == 0
    &&& show_parent && probe.reading->0.info is Some ==> (row.ppid
        - probe.reading->0.info->0.pbi_ppid) % 0x1_0000_0000 == 0
}

/// More compressed memory comes first, and of the same amount the lower process number.
pub proof fn law_rows_are_ordered_by_memory(rows: Seq<Row>)
    requires
        is_ranked(rows),
    ensures
        forall|i: int, j: int|
            0 <= i < j < rows.len() ==> {
                ||| (#[trigger] rows[i]).compressed > (#[trigger] rows[j]).compressed
                ||| rows[i].compressed == rows[j].compressed && rows[i].pid <= rows[j].pid
            },
{
    assert forall|i: int, j: int| 0 <= i < j < rows.len() implies {
        ||| (#[trigger] rows[i]).compressed > (#[trigger] rows[j]).compressed
        ||| rows[i].compressed == rows[j].compressed && rows[i].pid <= rows[j].pid
    } by {
        assert(!precedes(rows[j].rank(), rows[i].rank()));
    }
}

/// The row tells of one of the processes.
pub open spec fn was_read(probes: Seq<Probe>, row: Row, show_parent: bool) -> bool {
    exists|k: int| 0 <= k < probes.len() && lists(row, #[trigger] probes[k], show_parent)
}

/// One of the rows tells of the process.
pub open spec fn is_listed(rows: Seq<Row>, probe: Probe, show_parent: bool) -> bool {
    exists|i: int| 0 <= i < rows.len() && lists(#[trigger] rows[i], probe, show_parent)
}

proof fn lemma_rows_list(probes: Seq<Probe>, show_parent: bool)
    ensures
        forall|i: int|
            0 <= i < rows_of(probes, show_parent).len() ==> was_read(
                probes,
                #[trigger] rows_of(probes, show_parent)[i],
                show_parent,
            ),
        forall|k: int|
            0 <= k < probes.len() && (#[trigger] probes[k]).reading is Some ==> is_listed(
                rows_of(probes, show_parent),
                probes[k],
                show_parent,
            ),
        denied_of(probes) == probes.filter(|p: Probe| p.reading is None).len(),
    decreases probes.len(),
{
    reveal(Seq::filter);
    let rows = rows_of(probes, show_parent);
    if probes.len() > 0 {
        let front = probes.drop_last();
        let before = rows_of(front, show_parent);
        lemma_rows_list(front, show_parent);
        assert forall|i: int| 0 <= i < rows.len() implies was_read(
            probes,
            #[trigger] rows[i],
            show_parent,
        ) by {
            if i < before.len() {
                assert(rows[i] == before[i]);
                assert(was_read(front, before[i], show_parent));
                let k = choose|k: int|
                    0 <= k < front.len() && lists(before[i], #[trigger] front[k], show_parent);
                assert(probes[k] == front[k]);
            } else {
                assert(lists(rows[i], probes[probes.len() - 1], show_parent));
            }
        }
        assert forall|k: int|
            0 <= k < probes.len() && (#[trigger] probes[k]).reading is Some implies is_listed(
            rows,
            probes[k],
            show_parent,
        ) by {
            if k < front.len() {
                assert(probes[k] == front[k]);
                assert(is_listed(before, front[k], show_parent));
                let i = choose|i: int|
                    0 <= i < before.len() && lists(#[trigger] before[i], front[k], show_parent);
                assert(rows[i] == before[i]);
            } else {
                assert(lists(rows[before.len() as int], probes[k], show_parent));
            }
        }
    }
}

/// The rows are the processes that could be read, each with what was read of it, and the others
/// are counted.
pub proof fn law_rows_are_the_readable_processes(
    probes: Seq<Probe>,
    show_parent: bool,
    rows: Seq<Row>,
)
    requires
        is_ordering_of(rows_of(probes, show_parent), rows),
    ensures
        forall|i: int|
            0 <= i < rows.len() ==> was_read(probes, #[trigger] rows[i], show_parent),
        forall|k: int|
            0 <= k < probes.len() && (#[trigger] probes[k]).reading is Some ==> is_listed(
                rows,
                probes[k],
                show_parent,
            ),
        denied_of(probes) == probes.filter(|p: Probe| p.reading is None).len(),
        rows.len() + denied_of(probes) == probes.len(),
{
    let before = rows_of(probes, show_parent);
    lemma_rows_list(probes, show_parent);
    law_every_process_is_accounted_for(probes, show_parent);
    law_ordering_keeps_the_items(before, rows);
    before.to_multiset_ensures();
    rows.to_multiset_ensures();
    assert forall|x: Row| #[trigger] rows.contains(x) == before.contains(x) by {
        assert(rows.to_multiset().count(x) == before.to_multiset().count(x));
    }
    assert forall|i: int| 0 <= i < rows.len() implies was_read(
        probes,
        #[trigger] rows[i],
        show_parent,
    ) by {
        assert(rows.contains(rows[i]));
        assert(before.contains(rows[i]));
        let j = choose|j: int| 0 <= j < before.len() && before[j] == rows[i];
        assert(was_read(probes, before[j], show_parent));
    }
    assert forall|k: int|
        0 <= k < probes.len() && (#[trigger] probes[k]).reading is Some implies is_listed(
        rows,
        probes[k],
        show_parent,
    ) by {
        assert(is_listed(before, probes[k], show_parent));
        let j = choose|j: int|
            0 <= j < before.len() && lists(#[trigger] before[j], probes[k], show_parent);
        assert(before.contains(before[j]));
        assert(rows.contains(before[j]));
        let i = choose|i: int| 0 <= i < rows.len() && rows[i] == before[j];
        assert(lists(rows[i], probes[k], show_parent));
    }
}

/// The compressed bytes of each row.
pub open spec fn compressed_of(rows: Seq<Row>) -> Seq<u64> {
    rows.map_values(|r: Row| r.compressed)
}

/// The footprint of each row.
pub open spec fn footprints_of(rows: Seq<Row>) -> Seq<u64> {
    rows.map_values(|r: Row| r.footprint)
}

/// The parent of each row.
pub open spec fn parents_of(rows: Seq<Row>) -> Seq<i32> {
    rows.map_values(|r: Row| r.ppid)
}

/// Every parent shown is among those to name.
pub proof fn law_shown_parents_are_named(rows: Seq<Row>, i: int)
    requires
        0 <= i < rows.len(),
    ensures
        firsts(parents_of(rows)).contains(rows[i].ppid),
{
    law_firsts_are_distinct(parents_of(rows));
    assert(parents_of(rows)[i] == rows[i].ppid);
}

/// The processes to name as parents are those of the rows shown, each once.
pub proof fn law_parents_to_name(rows: Seq<Row>, topn: usize)
    ensures
        ({
            let named = firsts(parents_of(rows.take(shown(topn, rows.len()) as int)));
            &&& named.no_duplicates()
            &&& forall|i: int|
                0 <= i < listed(topn, rows.len()) ==> named.contains((#[trigger] rows[i]).ppid)
            &&& forall|pid: i32| #[trigger]
                named.contains(pid) ==> exists|i: int|
                    0 <= i < listed(topn, rows.len()) && (#[trigger] rows[i]).ppid == pid
        }),
{
    let n = listed(topn, rows.len());
    assert(shown(topn, rows.len()) == n);
    let pids = parents_of(rows.take(n));
    let named = firsts(pids);
    law_firsts_are_distinct(pids);
    assert forall|i: int| 0 <= i < n implies named.contains((#[trigger] rows[i]).ppid) by {
        assert(pids[i] == rows[i].ppid);
        assert(pids.contains(pids[i]));
    }
    assert forall|pid: i32| #[trigger] named.contains(pid) implies exists|i: int|
        0 <= i < n && (#[trigger] rows[i]).ppid == pid by {
        assert(pids.contains(pid));
        let i = choose|i: int| 0 <= i < pids.len() && pids[i] == pid;
        assert(rows[i].ppid == pid);
    }
}

/// An amount of bytes, rounded to a double and written for people to read.
pub open spec fn bytes_text(n: u64) -> Seq<char> {
    human_text(nearest(n as real))
}

/// An estimate, if there can be one.
pub open spec fn estimate_text(available: bool, estimate: Double) -> Seq<char> {
    if available {
        human_text(estimate)
    } else {
        "N/A"@
    }
}

/// Estimates can be made.
pub open spec fn estimable(swap_total: Option<u64>, total_compressed: nat) -> bool {
    swap_total is Some && total_compressed > 0
}

/// The heading of the list.
pub open spec fn snapshot_header(show_parent: bool) -> Seq<char> {
    if show_parent {
        left("PID"@, 7) + " "@ + left("PPID"@, 7) + " "@ + left("NAME"@, 24) + " "@ + left(
            "PARENT"@,
            20,
        ) + " "@ + right("CMPRS"@, 12) + " "@ + right("FOOTPRINT"@, 12) + " "@ + right(
            "SWAP~"@,
            12,
        )
    } else {
        left("PID"@, 7) + " "@ + left("NAME"@, 24) + " "@ + right("CMPRS"@, 12) + " "@ + right(
            "FOOTPRINT"@,
            12,
        ) + " "@ + right("SWAP~"@, 12)
    }
}

/// The cell for a process number.
pub open spec fn pid_cell(pid: i32) -> Seq<char> {
    left(signed_decimal(pid as int), 7)
}

/// The cell for the name of a process.
pub open spec fn name_cell(name: Seq<char>) -> Seq<char> {
    left(truncated(name, 24), 24)
}

/// The cell for the name of a parent.
pub open spec fn parent_cell(name: Seq<char>) -> Seq<char> {
    left(truncated(name, 20), 20)
}

/// The cells for the memory of a process and its estimate.
pub open spec fn memory_cells(row: Row, estimate: Seq<char>) -> Seq<char> {
    right(bytes_text(row.compressed), 12) + " "@ + right(bytes_text(row.footprint), 12) + " "@
        + right(estimate, 12)
}

/// The line for a process, with its parent's name if parents are shown.
pub open spec fn row_line(row: Row, estimate: Seq<char>, parent: Option<Seq<char>>) -> Seq<char> {
    match parent {
        Some(p) => pid_cell(row.pid) + " "@ + pid_cell(row.ppid) + " "@ + name_cell(row.name@)
            + " "@ + parent_cell(p) + " "@ + memory_cells(row, estimate),
        None => pid_cell(row.pid) + " "@ + name_cell(row.name@) + " "@ + memory_cells(
            row,
            estimate,
        ),
    }
}

/// How many processes are shown, found and denied.
pub open spec fn shown_line(shown: nat, found: nat, denied: nat) -> Seq<char> {
    "shown "@ + decimal(shown) + "/"@ + decimal(found) + " procs  ("@ + decimal(denied)
        + " denied — need sudo for other users)"@
}

/// The sums over the processes shown.
pub open spec fn totals_line(compressed: u64, footprint: u64, estimate: Seq<char>) -> Seq<char> {
    "shown totals: CMPRS "@ + bytes_text(compressed) + "  FOOTPRINT "@ + bytes_text(footprint)
        + "  SWAP~ "@ + estimate
}

/// The swap in use beside the sum of all estimates.
pub open spec fn swap_line(swap_total: Option<u64>, total_compressed: u64, sum: Double) -> Seq<
    char,
> {
    "swap (sysctl vm.swapusage used): "@ + (match swap_total {
        Some(bytes) => bytes_text(bytes),
        None => "N/A"@,
    }) + "   Σ est over readable procs: "@ + (if swap_total is None {
        "N/A (vm.swapusage unavailable)"@
    } else if total_compressed == 0 {
        "N/A (denominator is 0 — run as root for accurate estimates)"@
    } else {
        human_text(sum)
    })
}

/// The line for each of `rows`.
pub open spec fn row_lines(
    rows: Seq<Row>,
    total_compressed: u64,
    swap_total: Option<u64>,
    show_parent: bool,
    parents: Map<i32, String>,
) -> Seq<Seq<char>> {
    Seq::new(
        rows.len(),
        |i: int|
            row_line(
                rows[i],
                estimate_text(
                    estimable(swap_total, total_compressed as nat),
                    share(rows[i].compressed, total_compressed, swap_total.unwrap_or(0)),
                ),
                if show_parent {
                    Some(parents[rows[i].ppid]@)
                } else {
                    None
                },
            ),
    )
}

/// All lines of the list of processes.
pub open spec fn snapshot_lines(
    rows: Seq<Row>,
    denied: nat,
    swap_total: Option<u64>,
    topn: usize,
    show_parent: bool,
    parents: Map<i32, String>,
) -> Seq<Seq<char>> {
    let top = rows.take(shown(topn, rows.len()) as int);
    let total = sum_of(compressed_of(rows)) as u64;
    let swap = swap_total.unwrap_or(0);
    seq![snapshot_header(show_parent)] + row_lines(top, total, swap_total, show_parent, parents)
        + seq![
        Seq::empty(),
        shown_line(top.len(), rows.len(), denied),
        totals_line(
            sum_of(compressed_of(top)) as u64,
            sum_of(footprints_of(top)) as u64,
            estimate_text(
                estimable(swap_total, total as nat),
                estimate_sum(compressed_of(top), total, swap),
            ),
        ),
        swap_line(swap_total, total, estimate_sum(compressed_of(rows), total, swap)),
    ]
}

/// The warning that estimates rest on part of the processes only, where that is so.
pub open spec fn denied_warning(
    denied: nat,
    swap_total: Option<u64>,
    total_compressed: nat,
) -> Option<Seq<char>> {
    if denied > 0 && estimable(swap_total, total_compressed) {
        Some(
            "WARNING: "@ + decimal(denied)
                + " proc(s) denied — SWAP~ estimates cover only visible processes; a single visible process may absorb all system swap. Run as root for accuracy."@,
        )
    } else {
        None
    }
}

/// Writes an amount of bytes.
pub(crate) fn bytes_string(n: u64) -> (r: String)
    ensures
        r@ == bytes_text(n),
{
    human(Double::from_u64(n))
}

fn header_string(show_parent: bool) -> (r: String)
    ensures
        r@ == snapshot_header(show_parent),
{
    let mut out = String::new();
    push_left(&mut out, "PID", 7);
    assert(out@ =~= left("PID"@, 7));
    out.append(" ");
    if show_parent {
        push_left(&mut out, "PPID", 7);
        out.append(" ");
        push_left(&mut out, "NAME", 24);
        out.append(" ");
        push_left(&mut out, "PARENT", 20);
    } else {
        push_left(&mut out, "NAME", 24);
    }
    out.append(" ");
    push_right(&mut out, "CMPRS", 12);
    out.append(" ");
    push_right(&mut out, "FOOTPRINT", 12);
    out.append(" ");
    push_right(&mut out, "SWAP~", 12);
    out
}

fn row_string(row: &Row, estimate: &str, parent: Option<&str>) -> (r: String)
    ensures
        r@ == row_line(
            *row,
            estimate@,
            match parent {
                Some(p) => Some(p@),
                None => None,
            },
        ),
{
    let mut out = String::new();
    push_left(&mut out, signed_text(row.pid).as_str(), 7);
    assert(out@ =~= left(signed_decimal(row.pid as int), 7));
    out.append(" ");
    match parent {
        Some(p) => {
            push_left(&mut out, signed_text(row.ppid).as_str(), 7);
            out.append(" ");
            push_left(&mut out, truncate(row.name.as_str(), 24).as_str(), 24);
            out.append(" ");
            push_left(&mut out, truncate(p, 20).as_str(), 20);
        },
        None => {
            push_left(&mut out, truncate(row.name.as_str(), 24).as_str(), 24);
        },
    }
    out.append(" ");
    let ghost front = out@;
    push_right(&mut out, bytes_string(row.compressed).as_str(), 12);
    out.append(" ");
    push_right(&mut out, bytes_string(row.footprint).as_str(), 12);
    out.append(" ");
    push_right(&mut out, estimate, 12);
    assert(out@ =~= front + (right(bytes_text(row.compressed), 12) + " "@ + right(
        bytes_text(row.footprint),
        12,
    ) + " "@ + right(estimate@, 12)));
    out
}

fn shown_string(shown: usize, found: usize, denied: usize) -> (r: String)
    ensures
        r@ == shown_line(shown as nat, found as nat, denied as nat),
{
    let mut out = "shown ".to_owned();
    push_decimal(&mut out, shown as u64);
    out.append("/");
    push_decimal(&mut out, found as u64);
    out.append(" procs  (");
    push_decimal(&mut out, denied as u64);
    out.append(" denied — need sudo for other users)");
    out
}

fn totals_string(compressed: u64, footprint: u64, estimate: &str) -> (r: String)
    ensures
        r@ == totals_line(compressed, footprint, estimate@),
{
    let mut out = "shown totals: CMPRS ".to_owned();
    out.append(bytes_string(compressed).as_str());
    out.append("  FOOTPRINT ");
    out.append(bytes_string(footprint).as_str());
    out.append("  SWAP~ ");
    out.append(estimate);
    out
}

fn swap_string(swap_total: Option<u64>, total_compressed: u64, sum: Double) -> (r: String)
    requires
        sum.wf(),
    ensures
        r@ == swap_line(swap_total, total_compressed, sum),
{
    let mut out = "swap (sysctl vm.swapusage used): ".to_owned();
    match swap_total {
        Some(bytes) => out.append(bytes_string(bytes).as_str()),
        None => out.append("N/A"),
    }
    out.append("   Σ est over readable procs: ");
    if swap_total.is_none() {
        out.append("N/A (vm.swapusage unavailable)");
    } else if total_compressed == 0 {
        out.append("N/A (denominator is 0 — run as root for accurate estimates)");
    } else {
        out.append(human(sum).as_str());
    }
    out
}

fn estimate_string(available: bool, estimate: Double) -> (r: String)
    requires
        estimate.wf(),
    ensures
        r@ == estimate_text(available, estimate),
{
    if available {
        human(estimate)
    } else {
        "N/A".to_owned()
    }
}

/// The lines to print, and a warning to print apart from them.
#[derive(Debug, PartialEq, Eq)]
pub struct Report {
    pub lines: Vec<String>,
    pub warning: Option<String>,
}

/// The compressed bytes of the first `n` rows.
fn compressed_column(rows: &Vec<Row>, n: usize) -> (r: Vec<u64>)
    requires
        n <= rows@.len(),
    ensures
        r@ == compressed_of(rows@.take(n as int)),
{
    let mut out: Vec<u64> = Vec::new();
    let mut i: usize = 0;
    while i < n
        invariant
            i <= n <= rows@.len(),
            out@ == compressed_of(rows@.take(i as int)),
        decreases n - i,
    {
        out.push(rows[i].compressed);
        i = i + 1;
        assert(out@ =~= compressed_of(rows@.take(i as int)));
    }
    out
}

/// The footprints of the first `n` rows.
fn footprint_column(rows: &Vec<Row>, n: usize) -> (r: Vec<u64>)
    requires
        n <= rows@.len(),
    ensures
        r@ == footprints_of(rows@.take(n as int)),
{
    let mut out: Vec<u64> = Vec::new();
    let mut i: usize = 0;
    while i < n
        invariant
            i <= n <= rows@.len(),
            out@ == footprints_of(rows@.take(i as int)),
        decreases n - i,
    {
        out.push(rows[i].footprint);
        i = i + 1;
        assert(out@ =~= footprints_of(rows@.take(i as int)));
    }
    out
}

impl Snapshot {
    /// The rows to show when `topn` are asked for.
    pub open spec fn top(self, topn: usize) -> Seq<Row> {
        self.rows@.take(shown(topn, self.rows@.len()) as int)
    }

    /// The compressed bytes of all rows and the footprints of those shown can be added up.
    pub open spec fn sums_fit(self, topn: usize) -> bool {
        &&& sum_of(compressed_of(self.rows@)) <= u64::MAX
        &&& sum_of(footprints_of(self.top(topn))) <= u64::MAX
    }

    /// Tells whether the sums in a report are in range.
    pub fn check_sums(&self, topn: usize) -> (r: bool)
        ensures
            r == self.sums_fit(topn),
            r == (compressed_total(self.rows@) <= u64::MAX && footprint_total(
                self.rows@.take(listed(topn, self.rows@.len())),
            ) <= u64::MAX),
    {
        proof {
            lemma_totals(self.rows@);
            lemma_totals(self.top(topn));
            assert(shown(topn, self.rows@.len()) == listed(topn, self.rows@.len()));
        }
        let n: usize = shown_count(topn, self.rows.len());
        assert(self.rows@.take(self.rows@.len() as int) =~= self.rows@);
        checked_sum(&compressed_column(&self.rows, self.rows.len())).is_some() && checked_sum(
            &footprint_column(&self.rows, n),
        ).is_some()
    }

    /// The processes of which the names are shown as parents, each once.
    pub fn parents_to_name(&self, topn: usize) -> (r: Vec<i32>)
        ensures
            r@ == firsts(parents_of(self.top(topn))),
            r@.no_duplicates(),
            forall|i: int|
                0 <= i < listed(topn, self.rows@.len()) ==> r@.contains(
                    (#[trigger] self.rows@[i]).ppid,
                ),
            forall|pid: i32| #[trigger]
                r@.contains(pid) ==> exists|i: int|
                    0 <= i < listed(topn, self.rows@.len()) && (#[trigger] self.rows@[i]).ppid
                        == pid,
    {
        proof {
            law_parents_to_name(self.rows@, topn);
        }
        let n: usize = shown_count(topn, self.rows.len());
        let mut pids: Vec<i32> = Vec::new();
        let mut i: usize = 0;
        while i < n
            invariant
                i <= n <= self.rows@.len(),
                pids@ == parents_of(self.rows@.take(i as int)),
            decreases n - i,
        {
            pids.push(self.rows[i].ppid);
            i = i + 1;
            assert(pids@ =~= parents_of(self.rows@.take(i as int)));
        }
        distinct(&pids)
    }

    /// Writes the list of processes.
    pub fn report(
        &self,
        swap_total: Option<u64>,
        topn: usize,
        show_parent: bool,
        parents: &HashMap<i32, String>,
    ) -> (r: Report)
        requires
            self.sums_fit(topn),
            show_parent ==> forall|i: int|
                0 <= i < self.top(topn).len() ==> parents@.contains_key(
                    #[trigger] self.top(topn)[i].ppid,
                ),
        ensures
            texts(r.lines@) == snapshot_lines(
                self.rows@,
                self.denied as nat,
                swap_total,
                topn,
                show_parent,
                parents@,
            ),
            r.warning is Some <==> denied_warning(
                self.denied as nat,
                swap_total,
                sum_of(compressed_of(self.rows@)),
            ) is Some,
            r.warning matches Some(w) ==> Some(w@) == denied_warning(
                self.denied as nat,
                swap_total,
                sum_of(compressed_of(self.rows@)),
            ),
    {
        let n: usize = shown_count(topn, self.rows.len());
        let ghost top = self.top(topn);
        proof {
            assert(self.rows@.take(self.rows@.len() as int) =~= self.rows@);
            assert forall|i: int| 0 <= i < self.rows@.len() implies #[trigger] compressed_of(
                self.rows@,
            )[i] <= sum_of(compressed_of(self.rows@)) by {
                lemma_summand(compressed_of(self.rows@), i);
            }
            assert(compressed_of(top) =~= compressed_of(self.rows@).take(n as int));
            lemma_sum_prefix(compressed_of(self.rows@), n as int);
        }
        let all: Vec<u64> = compressed_column(&self.rows, self.rows.len());
        let part: Vec<u64> = compressed_column(&self.rows, n);
        let total: u64 = checked_sum(&all).unwrap();
        let part_total: u64 = checked_sum(&part).unwrap();
        let footprint: u64 = checked_sum(&footprint_column(&self.rows, n)).unwrap();
        let available = swap_estimates_available(swap_total, total);
        let swap: u64 = match swap_total {
            Some(bytes) => bytes,
            None => 0,
        };
        let mut lines: Vec<String> = Vec::new();
        lines.push(header_string(show_parent));
        let ghost wanted = row_lines(top, total, swap_total, show_parent, parents@);
        assert(texts(lines@) =~= seq![snapshot_header(show_parent)] + wanted.take(0));
        let mut i: usize = 0;
        while i < n
            invariant
                i <= n <= self.rows@.len(),
                top == self.top(topn),
                n == shown(topn, self.rows@.len()),
                available == estimable(swap_total, total as nat),
                swap == swap_total.unwrap_or(0),
                wanted == row_lines(top, total, swap_total, show_parent, parents@),
                show_parent ==> forall|k: int|
                    0 <= k < top.len() ==> parents@.contains_key(#[trigger] top[k].ppid),
                texts(lines@) == seq![snapshot_header(show_parent)] + wanted.take(i as int),
            decreases n - i,
        {
            broadcast use vstd::std_specs::hash::group_hash_axioms;

            let row = &self.rows[i];
            assert(*row == top[i as int]);
            let estimate = estimate_string(available, bytes_share(row.compressed, total, swap));
            let parent: Option<&str> = if show_parent {
                Some(parents.get(&row.ppid).unwrap().as_str())
            } else {
                None
            };
            let ghost so_far = texts(lines@);
            let line = row_string(row, estimate.as_str(), parent);
            assert(line@ == wanted[i as int]);
            lines.push(line);
            i = i + 1;
            assert(texts(lines@) =~= so_far.push(wanted[i - 1]));
            assert(texts(lines@) =~= seq![snapshot_header(show_parent)] + wanted.take(i as int));
        }
        assert(wanted.take(n as int) =~= wanted);
        let ghost listed = texts(lines@);
        let part_estimate = estimate_string(available, estimate_total(&part, total, swap));
        lines.push(String::new());
        lines.push(shown_string(n, self.rows.len(), self.denied));
        lines.push(totals_string(part_total, footprint, part_estimate.as_str()));
        lines.push(swap_string(swap_total, total, estimate_total(&all, total, swap)));
        assert(texts(lines@) =~= snapshot_lines(
            self.rows@,
            self.denied as nat,
            swap_total,
            topn,
            show_parent,
            parents@,
        ));
        let warning = if self.denied > 0 && available {
            let mut w = "WARNING: ".to_owned();
            push_decimal(&mut w, self.denied as u64);
            w.append(
                " proc(s) denied — SWAP~ estimates cover only visible processes; a single visible process may absorb all system swap. Run as root for accuracy.",
            );
            Some(w)
        } else {
            None
        };
        Report { lines, warning }
    }
}

/// The warning that the swap in use could not be read.
pub fn swap_warning(cause: &str) -> (r: String)
    ensures
        r@ == "WARNING: could not read sysctl vm.swapusage: "@ + cause@ + "; SWAP~ unavailable."@,
{
    let mut out = "WARNING: could not read sysctl vm.swapusage: ".to_owned();
    out.append(cause);
    out.append("; SWAP~ unavailable.");
    out
}

/// The estimates of all rows, added up as the report adds them up, make up the swap in use but
/// for a factor of at most `(1 + 2^-53)^(n + 5)`, where `n` is the number of rows.
pub proof fn law_listed_estimates_conserve_swap(rows: Seq<Row>, swap_total: u64)
    requires
        0 < sum_of(compressed_of(rows)) <= u64::MAX,
    ensures
        within(
            estimate_sum(
                compressed_of(rows),
                sum_of(compressed_of(rows)) as u64,
                swap_total,
            ).magnitude(),
            swap_total as real,
            rows.len() + 5,
        ),
{
    law_estimates_conserve_swap(
        compressed_of(rows),
        sum_of(compressed_of(rows)) as u64,
        swap_total,
    );
}

/// The estimates never grow from one row to a later one.
pub proof fn law_estimates_follow_the_order(
    rows: Seq<Row>,
    total_compressed: u64,
    swap_total: u64,
    i: int,
    j: int,
)
    requires
        is_ranked(rows),
        0 <= i <= j < rows.len(),
    ensures
        share(rows[j].compressed, total_compressed, swap_total).magnitude() <= share(
            rows[i].compressed,
            total_compressed,
            swap_total,
        ).magnitude(),
{
    if i < j {
        assert(!precedes(rows[j].rank(), rows[i].rank()));
    }
    law_share_is_monotone(rows[j].compressed, rows[i].compressed, total_compressed, swap_total);
}

/// A row as it is where parents are not shown.
pub open spec fn without_parent(row: Row) -> Row {
    Row { ppid: 0, ..row }
}

proof fn lemma_rows_without_parents(probes: Seq<Probe>)
    ensures
        rows_of(probes, false) == rows_of(probes, true).map_values(|r: Row| without_parent(r)),
    decreases probes.len(),
{
    let f = |r: Row| without_parent(r);
    if probes.len() > 0 {
        lemma_rows_without_parents(probes.drop_last());
    }
    assert(rows_of(probes, false) =~= rows_of(probes, true).map_values(f));
}

/// Showing parents changes neither which processes are listed, nor their order, nor anything
/// else that a row holds.
pub proof fn law_parents_leave_the_rows(probes: Seq<Probe>, with: Seq<Row>, without: Seq<Row>)
    requires
        is_ordering_of(rows_of(probes, true), with),
        is_ordering_of(rows_of(probes, false), without),
    ensures
        without == with.map_values(|r: Row| without_parent(r)),
        compressed_of(without) == compressed_of(with),
        footprints_of(without) == footprints_of(with),
{
    let f = |r: Row| without_parent(r);
    lemma_rows_without_parents(probes);
    lemma_ordering_mapped(rows_of(probes, true), with, f);
    law_ordering_is_unique(rows_of(probes, false), without, with.map_values(f));
    assert(compressed_of(without) =~= compressed_of(with));
    assert(footprints_of(without) =~= footprints_of(with));
}

/// Showing parents adds two cells to the line of each process, its parent's number behind its
/// own and its parent's name behind its own, and changes no other cell; the lines below the
/// list and the warning stay as they are.
pub proof fn law_parents_only_add_cells(
    probes: Seq<Probe>,
    with: Seq<Row>,
    without: Seq<Row>,
    denied: nat,
    swap_total: Option<u64>,
    topn: usize,
    parents: Map<i32, String>,
    unused: Map<i32, String>,
)
    requires
        is_ordering_of(rows_of(probes, true), with),
        is_ordering_of(rows_of(probes, false), without),
    ensures
        ({
            let n = shown(topn, with.len()) as int;
            let total = sum_of(compressed_of(with)) as u64;
            let wide = snapshot_lines(with, denied, swap_total, topn, true, parents);
            let narrow = snapshot_lines(without, denied, swap_total, topn, false, unused);
            &&& wide.len() == narrow.len() == n + 5
            &&& forall|i: int|
                #![trigger with[i]]
                0 <= i < n ==> {
                    let row = with[i];
                    let memory = memory_cells(
                        row,
                        estimate_text(
                            estimable(swap_total, total as nat),
                            share(row.compressed, total, swap_total.unwrap_or(0)),
                        ),
                    );
                    &&& narrow[i + 1] == pid_cell(row.pid) + " "@ + name_cell(row.name@) + " "@
                        + memory
                    &&& wide[i + 1] == pid_cell(row.pid) + " "@ + pid_cell(row.ppid) + " "@
                        + name_cell(row.name@) + " "@ + parent_cell(parents[row.ppid]@) + " "@
                        + memory
                }
            &&& wide.skip(n + 1) == narrow.skip(n + 1)
        }),
        denied_warning(denied, swap_total, sum_of(compressed_of(with))) == denied_warning(
            denied,
            swap_total,
            sum_of(compressed_of(without)),
        ),
{
    law_parents_leave_the_rows(probes, with, without);
    let n = shown(topn, with.len()) as int;
    let (top, bare) = (with.take(n), without.take(n));
    assert(compressed_of(bare) =~= compressed_of(top));
    assert(footprints_of(bare) =~= footprints_of(top));
    let wide = snapshot_lines(with, denied, swap_total, topn, true, parents);
    let narrow = snapshot_lines(without, denied, swap_total, topn, false, unused);
    assert(wide.skip(n + 1) =~= narrow.skip(n + 1));
    assert forall|i: int| 0 <= i < n implies {
        &&& without[i] == without_parent(#[trigger] with[i])
        &&& top[i] == with[i]
        &&& bare[i] == without[i]
    } by {}
}

/// An amount of bytes is written so that it can be read back.
pub proof fn law_bytes_are_told(n: u64)
    ensures
        tells_bytes(bytes_text(n), n as int),
        is_word(bytes_text(n)),
{
    let d = nearest(n as real);
    lemma_rounded_integer(n);
    law_human_tells_the_amount(d);
    lemma_human_is_a_word(d);
    lemma_nearest_within(n as real);
    assert(tells(bytes_text(n), d.value()) && within(d.value(), n as real, 1));
    if n <= 0x20_0000_0000_0000 {
        law_small_integers_are_exact(n);
    }
}

/// Where the columns behind a cell of a process number start.
pub open spec fn behind(pid: Seq<char>) -> int {
    1 + if pid.len() < 7 {
        7
    } else {
        pid.len() as int
    }
}

/// What can be read at the start of the line of a process without a parent.
pub(crate) proof fn lemma_label(pid: i32, name: Seq<char>, tail: Seq<char>)
    ensures
        ({
            let line = pid_cell(pid) + seq![' '] + name_cell(name) + seq![' '] + tail;
            &&& signed_worth(word(line, 0)) == pid
            &&& shows(line, behind(word(line, 0)), 24, name)
        }),
{
    let blank = seq![' '];
    let line = pid_cell(pid) + blank + name_cell(name) + blank + tail;
    let front = pid_cell(pid) + blank;
    law_signed_decimal_is_read_back(pid as int);
    lemma_signed_decimal_is_a_word(pid as int);
    assert(line =~= pid_cell(pid) + blank + (name_cell(name) + blank + tail));
    lemma_until_cell(signed_decimal(pid as int), name_cell(name) + blank + tail);
    assert(line =~= front + left(truncated(name, 24), 24) + (blank + tail));
    lemma_shows(front, name, 24, blank + tail);
}

/// What can be read at the start of the line of a process with a parent.
pub(crate) proof fn lemma_label_with_parent(
    pid: i32,
    ppid: i32,
    name: Seq<char>,
    parent: Seq<char>,
    tail: Seq<char>,
)
    ensures
        ({
            let line = pid_cell(pid) + seq![' '] + pid_cell(ppid) + seq![' '] + name_cell(name)
                + seq![' '] + parent_cell(parent) + seq![' '] + tail;
            let at = behind(word(line, 0)) + behind(word(line, 1));
            &&& signed_worth(word(line, 0)) == pid
            &&& signed_worth(word(line, 1)) == ppid
            &&& shows(line, at, 24, name)
            &&& shows(line, at + 25, 20, parent)
        }),
{
    let blank = seq![' '];
    let line = pid_cell(pid) + blank + pid_cell(ppid) + blank + name_cell(name) + blank
        + parent_cell(parent) + blank + tail;
    let (own, other) = (signed_decimal(pid as int), signed_decimal(ppid as int));
    law_signed_decimal_is_read_back(pid as int);
    law_signed_decimal_is_read_back(ppid as int);
    lemma_signed_decimal_is_a_word(pid as int);
    lemma_signed_decimal_is_a_word(ppid as int);
    let rest = name_cell(name) + blank + parent_cell(parent) + blank + tail;
    let second = pid_cell(ppid) + blank + rest;
    assert(word(line, 0) == own && word(line, 1) == other) by {
        assert(line =~= pid_cell(pid) + blank + second);
        assert(second[0] == other[0]);
        lemma_first_cell(own, 7, second, 0);
        lemma_until_cell(other, rest);
    }
    let front = pid_cell(pid) + blank + pid_cell(ppid) + blank;
    assert(shows(line, front.len() as int, 24, name)) by {
        let back = blank + parent_cell(parent) + blank + tail;
        assert(line =~= front + left(truncated(name, 24), 24) + back);
        lemma_shows(front, name, 24, back);
    }
    let further = front + name_cell(name) + blank;
    assert(name_cell(name).len() == 24);
    assert(shows(line, further.len() as int, 20, parent)) by {
        assert(line =~= further + left(truncated(parent, 20), 20) + (blank + tail));
        lemma_shows(further, parent, 20, blank + tail);
    }
}

/// What can be read at the end of the line of a process.
proof fn lemma_memory_words(head: Seq<char>, row: Row, estimate: Seq<char>)
    requires
        is_word(estimate),
    ensures
        ({
            let line = head + seq![' '] + memory_cells(row, estimate);
            &&& word_from_end(line, 0) == estimate
            &&& word_from_end(line, 1) == bytes_text(row.footprint)
            &&& word_from_end(line, 2) == bytes_text(row.compressed)
        }),
{
    let blank = seq![' '];
    reveal_strlit(" ");
    assert(" "@ =~= blank);
    let (c, f) = (bytes_text(row.compressed), bytes_text(row.footprint));
    law_bytes_are_told(row.compressed);
    law_bytes_are_told(row.footprint);
    let one = head + blank + right(c, 12);
    let two = one + blank + right(f, 12);
    let line = head + blank + memory_cells(row, estimate);
    assert(line =~= two + blank + right(estimate, 12));
    lemma_next_cell(head, c, 12);
    lemma_next_cell(one, f, 12);
    lemma_last_cell(one, f, 12, 0);
    lemma_last_cell(two, estimate, 12, 0);
    lemma_last_cell(two, estimate, 12, 1);
}

/// What can be read in the line of a process.
proof fn lemma_row_line(row: Row, estimate: Seq<char>, parent: Option<Seq<char>>)
    requires
        is_word(estimate),
    ensures
        ({
            let line = row_line(row, estimate, parent);
            let at = behind(word(line, 0)) + if parent is Some {
                behind(word(line, 1))
            } else {
                0
            };
            &&& signed_worth(word(line, 0)) == row.pid
            &&& parent is Some ==> signed_worth(word(line, 1)) == row.ppid
            &&& shows(line, at, 24, row.name@)
            &&& parent is Some ==> shows(line, at + 25, 20, parent->0)
            &&& word_from_end(line, 0) == estimate
            &&& word_from_end(line, 1) == bytes_text(row.footprint)
            &&& word_from_end(line, 2) == bytes_text(row.compressed)
        }),
{
    let blank = seq![' '];
    assert(" "@ == blank) by {
        reveal_strlit(" ");
        assert(" "@ =~= blank);
    }
    let tail = memory_cells(row, estimate);
    match parent {
        Some(p) => {
            lemma_label_with_parent(row.pid, row.ppid, row.name@, p, tail);
            lemma_memory_words(
                pid_cell(row.pid) + blank + pid_cell(row.ppid) + blank + name_cell(row.name@)
                    + blank + parent_cell(p),
                row,
                estimate,
            );
        },
        None => {
            lemma_label(row.pid, row.name@, tail);
            lemma_memory_words(
                pid_cell(row.pid) + blank + name_cell(row.name@),
                row,
                estimate,
            );
        },
    }
}

/// A process number at the start of a line is its first word, whatever follows.
proof fn lemma_until_cell(pid: Seq<char>, rest: Seq<char>)
    requires
        is_word(pid),
    ensures
        word(left(pid, 7) + seq![' '] + rest, 0) == pid,
{
    let line = left(pid, 7) + seq![' '] + rest;
    crate::reading::lemma_until(line, ' ', pid.len() as int);
    assert(line.take(pid.len() as int) =~= pid);
}

/// The compressed memory of all rows.
pub open spec fn compressed_total(rows: Seq<Row>) -> int {
    rows.fold_left(0int, |sum: int, r: Row| sum + r.compressed)
}

/// The footprint of all rows.
pub open spec fn footprint_total(rows: Seq<Row>) -> int {
    rows.fold_left(0int, |sum: int, r: Row| sum + r.footprint)
}

proof fn lemma_totals(rows: Seq<Row>)
    ensures
        sum_of(compressed_of(rows)) == compressed_total(rows),
        sum_of(footprints_of(rows)) == footprint_total(rows),
        compressed_of(rows).fold_left(0int, |sum: int, n: u64| sum + n) == compressed_total(rows),
    decreases rows.len(),
{
    law_sum_is_one_by_one(compressed_of(rows));
    if rows.len() > 0 {
        let front = rows.drop_last();
        lemma_totals(front);
        assert(compressed_of(rows).drop_last() =~= compressed_of(front));
        assert(footprints_of(rows).drop_last() =~= footprints_of(front));
    }
}

/// How many of so many rows a report that is asked for `topn` lists.
pub open spec fn listed(topn: usize, found: nat) -> int {
    if topn == 0 || topn > found {
        found as int
    } else {
        topn as int
    }
}

/// `text` tells the part of the swap in use that is in proportion to `part` of `whole` bytes,
/// after up to `k` roundings; or that there is nothing to tell.
pub open spec fn tells_part_of_swap(
    text: Seq<char>,
    swap_total: Option<u64>,
    part: int,
    whole: int,
    k: nat,
) -> bool {
    if swap_total is Some && whole > 0 {
        tells_within(text, (swap_total->0 as real) * ((part as real) / (whole as real)), k)
    } else {
        text == seq!['N', '/', 'A']
    }
}

/// An estimate is written so that it can be read back, or it is said that there is none.
pub proof fn law_estimate_is_told(available: bool, d: Double)
    requires
        d.is_amount(),
    ensures
        is_word(estimate_text(available, d)),
        available ==> tells(estimate_text(available, d), d.magnitude()),
        !available ==> estimate_text(available, d) == seq!['N', '/', 'A'],
{
    reveal_strlit("N/A");
    assert("N/A"@ =~= seq!['N', '/', 'A']);
    law_human_tells_the_amount(d);
    lemma_human_is_a_word(d);
}

/// The list shows the first rows, as many as were asked for or all. In the line of each stand its
/// number, its name, its compressed memory and its footprint, each as exactly as it can be
/// written, and the part of the swap in use that is in proportion to its compressed memory among
/// all rows, shown or not.
pub proof fn law_lines_show_the_rows(
    rows: Seq<Row>,
    denied: nat,
    swap_total: Option<u64>,
    topn: usize,
    show_parent: bool,
    parents: Map<i32, String>,
    i: int,
)
    requires
        compressed_total(rows) <= u64::MAX,
        0 <= i < listed(topn, rows.len()),
    ensures
        ({
            let lines = snapshot_lines(rows, denied, swap_total, topn, show_parent, parents);
            let line = lines[i + 1];
            let row = rows[i];
            let at = behind(word(line, 0)) + if show_parent {
                behind(word(line, 1))
            } else {
                0
            };
            &&& lines.len() == listed(topn, rows.len()) + 5
            &&& signed_worth(word(line, 0)) == row.pid
            &&& show_parent ==> signed_worth(word(line, 1)) == row.ppid
            &&& shows(line, at, 24, row.name@)
            &&& show_parent ==> shows(line, at + 25, 20, parents[row.ppid]@)
            &&& tells_bytes(word_from_end(line, 2), row.compressed as int)
            &&& tells_bytes(word_from_end(line, 1), row.footprint as int)
            &&& tells_part_of_swap(
                word_from_end(line, 0),
                swap_total,
                row.compressed as int,
                compressed_total(rows),
                5,
            )
        }),
{
    let row = rows[i];
    let total = compressed_total(rows) as u64;
    let text = estimate_text(
        estimable(swap_total, total as nat),
        share(row.compressed, total, swap_total.unwrap_or(0)),
    );
    let parent = if show_parent {
        Some(parents[row.ppid]@)
    } else {
        None
    };
    lemma_line_of_row(rows, denied, swap_total, topn, show_parent, parents, i);
    lemma_totals(rows);
    lemma_share_told(row.compressed, total, swap_total);
    law_bytes_are_told(row.compressed);
    law_bytes_are_told(row.footprint);
    lemma_row_line(row, text, parent);
}

/// Which line is that of a row.
proof fn lemma_line_of_row(
    rows: Seq<Row>,
    denied: nat,
    swap_total: Option<u64>,
    topn: usize,
    show_parent: bool,
    parents: Map<i32, String>,
    i: int,
)
    requires
        compressed_total(rows) <= u64::MAX,
        0 <= i < listed(topn, rows.len()),
    ensures
        ({
            let total = compressed_total(rows) as u64;
            let lines = snapshot_lines(rows, denied, swap_total, topn, show_parent, parents);
            &&& lines.len() == listed(topn, rows.len()) + 5
            &&& lines[i + 1] == row_line(
                rows[i],
                estimate_text(
                    estimable(swap_total, total as nat),
                    share(rows[i].compressed, total, swap_total.unwrap_or(0)),
                ),
                if show_parent {
                    Some(parents[rows[i].ppid]@)
                } else {
                    None
                },
            )
        }),
{
    lemma_totals(rows);
    assert(shown(topn, rows.len()) == listed(topn, rows.len()));
    assert(rows.take(listed(topn, rows.len()))[i] == rows[i]);
}

/// What is written of the share of a process.
proof fn lemma_share_told(compressed: u64, total: u64, swap_total: Option<u64>)
    ensures
        ({
            let text = estimate_text(
                estimable(swap_total, total as nat),
                share(compressed, total, swap_total.unwrap_or(0)),
            );
            &&& is_word(text)
            &&& tells_part_of_swap(text, swap_total, compressed as int, total as int, 5)
        }),
{
    let swap = swap_total.unwrap_or(0);
    let d = share(compressed, total, swap);
    let available = estimable(swap_total, total as nat);
    lemma_share_moderate(compressed, total, swap);
    law_estimate_is_told(available, d);
    if available {
        law_share_is_accurate(compressed, total, swap);
        assert(tells(estimate_text(available, d), d.magnitude()));
    }
}

/// What can be read in the line of totals.
proof fn lemma_totals_line(compressed: u64, footprint: u64, estimate: Seq<char>)
    requires
        is_word(estimate),
    ensures
        ({
            let line = totals_line(compressed, footprint, estimate);
            &&& word_from_end(line, 0) == estimate
            &&& word_from_end(line, 1) == "SWAP~"@
            &&& word_from_end(line, 2) == bytes_text(footprint)
            &&& word_from_end(line, 3) == "FOOTPRINT"@
            &&& word_from_end(line, 4) == bytes_text(compressed)
            &&& word_from_end(line, 5) == "CMPRS"@
        }),
{
    let line = totals_line(compressed, footprint, estimate);
    let (c, f) = (bytes_text(compressed), bytes_text(footprint));
    law_bytes_are_told(compressed);
    law_bytes_are_told(footprint);
    reveal_strlit("shown totals: CMPRS ");
    reveal_strlit("  FOOTPRINT ");
    reveal_strlit("  SWAP~ ");
    reveal_strlit("CMPRS");
    reveal_strlit("FOOTPRINT");
    reveal_strlit("SWAP~");
    let (one, two) = (seq![' '], seq![' ', ' ']);
    let start = "shown totals: CMPRS "@.take(13);
    let a = start + one + "CMPRS"@;
    assert("shown totals: CMPRS "@ =~= a + one);
    let b = a + one + c;
    let d = b + two + "FOOTPRINT"@;
    let e = d + one + f;
    let g = e + two + "SWAP~"@;
    assert(line =~= g + one + estimate);
    assert(b.last() == c.last() && e.last() == f.last());
    lemma_back(g, one, estimate, 0);
    lemma_back(g, one, estimate, 1);
    lemma_back(g, one, estimate, 2);
    lemma_back(g, one, estimate, 3);
    lemma_back(g, one, estimate, 4);
    lemma_back(e, two, "SWAP~"@, 0);
    lemma_back(e, two, "SWAP~"@, 1);
    lemma_back(e, two, "SWAP~"@, 2);
    lemma_back(e, two, "SWAP~"@, 3);
    lemma_back(d, one, f, 0);
    lemma_back(d, one, f, 1);
    lemma_back(d, one, f, 2);
    lemma_back(b, two, "FOOTPRINT"@, 0);
    lemma_back(b, two, "FOOTPRINT"@, 1);
    lemma_back(a, one, c, 0);
    lemma_back(start, one, "CMPRS"@, 0);
}

/// The totals are those of the rows listed above them, and of no other: their compressed memory,
/// their footprint, and the part of the swap in use in proportion to their compressed memory.
pub proof fn law_totals_are_of_the_rows_shown(
    rows: Seq<Row>,
    denied: nat,
    swap_total: Option<u64>,
    topn: usize,
    show_parent: bool,
    parents: Map<i32, String>,
)
    requires
        compressed_total(rows) <= u64::MAX,
        footprint_total(rows.take(listed(topn, rows.len()))) <= u64::MAX,
    ensures
        ({
            let n = listed(topn, rows.len());
            let lines = snapshot_lines(rows, denied, swap_total, topn, show_parent, parents);
            let line = lines[n + 3];
            &&& lines.len() == n + 5
            &&& word_from_end(line, 5) == "CMPRS"@
            &&& tells_bytes(word_from_end(line, 4), compressed_total(rows.take(n)))
            &&& word_from_end(line, 3) == "FOOTPRINT"@
            &&& tells_bytes(word_from_end(line, 2), footprint_total(rows.take(n)))
            &&& word_from_end(line, 1) == "SWAP~"@
            &&& tells_part_of_swap(
                word_from_end(line, 0),
                swap_total,
                compressed_total(rows.take(n)),
                compressed_total(rows),
                (n + 5) as nat,
            )
        }),
{
    let n = listed(topn, rows.len());
    let top = rows.take(n);
    let total = sum_of(compressed_of(rows)) as u64;
    let swap = swap_total.unwrap_or(0);
    lemma_totals(rows);
    lemma_totals(top);
    assert(compressed_of(top) =~= compressed_of(rows).take(n));
    lemma_sum_prefix(compressed_of(rows), n);
    assert forall|i: int| 0 <= i < top.len() implies compressed_of(top)[i] <= total by {
        lemma_summand(compressed_of(rows), i);
    }
    let available = estimable(swap_total, total as nat);
    let estimate = estimate_sum(compressed_of(top), total, swap);
    let text = estimate_text(available, estimate);
    if available {
        law_estimates_of_some_processes(compressed_of(top), total, swap);
        law_estimate_is_told(available, estimate);
    } else {
        reveal_strlit("N/A");
        assert(text =~= seq!['N', '/', 'A']);
    }
    let (c, f) = (sum_of(compressed_of(top)) as u64, sum_of(footprints_of(top)) as u64);
    law_bytes_are_told(c);
    law_bytes_are_told(f);
    lemma_totals_line(c, f, text);
    let lines = snapshot_lines(rows, denied, swap_total, topn, show_parent, parents);
    assert(lines[n + 3] == totals_line(c, f, text));
}

/// Rows that are left out of the list leave no trace in the totals of memory: two lists of the
/// same rows, cut from different ones, have the same totals of compressed memory and footprint.
pub proof fn law_rows_left_out_do_not_count(
    rows: Seq<Row>,
    others: Seq<Row>,
    denied: nat,
    swap_total: Option<u64>,
    topn: usize,
    show_parent: bool,
    parents: Map<i32, String>,
)
    requires
        compressed_total(rows) <= u64::MAX,
        compressed_total(others) <= u64::MAX,
        listed(topn, rows.len()) == listed(topn, others.len()),
        rows.take(listed(topn, rows.len())) == others.take(listed(topn, rows.len())),
    ensures
        ({
            let n = listed(topn, rows.len());
            let x = snapshot_lines(rows, denied, swap_total, topn, show_parent, parents)[n + 3];
            let y = snapshot_lines(others, denied, swap_total, topn, show_parent, parents)[n + 3];
            &&& word_from_end(x, 4) == word_from_end(y, 4)
            &&& word_from_end(x, 2) == word_from_end(y, 2)
        }),
{
    lemma_totals_words(rows, denied, swap_total, topn, show_parent, parents);
    lemma_totals_words(others, denied, swap_total, topn, show_parent, parents);
}

proof fn lemma_totals_words(
    rows: Seq<Row>,
    denied: nat,
    swap_total: Option<u64>,
    topn: usize,
    show_parent: bool,
    parents: Map<i32, String>,
)
    requires
        compressed_total(rows) <= u64::MAX,
    ensures
        ({
            let n = listed(topn, rows.len());
            let top = rows.take(n);
            let x = snapshot_lines(rows, denied, swap_total, topn, show_parent, parents)[n + 3];
            &&& word_from_end(x, 4) == bytes_text(sum_of(compressed_of(top)) as u64)
            &&& word_from_end(x, 2) == bytes_text(sum_of(footprints_of(top)) as u64)
        }),
{
    let n = listed(topn, rows.len());
    let top = rows.take(n);
    let total = sum_of(compressed_of(rows)) as u64;
    let swap = swap_total.unwrap_or(0);
    lemma_totals(rows);
    assert(compressed_of(top) =~= compressed_of(rows).take(n));
    assert forall|i: int| 0 <= i < top.len() implies compressed_of(top)[i] <= total by {
        lemma_summand(compressed_of(rows), i);
    }
    let available = estimable(swap_total, total as nat);
    let estimate = estimate_sum(compressed_of(top), total, swap);
    let text = estimate_text(available, estimate);
    if available {
        law_estimates_of_some_processes(compressed_of(top), total, swap);
        law_estimate_is_told(available, estimate);
    } else {
        reveal_strlit("N/A");
        assert(text =~= seq!['N', '/', 'A']);
    }
    let (c, f) = (sum_of(compressed_of(top)) as u64, sum_of(footprints_of(top)) as u64);
    lemma_totals_line(c, f, text);
    let lines = snapshot_lines(rows, denied, swap_total, topn, show_parent, parents);
    assert(lines[n + 3] == totals_line(c, f, text));
}

/// Below the list stand an empty line and the numbers of the rows shown, the rows found and the
/// processes denied.
pub proof fn law_counts_are_told(
    rows: Seq<Row>,
    denied: nat,
    swap_total: Option<u64>,
    topn: usize,
    show_parent: bool,
    parents: Map<i32, String>,
)
    ensures
        ({
            let n = listed(topn, rows.len());
            let lines = snapshot_lines(rows, denied, swap_total, topn, show_parent, parents);
            let line = lines[n + 2];
            let counts = word(line, 1);
            let slash = until(counts, '/');
            &&& lines.len() == n + 5
            &&& lines[n + 1].len() == 0
            &&& word(line, 0) == "shown"@
            &&& worth(counts.take(slash)) == n
            &&& worth(counts.skip(slash + 1)) == rows.len()
            &&& word(line, 2) == "procs"@
            &&& word(line, 3).len() > 1 && word(line, 3)[0] == '('
            &&& worth(word(line, 3).skip(1)) == denied
            &&& word(line, 4) == "denied"@
            &&& line.skip(line.len() - 36) == " denied — need sudo for other users)"@
        }),
{
    let n = listed(topn, rows.len());
    assert(shown(topn, rows.len()) == n);
    let lines = snapshot_lines(rows, denied, swap_total, topn, show_parent, parents);
    let line = lines[n + 2];
    assert(line == shown_line(n as nat, rows.len(), denied));
    lemma_shown_line(n as nat, rows.len(), denied);
    assert(" denied — need sudo for other users)"@.len() == 36) by {
        reveal_strlit(" denied — need sudo for other users)");
    }
    assert(line.skip(line.len() - 36) =~= " denied — need sudo for other users)"@);
}

/// The line of counts, word by word.
proof fn lemma_shown_shape(shown: nat, found: nat, denied: nat) -> (rest: Seq<char>)
    ensures
        rest.len() > 0 && rest[0] != ' ',
        shown_line(shown, found, denied) == "shown"@ + seq![' '] + (decimal(shown) + seq!['/']
            + decimal(found) + seq![' '] + ("procs"@ + seq![' ', ' '] + (seq!['('] + decimal(denied)
            + seq![' '] + ("denied"@ + seq![' '] + rest)))),
{
    let (one, two) = (seq![' '], seq![' ', ' ']);
    let end = " denied — need sudo for other users)"@;
    let rest = end.skip(8);
    assert(end == one + ("denied"@ + one + rest) && rest.len() > 0 && rest[0] != ' ') by {
        reveal_strlit(" denied — need sudo for other users)");
        reveal_strlit("denied");
        assert(end =~= one + ("denied"@ + one + rest));
    }
    assert("shown "@ == "shown"@ + one) by {
        reveal_strlit("shown ");
        reveal_strlit("shown");
        assert("shown "@ =~= "shown"@ + one);
    }
    assert(" procs  ("@ == one + ("procs"@ + two + seq!['('])) by {
        reveal_strlit(" procs  (");
        reveal_strlit("procs");
        assert(" procs  ("@ =~= one + ("procs"@ + two + seq!['(']));
    }
    assert("/"@ == seq!['/']) by {
        reveal_strlit("/");
        assert("/"@ =~= seq!['/']);
    }
    assert(shown_line(shown, found, denied) =~= "shown"@ + one + (decimal(shown) + seq!['/']
        + decimal(found) + one + ("procs"@ + two + (seq!['('] + decimal(denied) + one + (
    "denied"@ + one + rest)))));
    rest
}

proof fn lemma_shown_line(shown: nat, found: nat, denied: nat)
    ensures
        ({
            let line = shown_line(shown, found, denied);
            let counts = word(line, 1);
            let slash = until(counts, '/');
            &&& word(line, 0) == "shown"@
            &&& worth(counts.take(slash)) == shown
            &&& worth(counts.skip(slash + 1)) == found
            &&& word(line, 2) == "procs"@
            &&& word(line, 3).len() > 1 && word(line, 3)[0] == '('
            &&& worth(word(line, 3).skip(1)) == denied
            &&& word(line, 4) == "denied"@
        }),
{
    let line = shown_line(shown, found, denied);
    let (a, b, c) = (decimal(shown), decimal(found), decimal(denied));
    law_decimal_is_read_back(shown);
    law_decimal_is_read_back(found);
    law_decimal_is_read_back(denied);
    let (one, two) = (seq![' '], seq![' ', ' ']);
    let rest = lemma_shown_shape(shown, found, denied);
    assert(is_word("shown"@) && is_word("procs"@) && is_word("denied"@)) by {
        reveal_strlit("shown");
        reveal_strlit("procs");
        reveal_strlit("denied");
    }
    let counts = a + seq!['/'] + b;
    let kept = seq!['('] + c;
    let third = "denied"@ + one + rest;
    let second = kept + one + third;
    let first = "procs"@ + two + second;
    let all = counts + one + first;
    assert(is_word(counts));
    assert(is_word(kept));
    assert(third[0] == "denied"@[0]);
    assert(first[0] == "procs"@[0]);
    assert(all[0] == a[0]);
    lemma_forth("shown"@, one, all, 0);
    assert(word(line, 1) == counts) by {
        lemma_forth(counts, one, first, 0);
    }
    assert(word(line, 2) == "procs"@) by {
        lemma_forth("shown"@, one, all, 1);
        lemma_forth(counts, one, first, 0);
        lemma_forth("procs"@, two, second, 0);
    }
    assert(word(line, 3) == kept) by {
        lemma_forth("shown"@, one, all, 2);
        lemma_forth(counts, one, first, 1);
        lemma_forth("procs"@, two, second, 0);
        lemma_forth(kept, one, third, 0);
    }
    assert(word(line, 4) == "denied"@) by {
        lemma_forth("shown"@, one, all, 3);
        lemma_forth(counts, one, first, 2);
        lemma_forth("procs"@, two, second, 1);
        lemma_forth(kept, one, third, 0);
        lemma_forth("denied"@, one, rest, 0);
    }
    crate::reading::lemma_until(counts, '/', a.len() as int);
    assert(counts.take(a.len() as int) =~= a);
    assert(counts.skip((a.len() + 1) as int) =~= b);
    assert(kept.skip(1) =~= c);
}

/// The last line tells the swap in use and the sum of all estimates, which makes it up; or that
/// one of them is not known.
pub proof fn law_swap_in_use_is_told(
    rows: Seq<Row>,
    denied: nat,
    swap_total: Option<u64>,
    topn: usize,
    show_parent: bool,
    parents: Map<i32, String>,
)
    requires
        compressed_total(rows) <= u64::MAX,
    ensures
        ({
            let n = listed(topn, rows.len());
            let lines = snapshot_lines(rows, denied, swap_total, topn, show_parent, parents);
            let line = lines[n + 4];
            let start = "swap (sysctl vm.swapusage used): "@;
            let end =
                "   Σ est over readable procs: N/A (denominator is 0 — run as root for accurate estimates)"@;
            match swap_total {
                None => line
                    == "swap (sysctl vm.swapusage used): N/A   Σ est over readable procs: N/A (vm.swapusage unavailable)"@,
                Some(bytes) => if compressed_total(rows) > 0 {
                    &&& tells_within(word_from_end(line, 0), bytes as real, rows.len() + 5)
                    &&& tells_bytes(word_from_end(line, 6), bytes as int)
                } else {
                    &&& line.len() > start.len() + end.len()
                    &&& line.take(start.len() as int) == start
                    &&& line.skip(line.len() - end.len()) == end
                    &&& tells_bytes(
                        line.subrange(start.len() as int, line.len() - end.len()),
                        bytes as int,
                    )
                },
            }
        }),
{
    let n = listed(topn, rows.len());
    assert(shown(topn, rows.len()) == n);
    let lines = snapshot_lines(rows, denied, swap_total, topn, show_parent, parents);
    let total = sum_of(compressed_of(rows)) as u64;
    let swap = swap_total.unwrap_or(0);
    lemma_totals(rows);
    let sum = estimate_sum(compressed_of(rows), total, swap);
    let line = swap_line(swap_total, total, sum);
    assert(lines[n + 4] == line);
    lemma_swap_line(swap_total, total, sum);
    if swap_total is Some {
        law_bytes_are_told(swap);
        if total > 0 {
            assert forall|i: int| 0 <= i < rows.len() implies compressed_of(rows)[i] <= total by {
                lemma_summand(compressed_of(rows), i);
            }
            law_estimates_of_some_processes(compressed_of(rows), total, swap);
            law_estimates_conserve_swap(compressed_of(rows), total, swap);
            law_human_tells_the_amount(sum);
            lemma_human_is_a_word(sum);
            lemma_swap_words(swap, sum);
            assert(tells(human_text(sum), sum.value()));
        }
    }
}

/// The last line without a sum of estimates.
proof fn lemma_swap_line(swap_total: Option<u64>, total: u64, sum: Double)
    ensures
        ({
            let line = swap_line(swap_total, total, sum);
            let start = "swap (sysctl vm.swapusage used): "@;
            let end =
                "   Σ est over readable procs: N/A (denominator is 0 — run as root for accurate estimates)"@;
            match swap_total {
                None => line
                    == "swap (sysctl vm.swapusage used): N/A   Σ est over readable procs: N/A (vm.swapusage unavailable)"@,
                Some(bytes) => total == 0 ==> line == start + bytes_text(bytes) + end && {
                    &&& line.len() > start.len() + end.len()
                    &&& line.take(start.len() as int) == start
                    &&& line.skip(line.len() - end.len()) == end
                    &&& line.subrange(start.len() as int, line.len() - end.len()) == bytes_text(
                        bytes,
                    )
                },
            }
        }),
{
    let line = swap_line(swap_total, total, sum);
    let start = "swap (sysctl vm.swapusage used): "@;
    let end =
        "   Σ est over readable procs: N/A (denominator is 0 — run as root for accurate estimates)"@;
    match swap_total {
        None => {
            reveal_strlit("swap (sysctl vm.swapusage used): ");
            reveal_strlit("N/A");
            reveal_strlit("   Σ est over readable procs: ");
            reveal_strlit("N/A (vm.swapusage unavailable)");
            reveal_strlit(
                "swap (sysctl vm.swapusage used): N/A   Σ est over readable procs: N/A (vm.swapusage unavailable)",
            );
            assert(line
                =~= "swap (sysctl vm.swapusage used): N/A   Σ est over readable procs: N/A (vm.swapusage unavailable)"@);
        },
        Some(bytes) => if total == 0 {
            law_bytes_are_told(bytes);
            assert("   Σ est over readable procs: "@
                + "N/A (denominator is 0 — run as root for accurate estimates)"@ =~= end) by {
                reveal_strlit("   Σ est over readable procs: ");
                reveal_strlit("N/A (denominator is 0 — run as root for accurate estimates)");
                reveal_strlit(
                    "   Σ est over readable procs: N/A (denominator is 0 — run as root for accurate estimates)",
                );
            }
            let text = bytes_text(bytes);
            assert(line =~= start + text + end);
            assert(line.take(start.len() as int) =~= start);
            assert(line.skip(line.len() - end.len()) =~= end);
            assert(line.subrange(start.len() as int, line.len() - end.len()) =~= text);
        },
    }
}

/// The last line with a sum of estimates.
proof fn lemma_swap_words(bytes: u64, sum: Double)
    requires
        is_word(human_text(sum)),
    ensures
        word_from_end(swap_line(Some(bytes), 1, sum), 0) == human_text(sum),
        word_from_end(swap_line(Some(bytes), 1, sum), 6) == bytes_text(bytes),
        forall|total: u64|
            total > 0 ==> #[trigger] swap_line(Some(bytes), total, sum) == swap_line(
                Some(bytes),
                1,
                sum,
            ),
{
    let line = swap_line(Some(bytes), 1, sum);
    let (w, text) = (human_text(sum), bytes_text(bytes));
    law_bytes_are_told(bytes);
    reveal_strlit("swap (sysctl vm.swapusage used): ");
    reveal_strlit("   Σ est over readable procs: ");
    let (one, three) = (seq![' '], seq![' ', ' ', ' ']);
    let start = "swap (sysctl vm.swapusage used): "@.take(32);
    let a = start + one + text;
    let b = a + three + seq!['Σ'];
    let c = b + one + seq!['e', 's', 't'];
    let d = c + one + seq!['o', 'v', 'e', 'r'];
    let e = d + one + seq!['r', 'e', 'a', 'd', 'a', 'b', 'l', 'e'];
    let f = e + one + seq!['p', 'r', 'o', 'c', 's', ':'];
    assert(line =~= f + one + w);
    assert(a.last() == text.last());
    lemma_back(f, one, w, 5);
    lemma_back(e, one, seq!['p', 'r', 'o', 'c', 's', ':'], 4);
    lemma_back(d, one, seq!['r', 'e', 'a', 'd', 'a', 'b', 'l', 'e'], 3);
    lemma_back(c, one, seq!['o', 'v', 'e', 'r'], 2);
    lemma_back(b, one, seq!['e', 's', 't'], 1);
    lemma_back(a, three, seq!['Σ'], 0);
    lemma_back(start, one, text, 0);
}

/// A warning is given exactly if processes were denied and estimates are made all the same, and
/// it tells how many were denied.
pub proof fn law_warning_counts_the_denied(
    rows: Seq<Row>,
    denied: nat,
    swap_total: Option<u64>,
)
    ensures
        ({
            let warning = denied_warning(denied, swap_total, sum_of(compressed_of(rows)));
            &&& warning is Some <==> denied > 0 && swap_total is Some && compressed_total(rows) > 0
            &&& warning matches Some(w) ==> {
                &&& word(w, 0) == "WARNING:"@
                &&& worth(word(w, 1)) == denied
                &&& w.skip((9 + word(w, 1).len()) as int)
                    == " proc(s) denied — SWAP~ estimates cover only visible processes; a single visible process may absorb all system swap. Run as root for accuracy."@
            }
        }),
{
    lemma_totals(rows);
    let warning = denied_warning(denied, swap_total, sum_of(compressed_of(rows)));
    if warning is Some {
        let w = warning->0;
        let end =
            " proc(s) denied — SWAP~ estimates cover only visible processes; a single visible process may absorb all system swap. Run as root for accuracy."@;
        law_decimal_is_read_back(denied);
        reveal_strlit("WARNING: ");
        reveal_strlit("WARNING:");
        assert(end.len() > 1 && end[0] == ' ' && end[1] == 'p') by {
            reveal_strlit(
                " proc(s) denied — SWAP~ estimates cover only visible processes; a single visible process may absorb all system swap. Run as root for accuracy.",
            );
        }
        let one = seq![' '];
        let c = decimal(denied);
        let rest = c + one + end.skip(1);
        assert(end =~= one + end.skip(1));
        assert(w =~= "WARNING:"@ + one + rest);
        assert(rest[0] == c[0]);
        lemma_forth("WARNING:"@, one, rest, 0);
        lemma_forth(c, one, end.skip(1), 0);
        assert(w.skip((9 + c.len()) as int) =~= end);
    }
}

/// The heading names the columns, each over its cells.
pub proof fn law_heading_names_the_columns(
    rows: Seq<Row>,
    denied: nat,
    swap_total: Option<u64>,
    topn: usize,
    show_parent: bool,
    parents: Map<i32, String>,
)
    ensures
        snapshot_lines(rows, denied, swap_total, topn, show_parent, parents)[0] == (if show_parent {
            "PID     PPID    NAME                     PARENT                      CMPRS    FOOTPRINT        SWAP~"@
        } else {
            "PID     NAME                            CMPRS    FOOTPRINT        SWAP~"@
        }),
{
    let lines = snapshot_lines(rows, denied, swap_total, topn, show_parent, parents);
    assert(lines[0] == snapshot_header(show_parent));
    lemma_headings();
    reveal_strlit("CMPRS");
    reveal_strlit("FOOTPRINT");
    reveal_strlit("SWAP~");
    let tail = " "@ + right("CMPRS"@, 12) + " "@ + right("FOOTPRINT"@, 12) + " "@ + right(
        "SWAP~"@,
        12,
    );
    if show_parent {
        let text = "PID     PPID    NAME                     PARENT                      CMPRS    FOOTPRINT        SWAP~"@;
        reveal_strlit("PID     PPID    NAME                     PARENT                      CMPRS    FOOTPRINT        SWAP~");
        reveal_strlit("PID     PPID    NAME                     PARENT              ");
        assert(snapshot_header(true) =~= wide_heading() + tail);
        assert(wide_heading() + tail =~= text);
    } else {
        let text = "PID     NAME                            CMPRS    FOOTPRINT        SWAP~"@;
        reveal_strlit("PID     NAME                            CMPRS    FOOTPRINT        SWAP~");
        reveal_strlit("PID     NAME                    ");
        assert(snapshot_header(false) =~= narrow_heading() + tail);
        assert(narrow_heading() + tail =~= text);
    }
}

/// The heading of what every line starts with where parents are shown.
pub(crate) open spec fn wide_heading() -> Seq<char> {
    left("PID"@, 7) + " "@ + left("PPID"@, 7) + " "@ + left("NAME"@, 24) + " "@ + left("PARENT"@, 20)
}

/// The heading of what every line starts with where parents are not shown.
pub(crate) open spec fn narrow_heading() -> Seq<char> {
    left("PID"@, 7) + " "@ + left("NAME"@, 24)
}

pub(crate) proof fn lemma_headings()
    ensures
        wide_heading() == "PID     PPID    NAME                     PARENT              "@,
        narrow_heading() == "PID     NAME                    "@,
        " "@ == seq![' '],
{
    reveal_strlit(" ");
    assert(" "@ =~= seq![' ']);
    reveal_strlit("PID");
    reveal_strlit("PPID");
    reveal_strlit("NAME");
    reveal_strlit("PARENT");
    reveal_strlit("PID     PPID    NAME                     PARENT              ");
    reveal_strlit("PID     NAME                    ");
    assert(wide_heading() =~= "PID     PPID    NAME                     PARENT              "@);
    assert(narrow_heading() =~= "PID     NAME                    "@);
}

} // verus!
