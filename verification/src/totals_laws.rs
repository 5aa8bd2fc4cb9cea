//! What totals and rotation come to, in numbers.

use crate::catalog::CatalogModel;
use crate::condition::EvalFault;
use crate::counters::{
    all_counted, count_of, counted, law_totals_add_up, occurrences, one_more, raised,
};
use crate::engine::ReportModel;
use crate::engine_laws::times_logged;
use crate::engine_task::{failing_rules, logging_rules, EngineTotals};
use crate::ingest::{reasons, IngestModel};
use crate::output::{file_title, moves, RotationModel};
use crate::text::decimal;
use crate::wire::{decoded_packet, packet_fault, FrameError};
use vstd::prelude::*;

verus! {

/// `a + n`, or the largest number that a counter holds.
pub open spec fn held(a: int, n: int) -> int {
    if a + n > 0xffff_ffff_ffff_ffff {
        0xffff_ffff_ffff_ffff
    } else {
        a + n
    }
}

/// A counter goes up by what is counted, and stays where it is full.
pub proof fn law_counters(a: u64, n: nat)
    ensures
        one_more(a) == held(a as int, 1),
        raised(a, n) == held(a as int, n as int),
{
}

/// Counting a label once more changes its total and no other.
pub proof fn law_counted(counts: Map<Seq<char>, u64>, label: Seq<char>, other: Seq<char>)
    ensures
        counted(counts, label).contains_key(other) <==> counts.contains_key(other) || other
            == label,
        count_of(counted(counts, label), other) == if other == label {
            held(count_of(counts, other) as int, 1)
        } else {
            count_of(counts, other) as int
        },
        count_of(counts, other) == if counts.contains_key(other) {
            counts[other]
        } else {
            0
        },
{
}

/// How many frames were rejected for a reason.
pub open spec fn times_rejected(errors: Seq<FrameError>, label: Seq<char>) -> nat
    decreases errors.len(),
{
    if errors.len() == 0 {
        0
    } else {
        times_rejected(errors.drop_last(), label) + if errors.last().kind.label() == label {
            1nat
        } else {
            0
        }
    }
}

proof fn lemma_times_rejected(errors: Seq<FrameError>, n: nat, label: Seq<char>)
    requires
        n <= errors.len(),
    ensures
        occurrences(reasons(errors), n, label) == times_rejected(errors.take(n as int), label),
    decreases n,
{
    if n > 0 {
        lemma_times_rejected(errors, (n - 1) as nat, label);
        assert(errors.take(n as int).drop_last() =~= errors.take(n - 1));
    }
}

/// What a datagram adds to the totals: one packet and its bytes; where it is
/// rejected as a whole, one error of that reason; else its samples, its unknown
/// signals, and an error for each frame that was rejected, by reason.
pub proof fn law_datagram_totals(
    totals: IngestModel,
    datagram: Seq<u8>,
    catalog: CatalogModel,
    label: Seq<char>,
)
    ensures
        ({
            let after = totals.after(datagram, catalog);
            let before = count_of(totals.decode_errors, label) as int;
            let errors = count_of(after.decode_errors, label);
            &&& after.packets == held(totals.packets as int, 1)
            &&& after.bytes == held(totals.bytes as int, datagram.len() as int)
            &&& match packet_fault(datagram) {
                Some(e) => {
                    &&& after.frames_decoded == totals.frames_decoded
                    &&& after.unknown_signals == totals.unknown_signals
                    &&& errors == if e.label() == label {
                        held(before, 1)
                    } else {
                        before
                    }
                },
                None => {
                    let packet = decoded_packet(datagram, catalog);
                    &&& after.frames_decoded == held(
                        totals.frames_decoded as int,
                        packet.samples.len() as int,
                    )
                    &&& after.unknown_signals == held(
                        totals.unknown_signals as int,
                        packet.unknown_signals as int,
                    )
                    &&& errors == held(before, times_rejected(packet.errors, label) as int)
                },
            }
        }),
{
    if packet_fault(datagram) is None {
        let errors = decoded_packet(datagram, catalog).errors;
        law_totals_add_up(totals.decode_errors, reasons(errors), errors.len(), label);
        lemma_times_rejected(errors, errors.len(), label);
        assert(errors.take(errors.len() as int) =~= errors);
    }
}

/// How often a report says that a rule's condition failed.
pub open spec fn times_failed(errors: Seq<(Seq<char>, EvalFault)>, id: Seq<char>) -> nat
    decreases errors.len(),
{
    if errors.len() == 0 {
        0
    } else {
        times_failed(errors.drop_last(), id) + if errors.last().0 == id {
            1nat
        } else {
            0
        }
    }
}

/// How often a report says that a rule was skipped.
pub open spec fn times_skipped(skips: Seq<Seq<char>>, id: Seq<char>) -> nat
    decreases skips.len(),
{
    if skips.len() == 0 {
        0
    } else {
        times_skipped(skips.drop_last(), id) + if skips.last() == id {
            1nat
        } else {
            0
        }
    }
}

proof fn lemma_times_logged(report: ReportModel, n: nat, id: Seq<char>)
    requires
        n <= report.records.len(),
    ensures
        occurrences(logging_rules(report), n, id) == times_logged(
            report.records.take(n as int),
            id,
        ),
    decreases n,
{
    if n > 0 {
        lemma_times_logged(report, (n - 1) as nat, id);
        assert(report.records.take(n as int).drop_last() =~= report.records.take(n - 1));
    }
}

proof fn lemma_times_failed(report: ReportModel, n: nat, id: Seq<char>)
    requires
        n <= report.eval_errors.len(),
    ensures
        occurrences(failing_rules(report), n, id) == times_failed(
            report.eval_errors.take(n as int),
            id,
        ),
    decreases n,
{
    if n > 0 {
        lemma_times_failed(report, (n - 1) as nat, id);
        assert(report.eval_errors.take(n as int).drop_last() =~= report.eval_errors.take(n - 1));
    }
}

proof fn lemma_times_skipped(skips: Seq<Seq<char>>, n: nat, id: Seq<char>)
    requires
        n <= skips.len(),
    ensures
        occurrences(skips, n, id) == times_skipped(skips.take(n as int), id),
    decreases n,
{
    if n > 0 {
        lemma_times_skipped(skips, (n - 1) as nat, id);
        assert(skips.take(n as int).drop_last() =~= skips.take(n - 1));
    }
}

/// What a report adds to the totals: for each rule its records, its failures and
/// its skips.
pub proof fn law_report_totals(totals: EngineTotals, report: ReportModel, id: Seq<char>)
    ensures
        ({
            let after = totals.after(report);
            &&& after.samples == totals.samples
            &&& count_of(after.records, id) == held(
                count_of(totals.records, id) as int,
                times_logged(report.records, id) as int,
            )
            &&& count_of(after.eval_errors, id) == held(
                count_of(totals.eval_errors, id) as int,
                times_failed(report.eval_errors, id) as int,
            )
            &&& count_of(after.stale_skips, id) == held(
                count_of(totals.stale_skips, id) as int,
                times_skipped(report.stale_skips, id) as int,
            )
        }),
{
    let (n, m, k) = (report.records.len(), report.eval_errors.len(), report.stale_skips.len());
    law_totals_add_up(totals.records, logging_rules(report), n, id);
    law_totals_add_up(totals.eval_errors, failing_rules(report), m, id);
    law_totals_add_up(totals.stale_skips, report.stale_skips, k, id);
    lemma_times_logged(report, n, id);
    lemma_times_failed(report, m, id);
    lemma_times_skipped(report.stale_skips, k, id);
    assert(report.records.take(n as int) =~= report.records);
    assert(report.eval_errors.take(m as int) =~= report.eval_errors);
    assert(report.stale_skips.take(k as int) =~= report.stale_skips);
}

/// A failure is the first of its rule exactly where the rule had none in the
/// totals, and none before it in the report.
pub proof fn law_first_failures(
    counts: Map<Seq<char>, u64>,
    report: ReportModel,
    i: int,
)
    requires
        0 <= i < report.eval_errors.len(),
    ensures
        ({
            let id = report.eval_errors[i].0;
            let counted = count_of(all_counted(counts, failing_rules(report), i as nat), id);
            counted == 0 <==> count_of(counts, id) == 0 && forall|j: int|
                0 <= j < i ==> (#[trigger] report.eval_errors[j]).0 != id
        }),
        failing_rules(report)[i] == report.eval_errors[i].0,
{
    let id = report.eval_errors[i].0;
    law_totals_add_up(counts, failing_rules(report), i as nat, id);
    lemma_none_failed(report, i as nat, id);
}

proof fn lemma_none_failed(report: ReportModel, n: nat, id: Seq<char>)
    requires
        n <= report.eval_errors.len(),
    ensures
        occurrences(failing_rules(report), n, id) == 0 <==> forall|j: int|
            0 <= j < n ==> (#[trigger] report.eval_errors[j]).0 != id,
    decreases n,
{
    if n > 0 {
        lemma_none_failed(report, (n - 1) as nat, id);
        assert(failing_rules(report)[n - 1] == report.eval_errors[n - 1].0);
    }
}

/// A line goes into the file being written where that is empty or the line and
/// its newline still fit, and into a new one otherwise; the limits stay.
pub proof fn law_lines_fill_files(r: RotationModel, line_len: nat)
    ensures
        ({
            let fits = r.size == 0 || r.size + line_len + 1 <= r.max_bytes;
            let after = r.after_line(line_len);
            &&& r.is_full_for(line_len) <==> !fits
            &&& fits ==> after.size == held(r.size as int, line_len as int + 1)
            &&& !fits ==> after.size == held(0, line_len as int + 1)
            &&& after.max_bytes == r.max_bytes && after.max_files == r.max_files
            &&& r.emptied().size == 0
            &&& r.emptied().max_bytes == r.max_bytes && r.emptied().max_files == r.max_files
            &&& r.grown(line_len).size == held(r.size as int, line_len as int + 1)
            &&& r.grown(line_len).max_bytes == r.max_bytes && r.grown(line_len).max_files
                == r.max_files
        }),
{
}

/// A rotation moves each file to the next number, the oldest first, so that none
/// is overwritten before it has moved.
pub proof fn law_moves(max_files: u32, i: int)
    requires
        max_files > 0,
        0 <= i < max_files - 1,
    ensures
        moves(max_files).len() == max_files - 1,
        moves(max_files)[i].1 == moves(max_files)[i].0 + 1,
        moves(max_files)[0].1 == max_files - 1,
        moves(max_files)[max_files - 2].0 == 0,
        i > 0 ==> moves(max_files)[i].1 == moves(max_files)[i - 1].0,
{
}

/// Names of the files.
pub proof fn law_file_names(index: u32)
    ensures
        file_title(0) == "telemetry.ndjson"@,
        index > 0 ==> file_title(index) == "telemetry.ndjson"@ + "."@ + decimal(index as int),
{
}

} // verus!
