//! Properties of the library as a whole: what holds across several calls.

use vstd::prelude::*;
use vstd::arithmetic::div_mod::{
    lemma_div_denominator, lemma_fundamental_div_mod, lemma_fundamental_div_mod_converse,
};
use crate::srt::{
    cue_text, cues_text,
    fix_cue, fix_from, note, timecode_at, validation_issues, cue_issues, numbering_issues,
    numbering_issue,
    CueView, NoteView, Timecode,
};

verus! {

/// `u32::MAX + 1` hours, in milliseconds: the first time a `Timecode` cannot
/// hold.
pub open spec fn millis_limit() -> nat {
    4_294_967_296 * 3_600_000
}

/// A timecode with minutes and seconds below 60 and milliseconds below 1000
/// survives `to_millis` then `from_millis` unchanged.
pub proof fn timecode_millis_round_trip(tc: Timecode)
    requires
        tc.is_canonical(),
    ensures
        timecode_at(tc.total_millis()) == tc,
{
    let h = tc.hours as int;
    let m = tc.minutes as int;
    let s = tc.seconds as int;
    let ms = tc.millis as int;
    let t = tc.total_millis() as int;
    assert(t == (h * 3600 + m * 60 + s) * 1000 + ms) by (nonlinear_arith)
        requires
            t == h * 3_600_000 + m * 60_000 + s * 1000 + ms,
    ;
    lemma_fundamental_div_mod_converse(t, 1000, h * 3600 + m * 60 + s, ms);
    assert(h * 3600 + m * 60 + s == (h * 60 + m) * 60 + s) by (nonlinear_arith);
    lemma_fundamental_div_mod_converse(t / 1000, 60, h * 60 + m, s);
    assert(t == (h * 60 + m) * 60_000 + (s * 1000 + ms)) by (nonlinear_arith)
        requires
            t == h * 3_600_000 + m * 60_000 + s * 1000 + ms,
    ;
    assert(0 <= s * 1000 + ms < 60_000) by (nonlinear_arith)
        requires
            0 <= s < 60,
            0 <= ms < 1000,
    ;
    lemma_fundamental_div_mod_converse(t, 60_000, h * 60 + m, s * 1000 + ms);
    lemma_fundamental_div_mod_converse(t / 60_000, 60, h, m);
    assert(t == h * 3_600_000 + (m * 60_000 + s * 1000 + ms)) by (nonlinear_arith)
        requires
            t == h * 3_600_000 + m * 60_000 + s * 1000 + ms,
    ;
    assert(0 <= m * 60_000 + s * 1000 + ms < 3_600_000) by (nonlinear_arith)
        requires
            0 <= m < 60,
            0 <= s < 60,
            0 <= ms < 1000,
    ;
    lemma_fundamental_div_mod_converse(t, 3_600_000, h, m * 60_000 + s * 1000 + ms);
}

/// A number of milliseconds below `millis_limit()` survives `from_millis`
/// then `to_millis` unchanged, and `from_millis` gives minutes and seconds
/// below 60 and milliseconds below 1000.
pub proof fn millis_timecode_round_trip(t: nat)
    requires
        t < millis_limit(),
    ensures
        timecode_at(t).total_millis() == t,
        timecode_at(t).is_canonical(),
{
    let ti = t as int;
    lemma_fundamental_div_mod(ti, 1000);
    lemma_fundamental_div_mod(ti / 1000, 60);
    lemma_fundamental_div_mod(ti / 60_000, 60);
    lemma_div_denominator(ti, 1000, 60);
    lemma_div_denominator(ti, 60_000, 60);
    let h = ti / 3_600_000;
    let m = (ti / 60_000) % 60;
    let s = (ti / 1000) % 60;
    let ms = ti % 1000;
    assert(0 <= h < 4_294_967_296) by (nonlinear_arith)
        requires
            0 <= ti < 4_294_967_296 * 3_600_000,
            h == ti / 3_600_000,
    ;
    assert(ti == h * 3_600_000 + m * 60_000 + s * 1000 + ms) by (nonlinear_arith)
        requires
            ti == 1000 * (ti / 1000) + ms,
            ti / 1000 == 60 * (ti / 60_000) + s,
            ti / 60_000 == 60 * h + m,
    ;
}

/// Every cue of `cues` ends after it starts, and none starts before the cue
/// before it ends.
pub open spec fn timings_in_order(cues: Seq<CueView>) -> bool {
    &&& forall|i: int|
        0 <= i < cues.len() ==> (#[trigger] cues[i]).start.total_millis()
            < cues[i].end.total_millis()
    &&& forall|i: int|
        0 < i < cues.len() ==> cues[i - 1].end.total_millis() <= (#[trigger] cues[i]).start.total_millis()
}

/// Two cues that differ at most in their timing.
pub open spec fn same_but_timing(a: CueView, b: CueView) -> bool {
    a.number == b.number && a.text == b.text && a.identifier == b.identifier
}

/// `fix` keeps the number of cues and every cue's number, text and
/// identifier.
pub proof fn fix_keeps_labels(cues: Seq<CueView>, prev: Option<nat>)
    ensures
        fix_from(cues, prev).0.len() == cues.len(),
        forall|i: int|
            0 <= i < cues.len() ==> same_but_timing(#[trigger] fix_from(cues, prev).0[i], cues[i]),
    decreases cues.len(),
{
    if cues.len() > 0 {
        let (c2, notes) = fix_cue(cues[0], prev);
        let rest = cues.drop_first();
        fix_keeps_labels(rest, Some(c2.end.total_millis()));
        let r = fix_from(cues, prev).0;
        let rr = fix_from(rest, Some(c2.end.total_millis())).0;
        assert(r == seq![c2] + rr);
        assert forall|i: int| 0 <= i < cues.len() implies same_but_timing(
            #[trigger] fix_from(cues, prev).0[i],
            cues[i],
        ) by {
            if i > 0 {
                assert(r[i] == rr[i - 1]);
                assert(rest[i - 1] == cues[i]);
            }
        }
    }
}

/// The start, in milliseconds, that `fix` gives `c` after a cue that ended
/// at `prev`, counted without any limit.
pub open spec fn ideal_start(c: CueView, prev: Option<nat>) -> nat {
    if prev is Some && c.start.total_millis() < prev->0 {
        prev->0
    } else {
        c.start.total_millis()
    }
}

/// The end, in milliseconds, that `fix` gives `c` after a cue that ended at
/// `prev`, counted without any limit.
pub open spec fn ideal_end(c: CueView, prev: Option<nat>) -> nat {
    if ideal_start(c, prev) >= c.end.total_millis() {
        ideal_start(c, prev) + 1
    } else {
        c.end.total_millis()
    }
}

/// Every time that `fix` computes for `cues`, after a cue that ended at
/// `prev`, stays below `millis_limit()`, so that a `Timecode` can hold it.
pub open spec fn fixed_times_fit(cues: Seq<CueView>, prev: Option<nat>) -> bool
    decreases cues.len(),
{
    cues.len() == 0 || (ideal_end(cues[0], prev) < millis_limit() && fixed_times_fit(
        cues.drop_first(),
        Some(ideal_end(cues[0], prev)),
    ))
}

/// The timing of the fixed cue `r` against the cue `c` it came from.
#[verifier::opaque]
pub open spec fn fixed_from(r: CueView, c: CueView) -> bool {
    &&& r.start.total_millis() >= c.start.total_millis()
    &&& r.end.total_millis() >= c.end.total_millis()
    &&& r.start.total_millis() == c.start.total_millis() ==> r.start == c.start
    &&& r.end.total_millis() == c.end.total_millis() ==> r.end == c.end
    &&& r.end.total_millis() == if r.start.total_millis() >= c.end.total_millis() {
        r.start.total_millis() + 1
    } else {
        c.end.total_millis()
    }
}

/// The notes that `fix` gives for the cue `c`, fixed into `f`: one if its
/// start moved, then one if its end moved.
pub open spec fn change_notes(c: CueView, f: CueView) -> Seq<NoteView> {
    (if f.start.total_millis() != c.start.total_millis() {
        seq![note(c.number, "moved start to the end of the previous cue to remove overlap"@)]
    } else {
        seq![]
    }) + (if f.end.total_millis() != c.end.total_millis() {
        seq![note(c.number, "extended end time to be after start time"@)]
    } else {
        seq![]
    })
}

/// The notes of every cue of `cues`, fixed into the cue of `fixed` at the
/// same place, in order.
pub open spec fn all_change_notes(cues: Seq<CueView>, fixed: Seq<CueView>) -> Seq<NoteView>
    decreases cues.len(),
{
    if cues.len() == 0 || fixed.len() == 0 {
        seq![]
    } else {
        change_notes(cues[0], fixed[0]) + all_change_notes(cues.drop_first(), fixed.drop_first())
    }
}

proof fn lemma_fix_cue_step(c: CueView, prev: Option<nat>)
    requires
        ideal_end(c, prev) < millis_limit(),
        prev matches Some(p) ==> p < millis_limit(),
    ensures
        fix_cue(c, prev).0.start.total_millis() == ideal_start(c, prev),
        fix_cue(c, prev).0.end.total_millis() == ideal_end(c, prev),
        fixed_from(fix_cue(c, prev).0, c),
        fix_cue(c, prev).0.start.total_millis() < fix_cue(c, prev).0.end.total_millis(),
        prev matches Some(p) ==> p <= fix_cue(c, prev).0.start.total_millis(),
        fix_cue(c, prev).1 == change_notes(c, fix_cue(c, prev).0),
{
    reveal(fixed_from);
    let moved = prev is Some && c.start.total_millis() < prev->0;
    if moved {
        millis_timecode_round_trip(prev->0);
    }
    let s = ideal_start(c, prev);
    if s >= c.end.total_millis() {
        millis_timecode_round_trip(s + 1);
    }
}

#[verifier::rlimit(40)]
proof fn lemma_fix_from_order(cues: Seq<CueView>, prev: Option<nat>)
    requires
        fixed_times_fit(cues, prev),
        prev matches Some(p) ==> p < millis_limit(),
    ensures
        fix_from(cues, prev).0.len() == cues.len(),
        timings_in_order(fix_from(cues, prev).0),
        cues.len() > 0 ==> fix_from(cues, prev).0[0].start.total_millis() == ideal_start(
            cues[0],
            prev,
        ),
    decreases cues.len(),
{
    if cues.len() > 0 {
        let c = cues[0];
        let c2 = fix_cue(c, prev).0;
        lemma_fix_cue_step(c, prev);
        let rest = cues.drop_first();
        let next_prev = c2.end.total_millis();
        lemma_fix_from_order(rest, Some(next_prev));
        let r = fix_from(cues, prev).0;
        let rr = fix_from(rest, Some(next_prev)).0;
        assert(r == seq![c2] + rr);
        assert forall|i: int| 0 <= i < r.len() implies (#[trigger] r[i]).start.total_millis()
            < r[i].end.total_millis() by {
            if i > 0 {
                assert(r[i] == rr[i - 1]);
            }
        }
        assert forall|i: int| 0 < i < r.len() implies r[i - 1].end.total_millis() <= (#[trigger] r[
            i]).start.total_millis() by {
            assert(r[i] == rr[i - 1]);
            if i > 1 {
                assert(r[i - 1] == rr[i - 2]);
            }
        }
    }
}

#[verifier::rlimit(40)]
proof fn lemma_fix_from_starts(cues: Seq<CueView>, prev: Option<nat>)
    requires
        fixed_times_fit(cues, prev),
        prev matches Some(p) ==> p < millis_limit(),
    ensures
        forall|k: int|
            0 < k < cues.len() ==> (#[trigger] fix_from(cues, prev).0[k]).start.total_millis() == (
            if cues[k].start.total_millis() < fix_from(cues, prev).0[k - 1].end.total_millis() {
                fix_from(cues, prev).0[k - 1].end.total_millis()
            } else {
                cues[k].start.total_millis()
            }),
    decreases cues.len(),
{
    if cues.len() > 0 {
        let c = cues[0];
        let c2 = fix_cue(c, prev).0;
        lemma_fix_cue_step(c, prev);
        let rest = cues.drop_first();
        let next_prev = c2.end.total_millis();
        lemma_fix_from_starts(rest, Some(next_prev));
        lemma_fix_from_order(rest, Some(next_prev));
        let r = fix_from(cues, prev).0;
        let rr = fix_from(rest, Some(next_prev)).0;
        assert(r == seq![c2] + rr);
        assert forall|k: int|
            0 < k < cues.len() implies (#[trigger] r[k]).start.total_millis() == (
            if cues[k].start.total_millis() < r[k - 1].end.total_millis() {
                r[k - 1].end.total_millis()
            } else {
                cues[k].start.total_millis()
            }) by {
            assert(r[k] == rr[k - 1]);
            assert(rest[k - 1] == cues[k]);
            if k > 1 {
                assert(r[k - 1] == rr[k - 2]);
            }
        }
    }
}

proof fn lemma_fix_from_each(cues: Seq<CueView>, prev: Option<nat>)
    requires
        fixed_times_fit(cues, prev),
        prev matches Some(p) ==> p < millis_limit(),
    ensures
        forall|k: int| 0 <= k < cues.len() ==> fixed_from(#[trigger] fix_from(cues, prev).0[k], cues[k]),
    decreases cues.len(),
{
    if cues.len() > 0 {
        let c = cues[0];
        let c2 = fix_cue(c, prev).0;
        lemma_fix_cue_step(c, prev);
        let rest = cues.drop_first();
        let next_prev = c2.end.total_millis();
        lemma_fix_from_each(rest, Some(next_prev));
        lemma_fix_from_order(rest, Some(next_prev));
        let r = fix_from(cues, prev).0;
        let rr = fix_from(rest, Some(next_prev)).0;
        assert(r == seq![c2] + rr);
        assert forall|k: int| 0 <= k < cues.len() implies fixed_from(#[trigger] r[k], cues[k]) by {
            if k == 0 {
                assert(r[0] == c2);
            } else {
                assert(r[k] == rr[k - 1]);
                assert(rest[k - 1] == cues[k]);
                assert(fixed_from(rr[k - 1], rest[k - 1]));
            }
        }
    }
}

proof fn lemma_fix_from(cues: Seq<CueView>, prev: Option<nat>)
    requires
        fixed_times_fit(cues, prev),
        prev matches Some(p) ==> p < millis_limit(),
    ensures
        fix_from(cues, prev).0.len() == cues.len(),
        timings_in_order(fix_from(cues, prev).0),
        cues.len() > 0 ==> fix_from(cues, prev).0[0].start.total_millis() == ideal_start(
            cues[0],
            prev,
        ),
        forall|k: int|
            0 < k < cues.len() ==> (#[trigger] fix_from(cues, prev).0[k]).start.total_millis() == (
            if cues[k].start.total_millis() < fix_from(cues, prev).0[k - 1].end.total_millis() {
                fix_from(cues, prev).0[k - 1].end.total_millis()
            } else {
                cues[k].start.total_millis()
            }),
        forall|k: int| 0 <= k < cues.len() ==> fixed_from(#[trigger] fix_from(cues, prev).0[k], cues[k]),
{
    lemma_fix_from_order(cues, prev);
    lemma_fix_from_starts(cues, prev);
    lemma_fix_from_each(cues, prev);
}

proof fn lemma_fix_from_notes(cues: Seq<CueView>, prev: Option<nat>)
    requires
        fixed_times_fit(cues, prev),
        prev matches Some(p) ==> p < millis_limit(),
    ensures
        fix_from(cues, prev).1 == all_change_notes(cues, fix_from(cues, prev).0),
    decreases cues.len(),
{
    if cues.len() > 0 {
        let c = cues[0];
        let c2 = fix_cue(c, prev).0;
        lemma_fix_cue_step(c, prev);
        let rest = cues.drop_first();
        let next_prev = c2.end.total_millis();
        lemma_fix_from_notes(rest, Some(next_prev));
        let r = fix_from(cues, prev).0;
        let rr = fix_from(rest, Some(next_prev)).0;
        assert(r == seq![c2] + rr);
        assert(r[0] == c2);
        assert(r.drop_first() =~= rr);
    }
}

/// `fix` reports, cue by cue in order, a "moved start" fix for each cue
/// whose start it moved and then an "extended end" fix for each cue whose
/// end it moved, and nothing else (for cues whose fixed times a `Timecode`
/// can hold).
pub proof fn fix_reports_each_change(cues: Seq<CueView>)
    requires
        fixed_times_fit(cues, None),
    ensures
        fix_from(cues, None).1 == all_change_notes(cues, fix_from(cues, None).0),
{
    lemma_fix_from_notes(cues, None);
}

/// `fix`, for cues whose fixed times a `Timecode` can hold: each start
/// moves to the previous cue's (fixed) end when it is earlier, each end moves
/// one millisecond past its start when it is not later, nothing else moves
/// and nothing moves earlier; afterwards every cue ends after it starts and
/// none starts before the cue before it ends.
pub proof fn fix_puts_timings_in_order(cues: Seq<CueView>)
    requires
        fixed_times_fit(cues, None),
    ensures
        fix_from(cues, None).0.len() == cues.len(),
        timings_in_order(fix_from(cues, None).0),
        forall|k: int|
            0 <= k < cues.len() ==> (#[trigger] fix_from(cues, None).0[k]).start.total_millis() == (
            if k > 0 && cues[k].start.total_millis() < fix_from(cues, None).0[k
                - 1].end.total_millis() {
                fix_from(cues, None).0[k - 1].end.total_millis()
            } else {
                cues[k].start.total_millis()
            }),
        forall|k: int| 0 <= k < cues.len() ==> fixed_from(#[trigger] fix_from(cues, None).0[k], cues[k]),
        forall|i: int|
            0 <= i < cues.len() ==> same_but_timing(#[trigger] fix_from(cues, None).0[i], cues[i]),
{
    lemma_fix_from(cues, None);
    fix_keeps_labels(cues, None);
    let r = fix_from(cues, None).0;
    assert forall|k: int|
        0 <= k < cues.len() implies (#[trigger] r[k]).start.total_millis() == (if k > 0
        && cues[k].start.total_millis() < r[k - 1].end.total_millis() {
        r[k - 1].end.total_millis()
    } else {
        cues[k].start.total_millis()
    }) by {
        if k == 0 {
            assert(r[0].start.total_millis() == ideal_start(cues[0], None));
        }
    }
}

proof fn lemma_fix_from_in_order(cues: Seq<CueView>, prev: Option<nat>)
    requires
        timings_in_order(cues),
        cues.len() > 0 && prev is Some ==> prev->0 <= cues[0].start.total_millis(),
    ensures
        fix_from(cues, prev) == (cues, Seq::<NoteView>::empty()),
    decreases cues.len(),
{
    if cues.len() > 0 {
        let rest = cues.drop_first();
        assert(timings_in_order(rest)) by {
            assert forall|i: int| 0 <= i < rest.len() implies (#[trigger] rest[i]).start.total_millis()
                < rest[i].end.total_millis() by {
                assert(rest[i] == cues[i + 1]);
            }
            assert forall|i: int| 0 < i < rest.len() implies rest[i - 1].end.total_millis() <= (
            #[trigger] rest[i]).start.total_millis() by {
                assert(rest[i] == cues[i + 1]);
                assert(rest[i - 1] == cues[i]);
            }
        }
        if rest.len() > 0 {
            assert(rest[0] == cues[1]);
        }
        lemma_fix_from_in_order(rest, Some(cues[0].end.total_millis()));
        assert(seq![cues[0]] + rest =~= cues);
        assert(Seq::<NoteView>::empty() + Seq::<NoteView>::empty() =~= Seq::<NoteView>::empty());
    }
}

/// `fix` changes nothing, and reports nothing, on cues whose timings are
/// already in order.
pub proof fn fix_keeps_ordered_timings(cues: Seq<CueView>)
    requires
        timings_in_order(cues),
    ensures
        fix_from(cues, None) == (cues, Seq::<NoteView>::empty()),
{
    lemma_fix_from_in_order(cues, None);
}

/// Fixing twice is fixing once: the second `fix` changes and reports
/// nothing.
pub proof fn fix_is_idempotent(cues: Seq<CueView>)
    requires
        fixed_times_fit(cues, None),
    ensures
        fix_from(fix_from(cues, None).0, None) == (fix_from(cues, None).0, Seq::<NoteView>::empty()),
{
    lemma_fix_from_order(cues, None);
    lemma_fix_from_in_order(fix_from(cues, None).0, None);
}

/// On cues whose timings are in order, the only issue `validate` reports is
/// a duplicate cue number.
pub proof fn ordered_timings_leave_only_duplicates(cues: Seq<CueView>)
    requires
        timings_in_order(cues),
    ensures
        forall|k: int|
            0 <= k < validation_issues(cues).len() ==> (#[trigger] validation_issues(cues)[k]).message
                == "duplicate cue number"@,
    decreases cues.len(),
{
    if cues.len() > 0 {
        let d = cues.drop_last();
        assert(timings_in_order(d)) by {
            assert forall|i: int| 0 <= i < d.len() implies (#[trigger] d[i]).start.total_millis()
                < d[i].end.total_millis() by {
                assert(d[i] == cues[i]);
            }
            assert forall|i: int| 0 < i < d.len() implies d[i - 1].end.total_millis() <= (
            #[trigger] d[i]).start.total_millis() by {
                assert(d[i] == cues[i]);
                assert(d[i - 1] == cues[i - 1]);
            }
        }
        ordered_timings_leave_only_duplicates(d);
        let last = cues.len() - 1;
        assert(cues[last].start.total_millis() < cues[last].end.total_millis());
        if last > 0 {
            assert(cues[last - 1].end.total_millis() <= cues[last].start.total_millis());
        }
        let tail = cue_issues(cues, last);
        assert forall|k: int| 0 <= k < tail.len() implies (#[trigger] tail[k]).message
            == "duplicate cue number"@ by {}
        let all = validation_issues(cues);
        assert(all == validation_issues(d) + tail);
        assert forall|k: int| 0 <= k < all.len() implies (#[trigger] all[k]).message
            == "duplicate cue number"@ by {
            if k < validation_issues(d).len() {
                assert(all[k] == validation_issues(d)[k]);
            } else {
                assert(all[k] == tail[k - validation_issues(d).len()]);
            }
        }
    }
}

/// After `fix`, the only issue `validate` can report is a duplicate cue
/// number.
pub proof fn fix_leaves_only_duplicates(cues: Seq<CueView>)
    requires
        fixed_times_fit(cues, None),
    ensures
        forall|k: int|
            0 <= k < validation_issues(fix_from(cues, None).0).len() ==> (
            #[trigger] validation_issues(fix_from(cues, None).0)[k]).message
                == "duplicate cue number"@,
{
    lemma_fix_from_order(cues, None);
    ordered_timings_leave_only_duplicates(fix_from(cues, None).0);
}

/// Cues numbered one after another, from wherever the first one starts.
pub open spec fn numbered_in_sequence(cues: Seq<CueView>) -> bool {
    forall|i: int| 0 < i < cues.len() ==> (#[trigger] cues[i]).number == cues[i - 1].number + 1
}

/// `validate_numbering` reports nothing exactly when the cues are numbered
/// one after another.
pub proof fn numbering_issues_empty_iff_sequential(cues: Seq<CueView>)
    ensures
        numbering_issues(cues).len() == 0 <==> numbered_in_sequence(cues),
    decreases cues.len(),
{
    if cues.len() > 1 {
        let d = cues.drop_last();
        numbering_issues_empty_iff_sequential(d);
        let last = cues.len() - 1;
        assert(numbering_issues(cues) == numbering_issues(d) + numbering_issue(cues, last));
        if numbered_in_sequence(cues) {
            assert(numbered_in_sequence(d)) by {
                assert forall|i: int| 0 < i < d.len() implies (#[trigger] d[i]).number == d[i
                    - 1].number + 1 by {
                    assert(d[i] == cues[i]);
                    assert(d[i - 1] == cues[i - 1]);
                }
            }
            assert(cues[last].number == cues[last - 1].number + 1);
        }
        if numbering_issues(cues).len() == 0 {
            assert(numbering_issue(cues, last).len() == 0);
            assert forall|i: int| 0 < i < cues.len() implies (#[trigger] cues[i]).number == cues[i
                - 1].number + 1 by {
                if i < last {
                    assert(d[i] == cues[i]);
                    assert(d[i - 1] == cues[i - 1]);
                }
            }
        }
    }
}


/// Two cue lists with the same timings and text, cue by cue.
pub open spec fn same_timing_and_text(a: Seq<CueView>, b: Seq<CueView>) -> bool {
    a.len() == b.len() && forall|i: int|
        0 <= i < a.len() ==> (#[trigger] a[i]).start == b[i].start && a[i].end == b[i].end
            && a[i].text == b[i].text
}

/// What `format` writes depends only on the cues' timings and text: cue
/// numbers and identifiers never reach the output, which numbers cues from 1.
pub proof fn format_ignores_numbers_and_identifiers(a: Seq<CueView>, b: Seq<CueView>, sep: char)
    requires
        same_timing_and_text(a, b),
    ensures
        cues_text(a, sep) == cues_text(b, sep),
    decreases a.len(),
{
    if a.len() > 0 {
        let da = a.drop_last();
        let db = b.drop_last();
        assert(same_timing_and_text(da, db)) by {
            assert forall|i: int| 0 <= i < da.len() implies (#[trigger] da[i]).start == db[i].start
                && da[i].end == db[i].end && da[i].text == db[i].text by {
                assert(da[i] == a[i]);
                assert(db[i] == b[i]);
            }
        }
        format_ignores_numbers_and_identifiers(da, db, sep);
        let k = a.len() - 1;
        assert(a[k].start == b[k].start && a[k].end == b[k].end && a[k].text == b[k].text);
        assert(cue_text(a.len() as nat, a.last(), sep) == cue_text(b.len() as nat, b.last(), sep));
    }
}

} // verus!
