//! What the reports list, stated position by position: every JSON row and
//! its separator, every repeated cue number, every numbering gap.

use vstd::prelude::*;
use crate::report::{json_rows, rows_with_commas};
use crate::srt::{
    cue_issues, note, numbering_issue, numbering_issues, validation_issues, CueView, NoteView,
};
use crate::text::decimal;

verus! {

proof fn lemma_filter_empty<A>(p: spec_fn(A) -> bool)
    ensures
        Seq::<A>::empty().filter(p) == Seq::<A>::empty(),
{
    reveal(Seq::filter);
}

proof fn lemma_filter_add<A>(a: Seq<A>, b: Seq<A>, p: spec_fn(A) -> bool)
    ensures
        (a + b).filter(p) == a.filter(p) + b.filter(p),
    decreases b.len(),
{
    if b.len() == 0 {
        assert(a + b =~= a);
        lemma_filter_empty(p);
        assert(b =~= Seq::<A>::empty());
        assert(a.filter(p) + b.filter(p) =~= a.filter(p));
    } else {
        let d = b.drop_last();
        lemma_filter_add(a, d, p);
        assert(a + b =~= (a + d).push(b.last()));
        assert(b =~= d.push(b.last()));
        (a + d).lemma_filter_push(b.last(), p);
        d.lemma_filter_push(b.last(), p);
        if p(b.last()) {
            assert((a.filter(p) + d.filter(p)).push(b.last()) =~= a.filter(p) + d.filter(p).push(
                b.last(),
            ));
        }
    }
}

proof fn lemma_filter_single<A>(x: A, p: spec_fn(A) -> bool)
    ensures
        seq![x].filter(p) == if p(x) {
            seq![x]
        } else {
            Seq::<A>::empty()
        },
{
    lemma_filter_empty(p);
    assert(seq![x] =~= Seq::<A>::empty().push(x));
    Seq::<A>::empty().lemma_filter_push(x, p);
    assert(Seq::<A>::empty().push(x) =~= seq![x]);
}

// ---- JSON rows ----

/// Row `k` of a JSON array as printed: indented by four spaces, followed by
/// a comma unless it is the last row, then a newline.
pub open spec fn json_row_line(rows: Seq<Seq<char>>, k: int) -> Seq<char> {
    "    "@ + rows[k] + if k + 1 < rows.len() {
        ",\n"@
    } else {
        "\n"@
    }
}

/// The printed line of every row, in order.
pub open spec fn json_lines(rows: Seq<Seq<char>>) -> Seq<Seq<char>> {
    Seq::new(rows.len(), |k: int| json_row_line(rows, k))
}

/// The first `m` rows, each followed by a comma.
pub open spec fn comma_lines(rows: Seq<Seq<char>>, m: int) -> Seq<Seq<char>> {
    Seq::new(m as nat, |k: int| "    "@ + rows[k] + ",\n"@)
}

proof fn lemma_rows_with_commas_prefix(rows: Seq<Seq<char>>, m: int)
    requires
        0 <= m <= rows.len(),
    ensures
        rows_with_commas(rows.take(m)) == comma_lines(rows, m).flatten(),
    decreases m,
{
    if m == 0 {
        assert(comma_lines(rows, 0) =~= Seq::<Seq<char>>::empty());
        assert(rows.take(0) =~= Seq::<Seq<char>>::empty());
    } else {
        lemma_rows_with_commas_prefix(rows, m - 1);
        assert(rows.take(m).drop_last() =~= rows.take(m - 1));
        assert(rows.take(m).last() == rows[m - 1]);
        let line = "    "@ + rows[m - 1] + ",\n"@;
        assert(comma_lines(rows, m) =~= comma_lines(rows, m - 1).push(line));
        comma_lines(rows, m - 1).lemma_flatten_push(line);
    }
}

/// A JSON array body printed by the reports (the `cues`, `fixes`, `errors`
/// and `issues` arrays of `format --json` and `validate --json`) is every
/// row on its own line, in order, with a comma after each row but the last:
/// valid JSON for any number of rows.
pub proof fn json_rows_put_commas_between_rows(rows: Seq<Seq<char>>)
    ensures
        json_rows(rows) == json_lines(rows).flatten(),
{
    let n = rows.len() as int;
    let all = json_lines(rows);
    if n == 0 {
        assert(all =~= Seq::<Seq<char>>::empty());
    } else {
        lemma_rows_with_commas_prefix(rows, n - 1);
        assert(rows.drop_last() =~= rows.take(n - 1));
        assert(all.drop_last() =~= comma_lines(rows, n - 1));
        assert(all =~= all.drop_last().push(json_row_line(rows, n - 1)));
        all.drop_last().lemma_flatten_push(json_row_line(rows, n - 1));
    }
}

// ---- the issues of `validate` ----

/// Whether cue `i` repeats the number of some earlier cue, however far back.
pub open spec fn repeats_earlier(cues: Seq<CueView>, i: int) -> bool {
    exists|j: int| 0 <= j < i && #[trigger] cues[j].number == cues[i].number
}

/// Whether `validate` should report cue `i` with the message `msg`: an end
/// not after the start, a start before the previous cue's end, or a number
/// some earlier cue already had. No other message is ever reported.
pub open spec fn flagged(cues: Seq<CueView>, i: int, msg: Seq<char>) -> bool {
    if msg == "start time is not before end time"@ {
        cues[i].start.total_millis() >= cues[i].end.total_millis()
    } else if msg == "starts before the previous cue ends"@ {
        i > 0 && cues[i].start.total_millis() < cues[i - 1].end.total_millis()
    } else if msg == "duplicate cue number"@ {
        repeats_earlier(cues, i)
    } else {
        false
    }
}

/// `flagged`, as a predicate on positions.
pub open spec fn flagged_pred(cues: Seq<CueView>, msg: Seq<char>) -> spec_fn(int) -> bool {
    |i: int| flagged(cues, i, msg)
}

/// The positions `0, 1, .., m - 1`.
pub open spec fn all_positions(m: int) -> Seq<int> {
    Seq::new(m as nat, |k: int| k)
}

/// The positions below `m` of the cues flagged with `msg`.
pub open spec fn flagged_positions(cues: Seq<CueView>, m: int, msg: Seq<char>) -> Seq<int> {
    all_positions(m).filter(flagged_pred(cues, msg))
}

/// The notes with `msg` for the cues at `positions`.
pub open spec fn notes_at(cues: Seq<CueView>, positions: Seq<int>, msg: Seq<char>) -> Seq<NoteView> {
    positions.map_values(|i: int| note(cues[i].number, msg))
}

/// Whether a note carries the message `msg`.
pub open spec fn message_pred(msg: Seq<char>) -> spec_fn(NoteView) -> bool {
    |n: NoteView| n.message == msg
}

/// The notes among `issues` that carry `msg`, in order.
pub open spec fn notes_with(issues: Seq<NoteView>, msg: Seq<char>) -> Seq<NoteView> {
    issues.filter(message_pred(msg))
}

proof fn lemma_one_note(x: NoteView, msg: Seq<char>, keep: bool)
    requires
        keep == (x.message == msg),
    ensures
        notes_with(seq![x], msg) == if keep {
            seq![x]
        } else {
            Seq::<NoteView>::empty()
        },
{
    lemma_filter_single(x, message_pred(msg));
}

proof fn lemma_flagged_prefix(cues: Seq<CueView>, m: int, msg: Seq<char>)
    requires
        0 <= m <= cues.len(),
    ensures
        notes_with(validation_issues(cues.take(m)), msg) == notes_at(
            cues,
            flagged_positions(cues, m, msg),
            msg,
        ),
    decreases m,
{
    reveal_strlit("duplicate cue number");
    reveal_strlit("start time is not before end time");
    reveal_strlit("starts before the previous cue ends");
    let bad = "start time is not before end time"@;
    let overlap = "starts before the previous cue ends"@;
    let dup = "duplicate cue number"@;
    assert(bad.len() != dup.len() && overlap.len() != dup.len() && bad.len() != overlap.len());
    let p = message_pred(msg);
    lemma_filter_empty(p);
    if m == 0 {
        assert(cues.take(0) =~= Seq::<CueView>::empty());
        assert(validation_issues(cues.take(0)) =~= Seq::<NoteView>::empty());
        assert(all_positions(0) =~= Seq::<int>::empty());
        lemma_filter_empty(flagged_pred(cues, msg));
        assert(notes_at(cues, flagged_positions(cues, 0, msg), msg) =~= Seq::<NoteView>::empty());
    } else {
        lemma_flagged_prefix(cues, m - 1, msg);
        let t = cues.take(m);
        let i = m - 1;
        assert(t.drop_last() =~= cues.take(m - 1));
        let c = t[i];
        assert(c == cues[i]);
        if i > 0 {
            assert(t[i - 1] == cues[i - 1]);
        }
        let c1 = c.start.total_millis() >= c.end.total_millis();
        let c2 = i > 0 && c.start.total_millis() < t[i - 1].end.total_millis();
        let c3 = exists|j: int| 0 <= j < i && #[trigger] t[j].number == c.number;
        let p1 = if c1 {
            seq![note(c.number, bad)]
        } else {
            seq![]
        };
        let p2 = if c2 {
            seq![note(c.number, overlap)]
        } else {
            seq![]
        };
        let p3 = if c3 {
            seq![note(c.number, dup)]
        } else {
            seq![]
        };
        let tail = cue_issues(t, i);
        assert(tail == p1 + p2 + p3);
        assert(validation_issues(t) == validation_issues(cues.take(m - 1)) + tail);
        assert(c3 == repeats_earlier(cues, i)) by {
            if c3 {
                let j = choose|j: int| 0 <= j < i && #[trigger] t[j].number == c.number;
                assert(t[j] == cues[j]);
            }
            if repeats_earlier(cues, i) {
                let j = choose|j: int| 0 <= j < i && #[trigger] cues[j].number == cues[i].number;
                assert(t[j] == cues[j]);
            }
        }
        lemma_filter_add(validation_issues(cues.take(m - 1)), tail, p);
        lemma_filter_add(p1 + p2, p3, p);
        lemma_filter_add(p1, p2, p);
        lemma_one_note(note(c.number, bad), msg, msg == bad);
        lemma_one_note(note(c.number, overlap), msg, msg == overlap);
        lemma_one_note(note(c.number, dup), msg, msg == dup);
        let kept = if flagged(cues, i, msg) {
            seq![note(c.number, msg)]
        } else {
            Seq::<NoteView>::empty()
        };
        assert(notes_with(tail, msg) =~= kept);
        assert(all_positions(m) =~= all_positions(m - 1).push(i));
        all_positions(m - 1).lemma_filter_push(i, flagged_pred(cues, msg));
        let before = flagged_positions(cues, m - 1, msg);
        assert(notes_at(cues, flagged_positions(cues, m, msg), msg) =~= notes_at(cues, before, msg)
            + kept);
    }
}

/// `validate` reports each kind of issue for exactly the cues that have it,
/// in cue order: "start time is not before end time" for every cue whose end
/// is not after its start, "starts before the previous cue ends" for every
/// cue that starts before the cue just before it ends, and "duplicate cue
/// number" for every cue whose number some earlier cue already had, however
/// far back. It reports no other message.
pub proof fn validate_reports_exactly_the_flagged_cues(cues: Seq<CueView>, msg: Seq<char>)
    ensures
        notes_with(validation_issues(cues), msg) == notes_at(
            cues,
            flagged_positions(cues, cues.len() as int, msg),
            msg,
        ),
{
    lemma_flagged_prefix(cues, cues.len() as int, msg);
    assert(cues.take(cues.len() as int) =~= cues);
}

// ---- numbering gaps ----

/// Whether cue `i` is not numbered one more than the cue just before it.
pub open spec fn gap_at(cues: Seq<CueView>, i: int) -> bool {
    cues[i].number as nat != cues[i - 1].number as nat + 1
}

/// `gap_at`, as a predicate on positions.
pub open spec fn gap_pred(cues: Seq<CueView>) -> spec_fn(int) -> bool {
    |i: int| gap_at(cues, i)
}

/// The positions `1, 2, .., m - 1`: every cue below `m` but the first.
pub open spec fn later_positions(m: int) -> Seq<int> {
    Seq::new(if m > 1 {
        (m - 1) as nat
    } else {
        0
    }, |k: int| k + 1)
}

/// The positions below `m` of the cues that break the numbering.
pub open spec fn gap_positions(cues: Seq<CueView>, m: int) -> Seq<int> {
    later_positions(m).filter(gap_pred(cues))
}

/// The note `validate_numbering` gives cue `i`: the number it expected, one
/// more than the number of the cue before, and the number it found.
pub open spec fn gap_note(cues: Seq<CueView>, i: int) -> NoteView {
    note(
        cues[i].number,
        "numbering gap: expected "@ + decimal(cues[i - 1].number as nat + 1) + ", found "@
            + decimal(cues[i].number as nat),
    )
}

/// The notes for the cues at `positions`.
pub open spec fn gap_notes(cues: Seq<CueView>, positions: Seq<int>) -> Seq<NoteView> {
    positions.map_values(|i: int| gap_note(cues, i))
}

proof fn lemma_gaps_prefix(cues: Seq<CueView>, m: int)
    requires
        0 <= m <= cues.len(),
    ensures
        numbering_issues(cues.take(m)) == gap_notes(cues, gap_positions(cues, m)),
    decreases m,
{
    if m <= 1 {
        assert(later_positions(m) =~= Seq::<int>::empty());
        lemma_filter_empty(gap_pred(cues));
        assert(gap_notes(cues, gap_positions(cues, m)) =~= Seq::<NoteView>::empty());
    } else {
        lemma_gaps_prefix(cues, m - 1);
        let t = cues.take(m);
        let i = m - 1;
        assert(t.drop_last() =~= cues.take(m - 1));
        assert(t[i] == cues[i]);
        assert(t[i - 1] == cues[i - 1]);
        assert(numbering_issues(t) == numbering_issues(cues.take(m - 1)) + numbering_issue(t, i));
        assert(later_positions(m) =~= later_positions(m - 1).push(i));
        later_positions(m - 1).lemma_filter_push(i, gap_pred(cues));
        let before = gap_positions(cues, m - 1);
        if gap_at(cues, i) {
            assert(numbering_issue(t, i) == seq![gap_note(cues, i)]);
            assert(gap_notes(cues, before.push(i)) =~= gap_notes(cues, before) + seq![
                gap_note(cues, i),
            ]);
        } else {
            assert(numbering_issue(t, i) =~= Seq::<NoteView>::empty());
            assert(gap_notes(cues, before) + Seq::<NoteView>::empty() =~= gap_notes(cues, before));
        }
    }
}

/// `validate_numbering` reports, in cue order, a gap for every cue after the
/// first whose number is not one more than the number of the cue just before
/// it, whatever gaps came earlier, and nothing else.
pub proof fn numbering_reports_every_gap(cues: Seq<CueView>)
    ensures
        numbering_issues(cues) == gap_notes(cues, gap_positions(cues, cues.len() as int)),
        numbering_issues(cues).len() == gap_positions(cues, cues.len() as int).len(),
{
    lemma_gaps_prefix(cues, cues.len() as int);
    assert(cues.take(cues.len() as int) =~= cues);
}

} // verus!
