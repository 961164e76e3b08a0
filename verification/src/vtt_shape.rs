//! What every cue that WebVTT parsing gives looks like, whatever the input.

use vstd::prelude::*;
use crate::laws::{numbered_in_sequence, numbering_issues_empty_iff_sequential};
use crate::srt::{
    cue_issues, is_blank, lemma_next_blank, note, numbering_issues, text_lines, validation_issues,
    CueView,
};
use crate::text::{is_ws, trim_end, trim_start};
use crate::vtt::{lemma_vtt_block, vtt_block, vtt_blocks, vtt_parse, vtt_timing};

verus! {

/// A line with no trailing whitespace that is not blank.
pub open spec fn clean_line(l: Seq<char>) -> bool {
    trim_end(l) == l && !is_blank(l)
}

/// A cue whose timecodes are in range and whose text lines are all clean.
pub open spec fn well_read_cue(c: CueView) -> bool {
    &&& c.start.is_canonical()
    &&& c.end.is_canonical()
    &&& forall|j: int| 0 <= j < c.text.len() ==> clean_line(#[trigger] c.text[j])
}

/// Whether every character of `s` is whitespace.
pub open spec fn all_ws(s: Seq<char>) -> bool {
    forall|i: int| 0 <= i < s.len() ==> is_ws(#[trigger] s[i])
}

proof fn lemma_trim_end_empty(s: Seq<char>)
    ensures
        trim_end(s).len() == 0 <==> all_ws(s),
    decreases s.len(),
{
    if s.len() > 0 {
        let d = s.drop_last();
        lemma_trim_end_empty(d);
        if is_ws(s.last()) {
            if all_ws(d) {
                assert forall|i: int| 0 <= i < s.len() implies is_ws(#[trigger] s[i]) by {
                    if i < d.len() {
                        assert(s[i] == d[i]);
                    }
                }
            }
            if all_ws(s) {
                assert forall|i: int| 0 <= i < d.len() implies is_ws(#[trigger] d[i]) by {
                    assert(s[i] == d[i]);
                }
            }
        } else {
            assert(!is_ws(s[s.len() - 1]));
        }
    }
}

proof fn lemma_trim_start_all_ws(s: Seq<char>)
    ensures
        all_ws(trim_start(s)) <==> all_ws(s),
    decreases s.len(),
{
    if s.len() > 0 && is_ws(s[0]) {
        let d = s.drop_first();
        lemma_trim_start_all_ws(d);
        if all_ws(d) {
            assert forall|i: int| 0 <= i < s.len() implies is_ws(#[trigger] s[i]) by {
                if i > 0 {
                    assert(s[i] == d[i - 1]);
                }
            }
        }
        if all_ws(s) {
            assert forall|i: int| 0 <= i < d.len() implies is_ws(#[trigger] d[i]) by {
                assert(d[i] == s[i + 1]);
            }
        }
    }
}

/// A line is blank exactly when all its characters are whitespace.
proof fn lemma_blank_iff_all_ws(s: Seq<char>)
    ensures
        is_blank(s) <==> all_ws(s),
{
    lemma_trim_end_empty(trim_start(s));
    lemma_trim_start_all_ws(s);
}

proof fn lemma_trim_end_idempotent(s: Seq<char>)
    ensures
        trim_end(trim_end(s)) == trim_end(s),
    decreases s.len(),
{
    if s.len() > 0 && is_ws(s.last()) {
        lemma_trim_end_idempotent(s.drop_last());
    }
}

proof fn lemma_trim_end_all_ws(s: Seq<char>)
    requires
        all_ws(trim_end(s)),
    ensures
        all_ws(s),
    decreases s.len(),
{
    if s.len() > 0 && is_ws(s.last()) {
        let d = s.drop_last();
        lemma_trim_end_all_ws(d);
        assert forall|i: int| 0 <= i < s.len() implies is_ws(#[trigger] s[i]) by {
            if i < d.len() {
                assert(s[i] == d[i]);
            }
        }
    }
}

/// A line that is not blank, with its trailing whitespace cut, is clean.
proof fn lemma_trimmed_line_clean(l: Seq<char>)
    requires
        !is_blank(l),
    ensures
        clean_line(trim_end(l)),
{
    lemma_trim_end_idempotent(l);
    lemma_blank_iff_all_ws(l);
    lemma_blank_iff_all_ws(trim_end(l));
    if all_ws(trim_end(l)) {
        lemma_trim_end_all_ws(l);
    }
}

proof fn lemma_text_lines_clean(lines: Seq<Seq<char>>, from: int)
    requires
        0 <= from <= lines.len(),
    ensures
        forall|j: int|
            0 <= j < text_lines(lines, from).len() ==> clean_line(#[trigger] text_lines(lines, from)[j]),
{
    lemma_next_blank(lines, from);
    let t = text_lines(lines, from);
    assert forall|j: int| 0 <= j < t.len() implies clean_line(#[trigger] t[j]) by {
        assert(t[j] == trim_end(lines[from + j]));
        assert(!is_blank(lines[from + j]));
        lemma_trimmed_line_clean(lines[from + j]);
    }
}

proof fn lemma_vtt_block_shape(lines: Seq<Seq<char>>, i: int, number: nat)
    requires
        0 <= i < lines.len(),
    ensures
        vtt_block(lines, i, number).cues.len() == 1 ==> well_read_cue(
            vtt_block(lines, i, number).cues[0],
        ),
{
    reveal(vtt_block);
    reveal(vtt_timing);
    lemma_text_lines_clean(lines, i + 1);
    if i + 2 <= lines.len() {
        lemma_text_lines_clean(lines, i + 2);
    }
}

proof fn lemma_vtt_blocks_shape(lines: Seq<Seq<char>>, i: int, number: nat)
    ensures
        forall|k: int|
            0 <= k < vtt_blocks(lines, i, number).0.len() ==> (#[trigger] vtt_blocks(
                lines,
                i,
                number,
            ).0[k]).number == (number + k) as u32 && well_read_cue(vtt_blocks(lines, i, number).0[k]),
    decreases lines.len() - i,
{
    if 0 <= i < lines.len() {
        let step = vtt_block(lines, i, number);
        lemma_vtt_block(lines, i, number);
        lemma_vtt_block_shape(lines, i, number);
        let all = vtt_blocks(lines, i, number).0;
        if step.stop {
            assert(all == step.cues);
        } else {
            let m = number + step.cues.len();
            lemma_vtt_blocks_shape(lines, step.next, m);
            let rest = vtt_blocks(lines, step.next, m).0;
            assert(all == step.cues + rest);
            assert forall|k: int| 0 <= k < all.len() implies (#[trigger] all[k]).number == (number
                + k) as u32 && well_read_cue(all[k]) by {
                if k < step.cues.len() {
                    assert(all[k] == step.cues[k]);
                } else {
                    assert(all[k] == rest[k - step.cues.len()]);
                    assert(m + (k - step.cues.len()) == number + k);
                }
            }
        }
    }
}

/// Every cue that WebVTT parsing gives, from any input, is numbered by its
/// position from 1, has its timecodes in range (minutes and seconds below 60,
/// milliseconds below 1000), and has text lines that are neither blank nor
/// end in whitespace.
pub proof fn vtt_parse_shape(input: Seq<char>)
    ensures
        forall|k: int|
            0 <= k < vtt_parse(input).0.len() ==> (#[trigger] vtt_parse(input).0[k]).number == (k
                + 1) as u32 && well_read_cue(vtt_parse(input).0[k]),
{
    let lines = crate::srt::input_lines(input);
    let h = crate::vtt::first_nonblank(lines, 0);
    lemma_vtt_blocks_shape(lines, h + 1, 1);
}

/// Cues whose numbers are all different.
pub open spec fn distinct_numbers(cues: Seq<CueView>) -> bool {
    forall|i: int, j: int|
        0 <= i < j < cues.len() ==> (#[trigger] cues[i]).number != (#[trigger] cues[j]).number
}

proof fn lemma_distinct_no_duplicate_issue(cues: Seq<CueView>)
    requires
        distinct_numbers(cues),
    ensures
        forall|k: int|
            0 <= k < validation_issues(cues).len() ==> (#[trigger] validation_issues(cues)[k]).message
                != "duplicate cue number"@,
    decreases cues.len(),
{
    reveal_strlit("duplicate cue number");
    reveal_strlit("start time is not before end time");
    reveal_strlit("starts before the previous cue ends");
    if cues.len() > 0 {
        let d = cues.drop_last();
        assert(distinct_numbers(d)) by {
            assert forall|i: int, j: int| 0 <= i < j < d.len() implies (#[trigger] d[i]).number
                != (#[trigger] d[j]).number by {
                assert(d[i] == cues[i]);
                assert(d[j] == cues[j]);
            }
        }
        lemma_distinct_no_duplicate_issue(d);
        let last = cues.len() - 1;
        assert(!exists|j: int| 0 <= j < last && #[trigger] cues[j].number == cues[last].number);
        let tail = cue_issues(cues, last);
        let c = cues[last];
        let p1 = if c.start.total_millis() >= c.end.total_millis() {
            seq![note(c.number, "start time is not before end time"@)]
        } else {
            seq![]
        };
        let p2 = if last > 0 && c.start.total_millis() < cues[last - 1].end.total_millis() {
            seq![note(c.number, "starts before the previous cue ends"@)]
        } else {
            seq![]
        };
        assert(tail == p1 + p2);
        assert("start time is not before end time"@.len() != "duplicate cue number"@.len());
        assert("starts before the previous cue ends"@.len() != "duplicate cue number"@.len());
        assert forall|k: int| 0 <= k < tail.len() implies (#[trigger] tail[k]).message
            != "duplicate cue number"@ by {
            if k < p1.len() {
                assert(tail[k] == p1[k]);
            } else {
                assert(tail[k] == p2[k - p1.len()]);
            }
        }
        let all = validation_issues(cues);
        assert(all == validation_issues(d) + tail);
        assert forall|k: int| 0 <= k < all.len() implies (#[trigger] all[k]).message
            != "duplicate cue number"@ by {
            if k < validation_issues(d).len() {
                assert(all[k] == validation_issues(d)[k]);
            } else {
                assert(all[k] == tail[k - validation_issues(d).len()]);
            }
        }
    }
}

/// The cues of a WebVTT file with fewer than `u32::MAX` cues are numbered
/// one after another, none twice: `validate_numbering` reports nothing on
/// them, and `validate` reports no duplicate cue number.
pub proof fn vtt_parse_numbering_is_clean(input: Seq<char>)
    requires
        vtt_parse(input).0.len() < u32::MAX,
    ensures
        numbering_issues(vtt_parse(input).0).len() == 0,
        forall|k: int|
            0 <= k < validation_issues(vtt_parse(input).0).len() ==> (#[trigger] validation_issues(
                vtt_parse(input).0,
            )[k]).message != "duplicate cue number"@,
{
    let cues = vtt_parse(input).0;
    vtt_parse_shape(input);
    assert forall|k: int| 0 <= k < cues.len() implies (#[trigger] cues[k]).number == k + 1 by {
        assert(cues[k].number == (k + 1) as u32);
    }
    assert(numbered_in_sequence(cues)) by {
        assert forall|i: int| 0 < i < cues.len() implies (#[trigger] cues[i]).number == cues[i
            - 1].number + 1 by {
            assert(cues[i].number == i + 1);
            assert(cues[i - 1].number == i);
        }
    }
    numbering_issues_empty_iff_sequential(cues);
    assert(distinct_numbers(cues)) by {
        assert forall|i: int, j: int| 0 <= i < j < cues.len() implies (#[trigger] cues[i]).number
            != (#[trigger] cues[j]).number by {
            assert(cues[i].number == i + 1);
            assert(cues[j].number == j + 1);
        }
    }
    lemma_distinct_no_duplicate_issue(cues);
}

} // verus!
