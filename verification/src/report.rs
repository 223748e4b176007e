//! What a run tells the user at its end: the summary and the exit code.

use crate::engine::Summary;
use crate::text;
use crate::verify::VerifyOutcome;
use vstd::prelude::*;

verus! {

/// Short phrase describing why fewer bytes were written than scanned.
pub open spec fn skip_text(skip_unchanged: bool, skip_zeros: bool) -> Seq<char> {
    match (skip_unchanged, skip_zeros) {
        (true, true) => "unchanged and zero blocks skipped"@,
        (true, false) => "rest already matched"@,
        (false, true) => "zero blocks left sparse"@,
        (false, false) => ""@,
    }
}

pub fn skip_reason(s: &Summary) -> (r: &'static str)
    ensures
        r@ == skip_text(s.skip_unchanged, s.skip_zeros),
{
    match (s.skip_unchanged, s.skip_zeros) {
        (true, true) => "unchanged and zero blocks skipped",
        (true, false) => "rest already matched",
        (false, true) => "zero blocks left sparse",
        (false, false) => "",
    }
}

pub open spec fn interrupted_text(s: Summary) -> Seq<char> {
    "Interrupted — "@ + text::human_bytes(s.bytes_done)
        + " copied so far. Resume with the same command (state: "@ + s.state_path@ + ")."@
}

/// What a refresh saved.
pub open spec fn savings_text(skipped: u64) -> Seq<char> {
    if skipped > 0 {
        text::human_bytes(skipped) + " unchanged per manifest"@
    } else {
        "target comparison"@
    }
}

pub open spec fn refreshed_text(s: Summary) -> Seq<char> {
    "Refreshed — scanned "@ + text::human_bytes(s.bytes_done_this_run) + " from "@ + s.source@
        + ", wrote "@ + text::human_bytes(s.bytes_written_this_run) + " to "@ + s.target@ + " ("@
        + savings_text(s.bytes_skipped_by_hash) + ")."@
}

pub open spec fn already_text(s: Summary) -> Seq<char> {
    "Already complete — "@ + text::human_bytes(s.bytes_done) + " in "@ + s.target@
        + "; nothing copied this run."@
}

pub open spec fn scanned_text(s: Summary) -> Seq<char> {
    "Done — scanned "@ + text::human_bytes(s.bytes_done) + " from "@ + s.source@ + ", wrote "@
        + text::human_bytes(s.bytes_written) + " to "@ + s.target@ + " ("@ + skip_text(
        s.skip_unchanged,
        s.skip_zeros,
    ) + ")."@
}

pub open spec fn copied_text(s: Summary) -> Seq<char> {
    "Done — copied "@ + text::human_bytes(s.bytes_done) + " from "@ + s.source@ + " to "@
        + s.target@ + "."@
}

pub open spec fn errors_text(s: Summary) -> Seq<char> {
    "Finished with errors — "@ + text::human_bytes(s.bytes_done) + " copied, "@
        + text::human_bytes(s.bad_bytes) + " unreadable in "@ + text::decimal(s.bad_regions as nat)
        + " bad region(s). Re-run to retry (state: "@ + s.state_path@ + ")."@
}

/// The copy half of the summary.
pub open spec fn copy_text(s: Summary) -> Seq<char> {
    if s.interrupted {
        interrupted_text(s)
    } else if !s.completed {
        errors_text(s)
    } else if s.refreshed {
        refreshed_text(s)
    } else if s.bytes_done_this_run == 0 && s.bytes_done > 0 {
        already_text(s)
    } else if s.skip_unchanged || s.skip_zeros {
        scanned_text(s)
    } else {
        copied_text(s)
    }
}

fn refreshed_summary(s: &Summary) -> (out: String)
    ensures
        out@ == refreshed_text(*s),
{
    let savings = if s.bytes_skipped_by_hash > 0 {
        let mut out = text::human_bytes_text(s.bytes_skipped_by_hash);
        out.append(" unchanged per manifest");
        out
    } else {
        "target comparison".to_owned()
    };
    let mut out = "Refreshed — scanned ".to_owned();
    out.append(text::human_bytes_text(s.bytes_done_this_run).as_str());
    out.append(" from ");
    out.append(s.source.as_str());
    out.append(", wrote ");
    out.append(text::human_bytes_text(s.bytes_written_this_run).as_str());
    out.append(" to ");
    out.append(s.target.as_str());
    out.append(" (");
    out.append(savings.as_str());
    out.append(").");
    out
}

fn scanned_summary(s: &Summary) -> (out: String)
    ensures
        out@ == scanned_text(*s),
{
    let mut out = "Done — scanned ".to_owned();
    out.append(text::human_bytes_text(s.bytes_done).as_str());
    out.append(" from ");
    out.append(s.source.as_str());
    out.append(", wrote ");
    out.append(text::human_bytes_text(s.bytes_written).as_str());
    out.append(" to ");
    out.append(s.target.as_str());
    out.append(" (");
    out.append(skip_reason(s));
    out.append(").");
    out
}

fn errors_summary(s: &Summary) -> (out: String)
    ensures
        out@ == errors_text(*s),
{
    let mut out = "Finished with errors — ".to_owned();
    out.append(text::human_bytes_text(s.bytes_done).as_str());
    out.append(" copied, ");
    out.append(text::human_bytes_text(s.bad_bytes).as_str());
    out.append(" unreadable in ");
    out.append(text::decimal_text(s.bad_regions as u64).as_str());
    out.append(" bad region(s). Re-run to retry (state: ");
    out.append(s.state_path.as_str());
    out.append(").");
    out
}

/// The copy half of the summary.
pub fn copy_summary(s: &Summary) -> (out: String)
    ensures
        out@ == copy_text(*s),
{
    if s.interrupted {
        let mut out = "Interrupted — ".to_owned();
        out.append(text::human_bytes_text(s.bytes_done).as_str());
        out.append(" copied so far. Resume with the same command (state: ");
        out.append(s.state_path.as_str());
        out.append(").");
        out
    } else if !s.completed {
        errors_summary(s)
    } else if s.refreshed {
        refreshed_summary(s)
    } else if s.bytes_done_this_run == 0 && s.bytes_done > 0 {
        let mut out = "Already complete — ".to_owned();
        out.append(text::human_bytes_text(s.bytes_done).as_str());
        out.append(" in ");
        out.append(s.target.as_str());
        out.append("; nothing copied this run.");
        out
    } else if s.skip_unchanged || s.skip_zeros {
        scanned_summary(s)
    } else {
        let mut out = "Done — copied ".to_owned();
        out.append(text::human_bytes_text(s.bytes_done).as_str());
        out.append(" from ");
        out.append(s.source.as_str());
        out.append(" to ");
        out.append(s.target.as_str());
        out.append(".");
        out
    }
}

/// A note on chunks without a digest.
pub open spec fn unhashed_text(n: u64) -> Seq<char> {
    if n > 0 {
        " ("@ + text::decimal(n as nat) + " chunk(s) have no digest and were skipped)"@
    } else {
        Seq::empty()
    }
}

/// The verify half of the summary.
pub open spec fn verify_text(v: VerifyOutcome) -> Seq<char> {
    if v.interrupted {
        "Verify interrupted — re-run with --verify to check again."@
    } else if v.mismatches@.len() == 0 {
        "Verified — "@ + text::human_bytes(v.bytes_verified) + " in "@ + text::decimal(
            v.chunks_checked as nat,
        ) + " chunk(s) match the manifest."@ + unhashed_text(v.chunks_unhashed)
    } else {
        "Verify FAILED — "@ + text::decimal(v.mismatches@.len()) + " of "@ + text::decimal(
            v.chunks_checked as nat,
        ) + " chunk(s) differ from the manifest (first at offset "@ + text::decimal(
            v.mismatches@[0] as nat,
        ) + ")."@ + unhashed_text(v.chunks_unhashed)
    }
}

/// The verify half of the summary, when a verify pass ran.
pub fn verify_summary(v: &VerifyOutcome) -> (out: String)
    ensures
        out@ == verify_text(*v),
{
    let unhashed = if v.chunks_unhashed > 0 {
        let mut out = " (".to_owned();
        out.append(text::decimal_text(v.chunks_unhashed).as_str());
        out.append(" chunk(s) have no digest and were skipped)");
        out
    } else {
        String::new()
    };
    if v.interrupted {
        "Verify interrupted — re-run with --verify to check again.".to_owned()
    } else if v.mismatches.len() == 0 {
        let mut out = "Verified — ".to_owned();
        out.append(text::human_bytes_text(v.bytes_verified).as_str());
        out.append(" in ");
        out.append(text::decimal_text(v.chunks_checked).as_str());
        out.append(" chunk(s) match the manifest.");
        out.append(unhashed.as_str());
        out
    } else {
        let mut out = "Verify FAILED — ".to_owned();
        out.append(text::decimal_text(v.mismatches.len() as u64).as_str());
        out.append(" of ");
        out.append(text::decimal_text(v.chunks_checked).as_str());
        out.append(" chunk(s) differ from the manifest (first at offset ");
        out.append(text::decimal_text(v.mismatches[0]).as_str());
        out.append(").");
        out.append(unhashed.as_str());
        out
    }
}

/// The one-word outcome in the machine-readable summary; mirrors the exit code.
pub fn status_label(s: &Summary) -> (r: &'static str)
    ensures
        r@ == (if s.completed {
            "completed"@
        } else if s.interrupted {
            "interrupted"@
        } else {
            "errors"@
        }),
{
    if s.completed {
        "completed"
    } else if s.interrupted {
        "interrupted"
    } else {
        "errors"
    }
}

/// The exit code of a run: 0 = fully done, 130 = interrupted (copy or verify),
/// 2 = finished with bad regions, 3 = the verify pass found mismatches.
pub open spec fn exit_code_of(s: Summary) -> u8 {
    if s.interrupted || (s.verify matches Some(v) && v.interrupted) {
        130
    } else if !s.completed {
        2
    } else if s.verify matches Some(v) && v.mismatches@.len() > 0 {
        3
    } else {
        0
    }
}

pub fn exit_code(s: &Summary) -> (r: u8)
    ensures
        r == exit_code_of(*s),
{
    let (paused, mismatched) = match &s.verify {
        Some(v) => (v.interrupted, v.mismatches.len() > 0),
        None => (false, false),
    };
    if s.interrupted || paused {
        130
    } else if !s.completed {
        2
    } else if mismatched {
        3
    } else {
        0
    }
}

/// A run exits with success exactly when it is complete and, where the target
/// was verified, the verify pass is ok.
pub proof fn law_success_means_complete_and_verified(s: Summary)
    requires
        s.completed ==> !s.interrupted,
    ensures
        exit_code_of(s) == 0 <==> s.completed && (s.verify matches Some(v) ==> v.mismatches@.len()
            == 0 && !v.interrupted),
{
}

/// The exit code tells the outcome: 130 for an interruption (of the copy or of the verify
/// pass), whatever else; then 2 for a copy that is not complete; then 3 for chunks that
/// differ; and 0 only where there is none of these.
pub proof fn law_exit_codes(s: Summary)
    ensures
        ({
            let code = exit_code_of(s);
            let paused = s.interrupted || (s.verify is Some && (s.verify->0).interrupted);
            let differs = s.verify is Some && (s.verify->0).mismatches@.len() > 0;
            &&& code == 130 <==> paused
            &&& code == 2 <==> !paused && !s.completed
            &&& code == 3 <==> !paused && s.completed && differs
            &&& code == 0 <==> !paused && s.completed && !differs
        }),
{
}

/// The summary of a copy tells what became of it: that it was interrupted and how to go on;
/// or what could not be read; or what was read and written, and where.
#[verifier::rlimit(40)]
pub proof fn law_copy_summary_tells(s: Summary)
    ensures
        ({
            let t = copy_text(s);
            let done = text::human_bytes(s.bytes_done);
            let complete = s.completed && !s.interrupted;
            let again = s.bytes_done_this_run == 0 && s.bytes_done > 0;
            let sparing = s.skip_unchanged || s.skip_zeros;
            &&& s.interrupted ==> text::begins(t, "Interrupted — "@) && text::tells(
                t,
                seq![done, s.state_path@],
            )
            &&& !s.interrupted && !s.completed ==> text::begins(t, "Finished with errors — "@)
                && text::tells(
                t,
                seq![
                    done,
                    text::human_bytes(s.bad_bytes),
                    text::decimal(s.bad_regions as nat),
                    s.state_path@,
                ],
            )
            &&& complete && s.refreshed ==> text::begins(t, "Refreshed — scanned "@)
                && text::tells(
                t,
                seq![
                    text::human_bytes(s.bytes_done_this_run),
                    s.source@,
                    text::human_bytes(s.bytes_written_this_run),
                    s.target@,
                    if s.bytes_skipped_by_hash > 0 {
                        text::human_bytes(s.bytes_skipped_by_hash)
                    } else {
                        "target comparison"@
                    },
                ],
            )
            &&& complete && !s.refreshed && again ==> text::begins(t, "Already complete — "@)
                && text::tells(t, seq![done, s.target@, "nothing copied this run"@])
            &&& complete && !s.refreshed && !again && sparing ==> text::begins(
                t,
                "Done — scanned "@,
            ) && text::tells(
                t,
                seq![done, s.source@, text::human_bytes(s.bytes_written), s.target@],
            )
            &&& complete && !s.refreshed && !again && !sparing ==> text::begins(
                t,
                "Done — copied "@,
            ) && text::tells(t, seq![done, s.source@, s.target@])
        }),
{
    let t = copy_text(s);
    let none = Seq::<char>::empty();
    let nothing = Seq::<Seq<char>>::empty();
    let done = text::human_bytes(s.bytes_done);
    assert(text::tells(none, nothing));
    if s.interrupted {
        let a = "Interrupted — "@;
        let b = " copied so far. Resume with the same command (state: "@;
        text::lemma_told(none, nothing, a, done, none);
        assert(none + a =~= a);
        text::lemma_told(a + done, nothing.push(done), b, s.state_path@, ")."@);
        assert(nothing.push(done).push(s.state_path@) =~= seq![done, s.state_path@]);
        assert(t.take(a.len() as int) =~= a);
    } else if !s.completed {
        let a = "Finished with errors — "@;
        let bad = text::human_bytes(s.bad_bytes);
        let regions = text::decimal(s.bad_regions as nat);
        text::lemma_told(none, nothing, a, done, none);
        assert(none + a =~= a);
        let p1 = nothing.push(done);
        let t1 = a + done;
        text::lemma_told(t1, p1, " copied, "@, bad, none);
        let p2 = p1.push(bad);
        let t2 = t1 + " copied, "@ + bad;
        text::lemma_told(t2, p2, " unreadable in "@, regions, none);
        let p3 = p2.push(regions);
        let t3 = t2 + " unreadable in "@ + regions;
        text::lemma_told(
            t3,
            p3,
            " bad region(s). Re-run to retry (state: "@,
            s.state_path@,
            ")."@,
        );
        assert(p3.push(s.state_path@) =~= seq![done, bad, regions, s.state_path@]);
        assert(t.take(a.len() as int) =~= a);
    } else if s.refreshed {
        let a = "Refreshed — scanned "@;
        let scanned = text::human_bytes(s.bytes_done_this_run);
        let wrote = text::human_bytes(s.bytes_written_this_run);
        text::lemma_told(none, nothing, a, scanned, none);
        assert(none + a =~= a);
        let p1 = nothing.push(scanned);
        let t1 = a + scanned;
        text::lemma_told(t1, p1, " from "@, s.source@, none);
        let p2 = p1.push(s.source@);
        let t2 = t1 + " from "@ + s.source@;
        text::lemma_told(t2, p2, ", wrote "@, wrote, none);
        let p3 = p2.push(wrote);
        let t3 = t2 + ", wrote "@ + wrote;
        text::lemma_told(t3, p3, " to "@, s.target@, none);
        let p4 = p3.push(s.target@);
        let t4 = t3 + " to "@ + s.target@;
        if s.bytes_skipped_by_hash > 0 {
            let saved = text::human_bytes(s.bytes_skipped_by_hash);
            let more = " unchanged per manifest"@;
            text::lemma_told(t4, p4, " ("@, saved, more + ")."@);
            assert(p4.push(saved) =~= seq![scanned, s.source@, wrote, s.target@, saved]);
            assert(t4 + " ("@ + saved + (more + ")."@) =~= t);
        } else {
            let how = "target comparison"@;
            text::lemma_told(t4, p4, " ("@, how, ")."@);
            assert(p4.push(how) =~= seq![scanned, s.source@, wrote, s.target@, how]);
        }
        assert(t.take(a.len() as int) =~= a);
    } else if s.bytes_done_this_run == 0 && s.bytes_done > 0 {
        let a = "Already complete — "@;
        let end = "; nothing copied this run."@;
        let said = "nothing copied this run"@;
        reveal_strlit("; nothing copied this run.");
        reveal_strlit("nothing copied this run");
        text::lemma_told(none, nothing, a, done, none);
        assert(none + a =~= a);
        let p1 = nothing.push(done);
        let t1 = a + done;
        text::lemma_told(t1, p1, " in "@, s.target@, none);
        let p2 = p1.push(s.target@);
        let t2 = t1 + " in "@ + s.target@;
        let colon = end.take(2);
        let dot = end.skip(end.len() - 1);
        text::lemma_told(t2, p2, colon, said, dot);
        assert(end =~= colon + said + dot);
        assert(t2 + colon + said + dot =~= t);
        assert(p2.push(said) =~= seq![done, s.target@, said]);
        assert(t.take(a.len() as int) =~= a);
    } else if s.skip_unchanged || s.skip_zeros {
        let a = "Done — scanned "@;
        let wrote = text::human_bytes(s.bytes_written);
        text::lemma_told(none, nothing, a, done, none);
        assert(none + a =~= a);
        let p1 = nothing.push(done);
        let t1 = a + done;
        text::lemma_told(t1, p1, " from "@, s.source@, none);
        let p2 = p1.push(s.source@);
        let t2 = t1 + " from "@ + s.source@;
        text::lemma_told(t2, p2, ", wrote "@, wrote, none);
        let p3 = p2.push(wrote);
        let t3 = t2 + ", wrote "@ + wrote;
        let why = skip_text(s.skip_unchanged, s.skip_zeros);
        text::lemma_told(t3, p3, " to "@, s.target@, " ("@ + why + ")."@);
        assert(t3 + " to "@ + s.target@ + (" ("@ + why + ")."@) =~= t);
        assert(p3.push(s.target@) =~= seq![done, s.source@, wrote, s.target@]);
        assert(t.take(a.len() as int) =~= a);
    } else {
        let a = "Done — copied "@;
        text::lemma_told(none, nothing, a, done, none);
        assert(none + a =~= a);
        let p1 = nothing.push(done);
        let t1 = a + done;
        text::lemma_told(t1, p1, " from "@, s.source@, none);
        let p2 = p1.push(s.source@);
        let t2 = t1 + " from "@ + s.source@;
        text::lemma_told(t2, p2, " to "@, s.target@, "."@);
        assert(p2.push(s.target@) =~= seq![done, s.source@, s.target@]);
        assert(t.take(a.len() as int) =~= a);
    }
}

/// The summary of a verify pass tells what it found: how much matches, or how many chunks
/// differ, of how many, and where the first one is; and how many had no digest.
#[verifier::rlimit(40)]
pub proof fn law_verify_summary_tells(v: VerifyOutcome)
    ensures
        ({
            let t = verify_text(v);
            let checked = text::decimal(v.chunks_checked as nat);
            let unhashed = text::decimal(v.chunks_unhashed as nat);
            let matched = seq![text::human_bytes(v.bytes_verified), checked];
            let differ = seq![
                text::decimal(v.mismatches@.len()),
                checked,
                text::decimal(v.mismatches@[0] as nat),
            ];
            &&& v.interrupted ==> t
                == "Verify interrupted — re-run with --verify to check again."@
            &&& !v.interrupted && v.mismatches@.len() == 0 ==> text::begins(t, "Verified — "@)
                && text::tells(t, matched) && (v.chunks_unhashed > 0 ==> text::tells(
                t,
                matched.push(unhashed),
            ))
            &&& !v.interrupted && v.mismatches@.len() > 0 ==> text::begins(
                t,
                "Verify FAILED — "@,
            ) && text::tells(t, differ) && (v.chunks_unhashed > 0 ==> text::tells(
                t,
                differ.push(unhashed),
            ))
        }),
{
    let t = verify_text(v);
    let none = Seq::<char>::empty();
    let nothing = Seq::<Seq<char>>::empty();
    let checked = text::decimal(v.chunks_checked as nat);
    let unhashed = text::decimal(v.chunks_unhashed as nat);
    let tail = unhashed_text(v.chunks_unhashed);
    assert(text::tells(none, nothing));
    if v.interrupted {
    } else if v.mismatches@.len() == 0 {
        let a = "Verified — "@;
        let bytes = text::human_bytes(v.bytes_verified);
        let matched = seq![bytes, checked];
        text::lemma_told(none, nothing, a, bytes, none);
        assert(none + a =~= a);
        let p1 = nothing.push(bytes);
        let t1 = a + bytes;
        let end = " chunk(s) match the manifest."@;
        text::lemma_told(t1, p1, " in "@, checked, end);
        assert(p1.push(checked) =~= matched);
        let t2 = t1 + " in "@ + checked + end;
        text::lemma_told(t2, matched, tail, none, none);
        if v.chunks_unhashed > 0 {
            let last = " chunk(s) have no digest and were skipped)"@;
            text::lemma_told(t2, matched, " ("@, unhashed, last);
            assert(t2 + " ("@ + unhashed + last =~= t2 + tail);
        }
        assert(t.take(a.len() as int) =~= a);
    } else {
        let a = "Verify FAILED — "@;
        let n = text::decimal(v.mismatches@.len());
        let first = text::decimal(v.mismatches@[0] as nat);
        let differ = seq![n, checked, first];
        text::lemma_told(none, nothing, a, n, none);
        assert(none + a =~= a);
        let p1 = nothing.push(n);
        let t1 = a + n;
        text::lemma_told(t1, p1, " of "@, checked, none);
        let p2 = p1.push(checked);
        let t2 = t1 + " of "@ + checked;
        let where_to = " chunk(s) differ from the manifest (first at offset "@;
        text::lemma_told(t2, p2, where_to, first, ")."@);
        assert(p2.push(first) =~= differ);
        let t3 = t2 + where_to + first + ")."@;
        text::lemma_told(t3, differ, tail, none, none);
        if v.chunks_unhashed > 0 {
            let last = " chunk(s) have no digest and were skipped)"@;
            text::lemma_told(t3, differ, " ("@, unhashed, last);
            assert(t3 + " ("@ + unhashed + last =~= t3 + tail);
        }
        assert(t.take(a.len() as int) =~= a);
    }
}

/// The reason given for writing less than was scanned is the mode the run was in.
pub proof fn law_reasons_go_with_the_modes(skip_unchanged: bool, skip_zeros: bool)
    ensures
        skip_text(false, false).len() == 0,
        skip_zeros ==> text::tells(skip_text(skip_unchanged, skip_zeros), seq!["zero blocks"@]),
        skip_unchanged && skip_zeros ==> text::begins(skip_text(true, true), "unchanged"@),
        skip_unchanged && !skip_zeros ==> skip_text(true, false) == "rest already matched"@,
{
    reveal_strlit("");
    let none = Seq::<char>::empty();
    let nothing = Seq::<Seq<char>>::empty();
    let zero = "zero blocks"@;
    let both = "unchanged and zero blocks skipped"@;
    let one = "zero blocks left sparse"@;
    lemma_reasons();
    assert(text::tells(none, nothing));
    assert(nothing.push(zero) =~= seq![zero]);
    text::lemma_told(none, nothing, both.take(14), zero, both.skip(25));
    assert(none + both.take(14) =~= both.take(14));
    text::lemma_told(none, nothing, none, zero, one.skip(11));
    assert(none + none + zero =~= zero);
}

proof fn lemma_reasons()
    ensures
        ({
            let both = "unchanged and zero blocks skipped"@;
            let one = "zero blocks left sparse"@;
            &&& both == both.take(14) + "zero blocks"@ + both.skip(25)
            &&& text::begins(both, "unchanged"@)
            &&& one == "zero blocks"@ + one.skip(11)
        }),
{
    reveal_strlit("zero blocks");
    reveal_strlit("unchanged");
    reveal_strlit("unchanged and zero blocks skipped");
    reveal_strlit("zero blocks left sparse");
    let both = "unchanged and zero blocks skipped"@;
    let one = "zero blocks left sparse"@;
    assert(both =~= both.take(14) + "zero blocks"@ + both.skip(25));
    assert(both.take(9) =~= "unchanged"@);
    assert(one =~= "zero blocks"@ + one.skip(11));
}

} // verus!
