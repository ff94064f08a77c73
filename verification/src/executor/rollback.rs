//! Recovery of an operation interrupted part-way, read from its journal
//! events.

use vstd::prelude::*;
use crate::persistence::log::LogEvent;
use crate::executor::verify::{verification_message, VerificationError};
use crate::text::{chars_eq, chars_eq_str, chars_of};
use crate::utils::human_size::{decimal, decimal_chars};

verus! {

/// What an interrupted operation needs: remove a partial destination,
/// check the copy again (and then remove the source), finish re-pointing
/// its links, nothing because it completed, or nothing because it never
/// started.
#[derive(Debug, Clone, PartialEq, Eq)]
pub enum RecoveryAction {
    CleanIncompleteDest { dst: String },
    Reverify { src: String, dst: String },
    ResumeSymlinkUpdate { src: String, dst: String, symlinks: Vec<String> },
    AlreadyCompleted,
    NoAction,
}

/// Whether some event has phase `p`.
pub open spec fn has_phase(events: Seq<LogEvent>, p: Seq<char>) -> bool {
    exists|i: int| 0 <= i < events.len() && #[trigger] events[i].phase@ == p
}

/// The source of the last `copy_start` event that names one (empty if none).
pub open spec fn started_src(events: Seq<LogEvent>) -> Seq<char>
    decreases events.len(),
{
    if events.len() == 0 {
        Seq::empty()
    } else if events.last().phase@ == "copy_start"@ && events.last().src is Some {
        events.last().src.unwrap()@
    } else {
        started_src(events.drop_last())
    }
}

/// The destination of the last `copy_start` event that names one (empty if
/// none).
pub open spec fn started_dst(events: Seq<LogEvent>) -> Seq<char>
    decreases events.len(),
{
    if events.len() == 0 {
        Seq::empty()
    } else if events.last().phase@ == "copy_start"@ && events.last().dst is Some {
        events.last().dst.unwrap()@
    } else {
        started_dst(events.drop_last())
    }
}

/// The links named by the `symlink_update` events, in order.
pub open spec fn updated_links(events: Seq<LogEvent>) -> Seq<Seq<char>>
    decreases events.len(),
{
    if events.len() == 0 {
        Seq::empty()
    } else if events.last().phase@ == "symlink_update"@ && events.last().path is Some {
        updated_links(events.drop_last()).push(events.last().path.unwrap()@)
    } else {
        updated_links(events.drop_last())
    }
}

/// Whether `r` is the recovery of an operation with journal `events`: the
/// furthest phase reached decides (`complete`, then `delete_original`, then
/// `verify_ok` or `copy_done`, then `copy_start`).
pub open spec fn recovery_of(r: RecoveryAction, events: Seq<LogEvent>) -> bool {
    let src = started_src(events);
    let dst = started_dst(events);
    if has_phase(events, "complete"@) {
        r is AlreadyCompleted
    } else if has_phase(events, "delete_original"@) {
        r matches RecoveryAction::ResumeSymlinkUpdate { src: s, dst: d, symlinks: l }
            && s@ == src && d@ == dst && l@.map_values(|x: String| x@) == updated_links(events)
    } else if has_phase(events, "verify_ok"@) || has_phase(events, "copy_done"@) {
        r matches RecoveryAction::Reverify { src: s, dst: d } && s@ == src && d@ == dst
    } else if has_phase(events, "copy_start"@) {
        r matches RecoveryAction::CleanIncompleteDest { dst: d } && d@ == dst
    } else {
        r is NoAction
    }
}

proof fn lemma_phases_distinct()
    ensures
        "copy_start"@ != "copy_done"@,
        "copy_start"@ != "verify_ok"@,
        "copy_start"@ != "delete_original"@,
        "copy_start"@ != "symlink_update"@,
        "copy_start"@ != "complete"@,
        "copy_done"@ != "verify_ok"@,
        "copy_done"@ != "delete_original"@,
        "copy_done"@ != "symlink_update"@,
        "copy_done"@ != "complete"@,
        "verify_ok"@ != "delete_original"@,
        "verify_ok"@ != "symlink_update"@,
        "verify_ok"@ != "complete"@,
        "delete_original"@ != "symlink_update"@,
        "delete_original"@ != "complete"@,
        "symlink_update"@ != "complete"@,
{
    reveal_strlit("copy_start");
    reveal_strlit("copy_done");
    reveal_strlit("verify_ok");
    reveal_strlit("delete_original");
    reveal_strlit("symlink_update");
    reveal_strlit("complete");
    assert("copy_start"@.len() == 10);
    assert("copy_done"@.len() == 9);
    assert("verify_ok"@.len() == 9);
    assert("delete_original"@.len() == 15);
    assert("symlink_update"@.len() == 14);
    assert("complete"@.len() == 8);
    assert("copy_done"@[0] != "verify_ok"@[0]);
}

/// Whether the journal holds an event of phase `p`.
pub open spec fn journal_has(events: Seq<LogEvent>, p: Seq<char>) -> bool {
    exists|i: int| 0 <= i < events.len() && #[trigger] events[i].phase@ == p
}

/// Recovery goes by the furthest phase the journal reached: it reports the
/// operation completed exactly when a `complete` event was written; it
/// resumes the re-linking exactly when the source was deleted but the
/// operation not completed; it re-verifies exactly when the copy finished or
/// was verified but the source was not deleted; it cleans the destination
/// exactly when only the copy started; and does nothing for an empty start.
pub proof fn lemma_recovery_by_phase(r: RecoveryAction, events: Seq<LogEvent>)
    requires
        recovery_of(r, events),
    ensures
        (r is AlreadyCompleted) <==> journal_has(events, "complete"@),
        (r is ResumeSymlinkUpdate) <==> (!journal_has(events, "complete"@) && journal_has(events, "delete_original"@)),
        (r is Reverify) <==> (!journal_has(events, "complete"@) && !journal_has(events, "delete_original"@)
            && (journal_has(events, "verify_ok"@) || journal_has(events, "copy_done"@))),
        (r is CleanIncompleteDest) <==> (!journal_has(events, "complete"@) && !journal_has(events, "delete_original"@)
            && !journal_has(events, "verify_ok"@) && !journal_has(events, "copy_done"@)
            && journal_has(events, "copy_start"@)),
{
}

/// How far an operation got, as its recovery tells.
pub open spec fn recovery_rank(r: RecoveryAction) -> nat {
    match r {
        RecoveryAction::NoAction => 0,
        RecoveryAction::CleanIncompleteDest { .. } => 1,
        RecoveryAction::Reverify { .. } => 2,
        RecoveryAction::ResumeSymlinkUpdate { .. } => 3,
        RecoveryAction::AlreadyCompleted => 4,
    }
}

/// Writing one more event to the journal never moves recovery back to an
/// earlier phase.
pub proof fn lemma_recovery_monotone(r: RecoveryAction, events: Seq<LogEvent>, r2: RecoveryAction, ev: LogEvent)
    requires
        recovery_of(r, events),
        recovery_of(r2, events.push(ev)),
    ensures
        recovery_rank(r) <= recovery_rank(r2),
{
    let e2 = events.push(ev);
    assert forall|p: Seq<char>| has_phase(events, p) implies has_phase(e2, p) by {
        let i = choose|i: int| 0 <= i < events.len() && #[trigger] events[i].phase@ == p;
        assert(e2[i] == events[i]);
    }
    assert(has_phase(events, "complete"@) ==> has_phase(e2, "complete"@));
    assert(has_phase(events, "delete_original"@) ==> has_phase(e2, "delete_original"@));
    assert(has_phase(events, "verify_ok"@) ==> has_phase(e2, "verify_ok"@));
    assert(has_phase(events, "copy_done"@) ==> has_phase(e2, "copy_done"@));
    assert(has_phase(events, "copy_start"@) ==> has_phase(e2, "copy_start"@));
}

/// Decides how to recover an operation from its journal events.
pub fn analyze_operation_recovery(events: &[LogEvent]) -> (r: RecoveryAction)
    ensures
        recovery_of(r, events@),
        (r is AlreadyCompleted) <==> journal_has(events@, "complete"@),
        (r is ResumeSymlinkUpdate) <==> (!journal_has(events@, "complete"@) && journal_has(events@, "delete_original"@)),
{
    let mut copy_start = false;
    let mut copy_done = false;
    let mut verify_ok = false;
    let mut delete_original = false;
    let mut complete = false;
    let mut src = String::new();
    let mut dst = String::new();
    let mut symlinks: Vec<String> = Vec::new();
    let mut i: usize = 0;
    while i < events.len()
        invariant
            i <= events@.len(),
            copy_start == has_phase(events@.take(i as int), "copy_start"@),
            copy_done == has_phase(events@.take(i as int), "copy_done"@),
            verify_ok == has_phase(events@.take(i as int), "verify_ok"@),
            delete_original == has_phase(events@.take(i as int), "delete_original"@),
            complete == has_phase(events@.take(i as int), "complete"@),
            src@ == started_src(events@.take(i as int)),
            dst@ == started_dst(events@.take(i as int)),
            symlinks@.map_values(|x: String| x@) == updated_links(events@.take(i as int)),
        decreases events@.len() - i,
    {
        let ev = &events[i];
        let ghost pre = events@.take(i as int);
        let ghost nxt = events@.take(i + 1);
        proof {
            assert(nxt.drop_last() =~= pre);
            assert(nxt.last() == *ev);
            assert forall|p: Seq<char>| has_phase(nxt, p) == (has_phase(pre, p) || ev.phase@ == p) by {
                if has_phase(nxt, p) {
                    let j = choose|j: int| 0 <= j < nxt.len() && #[trigger] nxt[j].phase@ == p;
                    if j < i {
                        assert(pre[j] == nxt[j]);
                    }
                }
                if has_phase(pre, p) {
                    let j = choose|j: int| 0 <= j < pre.len() && #[trigger] pre[j].phase@ == p;
                    assert(nxt[j] == pre[j]);
                }
                if ev.phase@ == p {
                    assert(nxt[i as int].phase@ == p);
                }
            }
        }
        proof {
            lemma_phases_distinct();
        }
        let ph = chars_of(ev.phase.as_str());
        let p = ph.as_slice();
        if chars_eq_str(p, "copy_start") {
            copy_start = true;
            match &ev.src {
                Some(s) => { src = s.clone(); },
                None => {},
            }
            match &ev.dst {
                Some(d) => { dst = d.clone(); },
                None => {},
            }
        } else if chars_eq_str(p, "copy_done") {
            copy_done = true;
        } else if chars_eq_str(p, "verify_ok") {
            verify_ok = true;
        } else if chars_eq_str(p, "delete_original") {
            delete_original = true;
        } else if chars_eq_str(p, "symlink_update") {
            match &ev.path {
                Some(l) => {
                    let ghost o = symlinks@;
                    symlinks.push(l.clone());
                    proof {
                        assert(symlinks@.map_values(|x: String| x@) =~= o.map_values(|x: String| x@).push(l@));
                    }
                },
                None => {},
            }
        } else if chars_eq_str(p, "complete") {
            complete = true;
        }
        i = i + 1;
    }
    proof {
        assert(events@.take(events@.len() as int) =~= events@);
    }
    let r = if complete {
        RecoveryAction::AlreadyCompleted
    } else if delete_original {
        RecoveryAction::ResumeSymlinkUpdate { src, dst, symlinks }
    } else if verify_ok || copy_done {
        RecoveryAction::Reverify { src, dst }
    } else if copy_start {
        RecoveryAction::CleanIncompleteDest { dst }
    } else {
        RecoveryAction::NoAction
    };
    proof {
        assert(recovery_of(r, events@));
        lemma_recovery_by_phase(r, events@);
    }
    r
}

/// What a finished recovery reports for the actions that need no checksum:
/// the removal of a partial destination, the re-pointing of `count` links,
/// or nothing to do.
pub open spec fn recovery_report(action: RecoveryAction) -> Seq<char> {
    match action {
        RecoveryAction::CleanIncompleteDest { dst } => "Cleaned incomplete destination '"@ + dst@ + "'"@,
        RecoveryAction::ResumeSymlinkUpdate { dst, symlinks, .. } =>
            "Updated "@ + decimal(symlinks@.len()) + " symlinks to '"@ + dst@ + "'"@,
        _ => "No action needed"@,
    }
}

/// The report of a finished recovery action other than a re-verification
/// (see `recovery_report`).
pub fn recovery_message(action: &RecoveryAction) -> (r: String)
    requires
        !(action is Reverify),
    ensures
        r@ == recovery_report(*action),
{
    match action {
        RecoveryAction::CleanIncompleteDest { dst } => {
            let mut s = String::from_str("Cleaned incomplete destination '");
            s.append(dst.as_str());
            s.append("'");
            s
        },
        RecoveryAction::ResumeSymlinkUpdate { dst, symlinks, .. } => {
            let mut m: Vec<char> = Vec::new();
            crate::text::extend_str(&mut m, "Updated ");
            crate::text::extend_chars(&mut m, decimal_chars(symlinks.len() as u128).as_slice());
            crate::text::extend_str(&mut m, " symlinks to '");
            crate::text::extend_str(&mut m, dst.as_str());
            crate::text::extend_str(&mut m, "'");
            crate::text::string_of(m.as_slice())
        },
        _ => "No action needed".to_owned(),
    }
}

/// Before re-verifying: the source, then the destination, must still be
/// there.
pub fn reverify_precheck(src: &str, dst: &str, src_exists: bool, dst_exists: bool) -> (r: Result<(), String>)
    ensures
        !src_exists ==> (r matches Err(e) && e@ == "Source file '"@ + src@ + "' missing during reverify"@),
        src_exists && !dst_exists ==> (r matches Err(e) && e@ == "Destination file '"@ + dst@ + "' missing during reverify"@),
        src_exists && dst_exists ==> r is Ok,
{
    if !src_exists {
        let mut s = String::from_str("Source file '");
        s.append(src);
        s.append("' missing during reverify");
        Err(s)
    } else if !dst_exists {
        let mut s = String::from_str("Destination file '");
        s.append(dst);
        s.append("' missing during reverify");
        Err(s)
    } else {
        Ok(())
    }
}

/// The report of a re-verification once the source was deleted (when the
/// checksums matched), or the failure when they did not.
pub fn reverify_report(src: &str, verified: &Result<String, VerificationError>) -> (r: Result<String, String>)
    ensures
        verified matches Ok(h) ==> (r matches Ok(m) && m@ == "Re-verified hash '"@ + h@ + "', deleted source '"@ + src@ + "'"@),
        verified matches Err(e) ==> (r matches Err(m) && m@ == "Re-verification failed: "@ + verification_message(*e)),
{
    match verified {
        Ok(h) => {
            let mut s = String::from_str("Re-verified hash '");
            s.append(h.as_str());
            s.append("', deleted source '");
            s.append(src);
            s.append("'");
            Ok(s)
        },
        Err(e) => {
            let mut s = String::from_str("Re-verification failed: ");
            s.append(e.message().as_str());
            Err(s)
        },
    }
}

/// Whether a link can be re-pointed: it must still be there and, when its
/// target could be read, still point (in canonical form) to `old_canon`;
/// otherwise the reason it is skipped.
pub fn relink_check(link: &str, link_present: bool, current_canon: Option<&str>, old_canon: &str) -> (r: Result<(), String>)
    ensures
        !link_present ==> (r matches Err(e) && e@ == "Symlink '"@ + link@ + "' no longer exists"@),
        link_present && (current_canon matches Some(c) && c@ != old_canon@)
            ==> (r matches Err(e) && e@ == "Symlink target mismatch for '"@ + link@ + "'"@),
        link_present && !(current_canon matches Some(c) && c@ != old_canon@) ==> r is Ok,
{
    if !link_present {
        let mut s = String::from_str("Symlink '");
        s.append(link);
        s.append("' no longer exists");
        return Err(s);
    }
    match current_canon {
        Some(c) => {
            let a = chars_of(c);
            let b = chars_of(old_canon);
            if !chars_eq(a.as_slice(), b.as_slice()) {
                let mut s = String::from_str("Symlink target mismatch for '");
                s.append(link);
                s.append("'");
                return Err(s);
            }
            Ok(())
        },
        None => Ok(()),
    }
}

} // verus!
