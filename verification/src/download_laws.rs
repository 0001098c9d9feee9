//! What holds of downloads, sweeps and dropped files, whatever they are: nothing that should be dealt
//! with is passed over, and nothing else is touched.
use crate::choice::{count, lemma_picked_members, lemma_picked_step, picked};
use crate::config::SweepRule;
use crate::downloads::{
    box_index, drop_plan, drop_target_of, followed, fresh, ingested, is_over, pending_index, retried, rule_for,
    state_after, sweep_plan, target_of, undone, unseen, verdict_of, wanted, with_id, with_pending, Arrival, DesktopFile,
    Dropped, FileMeta, RetryOutcome, Verdict,
};
use crate::fence::Fence;
use crate::paths::{holds, lemma_kept, lemma_without, with_path};
use crate::state::{distinct_paths, index_of, lemma_index_of, DownloadCandidate, Global, Pending, Retry};
use crate::text::{dotted_extension, lower_text, same_ascii, temp_name};
use vstd::prelude::*;

verus! {

proof fn lemma_undone_picked(v: Seq<Pending>, done: Seq<bool>, waiting: Seq<bool>, k: int)
    requires
        0 <= k <= v.len(),
        done.len() == v.len(),
        waiting.len() == v.len(),
        forall|i: int| 0 <= i < v.len() ==> #[trigger] waiting[i] == !done[i],
    ensures
        picked(undone(v, done, k), v, waiting, k),
    decreases k,
{
    if k > 0 {
        lemma_undone_picked(v, done, waiting, k - 1);
        assert(waiting[k - 1] == !done[k - 1]);
        lemma_picked_step(undone(v, done, k - 1), v, waiting, k);
    }
}

/// After a look at the downloads, every one that is not done is still waited for, with its state and
/// in its place; there are as many as are not done, and no others.
pub proof fn lemma_undone_waits(v: Seq<Pending>, done: Seq<bool>, waiting: Seq<bool>)
    requires
        done.len() == v.len(),
        waiting.len() == v.len(),
        forall|i: int| 0 <= i < v.len() ==> #[trigger] waiting[i] == !done[i],
    ensures
        ({
            let n = v.len() as int;
            let rest = undone(v, done, n);
            &&& rest.len() == count(waiting, n)
            &&& forall|i: int| 0 <= i < n && !#[trigger] done[i] ==> rest[count(waiting, i)] == v[i] && rest.contains(v[i])
            &&& forall|j: int| 0 <= j < rest.len() ==> v.contains(#[trigger] rest[j])
        }),
{
    let n = v.len() as int;
    let rest = undone(v, done, n);
    lemma_undone_picked(v, done, waiting, n);
    lemma_picked_members(rest, v, waiting, n);
    assert forall|i: int| 0 <= i < n && !#[trigger] done[i] implies rest[count(waiting, i)] == v[i] && rest.contains(v[i]) by {
        assert(waiting[i]);
    }
    assert forall|j: int| 0 <= j < rest.len() implies v.contains(#[trigger] rest[j]) by {
        let i = choose|i: int| 0 <= i < n && #[trigger] waiting[i] && v[i] == rest[j];
        assert(v[i] == rest[j]);
    }
}

/// What was moved or is gone may come again: its path is forgotten, and no other path is.
pub proof fn lemma_unseen(seen: Seq<String>, v: Seq<Pending>, done: Seq<bool>, k: int)
    requires
        0 <= k <= v.len(),
        done.len() == v.len(),
    ensures
        forall|q: Seq<char>|
            #[trigger] holds(unseen(seen, v, done, k), q) <==> holds(seen, q) && forall|i: int|
                0 <= i < k && #[trigger] done[i] ==> v[i].path@ != q,
    decreases k,
{
    if k > 0 {
        lemma_unseen(seen, v, done, k - 1);
        let before = unseen(seen, v, done, k - 1);
        if done[k - 1] {
            lemma_without(before, v[k - 1].path@);
        }
        assert forall|q: Seq<char>| #[trigger] holds(unseen(seen, v, done, k), q) <==> holds(seen, q) && forall|i: int|
            0 <= i < k && #[trigger] done[i] ==> v[i].path@ != q by {
            assert(holds(before, q) <==> holds(seen, q) && forall|i: int|
                0 <= i < k - 1 && #[trigger] done[i] ==> v[i].path@ != q);
            if holds(unseen(seen, v, done, k), q) {
                assert forall|i: int| 0 <= i < k && #[trigger] done[i] implies v[i].path@ != q by {
                    if i < k - 1 {
                        assert(holds(before, q));
                    }
                }
            }
            if holds(seen, q) && forall|i: int| 0 <= i < k && #[trigger] done[i] ==> v[i].path@ != q {
                if done[k - 1] {
                    assert(v[k - 1].path@ != q);
                }
            }
        }
    }
}

/// A download ends in one of two ways: it is gone, or it has stopped changing and moving it worked. One
/// that may still be written is never over.
pub proof fn lemma_over(s: DownloadCandidate, m: Option<FileMeta>, moved: bool)
    ensures
        is_over(verdict_of(s, m), moved) <==> (m is None || !m->0.is_file) || (moved && m is Some && m->0.is_file && s.len
            == m->0.len && s.modified == m->0.modified && s.stable_ticks >= 1),
{
}

/// What is known of a download is what the last look has shown, with the number of looks in a row that
/// have shown the same.
pub proof fn lemma_look_remembers(s: DownloadCandidate, m: FileMeta)
    requires
        m.is_file,
    ensures
        state_after(s, Some(m)).len == m.len,
        state_after(s, Some(m)).modified == m.modified,
        (s.len != m.len || s.modified != m.modified) ==> state_after(s, Some(m)).stable_ticks == 0,
        s.len == m.len && s.modified == m.modified && s.stable_ticks < 255 ==> state_after(s, Some(m)).stable_ticks
            == s.stable_ticks + 1,
        s.len == m.len && s.modified == m.modified ==> state_after(s, Some(m)).stable_ticks >= s.stable_ticks,
{
}

/// A download that is ready stays ready as long as it does not change, so that a move that failed is
/// tried again.
pub proof fn lemma_ready_stays(s: DownloadCandidate, m: FileMeta)
    requires
        verdict_of(s, Some(m)) == Verdict::Ready,
    ensures
        verdict_of(state_after(s, Some(m)), Some(m)) == Verdict::Ready,
{
}

/// Where a path stands among the downloads that are waited for.
pub proof fn lemma_pending_at(v: Seq<Pending>, p: Seq<char>)
    ensures
        0 <= pending_index(v, p) <= v.len(),
        pending_index(v, p) < v.len() ==> v[pending_index(v, p)].path@ == p,
        (forall|i: int| 0 <= i < v.len() ==> (#[trigger] v[i]).path@ != p) <==> pending_index(v, p) == v.len(),
    decreases v.len(),
{
    if v.len() > 0 {
        let head = v.drop_last();
        lemma_pending_at(head, p);
        if pending_index(head, p) == head.len() {
            if v.last().path@ != p {
                assert forall|i: int| 0 <= i < v.len() implies (#[trigger] v[i]).path@ != p by {
                    if i < head.len() {
                        assert(head[i] == v[i]);
                    }
                }
            } else {
                assert(v[v.len() - 1].path@ == p);
            }
        } else {
            let i = pending_index(head, p);
            assert(v[i] == head[i]);
        }
    }
}

/// Whether a path is waited for.
pub open spec fn waited_for(v: Seq<Pending>, p: Seq<char>) -> bool {
    exists|i: int| 0 <= i < v.len() && (#[trigger] v[i]).path@ == p
}

proof fn lemma_waited_with(v: Seq<Pending>, path: String)
    ensures
        forall|q: Seq<char>| #[trigger] waited_for(with_pending(v, path), q) <==> waited_for(v, q) || q == path@,
        forall|j: int|
            0 <= j < with_pending(v, path).len() && (#[trigger] with_pending(v, path)[j]).path@ == path@ && distinct_paths(v)
                ==> with_pending(v, path)[j].state == fresh(),
{
    lemma_pending_at(v, path@);
    let w = with_pending(v, path);
    let at = pending_index(v, path@);
    assert forall|q: Seq<char>| #[trigger] waited_for(w, q) <==> waited_for(v, q) || q == path@ by {
        if waited_for(w, q) {
            let i = choose|i: int| 0 <= i < w.len() && (#[trigger] w[i]).path@ == q;
            if i < v.len() {
                assert(v[i].path@ == q);
            }
        }
        if waited_for(v, q) {
            let i = choose|i: int| 0 <= i < v.len() && (#[trigger] v[i]).path@ == q;
            assert(w[i].path@ == q);
        }
        if q == path@ {
            assert(w[at].path@ == q);
        }
    }
    assert forall|j: int| 0 <= j < w.len() && (#[trigger] w[j]).path@ == path@ && distinct_paths(v) implies w[j].state
        == fresh() by {
        if at < v.len() && j != at {
            assert(v[j].path@ == v[at].path@);
        } else if j < v.len() {
            assert(v[j].path@ != path@ || at < v.len());
        }
    }
}

/// Whether a reported file is a new download: a file, under a name that is neither that of the shell's
/// own file nor that of an unfinished download.
pub open spec fn is_new_download(a: Arrival) -> bool {
    a.is_file && !same_ascii(a.name@, "desktop.ini"@) && !temp_name(a.name@)
}

/// Every new download that is reported and was not seen before is waited for, what was waited for still
/// is, and nothing else comes in; and what was waited for or has come in was seen.
pub proof fn lemma_reports_taken_up(seen: Seq<String>, pending: Seq<Pending>, arrivals: Seq<Arrival>, k: int)
    requires
        0 <= k <= arrivals.len(),
    ensures
        ({
            let t = followed(seen, pending, arrivals, k);
            &&& forall|q: Seq<char>|
                #[trigger] waited_for(t.1, q) <==> waited_for(pending, q) || (!holds(seen, q) && reported(arrivals, k, q))
            &&& forall|q: Seq<char>| #[trigger] holds(t.0, q) <==> holds(seen, q) || reported(arrivals, k, q)
        }),
    decreases k,
{
    if k > 0 {
        lemma_reports_taken_up(seen, pending, arrivals, k - 1);
        let t = followed(seen, pending, arrivals, k - 1);
        let u = followed(seen, pending, arrivals, k);
        let a = arrivals[k - 1];
        lemma_waited_with(t.1, a.path);
        assert forall|q: Seq<char>|
            #[trigger] waited_for(u.1, q) <==> waited_for(pending, q) || (!holds(seen, q) && reported(arrivals, k, q)) by {
            lemma_reported_step(arrivals, k, q);
            assert(waited_for(t.1, q) <==> waited_for(pending, q) || (!holds(seen, q) && reported(arrivals, k - 1, q)));
            assert(holds(t.0, q) <==> holds(seen, q) || reported(arrivals, k - 1, q));
            assert(holds(t.0, a.path@) <==> holds(seen, a.path@) || reported(arrivals, k - 1, a.path@));
        }
        assert forall|q: Seq<char>| #[trigger] holds(u.0, q) <==> holds(seen, q) || reported(arrivals, k, q) by {
            lemma_reported_step(arrivals, k, q);
            lemma_holds_with(t.0, a.path, q);
            assert(holds(t.0, q) <==> holds(seen, q) || reported(arrivals, k - 1, q));
        }
    }
}

/// Whether one of the first `k` reports is of a new download with a path.
pub open spec fn reported(arrivals: Seq<Arrival>, k: int, q: Seq<char>) -> bool {
    exists|i: int| 0 <= i < k && is_new_download(#[trigger] arrivals[i]) && arrivals[i].path@ == q
}

proof fn lemma_reported_step(arrivals: Seq<Arrival>, k: int, q: Seq<char>)
    requires
        0 < k <= arrivals.len(),
    ensures
        reported(arrivals, k, q) <==> reported(arrivals, k - 1, q) || (is_new_download(arrivals[k - 1])
            && arrivals[k - 1].path@ == q),
{
    if reported(arrivals, k, q) {
        let i = choose|i: int| 0 <= i < k && is_new_download(#[trigger] arrivals[i]) && arrivals[i].path@ == q;
        if i < k - 1 {
            assert(is_new_download(arrivals[i]));
        }
    }
    if reported(arrivals, k - 1, q) {
        let i = choose|i: int| 0 <= i < k - 1 && is_new_download(#[trigger] arrivals[i]) && arrivals[i].path@ == q;
        assert(is_new_download(arrivals[i]));
    }
}

/// With one more path, a list has that path and those it had.
pub proof fn lemma_holds_with(v: Seq<String>, p: String, q: Seq<char>)
    ensures
        holds(with_path(v, p), q) <==> holds(v, q) || p@ == q,
{
    let w = with_path(v, p);
    if holds(w, q) {
        let i = choose|i: int| 0 <= i < w.len() && (#[trigger] w[i])@ == q;
        if i < v.len() {
            assert(v[i]@ == q);
        }
    }
    if holds(v, q) {
        let i = choose|i: int| 0 <= i < v.len() && (#[trigger] v[i])@ == q;
        assert(w[i]@ == q);
    }
    if p@ == q && !holds(v, p@) {
        assert(w[v.len() as int]@ == q);
    }
}

/// After the reports were taken in, files that are gone are forgotten, so that others of their name
/// count as new, and files that are there are not; what is waited for is never dropped here.
pub proof fn lemma_ingest(old: Global, arrivals: Seq<Arrival>, present: Seq<String>, g: Global)
    requires
        ingested(old, true, arrivals, present, g),
    ensures
        forall|q: Seq<char>|
            #[trigger] holds(g.download_ignored@, q) <==> holds(old.download_ignored@, q) && holds(present, q),
        forall|q: Seq<char>|
            #[trigger] holds(g.desktop_seen@, q) <==> holds(present, q) && (holds(old.desktop_seen@, q) || reported(
                arrivals,
                arrivals.len() as int,
                q,
            )),
        forall|q: Seq<char>|
            #[trigger] waited_for(g.download_pending@, q) <==> waited_for(old.download_pending@, q) || (!holds(
                old.desktop_seen@,
                q,
            ) && reported(arrivals, arrivals.len() as int, q)),
        g.config == old.config,
        g.fences == old.fences,
        g.sweep_retry == old.sweep_retry,
{
    let n = arrivals.len() as int;
    let t = followed(old.desktop_seen@, old.download_pending@, arrivals, n);
    lemma_reports_taken_up(old.desktop_seen@, old.download_pending@, arrivals, n);
    lemma_kept(old.download_ignored@, present);
    lemma_kept(t.0, present);
    assert forall|q: Seq<char>|
        #[trigger] holds(g.desktop_seen@, q) <==> holds(present, q) && (holds(old.desktop_seen@, q) || reported(
            arrivals,
            n,
            q,
        )) by {
        assert(holds(t.0, q) <==> holds(old.desktop_seen@, q) || reported(arrivals, n, q));
    }
}

/// The first rule for an extension: it is for it, no earlier one is, and where there is none no rule is.
pub proof fn lemma_first_rule(rules: Seq<SweepRule>, ext: Seq<char>, k: int)
    requires
        0 <= k <= rules.len() <= usize::MAX,
    ensures
        match rule_for(rules, ext, k) {
            Some(r) => {
                &&& k <= r < rules.len()
                &&& lower_text(rules[r as int].ext@) == ext
                &&& forall|i: int| k <= i < r ==> lower_text((#[trigger] rules[i]).ext@) != ext
            },
            None => forall|i: int| k <= i < rules.len() ==> lower_text((#[trigger] rules[i]).ext@) != ext,
        },
    decreases rules.len() - k,
{
    if k < rules.len() && lower_text(rules[k].ext@) != ext {
        lemma_first_rule(rules, ext, k + 1);
    }
}

/// Whether a file on the desktop is to be moved by the rule `r`, the first one for its extension: it is
/// a file, the user did not put it there from the download box, and it is not waited for.
pub open spec fn moved_by(g: Global, f: DesktopFile, r: int) -> bool {
    let rules = g.config.sweep_rules@;
    &&& f.is_file
    &&& forall|i: int| 0 <= i < g.download_ignored@.len() ==> (#[trigger] g.download_ignored@[i])@ != f.path@
    &&& forall|i: int| 0 <= i < g.download_pending@.len() ==> (#[trigger] g.download_pending@[i]).path@ != f.path@
    &&& 0 <= r < rules.len()
    &&& lower_text(rules[r].ext@) == dotted_extension(f.name@)
    &&& forall|i: int| 0 <= i < r ==> lower_text((#[trigger] rules[i]).ext@) != dotted_extension(f.name@)
}

/// Which files a sweep moves, and where: `moves` says which of the files are to be moved, `rule` by which
/// rule. Every one of them is moved to where its rule says, in the order of the files, and no other
/// file is moved.
pub proof fn lemma_sweep_complete(g: Global, files: Seq<DesktopFile>, moves: Seq<bool>, rule: Seq<int>, each: Seq<Retry>)
    requires
        g.config.sweep_rules@.len() <= usize::MAX,
        moves.len() == files.len(),
        rule.len() == files.len(),
        each.len() == files.len(),
        forall|i: int| 0 <= i < files.len() && #[trigger] moves[i] ==> moved_by(g, files[i], rule[i]),
        forall|i: int, r: int| 0 <= i < files.len() && !#[trigger] moves[i] ==> !#[trigger] moved_by(g, files[i], r),
        forall|i: int|
            0 <= i < files.len() && moves[i] ==> #[trigger] each[i] == (Retry {
                src: files[i].path,
                dest: g.config.sweep_rules@[rule[i]].dest,
            }),
    ensures
        ({
            let n = files.len() as int;
            let plan = sweep_plan(g, files, n);
            &&& plan.len() == count(moves, n)
            &&& forall|i: int| 0 <= i < n && #[trigger] moves[i] ==> plan[count(moves, i)] == each[i] && plan.contains(each[i])
        }),
{
    let n = files.len() as int;
    lemma_sweep_picked(g, files, moves, rule, each, n);
    lemma_picked_members(sweep_plan(g, files, n), each, moves, n);
}

/// Every file that is to be moved by a rule is in the plan, with where its rule says.
pub proof fn lemma_sweep_moves(g: Global, files: Seq<DesktopFile>, i: int, k: int)
    requires
        g.config.sweep_rules@.len() <= usize::MAX,
        0 <= i < files.len(),
        moved_by(g, files[i], k),
    ensures
        sweep_plan(g, files, files.len() as int).contains(
            Retry { src: files[i].path, dest: g.config.sweep_rules@[k].dest },
        ),
{
    let n = files.len();
    let moves = Seq::new(n, |j: int| exists|r: int| moved_by(g, files[j], r));
    let rule = Seq::new(n, |j: int| choose|r: int| moved_by(g, files[j], r));
    let each = Seq::new(n, |j: int| Retry { src: files[j].path, dest: g.config.sweep_rules@[rule[j]].dest });
    assert(moves[i]);
    assert(moved_by(g, files[i], rule[i]));
    let rules = g.config.sweep_rules@;
    if k < rule[i] {
        assert(lower_text(rules[k].ext@) != dotted_extension(files[i].name@));
    }
    if rule[i] < k {
        assert(lower_text(rules[rule[i]].ext@) != dotted_extension(files[i].name@));
    }
    lemma_sweep_complete(g, files, moves, rule, each);
    assert(each[i] == (Retry { src: files[i].path, dest: rules[k].dest }));
}

/// A sweep is called for exactly when some rule is for one of the names.
pub proof fn lemma_wanted(rules: Seq<SweepRule>, names: Seq<String>)
    requires
        rules.len() <= usize::MAX,
    ensures
        wanted(rules, names) <==> exists|i: int, r: int|
            0 <= i < names.len() && 0 <= r < rules.len() && lower_text((#[trigger] rules[r]).ext@) == dotted_extension(
                (#[trigger] names[i])@,
            ),
{
    assert forall|i: int| 0 <= i < names.len() implies (rule_for(rules, dotted_extension((#[trigger] names[i])@), 0) is Some
        <==> exists|r: int| 0 <= r < rules.len() && lower_text((#[trigger] rules[r]).ext@) == dotted_extension(names[i]@)) by {
        lemma_first_rule(rules, dotted_extension(names[i]@), 0);
    }
    if wanted(rules, names) {
        let i = choose|i: int| 0 <= i < names.len() && rule_for(rules, dotted_extension((#[trigger] names[i])@), 0) is Some;
        let r = choose|r: int| 0 <= r < rules.len() && lower_text((#[trigger] rules[r]).ext@) == dotted_extension(names[i]@);
        assert(lower_text(rules[r].ext@) == dotted_extension(names[i]@));
    }
}

proof fn lemma_sweep_picked(
    g: Global,
    files: Seq<DesktopFile>,
    moves: Seq<bool>,
    rule: Seq<int>,
    each: Seq<Retry>,
    k: int,
)
    requires
        g.config.sweep_rules@.len() <= usize::MAX,
        0 <= k <= files.len(),
        moves.len() == files.len(),
        rule.len() == files.len(),
        each.len() == files.len(),
        forall|i: int| 0 <= i < files.len() && #[trigger] moves[i] ==> moved_by(g, files[i], rule[i]),
        forall|i: int, r: int| 0 <= i < files.len() && !#[trigger] moves[i] ==> !#[trigger] moved_by(g, files[i], r),
        forall|i: int|
            0 <= i < files.len() && moves[i] ==> #[trigger] each[i] == (Retry {
                src: files[i].path,
                dest: g.config.sweep_rules@[rule[i]].dest,
            }),
    ensures
        picked(sweep_plan(g, files, k), each, moves, k),
    decreases k,
{
    if k > 0 {
        lemma_sweep_picked(g, files, moves, rule, each, k - 1);
        let f = files[k - 1];
        let head = sweep_plan(g, files, k - 1);
        let rules = g.config.sweep_rules@;
        let ext = dotted_extension(f.name@);
        lemma_first_rule(rules, ext, 0);
        lemma_pending_at(g.download_pending@, f.path@);
        lemma_picked_step(head, each, moves, k);
        if moves[k - 1] {
            assert(moved_by(g, f, rule[k - 1]));
            let r = rule_for(rules, ext, 0)->0;
            if r < rule[k - 1] {
                assert(lower_text(rules[r as int].ext@) != ext);
            }
            assert(r == rule[k - 1]);
            assert(each[k - 1] == (Retry { src: f.path, dest: rules[rule[k - 1]].dest }));
        } else {
            if crate::downloads::sweepable(g, f) {
                let r = rule_for(rules, ext, 0)->0;
                assert forall|i: int| 0 <= i < g.download_ignored@.len() implies (#[trigger] g.download_ignored@[i])@
                    != f.path@ by {}
                assert(moved_by(g, f, r as int));
                assert(!moves[k - 1]);
            }
        }
    }
}

/// Every file that is there and could not be moved is tried again, in its place, and no other.
pub proof fn lemma_retried(v: Seq<Retry>, outcomes: Seq<RetryOutcome>, failed: Seq<bool>, k: int)
    requires
        0 <= k <= v.len(),
        outcomes.len() == v.len(),
        failed.len() == v.len(),
        forall|i: int| 0 <= i < v.len() ==> #[trigger] failed[i] == (outcomes[i] == RetryOutcome::Failed),
    ensures
        retried(v, outcomes, k).len() == count(failed, k),
        forall|i: int|
            0 <= i < k && #[trigger] outcomes[i] == RetryOutcome::Failed ==> retried(v, outcomes, k)[count(failed, i)] == v[i]
                && retried(v, outcomes, k).contains(v[i]),
{
    lemma_retried_picked(v, outcomes, failed, k);
    lemma_picked_members(retried(v, outcomes, k), v, failed, k);
    assert forall|i: int| 0 <= i < k && #[trigger] outcomes[i] == RetryOutcome::Failed implies retried(v, outcomes, k)[count(
        failed,
        i,
    )] == v[i] && retried(v, outcomes, k).contains(v[i]) by {
        assert(failed[i]);
    }
}

proof fn lemma_retried_picked(v: Seq<Retry>, outcomes: Seq<RetryOutcome>, failed: Seq<bool>, k: int)
    requires
        0 <= k <= v.len(),
        outcomes.len() == v.len(),
        failed.len() == v.len(),
        forall|i: int| 0 <= i < v.len() ==> #[trigger] failed[i] == (outcomes[i] == RetryOutcome::Failed),
    ensures
        picked(retried(v, outcomes, k), v, failed, k),
    decreases k,
{
    if k > 0 {
        lemma_retried_picked(v, outcomes, failed, k - 1);
        assert(failed[k - 1] == (outcomes[k - 1] == RetryOutcome::Failed));
        lemma_picked_step(retried(v, outcomes, k - 1), v, failed, k);
    }
}

/// Every dropped file that is there and not in the target already is moved, in its place, and no other.
pub proof fn lemma_drop_complete(files: Seq<Dropped>, moves: Seq<bool>, each: Seq<String>)
    requires
        moves.len() == files.len(),
        each.len() == files.len(),
        forall|i: int| 0 <= i < files.len() ==> #[trigger] moves[i] == (files[i].exists && !files[i].in_target),
        forall|i: int| 0 <= i < files.len() ==> #[trigger] each[i] == files[i].path,
    ensures
        ({
            let n = files.len() as int;
            let plan = drop_plan(files, n);
            &&& plan.len() == count(moves, n)
            &&& forall|i: int|
                0 <= i < n && (#[trigger] files[i]).exists && !files[i].in_target ==> plan[count(moves, i)] == files[i].path
                    && plan.contains(files[i].path)
        }),
{
    let n = files.len() as int;
    lemma_drop_picked(files, moves, each, n);
    lemma_picked_members(drop_plan(files, n), each, moves, n);
    assert forall|i: int| 0 <= i < n && (#[trigger] files[i]).exists && !files[i].in_target implies drop_plan(files, n)[count(
        moves,
        i,
    )] == files[i].path && drop_plan(files, n).contains(files[i].path) by {
        assert(moves[i]);
        assert(each[i] == files[i].path);
    }
}

proof fn lemma_drop_picked(files: Seq<Dropped>, moves: Seq<bool>, each: Seq<String>, k: int)
    requires
        0 <= k <= files.len(),
        moves.len() == files.len(),
        each.len() == files.len(),
        forall|i: int| 0 <= i < files.len() ==> #[trigger] moves[i] == (files[i].exists && !files[i].in_target),
        forall|i: int| 0 <= i < files.len() ==> #[trigger] each[i] == files[i].path,
    ensures
        picked(drop_plan(files, k), each, moves, k),
    decreases k,
{
    if k > 0 {
        lemma_drop_picked(files, moves, each, k - 1);
        assert(moves[k - 1] == (files[k - 1].exists && !files[k - 1].in_target));
        assert(each[k - 1] == files[k - 1].path);
        lemma_picked_step(drop_plan(files, k - 1), each, moves, k);
    }
}

/// The first valid fence with an id: it is valid and has the id, and no earlier one is and has; where
/// there is none, no fence is and has.
pub proof fn lemma_first_with_id(fences: Seq<Fence>, id: u32, k: int)
    requires
        0 <= k <= fences.len() <= usize::MAX,
    ensures
        match with_id(fences, id, k) {
            Some(r) => {
                &&& k <= r < fences.len()
                &&& fences[r as int].valid && fences[r as int].cfg.id == id
                &&& forall|i: int| k <= i < r ==> !((#[trigger] fences[i]).valid && fences[i].cfg.id == id)
            },
            None => forall|i: int| k <= i < fences.len() ==> !((#[trigger] fences[i]).valid && fences[i].cfg.id == id),
        },
    decreases fences.len() - k,
{
    if k < fences.len() && !(fences[k].valid && fences[k].cfg.id == id) {
        lemma_first_with_id(fences, id, k + 1);
    }
}

/// Downloads go to the folder of the first valid fence that is the download box, and to the usual
/// directory where there is no such fence or it has no folder.
pub proof fn lemma_downloads_go_to_box(g: Global, usual: Seq<char>, b: int)
    requires
        g.fences@.len() <= usize::MAX,
        0 <= b < g.fences@.len(),
        g.fences@[b].valid,
        g.config.download_box_id == Some(g.fences@[b].cfg.id),
        forall|i: int| 0 <= i < b ==> !((#[trigger] g.fences@[i]).valid && g.fences@[i].cfg.id == g.fences@[b].cfg.id),
    ensures
        box_index(g) == Some(b as usize),
        g.fences@[b].cfg.folder is Some ==> target_of(g, usual) == g.fences@[b].cfg.folder->0@,
        g.fences@[b].cfg.folder is None ==> target_of(g, usual) == usual,
{
    lemma_first_with_id(g.fences@, g.fences@[b].cfg.id, 0);
}

/// Without a valid download box, downloads go to the usual directory.
pub proof fn lemma_downloads_go_to_usual(g: Global, usual: Seq<char>)
    requires
        g.fences@.len() <= usize::MAX,
        forall|i: int|
            0 <= i < g.fences@.len() && (#[trigger] g.fences@[i]).valid ==> g.config.download_box_id != Some(
                g.fences@[i].cfg.id,
            ),
    ensures
        box_index(g) is None,
        target_of(g, usual) == usual,
{
    if g.config.download_box_id is Some {
        lemma_first_with_id(g.fences@, g.config.download_box_id->0, 0);
    }
}

/// Files that are dropped on the window of a valid fence go to its folder, and for a fence without one to
/// the vault where that can be had; on any other window they are not taken.
pub proof fn lemma_drop_goes(g: Global, hwnd: u64, vault: String, ready: bool, i: int)
    requires
        g.fences@.len() <= usize::MAX,
        0 <= i < g.fences@.len(),
        g.fences@[i].valid && g.fences@[i].hwnd == hwnd,
        forall|j: int| 0 <= j < i ==> !((#[trigger] g.fences@[j]).valid && g.fences@[j].hwnd == hwnd),
    ensures
        g.fences@[i].cfg.folder is Some ==> drop_target_of(g, hwnd, vault, ready) == g.fences@[i].cfg.folder,
        g.fences@[i].cfg.folder is None && ready ==> drop_target_of(g, hwnd, vault, ready) == Some(vault),
        g.fences@[i].cfg.folder is None && !ready ==> drop_target_of(g, hwnd, vault, ready) is None,
{
    lemma_index_of(g.fences@, hwnd);
    assert(index_of(g.fences@, hwnd) == Some(i as usize));
}

/// A download that comes in has never been looked at; one that is waited for keeps its place, and also what is
/// known of it unless it comes in anew.
pub proof fn lemma_reports_leave_others(seen: Seq<String>, pending: Seq<Pending>, arrivals: Seq<Arrival>, k: int)
    requires
        0 <= k <= arrivals.len(),
    ensures
        ({
            let t = followed(seen, pending, arrivals, k).1;
            &&& t.len() >= pending.len()
            &&& forall|i: int| 0 <= i < pending.len() ==> (#[trigger] t[i]).path == pending[i].path
            &&& forall|i: int|
                0 <= i < pending.len() ==> (#[trigger] t[i]) == pending[i] || (t[i].state == fresh() && !holds(
                    seen,
                    pending[i].path@,
                ) && reported(arrivals, k, pending[i].path@))
            &&& forall|i: int| pending.len() <= i < t.len() ==> (#[trigger] t[i]).state == fresh()
        }),
    decreases k,
{
    if k > 0 {
        lemma_reports_leave_others(seen, pending, arrivals, k - 1);
        lemma_reports_taken_up(seen, pending, arrivals, k - 1);
        let before = followed(seen, pending, arrivals, k - 1);
        let t = followed(seen, pending, arrivals, k).1;
        let a = arrivals[k - 1];
        lemma_pending_at(before.1, a.path@);
        assert forall|i: int| 0 <= i < pending.len() implies (#[trigger] t[i]).path == pending[i].path by {
            assert(before.1[i].path == pending[i].path);
        }
        assert forall|i: int| 0 <= i < pending.len() implies (#[trigger] t[i]) == pending[i] || (t[i].state == fresh()
            && !holds(seen, pending[i].path@) && reported(arrivals, k, pending[i].path@)) by {
            lemma_reported_step(arrivals, k, pending[i].path@);
            assert(before.1[i].path == pending[i].path);
            assert(holds(before.0, a.path@) <==> holds(seen, a.path@) || reported(arrivals, k - 1, a.path@));
        }
        assert forall|i: int| pending.len() <= i < t.len() implies (#[trigger] t[i]).state == fresh() by {
            if i < before.1.len() {
                assert(before.1[i].state == fresh());
            }
        }
    }
}

/// No download is moved at the first look. That look finds a change whatever the file is, unless it has the largest
/// length there is and no known time.
pub proof fn lemma_first_look(m: FileMeta)
    requires
        m.is_file,
    ensures
        verdict_of(fresh(), Some(m)) == Verdict::Waiting,
        m.len != u64::MAX || m.modified is Some ==> state_after(fresh(), Some(m)).stable_ticks == 0,
{
}

/// Where the directory of downloads is not known, nothing changes.
pub proof fn lemma_unknown_directory(old: Global, arrivals: Seq<Arrival>, present: Seq<String>, g: Global)
    requires
        ingested(old, false, arrivals, present, g),
    ensures
        g == old,
{
}

} // verus!
