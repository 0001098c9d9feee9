//! Downloads and other files: which are taken up, when they are complete, and where files go.
use crate::config::SweepRule;
use crate::effect::Effect;
use crate::fence::{refresh_entries, refreshed, Entry, Fence};
use crate::paths::{contains, holds, insert, kept, remove, retain, with_path, without};
use crate::state::{distinct, distinct_paths, fence_idx, index_of, DownloadCandidate, Global, Pending, Retry};
use crate::text::{
    dotted_extension, eq_ignore_ascii_case, ext_of, is_download_temp, lower_text, lowercase, same_ascii, temp_name,
};
use crate::geometry::drawable;
use crate::download_laws::{lemma_sweep_moves, lemma_undone_waits, moved_by};
use vstd::prelude::*;

verus! {

/// For how many looks in a row a download must not have changed before it is moved.
pub const STABLE_TICKS: u8 = 2;

/// A file that was reported in the directory of downloads.
#[derive(Debug)]
pub struct Arrival {
    pub path: String,
    /// The last part of the path.
    pub name: String,
    pub is_file: bool,
}

/// What is known of a download that was not looked at yet.
pub open spec fn fresh() -> DownloadCandidate {
    DownloadCandidate { len: u64::MAX, modified: None, stable_ticks: 0 }
}

/// Whether a reported file is a download that is taken up.
pub open spec fn accepted(a: Arrival) -> bool {
    !same_ascii(a.name@, "desktop.ini"@) && a.is_file && !temp_name(a.name@)
}

/// Where a path stands in a list, and the list's length where it does not.
pub open spec fn pending_index(v: Seq<Pending>, p: Seq<char>) -> int
    decreases v.len(),
{
    if v.len() == 0 {
        0
    } else {
        let i = pending_index(v.drop_last(), p);
        if i < v.len() - 1 {
            i
        } else if v.last().path@ == p {
            v.len() - 1
        } else {
            v.len() as int
        }
    }
}

proof fn lemma_pending_index(v: Seq<Pending>, p: Seq<char>)
    ensures
        0 <= pending_index(v, p) <= v.len(),
        pending_index(v, p) < v.len() ==> v[pending_index(v, p)].path@ == p,
        forall|i: int| 0 <= i < pending_index(v, p) ==> (#[trigger] v[i]).path@ != p,
    decreases v.len(),
{
    if v.len() > 0 {
        let head = v.drop_last();
        lemma_pending_index(head, p);
        assert forall|i: int| 0 <= i < pending_index(v, p) implies (#[trigger] v[i]).path@ != p by {
            if i < head.len() {
                assert(head[i] == v[i]);
            }
        }
    }
}

fn find_pending(v: &Vec<Pending>, p: &String) -> (r: usize)
    ensures
        r == pending_index(v@, p@),
{
    let n: usize = v.len();
    let mut i: usize = 0;
    let mut found: usize = 0;
    assert(v@.take(0).len() == 0);
    while i < n
        invariant
            i <= n,
            n == v@.len(),
            found == pending_index(v@.take(i as int), p@),
            found <= i,
        decreases n - i,
    {
        assert(v@.take(i + 1).drop_last() =~= v@.take(i as int));
        if found == i && v[i].path != *p {
            found = i + 1;
        }
        i = i + 1;
    }
    assert(v@.take(n as int) =~= v@);
    found
}

/// The downloads that are waited for, with one more; one that is waited for already starts anew.
pub open spec fn with_pending(v: Seq<Pending>, path: String) -> Seq<Pending> {
    let i = pending_index(v, path@);
    if i < v.len() {
        v.update(i, Pending { state: fresh(), ..v[i] })
    } else {
        v.push(Pending { path, state: fresh() })
    }
}

fn insert_pending(v: &mut Vec<Pending>, path: String)
    ensures
        final(v)@ == with_pending(old(v)@, path),
        distinct_paths(old(v)@) ==> distinct_paths(final(v)@),
{
    proof {
        lemma_pending_index(v@, path@);
    }
    let i: usize = find_pending(v, &path);
    if i < v.len() {
        v[i].state = DownloadCandidate { len: u64::MAX, modified: None, stable_ticks: 0 };
        proof {
            assert(v@ =~= with_pending(old(v)@, path));
            if distinct_paths(old(v)@) {
                assert forall|a: int, b: int| 0 <= a < b < v@.len() implies (#[trigger] v@[a]).path@ != (#[trigger] v@[b]).path@ by {
                    assert(old(v)@[a].path@ != old(v)@[b].path@);
                }
            }
        }
    } else {
        v.push(Pending { path, state: DownloadCandidate { len: u64::MAX, modified: None, stable_ticks: 0 } });
    }
}

/// What is known of downloads after the first `k` reports: those that were seen, and those that are
/// waited for.
pub open spec fn followed(seen: Seq<String>, pending: Seq<Pending>, arrivals: Seq<Arrival>, k: int) -> (
    Seq<String>,
    Seq<Pending>,
)
    decreases k,
{
    if k <= 0 {
        (seen, pending)
    } else {
        let t = followed(seen, pending, arrivals, k - 1);
        let a = arrivals[k - 1];
        if accepted(a) && !holds(t.0, a.path@) {
            (with_path(t.0, a.path), with_pending(t.1, a.path))
        } else {
            t
        }
    }
}

/// Whether `g` is `old` after the reports of new downloads were taken in.
pub open spec fn ingested(old: Global, known: bool, arrivals: Seq<Arrival>, present: Seq<String>, g: Global) -> bool {
    if !known {
        g == old
    } else {
        let t = followed(old.desktop_seen@, old.download_pending@, arrivals, arrivals.len() as int);
        &&& g == (Global {
            download_ignored: g.download_ignored,
            desktop_seen: g.desktop_seen,
            download_pending: g.download_pending,
            ..old
        })
        &&& g.download_ignored@ == kept(old.download_ignored@, present)
        &&& g.desktop_seen@ == kept(t.0, present)
        &&& g.download_pending@ == t.1
    }
}

/// Takes in the reports of new downloads. `known` says whether the directory of downloads is known,
/// `present` which paths exist. Files that are gone are forgotten, so that others of their name
/// count as new.
pub fn ingest_desktop_events(g: &mut Global, known: bool, arrivals: &Vec<Arrival>, present: &Vec<String>)
    requires
        old(g).wf(),
    ensures
        final(g).wf(),
        ingested(*old(g), known, arrivals@, present@, *final(g)),
{
    if !known {
        return;
    }
    let ghost before = *g;
    retain(&mut g.download_ignored, present);
    let ghost ignored = g.download_ignored;
    let n: usize = arrivals.len();
    let mut i: usize = 0;
    while i < n
        invariant
            i <= n,
            n == arrivals@.len(),
            *g == (Global {
                download_ignored: ignored,
                desktop_seen: g.desktop_seen,
                download_pending: g.download_pending,
                ..before
            }),
            distinct(g.desktop_seen@),
            distinct_paths(g.download_pending@),
            (g.desktop_seen@, g.download_pending@) == followed(
                before.desktop_seen@,
                before.download_pending@,
                arrivals@,
                i as int,
            ),
        decreases n - i,
    {
        let a = &arrivals[i];
        if !eq_ignore_ascii_case(a.name.as_str(), "desktop.ini") && a.is_file && !is_download_temp(a.name.as_str()) {
            if insert(&mut g.desktop_seen, a.path.clone()) {
                insert_pending(&mut g.download_pending, a.path.clone());
            }
        }
        i = i + 1;
    }
    retain(&mut g.desktop_seen, present);
}

/// A file that was seen is not taken up again, however often it is reported.
pub proof fn lemma_seen_once(seen: Seq<String>, pending: Seq<Pending>, arrivals: Seq<Arrival>, k: int)
    requires
        0 <= k <= arrivals.len(),
        forall|i: int| 0 <= i < k ==> holds(seen, (#[trigger] arrivals[i]).path@),
    ensures
        followed(seen, pending, arrivals, k) == (seen, pending),
    decreases k,
{
    if k > 0 {
        lemma_seen_once(seen, pending, arrivals, k - 1);
        assert(holds(seen, arrivals[k - 1].path@));
    }
}

/// What is seen of a file.
#[derive(Clone, Copy, Debug, PartialEq, Eq, Structural)]
pub struct FileMeta {
    pub is_file: bool,
    pub len: u64,
    pub modified: Option<i128>,
}

/// What becomes of a download after a look at it.
#[derive(Clone, Copy, Debug, PartialEq, Eq, Structural)]
pub enum Verdict {
    /// It is gone, or no file any more.
    Gone,
    /// It may still be written.
    Waiting,
    /// It has not changed for long enough and is to be moved.
    Ready,
}

/// What is known of a download after a look at it: how often it was seen unchanged.
pub open spec fn looked(s: DownloadCandidate, m: FileMeta) -> DownloadCandidate {
    if s.len == m.len && s.modified == m.modified {
        DownloadCandidate {
            stable_ticks: if s.stable_ticks == u8::MAX { u8::MAX } else { (s.stable_ticks + 1) as u8 },
            ..s
        }
    } else {
        DownloadCandidate { len: m.len, modified: m.modified, stable_ticks: 0 }
    }
}

/// What is known of a download after a look that may have found nothing.
pub open spec fn state_after(s: DownloadCandidate, m: Option<FileMeta>) -> DownloadCandidate {
    match m {
        Some(x) => if x.is_file {
            looked(s, x)
        } else {
            s
        },
        None => s,
    }
}

/// What becomes of a download after that look.
pub open spec fn verdict_of(s: DownloadCandidate, m: Option<FileMeta>) -> Verdict {
    match m {
        Some(x) => if !x.is_file {
            Verdict::Gone
        } else if looked(s, x).stable_ticks >= STABLE_TICKS {
            Verdict::Ready
        } else {
            Verdict::Waiting
        },
        None => Verdict::Gone,
    }
}

fn same_time(a: Option<i128>, b: Option<i128>) -> (r: bool)
    ensures
        r == (a == b),
{
    match (a, b) {
        (Some(x), Some(y)) => x == y,
        (None, None) => true,
        _ => false,
    }
}

/// Looks at a download.
pub fn look(s: &mut DownloadCandidate, m: Option<FileMeta>) -> (r: Verdict)
    ensures
        *final(s) == state_after(*old(s), m),
        r == verdict_of(*old(s), m),
{
    match m {
        None => Verdict::Gone,
        Some(x) => {
            if !x.is_file {
                return Verdict::Gone;
            }
            if s.len == x.len && same_time(s.modified, x.modified) {
                if s.stable_ticks < 255 {
                    s.stable_ticks = s.stable_ticks + 1;
                }
            } else {
                s.len = x.len;
                s.modified = x.modified;
                s.stable_ticks = 0;
            }
            if s.stable_ticks >= STABLE_TICKS {
                Verdict::Ready
            } else {
                Verdict::Waiting
            }
        },
    }
}

/// A download that keeps growing or being written is never moved: each look that finds a change
/// starts the wait anew.
pub proof fn lemma_change_restarts(s: DownloadCandidate, m: FileMeta)
    requires
        m.is_file,
        s.len != m.len || s.modified != m.modified,
    ensures
        verdict_of(s, Some(m)) == Verdict::Waiting,
        looked(s, m).stable_ticks == 0,
{
}

/// A new download is moved at the third look at the earliest, after two in a row have found it as
/// the one before.
pub proof fn lemma_stable_before_move(m1: FileMeta, m2: FileMeta, m3: FileMeta)
    requires
        m1.is_file,
        m2.is_file,
        m3.is_file,
        m1.len != u64::MAX || m1.modified is Some,
    ensures
        verdict_of(fresh(), Some(m1)) == Verdict::Waiting,
        verdict_of(looked(fresh(), m1), Some(m2)) == Verdict::Waiting,
        verdict_of(looked(looked(fresh(), m1), m2), Some(m3)) == Verdict::Ready <==> m2 == m1 && m3 == m1,
{
}

/// Looks at all downloads that are waited for, and says what becomes of each.
pub fn observe_downloads(g: &mut Global, metas: &Vec<Option<FileMeta>>) -> (r: Vec<Verdict>)
    requires
        old(g).wf(),
        metas@.len() == old(g).download_pending@.len(),
    ensures
        final(g).wf(),
        *final(g) == (Global { download_pending: final(g).download_pending, ..*old(g) }),
        final(g).download_pending@.len() == old(g).download_pending@.len(),
        r@.len() == metas@.len(),
        forall|i: int|
            0 <= i < metas@.len() ==> #[trigger] final(g).download_pending@[i] == (Pending {
                state: state_after(old(g).download_pending@[i].state, metas@[i]),
                ..old(g).download_pending@[i]
            }),
        forall|i: int|
            0 <= i < metas@.len() ==> #[trigger] r@[i] == verdict_of(old(g).download_pending@[i].state, metas@[i]),
{
    let ghost before = *g;
    let mut out: Vec<Verdict> = Vec::new();
    let n: usize = metas.len();
    let mut i: usize = 0;
    while i < n
        invariant
            i <= n,
            n == metas@.len(),
            n == before.download_pending@.len(),
            n == g.download_pending@.len(),
            out@.len() == i,
            *g == (Global { download_pending: g.download_pending, ..before }),
            forall|j: int|
                0 <= j < i ==> #[trigger] g.download_pending@[j] == (Pending {
                    state: state_after(before.download_pending@[j].state, metas@[j]),
                    ..before.download_pending@[j]
                }),
            forall|j: int| i <= j < n ==> #[trigger] g.download_pending@[j] == before.download_pending@[j],
            forall|j: int|
                0 <= j < i ==> #[trigger] out@[j] == verdict_of(before.download_pending@[j].state, metas@[j]),
        decreases n - i,
    {
        let v = look(&mut g.download_pending[i].state, metas[i]);
        out.push(v);
        i = i + 1;
    }
    proof {
        assert forall|a: int, b: int| 0 <= a < b < g.download_pending@.len() implies (#[trigger] g.download_pending@[a]).path@
            != (#[trigger] g.download_pending@[b]).path@ by {
            assert(before.download_pending@[a].path@ != before.download_pending@[b].path@);
        }
    }
    out
}

/// Begins a look at the downloads, and says whether they are collected at all: where not, nothing is
/// waited for.
pub fn begin_download_tick(
    g: &mut Global,
    known: bool,
    arrivals: &Vec<Arrival>,
    present: &Vec<String>,
    fx: &mut Vec<Effect>,
) -> (r: bool)
    requires
        old(g).wf(),
    ensures
        r == old(g).config.download_enabled,
        final(g).wf(),
        r ==> ingested(*old(g), known, arrivals@, present@, *final(g)) && final(fx)@ == old(fx)@,
        !r ==> {
            &&& *final(g) == (Global { download_pending: final(g).download_pending, ..*old(g) })
            &&& final(g).download_pending@ == Seq::<Pending>::empty()
            &&& final(fx)@ == old(fx)@.push(Effect::DropArrivals)
        },
{
    if !g.config.download_enabled {
        fx.push(Effect::DropArrivals);
        g.download_pending = Vec::new();
        return false;
    }
    ingest_desktop_events(g, known, arrivals, present);
    true
}

/// The downloads among the first `k` that are not done.
pub open spec fn undone(v: Seq<Pending>, done: Seq<bool>, k: int) -> Seq<Pending>
    decreases k,
{
    if k <= 0 {
        Seq::empty()
    } else if done[k - 1] {
        undone(v, done, k - 1)
    } else {
        undone(v, done, k - 1).push(v[k - 1])
    }
}

/// The paths that were seen, without those of the first `k` downloads that are done.
pub open spec fn unseen(seen: Seq<String>, v: Seq<Pending>, done: Seq<bool>, k: int) -> Seq<String>
    decreases k,
{
    if k <= 0 {
        seen
    } else if done[k - 1] {
        without(unseen(seen, v, done, k - 1), v[k - 1].path@)
    } else {
        unseen(seen, v, done, k - 1)
    }
}

/// The first valid fence with an id.
pub open spec fn with_id(fences: Seq<Fence>, id: u32, k: int) -> Option<usize>
    decreases fences.len() - k,
{
    if k < 0 || k >= fences.len() {
        None
    } else if fences[k].valid && fences[k].cfg.id == id {
        Some(k as usize)
    } else {
        with_id(fences, id, k + 1)
    }
}

fn find_id(fences: &Vec<Fence>, id: u32) -> (r: Option<usize>)
    ensures
        r == with_id(fences@, id, 0),
        r is Some ==> r->0 < fences@.len(),
{
    let n: usize = fences.len();
    let mut i: usize = 0;
    while i < n
        invariant
            i <= n,
            n == fences@.len(),
            with_id(fences@, id, 0) == with_id(fences@, id, i as int),
        decreases n - i,
    {
        if fences[i].valid && fences[i].cfg.id == id {
            return Some(i);
        }
        i = i + 1;
    }
    None
}

/// Where the download box stands among the fences.
pub open spec fn box_index(g: Global) -> Option<usize> {
    match g.config.download_box_id {
        Some(id) => with_id(g.fences@, id, 0),
        None => None,
    }
}

/// Where the download box stands among the fences.
pub fn download_box(g: &Global) -> (r: Option<usize>)
    ensures
        r == box_index(*g),
        r is Some ==> r->0 < g.fences@.len(),
{
    match g.config.download_box_id {
        Some(id) => find_id(&g.fences, id),
        None => None,
    }
}

/// Whether any download is done.
pub open spec fn any_done(done: Seq<bool>) -> bool {
    exists|i: int| 0 <= i < done.len() && #[trigger] done[i]
}

proof fn lemma_undone(v: Seq<Pending>, done: Seq<bool>, k: int)
    requires
        0 <= k <= v.len(),
        distinct_paths(v),
    ensures
        distinct_paths(undone(v, done, k)),
        forall|i: int|
            0 <= i < undone(v, done, k).len() ==> exists|j: int|
                0 <= j < k && !done[j] && #[trigger] v[j] == #[trigger] undone(v, done, k)[i],
    decreases k,
{
    if k > 0 {
        lemma_undone(v, done, k - 1);
        let h = undone(v, done, k - 1);
        let u = undone(v, done, k);
        assert forall|i: int| 0 <= i < u.len() implies exists|j: int|
            0 <= j < k && !done[j] && #[trigger] v[j] == #[trigger] u[i] by {
            if i < h.len() {
                assert(u[i] == h[i]);
                let j = choose|j: int| 0 <= j < k - 1 && !done[j] && #[trigger] v[j] == h[i];
                assert(v[j] == u[i]);
            } else {
                assert(v[k - 1] == u[i]);
            }
        }
        assert forall|a: int, b: int| 0 <= a < b < u.len() implies (#[trigger] u[a]).path@ != (#[trigger] u[b]).path@ by {
            assert(u[a] == h[a]);
            if b < h.len() {
                assert(u[b] == h[b]);
            } else {
                let j = choose|j: int| 0 <= j < k - 1 && !done[j] && #[trigger] v[j] == h[a];
                assert(v[j].path@ != v[k - 1].path@);
            }
        }
    }
}

/// Ends a look at the downloads: those that are gone or were moved are forgotten, and the download
/// box shows what it holds now.
pub fn finish_downloads(g: &mut Global, done: &Vec<bool>, listing: &Option<Vec<Entry>>, fx: &mut Vec<Effect>)
    requires
        old(g).wf(),
        done@.len() == old(g).download_pending@.len(),
    ensures
        final(g).wf(),
        forall|i: int|
            0 <= i < done@.len() && !#[trigger] done@[i] ==> final(g).download_pending@.contains(
                old(g).download_pending@[i],
            ),
        !any_done(done@) ==> *final(g) == *old(g) && final(fx)@ == old(fx)@,
        any_done(done@) ==> {
            let n = done@.len() as int;
            &&& *final(g) == (Global {
                desktop_seen: final(g).desktop_seen,
                download_pending: final(g).download_pending,
                fences: final(g).fences,
                ..*old(g)
            })
            &&& final(g).download_pending@ == undone(old(g).download_pending@, done@, n)
            &&& final(g).desktop_seen@ == unseen(old(g).desktop_seen@, old(g).download_pending@, done@, n)
            &&& match box_index(*old(g)) {
                Some(b) => {
                    &&& final(g).fences@ == old(g).fences@.update(b as int, final(g).fences@[b as int])
                    &&& refreshed(
                        old(g).fences@[b as int],
                        *listing,
                        old(g).icon_px,
                        final(g).fences@[b as int],
                    )
                    &&& final(fx)@ == old(fx)@ + crate::fence::stop_effects(old(g).fences@[b as int].hwnd) + seq![
                        Effect::Render(old(g).fences@[b as int].hwnd),
                        Effect::Reserve,
                    ]
                },
                None => final(g).fences@ == old(g).fences@ && final(fx)@ == old(fx)@.push(Effect::Reserve),
            }
        },
{
    let ghost before = *g;
    let ghost fx0 = fx@;
    let n: usize = done.len();
    let mut rest: Vec<Pending> = Vec::new();
    let mut any: bool = false;
    let mut i: usize = 0;
    let mut seen: Vec<String> = Vec::new();
    let mut s: usize = 0;
    while s < g.desktop_seen.len()
        invariant
            s <= g.desktop_seen@.len(),
            *g == before,
            seen@ == g.desktop_seen@.take(s as int),
        decreases g.desktop_seen@.len() - s,
    {
        seen.push(g.desktop_seen[s].clone());
        s = s + 1;
    }
    assert(seen@ =~= before.desktop_seen@);
    while i < n
        invariant
            i <= n,
            n == done@.len(),
            *g == before,
            before.wf(),
            n == before.download_pending@.len(),
            rest@ == undone(before.download_pending@, done@, i as int),
            seen@ == unseen(before.desktop_seen@, before.download_pending@, done@, i as int),
            distinct(seen@),
            any == (exists|j: int| 0 <= j < i && #[trigger] done@[j]),
        decreases n - i,
    {
        let p = &g.download_pending[i];
        if done[i] {
            any = true;
            assert(done@[i as int]);
            remove(&mut seen, &p.path);
        } else {
            rest.push(Pending { path: p.path.clone(), state: p.state });
        }
        i = i + 1;
    }
    if !any {
        return;
    }
    proof {
        lemma_undone(before.download_pending@, done@, n as int);
        lemma_undone_waits(before.download_pending@, done@, Seq::new(n as nat, |j: int| !done@[j]));
    }
    g.download_pending = rest;
    g.desktop_seen = seen;
    match download_box(g) {
        Some(b) => {
            let hwnd: u64 = g.fences[b].hwnd;
            let icon_px: u32 = g.icon_px;
            assert(g.fences@[b as int].wf());
            refresh_entries(&mut g.fences[b], listing, icon_px, fx);
            fx.push(Effect::Render(hwnd));
            proof {
                assert(g.fences@ =~= before.fences@.update(b as int, g.fences@[b as int]));
                assert forall|j: int| 0 <= j < g.fences@.len() implies (#[trigger] g.fences@[j]).wf() && drawable(
                    g.icon_px,
                    g.fences@[j].dpi,
                ) by {
                    if j != b {
                        assert(g.fences@[j] == before.fences@[j]);
                    }
                }
            }
        },
        None => {},
    }
    fx.push(Effect::Reserve);
    proof {
        match box_index(before) {
            Some(b) => {
                assert(fx@ =~= fx0 + crate::fence::stop_effects(before.fences@[b as int].hwnd) + seq![
                    Effect::Render(before.fences@[b as int].hwnd),
                    Effect::Reserve,
                ]);
            },
            None => {},
        }
    }
}

/// Where downloads go: the folder of the download box, else its usual directory.
pub open spec fn target_of(g: Global, usual: Seq<char>) -> Seq<char> {
    match box_index(g) {
        Some(b) => match g.fences@[b as int].cfg.folder {
            Some(d) => d@,
            None => usual,
        },
        None => usual,
    }
}

/// Where downloads go.
pub fn download_target(g: &Global, usual: String) -> (r: String)
    ensures
        r@ == target_of(*g, usual@),
{
    match download_box(g) {
        Some(b) => match &g.fences[b].cfg.folder {
            Some(d) => d.clone(),
            None => usual,
        },
        None => usual,
    }
}

/// Whether a download is over: it is gone, or it was ready and moving it worked.
pub open spec fn is_over(v: Verdict, moved: bool) -> bool {
    v == Verdict::Gone || (v == Verdict::Ready && moved)
}

/// Which downloads are over, given which of them could be moved.
pub fn completed(verdicts: &Vec<Verdict>, moved: &Vec<bool>) -> (r: Vec<bool>)
    requires
        moved@.len() == verdicts@.len(),
    ensures
        r@.len() == verdicts@.len(),
        forall|i: int| 0 <= i < r@.len() ==> #[trigger] r@[i] == is_over(verdicts@[i], moved@[i]),
{
    let mut out: Vec<bool> = Vec::new();
    let n: usize = verdicts.len();
    let mut i: usize = 0;
    while i < n
        invariant
            i <= n,
            n == verdicts@.len(),
            n == moved@.len(),
            out@.len() == i,
            forall|j: int| 0 <= j < i ==> #[trigger] out@[j] == is_over(verdicts@[j], moved@[j]),
        decreases n - i,
    {
        let over: bool = match verdicts[i] {
            Verdict::Gone => true,
            Verdict::Waiting => false,
            Verdict::Ready => moved[i],
        };
        out.push(over);
        i = i + 1;
    }
    out
}

/// A file on the desktop.
#[derive(Debug)]
pub struct DesktopFile {
    pub path: String,
    /// The last part of the path.
    pub name: String,
    pub is_file: bool,
}

/// The first rule for an extension, from the `k`th on.
pub open spec fn rule_for(rules: Seq<SweepRule>, ext: Seq<char>, k: int) -> Option<usize>
    decreases rules.len() - k,
{
    if k < 0 || k >= rules.len() {
        None
    } else if lower_text(rules[k].ext@) == ext {
        Some(k as usize)
    } else {
        rule_for(rules, ext, k + 1)
    }
}

/// The first rule for a file name.
pub fn find_rule(rules: &Vec<SweepRule>, name: &String) -> (r: Option<usize>)
    ensures
        r == rule_for(rules@, dotted_extension(name@), 0),
        r is Some ==> r->0 < rules@.len(),
{
    let ext = ext_of(name.as_str());
    let n: usize = rules.len();
    let mut i: usize = 0;
    while i < n
        invariant
            i <= n,
            n == rules@.len(),
            ext@ == dotted_extension(name@),
            rule_for(rules@, ext@, 0) == rule_for(rules@, ext@, i as int),
        decreases n - i,
    {
        if lowercase(rules[i].ext.as_str()) == ext {
            return Some(i);
        }
        i = i + 1;
    }
    None
}

/// Whether a rule is for any of the file names.
pub open spec fn wanted(rules: Seq<SweepRule>, names: Seq<String>) -> bool {
    exists|i: int| 0 <= i < names.len() && rule_for(rules, dotted_extension((#[trigger] names[i])@), 0) is Some
}

/// Whether changes on the desktop call for a sweep: a rule is for one of the file names.
pub fn sweep_wanted(rules: &Vec<SweepRule>, names: &Vec<String>) -> (r: bool)
    ensures
        r == wanted(rules@, names@),
{
    let n: usize = names.len();
    let mut i: usize = 0;
    while i < n
        invariant
            i <= n,
            n == names@.len(),
            forall|j: int|
                0 <= j < i ==> rule_for(rules@, dotted_extension((#[trigger] names@[j])@), 0) is None,
        decreases n - i,
    {
        if find_rule(rules, &names[i]).is_some() {
            assert(rule_for(rules@, dotted_extension(names@[i as int]@), 0) is Some);
            return true;
        }
        i = i + 1;
    }
    false
}

/// Whether a file is moved off the desktop by a rule: it is a file, the user has not put it there
/// from the download box, and it is no download that is waited for.
pub open spec fn sweepable(g: Global, f: DesktopFile) -> bool {
    &&& f.is_file
    &&& !holds(g.download_ignored@, f.path@)
    &&& pending_index(g.download_pending@, f.path@) == g.download_pending@.len()
    &&& rule_for(g.config.sweep_rules@, dotted_extension(f.name@), 0) is Some
}

/// Which of the first `k` files are moved, and where.
pub open spec fn sweep_plan(g: Global, files: Seq<DesktopFile>, k: int) -> Seq<Retry>
    decreases k,
{
    if k <= 0 {
        Seq::empty()
    } else {
        let f = files[k - 1];
        let head = sweep_plan(g, files, k - 1);
        if sweepable(g, f) {
            let rule = rule_for(g.config.sweep_rules@, dotted_extension(f.name@), 0)->0;
            head.push(Retry { src: f.path, dest: g.config.sweep_rules@[rule as int].dest })
        } else {
            head
        }
    }
}

/// Begins a sweep of the desktop: new downloads are taken in first, so that no rule takes them away.
pub fn begin_sweep(g: &mut Global, known: bool, arrivals: &Vec<Arrival>, present: &Vec<String>)
    requires
        old(g).wf(),
    ensures
        final(g).wf(),
        if old(g).config.download_enabled {
            ingested(*old(g), known, arrivals@, present@, *final(g))
        } else {
            *final(g) == *old(g)
        },
{
    if g.config.download_enabled {
        ingest_desktop_events(g, known, arrivals, present);
    }
}

/// Says which files are moved off the desktop, and where.
pub fn sweep_desktop(g: &Global, files: &Vec<DesktopFile>) -> (r: Vec<Retry>)
    ensures
        r@ == sweep_plan(*g, files@, files@.len() as int),
        forall|i: int, k: int|
            0 <= i < files@.len() && #[trigger] moved_by(*g, files@[i], k) ==> r@.contains(
                Retry { src: files@[i].path, dest: g.config.sweep_rules@[k].dest },
            ),
{
    let mut out: Vec<Retry> = Vec::new();
    let n: usize = files.len();
    let mut i: usize = 0;
    while i < n
        invariant
            i <= n,
            n == files@.len(),
            out@ == sweep_plan(*g, files@, i as int),
        decreases n - i,
    {
        let f = &files[i];
        if f.is_file && !contains(&g.download_ignored, &f.path) && find_pending(&g.download_pending, &f.path)
            == g.download_pending.len() {
            match find_rule(&g.config.sweep_rules, &f.name) {
                Some(k) => {
                    out.push(Retry { src: f.path.clone(), dest: g.config.sweep_rules[k].dest.clone() });
                },
                None => {},
            }
        }
        i = i + 1;
    }
    proof {
        assert(g.config.sweep_rules.len() == g.config.sweep_rules@.len());
        assert forall|i: int, k: int| 0 <= i < files@.len() && #[trigger] moved_by(*g, files@[i], k) implies out@.contains(
            Retry { src: files@[i].path, dest: g.config.sweep_rules@[k].dest },
        ) by {
            lemma_sweep_moves(*g, files@, i, k);
        }
    }
    out
}

/// What the user took out of the download box, and what is still waited for, stays where it is.
pub proof fn lemma_sweep_spares(g: Global, files: Seq<DesktopFile>, k: int)
    requires
        0 <= k <= files.len(),
    ensures
        forall|i: int|
            0 <= i < sweep_plan(g, files, k).len() ==> !holds(
                g.download_ignored@,
                (#[trigger] sweep_plan(g, files, k)[i]).src@,
            ) && pending_index(g.download_pending@, sweep_plan(g, files, k)[i].src@) == g.download_pending@.len(),
    decreases k,
{
    if k > 0 {
        lemma_sweep_spares(g, files, k - 1);
        let head = sweep_plan(g, files, k - 1);
        let all = sweep_plan(g, files, k);
        assert forall|i: int| 0 <= i < all.len() implies !holds(g.download_ignored@, (#[trigger] all[i]).src@)
            && pending_index(g.download_pending@, all[i].src@) == g.download_pending@.len() by {
            if i < head.len() {
                assert(all[i] == head[i]);
            } else {
                assert(all[i].src == files[k - 1].path);
            }
        }
    }
}

/// Without rules nothing is moved.
pub proof fn lemma_no_rules_no_sweep(g: Global, files: Seq<DesktopFile>, k: int)
    requires
        0 <= k <= files.len(),
        g.config.sweep_rules@.len() == 0,
    ensures
        sweep_plan(g, files, k).len() == 0,
    decreases k,
{
    if k > 0 {
        lemma_no_rules_no_sweep(g, files, k - 1);
    }
}

/// Notes a file that could not be moved, to try again.
pub fn sweep_failed(g: &mut Global, m: Retry)
    ensures
        *final(g) == (Global { sweep_retry: final(g).sweep_retry, ..*old(g) }),
        final(g).sweep_retry@ == old(g).sweep_retry@.push(m),
        old(g).wf() ==> final(g).wf(),
{
    g.sweep_retry.push(m);
}

/// What came of another attempt to move a file.
#[derive(Clone, Copy, Debug, PartialEq, Eq, Structural)]
pub enum RetryOutcome {
    Gone,
    Moved,
    Failed,
}

/// Which of the first `k` files are tried once more: those that are there and could not be moved.
pub open spec fn retried(v: Seq<Retry>, outcomes: Seq<RetryOutcome>, k: int) -> Seq<Retry>
    decreases k,
{
    if k <= 0 {
        Seq::empty()
    } else if outcomes[k - 1] == RetryOutcome::Failed {
        retried(v, outcomes, k - 1).push(v[k - 1])
    } else {
        retried(v, outcomes, k - 1)
    }
}

/// Takes in what came of the attempts to move the files that could not be moved before.
pub fn sweep_retry_tick(g: &mut Global, outcomes: &Vec<RetryOutcome>)
    requires
        outcomes@.len() == old(g).sweep_retry@.len(),
    ensures
        *final(g) == (Global { sweep_retry: final(g).sweep_retry, ..*old(g) }),
        final(g).sweep_retry@ == retried(old(g).sweep_retry@, outcomes@, outcomes@.len() as int),
        old(g).wf() ==> final(g).wf(),
{
    let mut keep: Vec<Retry> = Vec::new();
    let n: usize = outcomes.len();
    let mut i: usize = 0;
    while i < n
        invariant
            i <= n,
            n == outcomes@.len(),
            n == g.sweep_retry@.len(),
            *g == *old(g),
            keep@ == retried(g.sweep_retry@, outcomes@, i as int),
        decreases n - i,
    {
        match outcomes[i] {
            RetryOutcome::Failed => {
                keep.push(
                    Retry { src: g.sweep_retry[i].src.clone(), dest: g.sweep_retry[i].dest.clone() },
                );
            },
            RetryOutcome::Gone | RetryOutcome::Moved => {},
        }
        i = i + 1;
    }
    g.sweep_retry = keep;
}

/// Notes that the user took a file out of the download box to the desktop. `path` is where it is
/// there, where both the desktop and the file's name are known.
pub fn exclude_download_dragout(g: &mut Global, path: Option<String>, exists: bool)
    ensures
        *final(g) == (Global { download_ignored: final(g).download_ignored, ..*old(g) }),
        final(g).download_ignored@ == (if path is Some && exists {
            with_path(old(g).download_ignored@, path->0)
        } else {
            old(g).download_ignored@
        }),
        path is Some && exists ==> holds(final(g).download_ignored@, path->0@),
        old(g).wf() ==> final(g).wf(),
{
    match path {
        Some(p) => {
            if exists {
                insert(&mut g.download_ignored, p);
            }
        },
        None => {},
    }
}

/// Where files that are dropped on a window go: the folder of its fence, and for a fence without one
/// the vault where that can be had.
pub open spec fn drop_target_of(g: Global, hwnd: u64, vault: String, vault_ready: bool) -> Option<String> {
    match index_of(g.fences@, hwnd) {
        Some(i) => match g.fences@[i as int].cfg.folder {
            Some(d) => Some(d),
            None => if vault_ready {
                Some(vault)
            } else {
                None
            },
        },
        None => None,
    }
}

/// Where files that are dropped on a window go.
pub fn drop_target(g: &Global, hwnd: u64, vault: String, vault_ready: bool) -> (r: Option<String>)
    ensures
        r == drop_target_of(*g, hwnd, vault, vault_ready),
{
    match fence_idx(g, hwnd) {
        Some(i) => match &g.fences[i].cfg.folder {
            Some(d) => Some(d.clone()),
            None => if vault_ready {
                Some(vault)
            } else {
                None
            },
        },
        None => None,
    }
}

/// A file that is dropped on a fence.
#[derive(Debug)]
pub struct Dropped {
    pub path: String,
    pub exists: bool,
    /// Whether it is in the target already.
    pub in_target: bool,
}

/// Which of the first `k` dropped files are moved.
pub open spec fn drop_plan(files: Seq<Dropped>, k: int) -> Seq<String>
    decreases k,
{
    if k <= 0 {
        Seq::empty()
    } else if files[k - 1].exists && !files[k - 1].in_target {
        drop_plan(files, k - 1).push(files[k - 1].path)
    } else {
        drop_plan(files, k - 1)
    }
}

/// Says which of the dropped files are moved: those that are there and not in the target already.
pub fn handle_drop(files: &Vec<Dropped>) -> (r: Vec<String>)
    ensures
        r@ == drop_plan(files@, files@.len() as int),
{
    let mut out: Vec<String> = Vec::new();
    let n: usize = files.len();
    let mut i: usize = 0;
    while i < n
        invariant
            i <= n,
            n == files@.len(),
            out@ == drop_plan(files@, i as int),
        decreases n - i,
    {
        if files[i].exists && !files[i].in_target {
            out.push(files[i].path.clone());
        }
        i = i + 1;
    }
    out
}

/// Tells the fence that files were dropped on it, if any was moved.
pub fn drop_done(hwnd: u64, moved: usize, fx: &mut Vec<Effect>)
    ensures
        final(fx)@ == (if moved > 0 {
            old(fx)@.push(Effect::PostDrop(hwnd))
        } else {
            old(fx)@
        }),
{
    if moved > 0 {
        fx.push(Effect::PostDrop(hwnd));
    }
}

} // verus!
