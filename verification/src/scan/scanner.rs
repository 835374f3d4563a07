//! The bookkeeping of a scan, step by step, and what holds of every scan.

use vstd::prelude::*;
use crate::artwork::ArtworkCache;
use crate::library::{
    complete_only, entries_map, has_path, lemma_entries_map_keys, lemma_entries_map_value,
    paths_unique, stored, Library, MetaView, TrackView,
};
use crate::scan::candidates::{lemma_seeded, seed, seeded, FoundFile};
use crate::scan::extraction::{
    artwork_of, cache_after, is_record_of, metadata_for, metadata_of, sample_name, ArtworkWrite,
    Extraction, Recorded,
};
use crate::scan::progress::{
    due, is_due, lemma_percent_bound, percent, percent_of, Progress, PROGRESS_INTERVAL_MS,
    SNAPSHOT_INTERVAL_MS,
};

verus! {

/// The `file://` address of an absolute file path; `None` where the path has
/// none.
pub uninterp spec fn file_uri_of(path: Seq<char>) -> Option<Seq<char>>;

/// Turns a file path into a `file://` address with `Url::from_file_path` of
/// the `url` crate. The address is a function of the path alone; the
/// contract names it. There is none where the path is not absolute.
#[verifier::external_body]
fn file_uri(path: &str) -> (r: Option<String>)
    ensures
        r.deep_view() == file_uri_of(path@),
{
    match url::Url::from_file_path(path) {
        Ok(address) => Some(address.as_str().to_owned()),
        Err(_) => None,
    }
}

/// The next file to read the tags of.
#[derive(Debug)]
pub struct ExtractJob {
    pub path: String,
    /// The file's `file://` address. A file without one cannot be read and
    /// is recorded as [`Extraction::Failed`].
    pub uri: Option<String>,
}

/// What recording one file gives to send on, in this order: the progress
/// message, then the partial snapshot.
pub struct StepOutcome {
    pub progress: Option<Progress>,
    /// The complete entries so far.
    pub snapshot: Option<Library>,
    /// The picture to write into the cache directory.
    pub artwork: Option<ArtworkWrite>,
}

/// The mathematical value of a [`Scanner`].
pub ghost struct ScanView {
    /// The files of the scan in the order they are handled, with what is
    /// recorded of each.
    pub entries: Seq<TrackView>,
    /// The number of files handled so far.
    pub done: nat,
    /// When the last progress message was due.
    pub last_progress_ms: u64,
    /// When the last partial snapshot was due.
    pub last_snapshot_ms: u64,
}

impl ScanView {
    /// The number of files the scan handles in all.
    pub open spec fn total(self) -> nat {
        self.entries.len()
    }

    /// What holds of every scan: files are handled in order, nothing is
    /// recorded of a file before its turn, and what is recorded of a file is
    /// a record of it.
    pub open spec fn valid(self) -> bool {
        &&& self.done <= self.entries.len() <= usize::MAX
        &&& paths_unique(self.entries)
        &&& forall|i: int|
            self.done <= i < self.entries.len() ==> (#[trigger] self.entries[i]).1
                == MetaView::empty()
        &&& forall|i: int|
            0 <= i < self.done ==> (#[trigger] self.entries[i]).1 == MetaView::empty()
                || is_record_of(self.entries[i].1, self.entries[i].0)
    }

    /// The path of the file whose turn it is.
    pub open spec fn current(self) -> Seq<char>
        recommends
            self.done < self.total(),
    {
        self.entries[self.done as int].0
    }

    /// The scan after the file whose turn it is was recorded with `meta` at
    /// the time `now`. A file that could not be read (`meta` is `None`)
    /// keeps its empty record.
    pub open spec fn recorded(self, meta: Option<MetaView>, now: u64) -> ScanView {
        if self.done >= self.total() {
            self
        } else {
            ScanView {
                entries: match meta {
                    Some(m) => stored(self.entries, self.current(), m),
                    None => self.entries,
                },
                done: self.done + 1,
                last_progress_ms: if is_due(self.last_progress_ms, now, PROGRESS_INTERVAL_MS) {
                    now
                } else {
                    self.last_progress_ms
                },
                last_snapshot_ms: if is_due(self.last_snapshot_ms, now, SNAPSHOT_INTERVAL_MS) {
                    now
                } else {
                    self.last_snapshot_ms
                },
            }
        }
    }

    /// The progress message that recording a file at the time `now` sends:
    /// one is sent if the last one is at least [`PROGRESS_INTERVAL_MS`] old.
    pub open spec fn progress_at(self, now: u64) -> Option<Progress> {
        if self.done < self.total() && is_due(self.last_progress_ms, now, PROGRESS_INTERVAL_MS) {
            Some(
                Progress {
                    done: (self.done + 1) as usize,
                    total: self.total() as usize,
                    percent: percent_of(self.done + 1, self.total()) as u8,
                },
            )
        } else {
            None
        }
    }

    /// Whether recording a file at the time `now` sends a partial snapshot:
    /// one is sent if the last one is at least [`SNAPSHOT_INTERVAL_MS`] old.
    pub open spec fn snapshot_at(self, now: u64) -> bool {
        self.done < self.total() && is_due(self.last_snapshot_ms, now, SNAPSHOT_INTERVAL_MS)
    }

    /// The library that the entries so far stand for, incomplete records
    /// left out.
    pub open spec fn results(self) -> Map<Seq<char>, MetaView> {
        complete_only(entries_map(self.entries))
    }
}

/// The progress messages that a scan sends while the files of `steps` are
/// recorded one after the other, each with its record and its time.
pub open spec fn progress_trace(s: ScanView, steps: Seq<(Option<MetaView>, u64)>) -> Seq<Progress>
    decreases steps.len(),
{
    if steps.len() == 0 {
        Seq::empty()
    } else {
        let rest = progress_trace(s.recorded(steps[0].0, steps[0].1), steps.drop_first());
        match s.progress_at(steps[0].1) {
            Some(p) => seq![p] + rest,
            None => rest,
        }
    }
}

/// The message that ends a scan of `total` files.
pub open spec fn final_progress(total: nat) -> Progress {
    Progress { done: total as usize, total: total as usize, percent: 100 }
}

/// Recording a file keeps the number of files, and moves on by one file.
pub proof fn lemma_recorded_counts(s: ScanView, meta: Option<MetaView>, now: u64)
    requires
        s.done < s.total(),
    ensures
        s.recorded(meta, now).total() == s.total(),
        s.recorded(meta, now).done == s.done + 1,
{
    assert(s.entries[s.done as int].0 == s.current());
}

/// Recording a file with nothing or with a record of it keeps the scan
/// valid.
pub proof fn lemma_recorded_valid(s: ScanView, meta: Option<MetaView>, now: u64)
    requires
        s.valid(),
        meta is Some ==> is_record_of(meta->0, s.current()),
    ensures
        s.recorded(meta, now).valid(),
{
    if s.done < s.total() {
        let r = s.recorded(meta, now);
        lemma_recorded_counts(s, meta, now);
        assert forall|i: int| 0 <= i < s.entries.len() implies (#[trigger] r.entries[i]).0
            == s.entries[i].0 && (i != s.done ==> r.entries[i] == s.entries[i]) by {
            if i != s.done {
                assert(s.entries[i].0 != s.entries[s.done as int].0);
            }
        }
        assert forall|i: int, j: int| 0 <= i < j < r.entries.len() implies
            (#[trigger] r.entries[i]).0 != (#[trigger] r.entries[j]).0
        by {
            assert(s.entries[i].0 != s.entries[j].0);
        }
        assert forall|i: int| r.done <= i < r.entries.len() implies (#[trigger] r.entries[i]).1
            == MetaView::empty() by {
            assert(s.entries[i].1 == MetaView::empty());
        }
        assert forall|i: int| 0 <= i < r.done implies (#[trigger] r.entries[i]).1
            == MetaView::empty() || is_record_of(r.entries[i].1, r.entries[i].0) by {
            if i < s.done {
                assert(s.entries[i].1 == MetaView::empty() || is_record_of(
                    s.entries[i].1,
                    s.entries[i].0,
                ));
            } else {
                assert(s.entries[i].1 == MetaView::empty());
            }
        }
    }
}

/// Every progress message of a scan counts more files than the one before
/// it and never more than the scan has, and names the scan's total; so the
/// message that ends the scan, which counts them all, counts no fewer than
/// any before it.
pub proof fn lemma_progress_monotone(s: ScanView, steps: Seq<(Option<MetaView>, u64)>)
    requires
        s.done <= s.total() <= usize::MAX,
    ensures
        forall|i: int|
            0 <= i < progress_trace(s, steps).len() ==> {
                let p = #[trigger] progress_trace(s, steps)[i];
                &&& s.done < p.done <= p.total
                &&& p.total == s.total()
                &&& p.percent == percent_of(p.done as nat, p.total as nat)
                &&& p.percent <= 100
                &&& p.done <= final_progress(s.total()).done
            },
        forall|i: int, j: int|
            0 <= i < j < progress_trace(s, steps).len() ==> (#[trigger] progress_trace(
                s,
                steps,
            )[i]).done < (#[trigger] progress_trace(s, steps)[j]).done,
    decreases steps.len(),
{
    if steps.len() > 0 {
        let next = s.recorded(steps[0].0, steps[0].1);
        let rest = progress_trace(next, steps.drop_first());
        let all = progress_trace(s, steps);
        if s.done < s.total() {
            lemma_recorded_counts(s, steps[0].0, steps[0].1);
        }
        lemma_progress_monotone(next, steps.drop_first());
        lemma_percent_bound(s.done + 1, s.total());
        match s.progress_at(steps[0].1) {
            Some(p) => {
                assert(all =~= seq![p] + rest);
                assert forall|i: int| 0 <= i < all.len() implies {
                    let q = #[trigger] all[i];
                    &&& s.done < q.done <= q.total
                    &&& q.total == s.total()
                    &&& q.percent == percent_of(q.done as nat, q.total as nat)
                    &&& q.percent <= 100
                    &&& q.done <= final_progress(s.total()).done
                } by {
                    if i > 0 {
                        assert(all[i] == rest[i - 1]);
                    }
                }
                assert forall|i: int, j: int| 0 <= i < j < all.len() implies (#[trigger] all[i]).done
                    < (#[trigger] all[j]).done by {
                    assert(all[j] == rest[j - 1]);
                    if i > 0 {
                        assert(all[i] == rest[i - 1]);
                    }
                }
            },
            None => {
                assert(all =~= rest);
            },
        }
    }
}

/// Every entry of the results of a valid scan is a record of the file at
/// its path: none lacks its id.
pub proof fn lemma_results_ids(s: ScanView)
    requires
        s.valid(),
    ensures
        forall|path: Seq<char>| #[trigger]
            s.results().contains_key(path) ==> is_record_of(s.results()[path], path),
{
    assert forall|path: Seq<char>| #[trigger] s.results().contains_key(path) implies is_record_of(
        s.results()[path],
        path,
    ) by {
        lemma_entries_map_keys(s.entries, path);
        let i = choose|i: int| 0 <= i < s.entries.len() && (#[trigger] s.entries[i]).0 == path;
        lemma_entries_map_value(s.entries, i);
    }
}

/// The scan after the files of `steps` were recorded one after the other,
/// each with its record and its time.
pub open spec fn after(s: ScanView, steps: Seq<(Option<MetaView>, u64)>) -> ScanView
    decreases steps.len(),
{
    if steps.len() == 0 {
        s
    } else {
        after(s.recorded(steps[0].0, steps[0].1), steps.drop_first())
    }
}

/// Whether `steps` are steps of the scan `s`: there is a file for each, and
/// each records nothing or a record of the file whose turn it is.
pub open spec fn steps_fit(s: ScanView, steps: Seq<(Option<MetaView>, u64)>) -> bool {
    &&& s.done + steps.len() <= s.total()
    &&& forall|k: int|
        0 <= k < steps.len() ==> ((#[trigger] steps[k]).0 is Some ==> is_record_of(
            steps[k].0->0,
            s.entries[s.done + k].0,
        ))
}

/// Recording the file whose turn it is changes what is recorded of that
/// file, and nothing else.
proof fn lemma_recorded_entries(s: ScanView, meta: Option<MetaView>, now: u64)
    requires
        s.valid(),
        s.done < s.total(),
    ensures
        s.recorded(meta, now).entries.len() == s.entries.len(),
        forall|i: int|
            0 <= i < s.entries.len() ==> (#[trigger] s.recorded(meta, now).entries[i]) == if i
                == s.done && meta is Some {
                (s.entries[i].0, meta->0)
            } else {
                s.entries[i]
            },
{
    let r = s.recorded(meta, now);
    assert(s.entries[s.done as int].0 == s.current());
    assert forall|i: int| 0 <= i < s.entries.len() implies (#[trigger] r.entries[i]) == if i
        == s.done && meta is Some {
        (s.entries[i].0, meta->0)
    } else {
        s.entries[i]
    } by {
        if i != s.done {
            assert(s.entries[i].0 != s.entries[s.done as int].0);
        }
    }
}

/// After its steps a scan is valid and has moved on by as many files as
/// there were steps; of each of these files it holds what the step recorded,
/// and of every other file what it held before.
pub proof fn lemma_after(s: ScanView, steps: Seq<(Option<MetaView>, u64)>)
    requires
        s.valid(),
        steps_fit(s, steps),
    ensures
        after(s, steps).valid(),
        after(s, steps).done == s.done + steps.len(),
        after(s, steps).entries.len() == s.entries.len(),
        forall|i: int|
            0 <= i < s.entries.len() ==> (#[trigger] after(s, steps).entries[i]) == if s.done <= i
                < s.done + steps.len() && steps[i - s.done].0 is Some {
                (s.entries[i].0, steps[i - s.done].0->0)
            } else {
                s.entries[i]
            },
    decreases steps.len(),
{
    if steps.len() > 0 {
        let next = s.recorded(steps[0].0, steps[0].1);
        let rest = steps.drop_first();
        lemma_recorded_valid(s, steps[0].0, steps[0].1);
        lemma_recorded_counts(s, steps[0].0, steps[0].1);
        lemma_recorded_entries(s, steps[0].0, steps[0].1);
        assert(steps_fit(next, rest)) by {
            assert forall|k: int| 0 <= k < rest.len() && (#[trigger] rest[k]).0 is Some implies is_record_of(
                rest[k].0->0,
                next.entries[next.done + k].0,
            ) by {
                assert(rest[k] == steps[k + 1]);
                assert(next.entries[next.done + k].0 == s.entries[s.done + k + 1].0);
            }
        }
        lemma_after(next, rest);
        let end = after(s, steps);
        assert(end == after(next, rest));
        assert forall|i: int| 0 <= i < s.entries.len() implies (#[trigger] end.entries[i]) == if s.done
            <= i < s.done + steps.len() && steps[i - s.done].0 is Some {
            (s.entries[i].0, steps[i - s.done].0->0)
        } else {
            s.entries[i]
        } by {
            if next.done <= i < next.done + rest.len() {
                assert(rest[i - next.done] == steps[i - s.done]);
            }
        }
    }
}

/// What a scan finds: once a scan has handled every file, its results hold
/// the record of each file that was read, under the file's path, and no
/// entry for a file that could not be read, nor for any other path.
pub proof fn lemma_scan_results(s: ScanView, steps: Seq<(Option<MetaView>, u64)>)
    requires
        s.valid(),
        s.done == 0,
        steps.len() == s.total(),
        steps_fit(s, steps),
    ensures
        after(s, steps).done == after(s, steps).total(),
        forall|k: int|
            0 <= k < steps.len() ==> match (#[trigger] steps[k]).0 {
                Some(meta) => after(s, steps).results().contains_key(s.entries[k].0) && after(
                    s,
                    steps,
                ).results()[s.entries[k].0] == meta,
                None => !after(s, steps).results().contains_key(s.entries[k].0),
            },
        forall|path: Seq<char>| #[trigger]
            after(s, steps).results().contains_key(path) ==> has_path(s.entries, path),
{
    let end = after(s, steps);
    lemma_after(s, steps);
    assert forall|k: int| 0 <= k < steps.len() implies match (#[trigger] steps[k]).0 {
        Some(meta) => end.results().contains_key(s.entries[k].0) && end.results()[s.entries[k].0]
            == meta,
        None => !end.results().contains_key(s.entries[k].0),
    } by {
        lemma_entries_map_value(end.entries, k);
        assert(end.entries[k].0 == s.entries[k].0);
        assert(s.entries[k].1 == MetaView::empty());
    }
    assert forall|path: Seq<char>| #[trigger] end.results().contains_key(path) implies has_path(
        s.entries,
        path,
    ) by {
        lemma_entries_map_keys(end.entries, path);
        let i = choose|i: int| 0 <= i < end.entries.len() && (#[trigger] end.entries[i]).0 == path;
        assert(s.entries[i].0 == path);
    }
}

/// The bookkeeping of one scan: which file is next, what is recorded so far,
/// and when the last messages went out.
///
/// A scan handles its files one after the other. Whoever runs it reads the
/// tags of the file that [`Scanner::next_job`] names and hands what came of
/// it to [`Scanner::record`], until no file is left; [`Scanner::finish`]
/// then gives the result. Only one scan is to run at a time; the scanner
/// does not guard against a second one.
pub struct Scanner {
    working: Library,
    done: usize,
    last_progress_ms: u64,
    last_snapshot_ms: u64,
}

impl View for Scanner {
    type V = ScanView;

    closed spec fn view(&self) -> ScanView {
        ScanView {
            entries: self.working.entry_views(),
            done: self.done as nat,
            last_progress_ms: self.last_progress_ms,
            last_snapshot_ms: self.last_snapshot_ms,
        }
    }
}

impl Scanner {
    #[verifier::type_invariant]
    spec fn well_formed(self) -> bool {
        self@.valid()
    }

    /// A scan of no files.
    fn idle() -> (r: Scanner)
        ensures
            r@.entries.len() == 0,
    {
        Scanner { working: Library::new(), done: 0, last_progress_ms: 0, last_snapshot_ms: 0 }
    }

    /// A scan of the files among `found` that are taken into the library,
    /// started at the time `now_ms`.
    pub fn new(found: &[FoundFile], now_ms: u64) -> (r: Scanner)
        ensures
            r@ == (ScanView {
                entries: seeded(found@),
                done: 0,
                last_progress_ms: now_ms,
                last_snapshot_ms: now_ms,
            }),
            r@.valid(),
    {
        let working = seed(found);
        proof {
            lemma_seeded(found@);
            use_type_invariant(&working);
            working.lemma_entries();
        }
        Scanner { working, done: 0, last_progress_ms: now_ms, last_snapshot_ms: now_ms }
    }

    /// The number of files the scan handles in all.
    pub fn total(&self) -> (r: usize)
        ensures
            r == self@.total(),
    {
        self.working.len()
    }

    /// The number of files handled so far.
    pub fn done(&self) -> (r: usize)
        ensures
            r == self@.done,
            r <= self@.total(),
    {
        proof {
            use_type_invariant(self);
        }
        self.done
    }

    /// Whether every file has been handled.
    pub fn is_finished(&self) -> (r: bool)
        ensures
            r == (self@.done == self@.total()),
    {
        proof {
            use_type_invariant(self);
        }
        self.done >= self.working.len()
    }

    /// The file whose turn it is, with its address; `None` once every file
    /// has been handled.
    pub fn next_job(&self) -> (r: Option<ExtractJob>)
        ensures
            r is Some <==> self@.done < self@.total(),
            r is Some ==> r->0.path@ == self@.current() && r->0.uri.deep_view() == file_uri_of(
                self@.current(),
            ),
    {
        proof {
            use_type_invariant(self);
        }
        if self.done < self.working.len() {
            let entries = self.working.entries();
            let path = entries[self.done].0.clone();
            assert(entries.deep_view()[self.done as int].0 == path@);
            let uri = file_uri(path.as_str());
            Some(ExtractJob { path, uri })
        } else {
            None
        }
    }

    /// Records what reading the file whose turn it is gave, at the time
    /// `now_ms`, and tells what to send on.
    ///
    /// The file's record is stored, unless reading it failed; its artwork
    /// goes through `artwork`. A progress message is due every
    /// [`PROGRESS_INTERVAL_MS`], a snapshot of the complete entries every
    /// [`SNAPSHOT_INTERVAL_MS`]. Once every file has been handled, nothing
    /// is recorded and nothing sent.
    pub fn record(
        &mut self,
        extraction: Extraction,
        artwork: &mut ArtworkCache,
        dir_ready: bool,
        now_ms: u64,
    ) -> (out: StepOutcome)
        ensures
            final(self)@.valid(),
            old(self)@.done >= old(self)@.total() ==> {
                &&& final(self)@ == old(self)@
                &&& final(artwork)@ == old(artwork)@
                &&& out.progress is None
                &&& out.snapshot is None
                &&& out.artwork is None
            },
            old(self)@.done < old(self)@.total() ==> {
                let meta = metadata_of(old(self)@.current(), extraction, dir_ready);
                &&& meta is Some ==> is_record_of(meta->0, old(self)@.current())
                &&& final(self)@ == old(self)@.recorded(meta, now_ms)
                &&& out.progress == old(self)@.progress_at(now_ms)
                &&& out.snapshot is Some <==> old(self)@.snapshot_at(now_ms)
                &&& out.snapshot is Some ==> out.snapshot->0@ == final(self)@.results()
                &&& final(artwork)@ == cache_after(old(artwork)@, extraction, dir_ready)
                &&& match sample_name(artwork_of(extraction), dir_ready) {
                    Some(name) => if old(artwork)@.contains(name) {
                        out.artwork is None
                    } else {
                        out.artwork is Some && out.artwork->0.filename@ == name
                            && out.artwork->0.bytes@ == artwork_of(extraction)->0.bytes->0@
                    },
                    None => out.artwork is None,
                }
            },
    {
        let mut taken = Scanner::idle();
        std::mem::swap(self, &mut taken);
        proof {
            use_type_invariant(&taken);
        }
        let ghost before = taken@;
        let Scanner { mut working, done, last_progress_ms, last_snapshot_ms } = taken;
        let total: usize = working.len();
        if done >= total {
            *self = Scanner { working, done, last_progress_ms, last_snapshot_ms };
            return StepOutcome { progress: None, snapshot: None, artwork: None };
        }
        let entries = working.entries();
        let path = entries[done].0.clone();
        assert(entries.deep_view()[done as int].0 == path@);
        let recorded = metadata_for(path.as_str(), extraction, artwork, dir_ready);
        let Recorded { meta, artwork: write } = recorded;
        let ghost meta_view = meta.deep_view();
        proof {
            lemma_recorded_valid(before, meta_view, now_ms);
            lemma_recorded_counts(before, meta_view, now_ms);
        }
        match meta {
            Some(m) => {
                working.insert(path, m);
            },
            None => {},
        }
        let done_now: usize = done + 1;
        let mut progress: Option<Progress> = None;
        let mut progress_ms: u64 = last_progress_ms;
        if due(last_progress_ms, now_ms, PROGRESS_INTERVAL_MS) {
            progress = Some(Progress { done: done_now, total, percent: percent(done_now, total) });
            progress_ms = now_ms;
        }
        let mut snapshot: Option<Library> = None;
        let mut snapshot_ms: u64 = last_snapshot_ms;
        if due(last_snapshot_ms, now_ms, SNAPSHOT_INTERVAL_MS) {
            let mut copy = working.clone();
            proof {
                use_type_invariant(&working);
                working.lemma_entries();
            }
            copy.purge_incomplete();
            snapshot = Some(copy);
            snapshot_ms = now_ms;
        }
        *self = Scanner {
            working,
            done: done_now,
            last_progress_ms: progress_ms,
            last_snapshot_ms: snapshot_ms,
        };
        StepOutcome { progress, snapshot, artwork: write }
    }

    /// Ends the scan once every file has been handled: gives the message
    /// that ends it and the library of the complete entries. While files
    /// are left, the scan is handed back as it is.
    pub fn finish(self) -> (r: Result<(Progress, Library), Scanner>)
        ensures
            r is Ok <==> self@.done == self@.total(),
            r is Ok ==> {
                &&& r->Ok_0.0 == final_progress(self@.total())
                &&& r->Ok_0.1@ == self@.results()
                &&& forall|path: Seq<char>| #[trigger]
                    r->Ok_0.1@.contains_key(path) ==> is_record_of(r->Ok_0.1@[path], path)
            },
            r is Err ==> r->Err_0@ == self@,
    {
        proof {
            use_type_invariant(&self);
            lemma_results_ids(self@);
        }
        if self.done < self.working.len() {
            return Err(self);
        }
        let Scanner { mut working, done: _, last_progress_ms: _, last_snapshot_ms: _ } = self;
        let total: usize = working.len();
        proof {
            use_type_invariant(&working);
            working.lemma_entries();
        }
        working.purge_incomplete();
        Ok((Progress { done: total, total, percent: 100 }, working))
    }
}

/// What a scan tells whoever started it.
pub enum ScanMessage {
    /// How far the scan has come.
    Progress(Progress),
    /// The complete entries so far, while the scan goes on.
    PartialSnapshot(Library),
    /// The library that the scan found. Nothing follows it.
    Complete(Library),
}

/// The mathematical value of a [`ScanMessage`].
pub ghost enum MessageView {
    Progress(Progress),
    PartialSnapshot(Map<Seq<char>, MetaView>),
    Complete(Map<Seq<char>, MetaView>),
}

impl View for ScanMessage {
    type V = MessageView;

    open spec fn view(&self) -> MessageView {
        match self {
            ScanMessage::Progress(p) => MessageView::Progress(*p),
            ScanMessage::PartialSnapshot(library) => MessageView::PartialSnapshot(library@),
            ScanMessage::Complete(library) => MessageView::Complete(library@),
        }
    }
}

impl DeepView for ScanMessage {
    type V = MessageView;

    open spec fn deep_view(&self) -> MessageView {
        self.view()
    }
}

/// The messages of one step: the progress message, if there is one, then the
/// partial snapshot, if there is one.
pub open spec fn step_messages(
    progress: Option<Progress>,
    snapshot: Option<Map<Seq<char>, MetaView>>,
) -> Seq<MessageView> {
    let first = match progress {
        Some(p) => seq![MessageView::Progress(p)],
        None => Seq::empty(),
    };
    match snapshot {
        Some(library) => first.push(MessageView::PartialSnapshot(library)),
        None => first,
    }
}

impl StepOutcome {
    /// The messages to send after a step, in the order to send them, and
    /// the picture to write.
    pub fn into_messages(self) -> (r: (Vec<ScanMessage>, Option<ArtworkWrite>))
        ensures
            r.0.deep_view() == step_messages(
                self.progress,
                match self.snapshot {
                    Some(library) => Some(library@),
                    None => None,
                },
            ),
            r.1 == self.artwork,
    {
        let StepOutcome { progress, snapshot, artwork } = self;
        let mut messages: Vec<ScanMessage> = Vec::new();
        assert(messages.deep_view() =~= Seq::<MessageView>::empty());
        match progress {
            Some(p) => {
                messages.push(ScanMessage::Progress(p));
                assert(messages.deep_view() =~= seq![MessageView::Progress(p)]);
            },
            None => {},
        }
        let ghost first = messages.deep_view();
        match snapshot {
            Some(library) => {
                messages.push(ScanMessage::PartialSnapshot(library));
                assert(messages.deep_view() =~= first.push(MessageView::PartialSnapshot(library@)));
            },
            None => {},
        }
        (messages, artwork)
    }
}

/// The messages that end a scan, in the order to send them.
pub fn completion_messages(progress: Progress, library: Library) -> (r: Vec<ScanMessage>)
    ensures
        r.deep_view() == seq![MessageView::Progress(progress), MessageView::Complete(library@)],
{
    let mut messages: Vec<ScanMessage> = Vec::new();
    messages.push(ScanMessage::Progress(progress));
    messages.push(ScanMessage::Complete(library));
    assert(messages.deep_view() =~= seq![
        MessageView::Progress(progress),
        MessageView::Complete(library@),
    ]);
    messages
}

} // verus!
