//! The main-file scan: a step-driven resolver that walks the candidate paths
//! from highest to lowest priority and takes the first regular file, stopping
//! hard on an unexpected failure.
//!
//! The caller performs the filesystem accesses; it asks which path to try
//! next, reports how the attempt went, and the verified transition decides
//! what follows. The reported observations are kept as a ghost history, and
//! the scan state is always the replay of that history.

use vstd::prelude::*;
use crate::paths::seg_views;

verus! {

/// How one attempt to open a candidate file went, as classified by the caller:
/// opened (a regular file or not), absent, or failed with an unexpected error.
pub enum OpenOutcome {
    Opened { regular: bool },
    MissingFile,
    FailedFile,
}

/// How one attempt to list a drop-in directory went.
pub enum ListOutcome {
    Listed(Vec<Vec<u8>>),
    MissingDir,
    FailedDir,
}

/// One observation reported to a scan, in mathematical form.
pub enum ScanEvent {
    DirListed(Seq<Seq<u8>>),
    DirMissing,
    DirFailed,
    FileOpened(bool),
    FileMissing,
    FileFailed,
}

/// The event an open outcome reports.
pub open spec fn open_event(o: OpenOutcome) -> ScanEvent {
    match o {
        OpenOutcome::Opened { regular } => ScanEvent::FileOpened(regular),
        OpenOutcome::MissingFile => ScanEvent::FileMissing,
        OpenOutcome::FailedFile => ScanEvent::FileFailed,
    }
}

/// The event a listing outcome reports.
pub open spec fn list_event(o: ListOutcome) -> ScanEvent {
    match o {
        ListOutcome::Listed(names) => ScanEvent::DirListed(seg_views(names@)),
        ListOutcome::MissingDir => ScanEvent::DirMissing,
        ListOutcome::FailedDir => ScanEvent::DirFailed,
    }
}

/// An event that reports an open attempt rather than a directory listing.
pub open spec fn open_kind(e: ScanEvent) -> bool {
    match e {
        ScanEvent::FileOpened(_) => true,
        ScanEvent::FileMissing => true,
        ScanEvent::FileFailed => true,
        _ => false,
    }
}

/// The state of a main-file scan: the candidates not yet tried (highest
/// priority first), the path found, and whether the scan aborted.
#[verifier::ext_equal]
pub struct MainModel {
    pub cands_left: Seq<Seq<u8>>,
    pub found: Option<Seq<u8>>,
    pub aborted: bool,
}

impl MainModel {
    /// Another candidate should be tried.
    pub open spec fn searching(self) -> bool {
        !self.aborted && (self.found matches None) && self.cands_left.len() > 0
    }

    /// The scan ran to its end without an unexpected failure.
    pub open spec fn complete(self) -> bool {
        !self.aborted && ((self.found matches Some(_)) || self.cands_left.len() == 0)
    }
}

pub open spec fn main_init(cands: Seq<Seq<u8>>) -> MainModel {
    MainModel { cands_left: cands, found: None, aborted: false }
}

/// One transition of the main-file scan. The first candidate that opens as a
/// regular file is taken; an absent or non-regular candidate is skipped; an
/// unexpected failure aborts the whole scan.
pub open spec fn main_step(m: MainModel, e: ScanEvent) -> MainModel {
    if !m.searching() {
        m
    } else {
        match e {
            ScanEvent::FileOpened(regular) => if regular {
                MainModel {
                    cands_left: m.cands_left.drop_first(),
                    found: Some(m.cands_left[0]),
                    ..m
                }
            } else {
                MainModel { cands_left: m.cands_left.drop_first(), ..m }
            },
            ScanEvent::FileMissing => MainModel { cands_left: m.cands_left.drop_first(), ..m },
            ScanEvent::FileFailed => MainModel { aborted: true, ..m },
            _ => m,
        }
    }
}

/// The state reached from `cands` after observing `events` in order.
pub open spec fn main_replay(cands: Seq<Seq<u8>>, events: Seq<ScanEvent>) -> MainModel
    decreases events.len(),
{
    if events.len() == 0 {
        main_init(cands)
    } else {
        main_step(main_replay(cands, events.drop_last()), events.last())
    }
}

/// Resolves the main configuration file: the caller opens the candidate paths
/// this scan hands out, highest priority first, and reports each outcome.
pub struct MainFileScan {
    cands: Vec<Vec<u8>>,
    idx: usize,
    found: Option<Vec<u8>>,
    aborted: bool,
    events: Ghost<Seq<ScanEvent>>,
}

impl MainFileScan {
    /// All candidate paths, highest priority first.
    pub closed spec fn all_candidates(self) -> Seq<Seq<u8>> {
        seg_views(self.cands@)
    }

    /// The outcomes reported so far.
    pub closed spec fn history(self) -> Seq<ScanEvent> {
        self.events@
    }

    /// The current scan state.
    pub closed spec fn model(self) -> MainModel {
        MainModel {
            cands_left: seg_views(self.cands@).skip(self.idx as int),
            found: match self.found {
                Some(p) => Some(p@),
                None => None,
            },
            aborted: self.aborted,
        }
    }

    /// The scan state is exactly the replay of the reported history.
    pub closed spec fn wf(self) -> bool {
        &&& self.idx <= self.cands@.len()
        &&& self.model() == main_replay(self.all_candidates(), self.history())
    }

    pub fn new(candidates: Vec<Vec<u8>>) -> (s: Self)
        ensures
            s.wf(),
            s.all_candidates() == seg_views(candidates@),
            s.history() == Seq::<ScanEvent>::empty(),
            s.model() == main_init(seg_views(candidates@)),
    {
        let s = MainFileScan {
            cands: candidates,
            idx: 0,
            found: None,
            aborted: false,
            events: Ghost(Seq::empty()),
        };
        proof {
            assert(seg_views(s.cands@).skip(0) =~= seg_views(s.cands@));
            assert(s.model() =~= main_init(seg_views(s.cands@)));
        }
        s
    }

    /// The next path to try, or `None` once the scan has concluded.
    pub fn next_candidate(&self) -> (r: Option<Vec<u8>>)
        requires
            self.wf(),
        ensures
            match r {
                Some(p) => self.model().searching() && p@ == self.model().cands_left[0],
                None => !self.model().searching(),
            },
    {
        if !self.aborted && self.found.is_none() && self.idx < self.cands.len() {
            let p = self.cands[self.idx].clone();
            proof {
                assert(seg_views(self.cands@).skip(self.idx as int)[0] == self.cands@[
                    self.idx as int]@);
            }
            Some(p)
        } else {
            None
        }
    }

    /// Reports how opening the pending candidate went.
    pub fn report(&mut self, outcome: OpenOutcome)
        requires
            old(self).wf(),
            old(self).model().searching(),
        ensures
            final(self).wf(),
            final(self).all_candidates() == old(self).all_candidates(),
            final(self).history() == old(self).history().push(open_event(outcome)),
            final(self).model() == main_step(old(self).model(), open_event(outcome)),
    {
        let ghost pre = *self;
        let bound = self.cands.len();
        proof {
            assert(seg_views(self.cands@).skip(self.idx as int).len() > 0);
            assert(self.idx < bound);
        }
        match outcome {
            OpenOutcome::Opened { regular } => {
                if regular {
                    self.found = Some(self.cands[self.idx].clone());
                    self.idx = self.idx + 1;
                } else {
                    self.idx = self.idx + 1;
                }
            },
            OpenOutcome::MissingFile => {
                self.idx = self.idx + 1;
            },
            OpenOutcome::FailedFile => {
                self.aborted = true;
            },
        }
        self.events = Ghost(self.events@.push(open_event(outcome)));
        proof {
            let e = open_event(outcome);
            assert(seg_views(self.cands@).skip(pre.idx as int).drop_first() =~= seg_views(
                self.cands@,
            ).skip(pre.idx + 1));
            assert(seg_views(self.cands@).skip(pre.idx as int)[0] == self.cands@[pre.idx as int]@);
            assert(self.model() =~= main_step(pre.model(), e));
            assert(self.events@.drop_last() =~= pre.events@);
            assert(main_replay(self.all_candidates(), self.events@) == main_step(
                main_replay(pre.all_candidates(), pre.events@),
                e,
            ));
        }
    }

    /// True once every needed candidate has been tried without an unexpected
    /// failure.
    pub fn is_complete(&self) -> (r: bool)
        requires
            self.wf(),
        ensures
            r == self.model().complete(),
    {
        !self.aborted && (self.found.is_some() || self.idx == self.cands.len())
    }

    /// The resolved main-file path, if any candidate opened as a regular file.
    pub fn finish(self) -> (r: Option<Vec<u8>>)
        requires
            self.wf(),
            self.model().complete(),
        ensures
            match r {
                Some(p) => self.model().found == Some(p@),
                None => self.model().found matches None,
            },
    {
        self.found
    }
}

/// A well-formed scan is always in the state that replaying its reported
/// history yields, which lets every replay property apply to it.
pub proof fn lemma_main_scan_is_replay(s: MainFileScan)
    requires
        s.wf(),
    ensures
        s.model() == main_replay(s.all_candidates(), s.history()),
{
}

/// While the scan is still searching, each reported outcome consumes exactly
/// one candidate, and none of the consumed candidates opened as a regular
/// file.
proof fn lemma_main_replay_progress(cands: Seq<Seq<u8>>, evs: Seq<ScanEvent>)
    requires
        forall|j: int| 0 <= j < evs.len() ==> open_kind(#[trigger] evs[j]),
        evs.len() <= cands.len(),
        main_replay(cands, evs).found matches None,
        !main_replay(cands, evs).aborted,
    ensures
        main_replay(cands, evs).cands_left == cands.skip(evs.len() as int),
        forall|j: int|
            0 <= j < evs.len() ==> #[trigger] evs[j] != ScanEvent::FileOpened(true) && evs[j]
                != ScanEvent::FileFailed,
    decreases evs.len(),
{
    if evs.len() == 0 {
        assert(cands.skip(0) =~= cands);
    } else {
        let prev = main_replay(cands, evs.drop_last());
        let m = main_replay(cands, evs);
        let e = evs.last();
        if prev.aborted {
            assert(m.aborted);
        }
        if prev.found matches Some(_) {
            assert(m.found matches Some(_));
        }
        assert forall|j: int| 0 <= j < evs.drop_last().len() implies open_kind(
            #[trigger] evs.drop_last()[j],
        ) by {
            assert(evs.drop_last()[j] == evs[j]);
        }
        lemma_main_replay_progress(cands, evs.drop_last());
        assert(prev.cands_left == cands.skip(evs.len() - 1));
        assert(prev.cands_left.len() == cands.len() - (evs.len() - 1)) by {
            assert(cands.skip(evs.len() - 1).len() == cands.len() - (evs.len() - 1));
        }
        assert(prev.searching());
        assert(e != ScanEvent::FileOpened(true)) by {
            if e == ScanEvent::FileOpened(true) {
                assert(m.found matches Some(_));
            }
        }
        assert(e != ScanEvent::FileFailed) by {
            if e == ScanEvent::FileFailed {
                assert(m.aborted);
            }
        }
        assert(m.cands_left == prev.cands_left.drop_first());
        assert(cands.skip(evs.len() - 1).drop_first() =~= cands.skip(evs.len() as int));
        assert forall|j: int|
            0 <= j < evs.len() implies #[trigger] evs[j] != ScanEvent::FileOpened(true) && evs[j]
            != ScanEvent::FileFailed by {
            if j < evs.len() - 1 {
                assert(evs.drop_last()[j] == evs[j]);
            }
        }
    }
}

/// The resolved main file, when there is one, is the candidate of the
/// highest-priority root that yielded a regular file: every candidate tried
/// before it — every higher-priority one — did not.
pub proof fn lemma_main_first_match(cands: Seq<Seq<u8>>, evs: Seq<ScanEvent>, p: Seq<u8>)
    requires
        forall|j: int| 0 <= j < evs.len() ==> open_kind(#[trigger] evs[j]),
        evs.len() <= cands.len(),
        main_replay(cands, evs).found == Some(p),
    ensures
        exists|i: int|
            0 <= i < evs.len() && p == cands[i] && #[trigger] evs[i] == ScanEvent::FileOpened(true)
                && (forall|j: int| 0 <= j < i ==> #[trigger] evs[j] != ScanEvent::FileOpened(true)),
    decreases evs.len(),
{
    assert(evs.len() > 0);
    let prev = main_replay(cands, evs.drop_last());
    let m = main_replay(cands, evs);
    let e = evs.last();
    if prev.found matches Some(_) {
        assert(prev.found == Some(p));
        assert forall|j: int| 0 <= j < evs.drop_last().len() implies open_kind(
            #[trigger] evs.drop_last()[j],
        ) by {
            assert(evs.drop_last()[j] == evs[j]);
        }
        lemma_main_first_match(cands, evs.drop_last(), p);
        let i = choose|i: int|
            0 <= i < evs.drop_last().len() && p == cands[i] && #[trigger] evs.drop_last()[i]
                == ScanEvent::FileOpened(true) && (forall|j: int|
                0 <= j < i ==> #[trigger] evs.drop_last()[j] != ScanEvent::FileOpened(true));
        assert(evs[i] == evs.drop_last()[i]);
        assert(forall|j: int| 0 <= j < i ==> #[trigger] evs[j] == evs.drop_last()[j]);
        assert(0 <= i < evs.len() && p == cands[i] && evs[i] == ScanEvent::FileOpened(true) && (
        forall|j: int| 0 <= j < i ==> #[trigger] evs[j] != ScanEvent::FileOpened(true)));
    } else {
        assert(!prev.aborted) by {
            if prev.aborted {
                assert(m == prev);
            }
        }
        assert forall|j: int| 0 <= j < evs.drop_last().len() implies open_kind(
            #[trigger] evs.drop_last()[j],
        ) by {
            assert(evs.drop_last()[j] == evs[j]);
        }
        lemma_main_replay_progress(cands, evs.drop_last());
        assert(prev.searching()) by {
            assert(prev.cands_left == cands.skip(evs.len() - 1));
            assert(cands.skip(evs.len() - 1).len() == cands.len() - (evs.len() - 1));
        }
        assert(e == ScanEvent::FileOpened(true)) by {
            if e != ScanEvent::FileOpened(true) {
                assert(m.found matches None);
            }
        }
        let i = evs.len() - 1;
        assert(p == prev.cands_left[0]);
        assert(prev.cands_left == cands.skip(i));
        assert(cands.skip(i)[0] == cands[i]);
        assert(p == cands[i]);
        assert(evs[i] == e);
        assert forall|j: int| 0 <= j < i implies #[trigger] evs[j] != ScanEvent::FileOpened(
            true,
        ) by {
            assert(evs.drop_last()[j] == evs[j]);
            assert(evs.drop_last()[j] != ScanEvent::FileOpened(true));
        }
        assert(0 <= i < evs.len() && p == cands[i] && evs[i] == ScanEvent::FileOpened(true) && (
        forall|j: int| 0 <= j < i ==> #[trigger] evs[j] != ScanEvent::FileOpened(true)));
    }
}

/// Resolution is deterministic: two main-file scans over the same candidates
/// that observed the same outcomes are in the same state, so they resolve the
/// same path.
pub proof fn lemma_main_scan_determined(s1: MainFileScan, s2: MainFileScan)
    requires
        s1.wf(),
        s2.wf(),
        s1.all_candidates() == s2.all_candidates(),
        s1.history() == s2.history(),
    ensures
        s1.model() == s2.model(),
{
}

} // verus!
