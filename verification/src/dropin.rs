//! The drop-in entry set: file-name-keyed entries held in ascending
//! lexicographic name order, with insert-if-absent semantics so that the
//! highest-priority directory's entry for a name is the one kept.

use vstd::prelude::*;
use crate::bytes::{lex_lt, ends_with, lemma_lex_lt_connected, lemma_lex_lt_asymmetric, lemma_lex_lt_irreflexive, lemma_lex_lt_transitive, lex_lt_bytes, bytes_eq, ends_with_bytes};
use crate::paths::{join, seg_views, path_join};
use crate::scan::{ScanEvent, ListOutcome, OpenOutcome, list_event, open_event};

verus! {

broadcast use vstd::seq_lib::group_filter_ensures;

/// One discovered drop-in fragment: its raw file name and its full path.
pub struct DropinEntry {
    pub name: Vec<u8>,
    pub path: Vec<u8>,
}

/// The mathematical image of a [`DropinEntry`].
#[verifier::ext_equal]
pub struct EntryModel {
    pub name: Seq<u8>,
    pub path: Seq<u8>,
}

/// The models of a sequence of entries.
pub open spec fn entry_models(s: Seq<DropinEntry>) -> Seq<EntryModel> {
    Seq::new(s.len(), |i: int| EntryModel { name: s[i].name@, path: s[i].path@ })
}

/// The names of a sequence of entry models, in order.
pub open spec fn names_of(entries: Seq<EntryModel>) -> Seq<Seq<u8>> {
    Seq::new(entries.len(), |i: int| entries[i].name)
}

/// Strictly ascending lexicographic name order: sorted and duplicate-free.
pub open spec fn entries_sorted(entries: Seq<EntryModel>) -> bool {
    forall|i: int, j: int| 0 <= i < j < entries.len() ==> lex_lt(entries[i].name, entries[j].name)
}

/// Insert-if-absent into a name-sorted entry sequence: when `name` is already
/// present the sequence is unchanged, otherwise the new entry lands at its
/// ordered position.
pub open spec fn insert_entry(entries: Seq<EntryModel>, name: Seq<u8>, path: Seq<u8>) -> Seq<
    EntryModel,
>
    decreases entries.len(),
{
    if entries.len() == 0 {
        seq![EntryModel { name, path }]
    } else if lex_lt(name, entries[0].name) {
        seq![EntryModel { name, path }] + entries
    } else if name == entries[0].name {
        entries
    } else {
        seq![entries[0]] + insert_entry(entries.drop_first(), name, path)
    }
}

proof fn lemma_names_of_drop_first(entries: Seq<EntryModel>)
    requires
        entries.len() > 0,
    ensures
        names_of(entries.drop_first()) == names_of(entries).drop_first(),
{
    assert(names_of(entries.drop_first()) =~= names_of(entries).drop_first());
}

/// What insertion does: it keeps the order strict, it never replaces an entry
/// whose name is already present, and otherwise it adds exactly the new entry.
pub proof fn lemma_insert_entry_props(entries: Seq<EntryModel>, name: Seq<u8>, path: Seq<u8>)
    requires
        entries_sorted(entries),
    ensures
        entries_sorted(insert_entry(entries, name, path)),
        names_of(entries).contains(name) ==> insert_entry(entries, name, path) == entries,
        forall|e: EntryModel| #[trigger]
            insert_entry(entries, name, path).contains(e) <==> (entries.contains(e) || (e
                == (EntryModel { name, path }) && !names_of(entries).contains(name))),
    decreases entries.len(),
{
    let result = insert_entry(entries, name, path);
    let new_entry = EntryModel { name, path };
    if entries.len() == 0 {
        assert(!names_of(entries).contains(name));
        assert(result == seq![new_entry]);
        assert(result[0] == new_entry);
        assert(result.contains(new_entry));
        assert forall|e: EntryModel| #[trigger] result.contains(e) implies (entries.contains(e) || (
        e == new_entry && !names_of(entries).contains(name))) by {
            let k = choose|k: int| 0 <= k < result.len() && result[k] == e;
            assert(e == new_entry);
        }
    } else if lex_lt(name, entries[0].name) {
        assert(result == seq![new_entry] + entries);
        assert forall|k: int| 0 <= k < entries.len() implies lex_lt(name, entries[k].name) by {
            if k > 0 {
                lemma_lex_lt_transitive(name, entries[0].name, entries[k].name);
            }
        }
        assert forall|k: int| 0 <= k < names_of(entries).len() implies names_of(entries)[k]
            != name by {
            lemma_lex_lt_irreflexive(name);
            assert(lex_lt(name, entries[k].name));
        }
        assert(!names_of(entries).contains(name));
        assert(entries_sorted(result)) by {
            assert forall|i: int, j: int| 0 <= i < j < result.len() implies lex_lt(
                result[i].name,
                result[j].name,
            ) by {
                if i == 0 {
                    assert(result[j] == entries[j - 1]);
                } else {
                    assert(result[i] == entries[i - 1]);
                    assert(result[j] == entries[j - 1]);
                }
            }
        }
        assert forall|e: EntryModel| #[trigger] result.contains(e) implies (entries.contains(e) || (
        e == new_entry && !names_of(entries).contains(name))) by {
            let k = choose|k: int| 0 <= k < result.len() && result[k] == e;
            if k > 0 {
                assert(entries[k - 1] == e);
            }
        }
        assert forall|e: EntryModel| entries.contains(e) implies result.contains(e) by {
            let k = choose|k: int| 0 <= k < entries.len() && entries[k] == e;
            assert(result[k + 1] == e);
        }
        assert(result[0] == new_entry);
        assert(result.contains(new_entry));
    } else if name == entries[0].name {
        assert(result == entries);
        assert(names_of(entries)[0] == name);
        assert(names_of(entries).contains(name));
    } else {
        lemma_lex_lt_connected(name, entries[0].name);
        assert(lex_lt(entries[0].name, name));
        let tail = entries.drop_first();
        assert(entries_sorted(tail)) by {
            assert forall|i: int, j: int| 0 <= i < j < tail.len() implies lex_lt(
                tail[i].name,
                tail[j].name,
            ) by {
                assert(tail[i] == entries[i + 1]);
                assert(tail[j] == entries[j + 1]);
            }
        }
        lemma_insert_entry_props(tail, name, path);
        let rec = insert_entry(tail, name, path);
        assert(result == seq![entries[0]] + rec);
        lemma_names_of_drop_first(entries);
        assert(names_of(entries)[0] == entries[0].name);
        lemma_lex_lt_irreflexive(name);
        assert(entries[0].name != name);
        assert(names_of(entries).contains(name) <==> names_of(tail).contains(name)) by {
            if names_of(entries).contains(name) {
                let k = choose|k: int|
                    0 <= k < names_of(entries).len() && names_of(entries)[k] == name;
                assert(k > 0);
                assert(names_of(tail)[k - 1] == name);
            }
            if names_of(tail).contains(name) {
                let k = choose|k: int| 0 <= k < names_of(tail).len() && names_of(tail)[k] == name;
                assert(names_of(entries)[k + 1] == name);
            }
        }
        // every element of rec is above entries[0]
        assert forall|e: EntryModel| rec.contains(e) implies lex_lt(entries[0].name, e.name) by {
            if tail.contains(e) {
                let k = choose|k: int| 0 <= k < tail.len() && tail[k] == e;
                assert(entries[k + 1] == e);
                assert(lex_lt(entries[0].name, entries[k + 1].name));
            } else {
                assert(e == new_entry);
            }
        }
        assert(entries_sorted(result)) by {
            assert forall|i: int, j: int| 0 <= i < j < result.len() implies lex_lt(
                result[i].name,
                result[j].name,
            ) by {
                if i == 0 {
                    assert(result[j] == rec[j - 1]);
                    assert(rec.contains(rec[j - 1]));
                } else {
                    assert(result[i] == rec[i - 1]);
                    assert(result[j] == rec[j - 1]);
                }
            }
        }
        if names_of(entries).contains(name) {
            assert(rec == tail);
            assert(result =~= entries);
        }
        assert forall|e: EntryModel| #[trigger] result.contains(e) implies (entries.contains(e) || (
        e == new_entry && !names_of(entries).contains(name))) by {
            let k = choose|k: int| 0 <= k < result.len() && result[k] == e;
            if k == 0 {
                assert(entries[0] == e);
            } else {
                assert(rec[k - 1] == e);
                assert(rec.contains(e));
                if tail.contains(e) {
                    let m = choose|m: int| 0 <= m < tail.len() && tail[m] == e;
                    assert(entries[m + 1] == e);
                }
            }
        }
        assert forall|e: EntryModel| (entries.contains(e) || (e == new_entry && !names_of(
            entries,
        ).contains(name))) implies #[trigger] result.contains(e) by {
            if entries.contains(e) {
                let k = choose|k: int| 0 <= k < entries.len() && entries[k] == e;
                if k == 0 {
                    assert(result[0] == e);
                } else {
                    assert(tail[k - 1] == e);
                    assert(tail.contains(e));
                    assert(rec.contains(e));
                    let m = choose|m: int| 0 <= m < rec.len() && rec[m] == e;
                    assert(result[m + 1] == e);
                }
            } else {
                assert(rec.contains(e));
                let m = choose|m: int| 0 <= m < rec.len() && rec[m] == e;
                assert(result[m + 1] == e);
            }
        }
    }
}

/// Positional characterization of [`insert_entry`], used to justify the
/// executable insertion.
proof fn lemma_insert_entry_at(m: Seq<EntryModel>, name: Seq<u8>, path: Seq<u8>, idx: int)
    requires
        entries_sorted(m),
        0 <= idx <= m.len(),
        forall|k: int| 0 <= k < idx ==> lex_lt(m[k].name, name),
        idx < m.len() ==> !lex_lt(m[idx].name, name),
    ensures
        idx < m.len() && m[idx].name == name ==> insert_entry(m, name, path) == m,
        !(idx < m.len() && m[idx].name == name) ==> insert_entry(m, name, path) == m.insert(
            idx,
            EntryModel { name, path },
        ),
    decreases m.len(),
{
    let new_entry = EntryModel { name, path };
    if idx == 0 {
        if m.len() == 0 {
            assert(insert_entry(m, name, path) =~= m.insert(0, new_entry));
        } else {
            lemma_lex_lt_connected(name, m[0].name);
            if name == m[0].name {
                assert(insert_entry(m, name, path) == m);
            } else {
                assert(lex_lt(name, m[0].name));
                assert(insert_entry(m, name, path) =~= m.insert(0, new_entry));
            }
        }
    } else {
        assert(lex_lt(m[0].name, name));
        lemma_lex_lt_asymmetric(m[0].name, name);
        lemma_lex_lt_irreflexive(name);
        assert(!lex_lt(name, m[0].name));
        assert(name != m[0].name);
        let tail = m.drop_first();
        assert(entries_sorted(tail)) by {
            assert forall|i: int, j: int| 0 <= i < j < tail.len() implies lex_lt(
                tail[i].name,
                tail[j].name,
            ) by {
                assert(tail[i] == m[i + 1]);
                assert(tail[j] == m[j + 1]);
            }
        }
        assert forall|k: int| 0 <= k < idx - 1 implies lex_lt(tail[k].name, name) by {
            assert(tail[k] == m[k + 1]);
        }
        if idx - 1 < tail.len() {
            assert(tail[idx - 1] == m[idx]);
        }
        lemma_insert_entry_at(tail, name, path, idx - 1);
        assert(insert_entry(m, name, path) == seq![m[0]] + insert_entry(tail, name, path));
        if idx < m.len() && m[idx].name == name {
            assert(insert_entry(tail, name, path) == tail);
            assert(seq![m[0]] + tail =~= m);
        } else {
            assert(insert_entry(tail, name, path) == tail.insert(idx - 1, new_entry));
            assert(seq![m[0]] + tail.insert(idx - 1, new_entry) =~= m.insert(idx, new_entry));
        }
    }
}

/// True when some recorded entry already bears `name`.
pub fn contains_name(entries: &Vec<DropinEntry>, name: &Vec<u8>) -> (r: bool)
    ensures
        r == names_of(entry_models(entries@)).contains(name@),
{
    let ghost m = entry_models(entries@);
    let mut i: usize = 0;
    while i < entries.len()
        invariant
            i <= entries@.len(),
            m == entry_models(entries@),
            forall|k: int| 0 <= k < i ==> names_of(m)[k] != name@,
        decreases entries@.len() - i,
    {
        if bytes_eq(&entries[i].name, name) {
            proof {
                assert(names_of(m)[i as int] == name@);
            }
            return true;
        }
        i += 1;
    }
    false
}

/// The state of a drop-in scan: the drop-in directories not yet listed
/// (highest priority first), the directory being worked through, the filtered
/// names of that directory still to open, the entries recorded so far, and
/// whether the scan aborted.
#[verifier::ext_equal]
pub struct DropinModel {
    pub dirs_left: Seq<Seq<u8>>,
    pub cur_dir: Seq<u8>,
    pub names_left: Seq<Seq<u8>>,
    pub entries: Seq<EntryModel>,
    pub aborted: bool,
}

impl DropinModel {
    /// The next drop-in directory should be listed.
    pub open spec fn listing_needed(self) -> bool {
        !self.aborted && self.names_left.len() == 0 && self.dirs_left.len() > 0
    }

    /// A candidate file of the current directory should be opened.
    pub open spec fn opening(self) -> bool {
        !self.aborted && self.names_left.len() > 0
    }

    /// The scan ran to its end without an unexpected failure.
    pub open spec fn complete(self) -> bool {
        !self.aborted && self.names_left.len() == 0 && self.dirs_left.len() == 0
    }
}

/// The listed names that will be opened: those that end with the suffix and
/// are not already taken by a higher-priority directory, in listing order.
pub open spec fn dropin_filter(names: Seq<Seq<u8>>, sfx: Seq<u8>, taken: Seq<Seq<u8>>) -> Seq<
    Seq<u8>,
> {
    names.filter(|n: Seq<u8>| ends_with(n, sfx) && !taken.contains(n))
}

pub open spec fn dropin_init(dirs: Seq<Seq<u8>>) -> DropinModel {
    DropinModel {
        dirs_left: dirs,
        cur_dir: Seq::empty(),
        names_left: Seq::empty(),
        entries: Seq::empty(),
        aborted: false,
    }
}

/// One transition of the drop-in scan. A listing yields the filtered
/// candidates of that directory; a missing directory contributes nothing; an
/// opened regular file is recorded under its raw name unless that name is
/// already present; an unexpected failure aborts the whole scan.
pub open spec fn dropin_step(m: DropinModel, sfx: Seq<u8>, e: ScanEvent) -> DropinModel {
    match e {
        ScanEvent::DirListed(names) => if m.listing_needed() {
            DropinModel {
                dirs_left: m.dirs_left.drop_first(),
                cur_dir: m.dirs_left[0],
                names_left: dropin_filter(names, sfx, names_of(m.entries)),
                ..m
            }
        } else {
            m
        },
        ScanEvent::DirMissing => if m.listing_needed() {
            DropinModel { dirs_left: m.dirs_left.drop_first(), ..m }
        } else {
            m
        },
        ScanEvent::DirFailed => if m.listing_needed() {
            DropinModel { aborted: true, ..m }
        } else {
            m
        },
        ScanEvent::FileOpened(regular) => if m.opening() {
            if regular {
                DropinModel {
                    names_left: m.names_left.drop_first(),
                    entries: insert_entry(
                        m.entries,
                        m.names_left[0],
                        join(m.cur_dir, m.names_left[0]),
                    ),
                    ..m
                }
            } else {
                DropinModel { names_left: m.names_left.drop_first(), ..m }
            }
        } else {
            m
        },
        ScanEvent::FileMissing => if m.opening() {
            DropinModel { names_left: m.names_left.drop_first(), ..m }
        } else {
            m
        },
        ScanEvent::FileFailed => if m.opening() {
            DropinModel { aborted: true, ..m }
        } else {
            m
        },
    }
}

/// The state reached from `dirs` after observing `events` in order.
pub open spec fn dropin_replay(dirs: Seq<Seq<u8>>, sfx: Seq<u8>, events: Seq<ScanEvent>) -> DropinModel
    decreases events.len(),
{
    if events.len() == 0 {
        dropin_init(dirs)
    } else {
        dropin_step(dropin_replay(dirs, sfx, events.drop_last()), sfx, events.last())
    }
}

/// Collects the drop-in fragments: the caller lists the directories this scan
/// hands out, opens the candidate files it selects, and reports each outcome;
/// the scan keeps the deduplicated entries in ascending name order.
pub struct DropinScan {
    dirs: Vec<Vec<u8>>,
    suffix: Vec<u8>,
    dir_idx: usize,
    cur_dir: Vec<u8>,
    pending: Vec<Vec<u8>>,
    pend_idx: usize,
    entries: Vec<DropinEntry>,
    aborted: bool,
    events: Ghost<Seq<ScanEvent>>,
}

impl DropinScan {
    /// All drop-in directories, highest priority first.
    pub closed spec fn all_dirs(self) -> Seq<Seq<u8>> {
        seg_views(self.dirs@)
    }

    /// The suffix filter applied to candidate names.
    pub closed spec fn sfx(self) -> Seq<u8> {
        self.suffix@
    }

    /// The outcomes reported so far.
    pub closed spec fn history(self) -> Seq<ScanEvent> {
        self.events@
    }

    /// The current scan state.
    pub closed spec fn model(self) -> DropinModel {
        DropinModel {
            dirs_left: seg_views(self.dirs@).skip(self.dir_idx as int),
            cur_dir: self.cur_dir@,
            names_left: seg_views(self.pending@).skip(self.pend_idx as int),
            entries: entry_models(self.entries@),
            aborted: self.aborted,
        }
    }

    /// The scan state is exactly the replay of the reported history, and the
    /// recorded entries are strictly sorted by name.
    pub closed spec fn wf(self) -> bool {
        &&& self.dir_idx <= self.dirs@.len()
        &&& self.pend_idx <= self.pending@.len()
        &&& entries_sorted(entry_models(self.entries@))
        &&& self.model() == dropin_replay(self.all_dirs(), self.sfx(), self.history())
    }

    pub fn new(dirs: Vec<Vec<u8>>, suffix: Vec<u8>) -> (s: Self)
        ensures
            s.wf(),
            s.all_dirs() == seg_views(dirs@),
            s.sfx() == suffix@,
            s.history() == Seq::<ScanEvent>::empty(),
            s.model() == dropin_init(seg_views(dirs@)),
    {
        let s = DropinScan {
            dirs,
            suffix,
            dir_idx: 0,
            cur_dir: Vec::new(),
            pending: Vec::new(),
            pend_idx: 0,
            entries: Vec::new(),
            aborted: false,
            events: Ghost(Seq::empty()),
        };
        proof {
            assert(seg_views(s.dirs@).skip(0) =~= seg_views(s.dirs@));
            assert(seg_views(s.pending@).skip(0) =~= Seq::<Seq<u8>>::empty());
            assert(entry_models(s.entries@) =~= Seq::<EntryModel>::empty());
            assert(s.model() =~= dropin_init(seg_views(s.dirs@)));
        }
        s
    }

    /// The next directory to list, or `None` when no listing is pending.
    pub fn next_dir(&self) -> (r: Option<Vec<u8>>)
        requires
            self.wf(),
        ensures
            match r {
                Some(d) => self.model().listing_needed() && d@ == self.model().dirs_left[0],
                None => !self.model().listing_needed(),
            },
    {
        if !self.aborted && self.pend_idx == self.pending.len() && self.dir_idx < self.dirs.len() {
            let d = self.dirs[self.dir_idx].clone();
            proof {
                assert(seg_views(self.dirs@).skip(self.dir_idx as int)[0] == self.dirs@[
                    self.dir_idx as int]@);
            }
            Some(d)
        } else {
            None
        }
    }

    /// Reports how listing the pending directory went.
    pub fn report_listing(&mut self, outcome: ListOutcome)
        requires
            old(self).wf(),
            old(self).model().listing_needed(),
        ensures
            final(self).wf(),
            final(self).all_dirs() == old(self).all_dirs(),
            final(self).sfx() == old(self).sfx(),
            final(self).history() == old(self).history().push(list_event(outcome)),
            final(self).model() == dropin_step(
                old(self).model(),
                old(self).sfx(),
                list_event(outcome),
            ),
    {
        let ghost pre = *self;
        let ghost e = list_event(outcome);
        let bound = self.dirs.len();
        proof {
            assert(seg_views(self.dirs@).skip(self.dir_idx as int).len() > 0);
            assert(self.dir_idx < bound);
        }
        match outcome {
            ListOutcome::Listed(names) => {
                self.cur_dir = self.dirs[self.dir_idx].clone();
                self.dir_idx = self.dir_idx + 1;
                let ghost taken = names_of(entry_models(self.entries@));
                let mut pend: Vec<Vec<u8>> = Vec::new();
                let mut k: usize = 0;
                proof {
                    assert(seg_views(names@).take(0) =~= Seq::<Seq<u8>>::empty());
                    assert(seg_views(pend@) =~= dropin_filter(
                        seg_views(names@).take(0),
                        self.suffix@,
                        taken,
                    ));
                }
                while k < names.len()
                    invariant
                        k <= names@.len(),
                        taken == names_of(entry_models(self.entries@)),
                        seg_views(pend@) == dropin_filter(
                            seg_views(names@).take(k as int),
                            self.suffix@,
                            taken,
                        ),
                    decreases names@.len() - k,
                {
                    let n = &names[k];
                    let keep = ends_with_bytes(n, &self.suffix) && !contains_name(
                        &self.entries,
                        n,
                    );
                    let ghost prev_pend = pend@;
                    if keep {
                        pend.push(n.clone());
                    }
                    proof {
                        reveal_with_fuel(Seq::<Seq<u8>>::filter, 2);
                        let full = seg_views(names@);
                        assert(full.take(k + 1).drop_last() =~= full.take(k as int));
                        assert(full.take(k + 1).last() == n@);
                        assert(dropin_filter(full.take(k + 1), self.suffix@, taken)
                            == if ends_with(n@, self.suffix@) && !taken.contains(n@) {
                            dropin_filter(full.take(k as int), self.suffix@, taken).push(n@)
                        } else {
                            dropin_filter(full.take(k as int), self.suffix@, taken)
                        });
                        if keep {
                            assert(seg_views(pend@) =~= seg_views(prev_pend).push(n@));
                        }
                    }
                    k += 1;
                }
                proof {
                    assert(seg_views(names@).take(names@.len() as int) =~= seg_views(names@));
                }
                self.pending = pend;
                self.pend_idx = 0;
            },
            ListOutcome::MissingDir => {
                self.dir_idx = self.dir_idx + 1;
                self.pending = Vec::new();
                self.pend_idx = 0;
            },
            ListOutcome::FailedDir => {
                self.aborted = true;
            },
        }
        self.events = Ghost(self.events@.push(e));
        proof {
            assert(seg_views(pre.dirs@).skip(pre.dir_idx as int).drop_first() =~= seg_views(
                pre.dirs@,
            ).skip(pre.dir_idx + 1));
            assert(seg_views(pre.dirs@).skip(pre.dir_idx as int)[0] == pre.dirs@[pre.dir_idx as int]@);
            if !(e matches ScanEvent::DirFailed) {
                assert(seg_views(self.pending@).skip(0) =~= seg_views(self.pending@));
            }
            assert(self.model() =~= dropin_step(pre.model(), pre.sfx(), e));
            assert(self.events@.drop_last() =~= pre.events@);
            assert(dropin_replay(self.all_dirs(), self.sfx(), self.events@) == dropin_step(
                dropin_replay(pre.all_dirs(), pre.sfx(), pre.events@),
                pre.sfx(),
                e,
            ));
        }
    }

    /// The next candidate to open: its raw name and its full path inside the
    /// current directory. `None` when no open is pending.
    pub fn next_open(&self) -> (r: Option<(Vec<u8>, Vec<u8>)>)
        requires
            self.wf(),
        ensures
            match r {
                Some(np) => self.model().opening() && np.0@ == self.model().names_left[0] && np.1@
                    == join(self.model().cur_dir, self.model().names_left[0]),
                None => !self.model().opening(),
            },
    {
        if !self.aborted && self.pend_idx < self.pending.len() {
            let name = self.pending[self.pend_idx].clone();
            let path = path_join(&self.cur_dir, &name);
            proof {
                assert(seg_views(self.pending@).skip(self.pend_idx as int)[0] == self.pending@[
                    self.pend_idx as int]@);
            }
            Some((name, path))
        } else {
            None
        }
    }

    /// Reports how opening the pending candidate went.
    pub fn report_open(&mut self, outcome: OpenOutcome)
        requires
            old(self).wf(),
            old(self).model().opening(),
        ensures
            final(self).wf(),
            final(self).all_dirs() == old(self).all_dirs(),
            final(self).sfx() == old(self).sfx(),
            final(self).history() == old(self).history().push(open_event(outcome)),
            final(self).model() == dropin_step(
                old(self).model(),
                old(self).sfx(),
                open_event(outcome),
            ),
    {
        let ghost pre = *self;
        let ghost e = open_event(outcome);
        let bound = self.pending.len();
        proof {
            assert(seg_views(self.pending@).skip(self.pend_idx as int).len() > 0);
            assert(self.pend_idx < bound);
        }
        match outcome {
            OpenOutcome::Opened { regular } => {
                if regular {
                    let name = self.pending[self.pend_idx].clone();
                    let path = path_join(&self.cur_dir, &name);
                    proof {
                        lemma_insert_entry_props(entry_models(self.entries@), name@, path@);
                    }
                    insert_dropin(&mut self.entries, name, path);
                    self.pend_idx = self.pend_idx + 1;
                } else {
                    self.pend_idx = self.pend_idx + 1;
                }
            },
            OpenOutcome::MissingFile => {
                self.pend_idx = self.pend_idx + 1;
            },
            OpenOutcome::FailedFile => {
                self.aborted = true;
            },
        }
        self.events = Ghost(self.events@.push(e));
        proof {
            assert(seg_views(pre.pending@).skip(pre.pend_idx as int).drop_first() =~= seg_views(
                pre.pending@,
            ).skip(pre.pend_idx + 1));
            assert(seg_views(pre.pending@).skip(pre.pend_idx as int)[0] == pre.pending@[
                pre.pend_idx as int]@);
            assert(self.model() =~= dropin_step(pre.model(), pre.sfx(), e));
            assert(self.events@.drop_last() =~= pre.events@);
            assert(dropin_replay(self.all_dirs(), self.sfx(), self.events@) == dropin_step(
                dropin_replay(pre.all_dirs(), pre.sfx(), pre.events@),
                pre.sfx(),
                e,
            ));
        }
    }

    /// True once every directory has been worked through without an
    /// unexpected failure.
    pub fn is_complete(&self) -> (r: bool)
        requires
            self.wf(),
        ensures
            r == self.model().complete(),
    {
        !self.aborted && self.pend_idx == self.pending.len() && self.dir_idx == self.dirs.len()
    }

    /// The recorded entries, in ascending lexicographic order of file name.
    pub fn finish(self) -> (r: Vec<DropinEntry>)
        requires
            self.wf(),
            self.model().complete(),
        ensures
            entry_models(r@) == self.model().entries,
            entries_sorted(entry_models(r@)),
    {
        self.entries
    }
}

/// A well-formed scan is always in the state that replaying its reported
/// history yields, with its entries strictly sorted by name, which lets every
/// replay property apply to it.
pub proof fn lemma_dropin_scan_is_replay(s: DropinScan)
    requires
        s.wf(),
    ensures
        s.model() == dropin_replay(s.all_dirs(), s.sfx(), s.history()),
        entries_sorted(s.model().entries),
{
}

/// A name recorded from a higher-priority directory is shadowed in every
/// later directory: the candidate filter excludes it, so the lower-priority
/// file is never even opened.
pub proof fn lemma_shadowed_name_never_opened(
    names: Seq<Seq<u8>>,
    sfx: Seq<u8>,
    taken: Seq<Seq<u8>>,
    n: Seq<u8>,
)
    requires
        taken.contains(n),
    ensures
        !dropin_filter(names, sfx, taken).contains(n),
{
    let pred = |x: Seq<u8>| ends_with(x, sfx) && !taken.contains(x);
    if dropin_filter(names, sfx, taken).contains(n) {
        let i = choose|i: int|
            0 <= i < names.filter(pred).len() && names.filter(pred)[i] == n;
        assert(pred(names.filter(pred)[i]));
    }
}

/// A recorded entry is never displaced: whatever a later observation brings —
/// in particular a lower-priority directory's file of the same name — every
/// entry of the current state is an entry of the next.
pub proof fn lemma_recorded_entry_kept(m: DropinModel, sfx: Seq<u8>, e: ScanEvent, x: EntryModel)
    requires
        entries_sorted(m.entries),
        m.entries.contains(x),
    ensures
        dropin_step(m, sfx, e).entries.contains(x),
{
    let stepped = dropin_step(m, sfx, e);
    if stepped.entries != m.entries {
        match e {
            ScanEvent::FileOpened(_) => {
                lemma_insert_entry_props(
                    m.entries,
                    m.names_left[0],
                    join(m.cur_dir, m.names_left[0]),
                );
            },
            _ => {},
        }
    }
}

/// Collection is deterministic: two drop-in scans over the same directories
/// and suffix that observed the same outcomes are in the same state, so they
/// hold the same entries.
pub proof fn lemma_dropin_scan_determined(s1: DropinScan, s2: DropinScan)
    requires
        s1.wf(),
        s2.wf(),
        s1.all_dirs() == s2.all_dirs(),
        s1.sfx() == s2.sfx(),
        s1.history() == s2.history(),
    ensures
        s1.model() == s2.model(),
{
}

/// Strictly ascending lexicographic order on a sequence of names.
pub open spec fn names_strictly_ascending(names: Seq<Seq<u8>>) -> bool {
    forall|i: int, j: int| 0 <= i < j < names.len() ==> lex_lt(names[i], names[j])
}

/// Ascending name order is canonical: two strictly ascending name sequences
/// with the same members are equal, so the yield order of the drop-in set
/// never depends on which directory contributed which entry.
pub proof fn lemma_ascending_names_canonical(a: Seq<Seq<u8>>, b: Seq<Seq<u8>>)
    requires
        names_strictly_ascending(a),
        names_strictly_ascending(b),
        a.to_set() == b.to_set(),
    ensures
        a == b,
    decreases a.len(),
{
    if a.len() == 0 {
        if b.len() > 0 {
            assert(b.contains(b[0]));
            assert(b.to_set().contains(b[0]));
            assert(a.to_set().contains(b[0]));
            assert(a.contains(b[0]));
        }
        assert(a =~= b);
    } else {
        assert(a.contains(a[0]));
        assert(b.to_set().contains(a[0]));
        assert(b.contains(a[0]));
        let kb = choose|k: int| 0 <= k < b.len() && b[k] == a[0];
        assert(b.contains(b[0]));
        assert(a.to_set().contains(b[0]));
        assert(a.contains(b[0]));
        let ka = choose|k: int| 0 <= k < a.len() && a[k] == b[0];
        assert(a[0] == b[0]) by {
            if kb > 0 {
                assert(lex_lt(b[0], b[kb]));
                if ka > 0 {
                    assert(lex_lt(a[0], a[ka]));
                    lemma_lex_lt_asymmetric(a[0], b[0]);
                } else {
                    lemma_lex_lt_irreflexive(b[0]);
                }
            }
        }
        let at = a.drop_first();
        let bt = b.drop_first();
        assert(names_strictly_ascending(at)) by {
            assert forall|i: int, j: int| 0 <= i < j < at.len() implies lex_lt(at[i], at[j]) by {
                assert(at[i] == a[i + 1]);
                assert(at[j] == a[j + 1]);
            }
        }
        assert(names_strictly_ascending(bt)) by {
            assert forall|i: int, j: int| 0 <= i < j < bt.len() implies lex_lt(bt[i], bt[j]) by {
                assert(bt[i] == b[i + 1]);
                assert(bt[j] == b[j + 1]);
            }
        }
        assert(at.to_set() =~= bt.to_set()) by {
            assert forall|x: Seq<u8>| at.to_set().contains(x) implies bt.to_set().contains(x) by {
                assert(at.contains(x));
                let i = choose|i: int| 0 <= i < at.len() && at[i] == x;
                assert(a[i + 1] == x);
                assert(lex_lt(a[0], x));
                lemma_lex_lt_irreflexive(x);
                assert(x != b[0]);
                assert(a.contains(x));
                assert(b.to_set().contains(x));
                assert(b.contains(x));
                let j = choose|j: int| 0 <= j < b.len() && b[j] == x;
                assert(j > 0);
                assert(bt[j - 1] == x);
                assert(bt.contains(x));
            }
            assert forall|x: Seq<u8>| bt.to_set().contains(x) implies at.to_set().contains(x) by {
                assert(bt.contains(x));
                let i = choose|i: int| 0 <= i < bt.len() && bt[i] == x;
                assert(b[i + 1] == x);
                assert(lex_lt(b[0], x));
                lemma_lex_lt_irreflexive(x);
                assert(x != a[0]);
                assert(b.contains(x));
                assert(a.to_set().contains(x));
                assert(a.contains(x));
                let j = choose|j: int| 0 <= j < a.len() && a[j] == x;
                assert(j > 0);
                assert(at[j - 1] == x);
                assert(at.contains(x));
            }
        }
        lemma_ascending_names_canonical(at, bt);
        assert forall|i: int| 0 <= i < a.len() implies a[i] == b[i] by {
            if i > 0 {
                assert(at[i - 1] == bt[i - 1]);
            }
        }
        assert(a =~= b);
    }
}

/// Records `(name, path)` unless an entry named `name` is already present;
/// the sequence stays sorted by name.
pub fn insert_dropin(entries: &mut Vec<DropinEntry>, name: Vec<u8>, path: Vec<u8>)
    requires
        entries_sorted(entry_models(old(entries)@)),
    ensures
        entry_models(final(entries)@) == insert_entry(entry_models(old(entries)@), name@, path@),
{
    let ghost m = entry_models(entries@);
    let mut idx: usize = 0;
    while idx < entries.len() && lex_lt_bytes(&entries[idx].name, &name)
        invariant
            idx <= entries@.len(),
            m == entry_models(entries@),
            entries_sorted(m),
            forall|k: int| 0 <= k < idx ==> lex_lt(m[k].name, name@),
        decreases entries@.len() - idx,
    {
        idx += 1;
    }
    if idx < entries.len() && bytes_eq(&entries[idx].name, &name) {
        proof {
            lemma_insert_entry_at(m, name@, path@, idx as int);
        }
    } else {
        proof {
            lemma_insert_entry_at(m, name@, path@, idx as int);
        }
        let ghost pre = entries@;
        entries.insert(idx, DropinEntry { name, path });
        proof {
            assert(entry_models(entries@) =~= entry_models(pre).insert(
                idx as int,
                EntryModel { name: name@, path: path@ },
            ));
        }
    }
}

} // verus!
