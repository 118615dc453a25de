//! Discovery of configuration files across a priority-ordered list of search
//! roots: at most one main file per requested name, extended by `.d` drop-in
//! fragments, with deterministic precedence and ascending yield order.
//!
//! The list of search roots is built first (presets, a user directory, a
//! chroot-style rebase, extra roots), then scoped to a project name, a file
//! name, or both. Discovery itself is step-driven: the scoped value hands out
//! a [`scan::MainFileScan`] and a [`scan::DropinScan`] whose verified
//! transitions decide which paths are tried, which entries are kept, and in
//! what order they are yielded, while the caller performs the filesystem
//! accesses and reports their outcomes.

use vstd::prelude::*;
use vstd::string::StrSliceExecFns;
use vstd::string::StringSliceAdditionalSpecFns;

pub mod bytes;
pub mod dropin;
pub mod paths;
pub mod scan;

pub use crate::paths::InvalidPathError;
pub use crate::paths::validate_path;

use crate::dropin::{DropinScan, dropin_init};
use crate::paths::{valid_root, join, dropin_dir, seg_views, path_join, dropin_dir_path, rebase_under, rebase_path, lemma_no_dot_valid};
use crate::scan::{MainFileScan, main_init};

verus! {

broadcast use vstd::string::is_ascii_spec_bytes;

/// The candidate paths for the main file: `root/stem` for each root, highest
/// priority (last root) first.
pub open spec fn main_candidates(roots: Seq<Seq<u8>>, stem: Seq<u8>) -> Seq<Seq<u8>> {
    Seq::new(roots.len(), |i: int| join(roots[roots.len() - 1 - i], stem))
}

/// The drop-in directories: `root/stem.d` for each root, highest priority
/// (last root) first.
pub open spec fn dropin_dirs(roots: Seq<Seq<u8>>, stem: Seq<u8>) -> Seq<Seq<u8>> {
    Seq::new(roots.len(), |i: int| dropin_dir(roots[roots.len() - 1 - i], stem))
}

fn build_main_candidates(roots: &Vec<Vec<u8>>, stem: &Vec<u8>) -> (r: Vec<Vec<u8>>)
    ensures
        seg_views(r@) == main_candidates(seg_views(roots@), stem@),
{
    let n = roots.len();
    let mut r: Vec<Vec<u8>> = Vec::new();
    let mut i: usize = 0;
    proof {
        assert(seg_views(r@) =~= main_candidates(seg_views(roots@), stem@).take(0));
    }
    while i < n
        invariant
            n == roots@.len(),
            i <= n,
            seg_views(r@) == main_candidates(seg_views(roots@), stem@).take(i as int),
        decreases n - i,
    {
        let ghost pre_r = r@;
        let p = path_join(&roots[n - 1 - i], stem);
        let ghost pv = p@;
        r.push(p);
        proof {
            let cand = main_candidates(seg_views(roots@), stem@);
            assert(cand.len() == roots@.len());
            assert(seg_views(pre_r) == cand.take(i as int));
            assert(cand.take(i as int).len() == i);
            assert(seg_views(pre_r).len() == pre_r.len());
            assert(pre_r.len() == i);
            assert(r@[i as int]@ == pv);
            assert(seg_views(roots@)[n - 1 - i] == roots@[n - 1 - i]@);
            assert(cand[i as int] == join(seg_views(roots@)[n - 1 - i], stem@));
            assert(seg_views(r@)[i as int] == cand[i as int]);
            assert(seg_views(r@) =~= cand.take(i + 1));
        }
        i += 1;
    }
    proof {
        assert(main_candidates(seg_views(roots@), stem@).take(n as int) =~= main_candidates(
            seg_views(roots@),
            stem@,
        ));
    }
    r
}

fn build_dropin_dirs(roots: &Vec<Vec<u8>>, stem: &Vec<u8>) -> (r: Vec<Vec<u8>>)
    ensures
        seg_views(r@) == dropin_dirs(seg_views(roots@), stem@),
{
    let n = roots.len();
    let mut r: Vec<Vec<u8>> = Vec::new();
    let mut i: usize = 0;
    proof {
        assert(seg_views(r@) =~= dropin_dirs(seg_views(roots@), stem@).take(0));
    }
    while i < n
        invariant
            n == roots@.len(),
            i <= n,
            seg_views(r@) == dropin_dirs(seg_views(roots@), stem@).take(i as int),
        decreases n - i,
    {
        let ghost pre_r = r@;
        let p = dropin_dir_path(&roots[n - 1 - i], stem);
        let ghost pv = p@;
        r.push(p);
        proof {
            let dd = dropin_dirs(seg_views(roots@), stem@);
            assert(dd.len() == roots@.len());
            assert(seg_views(pre_r) == dd.take(i as int));
            assert(dd.take(i as int).len() == i);
            assert(seg_views(pre_r).len() == pre_r.len());
            assert(pre_r.len() == i);
            assert(r@[i as int]@ == pv);
            assert(seg_views(roots@)[n - 1 - i] == roots@[n - 1 - i]@);
            assert(dd[i as int] == dropin_dir(seg_views(roots@)[n - 1 - i], stem@));
            assert(seg_views(r@)[i as int] == dd[i as int]);
            assert(seg_views(r@) =~= dd.take(i + 1));
        }
        i += 1;
    }
    proof {
        assert(dropin_dirs(seg_views(roots@), stem@).take(n as int) =~= dropin_dirs(
            seg_views(roots@),
            stem@,
        ));
    }
    r
}

/// Relies on dirs::config_dir: the user's configuration directory, as the
/// environment defines it, or `None` when it defines none. The result depends
/// on the environment, so nothing is promised of its value.
#[verifier::external_body]
fn user_config_dir() -> (r: Option<Vec<u8>>) {
    dirs::config_dir().map(|p| p.into_os_string().into_encoded_bytes())
}

/// An ordered list of search roots. Order encodes priority: files found under
/// later roots override files found under earlier ones.
#[derive(Clone, Debug)]
pub struct SearchDirectories {
    inner: Vec<Vec<u8>>,
}

impl View for SearchDirectories {
    type V = Seq<Seq<u8>>;

    closed spec fn view(&self) -> Seq<Seq<u8>> {
        seg_views(self.inner@)
    }
}

impl SearchDirectories {
    /// Every root in the list is absolute and free of parent-directory
    /// segments.
    pub open spec fn wf(self) -> bool {
        forall|i: int| 0 <= i < self@.len() ==> valid_root(#[trigger] self@[i])
    }

    /// Starts with an empty list of search roots.
    pub fn empty() -> (r: Self)
        ensures
            r.wf(),
            r@ == Seq::<Seq<u8>>::empty(),
    {
        let r = SearchDirectories { inner: Vec::new() };
        proof {
            assert(r@ =~= Seq::<Seq<u8>>::empty());
        }
        r
    }

    /// The default roots for a system application on a classic Linux
    /// distribution: the OS vendor tier `/usr/lib`, the ephemeral tier
    /// `/var/run`, and the sysadmin tier `/etc`, in ascending priority.
    pub fn classic_system() -> (r: Self)
        ensures
            r.wf(),
            r@ == seq![
                ("/usr/lib").spec_bytes(),
                ("/var/run").spec_bytes(),
                ("/etc").spec_bytes(),
            ],
    {
        let mut inner: Vec<Vec<u8>> = Vec::new();
        inner.push("/usr/lib".as_bytes_vec());
        inner.push("/var/run".as_bytes_vec());
        inner.push("/etc".as_bytes_vec());
        let r = SearchDirectories { inner };
        proof {
            reveal_strlit("/usr/lib");
            reveal_strlit("/var/run");
            reveal_strlit("/etc");
            assert(("/usr/lib").is_ascii());
            assert(("/var/run").is_ascii());
            assert(("/etc").is_ascii());
            assert(r@ =~= seq![
                ("/usr/lib").spec_bytes(),
                ("/var/run").spec_bytes(),
                ("/etc").spec_bytes(),
            ]);
            lemma_no_dot_valid(("/usr/lib").spec_bytes());
            lemma_no_dot_valid(("/var/run").spec_bytes());
            lemma_no_dot_valid(("/etc").spec_bytes());
        }
        r
    }

    /// The default roots for a system application on a modern Linux
    /// distribution: the OS vendor tier `/usr/etc`, the ephemeral tier
    /// `/run`, and the sysadmin tier `/etc`, in ascending priority.
    pub fn modern_system() -> (r: Self)
        ensures
            r.wf(),
            r@ == seq![("/usr/etc").spec_bytes(), ("/run").spec_bytes(), ("/etc").spec_bytes()],
    {
        let mut inner: Vec<Vec<u8>> = Vec::new();
        inner.push("/usr/etc".as_bytes_vec());
        inner.push("/run".as_bytes_vec());
        inner.push("/etc".as_bytes_vec());
        let r = SearchDirectories { inner };
        proof {
            reveal_strlit("/usr/etc");
            reveal_strlit("/run");
            reveal_strlit("/etc");
            assert(("/usr/etc").is_ascii());
            assert(("/run").is_ascii());
            assert(("/etc").is_ascii());
            assert(r@ =~= seq![
                ("/usr/etc").spec_bytes(),
                ("/run").spec_bytes(),
                ("/etc").spec_bytes(),
            ]);
            lemma_no_dot_valid(("/usr/etc").spec_bytes());
            lemma_no_dot_valid(("/run").spec_bytes());
            lemma_no_dot_valid(("/etc").spec_bytes());
        }
        r
    }

    /// Appends a search root to the end of the list, where it has the highest
    /// priority. Rejects a root that is not absolute or that contains a
    /// parent-directory segment.
    pub fn push(&mut self, path: Vec<u8>) -> (r: Result<(), InvalidPathError>)
        requires
            old(self).wf(),
        ensures
            final(self).wf(),
            r.is_ok() <==> valid_root(path@),
            valid_root(path@) ==> final(self)@ == old(self)@.push(path@),
            !valid_root(path@) ==> final(self)@ == old(self)@,
    {
        match validate_path(&path) {
            Ok(()) => {
                let ghost pre = self@;
                self.inner.push(path);
                proof {
                    assert(self@ =~= pre.push(self.inner@[self.inner@.len() - 1]@));
                }
                Ok(())
            },
            Err(e) => Err(e),
        }
    }

    /// Appends the user configuration directory that the environment defines,
    /// if any; when the environment defines none, or an invalid one, the list
    /// is returned unchanged.
    pub fn with_user_directory(self) -> (r: Self)
        requires
            self.wf(),
        ensures
            r.wf(),
            r@ == self@ || exists|d: Seq<u8>| valid_root(d) && r@ == self@.push(d),
    {
        let ghost pre = self@;
        let dir = user_config_dir();
        let ghost dir_ghost = dir;
        let r = self.with_user_directory_from(dir);
        proof {
            match dir_ghost {
                Some(d) => {
                    if valid_root(d@) {
                        assert(valid_root(d@) && r@ == pre.push(d@));
                    }
                },
                None => {},
            }
        }
        r
    }

    /// Appends `dir` as the highest-priority root when it is present and
    /// valid; an absent, empty or otherwise invalid directory leaves the list
    /// exactly as it was.
    pub fn with_user_directory_from(self, dir: Option<Vec<u8>>) -> (r: Self)
        requires
            self.wf(),
        ensures
            r.wf(),
            match dir {
                None => r@ == self@,
                Some(d) => if valid_root(d@) {
                    r@ == self@.push(d@)
                } else {
                    r@ == self@
                },
            },
    {
        match dir {
            None => self,
            Some(d) => {
                let mut s = self;
                match s.push(d) {
                    Ok(()) => s,
                    Err(_) => s,
                }
            },
        }
    }

    /// Rebases every root under `root`: the root marker and any
    /// current-directory segments of each entry are dropped and its remaining
    /// segments are rejoined below `root`. Rejects an invalid `root`.
    pub fn chroot(self, root: &Vec<u8>) -> (r: Result<Self, InvalidPathError>)
        requires
            self.wf(),
        ensures
            match r {
                Ok(s) => valid_root(root@) && s.wf() && s@.len() == self@.len() && forall|i: int|
                    0 <= i < self@.len() ==> s@[i] == rebase_under(root@, #[trigger] self@[i]),
                Err(_) => !valid_root(root@),
            },
    {
        match validate_path(root) {
            Err(e) => Err(e),
            Ok(()) => {
                let n = self.inner.len();
                let mut out: Vec<Vec<u8>> = Vec::new();
                let mut i: usize = 0;
                while i < n
                    invariant
                        n == self.inner@.len(),
                        i <= n,
                        self.wf(),
                        valid_root(root@),
                        seg_views(out@).len() == i,
                        forall|k: int|
                            0 <= k < i ==> seg_views(out@)[k] == rebase_under(
                                root@,
                                #[trigger] self@[k],
                            ) && valid_root(seg_views(out@)[k]),
                    decreases n - i,
                {
                    proof {
                        assert(self@[i as int] == self.inner@[i as int]@);
                        assert(valid_root(self@[i as int]));
                    }
                    let ghost pre_out = out@;
                    let p = rebase_path(root, &self.inner[i]);
                    let ghost pv = p@;
                    out.push(p);
                    proof {
                        assert(seg_views(pre_out).len() == pre_out.len());
                        assert(pre_out.len() == i);
                        assert(out@[i as int]@ == pv);
                        assert(pv == rebase_under(root@, self@[i as int]));
                        assert(valid_root(pv));
                        assert forall|k: int|
                            0 <= k < i + 1 implies seg_views(out@)[k] == rebase_under(
                            root@,
                            #[trigger] self@[k],
                        ) && valid_root(seg_views(out@)[k]) by {
                            if k < i {
                                assert(out@[k] == pre_out[k]);
                                assert(seg_views(out@)[k] == seg_views(pre_out)[k]);
                            } else {
                                assert(seg_views(out@)[k] == p@);
                            }
                        }
                    }
                    i += 1;
                }
                let s = SearchDirectories { inner: out };
                proof {
                    assert(seg_views(out@).len() == out@.len());
                    assert(self@.len() == self.inner@.len());
                    assert(s@.len() == self@.len());
                    assert forall|k: int| 0 <= k < self@.len() implies s@[k] == rebase_under(
                        root@,
                        #[trigger] self@[k],
                    ) by {
                        assert(seg_views(out@)[k] == rebase_under(root@, self@[k]));
                    }
                    assert forall|k: int| 0 <= k < s@.len() implies valid_root(
                        #[trigger] s@[k],
                    ) by {
                        assert(seg_views(out@)[k] == rebase_under(root@, self@[k]));
                        assert(valid_root(seg_views(out@)[k]));
                    }
                }
                Ok(s)
            },
        }
    }

    /// The search roots, in ascending priority order.
    pub fn root_paths(&self) -> (r: &Vec<Vec<u8>>)
        ensures
            seg_views(r@) == self@,
    {
        &self.inner
    }

    /// Scopes the list to a project: discovery will search the project's own
    /// drop-in directory `root/project.d` under every root.
    pub fn with_project(self, project: Vec<u8>) -> (r: SearchDirectoriesForProject)
        ensures
            r.roots() == self@,
            r.project_name() == project@,
    {
        SearchDirectoriesForProject { inner: self.inner, project }
    }

    /// Scopes the list to a config file name: discovery will resolve
    /// `root/file_name` and search `root/file_name.d` under every root.
    pub fn with_file_name(self, file_name: Vec<u8>) -> (r: SearchDirectoriesForFileName)
        ensures
            r.roots() == self@,
            r.file_name_bytes() == file_name@,
    {
        SearchDirectoriesForFileName { inner: self.inner, file_name }
    }
}

impl Default for SearchDirectories {
    /// The empty list of search roots.
    fn default() -> (r: Self)
        ensures
            r.wf(),
            r@ == Seq::<Seq<u8>>::empty(),
    {
        SearchDirectories::empty()
    }
}

/// A search-root list scoped to a project name.
#[derive(Clone, Debug)]
pub struct SearchDirectoriesForProject {
    inner: Vec<Vec<u8>>,
    project: Vec<u8>,
}

impl SearchDirectoriesForProject {
    pub closed spec fn roots(self) -> Seq<Seq<u8>> {
        seg_views(self.inner@)
    }

    pub closed spec fn project_name(self) -> Seq<u8> {
        self.project@
    }

    /// Scopes further to a config file name.
    pub fn with_file_name(self, file_name: Vec<u8>) -> (r: SearchDirectoriesForProjectAndFileName)
        ensures
            r.roots() == self.roots(),
            r.project_name() == self.project_name(),
            r.file_name_bytes() == file_name@,
    {
        SearchDirectoriesForProjectAndFileName {
            inner: self.inner,
            project: self.project,
            file_name,
        }
    }

    /// The drop-in scan over `root/project.d` for every root, highest
    /// priority first. With only a project given there is no main file: the
    /// drop-ins stand alone.
    pub fn dropin_scan(&self, suffix: Vec<u8>) -> (s: DropinScan)
        ensures
            s.wf(),
            s.all_dirs() == dropin_dirs(self.roots(), self.project_name()),
            s.sfx() == suffix@,
            s.history() == Seq::<scan::ScanEvent>::empty(),
            s.model() == dropin_init(dropin_dirs(self.roots(), self.project_name())),
    {
        let dirs = build_dropin_dirs(&self.inner, &self.project);
        DropinScan::new(dirs, suffix)
    }
}

/// A search-root list scoped to a config file name.
#[derive(Clone, Debug)]
pub struct SearchDirectoriesForFileName {
    inner: Vec<Vec<u8>>,
    file_name: Vec<u8>,
}

impl SearchDirectoriesForFileName {
    pub closed spec fn roots(self) -> Seq<Seq<u8>> {
        seg_views(self.inner@)
    }

    pub closed spec fn file_name_bytes(self) -> Seq<u8> {
        self.file_name@
    }

    /// Scopes further to a project name.
    pub fn with_project(self, project: Vec<u8>) -> (r: SearchDirectoriesForProjectAndFileName)
        ensures
            r.roots() == self.roots(),
            r.project_name() == project@,
            r.file_name_bytes() == self.file_name_bytes(),
    {
        SearchDirectoriesForProjectAndFileName {
            inner: self.inner,
            project,
            file_name: self.file_name,
        }
    }

    /// The main-file scan over the candidates `root/file_name`, highest
    /// priority first.
    pub fn main_scan(&self) -> (s: MainFileScan)
        ensures
            s.wf(),
            s.all_candidates() == main_candidates(self.roots(), self.file_name_bytes()),
            s.history() == Seq::<scan::ScanEvent>::empty(),
            s.model() == main_init(main_candidates(self.roots(), self.file_name_bytes())),
    {
        let cands = build_main_candidates(&self.inner, &self.file_name);
        MainFileScan::new(cands)
    }

    /// The drop-in scan over `root/file_name.d` for every root, highest
    /// priority first.
    pub fn dropin_scan(&self, suffix: Vec<u8>) -> (s: DropinScan)
        ensures
            s.wf(),
            s.all_dirs() == dropin_dirs(self.roots(), self.file_name_bytes()),
            s.sfx() == suffix@,
            s.history() == Seq::<scan::ScanEvent>::empty(),
            s.model() == dropin_init(dropin_dirs(self.roots(), self.file_name_bytes())),
    {
        let dirs = build_dropin_dirs(&self.inner, &self.file_name);
        DropinScan::new(dirs, suffix)
    }
}

/// A search-root list scoped to a project name and a config file name.
#[derive(Clone, Debug)]
pub struct SearchDirectoriesForProjectAndFileName {
    inner: Vec<Vec<u8>>,
    project: Vec<u8>,
    file_name: Vec<u8>,
}

impl SearchDirectoriesForProjectAndFileName {
    pub closed spec fn roots(self) -> Seq<Seq<u8>> {
        seg_views(self.inner@)
    }

    pub closed spec fn project_name(self) -> Seq<u8> {
        self.project@
    }

    pub closed spec fn file_name_bytes(self) -> Seq<u8> {
        self.file_name@
    }

    /// The main-file scan over the candidates `root/project/file_name`,
    /// highest priority first.
    pub fn main_scan(&self) -> (s: MainFileScan)
        ensures
            s.wf(),
            s.all_candidates() == main_candidates(
                self.roots(),
                join(self.project_name(), self.file_name_bytes()),
            ),
            s.history() == Seq::<scan::ScanEvent>::empty(),
            s.model() == main_init(
                main_candidates(self.roots(), join(self.project_name(), self.file_name_bytes())),
            ),
    {
        let stem = path_join(&self.project, &self.file_name);
        let cands = build_main_candidates(&self.inner, &stem);
        MainFileScan::new(cands)
    }

    /// The drop-in scan over `root/project/file_name.d` for every root,
    /// highest priority first.
    pub fn dropin_scan(&self, suffix: Vec<u8>) -> (s: DropinScan)
        ensures
            s.wf(),
            s.all_dirs() == dropin_dirs(
                self.roots(),
                join(self.project_name(), self.file_name_bytes()),
            ),
            s.sfx() == suffix@,
            s.history() == Seq::<scan::ScanEvent>::empty(),
            s.model() == dropin_init(
                dropin_dirs(self.roots(), join(self.project_name(), self.file_name_bytes())),
            ),
    {
        let stem = path_join(&self.project, &self.file_name);
        let dirs = build_dropin_dirs(&self.inner, &stem);
        DropinScan::new(dirs, suffix)
    }
}

} // verus!
