//! The locator: an upward directory search for a well-known filename. The
//! decision logic lives here; the caller probes the filesystem and reports
//! whether the file exists in the current directory.

use vstd::prelude::*;
use crate::errors::{ErrorKind, ManifestError};

verus! {

/// Which well-known file the locator searches for.
#[derive(Clone, Copy, PartialEq, Eq, Structural, Debug)]
pub enum CargoFile {
    Config,
    Lock,
}

impl CargoFile {
    pub open spec fn spec_filename(self) -> Seq<char> {
        match self {
            CargoFile::Config => "Cargo.toml"@,
            CargoFile::Lock => "Cargo.lock"@,
        }
    }

    /// The conventional filename this file kind is stored under.
    pub fn filename(&self) -> (r: &'static str)
        ensures
            r@ == self.spec_filename(),
    {
        match self {
            CargoFile::Config => "Cargo.toml",
            CargoFile::Lock => "Cargo.lock",
        }
    }
}

/// An absolute directory path, as the sequence of its components below the
/// filesystem root. The root itself is the empty sequence.
pub struct DirPath {
    pub components: Vec<String>,
}

impl DirPath {
    pub open spec fn view(self) -> Seq<Seq<char>> {
        self.components.deep_view()
    }

    /// Whether this is the filesystem root, which has no parent.
    pub fn is_root(&self) -> (r: bool)
        ensures
            r == (self.view().len() == 0),
    {
        self.components.len() == 0
    }

    /// The parent directory.
    pub fn parent(&self) -> (p: DirPath)
        requires
            self.view().len() > 0,
        ensures
            p.view() == self.view().drop_last(),
    {
        let mut c = self.components.clone();
        c.pop();
        let p = DirPath { components: c };
        proof {
            assert(p.view() =~= self.view().drop_last());
        }
        p
    }
}

/// The directories the search visits, nearest first: the start, its parent,
/// and so on up to the root. `present` stands for the set of directories in
/// which the target file exists; the result is the nearest of them, if any.
pub open spec fn spec_search(present: Set<Seq<Seq<char>>>, dir: Seq<Seq<char>>) -> Option<
    Seq<Seq<char>>,
>
    decreases dir.len(),
{
    if present.contains(dir) {
        Some(dir)
    } else if dir.len() == 0 {
        None
    } else {
        spec_search(present, dir.drop_last())
    }
}

/// The answer of one step of the upward search.
pub enum SearchStep {
    /// The target exists in the probed directory: the search ends there.
    Found,
    /// Not here: continue from this parent directory.
    Ascend(DirPath),
    /// Not here and the root has no parent: the search is exhausted.
    Fail(ManifestError),
}

/// One step of the upward search: the caller reports whether the target file
/// exists in `dir`. This mirrors one unfolding of `spec_search`.
pub fn search_step(dir: &DirPath, manifest_here: bool) -> (r: SearchStep)
    ensures
        manifest_here ==> (r is Found),
        !manifest_here && dir.view().len() > 0 ==> (r is Ascend)
            && r->Ascend_0.view() == dir.view().drop_last(),
        !manifest_here && dir.view().len() == 0 ==> (r is Fail)
            && r->Fail_0.kind == ErrorKind::NotFound,
{
    if manifest_here {
        SearchStep::Found
    } else if dir.is_root() {
        SearchStep::Fail(ManifestError::new(ErrorKind::NotFound))
    } else {
        SearchStep::Ascend(dir.parent())
    }
}

/// With no manifest in the starting directory or in any of its ancestors, the
/// upward search fails.
pub proof fn lemma_search_exhausts(present: Set<Seq<Seq<char>>>, dir: Seq<Seq<char>>)
    requires
        forall|k: int| 0 <= k <= dir.len() ==> !present.contains(#[trigger] dir.take(k)),
    ensures
        spec_search(present, dir) is None,
    decreases dir.len(),
{
    assert(dir.take(dir.len() as int) =~= dir);
    if dir.len() > 0 {
        let d2 = dir.drop_last();
        assert forall|k: int| 0 <= k <= d2.len() implies !present.contains(#[trigger] d2.take(k)) by {
            assert(d2.take(k) =~= dir.take(k));
        }
        lemma_search_exhausts(present, d2);
    }
}

/// With the nearest manifest at ancestor depth `dir.len() - m`, the upward
/// search from `dir` returns exactly that ancestor, whatever the depth is.
pub proof fn lemma_search_finds_nearest(
    present: Set<Seq<Seq<char>>>,
    dir: Seq<Seq<char>>,
    m: int,
)
    requires
        0 <= m <= dir.len(),
        present.contains(dir.take(m)),
        forall|k: int| m < k <= dir.len() ==> !present.contains(#[trigger] dir.take(k)),
    ensures
        spec_search(present, dir) == Some(dir.take(m)),
    decreases dir.len(),
{
    assert(dir.take(dir.len() as int) =~= dir);
    if m == dir.len() {
        assert(present.contains(dir));
    } else {
        assert(!present.contains(dir));
        let d2 = dir.drop_last();
        assert(d2 =~= dir.take(dir.len() - 1));
        assert(d2.take(m) =~= dir.take(m));
        assert forall|k: int| m < k <= d2.len() implies !present.contains(#[trigger] d2.take(k)) by {
            assert(d2.take(k) =~= dir.take(k));
        }
        lemma_search_finds_nearest(present, d2, m);
        assert(spec_search(present, dir) == spec_search(present, d2));
    }
}

} // verus!
