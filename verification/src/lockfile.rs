//! The lockfile: the record of tracked packages.
//!
//! A lockfile is a sequence of entries with pairwise distinct names; names
//! are stored with their original casing and looked up either exactly or
//! case-insensitively (ASCII folding), as each operation requires.

use vstd::prelude::*;
use crate::text::lower;

verus! {

/// Where a package comes from: a release repository or a direct URL.
#[derive(Clone, Debug)]
pub enum Source {
    Github { owner: String, repo: String, prerelease: bool },
    Direct,
}

/// Ghost image of a `Source`.
pub enum SourceV {
    Github { owner: Seq<char>, repo: Seq<char>, prerelease: bool },
    Direct,
}

impl View for Source {
    type V = SourceV;

    open spec fn view(&self) -> SourceV {
        match self {
            Source::Github { owner, repo, prerelease } => SourceV::Github {
                owner: owner@,
                repo: repo@,
                prerelease: *prerelease,
            },
            Source::Direct => SourceV::Direct,
        }
    }
}

/// One tracked package.
#[derive(Clone, Debug)]
pub struct PackageEntry {
    /// Unique display and lookup key; casing is preserved as given.
    pub name: String,
    /// Release tag, or the sentinel `unknown` for direct URL sources.
    pub version: String,
    /// Last-known download URL of the artifact.
    pub url: String,
    /// Hex-encoded content checksum of the artifact at install time.
    pub hash: String,
    /// Filesystem location of the installed artifact.
    pub path: String,
    /// Where the package comes from.
    pub source: Source,
}

/// Ghost image of a `PackageEntry`.
pub struct EntryV {
    pub name: Seq<char>,
    pub version: Seq<char>,
    pub url: Seq<char>,
    pub hash: Seq<char>,
    pub path: Seq<char>,
    pub source: SourceV,
}

impl View for PackageEntry {
    type V = EntryV;

    open spec fn view(&self) -> EntryV {
        EntryV {
            name: self.name@,
            version: self.version@,
            url: self.url@,
            hash: self.hash@,
            path: self.path@,
            source: self.source@,
        }
    }
}

/// Errors of lockfile operations.
#[derive(Debug, PartialEq, Eq, Structural, Clone, Copy)]
pub enum LockError {
    /// No entry answers to the given name.
    NotFound,
    /// The requested name is already a stored key.
    NameTaken,
}

/// The set of tracked packages.
pub struct Lockfile {
    pub packages: Vec<PackageEntry>,
}

/// Index of the first entry named exactly `name`, or -1 when there is none.
pub open spec fn index_of_name(s: Seq<EntryV>, name: Seq<char>) -> int
    decreases s.len(),
{
    if s.len() == 0 {
        -1
    } else if s[0].name == name {
        0
    } else {
        let r = index_of_name(s.skip(1), name);
        if r == -1 {
            -1
        } else {
            r + 1
        }
    }
}

/// Index of the first entry whose name case-folds to `name`'s folding,
/// or -1 when there is none.
pub open spec fn index_of_name_ci(s: Seq<EntryV>, name: Seq<char>) -> int
    decreases s.len(),
{
    if s.len() == 0 {
        -1
    } else if lower(s[0].name) == lower(name) {
        0
    } else {
        let r = index_of_name_ci(s.skip(1), name);
        if r == -1 {
            -1
        } else {
            r + 1
        }
    }
}

/// Some entry is named exactly `name`.
pub open spec fn contains_name(s: Seq<EntryV>, name: Seq<char>) -> bool {
    index_of_name(s, name) != -1
}

/// What `index_of_name` returns: the first exact match, or -1 when none.
pub proof fn lemma_index_of_name(s: Seq<EntryV>, name: Seq<char>)
    ensures
        index_of_name(s, name) == -1 ==> forall|j: int| 0 <= j < s.len() ==> s[j].name != name,
        index_of_name(s, name) != -1 ==> {
            let r = index_of_name(s, name);
            0 <= r < s.len() && s[r].name == name && forall|j: int| 0 <= j < r ==> s[j].name != name
        },
    decreases s.len(),
{
    if s.len() == 0 {
    } else if s[0].name == name {
    } else {
        lemma_index_of_name(s.skip(1), name);
        assert(forall|j: int| 1 <= j < s.len() ==> s[j] == s.skip(1)[j - 1]);
    }
}

/// What `index_of_name_ci` returns: the first case-folded match, or -1 when none.
pub proof fn lemma_index_of_name_ci(s: Seq<EntryV>, name: Seq<char>)
    ensures
        index_of_name_ci(s, name) == -1 ==> forall|j: int|
            0 <= j < s.len() ==> lower(s[j].name) != lower(name),
        index_of_name_ci(s, name) != -1 ==> {
            let r = index_of_name_ci(s, name);
            0 <= r < s.len() && lower(s[r].name) == lower(name) && forall|j: int|
                0 <= j < r ==> lower(s[j].name) != lower(name)
        },
    decreases s.len(),
{
    if s.len() == 0 {
    } else if lower(s[0].name) == lower(name) {
    } else {
        lemma_index_of_name_ci(s.skip(1), name);
        assert(forall|j: int| 1 <= j < s.len() ==> s[j] == s.skip(1)[j - 1]);
    }
}

/// Law: lookup is insensitive to ASCII case — two queried names that fold
/// to the same letters resolve to the same entry, whatever casing the
/// stored key keeps.
pub proof fn lemma_lookup_case_insensitive(s: Seq<EntryV>, a: Seq<char>, b: Seq<char>)
    requires
        lower(a) == lower(b),
    ensures
        index_of_name_ci(s, a) == index_of_name_ci(s, b),
    decreases s.len(),
{
    if s.len() > 0 {
        lemma_lookup_case_insensitive(s.skip(1), a, b);
    }
}

/// The lockfile after storing `e` under its name: an entry already so named
/// is replaced in place, otherwise `e` is appended.
pub open spec fn spec_insert(s: Seq<EntryV>, e: EntryV) -> Seq<EntryV> {
    if index_of_name(s, e.name) == -1 {
        s.push(e)
    } else {
        s.update(index_of_name(s, e.name), e)
    }
}

impl View for Lockfile {
    type V = Seq<EntryV>;

    open spec fn view(&self) -> Seq<EntryV> {
        self.packages@.map_values(|p: PackageEntry| p@)
    }
}

impl Lockfile {
    /// Entry names are pairwise distinct (exact comparison).
    pub open spec fn wf(&self) -> bool {
        forall|i: int, j: int| 0 <= i < j < self@.len() ==> self@[i].name != self@[j].name
    }

    /// An empty lockfile; the state when nothing is persisted yet.
    pub fn new() -> (r: Lockfile)
        ensures
            r@ == Seq::<EntryV>::empty(),
            r.wf(),
    {
        let r = Lockfile { packages: Vec::new() };
        proof {
            assert(r@ =~= Seq::<EntryV>::empty());
        }
        r
    }

    /// How many packages are tracked.
    pub fn len(&self) -> (r: usize)
        ensures
            r == self@.len(),
    {
        self.packages.len()
    }

    /// Index of the first entry named exactly `name`.
    pub fn find_index(&self, name: &str) -> (r: Option<usize>)
        ensures
            match r {
                Some(i) => i == index_of_name(self@, name@),
                None => index_of_name(self@, name@) == -1,
            },
    {
        proof {
            lemma_index_of_name(self@, name@);
        }
        let n = self.packages.len();
        let mut i: usize = 0;
        while i < n
            invariant
                0 <= i <= n,
                n == self@.len(),
                self@ == self.packages@.map_values(|p: PackageEntry| p@),
                forall|j: int| 0 <= j < i ==> self@[j].name != name@,
            decreases n - i,
        {
            if crate::text::str_eq(self.packages[i].name.as_str(), name, false) {
                proof {
                    lemma_index_of_name(self@, name@);
                    let r = index_of_name(self@, name@);
                    assert(self@[i as int].name == name@);
                    if r < i {
                        assert(self@[r].name == name@);
                        assert(false);
                    }
                    if r > i {
                        assert(self@[i as int].name != name@);
                        assert(false);
                    }
                }
                return Some(i);
            }
            i = i + 1;
        }
        None
    }

    /// Index of the first entry whose name matches `name` up to ASCII case.
    pub fn find_index_ci(&self, name: &str) -> (r: Option<usize>)
        ensures
            match r {
                Some(i) => i == index_of_name_ci(self@, name@),
                None => index_of_name_ci(self@, name@) == -1,
            },
    {
        proof {
            lemma_index_of_name_ci(self@, name@);
        }
        let n = self.packages.len();
        let mut i: usize = 0;
        while i < n
            invariant
                0 <= i <= n,
                n == self@.len(),
                self@ == self.packages@.map_values(|p: PackageEntry| p@),
                forall|j: int| 0 <= j < i ==> lower(self@[j].name) != lower(name@),
            decreases n - i,
        {
            if crate::text::str_eq(self.packages[i].name.as_str(), name, true) {
                proof {
                    lemma_index_of_name_ci(self@, name@);
                    let r = index_of_name_ci(self@, name@);
                    assert(lower(self@[i as int].name) == lower(name@));
                    if r < i {
                        assert(lower(self@[r].name) == lower(name@));
                        assert(false);
                    }
                    if r > i {
                        assert(lower(self@[i as int].name) != lower(name@));
                        assert(false);
                    }
                }
                return Some(i);
            }
            i = i + 1;
        }
        None
    }

    /// Store `e` under its name: replace the entry already so named, or
    /// append `e`. Distinctness of names is preserved.
    pub fn insert(&mut self, e: PackageEntry)
        ensures
            final(self)@ == spec_insert(old(self)@, e@),
            old(self).wf() ==> final(self).wf(),
    {
        proof {
            lemma_index_of_name(self@, e@.name);
        }
        match self.find_index(e.name.as_str()) {
            Some(i) => {
                let _ = self.packages.remove(i);
                self.packages.insert(i, e);
                proof {
                    assert(self@ =~= spec_insert(old(self)@, e@));
                }
            },
            None => {
                self.packages.push(e);
                proof {
                    assert(self@ =~= spec_insert(old(self)@, e@));
                }
            },
        }
        proof {
            if old(self).wf() {
                lemma_index_of_name(old(self)@, e@.name);
                assert forall|i: int, j: int| 0 <= i < j < self@.len() implies self@[i].name
                    != self@[j].name by {
                    assert(old(self).wf());
                }
            }
        }
    }

    /// Remove the entry whose name matches `name` up to ASCII case and hand
    /// it back; fail without change when no entry matches.
    pub fn remove_ci(&mut self, name: &str) -> (r: Result<PackageEntry, LockError>)
        ensures
            match r {
                Ok(e) => {
                    let i = index_of_name_ci(old(self)@, name@);
                    i != -1 && e@ == old(self)@[i] && final(self)@ == old(self)@.remove(i)
                },
                Err(err) => err == LockError::NotFound && index_of_name_ci(old(self)@, name@)
                    == -1 && final(self)@ == old(self)@,
            },
            r is Ok <==> index_of_name_ci(old(self)@, name@) != -1,
            old(self).wf() ==> final(self).wf(),
    {
        proof {
            lemma_index_of_name_ci(self@, name@);
        }
        match self.find_index_ci(name) {
            Some(i) => {
                let e = self.packages.remove(i);
                proof {
                    assert(self@ =~= old(self)@.remove(i as int));
                }
                Ok(e)
            },
            None => Err(LockError::NotFound),
        }
    }

    /// Give the entry that matches `old_name` up to ASCII case the new name
    /// `new_name`, in place; everything else about it is untouched. Fails
    /// without change when no entry matches, or when `new_name` is already
    /// a stored key.
    pub fn rename(&mut self, old_name: &str, new_name: &str) -> (r: Result<(), LockError>)
        ensures
            match r {
                Ok(()) => {
                    let i = index_of_name_ci(old(self)@, old_name@);
                    i != -1 && !contains_name(old(self)@, new_name@) && final(self)@ == old(
                        self,
                    )@.update(
                        i,
                        (EntryV {
                            name: new_name@,
                            version: old(self)@[i].version,
                            url: old(self)@[i].url,
                            hash: old(self)@[i].hash,
                            path: old(self)@[i].path,
                            source: old(self)@[i].source,
                        }),
                    )
                },
                Err(err) => final(self)@ == old(self)@ && match err {
                    LockError::NotFound => index_of_name_ci(old(self)@, old_name@) == -1,
                    LockError::NameTaken => index_of_name_ci(old(self)@, old_name@) != -1
                        && contains_name(old(self)@, new_name@),
                },
            },
            r is Ok <==> (index_of_name_ci(old(self)@, old_name@) != -1 && !contains_name(
                old(self)@,
                new_name@,
            )),
            old(self).wf() ==> final(self).wf(),
    {
        let i = match self.find_index_ci(old_name) {
            Some(i) => i,
            None => {
                return Err(LockError::NotFound);
            },
        };
        if let Some(_) = self.find_index(new_name) {
            return Err(LockError::NameTaken);
        }
        proof {
            lemma_index_of_name_ci(self@, old_name@);
        }
        let e = self.packages.remove(i);
        let renamed = PackageEntry { name: new_name.to_owned(), ..e };
        self.packages.insert(i, renamed);
        proof {
            lemma_index_of_name(old(self)@, new_name@);
            let iv = index_of_name_ci(old(self)@, old_name@);
            assert(self@ =~= old(self)@.update(
                iv,
                EntryV {
                    name: new_name@,
                    version: old(self)@[iv].version,
                    url: old(self)@[iv].url,
                    hash: old(self)@[iv].hash,
                    path: old(self)@[iv].path,
                    source: old(self)@[iv].source,
                },
            ));
            if old(self).wf() {
                assert forall|a: int, b: int| 0 <= a < b < self@.len() implies self@[a].name
                    != self@[b].name by {
                    assert(old(self).wf());
                }
            }
        }
        Ok(())
    }
}

} // verus!
