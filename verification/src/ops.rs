//! Reconciliation planning: the decisions behind add, update, install,
//! list, run, and the confirmation prompts.
//!
//! Every function here is pure; the program shell performs the network
//! and filesystem work these plans call for.

use vstd::prelude::*;
use crate::lockfile::{EntryV, Lockfile, PackageEntry, Source, SourceV, index_of_name,
    lemma_index_of_name, spec_insert};
use crate::text::{last_segment, last_segment_exec, lower, str_eq, strip_suffix_all,
    stripped_suffixes, trim_spaces, trimmed};

verus! {

/// The name suggested for a package fetched from `url`: the last path
/// segment, with any package-file suffix removed.
pub open spec fn spec_suggested_name(url: Seq<char>) -> Seq<char> {
    stripped_suffixes(stripped_suffixes(last_segment(url), ".AppImage"@), ".appimage"@)
}

/// The name suggested for a package fetched from `url`.
pub fn suggested_name_for_url(url: &str) -> (r: String)
    ensures
        r@ == spec_suggested_name(url@),
{
    let seg = last_segment_exec(url);
    let first = strip_suffix_all(seg.as_str(), ".AppImage");
    strip_suffix_all(first.as_str(), ".appimage")
}

/// The file name an artifact at `url` is stored under: the URL's last
/// path segment.
pub fn file_name_from_url(url: &str) -> (r: String)
    ensures
        r@ == last_segment(url@),
{
    last_segment_exec(url)
}

/// Where an artifact fetched from `url` lands under `bin_dir`.
pub fn dest_path(bin_dir: &str, url: &str) -> (r: String)
    ensures
        r@ == bin_dir@ + "/"@ + last_segment(url@),
{
    let mut out = bin_dir.to_owned();
    out.append("/");
    let name = file_name_from_url(url);
    out.append(name.as_str());
    out
}

/// The entry already tracks the same source: same owner and repository up
/// to ASCII case for repository sources, same URL for direct ones.
pub open spec fn source_matches(e: EntryV, src: SourceV, url: Seq<char>) -> bool {
    match e.source {
        SourceV::Github { owner: o1, repo: r1, prerelease: p1 } => match src {
            SourceV::Github { owner: o2, repo: r2, prerelease: p2 } => lower(o1) == lower(o2)
                && lower(r1) == lower(r2),
            SourceV::Direct => false,
        },
        SourceV::Direct => match src {
            SourceV::Github { owner: o2, repo: r2, prerelease: p2 } => false,
            SourceV::Direct => e.url == url,
        },
    }
}

/// Index of the first entry tracking the same source, or -1.
pub open spec fn first_source_match(s: Seq<EntryV>, src: SourceV, url: Seq<char>) -> int
    decreases s.len(),
{
    if s.len() == 0 {
        -1
    } else if source_matches(s[0], src, url) {
        0
    } else {
        let r = first_source_match(s.skip(1), src, url);
        if r == -1 {
            -1
        } else {
            r + 1
        }
    }
}

/// What `first_source_match` returns: the first match, or -1 when none.
pub proof fn lemma_first_source_match(s: Seq<EntryV>, src: SourceV, url: Seq<char>)
    ensures
        first_source_match(s, src, url) == -1 ==> forall|j: int|
            0 <= j < s.len() ==> !source_matches(#[trigger] s[j], src, url),
        first_source_match(s, src, url) != -1 ==> {
            let r = first_source_match(s, src, url);
            0 <= r < s.len() && source_matches(s[r], src, url) && forall|j: int|
                0 <= j < r ==> !source_matches(#[trigger] s[j], src, url)
        },
    decreases s.len(),
{
    if s.len() == 0 {
    } else if source_matches(s[0], src, url) {
    } else {
        lemma_first_source_match(s.skip(1), src, url);
        assert(forall|j: int| 1 <= j < s.len() ==> s[j] == s.skip(1)[j - 1]);
    }
}

/// The stored name of the first entry already tracking `source`, if any:
/// adding such a source again updates that entry rather than duplicating it.
pub fn find_matching_source(lf: &Lockfile, source: &Source, url: &str) -> (r: Option<String>)
    ensures
        match r {
            Some(name) => {
                let i = first_source_match(lf@, source@, url@);
                i != -1 && name@ == lf@[i].name
            },
            None => first_source_match(lf@, source@, url@) == -1,
        },
{
    proof {
        lemma_first_source_match(lf@, source@, url@);
    }
    let n = lf.packages.len();
    let mut i: usize = 0;
    while i < n
        invariant
            0 <= i <= n,
            n == lf@.len(),
            lf@ == lf.packages@.map_values(|p: PackageEntry| p@),
            forall|j: int| 0 <= j < i ==> !source_matches(#[trigger] lf@[j], source@, url@),
        decreases n - i,
    {
        let hit = match (&lf.packages[i].source, source) {
            (
                Source::Github { owner: o1, repo: r1, prerelease: _ },
                Source::Github { owner: o2, repo: r2, prerelease: _ },
            ) => str_eq(o1.as_str(), o2.as_str(), true) && str_eq(r1.as_str(), r2.as_str(), true),
            (Source::Direct, Source::Direct) => str_eq(lf.packages[i].url.as_str(), url, false),
            _ => false,
        };
        if hit {
            proof {
                lemma_first_source_match(lf@, source@, url@);
                let r = first_source_match(lf@, source@, url@);
                assert(source_matches(lf@[i as int], source@, url@));
                if r < i {
                    assert(source_matches(lf@[r], source@, url@));
                    assert(false);
                }
                if r > i {
                    assert(!source_matches(lf@[i as int], source@, url@));
                    assert(false);
                }
            }
            return Some(lf.packages[i].name.clone());
        }
        i = i + 1;
    }
    None
}

/// How the name of a new package is settled before any prompt.
pub enum NamePlan {
    /// The name is decided without asking.
    Decided(String),
    /// The user must be asked; the value is the suggested default.
    Prompt(String),
}

/// Settle the package name: an explicit override wins, then the name the
/// source is already tracked under, then the suggestion when prompts are
/// auto-confirmed; otherwise the user is to be asked.
pub fn plan_name(
    override_name: Option<String>,
    existing: Option<String>,
    auto_confirm: bool,
    suggested: String,
) -> (r: NamePlan)
    ensures
        match r {
            NamePlan::Decided(n) => match override_name {
                Some(o) => n == o,
                None => match existing {
                    Some(e) => n == e,
                    None => auto_confirm && n == suggested,
                },
            },
            NamePlan::Prompt(s) => override_name is None && existing is None && !auto_confirm
                && s == suggested,
        },
{
    match override_name {
        Some(o) => NamePlan::Decided(o),
        None => match existing {
            Some(e) => NamePlan::Decided(e),
            None => if auto_confirm {
                NamePlan::Decided(suggested)
            } else {
                NamePlan::Prompt(suggested)
            },
        },
    }
}

/// The name settled from a prompt's answer: the trimmed answer, or the
/// suggestion when the answer is blank.
pub fn confirm_name(suggested: String, answer: &str) -> (r: String)
    ensures
        trimmed(answer@).len() == 0 ==> r == suggested,
        trimmed(answer@).len() > 0 ==> r@ == trimmed(answer@),
{
    let t = trim_spaces(answer);
    if t.as_str().unicode_len() == 0 {
        suggested
    } else {
        t
    }
}

/// An entry of this name and version is already stored.
pub open spec fn already_installed(s: Seq<EntryV>, name: Seq<char>, version: Seq<char>) -> bool {
    index_of_name(s, name) != -1 && s[index_of_name(s, name)].version == version
}

/// What `add` does once the name is settled.
#[derive(Debug, PartialEq, Eq, Structural, Clone, Copy)]
pub enum AddDecision {
    /// The stored entry already has this version: nothing to do.
    AlreadyInstalled,
    /// Fetch and store.
    Proceed,
}

/// Decide whether an add is a no-op: it is exactly when an entry of this
/// name already stores this version.
pub fn plan_add(lf: &Lockfile, name: &str, version: &str) -> (r: AddDecision)
    ensures
        r == AddDecision::AlreadyInstalled <==> already_installed(lf@, name@, version@),
{
    proof {
        lemma_index_of_name(lf@, name@);
    }
    match lf.find_index(name) {
        Some(i) => {
            if str_eq(lf.packages[i].version.as_str(), version, false) {
                AddDecision::AlreadyInstalled
            } else {
                AddDecision::Proceed
            }
        },
        None => AddDecision::Proceed,
    }
}

/// Law: storing an entry stores it faithfully — after the insert, lookup
/// under its name finds exactly that entry, name, version, url, hash,
/// path and source unchanged.
pub proof fn lemma_add_stores_resolution(s: Seq<EntryV>, e: EntryV)
    ensures
        ({
            let s2 = spec_insert(s, e);
            let i = index_of_name(s2, e.name);
            i != -1 && s2[i] == e
        }),
{
    lemma_index_of_name(s, e.name);
    let s2 = spec_insert(s, e);
    lemma_index_of_name(s2, e.name);
    let i = index_of_name(s, e.name);
    let r = index_of_name(s2, e.name);
    if i == -1 {
        assert(s2 == s.push(e));
        assert(s2[s.len() as int] == e);
        if r == -1 {
            assert(false);
        }
        assert(s2[r].name == e.name);
        if r < s.len() {
            assert(s2[r] == s[r]);
            assert(false);
        }
        assert(r == s.len());
    } else {
        assert(s2 == s.update(i, e));
        assert(s2[i] == e);
        if r == -1 {
            assert(false);
        }
        if r < i {
            assert(s2[r] == s[r]);
            assert(s[r].name == e.name);
            assert(false);
        }
        if r > i {
            assert(s2[i].name != e.name);
            assert(false);
        }
    }
}

/// Law: an add that has just stored an entry finds it already installed
/// the second time round, so a repeated add with the same source and
/// version leaves the lockfile exactly as it was.
pub proof fn lemma_add_idempotent(s: Seq<EntryV>, e: EntryV)
    ensures
        already_installed(spec_insert(s, e), e.name, e.version),
{
    lemma_add_stores_resolution(s, e);
}

/// A fetched update is wanted exactly when the resolved version differs
/// from the stored one; when they are equal the entry is left untouched
/// and nothing is fetched.
pub fn update_needed(entry: &PackageEntry, resolved_version: &str) -> (r: bool)
    ensures
        r == (entry@.version != resolved_version@),
{
    !str_eq(entry.version.as_str(), resolved_version, false)
}

/// Replace the fetched fields of the entry at `i` — version, url, hash,
/// path — leaving its name and source as they were.
pub fn apply_update(
    lf: &mut Lockfile,
    i: usize,
    version: String,
    url: String,
    hash: String,
    path: String,
)
    requires
        i < old(lf)@.len(),
    ensures
        final(lf)@ == old(lf)@.update(
            i as int,
            (EntryV {
                name: old(lf)@[i as int].name,
                version: version@,
                url: url@,
                hash: hash@,
                path: path@,
                source: old(lf)@[i as int].source,
            }),
        ),
        old(lf).wf() ==> final(lf).wf(),
{
    let e = lf.packages.remove(i);
    let updated = PackageEntry { version, url, hash, path, ..e };
    lf.packages.insert(i, updated);
    proof {
        assert(lf@ =~= old(lf)@.update(
            i as int,
            EntryV {
                name: old(lf)@[i as int].name,
                version: version@,
                url: url@,
                hash: hash@,
                path: path@,
                source: old(lf)@[i as int].source,
            },
        ));
        if old(lf).wf() {
            assert forall|a: int, b: int| 0 <= a < b < lf@.len() implies lf@[a].name
                != lf@[b].name by {
                assert(old(lf).wf());
            }
        }
    }
}

/// The old artifact is deleted only when one is on disk somewhere other
/// than where the new one landed.
pub fn should_remove_old(old_path: &str, new_path: &str, old_exists: bool) -> (r: bool)
    ensures
        r == (old_exists && old_path@ != new_path@),
{
    old_exists && !str_eq(old_path, new_path, false)
}

/// The indices whose flag is unset, in order.
pub open spec fn spec_missing(flags: Seq<bool>) -> Seq<int>
    decreases flags.len(),
{
    if flags.len() == 0 {
        Seq::<int>::empty()
    } else {
        spec_missing(flags.take(flags.len() - 1)) + (if !flags[flags.len() - 1] {
            seq![flags.len() - 1]
        } else {
            Seq::<int>::empty()
        })
    }
}

/// The packages whose artifact is absent on disk, by index: these are what
/// `install` fetches. `exists` holds, per package, whether its path exists.
pub fn missing_indices(lf: &Lockfile, exists: &Vec<bool>) -> (r: Vec<usize>)
    requires
        exists@.len() == lf@.len(),
    ensures
        r@.map_values(|u: usize| u as int) == spec_missing(exists@),
{
    let n = lf.packages.len();
    let mut r: Vec<usize> = Vec::new();
    let mut i: usize = 0;
    proof {
        assert(r@.map_values(|u: usize| u as int) =~= spec_missing(exists@.take(0)));
    }
    while i < n
        invariant
            0 <= i <= n,
            n == lf@.len(),
            lf@ == lf.packages@.map_values(|p: PackageEntry| p@),
            exists@.len() == n,
            r@.map_values(|u: usize| u as int) == spec_missing(exists@.take(i as int)),
        decreases n - i,
    {
        proof {
            assert(exists@.take(i + 1).take(i as int) =~= exists@.take(i as int));
            assert(exists@.take(i + 1)[i as int] == exists@[i as int]);
        }
        if !exists[i] {
            r.push(i);
            proof {
                assert(r@.map_values(|u: usize| u as int) =~= spec_missing(exists@.take(i as int))
                    + seq![i as int]);
            }
        }
        i = i + 1;
    }
    proof {
        assert(exists@.take(n as int) =~= exists@);
    }
    r
}

/// The status shown for a package: whether its artifact is on disk.
pub fn status_label(installed: bool) -> (r: &'static str)
    ensures
        installed ==> r@ == "Installed"@,
        !installed ==> r@ == "Missing"@,
{
    if installed {
        "Installed"
    } else {
        "Missing"
    }
}

/// The answer affirms: `y` or `yes` once trimmed, in any ASCII case.
pub open spec fn spec_affirmative(s: Seq<char>) -> bool {
    lower(trimmed(s)) == "y"@ || lower(trimmed(s)) == "yes"@
}

proof fn lemma_yes_literals()
    ensures
        lower("y"@) == "y"@,
        lower("yes"@) == "yes"@,
{
    reveal_strlit("y");
    reveal_strlit("yes");
    assert(lower("y"@) =~= "y"@);
    assert(lower("yes"@) =~= "yes"@);
}

/// The answer to a prompt whose default is yes: blank affirms too.
pub fn affirmative_default_yes(answer: &str) -> (r: bool)
    ensures
        r == (trimmed(answer@).len() == 0 || spec_affirmative(answer@)),
{
    proof {
        lemma_yes_literals();
    }
    let t = trim_spaces(answer);
    t.as_str().unicode_len() == 0 || str_eq(t.as_str(), "y", true) || str_eq(t.as_str(), "yes", true)
}

/// The answer to a prompt whose default is no: only `y` or `yes` affirms.
pub fn affirmative_default_no(answer: &str) -> (r: bool)
    ensures
        r == spec_affirmative(answer@),
{
    proof {
        lemma_yes_literals();
    }
    let t = trim_spaces(answer);
    str_eq(t.as_str(), "y", true) || str_eq(t.as_str(), "yes", true)
}

} // verus!
