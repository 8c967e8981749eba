//! Release asset selection.
//!
//! Given a repository's releases, newest first, pick the artifact for the
//! preferred architecture: the first eligible release whose assets carry
//! the package-file suffix decides, an architecture alias in priority
//! order picks among them, and a single unlabelled asset is accepted as a
//! fallback for the default architecture only.

use vstd::prelude::*;
use crate::text::{has_substring, has_suffix, lower, str_contains, str_ends_with, str_eq};

verus! {

/// One downloadable file attached to a release.
#[derive(Clone, Debug)]
pub struct GithubAsset {
    pub name: String,
    pub browser_download_url: String,
}

/// Ghost image of a `GithubAsset`.
pub struct AssetV {
    pub name: Seq<char>,
    pub url: Seq<char>,
}

impl View for GithubAsset {
    type V = AssetV;

    open spec fn view(&self) -> AssetV {
        AssetV { name: self.name@, url: self.browser_download_url@ }
    }
}

/// One release: its tag, channel, and files.
#[derive(Clone, Debug)]
pub struct GithubRelease {
    pub tag_name: String,
    pub assets: Vec<GithubAsset>,
    pub prerelease: bool,
}

/// Ghost image of a `GithubRelease`.
pub struct ReleaseV {
    pub tag: Seq<char>,
    pub assets: Seq<AssetV>,
    pub prerelease: bool,
}

impl View for GithubRelease {
    type V = ReleaseV;

    open spec fn view(&self) -> ReleaseV {
        ReleaseV {
            tag: self.tag_name@,
            assets: self.assets@.map_values(|a: GithubAsset| a@),
            prerelease: self.prerelease,
        }
    }
}

/// The resolved artifact: the chosen asset and the release tag it came from.
#[derive(Debug)]
pub struct RepoMetadata {
    pub asset: GithubAsset,
    pub version: String,
}

/// Why resolution failed.
#[derive(Debug, PartialEq, Eq, Structural, Clone, Copy)]
pub enum ResolveError {
    /// The release list was empty.
    NoReleases,
    /// Releases exist, but none offers a qualifying asset.
    NoMatch,
}

/// The releases of a list, as ghost images.
pub open spec fn views_of_releases(s: Seq<GithubRelease>) -> Seq<ReleaseV> {
    s.map_values(|r: GithubRelease| r@)
}

/// The asset carries the package-file suffix, compared case-insensitively.
pub open spec fn asset_qualifies(a: AssetV) -> bool {
    has_suffix(lower(a.name), lower(".appimage"@))
}

/// The asset qualifies and its name mentions the alias, case-insensitively.
pub open spec fn asset_matches(a: AssetV, alias: Seq<char>) -> bool {
    asset_qualifies(a) && has_substring(lower(a.name), lower(alias))
}

/// The aliases tried for an architecture, in priority order.
pub open spec fn arch_aliases(arch: Seq<char>) -> Seq<Seq<char>> {
    if arch == "x86_64"@ {
        seq!["x86_64"@, "amd64"@, "x64"@, "64bit"@]
    } else if arch == "aarch64"@ {
        seq!["aarch64"@, "arm64"@, "armv8"@, "armv8l"@]
    } else {
        seq![arch]
    }
}

/// How many assets qualify.
pub open spec fn count_qualifying(s: Seq<AssetV>) -> nat
    decreases s.len(),
{
    if s.len() == 0 {
        0
    } else {
        count_qualifying(s.take(s.len() - 1)) + (if asset_qualifies(s[s.len() - 1]) {
            1nat
        } else {
            0nat
        })
    }
}

/// Index of the first qualifying asset, or -1 when there is none.
pub open spec fn first_qualifying(s: Seq<AssetV>) -> int
    decreases s.len(),
{
    if s.len() == 0 {
        -1
    } else if asset_qualifies(s[0]) {
        0
    } else {
        let r = first_qualifying(s.skip(1));
        if r == -1 {
            -1
        } else {
            r + 1
        }
    }
}

/// Index of the first asset matching `alias`, or -1 when there is none.
pub open spec fn first_match(s: Seq<AssetV>, alias: Seq<char>) -> int
    decreases s.len(),
{
    if s.len() == 0 {
        -1
    } else if asset_matches(s[0], alias) {
        0
    } else {
        let r = first_match(s.skip(1), alias);
        if r == -1 {
            -1
        } else {
            r + 1
        }
    }
}

/// Index of the asset picked by the first alias that matches anything,
/// or -1 when no alias matches.
pub open spec fn first_alias_pick(s: Seq<AssetV>, aliases: Seq<Seq<char>>) -> int
    decreases aliases.len(),
{
    if aliases.len() == 0 {
        -1
    } else {
        let i = first_match(s, aliases[0]);
        if i != -1 {
            i
        } else {
            first_alias_pick(s, aliases.skip(1))
        }
    }
}

/// Index of the asset this release offers for the architecture, or -1:
/// prerelease releases count only when asked for; an alias match decides;
/// failing that, a lone qualifying asset serves the default architecture.
pub open spec fn release_pick(r: ReleaseV, include_prerelease: bool, arch: Seq<char>) -> int {
    if !include_prerelease && r.prerelease {
        -1
    } else if count_qualifying(r.assets) == 0 {
        -1
    } else {
        let i = first_alias_pick(r.assets, arch_aliases(arch));
        if i != -1 {
            i
        } else if arch == "x86_64"@ && count_qualifying(r.assets) == 1 {
            first_qualifying(r.assets)
        } else {
            -1
        }
    }
}

/// The asset and tag of the first release that offers a pick, scanning in
/// the given order; nothing when no release does.
pub open spec fn spec_select(rs: Seq<ReleaseV>, include_prerelease: bool, arch: Seq<char>) -> Option<
    (AssetV, Seq<char>),
>
    decreases rs.len(),
{
    if rs.len() == 0 {
        None
    } else {
        let i = release_pick(rs[0], include_prerelease, arch);
        if i != -1 && 0 <= i < rs[0].assets.len() {
            Some((rs[0].assets[i], rs[0].tag))
        } else {
            spec_select(rs.skip(1), include_prerelease, arch)
        }
    }
}

/// What `first_qualifying` returns: the first qualifying index, or -1.
pub proof fn lemma_first_qualifying(s: Seq<AssetV>)
    ensures
        first_qualifying(s) == -1 ==> forall|j: int| 0 <= j < s.len() ==> !asset_qualifies(
            #[trigger] s[j],
        ),
        first_qualifying(s) != -1 ==> {
            let r = first_qualifying(s);
            0 <= r < s.len() && asset_qualifies(s[r]) && forall|j: int|
                0 <= j < r ==> !asset_qualifies(#[trigger] s[j])
        },
    decreases s.len(),
{
    if s.len() == 0 {
    } else if asset_qualifies(s[0]) {
    } else {
        lemma_first_qualifying(s.skip(1));
        assert(forall|j: int| 1 <= j < s.len() ==> s[j] == s.skip(1)[j - 1]);
    }
}

/// What `first_match` returns: the first matching index, or -1.
pub proof fn lemma_first_match(s: Seq<AssetV>, alias: Seq<char>)
    ensures
        first_match(s, alias) == -1 ==> forall|j: int| 0 <= j < s.len() ==> !asset_matches(
            #[trigger] s[j],
            alias,
        ),
        first_match(s, alias) != -1 ==> {
            let r = first_match(s, alias);
            0 <= r < s.len() && asset_matches(s[r], alias) && forall|j: int|
                0 <= j < r ==> !asset_matches(#[trigger] s[j], alias)
        },
    decreases s.len(),
{
    if s.len() == 0 {
    } else if asset_matches(s[0], alias) {
    } else {
        lemma_first_match(s.skip(1), alias);
        assert(forall|j: int| 1 <= j < s.len() ==> s[j] == s.skip(1)[j - 1]);
    }
}

/// An alias pick, when there is one, lands on a qualifying asset.
proof fn lemma_alias_pick_qualifies(s: Seq<AssetV>, aliases: Seq<Seq<char>>)
    ensures
        first_alias_pick(s, aliases) != -1 ==> {
            let r = first_alias_pick(s, aliases);
            0 <= r < s.len() && asset_qualifies(s[r])
        },
    decreases aliases.len(),
{
    if aliases.len() > 0 {
        lemma_first_match(s, aliases[0]);
        lemma_alias_pick_qualifies(s, aliases.skip(1));
    }
}

/// Law: whatever the resolver picks is sound — the asset carries the
/// package-file suffix, and it belongs to a release the channel choice
/// admits, whose tag is the reported version.
pub proof fn lemma_select_sound(rs: Seq<ReleaseV>, include_prerelease: bool, arch: Seq<char>)
    ensures
        spec_select(rs, include_prerelease, arch) matches Some(p) ==> exists|k: int|
            0 <= k < rs.len() && (include_prerelease || !(#[trigger] rs[k]).prerelease) && rs[k].tag
                == p.1 && rs[k].assets.contains(p.0) && asset_qualifies(p.0),
    decreases rs.len(),
{
    if rs.len() > 0 {
        let i = release_pick(rs[0], include_prerelease, arch);
        if i != -1 && 0 <= i < rs[0].assets.len() {
            let p = (rs[0].assets[i], rs[0].tag);
            lemma_alias_pick_qualifies(rs[0].assets, arch_aliases(arch));
            lemma_first_qualifying(rs[0].assets);
            assert(asset_qualifies(rs[0].assets[i]));
            assert(rs[0].assets.contains(p.0));
            assert(0 <= 0 < rs.len() && (include_prerelease || !rs[0].prerelease) && rs[0].tag
                == p.1 && rs[0].assets.contains(p.0) && asset_qualifies(p.0));
        } else {
            lemma_select_sound(rs.skip(1), include_prerelease, arch);
            match spec_select(rs.skip(1), include_prerelease, arch) {
                Some(p) => {
                    let k = choose|k: int|
                        0 <= k < rs.skip(1).len() && (include_prerelease || !(#[trigger] rs.skip(
                            1,
                        )[k]).prerelease) && rs.skip(1)[k].tag == p.1 && rs.skip(1)[k].assets.contains(
                            p.0,
                        ) && asset_qualifies(p.0);
                    assert(rs[k + 1] == rs.skip(1)[k]);
                    assert(0 <= k + 1 < rs.len() && (include_prerelease || !rs[k + 1].prerelease)
                        && rs[k + 1].tag == p.1 && rs[k + 1].assets.contains(p.0)
                        && asset_qualifies(p.0));
                },
                None => {},
            }
        }
    }
}

/// A pick, when there is one, is a valid index into the release's assets.
proof fn lemma_release_pick_range(r: ReleaseV, include_prerelease: bool, arch: Seq<char>)
    ensures
        release_pick(r, include_prerelease, arch) != -1 ==> 0 <= release_pick(
            r,
            include_prerelease,
            arch,
        ) < r.assets.len(),
{
    lemma_alias_pick_qualifies(r.assets, arch_aliases(arch));
    lemma_first_qualifying(r.assets);
}

/// Law: the resolver fails only honestly — when it selects nothing, no
/// release in the list offered a pick for the architecture and channel.
pub proof fn lemma_select_complete(rs: Seq<ReleaseV>, include_prerelease: bool, arch: Seq<char>)
    ensures
        spec_select(rs, include_prerelease, arch) is None ==> forall|k: int|
            0 <= k < rs.len() ==> #[trigger] release_pick(rs[k], include_prerelease, arch) == -1,
    decreases rs.len(),
{
    if rs.len() > 0 {
        lemma_release_pick_range(rs[0], include_prerelease, arch);
        lemma_select_complete(rs.skip(1), include_prerelease, arch);
        if spec_select(rs, include_prerelease, arch) is None {
            assert(release_pick(rs[0], include_prerelease, arch) == -1);
            assert(forall|k: int| 1 <= k < rs.len() ==> rs.skip(1)[k - 1] == rs[k]);
        }
    }
}

/// The aliases tried for an architecture, in priority order.
fn arch_aliases_exec(arch: &str) -> (r: Vec<String>)
    ensures
        r@.map_values(|s: String| s@) == arch_aliases(arch@),
{
    let mut v: Vec<String> = Vec::new();
    if str_eq(arch, "x86_64", false) {
        v.push(String::from_str("x86_64"));
        v.push(String::from_str("amd64"));
        v.push(String::from_str("x64"));
        v.push(String::from_str("64bit"));
        proof {
            assert(v@.map_values(|s: String| s@) =~= arch_aliases(arch@));
        }
    } else if str_eq(arch, "aarch64", false) {
        v.push(String::from_str("aarch64"));
        v.push(String::from_str("arm64"));
        v.push(String::from_str("armv8"));
        v.push(String::from_str("armv8l"));
        proof {
            assert(v@.map_values(|s: String| s@) =~= arch_aliases(arch@));
        }
    } else {
        v.push(arch.to_owned());
        proof {
            assert(v@.map_values(|s: String| s@) =~= arch_aliases(arch@));
        }
    }
    v
}

/// The asset this release offers for the architecture, if any.
fn pick_for_release(rel: &GithubRelease, include_prerelease: bool, arch: &str) -> (r: Option<usize>)
    ensures
        match r {
            Some(i) => release_pick(rel@, include_prerelease, arch@) == i && i
                < rel@.assets.len(),
            None => release_pick(rel@, include_prerelease, arch@) == -1,
        },
{
    if !include_prerelease && rel.prerelease {
        return None;
    }
    let n = rel.assets.len();
    let mut count: usize = 0;
    let mut first: usize = 0;
    let mut have_first = false;
    let mut i: usize = 0;
    while i < n
        invariant
            0 <= i <= n,
            n == rel@.assets.len(),
            rel@.assets == rel.assets@.map_values(|a: GithubAsset| a@),
            count == count_qualifying(rel@.assets.take(i as int)),
            count <= i,
            have_first <==> count > 0,
            have_first ==> first < i && asset_qualifies(rel@.assets[first as int]) && forall|
                j: int,
            | 0 <= j < first ==> !asset_qualifies(#[trigger] rel@.assets[j]),
            !have_first ==> forall|j: int| 0 <= j < i ==> !asset_qualifies(#[trigger] rel@.assets[j]),
        decreases n - i,
    {
        proof {
            assert(rel@.assets.take(i + 1).take(i as int) =~= rel@.assets.take(i as int));
            assert(rel@.assets.take(i + 1)[i as int] == rel@.assets[i as int]);
        }
        if str_ends_with(rel.assets[i].name.as_str(), ".appimage", true) {
            count = count + 1;
            if !have_first {
                first = i;
                have_first = true;
            }
        }
        i = i + 1;
    }
    proof {
        assert(rel@.assets.take(n as int) =~= rel@.assets);
    }
    if count == 0 {
        return None;
    }
    let aliases = arch_aliases_exec(arch);
    let na = aliases.len();
    let ghost aliasesv = aliases@.map_values(|s: String| s@);
    proof {
        assert(aliasesv.skip(0) =~= aliasesv);
    }
    let mut a: usize = 0;
    while a < na
        invariant
            0 <= a <= na,
            na == aliasesv.len(),
            aliasesv == arch_aliases(arch@),
            aliasesv == aliases@.map_values(|s: String| s@),
            n == rel@.assets.len(),
            rel@.assets == rel.assets@.map_values(|x: GithubAsset| x@),
            !(!include_prerelease && rel@.prerelease),
            count_qualifying(rel@.assets) != 0,
            first_alias_pick(rel@.assets, aliasesv.skip(a as int)) == first_alias_pick(
                rel@.assets,
                aliasesv,
            ),
        decreases na - a,
    {
        let mut j: usize = 0;
        while j < n
            invariant
                0 <= j <= n,
                a < na,
                na == aliasesv.len(),
                aliasesv == arch_aliases(arch@),
                aliasesv == aliases@.map_values(|s: String| s@),
                n == rel@.assets.len(),
                rel@.assets == rel.assets@.map_values(|x: GithubAsset| x@),
                !(!include_prerelease && rel@.prerelease),
                count_qualifying(rel@.assets) != 0,
                first_alias_pick(rel@.assets, aliasesv.skip(a as int)) == first_alias_pick(
                    rel@.assets,
                    aliasesv,
                ),
                forall|k: int| 0 <= k < j ==> !asset_matches(#[trigger] rel@.assets[k], aliasesv[a as int]),
            decreases n - j,
        {
            if str_ends_with(rel.assets[j].name.as_str(), ".appimage", true) && str_contains(
                rel.assets[j].name.as_str(),
                aliases[a].as_str(),
                true,
            ) {
                proof {
                    lemma_first_match(rel@.assets, aliasesv[a as int]);
                    let r = first_match(rel@.assets, aliasesv[a as int]);
                    assert(asset_matches(rel@.assets[j as int], aliasesv[a as int]));
                    if r == -1 {
                        assert(false);
                    }
                    if r < j {
                        assert(asset_matches(rel@.assets[r], aliasesv[a as int]));
                        assert(false);
                    }
                    if r > j {
                        assert(!asset_matches(rel@.assets[j as int], aliasesv[a as int]));
                        assert(false);
                    }
                    assert(aliasesv.skip(a as int)[0] == aliasesv[a as int]);
                    assert(first_alias_pick(rel@.assets, aliasesv.skip(a as int)) == j);
                    assert(first_alias_pick(rel@.assets, arch_aliases(arch@)) == j);
                    assert(release_pick(rel@, include_prerelease, arch@) == j);
                }
                return Some(j);
            }
            j = j + 1;
        }
        proof {
            lemma_first_match(rel@.assets, aliasesv[a as int]);
            let r = first_match(rel@.assets, aliasesv[a as int]);
            if r != -1 {
                assert(asset_matches(rel@.assets[r], aliasesv[a as int]));
                assert(false);
            }
            assert(aliasesv.skip(a as int)[0] == aliasesv[a as int]);
            assert(aliasesv.skip(a as int).skip(1) =~= aliasesv.skip(a + 1));
        }
        a = a + 1;
    }
    proof {
        assert(aliasesv.skip(na as int) =~= Seq::<Seq<char>>::empty());
        assert(first_alias_pick(rel@.assets, aliasesv) == -1);
    }
    if str_eq(arch, "x86_64", false) && count == 1 {
        proof {
            lemma_first_qualifying(rel@.assets);
            let r = first_qualifying(rel@.assets);
            assert(asset_qualifies(rel@.assets[first as int]));
            if r == -1 {
                assert(false);
            }
            if r < first {
                assert(asset_qualifies(rel@.assets[r]));
                assert(false);
            }
            if r > first {
                assert(!asset_qualifies(rel@.assets[first as int]));
                assert(false);
            }
        }
        return Some(first);
    }
    None
}

/// Pick the artifact for the architecture from a repository's releases,
/// newest first. Fails with `NoReleases` on an empty list, and with
/// `NoMatch` when no release offers a qualifying asset.
pub fn select_asset(releases: &Vec<GithubRelease>, include_prerelease: bool, preferred_arch: &str) -> (r:
    Result<RepoMetadata, ResolveError>)
    ensures
        match r {
            Ok(meta) => releases@.len() > 0 && spec_select(
                views_of_releases(releases@),
                include_prerelease,
                preferred_arch@,
            ) == Some((meta.asset@, meta.version@)),
            Err(e) => match e {
                ResolveError::NoReleases => releases@.len() == 0,
                ResolveError::NoMatch => releases@.len() > 0 && spec_select(
                    views_of_releases(releases@),
                    include_prerelease,
                    preferred_arch@,
                ) is None,
            },
        },
{
    let n = releases.len();
    if n == 0 {
        return Err(ResolveError::NoReleases);
    }
    let ghost rsv = views_of_releases(releases@);
    proof {
        assert(rsv.skip(0) =~= rsv);
    }
    let mut k: usize = 0;
    while k < n
        invariant
            0 <= k <= n,
            n == rsv.len(),
            rsv == views_of_releases(releases@),
            rsv == releases@.map_values(|x: GithubRelease| x@),
            spec_select(rsv.skip(k as int), include_prerelease, preferred_arch@) == spec_select(
                rsv,
                include_prerelease,
                preferred_arch@,
            ),
        decreases n - k,
    {
        match pick_for_release(&releases[k], include_prerelease, preferred_arch) {
            Some(i) => {
                proof {
                    assert(rsv.skip(k as int)[0] == rsv[k as int]);
                }
                let meta = RepoMetadata {
                    asset: GithubAsset {
                        name: releases[k].assets[i].name.clone(),
                        browser_download_url: releases[k].assets[i].browser_download_url.clone(),
                    },
                    version: releases[k].tag_name.clone(),
                };
                proof {
                    assert(meta.asset@ == rsv[k as int].assets[i as int]);
                    assert(meta.version@ == rsv[k as int].tag);
                }
                return Ok(meta);
            },
            None => {
                proof {
                    assert(rsv.skip(k as int)[0] == rsv[k as int]);
                    assert(rsv.skip(k as int).skip(1) =~= rsv.skip(k + 1));
                }
            },
        }
        k = k + 1;
    }
    proof {
        assert(rsv.skip(n as int) =~= Seq::<ReleaseV>::empty());
    }
    Err(ResolveError::NoMatch)
}

} // verus!
