//! Command surface data and the parsing of a package source argument.
//!
//! A source is either `owner/repo` shorthand for a release repository or a
//! full URL; repository URLs are normalized to owner/repo form.

use vstd::prelude::*;
use crate::text::{
    count_char, find_char, count_char_exec, find_char_exec, has_prefix, has_substring,
    str_starts_with, str_contains, strip_prefix_all, strip_suffix_all, stripped_prefixes,
    stripped_suffixes, trim_spaces, trimmed,
};

verus! {

/// A source argument: a release repository or a direct URL.
#[derive(Clone, Debug)]
pub enum Source {
    Github { owner: String, repo: String },
    Url(String),
}

/// Ghost image of a source argument.
pub enum SourceArgV {
    Github { owner: Seq<char>, repo: Seq<char> },
    Url(Seq<char>),
}

impl View for Source {
    type V = SourceArgV;

    open spec fn view(&self) -> SourceArgV {
        match self {
            Source::Github { owner, repo } => SourceArgV::Github { owner: owner@, repo: repo@ },
            Source::Url(u) => SourceArgV::Url(u@),
        }
    }
}

/// The parsed command line.
pub struct Cli {
    pub command: Commands,
}

/// The subcommands.
pub enum Commands {
    /// Track and install a package.
    Add(AddArgs),
    /// Show every tracked package and whether it is on disk.
    List,
    /// Fetch every tracked artifact that is absent on disk.
    Install,
    /// Launch an installed artifact by name.
    Run(RunArgs),
    /// Change the name an entry is stored under.
    Rename(RenameArgs),
    /// Bring repository-sourced packages to their latest release.
    Update(UpdateArgs),
    /// Drop a package and its artifact.
    Remove(RemoveArgs),
}

/// Arguments of `run`.
pub struct RunArgs {
    pub name: String,
    pub args: Vec<String>,
    pub yes: bool,
}

/// Arguments of `add`.
pub struct AddArgs {
    pub source: Source,
    pub name: Option<String>,
    pub prerelease: bool,
    pub yes: bool,
}

/// Arguments of `rename`.
pub struct RenameArgs {
    pub old_name: String,
    pub new_name: String,
}

/// Arguments of `update`.
pub struct UpdateArgs {
    pub yes: bool,
}

/// Arguments of `remove`.
pub struct RemoveArgs {
    pub name: String,
    pub yes: bool,
}

/// A repository URL with its scheme, host and trailing slashes removed.
pub open spec fn github_cleaned(s: Seq<char>) -> Seq<char> {
    stripped_prefixes(
        stripped_prefixes(stripped_suffixes(s, "/"@), "https://github.com/"@),
        "http://github.com/"@,
    )
}

/// The source a given argument denotes, or nothing when it is malformed:
/// a URL mentioning the repository host that cleans to `owner/repo` form
/// becomes a repository source; any other URL stands as itself; shorthand
/// input must be `owner/repo` with both parts non-blank.
pub open spec fn spec_source_from(s: Seq<char>) -> Option<SourceArgV> {
    if has_prefix(s, "http://"@) || has_prefix(s, "https://"@) {
        if has_substring(s, "github.com"@) && count_char(github_cleaned(s), '/') == 1 {
            let c = github_cleaned(s);
            let i = find_char(c, '/');
            Some(SourceArgV::Github { owner: c.take(i), repo: c.skip(i + 1) })
        } else {
            Some(SourceArgV::Url(s))
        }
    } else {
        if count_char(s, '/') == 1 && trimmed(s.take(find_char(s, '/'))).len() > 0 && trimmed(
            s.skip(find_char(s, '/') + 1),
        ).len() > 0 {
            Some(
                SourceArgV::Github {
                    owner: trimmed(s.take(find_char(s, '/'))),
                    repo: trimmed(s.skip(find_char(s, '/') + 1)),
                },
            )
        } else {
            None
        }
    }
}

/// A string with exactly one occurrence of `c` has one to find.
proof fn lemma_count_one_found(s: Seq<char>, c: char)
    requires
        count_char(s, c) > 0,
    ensures
        find_char(s, c) != -1,
    decreases s.len(),
{
    crate::text::lemma_find_char(s, c);
    if find_char(s, c) == -1 {
        lemma_count_no_occurrence(s, c);
    }
}

proof fn lemma_count_no_occurrence(s: Seq<char>, c: char)
    requires
        forall|j: int| 0 <= j < s.len() ==> s[j] != c,
    ensures
        count_char(s, c) == 0,
    decreases s.len(),
{
    if s.len() > 0 {
        assert(forall|j: int| 0 <= j < s.len() - 1 ==> s.take(s.len() - 1)[j] == s[j]);
        lemma_count_no_occurrence(s.take(s.len() - 1), c);
    }
}

impl Source {
    /// Read a source argument. Errs exactly on malformed shorthand, with
    /// a fixed message.
    pub fn parse(input: &str) -> (r: Result<Source, String>)
        ensures
            match r {
                Ok(src) => spec_source_from(input@) == Some(src@),
                Err(m) => spec_source_from(input@) is None && m@
                    == "Invalid source. Use 'owner/repo' for GitHub or a full URL."@,
            },
    {
        if str_starts_with(input, "http://", false) || str_starts_with(input, "https://", false) {
            if str_contains(input, "github.com", false) {
                let no_slash = strip_suffix_all(input, "/");
                let no_https = strip_prefix_all(no_slash.as_str(), "https://github.com/");
                let clean = strip_prefix_all(no_https.as_str(), "http://github.com/");
                if count_char_exec(clean.as_str(), '/') == 1 {
                    proof {
                        lemma_count_one_found(clean@, '/');
                        crate::text::lemma_find_char(clean@, '/');
                    }
                    let i = match find_char_exec(clean.as_str(), '/') {
                        Some(i) => i,
                        None => vstd::pervasive::unreached(),
                    };
                    let clen = clean.as_str().unicode_len();
                    let owner = clean.as_str().substring_char(0, i).to_owned();
                    let repo = clean.as_str().substring_char(i + 1, clen).to_owned();
                    proof {
                        assert(owner@ =~= clean@.take(i as int));
                        assert(repo@ =~= clean@.skip(i + 1));
                    }
                    return Ok(Source::Github { owner, repo });
                }
            }
            return Ok(Source::Url(input.to_owned()));
        }
        if count_char_exec(input, '/') == 1 {
            proof {
                lemma_count_one_found(input@, '/');
                crate::text::lemma_find_char(input@, '/');
            }
            let i = match find_char_exec(input, '/') {
                Some(i) => i,
                None => vstd::pervasive::unreached(),
            };
            let len = input.unicode_len();
            let owner_part = input.substring_char(0, i);
            let repo_part = input.substring_char(i + 1, len);
            proof {
                assert(owner_part@ =~= input@.take(i as int));
                assert(repo_part@ =~= input@.skip(i + 1));
            }
            let owner = trim_spaces(owner_part);
            let repo = trim_spaces(repo_part);
            if owner.as_str().unicode_len() > 0 && repo.as_str().unicode_len() > 0 {
                return Ok(Source::Github { owner, repo });
            }
        }
        Err(String::from_str("Invalid source. Use 'owner/repo' for GitHub or a full URL."))
    }
}

} // verus!
