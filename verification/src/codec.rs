//! The lockfile's persisted form: a line-oriented text rendering with a
//! proved round trip for every lockfile.
//!
//! Each entry is a fixed run of lines — name, version, url, hash, path,
//! then the source: either the single line `direct`, or `github` followed
//! by owner, repo and a `true`/`false` prerelease line. Field lines are
//! escaped (a backslash doubles, a newline becomes `\n`), so any content
//! round-trips; the tag and flag lines are fixed words and stand raw.

use vstd::prelude::*;
use crate::lockfile::{EntryV, Lockfile, PackageEntry, Source, SourceV};
use crate::text::{find_char, lemma_find_char, str_eq};

verus! {

/// The line separator.
pub open spec fn nl() -> Seq<char> {
    seq!['\n']
}

/// `s` holds no line separator.
pub open spec fn line_free(s: Seq<char>) -> bool {
    forall|i: int| 0 <= i < s.len() ==> s[i] != '\n'
}

/// The escaped form of one character: a backslash doubles, a line
/// separator becomes `\n`, anything else stands as itself.
pub open spec fn esc_char(c: char) -> Seq<char> {
    if c == '\\' {
        seq!['\\', '\\']
    } else if c == '\n' {
        seq!['\\', 'n']
    } else {
        seq![c]
    }
}

/// The escaped form of a field: one line, whatever the field holds.
pub open spec fn esc(s: Seq<char>) -> Seq<char>
    decreases s.len(),
{
    if s.len() == 0 {
        Seq::<char>::empty()
    } else {
        esc_char(s[0]) + esc(s.skip(1))
    }
}

/// The field a line decodes to; nothing when an escape is malformed.
pub open spec fn unesc(s: Seq<char>) -> Option<Seq<char>>
    decreases s.len(),
{
    if s.len() == 0 {
        Some(Seq::<char>::empty())
    } else if s[0] == '\\' {
        if s.len() == 1 {
            None
        } else if s[1] == 'n' {
            match unesc(s.skip(2)) {
                None => None,
                Some(t) => Some(seq!['\n'] + t),
            }
        } else if s[1] == '\\' {
            match unesc(s.skip(2)) {
                None => None,
                Some(t) => Some(seq!['\\'] + t),
            }
        } else {
            None
        }
    } else {
        match unesc(s.skip(1)) {
            None => None,
            Some(t) => Some(seq![s[0]] + t),
        }
    }
}

proof fn lemma_esc_concat(a: Seq<char>, b: Seq<char>)
    ensures
        esc(a + b) == esc(a) + esc(b),
    decreases a.len(),
{
    if a.len() == 0 {
        assert(a + b =~= b);
        assert(esc(a) + esc(b) =~= esc(b));
    } else {
        assert((a + b).skip(1) =~= a.skip(1) + b);
        lemma_esc_concat(a.skip(1), b);
        assert((a + b)[0] == a[0]);
        assert(esc(a + b) =~= esc(a) + esc(b));
    }
}

/// An escaped field holds no line separator.
proof fn lemma_esc_line_free(s: Seq<char>)
    ensures
        line_free(esc(s)),
    decreases s.len(),
{
    if s.len() > 0 {
        lemma_esc_line_free(s.skip(1));
        let u = esc_char(s[0]);
        let rest = esc(s.skip(1));
        assert forall|i: int| 0 <= i < esc(s).len() implies esc(s)[i] != '\n' by {
            if i < u.len() {
                assert(esc(s)[i] == u[i]);
            } else {
                assert(esc(s)[i] == rest[i - u.len()]);
            }
        }
    }
}

/// Decoding inverts escaping.
proof fn lemma_unesc_esc(s: Seq<char>)
    ensures
        unesc(esc(s)) == Some(s),
    decreases s.len(),
{
    if s.len() > 0 {
        lemma_unesc_esc(s.skip(1));
        let e = esc(s);
        if s[0] == '\\' {
            assert(e[0] == '\\' && e[1] == '\\');
            assert(e.skip(2) =~= esc(s.skip(1)));
            assert(seq!['\\'] + s.skip(1) =~= s);
        } else if s[0] == '\n' {
            assert(e[0] == '\\' && e[1] == 'n');
            assert(e.skip(2) =~= esc(s.skip(1)));
            assert(seq!['\n'] + s.skip(1) =~= s);
        } else {
            assert(e[0] == s[0]);
            assert(e.skip(1) =~= esc(s.skip(1)));
            assert(seq![s[0]] + s.skip(1) =~= s);
        }
    }
}

/// The rendered lines of a source.
pub open spec fn render_source(src: SourceV) -> Seq<char> {
    match src {
        SourceV::Github { owner, repo, prerelease } => "github"@ + nl() + esc(owner) + nl() + esc(
            repo,
        ) + nl() + (if prerelease {
            "true"@
        } else {
            "false"@
        }) + nl(),
        SourceV::Direct => "direct"@ + nl(),
    }
}

/// The rendered lines of one entry.
pub open spec fn render_entry(e: EntryV) -> Seq<char> {
    esc(e.name) + nl() + esc(e.version) + nl() + esc(e.url) + nl() + esc(e.hash) + nl() + esc(
        e.path,
    ) + nl() + render_source(e.source)
}

/// The rendered text of a whole lockfile: its entries' lines in order.
pub open spec fn spec_render(s: Seq<EntryV>) -> Seq<char>
    decreases s.len(),
{
    if s.len() == 0 {
        Seq::<char>::empty()
    } else {
        render_entry(s[0]) + spec_render(s.skip(1))
    }
}

/// The first line of `s` and what follows it, or nothing when no line
/// separator remains.
pub open spec fn spec_read_line(s: Seq<char>) -> Option<(Seq<char>, Seq<char>)> {
    let i = find_char(s, '\n');
    if i == -1 {
        None
    } else {
        Some((s.take(i), s.skip(i + 1)))
    }
}

/// The first line of `s` decoded to a field, and what follows the line.
pub open spec fn spec_read_field(s: Seq<char>) -> Option<(Seq<char>, Seq<char>)> {
    match spec_read_line(s) {
        None => None,
        Some((raw, rest)) => match unesc(raw) {
            None => None,
            Some(f) => Some((f, rest)),
        },
    }
}

/// The source read from the front of `s`, and what follows it.
pub open spec fn spec_parse_source(s: Seq<char>) -> Option<(SourceV, Seq<char>)> {
    match spec_read_line(s) {
        None => None,
        Some((tag, r1)) => if tag == "direct"@ {
            Some((SourceV::Direct, r1))
        } else if tag == "github"@ {
            match spec_read_field(r1) {
                None => None,
                Some((owner, r2)) => match spec_read_field(r2) {
                    None => None,
                    Some((repo, r3)) => match spec_read_line(r3) {
                        None => None,
                        Some((pre, r4)) => if pre == "true"@ {
                            Some((SourceV::Github { owner, repo, prerelease: true }, r4))
                        } else if pre == "false"@ {
                            Some((SourceV::Github { owner, repo, prerelease: false }, r4))
                        } else {
                            None
                        },
                    },
                },
            }
        } else {
            None
        },
    }
}

/// The entry read from the front of `s`, and what follows it.
pub open spec fn spec_parse_entry(s: Seq<char>) -> Option<(EntryV, Seq<char>)> {
    match spec_read_field(s) {
        None => None,
        Some((name, r1)) => match spec_read_field(r1) {
            None => None,
            Some((version, r2)) => match spec_read_field(r2) {
                None => None,
                Some((url, r3)) => match spec_read_field(r3) {
                    None => None,
                    Some((hash, r4)) => match spec_read_field(r4) {
                        None => None,
                        Some((path, r5)) => match spec_parse_source(r5) {
                            None => None,
                            Some((source, rest)) => Some(
                                (EntryV { name, version, url, hash, path, source }, rest),
                            ),
                        },
                    },
                },
            },
        },
    }
}

/// The entries read from `s`; nothing unless `s` is consumed exactly.
pub open spec fn spec_parse(s: Seq<char>) -> Option<Seq<EntryV>>
    decreases s.len(),
{
    if s.len() == 0 {
        Some(Seq::<EntryV>::empty())
    } else {
        match spec_parse_entry(s) {
            None => None,
            Some((e, rest)) => if rest.len() < s.len() {
                match spec_parse(rest) {
                    None => None,
                    Some(tail) => Some(seq![e] + tail),
                }
            } else {
                None
            },
        }
    }
}

/// Reading a line off `a + '\n' + b` yields `a` and leaves `b`, for
/// newline-free `a`.
proof fn lemma_read_line_concat(a: Seq<char>, b: Seq<char>)
    requires
        line_free(a),
    ensures
        spec_read_line(a + nl() + b) == Some((a, b)),
{
    let s = a + nl() + b;
    lemma_find_char(s, '\n');
    let r = find_char(s, '\n');
    assert(s[a.len() as int] == '\n');
    if r == -1 {
        assert(false);
    }
    if r < a.len() {
        assert(s[r] == a[r]);
        assert(false);
    }
    if r > a.len() {
        assert(s[a.len() as int] != '\n');
        assert(false);
    }
    assert(s.take(r) =~= a);
    assert(s.skip(r + 1) =~= b);
}

/// Reading a field off `esc(a) + '\n' + b` yields `a` and leaves `b`,
/// whatever `a` holds.
proof fn lemma_read_field_concat(a: Seq<char>, b: Seq<char>)
    ensures
        spec_read_field(esc(a) + nl() + b) == Some((a, b)),
{
    lemma_esc_line_free(a);
    lemma_read_line_concat(esc(a), b);
    lemma_unesc_esc(a);
}

proof fn lemma_literals_line_free()
    ensures
        line_free("github"@),
        line_free("direct"@),
        line_free("true"@),
        line_free("false"@),
        "github"@ != "direct"@,
        "true"@ != "false"@,
        "github"@ != "true"@,
        "github"@ != "false"@,
{
    reveal_strlit("github");
    reveal_strlit("direct");
    reveal_strlit("true");
    reveal_strlit("false");
    assert("github"@[0] != "direct"@[0]);
    assert("github"@.len() != "true"@.len());
    assert("github"@.len() != "false"@.len());
    assert("true"@.len() != "false"@.len());
}

/// Parsing the rendered source off the front of a stream yields the source
/// and leaves the remainder.
proof fn lemma_parse_source_render(src: SourceV, rest: Seq<char>)
    ensures
        spec_parse_source(render_source(src) + rest) == Some((src, rest)),
{
    lemma_literals_line_free();
    match src {
        SourceV::Direct => {
            assert(render_source(src) + rest =~= "direct"@ + nl() + rest);
            lemma_read_line_concat("direct"@, rest);
        },
        SourceV::Github { owner, repo, prerelease } => {
            let pre = if prerelease {
                "true"@
            } else {
                "false"@
            };
            let r1 = esc(owner) + nl() + esc(repo) + nl() + pre + nl() + rest;
            assert(render_source(src) + rest =~= "github"@ + nl() + r1);
            lemma_read_line_concat("github"@, r1);
            let r2 = esc(repo) + nl() + pre + nl() + rest;
            assert(r1 =~= esc(owner) + nl() + r2);
            lemma_read_field_concat(owner, r2);
            let r3 = pre + nl() + rest;
            assert(r2 =~= esc(repo) + nl() + r3);
            lemma_read_field_concat(repo, r3);
            lemma_read_line_concat(pre, rest);
        },
    }
}

/// Parsing the rendered entry off the front of a stream yields the entry
/// and leaves the remainder.
proof fn lemma_parse_entry_render(e: EntryV, rest: Seq<char>)
    ensures
        spec_parse_entry(render_entry(e) + rest) == Some((e, rest)),
{
    let r5 = render_source(e.source) + rest;
    let r4 = esc(e.path) + nl() + r5;
    let r3 = esc(e.hash) + nl() + r4;
    let r2 = esc(e.url) + nl() + r3;
    let r1 = esc(e.version) + nl() + r2;
    assert(render_entry(e) + rest =~= esc(e.name) + nl() + r1);
    lemma_read_field_concat(e.name, r1);
    assert(r1 =~= esc(e.version) + nl() + r2);
    lemma_read_field_concat(e.version, r2);
    lemma_read_field_concat(e.url, r3);
    lemma_read_field_concat(e.hash, r4);
    lemma_read_field_concat(e.path, r5);
    lemma_parse_source_render(e.source, rest);
}

/// Law: rendering a lockfile and parsing the text back yields the same
/// entries, in the same order, whatever the fields hold.
pub proof fn lemma_render_parse_roundtrip(entries: Seq<EntryV>)
    ensures
        spec_parse(spec_render(entries)) == Some(entries),
    decreases entries.len(),
{
    if entries.len() == 0 {
        assert(entries =~= Seq::<EntryV>::empty());
    } else {
        let e = entries[0];
        let tail = entries.skip(1);
        let rest = spec_render(tail);
        lemma_parse_entry_render(e, rest);
        assert(spec_parse_entry(spec_render(entries)) == Some((e, rest)));
        assert(render_entry(e).len() > 0);
        lemma_render_parse_roundtrip(tail);
        assert(seq![e] + tail =~= entries);
    }
}

proof fn lemma_render_snoc(s: Seq<EntryV>, e: EntryV)
    ensures
        spec_render(s.push(e)) == spec_render(s) + render_entry(e),
    decreases s.len(),
{
    if s.len() == 0 {
        assert(s.push(e)[0] == e);
        assert(s.push(e).skip(1) =~= Seq::<EntryV>::empty());
        assert(spec_render(s.push(e).skip(1)) == Seq::<char>::empty());
        assert(spec_render(s.push(e)) =~= render_entry(e));
        assert(spec_render(s) + render_entry(e) =~= render_entry(e));
    } else {
        assert(s.push(e).skip(1) =~= s.skip(1).push(e));
        lemma_render_snoc(s.skip(1), e);
        assert(spec_render(s.push(e)) =~= spec_render(s) + render_entry(e));
    }
}

/// The escaped form of a field: one line, whatever the field holds.
fn escape_field(s: &str) -> (r: String)
    ensures
        r@ == esc(s@),
{
    let len = s.unicode_len();
    let mut out = String::new();
    let mut i: usize = 0;
    proof {
        assert(out@ =~= esc(s@.take(0)));
    }
    while i < len
        invariant
            0 <= i <= len,
            len == s@.len(),
            out@ == esc(s@.take(i as int)),
        decreases len - i,
    {
        proof {
            assert(s@.take(i + 1) =~= s@.take(i as int) + seq![s@[i as int]]);
            lemma_esc_concat(s@.take(i as int), seq![s@[i as int]]);
            assert(seq![s@[i as int]].skip(1) =~= Seq::<char>::empty());
            assert(seq![s@[i as int]][0] == s@[i as int]);
            assert(esc(Seq::<char>::empty()) == Seq::<char>::empty());
            assert(esc(seq![s@[i as int]]) == esc_char(s@[i as int]) + esc(
                seq![s@[i as int]].skip(1),
            ));
            assert(esc(seq![s@[i as int]]) =~= esc_char(s@[i as int]));
        }
        let c = s.get_char(i);
        if c == '\\' {
            out.append("\\\\");
            proof {
                reveal_strlit("\\\\");
                assert("\\\\"@ =~= esc_char('\\'));
                assert(out@ =~= esc(s@.take(i + 1)));
            }
        } else if c == '\n' {
            out.append("\\n");
            proof {
                reveal_strlit("\\n");
                assert("\\n"@ =~= esc_char('\n'));
                assert(out@ =~= esc(s@.take(i + 1)));
            }
        } else {
            let piece = s.substring_char(i, i + 1);
            out.append(piece);
            proof {
                assert(piece@ =~= esc_char(s@[i as int]));
                assert(out@ =~= esc(s@.take(i + 1)));
            }
        }
        i = i + 1;
    }
    proof {
        assert(s@.take(len as int) =~= s@);
    }
    out
}

/// Decode one line back to its field; nothing when an escape is malformed.
fn unescape_field(s: &str) -> (r: Option<String>)
    ensures
        match r {
            Some(t) => unesc(s@) == Some(t@),
            None => unesc(s@) is None,
        },
{
    let len = s.unicode_len();
    let mut out = String::new();
    let mut i: usize = 0;
    proof {
        assert(s@.skip(0) =~= s@);
        match unesc(s@) {
            Some(t) => {
                assert(out@ + t =~= t);
            },
            None => {},
        }
    }
    while i < len
        invariant
            0 <= i <= len,
            len == s@.len(),
            match unesc(s@.skip(i as int)) {
                Some(t) => unesc(s@) == Some(out@ + t),
                None => unesc(s@) is None,
            },
        decreases len - i,
    {
        let ghost prev = out@;
        let c = s.get_char(i);
        proof {
            assert(s@.skip(i as int)[0] == c);
        }
        if c == '\\' {
            if i + 1 == len {
                proof {
                    assert(s@.skip(i as int).len() == 1);
                }
                return None;
            }
            let d = s.get_char(i + 1);
            proof {
                assert(s@.skip(i as int)[1] == s@[i + 1]);
                assert(s@.skip(i as int).skip(2) =~= s@.skip(i + 2));
            }
            if d == 'n' {
                out.append("\n");
                proof {
                    reveal_strlit("\n");
                    match unesc(s@.skip(i + 2)) {
                        Some(t) => {
                            assert(unesc(s@.skip(i as int)) == Some(seq!['\n'] + t));
                            assert(out@ =~= prev + seq!['\n']);
                            assert(prev + (seq!['\n'] + t) =~= out@ + t);
                        },
                        None => {
                            assert(unesc(s@.skip(i as int)) is None);
                        },
                    }
                }
                i = i + 2;
            } else if d == '\\' {
                out.append("\\");
                proof {
                    reveal_strlit("\\");
                    match unesc(s@.skip(i + 2)) {
                        Some(t) => {
                            assert(unesc(s@.skip(i as int)) == Some(seq!['\\'] + t));
                            assert(out@ =~= prev + seq!['\\']);
                            assert(prev + (seq!['\\'] + t) =~= out@ + t);
                        },
                        None => {
                            assert(unesc(s@.skip(i as int)) is None);
                        },
                    }
                }
                i = i + 2;
            } else {
                proof {
                    assert(unesc(s@.skip(i as int)) is None);
                }
                return None;
            }
        } else {
            let piece = s.substring_char(i, i + 1);
            out.append(piece);
            proof {
                assert(s@.skip(i as int).skip(1) =~= s@.skip(i + 1));
                match unesc(s@.skip(i + 1)) {
                    Some(t) => {
                        assert(unesc(s@.skip(i as int)) == Some(seq![c] + t));
                        assert(piece@ =~= seq![c]);
                        assert(out@ =~= prev + seq![c]);
                        assert(prev + (seq![c] + t) =~= out@ + t);
                    },
                    None => {
                        assert(unesc(s@.skip(i as int)) is None);
                    },
                }
            }
            i = i + 1;
        }
    }
    proof {
        assert(s@.skip(len as int) =~= Seq::<char>::empty());
        assert(unesc(s@.skip(len as int)) == Some(Seq::<char>::empty()));
        assert(out@ + Seq::<char>::empty() =~= out@);
    }
    Some(out)
}

fn append_raw_line(out: &mut String, line: &str)
    ensures
        final(out)@ == old(out)@ + line@ + nl(),
{
    out.append(line);
    out.append("\n");
    proof {
        reveal_strlit("\n");
        assert("\n"@ =~= nl());
        assert(out@ =~= old(out)@ + line@ + nl());
    }
}

fn append_field_line(out: &mut String, field: &str)
    ensures
        final(out)@ == old(out)@ + esc(field@) + nl(),
{
    let escaped = escape_field(field);
    out.append(escaped.as_str());
    out.append("\n");
    proof {
        reveal_strlit("\n");
        assert("\n"@ =~= nl());
        assert(out@ =~= old(out)@ + esc(field@) + nl());
    }
}

fn render_entry_exec(out: &mut String, e: &PackageEntry)
    ensures
        final(out)@ == old(out)@ + render_entry(e@),
{
    append_field_line(out, e.name.as_str());
    append_field_line(out, e.version.as_str());
    append_field_line(out, e.url.as_str());
    append_field_line(out, e.hash.as_str());
    append_field_line(out, e.path.as_str());
    match &e.source {
        Source::Github { owner, repo, prerelease } => {
            append_raw_line(out, "github");
            append_field_line(out, owner.as_str());
            append_field_line(out, repo.as_str());
            if *prerelease {
                append_raw_line(out, "true");
            } else {
                append_raw_line(out, "false");
            }
        },
        Source::Direct => {
            append_raw_line(out, "direct");
        },
    }
    proof {
        assert(out@ =~= old(out)@ + render_entry(e@));
    }
}

/// The lockfile's persisted text.
pub fn render_lockfile(lf: &Lockfile) -> (r: String)
    ensures
        r@ == spec_render(lf@),
{
    let mut out = String::new();
    let n = lf.packages.len();
    let mut i: usize = 0;
    while i < n
        invariant
            0 <= i <= n,
            n == lf@.len(),
            lf@ == lf.packages@.map_values(|p: PackageEntry| p@),
            out@ == spec_render(lf@.take(i as int)),
        decreases n - i,
    {
        render_entry_exec(&mut out, &lf.packages[i]);
        proof {
            lemma_render_snoc(lf@.take(i as int), lf@[i as int]);
            assert(lf@.take(i as int).push(lf@[i as int]) =~= lf@.take(i + 1));
        }
        i = i + 1;
    }
    proof {
        assert(lf@.take(n as int) =~= lf@);
    }
    out
}

/// Read the line that starts at `pos`: its content and the position after
/// its separator. Nothing when no separator remains.
fn read_line(s: &str, pos: usize) -> (r: Option<(String, usize)>)
    requires
        pos <= s@.len(),
    ensures
        match r {
            Some(v) => pos < v.1 <= s@.len() && spec_read_line(s@.skip(pos as int)) == Some(
                (v.0@, s@.skip(v.1 as int)),
            ),
            None => spec_read_line(s@.skip(pos as int)) is None,
        },
{
    let len = s.unicode_len();
    let mut k: usize = pos;
    while k < len
        invariant
            pos <= k <= len,
            len == s@.len(),
            forall|j: int| pos <= j < k ==> s@[j] != '\n',
        decreases len - k,
    {
        if s.get_char(k) == '\n' {
            let line = s.substring_char(pos, k).to_owned();
            proof {
                let t = s@.skip(pos as int);
                lemma_find_char(t, '\n');
                let r = find_char(t, '\n');
                assert(t[k - pos] == '\n');
                if r == -1 {
                    assert(false);
                }
                if r < k - pos {
                    assert(s@[pos + r] != '\n');
                    assert(t[r] == s@[pos + r]);
                    assert(false);
                }
                if r > k - pos {
                    assert(t[k - pos] != '\n');
                    assert(false);
                }
                assert(t.take(r) =~= line@);
                assert(t.skip(r + 1) =~= s@.skip(k + 1));
            }
            return Some((line, k + 1));
        }
        k = k + 1;
    }
    proof {
        let t = s@.skip(pos as int);
        lemma_find_char(t, '\n');
        let r = find_char(t, '\n');
        if r != -1 {
            assert(t[r] == '\n');
            assert(t[r] == s@[pos + r]);
            assert(false);
        }
    }
    None
}

/// Read the field line that starts at `pos`: the decoded field and the
/// position after the line.
fn read_field(s: &str, pos: usize) -> (r: Option<(String, usize)>)
    requires
        pos <= s@.len(),
    ensures
        match r {
            Some(v) => pos < v.1 <= s@.len() && spec_read_field(s@.skip(pos as int)) == Some(
                (v.0@, s@.skip(v.1 as int)),
            ),
            None => spec_read_field(s@.skip(pos as int)) is None,
        },
{
    match read_line(s, pos) {
        None => None,
        Some((raw, p)) => match unescape_field(raw.as_str()) {
            None => None,
            Some(f) => Some((f, p)),
        },
    }
}

/// Read a source from the lines that start at `pos`.
fn parse_source_at(s: &str, pos: usize) -> (r: Option<(Source, usize)>)
    requires
        pos <= s@.len(),
    ensures
        match r {
            Some(v) => pos < v.1 <= s@.len() && spec_parse_source(s@.skip(pos as int)) == Some(
                (v.0@, s@.skip(v.1 as int)),
            ),
            None => spec_parse_source(s@.skip(pos as int)) is None,
        },
{
    let (tag, p1) = match read_line(s, pos) {
        Some(v) => v,
        None => {
            return None;
        },
    };
    if str_eq(tag.as_str(), "direct", false) {
        return Some((Source::Direct, p1));
    }
    if !str_eq(tag.as_str(), "github", false) {
        return None;
    }
    let (owner, p2) = match read_field(s, p1) {
        Some(v) => v,
        None => {
            return None;
        },
    };
    let (repo, p3) = match read_field(s, p2) {
        Some(v) => v,
        None => {
            return None;
        },
    };
    let (pre, p4) = match read_line(s, p3) {
        Some(v) => v,
        None => {
            return None;
        },
    };
    let prerelease = if str_eq(pre.as_str(), "true", false) {
        true
    } else if str_eq(pre.as_str(), "false", false) {
        false
    } else {
        return None;
    };
    Some((Source::Github { owner, repo, prerelease }, p4))
}

/// Read one entry from the lines that start at `pos`.
fn parse_entry_at(s: &str, pos: usize) -> (r: Option<(PackageEntry, usize)>)
    requires
        pos <= s@.len(),
    ensures
        match r {
            Some(v) => pos < v.1 <= s@.len() && spec_parse_entry(s@.skip(pos as int)) == Some(
                (v.0@, s@.skip(v.1 as int)),
            ),
            None => spec_parse_entry(s@.skip(pos as int)) is None,
        },
{
    let (name, p1) = match read_field(s, pos) {
        Some(v) => v,
        None => {
            return None;
        },
    };
    let (version, p2) = match read_field(s, p1) {
        Some(v) => v,
        None => {
            return None;
        },
    };
    let (url, p3) = match read_field(s, p2) {
        Some(v) => v,
        None => {
            return None;
        },
    };
    let (hash, p4) = match read_field(s, p3) {
        Some(v) => v,
        None => {
            return None;
        },
    };
    let (path, p5) = match read_field(s, p4) {
        Some(v) => v,
        None => {
            return None;
        },
    };
    let (source, p6) = match parse_source_at(s, p5) {
        Some(v) => v,
        None => {
            return None;
        },
    };
    Some((PackageEntry { name, version, url, hash, path, source }, p6))
}

/// Entry names are pairwise distinct.
pub open spec fn unique_names(s: Seq<EntryV>) -> bool {
    forall|i: int, j: int| 0 <= i < j < s.len() ==> s[i].name != s[j].name
}

/// The lockfile read back from its persisted text. Nothing when the text
/// is not a rendering, or repeats a name.
pub fn parse_lockfile(s: &str) -> (r: Option<Lockfile>)
    ensures
        match r {
            Some(lf) => spec_parse(s@) == Some(lf@) && lf.wf(),
            None => match spec_parse(s@) {
                Some(es) => !unique_names(es),
                None => true,
            },
        },
{
    let len = s.unicode_len();
    let mut pos: usize = 0;
    let mut lf = Lockfile::new();
    proof {
        assert(s@.skip(0) =~= s@);
        match spec_parse(s@) {
            Some(tail) => {
                assert(lf@ + tail =~= tail);
            },
            None => {},
        }
    }
    while pos < len
        invariant
            0 <= pos <= len,
            len == s@.len(),
            lf.wf(),
            match spec_parse(s@.skip(pos as int)) {
                Some(tail) => spec_parse(s@) == Some(lf@ + tail),
                None => spec_parse(s@) is None,
            },
        decreases len - pos,
    {
        let (entry, p2) = match parse_entry_at(s, pos) {
            Some(v) => v,
            None => {
                proof {
                    assert(spec_parse(s@.skip(pos as int)) is None);
                }
                return None;
            },
        };
        proof {
            match spec_parse(s@.skip(p2 as int)) {
                Some(tail2) => {
                    assert(spec_parse(s@.skip(pos as int)) == Some(seq![entry@] + tail2));
                },
                None => {
                    assert(spec_parse(s@.skip(pos as int)) is None);
                },
            }
        }
        match lf.find_index(entry.name.as_str()) {
            Some(_) => {
                proof {
                    crate::lockfile::lemma_index_of_name(lf@, entry@.name);
                    match spec_parse(s@.skip(p2 as int)) {
                        Some(tail2) => {
                            let tail = seq![entry@] + tail2;
                            let i = crate::lockfile::index_of_name(lf@, entry@.name);
                            let es = lf@ + tail;
                            assert(es[i].name == es[lf@.len() as int].name);
                            assert(!unique_names(es));
                        },
                        None => {},
                    }
                }
                return None;
            },
            None => (),
        }
        proof {
            crate::lockfile::lemma_index_of_name(lf@, entry@.name);
        }
        let ghost old_lf = lf@;
        lf.insert(entry);
        proof {
            assert(lf@ =~= old_lf.push(entry@));
            match spec_parse(s@.skip(p2 as int)) {
                Some(tail2) => {
                    assert(old_lf + (seq![entry@] + tail2) =~= lf@ + tail2);
                },
                None => {},
            }
        }
        pos = p2;
    }
    proof {
        assert(s@.skip(len as int) =~= Seq::<char>::empty());
        assert(spec_parse(s@.skip(pos as int)) == Some(Seq::<EntryV>::empty()));
        assert(lf@ + Seq::<EntryV>::empty() =~= lf@);
    }
    Some(lf)
}

} // verus!
