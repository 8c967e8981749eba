//! Character-level string utilities: ASCII case folding, substring and
//! affix tests (exact or case-folded), trimming, and path-segment helpers.
//!
//! All contracts are stated over `Seq<char>` views; case-insensitive
//! operations fold ASCII letters only.

use vstd::prelude::*;

verus! {

/// The lowercase form of an ASCII letter; any other character is unchanged.
pub open spec fn lower_char(c: char) -> char {
    if 'A' <= c && c <= 'Z' {
        (((c as u8) + 32) as char)
    } else {
        c
    }
}

/// A character, case-folded when `fold` is set.
pub open spec fn norm_char(c: char, fold: bool) -> char {
    if fold {
        lower_char(c)
    } else {
        c
    }
}

/// Case-folded form of a string, folding ASCII letters only.
pub open spec fn lower(s: Seq<char>) -> Seq<char> {
    s.map_values(|c: char| lower_char(c))
}

/// A string, case-folded when `fold` is set.
pub open spec fn norm(s: Seq<char>, fold: bool) -> Seq<char> {
    if fold {
        lower(s)
    } else {
        s
    }
}

/// `n` occurs in `h` starting at position `i`.
pub open spec fn is_substring_at(h: Seq<char>, n: Seq<char>, i: int) -> bool {
    forall|k: int| 0 <= k < n.len() ==> h[i + k] == n[k]
}

/// `n` occurs somewhere in `h`.
pub open spec fn has_substring(h: Seq<char>, n: Seq<char>) -> bool {
    exists|i: int| 0 <= i <= h.len() - n.len() && #[trigger] is_substring_at(h, n, i)
}

/// `p` is a prefix of `s`.
pub open spec fn has_prefix(s: Seq<char>, p: Seq<char>) -> bool {
    p.len() <= s.len() && s.take(p.len() as int) == p
}

/// `p` is a suffix of `s`.
pub open spec fn has_suffix(s: Seq<char>, p: Seq<char>) -> bool {
    p.len() <= s.len() && s.skip(s.len() - p.len()) == p
}

/// Lowercase a single character, ASCII letters only.
fn lower_char_exec(c: char) -> (r: char)
    ensures
        r == lower_char(c),
{
    if 'A' <= c && c <= 'Z' {
        (((c as u8) + 32) as char)
    } else {
        c
    }
}

fn norm_char_exec(c: char, fold: bool) -> (r: char)
    ensures
        r == norm_char(c, fold),
{
    if fold {
        lower_char_exec(c)
    } else {
        c
    }
}

/// Equality of two strings, case-folded when `fold` is set.
pub fn str_eq(a: &str, b: &str, fold: bool) -> (r: bool)
    ensures
        r == (norm(a@, fold) == norm(b@, fold)),
{
    let alen = a.unicode_len();
    let blen = b.unicode_len();
    if alen != blen {
        assert(norm(a@, fold).len() != norm(b@, fold).len());
        return false;
    }
    let mut i: usize = 0;
    while i < alen
        invariant
            i <= alen,
            alen == a@.len(),
            alen == b@.len(),
            forall|j: int| 0 <= j < i ==> norm_char(a@[j], fold) == norm_char(b@[j], fold),
        decreases alen - i,
    {
        let ca = norm_char_exec(a.get_char(i), fold);
        let cb = norm_char_exec(b.get_char(i), fold);
        if ca != cb {
            assert(norm(a@, fold)[i as int] != norm(b@, fold)[i as int]);
            return false;
        }
        i = i + 1;
    }
    proof {
        assert(norm(a@, fold) =~= norm(b@, fold));
    }
    true
}

/// `needle` occurs at position `i` of `hay`, case-folded when `fold` is set.
fn match_at(hay: &str, needle: &str, i: usize, fold: bool) -> (r: bool)
    requires
        i + needle@.len() <= hay@.len() <= usize::MAX,
    ensures
        r == is_substring_at(norm(hay@, fold), norm(needle@, fold), i as int),
{
    let nlen = needle.unicode_len();
    let mut k: usize = 0;
    while k < nlen
        invariant
            k <= nlen,
            nlen == needle@.len(),
            i + nlen <= hay@.len() <= usize::MAX,
            forall|j: int| 0 <= j < k ==> norm(hay@, fold)[i + j] == norm(needle@, fold)[j],
        decreases nlen - k,
    {
        let ch = norm_char_exec(hay.get_char(i + k), fold);
        let cn = norm_char_exec(needle.get_char(k), fold);
        if ch != cn {
            assert(norm(hay@, fold)[i + k] != norm(needle@, fold)[k as int]);
            return false;
        }
        k = k + 1;
    }
    true
}

/// `needle` occurs somewhere in `hay`, case-folded when `fold` is set.
pub fn str_contains(hay: &str, needle: &str, fold: bool) -> (r: bool)
    ensures
        r == has_substring(norm(hay@, fold), norm(needle@, fold)),
{
    let hlen = hay.unicode_len();
    let nlen = needle.unicode_len();
    if nlen > hlen {
        assert(!has_substring(norm(hay@, fold), norm(needle@, fold)));
        return false;
    }
    let mut i: usize = 0;
    loop
        invariant
            i <= hlen - nlen,
            nlen <= hlen,
            hlen == hay@.len(),
            nlen == needle@.len(),
            forall|j: int|
                0 <= j < i ==> !(#[trigger] is_substring_at(norm(hay@, fold), norm(needle@, fold), j)),
        decreases hlen - nlen - i,
    {
        if match_at(hay, needle, i, fold) {
            assert(has_substring(norm(hay@, fold), norm(needle@, fold)));
            return true;
        }
        if i == hlen - nlen {
            assert(forall|j: int|
                0 <= j <= hlen - nlen ==> !(#[trigger] is_substring_at(
                    norm(hay@, fold),
                    norm(needle@, fold),
                    j,
                )));
            return false;
        }
        i = i + 1;
    }
}

/// `p` is a prefix of `s`, case-folded when `fold` is set.
pub fn str_starts_with(s: &str, p: &str, fold: bool) -> (r: bool)
    ensures
        r == has_prefix(norm(s@, fold), norm(p@, fold)),
{
    let slen = s.unicode_len();
    let plen = p.unicode_len();
    if plen > slen {
        return false;
    }
    let r = match_at(s, p, 0, fold);
    proof {
        if r {
            assert(norm(s@, fold).take(plen as int) =~= norm(p@, fold));
        } else {
            if has_prefix(norm(s@, fold), norm(p@, fold)) {
                assert(forall|k: int|
                    0 <= k < plen ==> norm(s@, fold).take(plen as int)[k] == norm(s@, fold)[k]);
                assert(is_substring_at(norm(s@, fold), norm(p@, fold), 0));
            }
        }
    }
    r
}

/// `p` is a suffix of `s`, case-folded when `fold` is set.
pub fn str_ends_with(s: &str, p: &str, fold: bool) -> (r: bool)
    ensures
        r == has_suffix(norm(s@, fold), norm(p@, fold)),
{
    let slen = s.unicode_len();
    let plen = p.unicode_len();
    if plen > slen {
        return false;
    }
    let r = match_at(s, p, slen - plen, fold);
    proof {
        let off = slen - plen;
        if r {
            assert(norm(s@, fold).skip(off as int) =~= norm(p@, fold));
        } else {
            if has_suffix(norm(s@, fold), norm(p@, fold)) {
                assert(forall|k: int|
                    0 <= k < plen ==> norm(s@, fold).skip(off as int)[k] == norm(s@, fold)[off + k]);
                assert(is_substring_at(norm(s@, fold), norm(p@, fold), off as int));
            }
        }
    }
    r
}

/// ASCII whitespace.
pub open spec fn is_space(c: char) -> bool {
    c == ' ' || c == '\t' || c == '\n' || c == '\r'
}

/// `s` without leading whitespace.
pub open spec fn ltrim(s: Seq<char>) -> Seq<char>
    decreases s.len(),
{
    if s.len() > 0 && is_space(s[0]) {
        ltrim(s.skip(1))
    } else {
        s
    }
}

/// `s` without trailing whitespace.
pub open spec fn rtrim(s: Seq<char>) -> Seq<char>
    decreases s.len(),
{
    if s.len() > 0 && is_space(s[s.len() - 1]) {
        rtrim(s.take(s.len() - 1))
    } else {
        s
    }
}

/// `s` without leading or trailing whitespace.
pub open spec fn trimmed(s: Seq<char>) -> Seq<char> {
    rtrim(ltrim(s))
}

proof fn lemma_ltrim_skip(s: Seq<char>, a: int)
    requires
        0 <= a <= s.len(),
        forall|j: int| 0 <= j < a ==> is_space(s[j]),
    ensures
        ltrim(s) == ltrim(s.skip(a)),
    decreases a,
{
    if a == 0 {
        assert(s.skip(0) =~= s);
    } else {
        assert(is_space(s[0]));
        lemma_ltrim_skip(s.skip(1), a - 1);
        assert(s.skip(1).skip(a - 1) =~= s.skip(a));
    }
}

proof fn lemma_rtrim_take(s: Seq<char>, b: int)
    requires
        0 <= b <= s.len(),
        forall|j: int| b <= j < s.len() ==> is_space(s[j]),
    ensures
        rtrim(s) == rtrim(s.take(b)),
    decreases s.len() - b,
{
    if b == s.len() {
        assert(s.take(b) =~= s);
    } else {
        assert(is_space(s[s.len() - 1]));
        lemma_rtrim_take(s.take(s.len() - 1), b);
        assert(s.take(s.len() - 1).take(b) =~= s.take(b));
    }
}

fn is_space_exec(c: char) -> (r: bool)
    ensures
        r == is_space(c),
{
    c == ' ' || c == '\t' || c == '\n' || c == '\r'
}

/// `s` without leading or trailing ASCII whitespace.
pub fn trim_spaces(s: &str) -> (r: String)
    ensures
        r@ == trimmed(s@),
{
    let len = s.unicode_len();
    let mut a: usize = 0;
    while a < len && is_space_exec(s.get_char(a))
        invariant
            0 <= a <= len,
            len == s@.len(),
            forall|j: int| 0 <= j < a ==> is_space(s@[j]),
        decreases len - a,
    {
        a = a + 1;
    }
    let mut b: usize = len;
    while b > a && is_space_exec(s.get_char(b - 1))
        invariant
            a <= b <= len,
            len == s@.len(),
            forall|j: int| b <= j < len ==> is_space(s@[j]),
        decreases b,
    {
        b = b - 1;
    }
    let r = s.substring_char(a, b).to_owned();
    proof {
        let t = s@.skip(a as int);
        lemma_ltrim_skip(s@, a as int);
        assert(ltrim(t) == t);
        assert(forall|j: int| b - a <= j < t.len() ==> is_space(#[trigger] t[j]));
        lemma_rtrim_take(t, b - a);
        assert(rtrim(t.take(b - a)) == t.take(b - a));
        assert(t.take(b - a) =~= s@.subrange(a as int, b as int));
    }
    r
}

/// `s` with every copy of the (non-empty) suffix `p` removed from its end.
pub open spec fn stripped_suffixes(s: Seq<char>, p: Seq<char>) -> Seq<char>
    decreases s.len(),
{
    if p.len() > 0 && has_suffix(s, p) {
        stripped_suffixes(s.take(s.len() - p.len()), p)
    } else {
        s
    }
}

/// `s` with every copy of the (non-empty) prefix `p` removed from its start.
pub open spec fn stripped_prefixes(s: Seq<char>, p: Seq<char>) -> Seq<char>
    decreases s.len(),
{
    if p.len() > 0 && has_prefix(s, p) {
        stripped_prefixes(s.skip(p.len() as int), p)
    } else {
        s
    }
}

/// Remove every copy of the suffix `p` from the end of `s`.
pub fn strip_suffix_all(s: &str, p: &str) -> (r: String)
    ensures
        r@ == stripped_suffixes(s@, p@),
{
    let plen = p.unicode_len();
    let mut cur: String = s.to_owned();
    if plen == 0 {
        return cur;
    }
    loop
        invariant
            plen == p@.len(),
            plen > 0,
            stripped_suffixes(cur@, p@) == stripped_suffixes(s@, p@),
        decreases cur@.len(),
    {
        let clen = cur.as_str().unicode_len();
        if !str_ends_with(cur.as_str(), p, false) {
            proof {
                assert(norm(cur@, false) =~= cur@);
                assert(norm(p@, false) =~= p@);
            }
            return cur;
        }
        proof {
            assert(norm(cur@, false) =~= cur@);
            assert(norm(p@, false) =~= p@);
        }
        let next = cur.as_str().substring_char(0, clen - plen).to_owned();
        proof {
            assert(next@ =~= cur@.take(cur@.len() - p@.len()));
        }
        cur = next;
    }
}

/// Remove every copy of the prefix `p` from the start of `s`.
pub fn strip_prefix_all(s: &str, p: &str) -> (r: String)
    ensures
        r@ == stripped_prefixes(s@, p@),
{
    let plen = p.unicode_len();
    let mut cur: String = s.to_owned();
    if plen == 0 {
        return cur;
    }
    loop
        invariant
            plen == p@.len(),
            plen > 0,
            stripped_prefixes(cur@, p@) == stripped_prefixes(s@, p@),
        decreases cur@.len(),
    {
        let clen = cur.as_str().unicode_len();
        if !str_starts_with(cur.as_str(), p, false) {
            proof {
                assert(norm(cur@, false) =~= cur@);
                assert(norm(p@, false) =~= p@);
            }
            return cur;
        }
        proof {
            assert(norm(cur@, false) =~= cur@);
            assert(norm(p@, false) =~= p@);
        }
        let next = cur.as_str().substring_char(plen, clen).to_owned();
        proof {
            assert(next@ =~= cur@.skip(p@.len() as int));
        }
        cur = next;
    }
}

/// Index of the first occurrence of `c` in `s`, or -1 when absent.
pub open spec fn find_char(s: Seq<char>, c: char) -> int
    decreases s.len(),
{
    if s.len() == 0 {
        -1
    } else if s[0] == c {
        0
    } else {
        let r = find_char(s.skip(1), c);
        if r == -1 {
            -1
        } else {
            r + 1
        }
    }
}

/// What `find_char` returns: the first occurrence, or -1 when there is none.
pub proof fn lemma_find_char(s: Seq<char>, c: char)
    ensures
        find_char(s, c) == -1 ==> forall|j: int| 0 <= j < s.len() ==> s[j] != c,
        find_char(s, c) != -1 ==> {
            let r = find_char(s, c);
            0 <= r < s.len() && s[r] == c && forall|j: int| 0 <= j < r ==> s[j] != c
        },
    decreases s.len(),
{
    if s.len() == 0 {
    } else if s[0] == c {
    } else {
        lemma_find_char(s.skip(1), c);
        assert(forall|j: int| 1 <= j < s.len() ==> s[j] == s.skip(1)[j - 1]);
    }
}

/// Index of the last occurrence of `c` in `s`, or -1 when absent.
pub open spec fn find_last_char(s: Seq<char>, c: char) -> int
    decreases s.len(),
{
    if s.len() == 0 {
        -1
    } else if s[s.len() - 1] == c {
        s.len() - 1
    } else {
        find_last_char(s.take(s.len() - 1), c)
    }
}

/// What `find_last_char` returns: the last occurrence, or -1 when there is none.
pub proof fn lemma_find_last_char(s: Seq<char>, c: char)
    ensures
        find_last_char(s, c) == -1 ==> forall|j: int| 0 <= j < s.len() ==> s[j] != c,
        find_last_char(s, c) != -1 ==> {
            let r = find_last_char(s, c);
            0 <= r < s.len() && s[r] == c && forall|j: int| r < j < s.len() ==> s[j] != c
        },
    decreases s.len(),
{
    if s.len() == 0 {
    } else if s[s.len() - 1] == c {
    } else {
        lemma_find_last_char(s.take(s.len() - 1), c);
        assert(forall|j: int| 0 <= j < s.len() - 1 ==> s[j] == s.take(s.len() - 1)[j]);
    }
}

/// How many times `c` occurs in `s`.
pub open spec fn count_char(s: Seq<char>, c: char) -> nat
    decreases s.len(),
{
    if s.len() == 0 {
        0
    } else {
        count_char(s.take(s.len() - 1), c) + (if s[s.len() - 1] == c {
            1nat
        } else {
            0nat
        })
    }
}

/// Count the occurrences of `c` in `s`.
pub fn count_char_exec(s: &str, c: char) -> (r: usize)
    ensures
        r == count_char(s@, c),
{
    let len = s.unicode_len();
    let mut i: usize = 0;
    let mut cnt: usize = 0;
    while i < len
        invariant
            0 <= i <= len,
            len == s@.len(),
            cnt == count_char(s@.take(i as int), c),
            cnt <= i,
        decreases len - i,
    {
        proof {
            assert(s@.take(i + 1).take(i as int) =~= s@.take(i as int));
            assert(s@.take(i + 1)[i as int] == s@[i as int]);
        }
        if s.get_char(i) == c {
            cnt = cnt + 1;
        }
        i = i + 1;
    }
    proof {
        assert(s@.take(len as int) =~= s@);
    }
    cnt
}

/// Find the first occurrence of `c` in `s`; the boolean says whether one exists.
pub fn find_char_exec(s: &str, c: char) -> (r: Option<usize>)
    ensures
        match r {
            Some(i) => i == find_char(s@, c),
            None => find_char(s@, c) == -1,
        },
{
    let len = s.unicode_len();
    let mut i: usize = 0;
    while i < len
        invariant
            0 <= i <= len,
            len == s@.len(),
            forall|j: int| 0 <= j < i ==> s@[j] != c,
        decreases len - i,
    {
        if s.get_char(i) == c {
            proof {
                lemma_find_char(s@, c);
            }
            return Some(i);
        }
        i = i + 1;
    }
    proof {
        lemma_find_char(s@, c);
    }
    None
}

/// The part of `s` after its last `/`, or all of `s` when it has none.
pub open spec fn last_segment(s: Seq<char>) -> Seq<char> {
    if find_last_char(s, '/') == -1 {
        s
    } else {
        s.skip(find_last_char(s, '/') + 1)
    }
}

/// The part of `s` after its last `/`, or all of `s` when it has none.
pub fn last_segment_exec(s: &str) -> (r: String)
    ensures
        r@ == last_segment(s@),
{
    let len = s.unicode_len();
    let mut b: usize = len;
    while b > 0
        invariant
            0 <= b <= len,
            len == s@.len(),
            forall|j: int| b <= j < len ==> s@[j] != '/',
        decreases b,
    {
        if s.get_char(b - 1) == '/' {
            proof {
                lemma_find_last_char(s@, '/');
            }
            let r = s.substring_char(b, len).to_owned();
            proof {
                assert(r@ =~= s@.skip(b as int));
            }
            return r;
        }
        b = b - 1;
    }
    proof {
        lemma_find_last_char(s@, '/');
    }
    s.to_owned()
}

} // verus!
