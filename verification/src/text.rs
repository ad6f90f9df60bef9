//! Character-level utilities for the notation parser: whitespace
//! trimming, case folding, substring search, splitting, and decimal
//! integer parsing, each with an exact specification over sequences of
//! characters.

use vstd::prelude::*;
use vstd::string::StringExecFns;

verus! {

/// The Unicode `White_Space` characters — exactly the set `str::trim`
/// removes from the ends of an input.
pub open spec fn is_space_char(c: char) -> bool {
    c == '\u{0009}' || c == '\u{000A}' || c == '\u{000B}' || c == '\u{000C}' || c == '\u{000D}'
        || c == '\u{0020}' || c == '\u{0085}' || c == '\u{00A0}' || c == '\u{1680}' || ('\u{2000}'
        <= c && c <= '\u{200A}') || c == '\u{2028}' || c == '\u{2029}' || c == '\u{202F}' || c
        == '\u{205F}' || c == '\u{3000}'
}

/// Exec mirror of [`is_space_char`].
pub fn is_space(c: char) -> (r: bool)
    ensures
        r == is_space_char(c),
{
    c == '\u{0009}' || c == '\u{000A}' || c == '\u{000B}' || c == '\u{000C}' || c == '\u{000D}'
        || c == '\u{0020}' || c == '\u{0085}' || c == '\u{00A0}' || c == '\u{1680}' || ('\u{2000}'
        <= c && c <= '\u{200A}') || c == '\u{2028}' || c == '\u{2029}' || c == '\u{202F}' || c
        == '\u{205F}' || c == '\u{3000}'
}

/// Whether `c` lies in the ASCII range.
pub open spec fn char_is_ascii(c: char) -> bool {
    (c as u32) <= 127
}

/// Whether every character of `s` lies in the ASCII range.
pub open spec fn all_ascii_chars(s: Seq<char>) -> bool {
    forall|i: int| 0 <= i < s.len() ==> char_is_ascii(#[trigger] s[i])
}

/// Case folding for one ASCII character: uppercase letters map to their
/// lowercase counterparts, every other character is unchanged. On ASCII
/// characters this is the Unicode lowercase mapping.
pub open spec fn lower_char(c: char) -> char {
    if 'A' <= c && c <= 'Z' {
        ((c as u8) + 32) as char
    } else {
        c
    }
}

/// Exec mirror of [`lower_char`].
pub fn to_lower(c: char) -> (r: char)
    ensures
        r == lower_char(c),
{
    if 'A' <= c && c <= 'Z' {
        (((c as u8) + 32) as char)
    } else {
        c
    }
}

/// The pointwise ASCII case fold of a sequence of ASCII characters.
pub open spec fn ascii_lower(s: Seq<char>) -> Seq<char> {
    Seq::new(s.len(), |i: int| lower_char(s[i]))
}

/// The lowercase equivalent of a sequence of characters under the full
/// Unicode mapping, as `str::to_lowercase` computes it. The mapping is
/// unconditional — no locale tailoring — so the result is a function of
/// the characters alone; it can change the length (some characters
/// lower to more than one). On a sequence of ASCII characters it equals
/// [`ascii_lower`]; the crate states that case directly and uses this
/// name only for inputs holding a character beyond ASCII.
pub uninterp spec fn lower_of(s: Seq<char>) -> Seq<char>;

/// Relies on `str::to_lowercase`: the lowercase equivalent of the input
/// per the Unicode database, an unconditional mapping with no locale
/// tailoring, so a function of the input's characters alone, here named
/// [`lower_of`].
#[verifier::external_body]
fn lowercase(s: &str) -> (r: String)
    ensures
        r@ == lower_of(s@),
{
    s.to_lowercase()
}

/// Characters remaining after dropping leading whitespace.
pub open spec fn trim_start_spaces(s: Seq<char>) -> Seq<char>
    decreases s.len(),
{
    if s.len() > 0 && is_space_char(s[0]) {
        trim_start_spaces(s.drop_first())
    } else {
        s
    }
}

/// Characters remaining after dropping trailing whitespace.
pub open spec fn trim_end_spaces(s: Seq<char>) -> Seq<char>
    decreases s.len(),
{
    if s.len() > 0 && is_space_char(s.last()) {
        trim_end_spaces(s.drop_last())
    } else {
        s
    }
}

/// Characters remaining after dropping whitespace from both ends.
pub open spec fn trim_spaces(s: Seq<char>) -> Seq<char> {
    trim_end_spaces(trim_start_spaces(s))
}

/// The normal form of a raw input: trimmed of surrounding whitespace,
/// then case-folded. For a trimmed input of ASCII characters the fold is
/// stated directly as [`ascii_lower`]; for any other input it is the
/// full Unicode fold [`lower_of`].
pub open spec fn normalize(s: Seq<char>) -> Seq<char> {
    if all_ascii_chars(trim_spaces(s)) {
        ascii_lower(trim_spaces(s))
    } else {
        lower_of(trim_spaces(s))
    }
}

proof fn lemma_trim_start_subrange(s: Seq<char>, k: int)
    requires
        0 <= k <= s.len(),
        forall|j: int| 0 <= j < k ==> is_space_char(s[j]),
        k < s.len() ==> !is_space_char(s[k]),
    ensures
        trim_start_spaces(s) == s.subrange(k, s.len() as int),
    decreases k,
{
    if k == 0 {
        assert(s.subrange(0, s.len() as int) =~= s);
    } else {
        let t = s.drop_first();
        assert(trim_start_spaces(s) == trim_start_spaces(t));
        lemma_trim_start_subrange(t, k - 1);
        assert(t.subrange(k - 1, t.len() as int) =~= s.subrange(k, s.len() as int));
    }
}

proof fn lemma_trim_end_subrange(s: Seq<char>, k: int)
    requires
        0 <= k <= s.len(),
        forall|j: int| k <= j < s.len() ==> is_space_char(s[j]),
        k > 0 ==> !is_space_char(s[k - 1]),
    ensures
        trim_end_spaces(s) == s.subrange(0, k),
    decreases s.len() - k,
{
    if k == s.len() {
        if s.len() > 0 && is_space_char(s.last()) {
            assert(false);
        }
        assert(s.subrange(0, s.len() as int) =~= s);
    } else {
        let t = s.drop_last();
        assert(is_space_char(s.last()));
        assert(trim_end_spaces(s) == trim_end_spaces(t));
        lemma_trim_end_subrange(t, k);
        assert(t.subrange(0, k) =~= s.subrange(0, k));
    }
}

/// The characters of an input string in normal form: surrounding
/// whitespace removed and every character case-folded.
pub fn normalized_chars(s: &str) -> (r: Vec<char>)
    ensures
        r@ == normalize(s@),
{
    let n = s.unicode_len();
    let mut start: usize = 0;
    while start < n && is_space(s.get_char(start))
        invariant
            0 <= start <= n,
            n == s@.len(),
            forall|j: int| 0 <= j < start ==> is_space_char(s@[j]),
        decreases n - start,
    {
        start = start + 1;
    }
    let mut end: usize = n;
    while end > start && is_space(s.get_char(end - 1))
        invariant
            start <= end <= n,
            n == s@.len(),
            forall|j: int| end <= j < n ==> is_space_char(s@[j]),
        decreases end,
    {
        end = end - 1;
    }
    proof {
        lemma_trim_start_subrange(s@, start as int);
        let t = s@.subrange(start as int, s@.len() as int);
        lemma_trim_end_subrange(t, end - start);
        assert(t.subrange(0, end - start) =~= s@.subrange(start as int, end as int));
    }
    let ghost trimmed = trim_spaces(s@);
    let mut ascii = true;
    let mut i = start;
    while i < end
        invariant
            start <= i <= end <= n,
            n == s@.len(),
            trimmed == s@.subrange(start as int, end as int),
            ascii == all_ascii_chars(s@.subrange(start as int, i as int)),
        decreases end - i,
    {
        proof {
            let pre = s@.subrange(start as int, i as int);
            let post = s@.subrange(start as int, i + 1);
            assert(forall|t: int| 0 <= t < pre.len() ==> post[t] == pre[t]);
            assert(post[post.len() - 1] == s@[i as int]);
            assert(all_ascii_chars(post) <==> (all_ascii_chars(pre) && char_is_ascii(s@[i as int])));
        }
        if (s.get_char(i) as u32) > 127 {
            ascii = false;
        }
        i = i + 1;
    }
    proof {
        assert(ascii == all_ascii_chars(trimmed));
    }
    if ascii {
        let mut out: Vec<char> = Vec::new();
        let mut j = start;
        while j < end
            invariant
                start <= j <= end <= n,
                n == s@.len(),
                trimmed == s@.subrange(start as int, end as int),
                out@.len() == j - start,
                forall|t: int| 0 <= t < out@.len() ==> out@[t] == lower_char(trimmed[t]),
            decreases end - j,
        {
            out.push(to_lower(s.get_char(j)));
            j = j + 1;
        }
        proof {
            assert(out@ =~= ascii_lower(trimmed));
        }
        out
    } else {
        let sub = s.substring_char(start, end);
        let lowered = lowercase(sub);
        let ls = lowered.as_str();
        let m = ls.unicode_len();
        let mut out: Vec<char> = Vec::new();
        let mut j: usize = 0;
        while j < m
            invariant
                0 <= j <= m,
                m == ls@.len(),
                ls@ == lower_of(trimmed),
                out@.len() == j,
                forall|t: int| 0 <= t < out@.len() ==> out@[t] == ls@[t],
            decreases m - j,
        {
            out.push(ls.get_char(j));
            j = j + 1;
        }
        proof {
            assert(out@ =~= lower_of(trimmed));
        }
        out
    }
}

/// Whether pattern `p` occurs in `s` at position `i`.
pub open spec fn is_match_at(s: Seq<char>, p: Seq<char>, i: int) -> bool {
    0 <= i && i + p.len() <= s.len() && s.subrange(i, i + p.len()) == p
}

/// Position of the first occurrence of `p` in `s` at or after `from`.
pub open spec fn find_from(s: Seq<char>, p: Seq<char>, from: int) -> Option<int>
    decreases s.len() - from,
{
    if from < 0 || from + p.len() > s.len() {
        None
    } else if p.len() == 0 || s.subrange(from, from + p.len()) == p {
        Some(from)
    } else {
        find_from(s, p, from + 1)
    }
}

/// Whether `p` occurs anywhere in `s`.
pub open spec fn contains_seq(s: Seq<char>, p: Seq<char>) -> bool {
    find_from(s, p, 0) is Some
}

/// `find_from` returns the least match position at or after `from`,
/// and `None` exactly when there is no match at or after `from`.
pub proof fn lemma_find_from(s: Seq<char>, p: Seq<char>, from: int)
    requires
        from >= 0,
    ensures
        match find_from(s, p, from) {
            Some(i) => is_match_at(s, p, i) && from <= i && forall|j: int|
                from <= j < i ==> !is_match_at(s, p, j),
            None => forall|j: int| j >= from ==> !is_match_at(s, p, j),
        },
    decreases s.len() - from,
{
    if from + p.len() > s.len() {
        assert(forall|j: int| j >= from ==> !is_match_at(s, p, j));
    } else if p.len() == 0 {
        assert(s.subrange(from, from + p.len()) =~= p);
    } else if s.subrange(from, from + p.len()) == p {
    } else {
        lemma_find_from(s, p, from + 1);
        assert(!is_match_at(s, p, from));
    }
}

/// Position of the last occurrence of character `c` in `s`.
pub open spec fn rfind_char(s: Seq<char>, c: char) -> Option<int>
    decreases s.len(),
{
    if s.len() == 0 {
        None
    } else if s.last() == c {
        Some(s.len() - 1)
    } else {
        rfind_char(s.drop_last(), c)
    }
}

/// `rfind_char` returns the greatest position holding `c`, and `None`
/// exactly when `c` does not occur.
pub proof fn lemma_rfind_char(s: Seq<char>, c: char)
    ensures
        match rfind_char(s, c) {
            Some(i) => 0 <= i < s.len() && s[i] == c && forall|j: int|
                i < j < s.len() ==> s[j] != c,
            None => forall|j: int| 0 <= j < s.len() ==> s[j] != c,
        },
    decreases s.len(),
{
    if s.len() == 0 {
    } else if s.last() == c {
    } else {
        let t = s.drop_last();
        lemma_rfind_char(t, c);
        assert(forall|j: int| 0 <= j < t.len() ==> t[j] == s[j]);
        match rfind_char(t, c) {
            Option::Some(i) => {
                assert(forall|j: int| i < j < s.len() ==> s[j] != c) by {
                    assert(forall|j: int| i < j < t.len() ==> t[j] != c);
                }
            },
            Option::None => {
                assert(forall|j: int| 0 <= j < s.len() ==> s[j] != c) by {
                    assert(forall|j: int| 0 <= j < t.len() ==> t[j] != c);
                }
            },
        }
    }
}

/// Splitting `s` on pattern `p` in the manner of an iterator-based split
/// that must yield exactly two parts: the part before the first
/// occurrence of `p` and the part after it, provided that the remainder
/// holds no further occurrence.
pub open spec fn split_two(s: Seq<char>, p: Seq<char>) -> Option<(Seq<char>, Seq<char>)> {
    match find_from(s, p, 0) {
        Option::None => None,
        Option::Some(i) => {
            let rest = s.subrange(i + p.len(), s.len() as int);
            if contains_seq(rest, p) {
                None
            } else {
                Some((s.subrange(0, i), rest))
            }
        },
    }
}

/// Characters remaining after repeatedly stripping prefix `p`.
pub open spec fn strip_prefix_all(s: Seq<char>, p: Seq<char>) -> Seq<char>
    decreases s.len(),
{
    if p.len() > 0 && s.len() >= p.len() && s.subrange(0, p.len() as int) == p {
        strip_prefix_all(s.subrange(p.len() as int, s.len() as int), p)
    } else {
        s
    }
}

/// Characters remaining after repeatedly stripping a trailing `c`.
pub open spec fn strip_suffix_all_char(s: Seq<char>, c: char) -> Seq<char>
    decreases s.len(),
{
    if s.len() > 0 && s.last() == c {
        strip_suffix_all_char(s.drop_last(), c)
    } else {
        s
    }
}

/// If `p` matches at `i` and nowhere earlier, the first match is at `i`.
pub proof fn lemma_find_first_is(s: Seq<char>, p: Seq<char>, i: int)
    requires
        is_match_at(s, p, i),
        forall|j: int| 0 <= j < i ==> !is_match_at(s, p, j),
    ensures
        find_from(s, p, 0) == Some(i),
{
    lemma_find_from(s, p, 0);
    match find_from(s, p, 0) {
        Option::Some(k) => {
            if k < i {
                assert(is_match_at(s, p, k));
                assert(false);
            }
            if k > i {
                assert(!is_match_at(s, p, i));
                assert(false);
            }
        },
        Option::None => {
            assert(!is_match_at(s, p, i));
            assert(false);
        },
    }
}

/// If `c` stands at `i` and nowhere later, the last occurrence is at `i`.
pub proof fn lemma_rfind_last_is(s: Seq<char>, c: char, i: int)
    requires
        0 <= i < s.len(),
        s[i] == c,
        forall|j: int| i < j < s.len() ==> s[j] != c,
    ensures
        rfind_char(s, c) == Some(i),
{
    lemma_rfind_char(s, c);
    match rfind_char(s, c) {
        Option::Some(k) => {
            if k < i {
                assert(s[i] != c);
                assert(false);
            }
            if k > i {
                assert(s[k] != c);
                assert(false);
            }
        },
        Option::None => {
            assert(s[i] != c);
            assert(false);
        },
    }
}

/// Whether `p` occurs in `v` at position `i`.
pub fn match_at(v: &Vec<char>, p: &Vec<char>, i: usize) -> (r: bool)
    requires
        i + p@.len() <= v@.len(),
    ensures
        r == is_match_at(v@, p@, i as int),
{
    proof {
        vstd::std_specs::vec::axiom_spec_len(v);
    }
    let mut j: usize = 0;
    while j < p.len()
        invariant
            0 <= j <= p@.len(),
            v@.len() <= usize::MAX,
            i + p@.len() <= v@.len(),
            forall|t: int| 0 <= t < j ==> v@[i + t] == p@[t],
        decreases p@.len() - j,
    {
        if v[i + j] != p[j] {
            proof {
                assert(v@.subrange(i as int, i + p@.len())[j as int] != p@[j as int]);
            }
            return false;
        }
        j = j + 1;
    }
    proof {
        assert(v@.subrange(i as int, i + p@.len()) =~= p@);
    }
    true
}

/// Position of the first occurrence of `p` in `v`, if any.
pub fn find_sub(v: &Vec<char>, p: &Vec<char>) -> (r: Option<usize>)
    requires
        p@.len() >= 1,
    ensures
        match r {
            Option::Some(i) => find_from(v@, p@, 0) == Some(i as int),
            Option::None => find_from(v@, p@, 0) is None,
        },
{
    if p.len() > v.len() {
        proof {
            lemma_find_from(v@, p@, 0);
            if find_from(v@, p@, 0) is Some {
                assert(is_match_at(v@, p@, find_from(v@, p@, 0)->Some_0));
                assert(false);
            }
        }
        return None;
    }
    let mut i: usize = 0;
    while i <= v.len() - p.len()
        invariant
            p@.len() >= 1,
            p@.len() <= v@.len(),
            0 <= i <= v@.len(),
            forall|j: int| 0 <= j < i ==> !is_match_at(v@, p@, j),
        decreases v@.len() - i,
    {
        if match_at(v, p, i) {
            proof {
                lemma_find_first_is(v@, p@, i as int);
            }
            return Some(i);
        }
        i = i + 1;
    }
    proof {
        lemma_find_from(v@, p@, 0);
        if find_from(v@, p@, 0) is Some {
            let k = find_from(v@, p@, 0)->Some_0;
            assert(is_match_at(v@, p@, k));
            assert(false);
        }
    }
    None
}

/// Whether `p` occurs anywhere in `v`.
pub fn contains_sub(v: &Vec<char>, p: &Vec<char>) -> (r: bool)
    requires
        p@.len() >= 1,
    ensures
        r == contains_seq(v@, p@),
{
    find_sub(v, p).is_some()
}

/// Position of the last occurrence of `c` in `v`, if any.
pub fn rfind(v: &Vec<char>, c: char) -> (r: Option<usize>)
    ensures
        match r {
            Option::Some(i) => rfind_char(v@, c) == Some(i as int),
            Option::None => rfind_char(v@, c) is None,
        },
{
    let mut i: usize = v.len();
    while i > 0
        invariant
            0 <= i <= v@.len(),
            forall|j: int| i <= j < v@.len() ==> v@[j] != c,
        decreases i,
    {
        i = i - 1;
        if v[i] == c {
            proof {
                lemma_rfind_last_is(v@, c, i as int);
            }
            return Some(i);
        }
    }
    proof {
        lemma_rfind_char(v@, c);
        if rfind_char(v@, c) is Some {
            assert(v@[rfind_char(v@, c)->Some_0] != c);
            assert(false);
        }
    }
    None
}

/// The two parts of `v` around the sole occurrence of `p`, in the manner
/// of [`split_two`].
pub fn split_once(v: &Vec<char>, p: &Vec<char>) -> (r: Option<(Vec<char>, Vec<char>)>)
    requires
        p@.len() >= 1,
    ensures
        match r {
            Option::Some(parts) => split_two(v@, p@) == Some((parts.0@, parts.1@)),
            Option::None => split_two(v@, p@) is None,
        },
{
    match find_sub(v, p) {
        Option::None => None,
        Option::Some(i) => {
            proof {
                lemma_find_from(v@, p@, 0);
                assert(is_match_at(v@, p@, i as int));
                vstd::std_specs::vec::axiom_spec_len(v);
            }
            let rest = subrange_chars(v, i + p.len(), v.len());
            if contains_sub(&rest, p) {
                None
            } else {
                let head = subrange_chars(v, 0, i);
                Some((head, rest))
            }
        },
    }
}

/// The copy of `v` with every leading repetition of `p` removed.
pub fn strip_prefix_repeat(v: &Vec<char>, p: &Vec<char>) -> (r: Vec<char>)
    requires
        p@.len() >= 1,
    ensures
        r@ == strip_prefix_all(v@, p@),
{
    let mut st: usize = 0;
    proof {
        assert(v@.subrange(0, v@.len() as int) =~= v@);
    }
    while p.len() <= v.len() && st <= v.len() - p.len() && match_at(v, p, st)
        invariant
            p@.len() >= 1,
            0 <= st <= v@.len(),
            strip_prefix_all(v@, p@) == strip_prefix_all(
                v@.subrange(st as int, v@.len() as int),
                p@,
            ),
        decreases v@.len() - st,
    {
        proof {
            let s1 = v@.subrange(st as int, v@.len() as int);
            let s2 = v@.subrange(st + p@.len(), v@.len() as int);
            assert(s1.subrange(0, p@.len() as int) =~= v@.subrange(st as int, st + p@.len()));
            assert(s1.subrange(p@.len() as int, s1.len() as int) =~= s2);
        }
        st = st + p.len();
    }
    proof {
        let s1 = v@.subrange(st as int, v@.len() as int);
        if s1.len() >= p@.len() {
            assert(s1.subrange(0, p@.len() as int) =~= v@.subrange(st as int, st + p@.len()));
        }
        assert(strip_prefix_all(s1, p@) == s1);
    }
    subrange_chars(v, st, v.len())
}

/// The copy of `v` with every trailing `c` removed.
pub fn strip_suffix_repeat(v: &Vec<char>, c: char) -> (r: Vec<char>)
    ensures
        r@ == strip_suffix_all_char(v@, c),
{
    let mut en: usize = v.len();
    proof {
        assert(v@.subrange(0, v@.len() as int) =~= v@);
    }
    while en > 0 && v[en - 1] == c
        invariant
            0 <= en <= v@.len(),
            strip_suffix_all_char(v@, c) == strip_suffix_all_char(v@.subrange(0, en as int), c),
        decreases en,
    {
        proof {
            let s1 = v@.subrange(0, en as int);
            assert(s1.drop_last() =~= v@.subrange(0, en - 1));
        }
        en = en - 1;
    }
    proof {
        let s1 = v@.subrange(0, en as int);
        assert(strip_suffix_all_char(s1, c) == s1);
    }
    subrange_chars(v, 0, en)
}

/// The copy of `v[from..to]` as a fresh vector.
pub fn subrange_chars(v: &Vec<char>, from: usize, to: usize) -> (r: Vec<char>)
    requires
        from <= to <= v@.len(),
    ensures
        r@ == v@.subrange(from as int, to as int),
{
    let mut out: Vec<char> = Vec::new();
    let mut i = from;
    while i < to
        invariant
            from <= i <= to <= v@.len(),
            out@ =~= v@.subrange(from as int, i as int),
        decreases to - i,
    {
        out.push(v[i]);
        proof {
            assert(out@ =~= v@.subrange(from as int, i + 1));
        }
        i = i + 1;
    }
    out
}

/// A one-character pattern as a vector.
pub fn pat1(c0: char) -> (r: Vec<char>)
    ensures
        r@ == seq![c0],
{
    let mut r: Vec<char> = Vec::new();
    r.push(c0);
    proof {
        assert(r@ =~= seq![c0]);
    }
    r
}

/// A two-character pattern as a vector.
pub fn pat2(c0: char, c1: char) -> (r: Vec<char>)
    ensures
        r@ == seq![c0, c1],
{
    let mut r: Vec<char> = Vec::new();
    r.push(c0);
    r.push(c1);
    proof {
        assert(r@ =~= seq![c0, c1]);
    }
    r
}

/// A three-character pattern as a vector.
pub fn pat3(c0: char, c1: char, c2: char) -> (r: Vec<char>)
    ensures
        r@ == seq![c0, c1, c2],
{
    let mut r: Vec<char> = Vec::new();
    r.push(c0);
    r.push(c1);
    r.push(c2);
    proof {
        assert(r@ =~= seq![c0, c1, c2]);
    }
    r
}

/// Whether `c` is a decimal digit.
pub open spec fn is_digit_char(c: char) -> bool {
    '0' <= c && c <= '9'
}

/// Numeric value of a digit character.
pub open spec fn digit_value(c: char) -> int {
    (c as u32) - ('0' as u32)
}

/// Whether every character of `s` is a decimal digit.
pub open spec fn all_digits(s: Seq<char>) -> bool {
    forall|i: int| 0 <= i < s.len() ==> is_digit_char(s[i])
}

/// Value of a sequence of decimal digits, most significant first.
pub open spec fn digits_value(s: Seq<char>) -> int
    decreases s.len(),
{
    if s.len() == 0 {
        0
    } else {
        digits_value(s.drop_last()) * 10 + digit_value(s.last())
    }
}

/// The signed 32-bit integer denoted by `s`, in the manner of the
/// standard library: an optional single leading `+` or `-`, then one or
/// more decimal digits; anything else, or a value out of range, is `None`.
pub open spec fn parse_int_spec(s: Seq<char>) -> Option<i32> {
    let has_sign = s.len() > 0 && (s[0] == '+' || s[0] == '-');
    let negative = s.len() > 0 && s[0] == '-';
    let digits = if has_sign {
        s.drop_first()
    } else {
        s
    };
    if digits.len() == 0 || !all_digits(digits) {
        None
    } else {
        let v = if negative {
            -digits_value(digits)
        } else {
            digits_value(digits)
        };
        if i32::MIN <= v <= i32::MAX {
            Some(v as i32)
        } else {
            None
        }
    }
}

/// A digit sequence denotes a nonnegative value.
pub proof fn lemma_digits_value_nonneg(s: Seq<char>)
    requires
        all_digits(s),
    ensures
        digits_value(s) >= 0,
    decreases s.len(),
{
    if s.len() > 0 {
        lemma_digits_value_nonneg(s.drop_last());
    }
}

/// Extending a digit sequence never lowers its value.
pub proof fn lemma_digits_value_prefix_bound(s: Seq<char>, k: int)
    requires
        all_digits(s),
        0 <= k <= s.len(),
    ensures
        digits_value(s) >= digits_value(s.subrange(0, k)),
    decreases s.len() - k,
{
    if k == s.len() {
        assert(s.subrange(0, k) =~= s);
    } else {
        lemma_digits_value_prefix_bound(s, k + 1);
        let shorter = s.subrange(0, k);
        let longer = s.subrange(0, k + 1);
        assert(longer.drop_last() =~= shorter);
        assert(all_digits(shorter));
        lemma_digits_value_nonneg(shorter);
        assert(digits_value(longer) == digits_value(shorter) * 10 + digit_value(s[k]));
    }
}

/// The signed 32-bit integer denoted by the characters of `v`, exactly as
/// [`parse_int_spec`] states it.
pub fn parse_int(v: &Vec<char>) -> (r: Option<i32>)
    ensures
        r == parse_int_spec(v@),
{
    let n = v.len();
    if n == 0 {
        return None;
    }
    let c0 = v[0];
    let has_sign = c0 == '+' || c0 == '-';
    let negative = c0 == '-';
    let start: usize = if has_sign {
        1
    } else {
        0
    };
    let ghost digits = if has_sign {
        v@.drop_first()
    } else {
        v@
    };
    proof {
        assert(digits =~= v@.subrange(start as int, n as int));
    }
    if start == n {
        return None;
    }
    let mut mag: u64 = 0;
    let mut i: usize = start;
    while i < n
        invariant
            start <= i <= n,
            1 <= n == v@.len(),
            has_sign == (v@[0] == '+' || v@[0] == '-'),
            negative == (v@[0] == '-'),
            start == if has_sign {
                1int
            } else {
                0int
            },
            digits == v@.subrange(start as int, n as int),
            digits == if has_sign {
                v@.drop_first()
            } else {
                v@
            },
            all_digits(v@.subrange(start as int, i as int)),
            mag == digits_value(v@.subrange(start as int, i as int)),
            mag <= 0x8000_0000,
        decreases n - i,
    {
        let c = v[i];
        if !('0' <= c && c <= '9') {
            proof {
                assert(digits[i - start] == c);
                assert(!all_digits(digits));
            }
            return None;
        }
        let d = ((c as u32) - ('0' as u32)) as u64;
        let next = mag * 10 + d;
        proof {
            let upto = v@.subrange(start as int, i + 1);
            assert(upto.drop_last() =~= v@.subrange(start as int, i as int));
            assert(upto.last() == c);
            assert(digits_value(upto) == mag * 10 + d);
        }
        if next > 0x8000_0000 {
            proof {
                if all_digits(digits) {
                    lemma_digits_value_prefix_bound(digits, i + 1 - start);
                    assert(digits.subrange(0, i + 1 - start) =~= v@.subrange(start as int, i + 1));
                    assert(digits_value(digits) > 0x8000_0000);
                }
            }
            return None;
        }
        mag = next;
        i = i + 1;
    }
    proof {
        assert(v@.subrange(start as int, n as int) =~= digits);
        lemma_digits_value_nonneg(digits);
    }
    if negative {
        let m = mag as i64;
        Some((-m) as i32)
    } else {
        if mag > 0x7fff_ffff {
            return None;
        }
        Some(mag as i32)
    }
}

/// The character of one decimal digit value.
pub open spec fn digit_char_of(d: int) -> char {
    if d == 0 {
        '0'
    } else if d == 1 {
        '1'
    } else if d == 2 {
        '2'
    } else if d == 3 {
        '3'
    } else if d == 4 {
        '4'
    } else if d == 5 {
        '5'
    } else if d == 6 {
        '6'
    } else if d == 7 {
        '7'
    } else if d == 8 {
        '8'
    } else {
        '9'
    }
}

/// Decimal digits of a nonnegative value, most significant first.
pub open spec fn dec_digits(n: int) -> Seq<char>
    decreases n,
{
    if n < 10 {
        seq![digit_char_of(n)]
    } else {
        dec_digits(n / 10).push(digit_char_of(n % 10))
    }
}

/// Decimal notation of an integer: a `-` before the magnitude of a
/// negative value, bare digits otherwise.
pub open spec fn dec_int(v: int) -> Seq<char> {
    if v < 0 {
        seq!['-'] + dec_digits(-v)
    } else {
        dec_digits(v)
    }
}

/// Decimal notation always carrying its sign, as `{:+}` formatting
/// writes it.
pub open spec fn dec_signed(v: int) -> Seq<char> {
    if v < 0 {
        seq!['-'] + dec_digits(-v)
    } else {
        seq!['+'] + dec_digits(v)
    }
}

/// Append the character of one digit value to `out`.
fn push_digit_str(out: &mut String, d: u32)
    requires
        d < 10,
    ensures
        final(out)@ == old(out)@ + seq![digit_char_of(d as int)],
{
    match d {
        0 => {
            out.append("0");
            proof {
                reveal_strlit("0");
                assert(out@ =~= old(out)@ + seq![digit_char_of(d as int)]);
            }
        },
        1 => {
            out.append("1");
            proof {
                reveal_strlit("1");
                assert(out@ =~= old(out)@ + seq![digit_char_of(d as int)]);
            }
        },
        2 => {
            out.append("2");
            proof {
                reveal_strlit("2");
                assert(out@ =~= old(out)@ + seq![digit_char_of(d as int)]);
            }
        },
        3 => {
            out.append("3");
            proof {
                reveal_strlit("3");
                assert(out@ =~= old(out)@ + seq![digit_char_of(d as int)]);
            }
        },
        4 => {
            out.append("4");
            proof {
                reveal_strlit("4");
                assert(out@ =~= old(out)@ + seq![digit_char_of(d as int)]);
            }
        },
        5 => {
            out.append("5");
            proof {
                reveal_strlit("5");
                assert(out@ =~= old(out)@ + seq![digit_char_of(d as int)]);
            }
        },
        6 => {
            out.append("6");
            proof {
                reveal_strlit("6");
                assert(out@ =~= old(out)@ + seq![digit_char_of(d as int)]);
            }
        },
        7 => {
            out.append("7");
            proof {
                reveal_strlit("7");
                assert(out@ =~= old(out)@ + seq![digit_char_of(d as int)]);
            }
        },
        8 => {
            out.append("8");
            proof {
                reveal_strlit("8");
                assert(out@ =~= old(out)@ + seq![digit_char_of(d as int)]);
            }
        },
        _ => {
            out.append("9");
            proof {
                reveal_strlit("9");
                assert(out@ =~= old(out)@ + seq![digit_char_of(d as int)]);
            }
        },
    }
}

/// Append the decimal digits of `n` to `out`.
pub fn append_dec(out: &mut String, n: u32)
    ensures
        final(out)@ == old(out)@ + dec_digits(n as int),
    decreases n,
{
    if n < 10 {
        push_digit_str(out, n);
    } else {
        append_dec(out, n / 10);
        push_digit_str(out, n % 10);
        proof {
            assert(out@ =~= old(out)@ + dec_digits(n as int));
        }
    }
}

/// Append the decimal notation of `v` to `out`.
pub fn append_int(out: &mut String, v: i32)
    ensures
        final(out)@ == old(out)@ + dec_int(v as int),
{
    if v < 0 {
        out.append("-");
        proof {
            reveal_strlit("-");
        }
        let magnitude = (-(v as i64)) as u32;
        append_dec(out, magnitude);
        proof {
            assert(out@ =~= old(out)@ + dec_int(v as int));
        }
    } else {
        append_dec(out, v as u32);
    }
}

/// Append the decimal notation of `v` with its sign always written, as
/// `{:+}` formatting would, to `out`.
pub fn append_signed(out: &mut String, v: i32)
    ensures
        final(out)@ == old(out)@ + dec_signed(v as int),
{
    if v < 0 {
        out.append("-");
        proof {
            reveal_strlit("-");
        }
        let magnitude = (-(v as i64)) as u32;
        append_dec(out, magnitude);
        proof {
            assert(out@ =~= old(out)@ + dec_signed(v as int));
        }
    } else {
        out.append("+");
        proof {
            reveal_strlit("+");
        }
        append_dec(out, v as u32);
        proof {
            assert(out@ =~= old(out)@ + dec_signed(v as int));
        }
    }
}

} // verus!
