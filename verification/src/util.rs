//! Text primitives shared by the whole engine: character classes, substring
//! search, trimming, the line/offset coordinate model, string-aware character
//! counting, and the splice operation every edit is built on.
//!
//! The text model is a sequence of characters with `'\n'` as the only line
//! terminator; line numbers are 1-based throughout.

use vstd::prelude::*;
use vstd::string::*;

verus! {

/// Relies on std's `String::push`: appends the given character to the end of
/// the string.
pub assume_specification[ String::push ](s: &mut String, ch: char)
    ensures
        final(s)@ == old(s)@.push(ch),
;

// ---------------------------------------------------------------------------
// character classes
// ---------------------------------------------------------------------------

pub open spec fn spec_is_space(c: char) -> bool {
    c == ' ' || c == '\t' || c == '\r' || c == '\n'
}

pub open spec fn spec_is_word_char(c: char) -> bool {
    ||| 'a' as int <= c as int && c as int <= 'z' as int
    ||| 'A' as int <= c as int && c as int <= 'Z' as int
    ||| '0' as int <= c as int && c as int <= '9' as int
    ||| c == '_'
}

pub fn is_space(c: char) -> (r: bool)
    ensures
        r == spec_is_space(c),
{
    c == ' ' || c == '\t' || c == '\r' || c == '\n'
}

pub fn is_word_char(c: char) -> (r: bool)
    ensures
        r == spec_is_word_char(c),
{
    let u = c as u32;
    (97 <= u && u <= 122) || (65 <= u && u <= 90) || (48 <= u && u <= 57) || c == '_'
}

// ---------------------------------------------------------------------------
// string comparison and search
// ---------------------------------------------------------------------------

/// Character-for-character equality of two string slices.
pub fn str_eq(a: &str, b: &str) -> (r: bool)
    ensures
        r == (a@ == b@),
{
    let al = a.unicode_len();
    let bl = b.unicode_len();
    if al != bl {
        return false;
    }
    let mut i: usize = 0;
    while i < al
        invariant
            i <= al,
            al == a@.len(),
            al == b@.len(),
            forall|j: int| 0 <= j < i ==> a@[j] == b@[j],
        decreases al - i,
    {
        if a.get_char(i) != b.get_char(i) {
            return false;
        }
        i += 1;
    }
    proof {
        assert(a@ =~= b@);
    }
    true
}

/// `p` occurs in `s` starting at character position `i`.
pub open spec fn spec_matches_at(s: Seq<char>, p: Seq<char>, i: int) -> bool {
    0 <= i && i + p.len() <= s.len() && s.subrange(i, i + p.len() as int) == p
}

pub open spec fn spec_starts_with(s: Seq<char>, p: Seq<char>) -> bool {
    spec_matches_at(s, p, 0)
}

pub open spec fn spec_ends_with(s: Seq<char>, p: Seq<char>) -> bool {
    p.len() <= s.len() && spec_matches_at(s, p, s.len() - p.len())
}

/// Compares `p` against the characters of `s` at position `i`.
pub fn match_at(s: &str, p: &str, i: usize) -> (r: bool)
    requires
        i + p@.len() <= s@.len(),
    ensures
        r == spec_matches_at(s@, p@, i as int),
{
    let sl = s.unicode_len();
    let pl = p.unicode_len();
    let mut j: usize = 0;
    while j < pl
        invariant
            j <= pl,
            pl == p@.len(),
            sl == s@.len(),
            i + pl <= sl,
            forall|k: int| 0 <= k < j ==> s@[i + k] == p@[k],
        decreases pl - j,
    {
        if s.get_char(i + j) != p.get_char(j) {
            proof {
                assert(s@.subrange(i as int, i + pl as int)[j as int] != p@[j as int]);
            }
            return false;
        }
        j += 1;
    }
    proof {
        assert(s@.subrange(i as int, i + pl as int) =~= p@);
    }
    true
}

pub fn starts_with_str(s: &str, p: &str) -> (r: bool)
    ensures
        r == spec_starts_with(s@, p@),
{
    let sl = s.unicode_len();
    let pl = p.unicode_len();
    if pl > sl {
        return false;
    }
    match_at(s, p, 0)
}

pub fn ends_with_str(s: &str, p: &str) -> (r: bool)
    ensures
        r == spec_ends_with(s@, p@),
{
    let sl = s.unicode_len();
    let pl = p.unicode_len();
    if pl > sl {
        return false;
    }
    match_at(s, p, sl - pl)
}

/// First character position where `p` occurs in `s`, if any.
pub fn find_str(s: &str, p: &str) -> (r: Option<usize>)
    ensures
        match r {
            Some(i) => spec_matches_at(s@, p@, i as int) && forall|j: int|
                0 <= j < i ==> !spec_matches_at(s@, p@, j),
            None => forall|j: int| !spec_matches_at(s@, p@, j),
        },
{
    let sl = s.unicode_len();
    let pl = p.unicode_len();
    if pl > sl {
        return None;
    }
    let mut i: usize = 0;
    while sl - i >= pl
        invariant
            pl <= sl,
            sl == s@.len(),
            pl == p@.len(),
            i <= sl,
            forall|j: int| 0 <= j < i ==> !spec_matches_at(s@, p@, j),
        decreases sl - i,
    {
        if match_at(s, p, i) {
            return Some(i);
        }
        proof {
            if pl == 0 {
                assert(s@.subrange(i as int, i as int) =~= p@);
            }
        }
        i += 1;
    }
    proof {
        assert(forall|j: int| j + pl as int > sl ==> !spec_matches_at(s@, p@, j));
    }
    None
}

pub open spec fn spec_contains_str(s: Seq<char>, p: Seq<char>) -> bool {
    exists|i: int| spec_matches_at(s, p, i)
}

pub fn contains_str(s: &str, p: &str) -> (r: bool)
    ensures
        r == spec_contains_str(s@, p@),
{
    let found = find_str(s, p);
    match found {
        Some(i) => {
            proof {
                assert(spec_matches_at(s@, p@, i as int));
            }
            true
        },
        None => false,
    }
}

/// First position of character `c` in `s`, if any.
pub fn find_char(s: &str, c: char) -> (r: Option<usize>)
    ensures
        match r {
            Some(i) => i < s@.len() && s@[i as int] == c && forall|j: int|
                0 <= j < i ==> s@[j] != c,
            None => forall|j: int| 0 <= j < s@.len() ==> s@[j] != c,
        },
{
    let sl = s.unicode_len();
    let mut i: usize = 0;
    while i < sl
        invariant
            i <= sl,
            sl == s@.len(),
            forall|j: int| 0 <= j < i ==> s@[j] != c,
        decreases sl - i,
    {
        if s.get_char(i) == c {
            return Some(i);
        }
        i += 1;
    }
    None
}

pub open spec fn spec_has_char(s: Seq<char>, c: char) -> bool {
    exists|i: int| 0 <= i < s.len() && s[i] == c
}

pub fn contains_char(s: &str, c: char) -> (r: bool)
    ensures
        r == spec_has_char(s@, c),
{
    let found = find_char(s, c);
    match found {
        Some(i) => {
            proof {
                assert(s@[i as int] == c);
            }
            true
        },
        None => false,
    }
}

/// Last position of character `c` in `s`, if any.
pub fn rfind_char(s: &str, c: char) -> (r: Option<usize>)
    ensures
        match r {
            Some(i) => i < s@.len() && s@[i as int] == c && forall|j: int|
                i < j < s@.len() ==> s@[j] != c,
            None => forall|j: int| 0 <= j < s@.len() ==> s@[j] != c,
        },
{
    let sl = s.unicode_len();
    let mut i: usize = sl;
    while i > 0
        invariant
            i <= sl,
            sl == s@.len(),
            forall|j: int| i <= j < sl ==> s@[j] != c,
        decreases i,
    {
        i -= 1;
        if s.get_char(i) == c {
            return Some(i);
        }
    }
    None
}

/// First position of `c` in `s`, or `s.len()` when `c` does not occur.
pub open spec fn spec_first_pos(s: Seq<char>, c: char) -> int
    decreases s.len(),
{
    if s.len() == 0 {
        0
    } else if s[0] == c {
        0
    } else {
        1 + spec_first_pos(s.drop_first(), c)
    }
}

pub proof fn lemma_first_pos(s: Seq<char>, c: char)
    ensures
        0 <= spec_first_pos(s, c) <= s.len(),
        spec_first_pos(s, c) < s.len() ==> s[spec_first_pos(s, c)] == c,
        forall|j: int| 0 <= j < spec_first_pos(s, c) ==> s[j] != c,
    decreases s.len(),
{
    if s.len() > 0 && s[0] != c {
        lemma_first_pos(s.drop_first(), c);
        assert forall|j: int| 0 <= j < spec_first_pos(s, c) implies s[j] != c by {
            if j >= 1 {
                assert(s.drop_first()[j - 1] == s[j]);
            }
        }
    }
}

/// First position of `c` in `s`, or the length of `s` when absent.
pub fn first_pos(s: &str, c: char) -> (r: usize)
    ensures
        r as int == spec_first_pos(s@, c),
{
    proof {
        lemma_first_pos(s@, c);
    }
    let found = find_char(s, c);
    match found {
        Some(i) => {
            proof {
                let p = spec_first_pos(s@, c);
                if (i as int) < p {
                    assert(s@[i as int] != c);
                } else if p < i as int {
                    assert(s@[p] == c);
                }
            }
            i
        },
        None => {
            proof {
                let p = spec_first_pos(s@, c);
                if p < s@.len() {
                    assert(s@[p] == c);
                }
            }
            s.unicode_len()
        },
    }
}

/// Views of a sequence of owned strings.
pub open spec fn strs_view(v: Seq<String>) -> Seq<Seq<char>> {
    v.map_values(|x: String| x@)
}

/// First position where `p` occurs in `s`, or `-1` when it never does.
pub open spec fn spec_find_str(s: Seq<char>, p: Seq<char>) -> int
    decreases s.len(),
{
    if spec_matches_at(s, p, 0) {
        0
    } else if s.len() == 0 {
        -1
    } else {
        let r = spec_find_str(s.drop_first(), p);
        if r < 0 {
            -1
        } else {
            1 + r
        }
    }
}

pub proof fn lemma_find_str(s: Seq<char>, p: Seq<char>)
    ensures
        spec_find_str(s, p) >= 0 ==> spec_matches_at(s, p, spec_find_str(s, p)) && forall|j: int|
            0 <= j < spec_find_str(s, p) ==> !spec_matches_at(s, p, j),
        spec_find_str(s, p) < 0 ==> forall|j: int| !spec_matches_at(s, p, j),
    decreases s.len(),
{
    if !spec_matches_at(s, p, 0) && s.len() > 0 {
        lemma_find_str(s.drop_first(), p);
        assert forall|j: int| 1 <= j && spec_matches_at(s, p, j) implies spec_matches_at(
            s.drop_first(),
            p,
            j - 1,
        ) by {
            assert(s.drop_first().subrange(j - 1, j - 1 + p.len() as int) =~= s.subrange(
                j,
                j + p.len() as int,
            ));
        }
        assert forall|j: int| 0 <= j && spec_matches_at(s.drop_first(), p, j) implies
            spec_matches_at(s, p, j + 1) by {
            assert(s.subrange(j + 1, j + 1 + p.len() as int) =~= s.drop_first().subrange(
                j,
                j + p.len() as int,
            ));
        }
    }
}

/// First occurrence of `p` in `s` pinned to the recursive position spec.
pub fn find_sub(s: &str, p: &str) -> (r: Option<usize>)
    ensures
        match r {
            Some(i) => i as int == spec_find_str(s@, p@) && spec_matches_at(s@, p@, i as int),
            None => spec_find_str(s@, p@) < 0,
        },
{
    proof {
        lemma_find_str(s@, p@);
    }
    let found = find_str(s, p);
    match found {
        Some(i) => {
            proof {
                let f = spec_find_str(s@, p@);
                if f < 0 {
                    assert(!spec_matches_at(s@, p@, i as int));
                } else if f < i as int {
                    assert(!spec_matches_at(s@, p@, f));
                } else if (i as int) < f {
                    assert(!spec_matches_at(s@, p@, i as int));
                }
            }
            Some(i)
        },
        None => {
            proof {
                let f = spec_find_str(s@, p@);
                if f >= 0 {
                    assert(spec_matches_at(s@, p@, f));
                }
            }
            None
        },
    }
}

// ---------------------------------------------------------------------------
// greedy scanners
// ---------------------------------------------------------------------------

/// First position at or after `i` holding a non-whitespace character.
pub open spec fn spec_skip_spaces(s: Seq<char>, i: int) -> int
    decreases s.len() - i,
    when i <= s.len()
{
    if 0 <= i && i < s.len() && spec_is_space(s[i]) {
        spec_skip_spaces(s, i + 1)
    } else {
        i
    }
}

/// First position at or after `i` holding a non-word character.
pub open spec fn spec_skip_word(s: Seq<char>, i: int) -> int
    decreases s.len() - i,
    when i <= s.len()
{
    if 0 <= i && i < s.len() && spec_is_word_char(s[i]) {
        spec_skip_word(s, i + 1)
    } else {
        i
    }
}

pub fn skip_spaces(s: &str, i: usize) -> (r: usize)
    requires
        i as int <= s@.len(),
    ensures
        r as int == spec_skip_spaces(s@, i as int),
        i <= r,
        r as int <= s@.len(),
{
    let sl = s.unicode_len();
    let mut j: usize = i;
    while j < sl && is_space(s.get_char(j))
        invariant
            i <= j <= sl,
            sl == s@.len(),
            spec_skip_spaces(s@, i as int) == spec_skip_spaces(s@, j as int),
        decreases sl - j,
    {
        j += 1;
    }
    j
}

pub fn skip_word(s: &str, i: usize) -> (r: usize)
    requires
        i as int <= s@.len(),
    ensures
        r as int == spec_skip_word(s@, i as int),
        i <= r,
        r as int <= s@.len(),
{
    let sl = s.unicode_len();
    let mut j: usize = i;
    while j < sl && is_word_char(s.get_char(j))
        invariant
            i <= j <= sl,
            sl == s@.len(),
            spec_skip_word(s@, i as int) == spec_skip_word(s@, j as int),
        decreases sl - j,
    {
        j += 1;
    }
    j
}

// ---------------------------------------------------------------------------
// line splitting
// ---------------------------------------------------------------------------

/// `s` split at every newline; a trailing newline yields a final empty
/// segment, and the empty text yields one empty segment.
pub open spec fn spec_split_newline(s: Seq<char>) -> Seq<Seq<char>>
    decreases s.len(),
{
    let p0 = spec_first_pos(s, '\n');
    let p = if p0 < 0 {
        0
    } else {
        p0
    };
    if p >= s.len() {
        seq![s]
    } else {
        seq![s.take(p)] + spec_split_newline(s.skip(p + 1))
    }
}

/// The lines of `s`: as `spec_split_newline`, except that a trailing newline
/// does not open a final empty line and the empty text has no lines.
pub open spec fn spec_lines(s: Seq<char>) -> Seq<Seq<char>> {
    if s.len() == 0 {
        Seq::empty()
    } else if s.last() == '\n' {
        spec_split_newline(s).drop_last()
    } else {
        spec_split_newline(s)
    }
}

pub open spec fn sum_lens(ls: Seq<Seq<char>>) -> int
    decreases ls.len(),
{
    if ls.len() == 0 {
        0
    } else {
        sum_lens(ls.drop_last()) + ls.last().len()
    }
}

pub proof fn lemma_sum_lens_nonneg(ls: Seq<Seq<char>>)
    ensures
        sum_lens(ls) >= 0,
    decreases ls.len(),
{
    if ls.len() > 0 {
        lemma_sum_lens_nonneg(ls.drop_last());
    }
}

pub proof fn lemma_sum_lens_take(ls: Seq<Seq<char>>, i: int)
    requires
        0 <= i <= ls.len(),
    ensures
        sum_lens(ls.take(i)) <= sum_lens(ls),
    decreases ls.len() - i,
{
    if i < ls.len() {
        assert(ls.take(i + 1).drop_last() =~= ls.take(i));
        assert(ls.take(i + 1).last() == ls[i]);
        lemma_sum_lens_take(ls, i + 1);
    } else {
        assert(ls.take(i) =~= ls);
    }
}

pub proof fn lemma_split_newline_sum(s: Seq<char>)
    ensures
        sum_lens(spec_split_newline(s)) <= s.len(),
        spec_split_newline(s).len() >= 1,
    decreases s.len(),
{
    lemma_first_pos(s, '\n');
    let p = spec_first_pos(s, '\n');
    if p < s.len() {
        lemma_split_newline_sum(s.skip(p + 1));
        let rest = spec_split_newline(s.skip(p + 1));
        assert(seq![s.take(p)] + rest == spec_split_newline(s));
        lemma_sum_lens_add(seq![s.take(p)], rest);
        assert(sum_lens(seq![s.take(p)]) == p) by {
            assert(seq![s.take(p)].drop_last() =~= Seq::<Seq<char>>::empty());
            assert(sum_lens(Seq::<Seq<char>>::empty()) == 0);
        }
    } else {
        assert(spec_split_newline(s) == seq![s]);
        assert(seq![s].drop_last() =~= Seq::<Seq<char>>::empty());
        assert(sum_lens(Seq::<Seq<char>>::empty()) == 0);
        assert(sum_lens(seq![s]) == s.len());
    }
}

pub proof fn lemma_sum_lens_add(a: Seq<Seq<char>>, b: Seq<Seq<char>>)
    ensures
        sum_lens(a + b) == sum_lens(a) + sum_lens(b),
    decreases b.len(),
{
    if b.len() == 0 {
        assert(a + b =~= a);
    } else {
        assert((a + b).drop_last() =~= a + b.drop_last());
        assert((a + b).last() == b.last());
        lemma_sum_lens_add(a, b.drop_last());
    }
}

/// Total length of the lines of `s` never exceeds the length of `s`.
pub proof fn lemma_lines_sum(s: Seq<char>)
    ensures
        sum_lens(spec_lines(s)) <= s.len(),
{
    lemma_split_newline_sum(s);
    if s.len() > 0 && s.last() == '\n' {
        let sp = spec_split_newline(s);
        assert(sum_lens(sp) == sum_lens(sp.drop_last()) + sp.last().len());
    }
}

pub(crate) proof fn lemma_count_no_newline(s: Seq<char>)
    requires
        forall|j: int| 0 <= j < s.len() ==> s[j] != '\n',
    ensures
        spec_newline_count(s) == 0,
    decreases s.len(),
{
    if s.len() > 0 {
        lemma_count_no_newline(s.drop_last());
    }
}

proof fn lemma_count_skip_first_newline(s: Seq<char>, p: int)
    requires
        0 <= p < s.len(),
        s[p] == '\n',
        forall|j: int| 0 <= j < p ==> s[j] != '\n',
    ensures
        spec_newline_count(s) == 1 + spec_newline_count(s.skip(p + 1)),
    decreases p,
{
    lemma_newline_count_first(s);
    if p == 0 {
        assert(s.drop_first() =~= s.skip(1));
    } else {
        assert(s.drop_first()[p - 1] == s[p]);
        assert(forall|j: int| 0 <= j < p - 1 ==> s.drop_first()[j] == s[j + 1]);
        lemma_count_skip_first_newline(s.drop_first(), p - 1);
        assert(s.drop_first().skip(p) =~= s.skip(p + 1));
    }
}

proof fn lemma_split_len(s: Seq<char>)
    ensures
        spec_split_newline(s).len() == spec_newline_count(s) + 1,
    decreases s.len(),
{
    lemma_first_pos(s, '\n');
    let p = spec_first_pos(s, '\n');
    if p >= s.len() {
        lemma_count_no_newline(s);
    } else {
        lemma_split_len(s.skip(p + 1));
        lemma_count_skip_first_newline(s, p);
    }
}

proof fn lemma_first_pos_concat(u: Seq<char>, w: Seq<char>, c: char)
    requires
        spec_first_pos(u, c) < u.len(),
    ensures
        spec_first_pos(u + w, c) == spec_first_pos(u, c),
{
    lemma_first_pos(u, c);
    lemma_first_pos(u + w, c);
    let p = spec_first_pos(u, c);
    let q = spec_first_pos(u + w, c);
    assert((u + w)[p] == u[p]);
    if q < p {
        assert(u[q] == (u + w)[q]);
    }
}

/// Splitting distributes at a terminated prefix: the lines of `u` (whose
/// final empty segment is dropped) are followed by the lines of `w`.
proof fn lemma_split_after_terminated(u: Seq<char>, w: Seq<char>)
    requires
        u.len() > 0,
        u.last() == '\n',
    ensures
        spec_split_newline(u + w) == spec_split_newline(u).drop_last() + spec_split_newline(w),
    decreases u.len(),
{
    lemma_first_pos(u, '\n');
    let p = spec_first_pos(u, '\n');
    if p >= u.len() {
        assert(u[u.len() - 1] == '\n');
        assert(false);
    }
    lemma_first_pos_concat(u, w, '\n');
    assert((u + w).take(p) =~= u.take(p));
    if p + 1 == u.len() {
        assert(u.skip(p + 1) =~= Seq::<char>::empty());
        assert((u + w).skip(p + 1) =~= w);
        let e = Seq::<char>::empty();
        lemma_first_pos(e, '\n');
        assert(spec_split_newline(e) =~= seq![e]);
        assert(spec_split_newline(u) == seq![u.take(p)] + spec_split_newline(e));
        assert((seq![u.take(p)] + seq![e]).drop_last() =~= seq![u.take(p)]);
        assert(spec_split_newline(u + w) =~= seq![u.take(p)] + spec_split_newline(w));
        assert(spec_split_newline(u).drop_last() + spec_split_newline(w) =~= seq![u.take(p)]
            + spec_split_newline(w));
    } else {
        let u2 = u.skip(p + 1);
        assert(u2.len() > 0);
        assert(u2.last() == u.last());
        lemma_split_after_terminated(u2, w);
        lemma_split_newline_sum(u2);
        assert((u + w).skip(p + 1) =~= u2 + w);
        assert(spec_split_newline(u) == seq![u.take(p)] + spec_split_newline(u2));
        assert((seq![u.take(p)] + spec_split_newline(u2)).drop_last() =~= seq![u.take(p)]
            + spec_split_newline(u2).drop_last());
        assert(spec_split_newline(u + w) =~= seq![u.take(p)] + (spec_split_newline(
            u2,
        ).drop_last() + spec_split_newline(w)));
        assert(seq![u.take(p)] + (spec_split_newline(u2).drop_last() + spec_split_newline(w))
            =~= (seq![u.take(p)] + spec_split_newline(u2).drop_last()) + spec_split_newline(w));
    }
}

/// A newline-free segment closed by a newline splits off as one line.
proof fn lemma_split_line_concat(body: Seq<char>, w: Seq<char>)
    requires
        !spec_has_char(body, '\n'),
    ensures
        spec_split_newline(body + seq!['\n'] + w) == seq![body] + spec_split_newline(w),
{
    let s = body + seq!['\n'] + w;
    lemma_first_pos(s, '\n');
    let p = spec_first_pos(s, '\n');
    assert(s[body.len() as int] == '\n');
    if p < body.len() {
        assert(s[p] == body[p]);
        assert(spec_has_char(body, '\n'));
    }
    assert(p == body.len());
    assert(s.take(p) =~= body);
    assert(s.skip(p + 1) =~= w);
    assert(spec_split_newline(s) =~= seq![body] + spec_split_newline(w));
}

/// Up to and including its `n`-th newline, a text holds exactly `n`
/// newlines.
proof fn lemma_count_take_end(s: Seq<char>, n: nat)
    requires
        1 <= n <= spec_newline_count(s),
    ensures
        spec_newline_count(s.take(spec_line_end(s, n) + 1)) == n,
    decreases s.len(),
{
    lemma_newline_count_first(s);
    if s[0] == '\n' {
        if n == 1 {
            assert(s.take(1).drop_last() =~= Seq::<char>::empty());
            assert(spec_newline_count(Seq::<char>::empty()) == 0);
            assert(s.take(1).last() == '\n');
        } else {
            lemma_count_take_end(s.drop_first(), (n - 1) as nat);
            let e2 = spec_line_end(s.drop_first(), (n - 1) as nat);
            lemma_line_end_at_newline(s.drop_first(), (n - 1) as nat);
            let x = seq![s[0]] + s.drop_first().take(e2 + 1);
            assert(s.take(spec_line_end(s, n) + 1) =~= x);
            lemma_newline_count_first(x);
            assert(x.drop_first() =~= s.drop_first().take(e2 + 1));
        }
    } else {
        lemma_count_take_end(s.drop_first(), n);
        let e2 = spec_line_end(s.drop_first(), n);
        lemma_line_end_at_newline(s.drop_first(), n);
        let x = seq![s[0]] + s.drop_first().take(e2 + 1);
        assert(s.take(spec_line_end(s, n) + 1) =~= x);
        lemma_newline_count_first(x);
        assert(x.drop_first() =~= s.drop_first().take(e2 + 1));
    }
}

pub(crate) proof fn lemma_count_concat(x: Seq<char>, y: Seq<char>)
    ensures
        spec_newline_count(x + y) == spec_newline_count(x) + spec_newline_count(y),
    decreases y.len(),
{
    if y.len() == 0 {
        assert(x + y =~= x);
    } else {
        assert((x + y).drop_last() =~= x + y.drop_last());
        assert((x + y).last() == y.last());
        lemma_count_concat(x, y.drop_last());
    }
}

proof fn lemma_count_take_mono(s: Seq<char>, i: int, j: int)
    requires
        0 <= i <= j <= s.len(),
    ensures
        spec_newline_count(s.take(i)) <= spec_newline_count(s.take(j)),
    decreases j - i,
{
    if i < j {
        assert(s.take(i + 1).drop_last() =~= s.take(i));
        lemma_count_take_mono(s, i + 1, j);
    }
}

/// A text has at least as many lines as newline characters.
pub proof fn lemma_lines_len(s: Seq<char>)
    ensures
        spec_lines(s).len() >= spec_newline_count(s),
{
    lemma_split_len(s);
    if s.len() == 0 {
        assert(spec_newline_count(s) == 0);
    }
}

/// Line-level law of the insertion splice: when a newline-free call text,
/// closed by a newline, lands at the start of line `n + 1`, the lines of
/// the new text are the original's first `n` lines, then the call line,
/// then the remaining original lines — every original line retained in
/// order.
pub proof fn lemma_insert_line_structure(text: Seq<char>, n: int, body: Seq<char>)
    requires
        1 <= n <= spec_newline_count(text),
        !spec_has_char(body, '\n'),
    ensures
        ({
            let p = spec_line_start(text, n + 1);
            spec_lines(text.take(p) + body + seq!['\n'] + text.skip(p)) == spec_lines(
                text,
            ).take(n) + seq![body] + spec_lines(text).skip(n)
        }),
{
    let p = spec_line_start(text, n + 1);
    lemma_line_end_at_newline(text, n as nat);
    let u = text.take(p);
    let w = text.skip(p);
    assert(u.len() == p);
    assert(u.last() == text[p - 1]);
    assert(u.last() == '\n');
    lemma_split_after_terminated(u, w);
    assert(u + w =~= text);
    let a_part = spec_split_newline(u).drop_last();
    let b_part = spec_split_newline(w);
    assert(spec_split_newline(text) == a_part + b_part);
    lemma_split_len(u);
    lemma_count_take_end(text, n as nat);
    assert(spec_newline_count(u) == n);
    assert(a_part.len() == n);
    lemma_split_newline_sum(w);
    let ntext = u + body + seq!['\n'] + w;
    let mid = body + seq!['\n'] + w;
    assert(ntext =~= u + mid);
    lemma_split_after_terminated(u, mid);
    lemma_split_line_concat(body, w);
    assert(body + seq!['\n'] + w =~= mid);
    assert(spec_split_newline(ntext) == a_part + (seq![body] + b_part));
    // both texts end alike, so the lines adjustment is the same on each side
    assert(text.len() > 0);
    assert(ntext.len() > 0);
    if w.len() > 0 {
        assert(ntext.last() == w.last());
        assert(text.last() == w.last());
    } else {
        assert(text.last() == text[p - 1]);
        assert(ntext.last() == '\n');
    }
    if text.last() == '\n' {
        assert(spec_lines(text) =~= a_part + b_part.drop_last());
        assert(spec_lines(ntext) =~= a_part + seq![body] + b_part.drop_last());
        assert(spec_lines(text).take(n) =~= a_part);
        assert(spec_lines(text).skip(n) =~= b_part.drop_last());
        assert(spec_lines(ntext) =~= spec_lines(text).take(n) + seq![body] + spec_lines(
            text,
        ).skip(n));
    } else {
        assert(spec_lines(text) =~= a_part + b_part);
        assert(spec_lines(ntext) =~= a_part + seq![body] + b_part);
        assert(spec_lines(text).take(n) =~= a_part);
        assert(spec_lines(text).skip(n) =~= b_part);
        assert(spec_lines(ntext) =~= spec_lines(text).take(n) + seq![body] + spec_lines(
            text,
        ).skip(n));
    }
}

/// Line-level law of the range splice: removing lines `a` through `b` and
/// inserting the newline-free call text, closed by a newline, at the
/// range's start yields a file whose lines are the original's first
/// `a - 1` lines, then the call line, then the original lines after `b`,
/// in order.
pub proof fn lemma_slice_line_structure(text: Seq<char>, a: int, b: int, body: Seq<char>)
    requires
        1 <= a <= b <= spec_newline_count(text),
        !spec_has_char(body, '\n'),
    ensures
        ({
            let p1 = spec_line_start(text, a);
            let p2 = spec_line_start(text, b + 1);
            spec_lines(text.take(p1) + body + seq!['\n'] + text.skip(p2)) == spec_lines(
                text,
            ).take(a - 1) + seq![body] + spec_lines(text).skip(b)
        }),
{
    let p1 = spec_line_start(text, a);
    let p2 = spec_line_start(text, b + 1);
    lemma_line_end_at_newline(text, b as nat);
    lemma_count_take_end(text, b as nat);
    let w = text.skip(p2);
    lemma_split_newline_sum(w);
    let b_part = spec_split_newline(w);
    let ntext = text.take(p1) + body + seq!['\n'] + w;
    if a == 1 {
        // the removed range opens the file: no retained prefix lines
        assert(p1 == 0);
        let seg = text.take(p2);
        assert(seg.len() > 0);
        assert(seg.last() == text[p2 - 1]);
        lemma_split_after_terminated(seg, w);
        assert(seg + w =~= text);
        lemma_split_len(seg);
        let m_part = spec_split_newline(seg).drop_last();
        assert(m_part.len() == b);
        assert(spec_split_newline(text) == m_part + b_part);
        lemma_split_line_concat(body, w);
        assert(ntext =~= body + seq!['\n'] + w);
        assert(spec_split_newline(ntext) == seq![body] + b_part);
        if w.len() > 0 {
            assert(ntext.last() == w.last());
            assert(text.last() == w.last());
        } else {
            assert(ntext.last() == '\n');
            assert(text.last() == text[p2 - 1]);
        }
        let empty_part = Seq::<Seq<char>>::empty();
        assert(spec_split_newline(text) =~= empty_part + (m_part + b_part));
        assert(spec_split_newline(ntext) =~= empty_part + (seq![body] + b_part));
        lemma_slice_lines_adjust(text, ntext, empty_part, m_part, b_part, body, a, b);
    } else {
        lemma_line_end_at_newline(text, (a - 1) as nat);
        lemma_count_take_end(text, (a - 1) as nat);
        let u = text.take(p1);
        assert(u.len() > 0);
        assert(u.last() == text[p1 - 1]);
        // the two cut points are ordered: the (a-1)-th newline precedes the b-th
        if p1 > p2 {
            lemma_count_take_mono(text, p2, p1);
        }
        assert(p1 <= p2);
        let seg = text.subrange(p1, p2);
        assert(seg.len() > 0);
        assert(seg.last() == text[p2 - 1]);
        let rest = text.skip(p1);
        assert(rest =~= seg + w);
        lemma_split_after_terminated(u, rest);
        assert(u + rest =~= text);
        lemma_split_after_terminated(seg, w);
        lemma_split_len(u);
        lemma_split_len(seg);
        assert(u + seg =~= text.take(p2));
        lemma_count_concat(u, seg);
        let a_part = spec_split_newline(u).drop_last();
        let m_part = spec_split_newline(seg).drop_last();
        assert(a_part.len() == a - 1);
        assert(m_part.len() == b - (a - 1));
        assert(spec_split_newline(text) == a_part + (m_part + b_part));
        lemma_split_after_terminated(u, body + seq!['\n'] + w);
        lemma_split_line_concat(body, w);
        assert(ntext =~= u + (body + seq!['\n'] + w));
        assert(spec_split_newline(ntext) == a_part + (seq![body] + b_part));
        if w.len() > 0 {
            assert(ntext.last() == w.last());
            assert(text.last() == w.last());
        } else {
            assert(ntext.last() == '\n');
            assert(text.last() == text[p2 - 1]);
        }
        lemma_slice_lines_adjust(text, ntext, a_part, m_part, b_part, body, a, b);
    }
}

/// The shared tail of the slice law: turns the split decompositions into
/// the stated line equation, handling the final-line adjustment.
proof fn lemma_slice_lines_adjust(
    text: Seq<char>,
    ntext: Seq<char>,
    a_part: Seq<Seq<char>>,
    m_part: Seq<Seq<char>>,
    b_part: Seq<Seq<char>>,
    body: Seq<char>,
    a: int,
    b: int,
)
    requires
        text.len() > 0,
        ntext.len() > 0,
        ntext.last() == text.last() || (ntext.last() == '\n' && text.last() == '\n'),
        a_part.len() == a - 1,
        a_part.len() + m_part.len() == b,
        b_part.len() >= 1,
        spec_split_newline(text) == a_part + (m_part + b_part),
        spec_split_newline(ntext) == a_part + (seq![body] + b_part),
    ensures
        spec_lines(ntext) == spec_lines(text).take(a - 1) + seq![body] + spec_lines(text).skip(
            b,
        ),
{
    if text.last() == '\n' {
        assert(spec_lines(text) =~= a_part + m_part + b_part.drop_last());
        assert(spec_lines(ntext) =~= a_part + seq![body] + b_part.drop_last());
        assert(spec_lines(text).take(a - 1) =~= a_part);
        assert(spec_lines(text).skip(b) =~= b_part.drop_last());
        assert(spec_lines(ntext) =~= spec_lines(text).take(a - 1) + seq![body] + spec_lines(
            text,
        ).skip(b));
    } else {
        assert(spec_lines(text) =~= a_part + m_part + b_part);
        assert(spec_lines(ntext) =~= a_part + seq![body] + b_part);
        assert(spec_lines(text).take(a - 1) =~= a_part);
        assert(spec_lines(text).skip(b) =~= b_part);
        assert(spec_lines(ntext) =~= spec_lines(text).take(a - 1) + seq![body] + spec_lines(
            text,
        ).skip(b));
    }
}

/// Splits `txt` into its lines, one owned string per line.
pub fn split_lines(txt: &str) -> (r: Vec<String>)
    ensures
        strs_view(r@) == spec_lines(txt@),
{
    let sl = txt.unicode_len();
    let mut out: Vec<String> = Vec::new();
    let mut off: usize = 0;
    proof {
        assert(strs_view(out@) =~= Seq::<Seq<char>>::empty());
        assert(txt@.skip(0) =~= txt@);
        assert(Seq::<Seq<char>>::empty() + spec_split_newline(txt@) =~= spec_split_newline(txt@));
    }
    while off < sl
        invariant
            off <= sl,
            sl == txt@.len(),
            off > 0 ==> txt@[off - 1] == '\n',
            spec_split_newline(txt@) == strs_view(out@) + spec_split_newline(
                txt@.skip(off as int),
            ),
        decreases sl - off,
    {
        let sub = txt.substring_char(off, sl);
        proof {
            assert(sub@ =~= txt@.skip(off as int));
            lemma_first_pos(sub@, '\n');
        }
        let p = first_pos(sub, '\n');
        let subl = sub.unicode_len();
        if p >= subl {
            // final line without a terminating newline
            out.push(sub.to_owned());
            proof {
                assert(spec_split_newline(txt@.skip(off as int)) == seq![txt@.skip(off as int)]);
                assert(strs_view(out@) =~= (strs_view(out@.drop_last())).push(
                    txt@.skip(off as int),
                ));
                assert(strs_view(out@) =~= spec_split_newline(txt@));
                assert(txt@.last() == txt@.skip(off as int).last());
                assert(txt@.last() != '\n');
            }
            return out;
        }
        let line = sub.substring_char(0, p).to_owned();
        proof {
            let tail = txt@.skip(off as int);
            assert(spec_split_newline(tail) == seq![tail.take(p as int)] + spec_split_newline(
                tail.skip(p + 1),
            ));
            assert(tail.skip(p + 1) =~= txt@.skip(off + p + 1));
            assert(line@ =~= tail.take(p as int));
            assert(strs_view(out@.push(line)) =~= strs_view(out@).push(line@));
            assert((strs_view(out@) + (seq![tail.take(p as int)] + spec_split_newline(
                txt@.skip(off + p + 1),
            ))) =~= (strs_view(out@).push(line@)) + spec_split_newline(txt@.skip(off + p + 1)));
        }
        out.push(line);
        off = off + p + 1;
        proof {
            assert(txt@[off - 1] == '\n');
        }
    }
    proof {
        if sl == 0 {
            assert(spec_lines(txt@) =~= Seq::<Seq<char>>::empty());
            assert(strs_view(out@) =~= spec_lines(txt@));
        } else {
            assert(txt@.last() == '\n');
            let e = txt@.skip(sl as int);
            assert(e =~= Seq::<char>::empty());
            lemma_first_pos(e, '\n');
            assert(spec_split_newline(e) == seq![e]);
            assert(spec_split_newline(txt@) == strs_view(out@) + seq![e]);
            assert(spec_split_newline(txt@).drop_last() =~= strs_view(out@));
        }
    }
    out
}

// ---------------------------------------------------------------------------
// trimming
// ---------------------------------------------------------------------------

pub open spec fn spec_trim_start(s: Seq<char>) -> Seq<char>
    decreases s.len(),
{
    if s.len() > 0 && spec_is_space(s[0]) {
        spec_trim_start(s.drop_first())
    } else {
        s
    }
}

pub open spec fn spec_trim_end(s: Seq<char>) -> Seq<char>
    decreases s.len(),
{
    if s.len() > 0 && spec_is_space(s.last()) {
        spec_trim_end(s.drop_last())
    } else {
        s
    }
}

pub open spec fn spec_trim(s: Seq<char>) -> Seq<char> {
    spec_trim_end(spec_trim_start(s))
}

pub proof fn lemma_trim_start_len(s: Seq<char>)
    ensures
        spec_trim_start(s).len() <= s.len(),
    decreases s.len(),
{
    if s.len() > 0 && spec_is_space(s[0]) {
        lemma_trim_start_len(s.drop_first());
    }
}

pub proof fn lemma_trim_end_len(s: Seq<char>)
    ensures
        spec_trim_end(s).len() <= s.len(),
    decreases s.len(),
{
    if s.len() > 0 && spec_is_space(s.last()) {
        lemma_trim_end_len(s.drop_last());
    }
}

/// Trimming never lengthens a line.
pub proof fn lemma_trim_len(s: Seq<char>)
    ensures
        spec_trim(s).len() <= s.len(),
{
    lemma_trim_start_len(s);
    lemma_trim_end_len(spec_trim_start(s));
}

/// `s` with leading and trailing whitespace characters removed.
pub fn trim_str<'a>(s: &'a str) -> (r: &'a str)
    ensures
        r@ == spec_trim(s@),
{
    let sl = s.unicode_len();
    proof {
        assert(s@.skip(0) =~= s@);
    }
    let mut i: usize = 0;
    while i < sl && is_space(s.get_char(i))
        invariant
            i <= sl,
            sl == s@.len(),
            spec_trim_start(s@) == spec_trim_start(s@.skip(i as int)),
        decreases sl - i,
    {
        proof {
            assert(s@.skip(i as int).drop_first() =~= s@.skip(i + 1));
        }
        i += 1;
    }
    proof {
        assert(spec_trim_start(s@) == s@.skip(i as int));
    }
    let mut j: usize = sl;
    while j > i && is_space(s.get_char(j - 1))
        invariant
            i <= j <= sl,
            sl == s@.len(),
            spec_trim_start(s@) == s@.skip(i as int),
            spec_trim_end(s@.skip(i as int)) == spec_trim_end(s@.subrange(i as int, j as int)),
        decreases j,
    {
        proof {
            assert(s@.subrange(i as int, j as int).drop_last() =~= s@.subrange(
                i as int,
                j - 1,
            ));
        }
        j -= 1;
    }
    proof {
        assert(spec_trim_end(s@.subrange(i as int, j as int)) == s@.subrange(i as int, j as int));
    }
    s.substring_char(i, j)
}

// ---------------------------------------------------------------------------
// the line / offset coordinate model
// ---------------------------------------------------------------------------

/// Number of `'\n'` characters in `s`.
pub open spec fn spec_newline_count(s: Seq<char>) -> nat
    decreases s.len(),
{
    if s.len() == 0 {
        0
    } else {
        spec_newline_count(s.drop_last()) + if s.last() == '\n' {
            1nat
        } else {
            0nat
        }
    }
}

/// Character position just past the text of (1-based) line `n`: the position
/// of the `n`-th newline, or the length of `s` when `s` has fewer than `n`
/// newlines (the final, unterminated line).
pub open spec fn spec_line_end(s: Seq<char>, n: nat) -> int
    decreases s.len(),
{
    if s.len() == 0 {
        0
    } else if s[0] == '\n' {
        if n <= 1 {
            0
        } else {
            1 + spec_line_end(s.drop_first(), (n - 1) as nat)
        }
    } else {
        1 + spec_line_end(s.drop_first(), n)
    }
}

pub proof fn lemma_line_end_bounds(s: Seq<char>, n: nat)
    ensures
        0 <= spec_line_end(s, n) <= s.len(),
    decreases s.len(),
{
    if s.len() > 0 {
        if s[0] == '\n' {
            if n > 1 {
                lemma_line_end_bounds(s.drop_first(), (n - 1) as nat);
            }
        } else {
            lemma_line_end_bounds(s.drop_first(), n);
        }
    }
}

/// Number of lines under the split model: one more than the newline count, so
/// text ending in a newline has a final empty line.
pub open spec fn spec_split_line_count(s: Seq<char>) -> nat {
    spec_newline_count(s) + 1
}

pub proof fn lemma_newline_count_first(s: Seq<char>)
    requires
        s.len() > 0,
    ensures
        spec_newline_count(s) == spec_newline_count(s.drop_first()) + if s[0] == '\n' {
            1int
        } else {
            0int
        },
    decreases s.len(),
{
    if s.len() == 1 {
        assert(s.drop_first() =~= Seq::<char>::empty());
        assert(spec_newline_count(Seq::<char>::empty()) == 0);
        assert(s.drop_last() =~= Seq::<char>::empty());
        assert(s.last() == s[0]);
    } else {
        lemma_newline_count_first(s.drop_last());
        assert(s.drop_last().drop_first() =~= s.drop_first().drop_last());
        assert(s.drop_first().last() == s.last());
        assert(s.drop_last()[0] == s[0]);
        assert(spec_newline_count(s) == spec_newline_count(s.drop_last()) + if s.last() == '\n' {
            1int
        } else {
            0int
        });
        assert(spec_newline_count(s.drop_first()) == spec_newline_count(s.drop_first().drop_last())
            + if s.drop_first().last() == '\n' {
            1int
        } else {
            0int
        });
    }
}

/// Within the text, the end of a line that a newline terminates is that
/// newline itself.
pub proof fn lemma_line_end_at_newline(s: Seq<char>, n: nat)
    requires
        1 <= n <= spec_newline_count(s),
    ensures
        0 <= spec_line_end(s, n) < s.len(),
        s[spec_line_end(s, n)] == '\n',
    decreases s.len(),
{
    lemma_newline_count_first(s);
    if s[0] == '\n' {
        if n >= 2 {
            lemma_line_end_at_newline(s.drop_first(), (n - 1) as nat);
            assert(s[1 + spec_line_end(s.drop_first(), (n - 1) as nat)] == s.drop_first()[
                spec_line_end(s.drop_first(), (n - 1) as nat)]);
        }
    } else {
        lemma_line_end_at_newline(s.drop_first(), n);
        assert(s[1 + spec_line_end(s.drop_first(), n)] == s.drop_first()[spec_line_end(
            s.drop_first(),
            n,
        )]);
    }
}

/// Number of newline characters in `txt`.
pub fn count_newlines(txt: &str) -> (r: usize)
    ensures
        r as nat == spec_newline_count(txt@),
        r as nat <= txt@.len(),
{
    let sl = txt.unicode_len();
    let mut count: usize = 0;
    let mut i: usize = 0;
    proof {
        assert(txt@.take(0) =~= Seq::<char>::empty());
    }
    while i < sl
        invariant
            i <= sl,
            sl == txt@.len(),
            count <= i,
            count as nat == spec_newline_count(txt@.take(i as int)),
        decreases sl - i,
    {
        let c = txt.get_char(i);
        proof {
            assert(txt@.take(i + 1).drop_last() =~= txt@.take(i as int));
            assert(txt@.take(i + 1).last() == txt@[i as int]);
        }
        if c == '\n' {
            count += 1;
        }
        i += 1;
    }
    proof {
        assert(txt@.take(sl as int) =~= txt@);
    }
    count
}

/// Character offset of the first character of (1-based) line `n`: the sum of
/// the lengths of all preceding lines plus one newline character per line.
pub open spec fn spec_line_start(s: Seq<char>, n: int) -> int {
    if n <= 1 {
        0
    } else {
        spec_line_end(s, (n - 1) as nat) + 1
    }
}

/// Character offset of the first character of (1-based) line `index` in
/// `txt`: the sum of the lengths of all preceding lines plus one newline
/// character per line.
pub fn get_index_of_line(txt: &str, index: usize) -> (r: usize)
    requires
        1 <= index,
        index as nat <= spec_split_line_count(txt@),
    ensures
        r as int == spec_line_start(txt@, index as int),
        r as int <= txt@.len(),
{
    if index == 1 {
        return 0;
    }
    proof {
        lemma_line_end_at_newline(txt@, (index - 1) as nat);
    }
    let sl = txt.unicode_len();
    proof {
        assert(txt@.skip(0) =~= txt@);
    }
    let mut i: usize = 0;
    let mut rem: usize = index - 1;
    while i < sl
        invariant
            i <= sl,
            sl == txt@.len(),
            2 <= index,
            1 <= rem <= index - 1,
            spec_line_end(txt@, (index - 1) as nat) < txt@.len(),
            spec_line_end(txt@, (index - 1) as nat) == i + spec_line_end(
                txt@.skip(i as int),
                rem as nat,
            ),
        decreases sl - i,
    {
        let c = txt.get_char(i);
        proof {
            assert(txt@.skip(i as int)[0] == txt@[i as int]);
            assert(txt@.skip(i as int).drop_first() =~= txt@.skip(i + 1));
            lemma_line_end_bounds(txt@.skip(i + 1), rem as nat);
            lemma_line_end_bounds(txt@.skip(i + 1), (rem - 1) as nat);
        }
        if c == '\n' {
            if rem == 1 {
                return i + 1;
            }
            rem -= 1;
        }
        i += 1;
    }
    proof {
        assert(txt@.skip(sl as int) =~= Seq::<char>::empty());
        assert(false);
    }
    0
}

// ---------------------------------------------------------------------------
// string-aware character counting
// ---------------------------------------------------------------------------

/// One step of the quote-and-escape scanner: counts occurrences of `pat` in
/// `s` that lie outside single- or double-quoted regions, starting from the
/// given scanner state.  A backslash makes the next character inert.
pub open spec fn spec_count_outside_from(
    s: Seq<char>,
    pat: char,
    in_string: bool,
    escaped: bool,
) -> nat
    decreases s.len(),
{
    if s.len() == 0 {
        0
    } else {
        let c = s[0];
        let rest = s.drop_first();
        if escaped {
            spec_count_outside_from(rest, pat, in_string, false)
        } else if c == '\\' {
            spec_count_outside_from(rest, pat, in_string, true)
        } else {
            let hit: nat = if c == pat && !in_string {
                1nat
            } else {
                0nat
            };
            let next_in = if c == '"' || c == '\'' {
                !in_string
            } else {
                in_string
            };
            hit + spec_count_outside_from(rest, pat, next_in, false)
        }
    }
}

pub open spec fn spec_count_outside_strings(s: Seq<char>, pat: char) -> nat {
    spec_count_outside_from(s, pat, false, false)
}

proof fn lemma_in_string_skips(t: Seq<char>, pat: char, rest: Seq<char>)
    requires
        forall|i: int| 0 <= i < t.len() ==> t[i] != '"' && t[i] != '\'' && t[i] != '\\',
    ensures
        spec_count_outside_from(t + rest, pat, true, false) == spec_count_outside_from(
            rest,
            pat,
            true,
            false,
        ),
    decreases t.len(),
{
    if t.len() > 0 {
        assert((t + rest)[0] == t[0]);
        assert((t + rest).drop_first() =~= t.drop_first() + rest);
        assert(forall|i: int|
            0 <= i < t.drop_first().len() ==> t.drop_first()[i] == t[i + 1]);
        lemma_in_string_skips(t.drop_first(), pat, rest);
    } else {
        assert(t + rest =~= rest);
    }
}

/// Brace counting ignores quoted strings: a double-quoted literal, quotes
/// included, contributes nothing to the count of any character other than
/// the quote itself.
pub proof fn lemma_quoted_literal_counts_nothing(t: Seq<char>, pat: char, rest: Seq<char>)
    requires
        pat != '"',
        forall|i: int| 0 <= i < t.len() ==> t[i] != '"' && t[i] != '\'' && t[i] != '\\',
    ensures
        spec_count_outside_from(seq!['"'] + t + seq!['"'] + rest, pat, false, false)
            == spec_count_outside_from(rest, pat, false, false),
{
    let s = seq!['"'] + t + seq!['"'] + rest;
    assert(s[0] == '"');
    assert(s.drop_first() =~= t + (seq!['"'] + rest));
    lemma_in_string_skips(t, pat, seq!['"'] + rest);
    assert((seq!['"'] + rest)[0] == '"');
    assert((seq!['"'] + rest).drop_first() =~= rest);
}

/// Counts the occurrences of `pat` in `txt` that are not inside a quoted
/// string literal; backslash-escaped characters never count and quotes after
/// a backslash do not open or close a string.
pub fn count_occurences_not_in_string(txt: &str, pat: char) -> (r: usize)
    ensures
        r as nat == spec_count_outside_strings(txt@, pat),
        r as nat <= txt@.len(),
{
    let sl = txt.unicode_len();
    proof {
        assert(txt@.skip(0) =~= txt@);
    }
    let mut count: usize = 0;
    let mut in_string: bool = false;
    let mut escaped: bool = false;
    let mut i: usize = 0;
    while i < sl
        invariant
            i <= sl,
            sl == txt@.len(),
            count <= i,
            spec_count_outside_strings(txt@, pat) == count + spec_count_outside_from(
                txt@.skip(i as int),
                pat,
                in_string,
                escaped,
            ),
        decreases sl - i,
    {
        let c = txt.get_char(i);
        proof {
            assert(txt@.skip(i as int)[0] == txt@[i as int]);
            assert(txt@.skip(i as int).drop_first() =~= txt@.skip(i + 1));
        }
        if escaped {
            escaped = false;
        } else if c == '\\' {
            escaped = true;
        } else {
            if c == pat && !in_string {
                count += 1;
            }
            if c == '"' || c == '\'' {
                in_string = !in_string;
            }
        }
        i += 1;
    }
    proof {
        assert(txt@.skip(sl as int) =~= Seq::<char>::empty());
    }
    count
}

// ---------------------------------------------------------------------------
// list lookup
// ---------------------------------------------------------------------------

/// Position of the first element of `vector` equal to `key`, or `-1` when no
/// element matches.
pub fn get_index(vector: &Vec<String>, key: &str) -> (r: i32)
    requires
        vector@.len() <= i32::MAX,
    ensures
        r >= 0 ==> r < vector@.len() && vector@[r as int]@ == key@ && forall|j: int|
            0 <= j < r ==> vector@[j]@ != key@,
        r < 0 ==> r == -1 && forall|j: int| 0 <= j < vector@.len() ==> vector@[j]@ != key@,
{
    let n = vector.len();
    let mut i: usize = 0;
    while i < n
        invariant
            i <= n,
            n == vector@.len(),
            n <= i32::MAX,
            forall|j: int| 0 <= j < i ==> vector@[j]@ != key@,
        decreases n - i,
    {
        if str_eq(vector[i].as_str(), key) {
            return i as i32;
        }
        i += 1;
    }
    -1
}

/// A fresh vector of strings equal to `v`.
pub fn clone_strings(v: &Vec<String>) -> (r: Vec<String>)
    ensures
        r@ == v@,
{
    let n = v.len();
    let mut r: Vec<String> = Vec::new();
    let mut i: usize = 0;
    while i < n
        invariant
            i <= n,
            n == v@.len(),
            r@ == v@.take(i as int),
        decreases n - i,
    {
        r.push(v[i].clone());
        proof {
            assert(v@.take(i + 1) =~= v@.take(i as int).push(v@[i as int]));
        }
        i += 1;
    }
    proof {
        assert(v@.take(n as int) =~= v@);
    }
    r
}

/// Appends every element of `src` to `dst`, in order.
pub fn append_strings(dst: &mut Vec<String>, src: Vec<String>)
    ensures
        final(dst)@ == old(dst)@ + src@,
{
    let n = src.len();
    let mut i: usize = 0;
    let ghost base = dst@;
    proof {
        assert(base + src@.take(0) =~= base);
    }
    while i < n
        invariant
            i <= n,
            n == src@.len(),
            dst@ == base + src@.take(i as int),
        decreases n - i,
    {
        let s = src[i].clone();
        dst.push(s);
        proof {
            assert(src@.take(i + 1) =~= src@.take(i as int).push(src@[i as int]));
            assert(base + src@.take(i + 1) =~= (base + src@.take(i as int)).push(
                src@[i as int],
            ));
        }
        i += 1;
    }
    proof {
        assert(src@.take(n as int) =~= src@);
    }
}

// ---------------------------------------------------------------------------
// splicing
// ---------------------------------------------------------------------------

/// Replaces the characters of `text` in `[from, to)` with `what`, returning
/// the new text.  With `from == to` this is a pure insertion.
pub fn splice_text(text: &String, from: usize, to: usize, what: &str) -> (r: String)
    requires
        from <= to,
        to as int <= text@.len(),
    ensures
        r@ == text@.take(from as int) + what@ + text@.skip(to as int),
{
    let n = text.as_str().unicode_len();
    let mut r = text.as_str().substring_char(0, from).to_owned();
    r.append(what);
    r.append(text.as_str().substring_char(to, n));
    proof {
        assert(r@ =~= text@.take(from as int) + what@ + text@.skip(to as int));
    }
    r
}

} // verus!
