//! The grammar of archive file names: the archive extension, the version
//! embedded in the name, and the text search used to cut the name.

use vstd::prelude::*;

verus! {

/// Whether `c` is a Unicode word character as regular-expression word
/// boundaries understand it.
pub uninterp spec fn is_word_char(c: char) -> bool;

/// The ASCII word characters: `[0-9A-Za-z_]`.
pub open spec fn is_ascii_word_char(c: char) -> bool {
    ('0' <= c <= '9') || ('A' <= c <= 'Z') || ('a' <= c <= 'z') || c == '_'
}

/// Whether `c` is a word character: the class `[0-9A-Za-z_]` on ASCII
/// characters, and `is_word_char` beyond them.
pub open spec fn word_class(c: char) -> bool {
    if (c as u32) < 128 {
        is_ascii_word_char(c)
    } else {
        is_word_char(c)
    }
}

/// Calls `regex_syntax::is_word_character`, the predicate behind `\b` in the
/// `regex` crate. Claimed: the result is `is_word_char(c)`, a function of `c`
/// alone, and on ASCII characters it is the class `[0-9A-Za-z_]` (the first
/// four ranges of the crate's word table, checked by its ASCII fast path).
#[verifier::external_body]
fn word_char(c: char) -> (r: bool)
    ensures
        r == is_word_char(c),
        (c as u32) < 128 ==> (r == is_ascii_word_char(c)),
{
    regex_syntax::is_word_character(c)
}

/// The characters of `s`, in order.
pub fn chars_of(s: &str) -> (v: Vec<char>)
    ensures
        v@ == s@,
{
    let mut v: Vec<char> = Vec::new();
    for c in it: s.chars()
        invariant
            v@ == it.seq().take(it.index() as int),
    {
        v.push(c);
    }
    v
}


/// An ASCII decimal digit, the class `[0-9]`.
pub open spec fn is_digit(c: char) -> bool {
    '0' <= c <= '9'
}

/// `s` holds the character `c` at index `i`.
pub open spec fn char_at_is(s: Seq<char>, i: int, c: char) -> bool {
    0 <= i < s.len() && s[i] == c
}

/// Every index of `a..b` lies in `s` and holds a digit.
pub open spec fn digits_in(s: Seq<char>, a: int, b: int) -> bool {
    &&& 0 <= a <= b <= s.len()
    &&& forall|i: int| a <= i < b ==> is_digit(#[trigger] s[i])
}

/// The end of the longest run of digits that starts at `i`.
pub open spec fn digit_run_end(s: Seq<char>, i: int) -> int
    decreases s.len() - i,
{
    if 0 <= i < s.len() && is_digit(s[i]) {
        digit_run_end(s, i + 1)
    } else {
        i
    }
}

/// A version of the form `v1`, `v1.2` or `v1.2.3` starting at `p` and
/// followed by a dot: the index of that dot. The digit runs are maximal and
/// the longest form that is followed by a dot wins.
pub open spec fn dotted_version_end(s: Seq<char>, p: int) -> Option<int> {
    let e1 = digit_run_end(s, p + 1);
    let e2 = digit_run_end(s, e1 + 1);
    let e3 = digit_run_end(s, e2 + 1);
    if !char_at_is(s, p, 'v') || e1 == p + 1 || !char_at_is(s, e1, '.') {
        None
    } else if e2 > e1 + 1 && char_at_is(s, e2, '.') {
        if e3 > e2 + 1 && char_at_is(s, e3, '.') {
            Some(e3)
        } else {
            Some(e2)
        }
    } else {
        Some(e1)
    }
}

/// `q`, moved past a dash if one stands there.
pub open spec fn skip_dash(s: Seq<char>, q: int) -> int {
    if char_at_is(s, q, '-') {
        q + 1
    } else {
        q
    }
}

/// A date version `YYYY[-]MM[-]DD` starting at `p` and followed by a dot:
/// the index of that dot.
pub open spec fn dated_version_end(s: Seq<char>, p: int) -> Option<int> {
    let q1 = skip_dash(s, p + 4);
    let q2 = skip_dash(s, q1 + 2);
    let q3 = q2 + 2;
    if digits_in(s, p, p + 4) && digits_in(s, q1, q1 + 2) && digits_in(s, q2, q3)
        && char_at_is(s, q3, '.') {
        Some(q3)
    } else {
        None
    }
}

/// The end of a version that starts at `p`, of either form.
pub open spec fn version_end_at(s: Seq<char>, p: int) -> Option<int> {
    match dotted_version_end(s, p) {
        Some(e) => Some(e),
        None => dated_version_end(s, p),
    }
}

/// A word boundary stands before index `p`: `p` is the start, or the
/// character before it is not a word character (a version always starts
/// with a word character).
pub open spec fn boundary_before(s: Seq<char>, p: int) -> bool {
    p == 0 || (0 < p <= s.len() && !word_class(s[p - 1]))
}

/// A version starts at `p`.
pub open spec fn version_starts_at(s: Seq<char>, p: int) -> bool {
    boundary_before(s, p) && version_end_at(s, p) is Some
}

/// The first version at or after index `i`, as the span `(start, end)`.
pub open spec fn first_version_from(s: Seq<char>, i: int) -> Option<(int, int)>
    decreases s.len() - i,
{
    if 0 <= i < s.len() {
        if version_starts_at(s, i) {
            Some((i, version_end_at(s, i)->0))
        } else {
            first_version_from(s, i + 1)
        }
    } else {
        None
    }
}

/// The span of the leftmost version in `s`.
pub open spec fn version_span(s: Seq<char>) -> Option<(int, int)> {
    first_version_from(s, 0)
}

/// `t` occurs in `s` at index `k`.
pub open spec fn occurs_at(s: Seq<char>, t: Seq<char>, k: int) -> bool {
    0 <= k && k + t.len() <= s.len() && s.subrange(k, k + t.len()) == t
}

/// The first index at or after `k` at which `t` occurs in `s`.
pub open spec fn first_occurrence_from(s: Seq<char>, t: Seq<char>, k: int) -> Option<int>
    decreases s.len() + 1 - k,
{
    if 0 <= k <= s.len() {
        if occurs_at(s, t, k) {
            Some(k)
        } else {
            first_occurrence_from(s, t, k + 1)
        }
    } else {
        None
    }
}

/// The first index at which `t` occurs in `s`.
pub open spec fn first_occurrence(s: Seq<char>, t: Seq<char>) -> Option<int> {
    first_occurrence_from(s, t, 0)
}

/// The end of the run of digits in `s` that starts at `i`.
pub fn digit_run_end_in(s: &Vec<char>, i: usize) -> (e: usize)
    requires
        i <= s.len(),
    ensures
        e == digit_run_end(s@, i as int),
        i <= e <= s.len(),
{
    let mut j = i;
    while j < s.len() && '0' <= s[j] && s[j] <= '9'
        invariant
            i <= j <= s.len(),
            digit_run_end(s@, j as int) == digit_run_end(s@, i as int),
        decreases s.len() - j,
    {
        j = j + 1;
    }
    j
}

/// `s` holds `c` at index `i`.
fn char_at(s: &Vec<char>, i: usize, c: char) -> (b: bool)
    ensures
        b == char_at_is(s@, i as int, c),
{
    i < s.len() && s[i] == c
}

/// Every index of `a..b` holds a digit.
fn digits_between(s: &Vec<char>, a: usize, b: usize) -> (r: bool)
    requires
        a <= b,
    ensures
        r == digits_in(s@, a as int, b as int),
{
    if b > s.len() {
        return false;
    }
    let mut i = a;
    while i < b
        invariant
            a <= i <= b <= s.len(),
            forall|j: int| a <= j < i ==> is_digit(#[trigger] s@[j]),
        decreases b - i,
    {
        if !('0' <= s[i] && s[i] <= '9') {
            return false;
        }
        i = i + 1;
    }
    true
}

/// The end of a dotted version (`v1`, `v1.2`, `v1.2.3`) starting at `p`.
pub fn dotted_version_end_at(s: &Vec<char>, p: usize) -> (r: Option<usize>)
    requires
        p < s.len(),
    ensures
        match r {
            Some(e) => dotted_version_end(s@, p as int) == Some(e as int),
            None => dotted_version_end(s@, p as int) is None,
        },
{
    if s[p] != 'v' {
        return None;
    }
    let e1 = digit_run_end_in(s, p + 1);
    if e1 == p + 1 || !char_at(s, e1, '.') {
        return None;
    }
    let e2 = digit_run_end_in(s, e1 + 1);
    if e2 > e1 + 1 && char_at(s, e2, '.') {
        let e3 = digit_run_end_in(s, e2 + 1);
        if e3 > e2 + 1 && char_at(s, e3, '.') {
            Some(e3)
        } else {
            Some(e2)
        }
    } else {
        Some(e1)
    }
}

/// `q`, moved past a dash if one stands there.
fn skip_dash_at(s: &Vec<char>, q: usize) -> (r: usize)
    requires
        q <= s.len(),
    ensures
        r == skip_dash(s@, q as int),
{
    if char_at(s, q, '-') {
        q + 1
    } else {
        q
    }
}

/// The end of a date version (`YYYY[-]MM[-]DD`) starting at `p`.
pub fn dated_version_end_at(s: &Vec<char>, p: usize) -> (r: Option<usize>)
    requires
        p < s.len(),
    ensures
        match r {
            Some(e) => dated_version_end(s@, p as int) == Some(e as int),
            None => dated_version_end(s@, p as int) is None,
        },
{
    if s.len() - p < 4 {
        return None;
    }
    let q1 = skip_dash_at(s, p + 4);
    if s.len() - q1 < 2 {
        return None;
    }
    let q2 = skip_dash_at(s, q1 + 2);
    if s.len() - q2 < 2 {
        return None;
    }
    let q3 = q2 + 2;
    if digits_between(s, p, p + 4) && digits_between(s, q1, q1 + 2) && digits_between(
        s,
        q2,
        q3,
    ) && char_at(s, q3, '.') {
        Some(q3)
    } else {
        None
    }
}

/// The end of a version of either form starting at `p`.
pub fn version_end_from(s: &Vec<char>, p: usize) -> (r: Option<usize>)
    requires
        p < s.len(),
    ensures
        match r {
            Some(e) => version_end_at(s@, p as int) == Some(e as int),
            None => version_end_at(s@, p as int) is None,
        },
{
    match dotted_version_end_at(s, p) {
        Some(e) => Some(e),
        None => dated_version_end_at(s, p),
    }
}

/// The span of the leftmost version in `s`: a version is `v` followed by one
/// to three dot-separated digit runs, or a date `YYYY[-]MM[-]DD`; it starts
/// at a word boundary and is followed by a dot.
pub fn find_version(s: &Vec<char>) -> (r: Option<(usize, usize)>)
    ensures
        match r {
            Some((p, e)) => version_span(s@) == Some((p as int, e as int)),
            None => version_span(s@) is None,
        },
{
    let mut p: usize = 0;
    while p < s.len()
        invariant
            p <= s.len(),
            version_span(s@) == first_version_from(s@, p as int),
        decreases s.len() - p,
    {
        match version_end_from(s, p) {
            Some(e) => {
                if p == 0 || !word_char(s[p - 1]) {
                    return Some((p, e));
                }
            },
            None => {},
        }
        p = p + 1;
    }
    None
}

/// The first index at which `t` occurs in `s`.
pub fn find_chars(s: &Vec<char>, t: &Vec<char>) -> (r: Option<usize>)
    ensures
        match r {
            Some(k) => first_occurrence(s@, t@) == Some(k as int),
            None => first_occurrence(s@, t@) is None,
        },
{
    if t.len() > s.len() {
        assert(forall|k: int| 0 <= k <= s@.len() ==> !occurs_at(s@, t@, k));
        proof { lemma_no_occurrence_from(s@, t@, 0); }
        return None;
    }
    let mut k: usize = 0;
    while k <= s.len() - t.len()
        invariant
            t.len() <= s.len(),
            k <= s.len() - t.len() + 1,
            first_occurrence(s@, t@) == first_occurrence_from(s@, t@, k as int),
        decreases s.len() - t.len() + 1 - k,
    {
        let mut i: usize = 0;
        let mut same = true;
        while i < t.len()
            invariant
                t.len() <= s.len(),
                k <= s.len() - t.len(),
                i <= t.len(),
                same == (forall|j: int| 0 <= j < i ==> s@[k + j] == t@[j]),
            decreases t.len() - i,
        {
            if s[k + i] != t[i] {
                same = false;
            }
            i = i + 1;
        }
        if same {
            assert(s@.subrange(k as int, k + t.len()) =~= t@);
            return Some(k);
        }
        assert(!occurs_at(s@, t@, k as int)) by {
            if s@.subrange(k as int, k + t.len()) == t@ {
                let j = choose|j: int| 0 <= j < t.len() && s@[k + j] != t@[j];
                assert(s@.subrange(k as int, k + t.len())[j] == s@[k + j]);
            }
        }
        k = k + 1;
    }
    proof { lemma_no_occurrence_from(s@, t@, k as int); }
    None
}

/// Past the last index at which `t` fits in `s`, no occurrence is found.
proof fn lemma_no_occurrence_from(s: Seq<char>, t: Seq<char>, k: int)
    requires
        k >= 0,
        k + t.len() > s.len(),
    ensures
        first_occurrence_from(s, t, k) is None,
    decreases s.len() + 1 - k,
{
    if 0 <= k <= s.len() {
        lemma_no_occurrence_from(s, t, k + 1);
    }
}


/// The first version at or after `i` starts there or later and ends within
/// `s`, at a dot.
pub proof fn lemma_first_version_from_in_bounds(s: Seq<char>, i: int)
    requires
        0 <= i,
    ensures
        first_version_from(s, i) matches Some((p, e)) ==> {
            &&& i <= p < e < s.len()
            &&& version_starts_at(s, p)
            &&& version_end_at(s, p) == Some(e)
            &&& s[e] == '.'
        },
    decreases s.len() - i,
{
    if 0 <= i < s.len() {
        if version_starts_at(s, i) {
            lemma_version_end_in_bounds(s, i);
        } else {
            lemma_first_version_from_in_bounds(s, i + 1);
        }
    }
}

/// The leftmost version lies within `s` and is followed by a dot.
pub proof fn lemma_version_span_in_bounds(s: Seq<char>)
    ensures
        version_span(s) matches Some((p, e)) ==> {
            &&& 0 <= p < e < s.len()
            &&& version_starts_at(s, p)
            &&& version_end_at(s, p) == Some(e)
            &&& s[e] == '.'
        },
{
    lemma_first_version_from_in_bounds(s, 0);
}

/// A run of digits ends within `s` or at its end, never before it starts.
pub proof fn lemma_digit_run_end_bounds(s: Seq<char>, i: int)
    requires
        0 <= i <= s.len(),
    ensures
        i <= digit_run_end(s, i) <= s.len(),
        digits_in(s, i, digit_run_end(s, i)),
    decreases s.len() - i,
{
    if i < s.len() && is_digit(s[i]) {
        lemma_digit_run_end_bounds(s, i + 1);
    }
}

/// A version that starts at `p` ends after `p`, at a dot within `s`.
pub proof fn lemma_version_end_in_bounds(s: Seq<char>, p: int)
    requires
        0 <= p < s.len(),
    ensures
        version_end_at(s, p) matches Some(e) ==> p < e < s.len() && s[e] == '.',
{
    lemma_digit_run_end_bounds(s, p + 1);
    let e1 = digit_run_end(s, p + 1);
    if 0 <= e1 + 1 <= s.len() {
        lemma_digit_run_end_bounds(s, e1 + 1);
        let e2 = digit_run_end(s, e1 + 1);
        if 0 <= e2 + 1 <= s.len() {
            lemma_digit_run_end_bounds(s, e2 + 1);
        }
    }
}


/// The value of a decimal digit.
pub open spec fn digit_value(c: char) -> int {
    (c as int) - ('0' as int)
}

/// The value of a string of decimal digits.
pub open spec fn number_value(s: Seq<char>) -> int
    decreases s.len(),
{
    if s.len() == 0 {
        0
    } else {
        number_value(s.drop_last()) * 10 + digit_value(s.last())
    }
}

/// Every number written in `s` with ASCII digits fits in a `u32`.
pub open spec fn numbers_fit_u32(s: Seq<char>) -> bool {
    forall|i: int, j: int| digits_in(s, i, j) ==> #[trigger] number_value(s.subrange(i, j)) <= u32::MAX
}

/// Extending a run of digits to the right does not lower its value.
proof fn lemma_number_value_grows(s: Seq<char>, a: int, b: int, j: int)
    requires
        a <= b <= j,
        digits_in(s, a, j),
    ensures
        0 <= number_value(s.subrange(a, b)) <= number_value(s.subrange(a, j)),
    decreases j - a,
{
    if j > a {
        assert(s.subrange(a, j).drop_last() =~= s.subrange(a, j - 1));
        assert(s.subrange(a, j).last() == s[j - 1]);
        if b < j {
            lemma_number_value_grows(s, a, b, j - 1);
        } else {
            lemma_number_value_grows(s, a, b - 1, j - 1);
            assert(s.subrange(a, b).drop_last() =~= s.subrange(a, b - 1));
        }
    }
}

/// Whether every number written in `s` with ASCII digits fits in a `u32`.
pub fn numbers_fit_u32_in(s: &str) -> (b: bool)
    ensures
        b == numbers_fit_u32(s@),
{
    let v = chars_of(s);
    let mut a: usize = 0;
    while a < v.len()
        invariant
            v@ == s@,
            a <= v.len(),
            forall|i: int, j: int|
                0 <= i < a && digits_in(v@, i, j) ==> #[trigger] number_value(v@.subrange(i, j))
                    <= u32::MAX,
        decreases v.len() - a,
    {
        let mut j: usize = a;
        let mut acc: u64 = 0;
        while j < v.len() && '0' <= v[j] && v[j] <= '9'
            invariant
                v@ == s@,
                a <= j <= v.len(),
                digits_in(v@, a as int, j as int),
                acc == number_value(v@.subrange(a as int, j as int)),
                acc <= u32::MAX,
            decreases v.len() - j,
        {
            proof {
                assert(v@.subrange(a as int, j + 1).drop_last() =~= v@.subrange(a as int, j as int));
            }
            acc = acc * 10 + ((v[j] as u32) - ('0' as u32)) as u64;
            if acc > 4294967295u64 {
                assert(digits_in(v@, a as int, j + 1));
                assert(number_value(v@.subrange(a as int, j + 1)) > u32::MAX);
                return false;
            }
            j = j + 1;
        }
        assert forall|i: int, k: int|
            0 <= i < a + 1 && digits_in(v@, i, k) implies #[trigger] number_value(
            v@.subrange(i, k),
        ) <= u32::MAX by {
            if i == a {
                if k > j {
                    assert(is_digit(v@[j as int]));
                }
                lemma_number_value_grows(v@, i, k, j as int);
            }
        }
        a = a + 1;
    }
    assert forall|i: int, k: int| digits_in(v@, i, k) implies #[trigger] number_value(
        v@.subrange(i, k),
    ) <= u32::MAX by {
        if i == v.len() {
            assert(v@.subrange(i, k) =~= Seq::<char>::empty());
        }
    }
    true
}


/// The first version from `i` on is where a version starts and none starts
/// between `i` and it; where there is none, no version starts from `i` on.
proof fn lemma_first_version_from_is_first(s: Seq<char>, i: int)
    requires
        0 <= i,
    ensures
        match first_version_from(s, i) {
            Some((p, e)) => {
                &&& version_starts_at(s, p)
                &&& version_end_at(s, p) == Some(e)
                &&& forall|q: int| i <= q < p ==> !version_starts_at(s, q)
            },
            None => forall|q: int| i <= q < s.len() ==> !version_starts_at(s, q),
        },
    decreases s.len() - i,
{
    if 0 <= i < s.len() && !version_starts_at(s, i) {
        lemma_first_version_from_is_first(s, i + 1);
    }
}

/// The version of a name is its leftmost one: a version starts there, and
/// none starts before it; where there is none, no version starts anywhere.
pub proof fn lemma_version_span_is_leftmost(s: Seq<char>)
    ensures
        match version_span(s) {
            Some((p, e)) => {
                &&& version_starts_at(s, p)
                &&& version_end_at(s, p) == Some(e)
                &&& forall|q: int| 0 <= q < p ==> !version_starts_at(s, q)
            },
            None => forall|q: int| 0 <= q < s.len() ==> !version_starts_at(s, q),
        },
{
    lemma_first_version_from_is_first(s, 0);
}

/// The first occurrence from `k` on is an occurrence with none between `k`
/// and it; where there is none, `t` does not occur from `k` on.
proof fn lemma_first_occurrence_from_is_first(s: Seq<char>, t: Seq<char>, k: int)
    requires
        0 <= k,
    ensures
        match first_occurrence_from(s, t, k) {
            Some(m) => occurs_at(s, t, m) && forall|j: int| k <= j < m ==> !occurs_at(s, t, j),
            None => forall|j: int| k <= j ==> !occurs_at(s, t, j),
        },
    decreases s.len() + 1 - k,
{
    if 0 <= k <= s.len() && !occurs_at(s, t, k) {
        lemma_first_occurrence_from_is_first(s, t, k + 1);
    }
}

/// The first occurrence of `t` in `s` is an occurrence, and `t` occurs
/// nowhere before it; where there is none, `t` occurs nowhere in `s`.
pub proof fn lemma_first_occurrence_is_first(s: Seq<char>, t: Seq<char>)
    ensures
        match first_occurrence(s, t) {
            Some(m) => occurs_at(s, t, m) && forall|j: int| 0 <= j < m ==> !occurs_at(s, t, j),
            None => forall|j: int| 0 <= j ==> !occurs_at(s, t, j),
        },
{
    lemma_first_occurrence_from_is_first(s, t, 0);
}


/// `a` and `b` agree before index `d`, and differ at `d` or one of them
/// ends there.
pub open spec fn first_difference_at(a: Seq<char>, b: Seq<char>, d: int) -> bool {
    &&& 0 <= d <= a.len()
    &&& d <= b.len()
    &&& forall|i: int| 0 <= i < d ==> a[i] == b[i]
    &&& (d == a.len() || d == b.len() || a[d] != b[d])
}

/// An ASCII character that is not a digit (no ASCII character but the
/// digits is numeric).
pub open spec fn is_ascii_non_digit(c: char) -> bool {
    (c as u32) < 128 && !is_digit(c)
}

/// Comparing `a` and `b` in human-friendly order stops at their first
/// difference: there one of them ends, or holds an ASCII character that is
/// not a digit. Equal texts are such a pair.
pub open spec fn stops_at_first_difference(a: Seq<char>, b: Seq<char>) -> bool {
    exists|d: int|
        #![trigger first_difference_at(a, b, d)]
        first_difference_at(a, b, d) && (d == a.len() || d == b.len() || is_ascii_non_digit(a[d])
            || is_ascii_non_digit(b[d]))
}

/// `a` and `b` can be compared in human-friendly order without a number
/// overflowing a `u32`: every number written in them fits, or the
/// comparison stops at their first difference, before any number is added
/// up.
pub open spec fn human_comparable(a: Seq<char>, b: Seq<char>) -> bool {
    (numbers_fit_u32(a) && numbers_fit_u32(b)) || stops_at_first_difference(a, b)
}

/// Whether `a` and `b` can be compared in human-friendly order without a
/// number overflowing.
pub fn human_comparable_in(a: &str, b: &str) -> (r: bool)
    ensures
        r == human_comparable(a@, b@),
{
    if numbers_fit_u32_in(a) && numbers_fit_u32_in(b) {
        return true;
    }
    let x = chars_of(a);
    let y = chars_of(b);
    let mut d: usize = 0;
    while d < x.len() && d < y.len() && x[d] == y[d]
        invariant
            x@ == a@,
            y@ == b@,
            d <= x.len(),
            d <= y.len(),
            forall|i: int| 0 <= i < d ==> x@[i] == y@[i],
        decreases x.len() - d,
    {
        d = d + 1;
    }
    assert(first_difference_at(a@, b@, d as int));
    let stops = d == x.len() || d == y.len() || ((x[d] as u32) < 128 && !('0' <= x[d]
        && x[d] <= '9')) || ((y[d] as u32) < 128 && !('0' <= y[d] && y[d] <= '9'));
    if !stops {
        assert forall|e: int| #![trigger first_difference_at(a@, b@, e)] first_difference_at(a@, b@, e) implies e == d by {
            if e < d {
                assert(a@[e] == b@[e]);
            }
            if e > d {
                assert(a@[d as int] == b@[d as int]);
            }
        }
    }
    stops
}


/// `s[a..b]` is a non-empty run of digits.
pub open spec fn digit_run(s: Seq<char>, a: int, b: int) -> bool {
    a < b && digits_in(s, a, b)
}

/// `s[p..e]` is written `v` followed by one, two or three non-empty runs of
/// digits separated by dots, and a dot follows it at `e`: what
/// `v[0-9]+([.][0-9]+){0,2}[.]` matches from `p`.
pub open spec fn dotted_form(s: Seq<char>, p: int, e: int) -> bool {
    &&& char_at_is(s, p, 'v')
    &&& char_at_is(s, e, '.')
    &&& {
        ||| digit_run(s, p + 1, e)
        ||| exists|m: int|
            #![trigger char_at_is(s, m, '.')]
            digit_run(s, p + 1, m) && char_at_is(s, m, '.') && digit_run(s, m + 1, e)
        ||| exists|m1: int, m2: int|
            #![trigger char_at_is(s, m1, '.'), char_at_is(s, m2, '.')]
            digit_run(s, p + 1, m1) && char_at_is(s, m1, '.') && digit_run(s, m1 + 1, m2)
                && char_at_is(s, m2, '.') && digit_run(s, m2 + 1, e)
    }
}

/// A run of digits that a non-digit (or the end) follows is the longest run
/// from its start.
proof fn lemma_digit_run_end_is(s: Seq<char>, a: int, m: int)
    requires
        0 <= a <= m <= s.len(),
        digits_in(s, a, m),
        m == s.len() || !is_digit(s[m]),
    ensures
        digit_run_end(s, a) == m,
    decreases m - a,
{
    if a < m {
        lemma_digit_run_end_is(s, a + 1, m);
    }
}

/// The dotted version at `p` is the longest text that
/// `v[0-9]+([.][0-9]+){0,2}` matches there followed by a dot, each part a
/// whole run of digits; there is none only where no such text starts at
/// `p`.
pub proof fn lemma_dotted_version_is_longest_form(s: Seq<char>, p: int)
    requires
        0 <= p,
    ensures
        match dotted_version_end(s, p) {
            Some(e) => dotted_form(s, p, e) && forall|f: int| f > e ==> !dotted_form(s, p, f),
            None => forall|f: int| !dotted_form(s, p, f),
        },
{
    if !char_at_is(s, p, 'v') {
        return;
    }
    lemma_digit_run_end_bounds(s, p + 1);
    let e1 = digit_run_end(s, p + 1);
    let e2 = digit_run_end(s, e1 + 1);
    let e3 = digit_run_end(s, e2 + 1);
    if e1 + 1 <= s.len() {
        lemma_digit_run_end_bounds(s, e1 + 1);
        if e2 + 1 <= s.len() {
            lemma_digit_run_end_bounds(s, e2 + 1);
        }
    }
    // Every form's parts end where the runs from `p + 1` end.
    assert forall|f: int| dotted_form(s, p, f) implies (f == e1 && char_at_is(s, e1, '.')) || (
    e1 < f && f == e2 && char_at_is(s, e1, '.') && e2 > e1 + 1 && char_at_is(s, e2, '.')) || (
    e2 < f && f == e3 && char_at_is(s, e1, '.') && e2 > e1 + 1 && char_at_is(s, e2, '.') && e3
        > e2 + 1 && char_at_is(s, e3, '.')) by {
        if digit_run(s, p + 1, f) {
            lemma_digit_run_end_is(s, p + 1, f);
        } else if exists|m: int|
            #![trigger char_at_is(s, m, '.')]
            digit_run(s, p + 1, m) && char_at_is(s, m, '.') && digit_run(s, m + 1, f) {
            let m = choose|m: int|
                #![trigger char_at_is(s, m, '.')]
                digit_run(s, p + 1, m) && char_at_is(s, m, '.') && digit_run(s, m + 1, f);
            lemma_digit_run_end_is(s, p + 1, m);
            lemma_digit_run_end_is(s, m + 1, f);
        } else {
            let (m1, m2) = choose|m1: int, m2: int|
                #![trigger char_at_is(s, m1, '.'), char_at_is(s, m2, '.')]
                digit_run(s, p + 1, m1) && char_at_is(s, m1, '.') && digit_run(s, m1 + 1, m2)
                    && char_at_is(s, m2, '.') && digit_run(s, m2 + 1, f);
            lemma_digit_run_end_is(s, p + 1, m1);
            lemma_digit_run_end_is(s, m1 + 1, m2);
            lemma_digit_run_end_is(s, m2 + 1, f);
        }
    }
    // And each end that the runs allow is a form.
    if e1 > p + 1 && char_at_is(s, e1, '.') {
        assert(dotted_form(s, p, e1));
        if e2 > e1 + 1 && char_at_is(s, e2, '.') {
            assert(char_at_is(s, e1, '.'));
            assert(dotted_form(s, p, e2));
            if e3 > e2 + 1 && char_at_is(s, e3, '.') {
                assert(char_at_is(s, e1, '.') && char_at_is(s, e2, '.'));
                assert(dotted_form(s, p, e3));
            }
        }
    }
}


/// `s[p..e]` is a date `YYYY[-]MM[-]DD` of ASCII digits, a dash allowed
/// after the year and after the month, and a dot follows it at `e`: what
/// `[0-9]{4}[-]?[0-9]{2}[-]?[0-9]{2}[.]` matches from `p`.
pub open spec fn dated_form(s: Seq<char>, p: int, e: int) -> bool {
    exists|q1: int, q2: int|
        #![trigger digits_in(s, q1, q1 + 2), digits_in(s, q2, q2 + 2)]
        digits_in(s, p, p + 4) && (q1 == p + 4 || (q1 == p + 5 && char_at_is(s, p + 4, '-')))
            && digits_in(s, q1, q1 + 2) && (q2 == q1 + 2 || (q2 == q1 + 3 && char_at_is(
            s,
            q1 + 2,
            '-',
        ))) && digits_in(s, q2, q2 + 2) && e == q2 + 2 && char_at_is(s, e, '.')
}

/// The date version at `p` is the text that
/// `[0-9]{4}[-]?[0-9]{2}[-]?[0-9]{2}` matches there followed by a dot; there
/// is none only where no such text starts at `p`.
pub proof fn lemma_dated_version_is_the_form(s: Seq<char>, p: int)
    requires
        0 <= p,
    ensures
        match dated_version_end(s, p) {
            Some(e) => dated_form(s, p, e),
            None => forall|f: int| !dated_form(s, p, f),
        },
{
    let q1 = skip_dash(s, p + 4);
    let q2 = skip_dash(s, q1 + 2);
    if let Some(e) = dated_version_end(s, p) {
        assert(digits_in(s, q1, q1 + 2) && digits_in(s, q2, q2 + 2));
    } else {
        assert forall|f: int| !dated_form(s, p, f) by {
            if dated_form(s, p, f) {
                let (r1, r2) = choose|r1: int, r2: int|
                    #![trigger digits_in(s, r1, r1 + 2), digits_in(s, r2, r2 + 2)]
                    digits_in(s, p, p + 4) && (r1 == p + 4 || (r1 == p + 5 && char_at_is(
                        s,
                        p + 4,
                        '-',
                    ))) && digits_in(s, r1, r1 + 2) && (r2 == r1 + 2 || (r2 == r1 + 3
                        && char_at_is(s, r1 + 2, '-'))) && digits_in(s, r2, r2 + 2) && f == r2 + 2
                        && char_at_is(s, f, '.');
                if r1 == p + 4 {
                    assert(is_digit(s[p + 4]));
                }
                assert(r1 == q1);
                if r2 == r1 + 2 {
                    assert(is_digit(s[r1 + 2]));
                }
                assert(r2 == q2);
            }
        }
    }
}

} // verus!
