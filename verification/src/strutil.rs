//! Verified string helpers: character classes, searching, splitting,
//! trimming, and decimal conversion, all specified over `Seq<char>` views.

use vstd::prelude::*;

verus! {

// ---------------------------------------------------------------------------
// Character classes
// ---------------------------------------------------------------------------

/// An ASCII decimal digit.
pub open spec fn is_digit(c: char) -> bool {
    48 <= c as int <= 57
}

/// The numeric value of an ASCII digit.
pub open spec fn digit_val(c: char) -> int {
    c as int - 48
}

/// ASCII whitespace as it occurs in procfs text.
pub open spec fn is_wspace(c: char) -> bool {
    c == ' ' || c == '\t' || c == '\n' || c == '\r'
}

pub open spec fn is_digit_seq(s: Seq<char>) -> bool {
    forall|i: int| 0 <= i < s.len() ==> is_digit(#[trigger] s[i])
}

/// The integer a digit string denotes, most significant digit first.
pub open spec fn digits_value(s: Seq<char>) -> int
    decreases s.len(),
{
    if s.len() == 0 {
        0
    } else {
        digits_value(s.drop_last()) * 10 + digit_val(s.last())
    }
}

/// Whether `c` is an ASCII decimal digit.
pub fn digit_char(c: char) -> (r: bool)
    ensures
        r == is_digit(c),
{
    let v = c as u32;
    48 <= v && v <= 57
}

/// Whether `c` is ASCII whitespace.
pub fn wspace_char(c: char) -> (r: bool)
    ensures
        r == is_wspace(c),
{
    c == ' ' || c == '\t' || c == '\n' || c == '\r'
}

// ---------------------------------------------------------------------------
// Equality
// ---------------------------------------------------------------------------

/// Character-for-character equality of two string slices.
pub fn str_eq(a: &str, b: &str) -> (r: bool)
    ensures
        r == (a@ == b@),
{
    let an = a.unicode_len();
    let bn = b.unicode_len();
    if an != bn {
        return false;
    }
    let mut i: usize = 0;
    while i < an
        invariant
            i <= an,
            an == a@.len(),
            an == b@.len(),
            forall|j: int| 0 <= j < i ==> a@[j] == b@[j],
        decreases an - i,
    {
        if a.get_char(i) != b.get_char(i) {
            return false;
        }
        i += 1;
    }
    proof {
        assert(a@ =~= b@);
    }
    true
}

// ---------------------------------------------------------------------------
// Searching
// ---------------------------------------------------------------------------

/// Index of the first occurrence of `c` in `s`; `s.len()` when absent.
pub open spec fn first_index(s: Seq<char>, c: char) -> int
    decreases s.len(),
{
    if s.len() == 0 {
        0
    } else if s[0] == c {
        0
    } else {
        1 + first_index(s.drop_first(), c)
    }
}

pub open spec fn contains_char(s: Seq<char>, c: char) -> bool {
    first_index(s, c) < s.len()
}

/// What comes before the first occurrence of `c` (the whole of `s` when absent).
pub open spec fn before_first(s: Seq<char>, c: char) -> Seq<char> {
    s.subrange(0, first_index(s, c))
}

/// What comes after the first occurrence of `c` (empty when absent).
pub open spec fn after_first(s: Seq<char>, c: char) -> Seq<char> {
    if contains_char(s, c) {
        s.subrange(first_index(s, c) + 1, s.len() as int)
    } else {
        Seq::empty()
    }
}

pub proof fn lemma_first_index(s: Seq<char>, c: char)
    ensures
        0 <= first_index(s, c) <= s.len(),
        first_index(s, c) < s.len() ==> s[first_index(s, c)] == c,
        forall|j: int| 0 <= j < first_index(s, c) ==> s[j] != c,
    decreases s.len(),
{
    if s.len() > 0 && s[0] != c {
        let t = s.drop_first();
        lemma_first_index(t, c);
        assert forall|j: int| 0 <= j < first_index(s, c) implies s[j] != c by {
            if j >= 1 {
                assert(t[j - 1] != c);
                assert(t[j - 1] == s[j]);
            }
        }
    }
}

/// Index of the last occurrence of `c` in `s`; `-1` when absent.
pub open spec fn last_index(s: Seq<char>, c: char) -> int
    decreases s.len(),
{
    if s.len() == 0 {
        -1
    } else if s.last() == c {
        s.len() - 1
    } else {
        last_index(s.drop_last(), c)
    }
}

/// What comes after the last occurrence of `c` (the whole of `s` when absent).
pub open spec fn last_field(s: Seq<char>, c: char) -> Seq<char> {
    s.subrange(last_index(s, c) + 1, s.len() as int)
}

pub proof fn lemma_last_index(s: Seq<char>, c: char)
    ensures
        -1 <= last_index(s, c) < s.len(),
        last_index(s, c) >= 0 ==> s[last_index(s, c)] == c,
        forall|j: int| last_index(s, c) < j < s.len() ==> s[j] != c,
    decreases s.len(),
{
    if s.len() > 0 && s.last() != c {
        let t = s.drop_last();
        lemma_last_index(t, c);
        assert forall|j: int| last_index(s, c) < j < s.len() implies s[j] != c by {
            if j < s.len() - 1 {
                assert(t[j] != c);
                assert(t[j] == s[j]);
            } else {
                assert(s[j] == s.last());
            }
        }
    }
}

/// Number of occurrences of `c` in `s`.
pub open spec fn count_char(s: Seq<char>, c: char) -> int
    decreases s.len(),
{
    if s.len() == 0 {
        0
    } else {
        count_char(s.drop_last(), c) + if s.last() == c {
            1int
        } else {
            0int
        }
    }
}

/// First index at or after `from` holding `c`, if any.
pub fn find_char_from(s: &str, c: char, from: usize) -> (r: Option<usize>)
    requires
        from <= s@.len(),
    ensures
        match r {
            Some(i) => from <= i < s@.len() && s@[i as int] == c && forall|j: int|
                from <= j < i ==> s@[j] != c,
            None => forall|j: int| from <= j < s@.len() ==> s@[j] != c,
        },
{
    let n = s.unicode_len();
    let mut i: usize = from;
    while i < n
        invariant
            from <= i <= n,
            n == s@.len(),
            forall|j: int| from <= j < i ==> s@[j] != c,
        decreases n - i,
    {
        if s.get_char(i) == c {
            return Some(i);
        }
        i += 1;
    }
    None
}

/// `first_index` pinned down by a witness: a hit whose predecessors all miss.
pub proof fn lemma_first_index_at(s: Seq<char>, c: char, i: int)
    requires
        0 <= i < s.len(),
        s[i] == c,
        forall|j: int| 0 <= j < i ==> s[j] != c,
    ensures
        first_index(s, c) == i,
    decreases s.len(),
{
    if i > 0 {
        assert(s[0] != c);
        let t = s.drop_first();
        assert(t[i - 1] == s[i]);
        assert forall|j: int| 0 <= j < i - 1 implies t[j] != c by {
            assert(t[j] == s[j + 1]);
        }
        lemma_first_index_at(t, c, i - 1);
    }
}

/// `first_index` is the length when nothing hits.
pub proof fn lemma_first_index_absent(s: Seq<char>, c: char)
    requires
        forall|j: int| 0 <= j < s.len() ==> s[j] != c,
    ensures
        first_index(s, c) == s.len(),
    decreases s.len(),
{
    if s.len() > 0 {
        assert(s[0] != c);
        let t = s.drop_first();
        assert forall|j: int| 0 <= j < t.len() implies t[j] != c by {
            assert(t[j] == s[j + 1]);
        }
        lemma_first_index_absent(t, c);
    }
}

/// `last_index` pinned down by a witness: a hit whose successors all miss.
pub proof fn lemma_last_index_at(s: Seq<char>, c: char, i: int)
    requires
        0 <= i < s.len(),
        s[i] == c,
        forall|j: int| i < j < s.len() ==> s[j] != c,
    ensures
        last_index(s, c) == i,
    decreases s.len(),
{
    if i < s.len() - 1 {
        assert(s[s.len() - 1] != c);
        assert(s.last() != c);
        let t = s.drop_last();
        assert(t[i] == s[i]);
        assert forall|j: int| i < j < t.len() implies t[j] != c by {
            assert(t[j] == s[j]);
        }
        lemma_last_index_at(t, c, i);
    }
}

/// `last_index` is `-1` when nothing hits.
pub proof fn lemma_last_index_absent(s: Seq<char>, c: char)
    requires
        forall|j: int| 0 <= j < s.len() ==> s[j] != c,
    ensures
        last_index(s, c) == -1,
    decreases s.len(),
{
    if s.len() > 0 {
        assert(s[s.len() - 1] != c);
        assert(s.last() != c);
        let t = s.drop_last();
        assert forall|j: int| 0 <= j < t.len() implies t[j] != c by {
            assert(t[j] == s[j]);
        }
        lemma_last_index_absent(t, c);
    }
}

/// A character occurs somewhere exactly when it has a last occurrence.
pub proof fn lemma_contains_last(s: Seq<char>, c: char)
    ensures
        contains_char(s, c) <==> last_index(s, c) >= 0,
{
    lemma_first_index(s, c);
    lemma_last_index(s, c);
    if contains_char(s, c) && last_index(s, c) < 0 {
        assert(s[first_index(s, c)] != c);
        assert(false);
    }
    if last_index(s, c) >= 0 && !contains_char(s, c) {
        assert(s[last_index(s, c)] != c);
        assert(false);
    }
}

/// First index holding `c`, related to `first_index` on the view.
pub fn find_char(s: &str, c: char) -> (r: Option<usize>)
    ensures
        match r {
            Some(i) => contains_char(s@, c) && i == first_index(s@, c),
            None => !contains_char(s@, c),
        },
{
    let r = find_char_from(s, c, 0);
    proof {
        match r {
            Some(i) => lemma_first_index_at(s@, c, i as int),
            None => lemma_first_index_absent(s@, c),
        }
    }
    r
}

/// Last index holding `c`, related to `last_index` on the view.
pub fn rfind_char(s: &str, c: char) -> (r: Option<usize>)
    ensures
        match r {
            Some(i) => contains_char(s@, c) && i == last_index(s@, c),
            None => !contains_char(s@, c) && last_index(s@, c) == -1,
        },
{
    let n = s.unicode_len();
    let mut i: usize = n;
    while i > 0
        invariant
            i <= n,
            n == s@.len(),
            forall|j: int| i <= j < s@.len() ==> s@[j] != c,
        decreases i,
    {
        i -= 1;
        if s.get_char(i) == c {
            proof {
                lemma_last_index_at(s@, c, i as int);
                lemma_first_index(s@, c);
                if first_index(s@, c) == s@.len() as int {
                    assert(s@[i as int] != c);
                    assert(false);
                }
            }
            return Some(i);
        }
    }
    proof {
        lemma_last_index_absent(s@, c);
        lemma_first_index_absent(s@, c);
    }
    None
}

// ---------------------------------------------------------------------------
// Splitting
// ---------------------------------------------------------------------------

/// Split around the first occurrence of `c`, as the view-level pair
/// (`before_first`, `after_first`).
pub fn split_once(s: &str, c: char) -> (r: Option<(&str, &str)>)
    ensures
        match r {
            Some(p) => contains_char(s@, c) && p.0@ == before_first(s@, c) && p.1@ == after_first(
                s@,
                c,
            ),
            None => !contains_char(s@, c),
        },
{
    match find_char(s, c) {
        None => None,
        Some(i) => {
            proof {
                lemma_first_index(s@, c);
            }
            let n = s.unicode_len();
            let head = s.substring_char(0, i);
            let tail = s.substring_char(i + 1, n);
            Some((head, tail))
        },
    }
}

/// Split around the last occurrence of `c`.
pub fn rsplit_once(s: &str, c: char) -> (r: Option<(&str, &str)>)
    ensures
        match r {
            Some(p) => contains_char(s@, c) && p.0@ == s@.subrange(0, last_index(s@, c))
                && p.1@ == last_field(s@, c),
            None => !contains_char(s@, c),
        },
{
    match rfind_char(s, c) {
        None => None,
        Some(i) => {
            proof {
                lemma_last_index(s@, c);
            }
            let n = s.unicode_len();
            let head = s.substring_char(0, i);
            let tail = s.substring_char(i + 1, n);
            Some((head, tail))
        },
    }
}

// ---------------------------------------------------------------------------
// Views of string sequences
// ---------------------------------------------------------------------------

/// The `Seq<char>` views of a sequence of owned strings.
pub open spec fn seq_views(v: Seq<String>) -> Seq<Seq<char>> {
    Seq::new(v.len(), |i: int| v[i]@)
}

// ---------------------------------------------------------------------------
// Lines
// ---------------------------------------------------------------------------

/// A line with a trailing carriage return removed.
pub open spec fn strip_cr(s: Seq<char>) -> Seq<char> {
    if s.len() > 0 && s.last() == '\r' {
        s.drop_last()
    } else {
        s
    }
}

/// The lines of a text: split at `'\n'`, no trailing empty line for a text
/// that ends in a newline, each line stripped of a trailing `'\r'`.
pub open spec fn split_lines_spec(s: Seq<char>) -> Seq<Seq<char>>
    decreases s.len(),
    via split_lines_spec_decreases
{
    if s.len() == 0 {
        Seq::empty()
    } else if contains_char(s, '\n') {
        seq![strip_cr(before_first(s, '\n'))] + split_lines_spec(after_first(s, '\n'))
    } else {
        seq![strip_cr(s)]
    }
}

#[via_fn]
proof fn split_lines_spec_decreases(s: Seq<char>) {
    lemma_first_index(s, '\n');
}

/// A line with a trailing carriage return removed.
pub fn strip_cr_exec(s: &str) -> (r: String)
    ensures
        r@ == strip_cr(s@),
{
    let n = s.unicode_len();
    if n > 0 && s.get_char(n - 1) == '\r' {
        let r = s.substring_char(0, n - 1).to_owned();
        proof {
            assert(s@.subrange(0, n - 1) =~= s@.drop_last());
        }
        r
    } else {
        s.to_owned()
    }
}

/// The lines of a text, as owned strings.
pub fn split_lines(s: &str) -> (r: Vec<String>)
    ensures
        seq_views(r@) == split_lines_spec(s@),
    decreases s@.len(),
{
    let n = s.unicode_len();
    let mut v: Vec<String> = Vec::new();
    if n == 0 {
        proof {
            assert(seq_views(v@) =~= split_lines_spec(s@));
        }
        return v;
    }
    match find_char(s, '\n') {
        None => {
            v.push(strip_cr_exec(s));
            proof {
                assert(seq_views(v@) =~= split_lines_spec(s@));
            }
            v
        },
        Some(i) => {
            let head = s.substring_char(0, i);
            let tail = s.substring_char(i + 1, n);
            let line = strip_cr_exec(head);
            let mut rest = split_lines(tail);
            v.push(line);
            v.append(&mut rest);
            proof {
                assert(seq_views(v@) =~= split_lines_spec(s@));
            }
            v
        },
    }
}

// ---------------------------------------------------------------------------
// Leading dots
// ---------------------------------------------------------------------------

pub open spec fn strip_dots_spec(s: Seq<char>) -> Seq<char>
    decreases s.len(),
{
    if s.len() > 0 && s[0] == '.' {
        strip_dots_spec(s.drop_first())
    } else {
        s
    }
}

proof fn lemma_strip_dots_subrange(s: Seq<char>, i: int)
    requires
        0 <= i <= s.len(),
        forall|k: int| 0 <= k < i ==> s[k] == '.',
        i < s.len() ==> s[i] != '.',
    ensures
        strip_dots_spec(s) == s.subrange(i, s.len() as int),
    decreases i,
{
    if i == 0 {
        assert(s.subrange(0, s.len() as int) =~= s);
    } else {
        lemma_strip_dots_subrange(s.drop_first(), i - 1);
        assert(s.drop_first().subrange(i - 1, s.len() - 1) =~= s.subrange(i, s.len() as int));
    }
}

/// Strip every leading `'.'`.
pub fn strip_dots(s: &str) -> (r: &str)
    ensures
        r@ == strip_dots_spec(s@),
{
    let n = s.unicode_len();
    let mut i: usize = 0;
    while i < n && s.get_char(i) == '.'
        invariant
            i <= n,
            n == s@.len(),
            forall|k: int| 0 <= k < i ==> s@[k] == '.',
        decreases n - i,
    {
        i += 1;
    }
    proof {
        lemma_strip_dots_subrange(s@, i as int);
    }
    s.substring_char(i, n)
}

// ---------------------------------------------------------------------------
// Counting
// ---------------------------------------------------------------------------

/// Number of occurrences of `c` in `s`.
pub fn count_char_exec(s: &str, c: char) -> (r: usize)
    ensures
        r == count_char(s@, c),
{
    let n = s.unicode_len();
    let mut cnt: usize = 0;
    let mut i: usize = 0;
    while i < n
        invariant
            i <= n,
            n == s@.len(),
            cnt <= i,
            cnt == count_char(s@.subrange(0, i as int), c),
        decreases n - i,
    {
        let ghost pre = s@.subrange(0, i as int);
        let ghost ext = s@.subrange(0, i + 1);
        proof {
            assert(ext.drop_last() =~= pre);
            assert(ext.last() == s@[i as int]);
        }
        if s.get_char(i) == c {
            cnt += 1;
        }
        i += 1;
    }
    proof {
        assert(s@.subrange(0, n as int) =~= s@);
    }
    cnt
}

// ---------------------------------------------------------------------------
// Trimming
// ---------------------------------------------------------------------------

pub open spec fn trim_start_spec(s: Seq<char>) -> Seq<char>
    decreases s.len(),
{
    if s.len() > 0 && is_wspace(s[0]) {
        trim_start_spec(s.drop_first())
    } else {
        s
    }
}

pub open spec fn trim_end_spec(s: Seq<char>) -> Seq<char>
    decreases s.len(),
{
    if s.len() > 0 && is_wspace(s.last()) {
        trim_end_spec(s.drop_last())
    } else {
        s
    }
}

/// ASCII-whitespace trimming at both ends.
pub open spec fn trim_spec(s: Seq<char>) -> Seq<char> {
    trim_end_spec(trim_start_spec(s))
}

proof fn lemma_trim_start_subrange(s: Seq<char>, i: int)
    requires
        0 <= i <= s.len(),
        forall|k: int| 0 <= k < i ==> is_wspace(#[trigger] s[k]),
        i < s.len() ==> !is_wspace(s[i]),
    ensures
        trim_start_spec(s) == s.subrange(i, s.len() as int),
    decreases i,
{
    if i == 0 {
        assert(s.subrange(0, s.len() as int) =~= s);
    } else {
        lemma_trim_start_subrange(s.drop_first(), i - 1);
        assert(s.drop_first().subrange(i - 1, s.len() - 1) =~= s.subrange(i, s.len() as int));
    }
}

proof fn lemma_trim_end_subrange(s: Seq<char>, j: int)
    requires
        0 <= j <= s.len(),
        forall|k: int| j <= k < s.len() ==> is_wspace(#[trigger] s[k]),
        j > 0 ==> !is_wspace(s[j - 1]),
    ensures
        trim_end_spec(s) == s.subrange(0, j),
    decreases s.len() - j,
{
    if j == s.len() {
        assert(s.subrange(0, s.len() as int) =~= s);
    } else {
        lemma_trim_end_subrange(s.drop_last(), j);
        assert(s.drop_last().subrange(0, j) =~= s.subrange(0, j));
    }
}

/// Trim ASCII whitespace from both ends.
pub fn trim(s: &str) -> (r: &str)
    ensures
        r@ == trim_spec(s@),
{
    let n = s.unicode_len();
    let mut i: usize = 0;
    while i < n && wspace_char(s.get_char(i))
        invariant
            i <= n,
            n == s@.len(),
            forall|k: int| 0 <= k < i ==> is_wspace(#[trigger] s@[k]),
        decreases n - i,
    {
        i += 1;
    }
    proof {
        lemma_trim_start_subrange(s@, i as int);
    }
    let mut j: usize = n;
    while j > i && wspace_char(s.get_char(j - 1))
        invariant
            i <= j <= n,
            n == s@.len(),
            forall|k: int| j <= k < n ==> is_wspace(#[trigger] s@[k]),
        decreases j,
    {
        j -= 1;
    }
    let r = s.substring_char(i, j);
    proof {
        let t = s@.subrange(i as int, n as int);
        assert(forall|k: int| j - i <= k < t.len() ==> is_wspace(#[trigger] t[k]));
        lemma_trim_end_subrange(t, j - i);
        assert(t.subrange(0, j - i) =~= s@.subrange(i as int, j as int));
    }
    r
}

// ---------------------------------------------------------------------------
// Decimal parsing and formatting
// ---------------------------------------------------------------------------

/// A digit string's value only grows as digits are appended.
proof fn lemma_digits_value_prefix(s: Seq<char>, i: int)
    requires
        0 <= i <= s.len(),
        is_digit_seq(s),
    ensures
        digits_value(s) >= digits_value(s.subrange(0, i)),
    decreases s.len() - i,
{
    if i < s.len() {
        lemma_digits_value_prefix(s, i + 1);
        let p = s.subrange(0, i + 1);
        assert(p.drop_last() =~= s.subrange(0, i));
        let v = digits_value(s.subrange(0, i));
        assert(v >= 0) by {
            lemma_digits_value_nonneg(s.subrange(0, i));
        }
        assert(v * 10 >= v) by (nonlinear_arith)
            requires
                v >= 0,
        ;
        assert(digits_value(p) >= digits_value(s.subrange(0, i)));
    } else {
        assert(s.subrange(0, s.len() as int) =~= s);
    }
}

proof fn lemma_digits_value_nonneg(s: Seq<char>)
    requires
        is_digit_seq(s),
    ensures
        digits_value(s) >= 0,
    decreases s.len(),
{
    if s.len() > 0 {
        assert(is_digit_seq(s.drop_last())) by {
            assert(forall|i: int|
                0 <= i < s.len() - 1 ==> s.drop_last()[i] == #[trigger] s[i]);
        }
        lemma_digits_value_nonneg(s.drop_last());
        let v = digits_value(s.drop_last());
        assert(v * 10 >= 0) by (nonlinear_arith)
            requires
                v >= 0,
        ;
    }
}

/// Parse a non-empty, all-digit string as a `u64`.
///
/// Returns the denoted value exactly when the text is a digit string whose
/// value fits; anything else gives `None`.
pub fn parse_u64(s: &str) -> (r: Option<u64>)
    ensures
        match r {
            Some(v) => s@.len() > 0 && is_digit_seq(s@) && v == digits_value(s@),
            None => s@.len() == 0 || !is_digit_seq(s@) || digits_value(s@) > u64::MAX,
        },
{
    let n = s.unicode_len();
    if n == 0 {
        return None;
    }
    let mut acc: u64 = 0;
    let mut i: usize = 0;
    while i < n
        invariant
            i <= n,
            n == s@.len(),
            is_digit_seq(s@.subrange(0, i as int)),
            acc == digits_value(s@.subrange(0, i as int)),
        decreases n - i,
    {
        let c = s.get_char(i);
        if !digit_char(c) {
            return None;
        }
        let d: u64 = (c as u32 - 48) as u64;
        let ghost pre = s@.subrange(0, i as int);
        let ghost ext = s@.subrange(0, i + 1);
        proof {
            assert(ext.drop_last() =~= pre);
            assert(is_digit_seq(ext));
            assert(digits_value(ext) == digits_value(pre) * 10 + digit_val(s@[i as int]));
        }
        proof {
            assert(d == digit_val(s@[i as int]));
        }
        let step = match acc.checked_mul(10) {
            Some(t) => t.checked_add(d),
            None => None,
        };
        match step {
            Some(t) => {
                acc = t;
            },
            None => {
                proof {
                    // the prefix through position i already exceeds u64::MAX,
                    // and appending digits cannot shrink the value
                    assert(acc * 10 + d > u64::MAX);
                    assert(digits_value(ext) > u64::MAX);
                    if is_digit_seq(s@) {
                        lemma_digits_value_prefix(s@, i + 1);
                    }
                }
                return None;
            },
        }
        i += 1;
    }
    proof {
        assert(s@.subrange(0, n as int) =~= s@);
    }
    Some(acc)
}

/// The character of one decimal digit.
pub open spec fn digit_char_of(d: int) -> char {
    if d == 0 {
        '0'
    } else if d == 1 {
        '1'
    } else if d == 2 {
        '2'
    } else if d == 3 {
        '3'
    } else if d == 4 {
        '4'
    } else if d == 5 {
        '5'
    } else if d == 6 {
        '6'
    } else if d == 7 {
        '7'
    } else if d == 8 {
        '8'
    } else {
        '9'
    }
}

/// The decimal digit string of a non-negative integer.
pub open spec fn dec_str(v: int) -> Seq<char>
    decreases v,
{
    if v < 10 {
        seq![digit_char_of(v)]
    } else {
        dec_str(v / 10).push(digit_char_of(v % 10))
    }
}

/// The single-character string for one digit.
fn digit_str(d: u64) -> (r: &'static str)
    requires
        d < 10,
    ensures
        r@ == seq![digit_char_of(d as int)],
        r@.len() == 1,
        is_digit(r@[0]),
        digit_val(r@[0]) == d,
{
    proof {
        reveal_strlit("0");
        reveal_strlit("1");
        reveal_strlit("2");
        reveal_strlit("3");
        reveal_strlit("4");
        reveal_strlit("5");
        reveal_strlit("6");
        reveal_strlit("7");
        reveal_strlit("8");
        reveal_strlit("9");
    }
    let r = match d {
        0 => "0",
        1 => "1",
        2 => "2",
        3 => "3",
        4 => "4",
        5 => "5",
        6 => "6",
        7 => "7",
        8 => "8",
        _ => "9",
    };
    proof {
        assert(r@ =~= seq![digit_char_of(d as int)]);
    }
    r
}

/// Decimal rendering of a `u64`: all digits, no leading zero except for `0`.
pub fn u64_to_string(v: u64) -> (r: String)
    ensures
        r@ == dec_str(v as int),
        r@.len() >= 1,
        is_digit_seq(r@),
        digits_value(r@) == v,
        r@.len() > 1 ==> r@[0] != '0',
    decreases v,
{
    if v < 10 {
        let r = digit_str(v).to_owned();
        proof {
            assert(r@.drop_last() =~= Seq::<char>::empty());
            assert(digits_value(r@) == digits_value(r@.drop_last()) * 10 + digit_val(r@.last()));
            assert(digits_value(Seq::<char>::empty()) == 0);
            assert(r@.last() == r@[0]);
        }
        r
    } else {
        let q = v / 10;
        let d = v % 10;
        let head = u64_to_string(q);
        let ds = digit_str(d);
        let r = head.concat(ds);
        proof {
            assert(r@ =~= dec_str(q as int).push(digit_char_of(d as int)));
            assert(r@.drop_last() =~= head@);
            assert(r@.last() == ds@[0]);
            assert(digits_value(r@) == digits_value(head@) * 10 + d as int);
            assert(v == q * 10 + d);
            assert(is_digit_seq(r@)) by {
                assert(forall|i: int| 0 <= i < head@.len() ==> r@[i] == #[trigger] head@[i]);
            }
            assert(r@[0] == head@[0]);
            if r@[0] == '0' {
                // head has no leading zero and denotes q >= 1, so it cannot
                // be the single character '0'
                assert(head@.len() == 1);
                assert(head@.last() == head@[0]);
                assert(head@.drop_last() =~= Seq::<char>::empty());
                assert(digits_value(head@) == digits_value(head@.drop_last()) * 10 + digit_val(
                    head@.last(),
                ));
                assert(digits_value(Seq::<char>::empty()) == 0);
                assert(q == 0);
                assert(false);
            }
        }
        r
    }
}

} // verus!
