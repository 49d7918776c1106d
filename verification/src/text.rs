//! Character-level text primitives shared by the parsers: runs of characters
//! satisfying a predicate, whitespace trimming, physical-line splitting, and
//! locating the last space of a line.

use vstd::prelude::*;

verus! {

/// Whitespace for word boundaries and trimming.
pub open spec fn is_ws(c: char) -> bool {
    c == ' ' || c == '\t' || c == '\n' || c == '\r'
}

/// Inline blanks: the separators allowed between headline components.
pub open spec fn is_blank(c: char) -> bool {
    c == ' ' || c == '\t'
}

pub open spec fn ws_p() -> spec_fn(char) -> bool {
    |c: char| is_ws(c)
}

pub open spec fn blank_p() -> spec_fn(char) -> bool {
    |c: char| is_blank(c)
}

pub open spec fn word_p() -> spec_fn(char) -> bool {
    |c: char| !is_ws(c)
}

pub open spec fn star_p() -> spec_fn(char) -> bool {
    |c: char| c == '*'
}

pub open spec fn not_nl_p() -> spec_fn(char) -> bool {
    |c: char| c != '\n'
}

pub open spec fn not_colon_p() -> spec_fn(char) -> bool {
    |c: char| c != ':'
}

/// Length of the maximal prefix of `s` whose characters all satisfy `p`.
pub open spec fn run_len(s: Seq<char>, p: spec_fn(char) -> bool) -> nat
    decreases s.len(),
{
    if s.len() == 0 {
        0
    } else if p(s[0]) {
        1 + run_len(s.skip(1), p)
    } else {
        0
    }
}

/// What `run_len` is: the index of the first character that fails `p`,
/// or the length of `s` when none does.
pub proof fn lemma_run_len(s: Seq<char>, p: spec_fn(char) -> bool)
    ensures
        run_len(s, p) <= s.len(),
        forall|j: int| 0 <= j < run_len(s, p) ==> p(s[j]),
        run_len(s, p) < s.len() ==> !p(s[run_len(s, p) as int]),
    decreases s.len(),
{
    if s.len() > 0 && p(s[0]) {
        lemma_run_len(s.skip(1), p);
        assert forall|j: int| 0 <= j < run_len(s, p) implies p(s[j]) by {
            if j > 0 {
                assert(s.skip(1)[j - 1] == s[j]);
            }
        }
        if run_len(s, p) < s.len() {
            assert(s.skip(1)[run_len(s, p) - 1] == s[run_len(s, p) as int]);
        }
    }
}

/// Any index with the first-failure property equals `run_len`.
pub proof fn lemma_run_len_unique(s: Seq<char>, p: spec_fn(char) -> bool, i: int)
    requires
        0 <= i <= s.len(),
        forall|j: int| 0 <= j < i ==> p(s[j]),
        i < s.len() ==> !p(s[i]),
    ensures
        i == run_len(s, p),
{
    lemma_run_len(s, p);
    if i < run_len(s, p) {
        assert(p(s[i]));
    } else if i > run_len(s, p) {
        assert(p(s[run_len(s, p) as int]));
    }
}

/// Drop the maximal whitespace prefix.
pub open spec fn trim_start_s(s: Seq<char>) -> Seq<char> {
    s.skip(run_len(s, ws_p()) as int)
}

/// Drop the maximal whitespace suffix.
pub open spec fn trim_end_s(s: Seq<char>) -> Seq<char>
    decreases s.len(),
{
    if s.len() > 0 && is_ws(s[s.len() - 1]) {
        trim_end_s(s.drop_last())
    } else {
        s
    }
}

/// Both ends trimmed.
pub open spec fn trim_s(s: Seq<char>) -> Seq<char> {
    trim_end_s(trim_start_s(s))
}

/// `trim_end_s` keeps exactly the prefix up to the last non-whitespace character.
pub proof fn lemma_trim_end(s: Seq<char>)
    ensures
        trim_end_s(s).len() <= s.len(),
        trim_end_s(s) == s.take(trim_end_s(s).len() as int),
        forall|k: int| trim_end_s(s).len() <= k < s.len() ==> is_ws(s[k]),
        trim_end_s(s).len() > 0 ==> !is_ws(s[trim_end_s(s).len() - 1]),
    decreases s.len(),
{
    if s.len() > 0 && is_ws(s[s.len() - 1]) {
        lemma_trim_end(s.drop_last());
        assert(s.drop_last() == s.take(s.len() - 1));
        assert(trim_end_s(s) == s.drop_last().take(trim_end_s(s).len() as int));
        assert(trim_end_s(s) =~= s.take(trim_end_s(s).len() as int));
        assert forall|k: int| trim_end_s(s).len() <= k < s.len() implies is_ws(s[k]) by {
            if k < s.len() - 1 {
                assert(s.drop_last()[k] == s[k]);
            }
        }
        if trim_end_s(s).len() > 0 {
            assert(s.drop_last()[trim_end_s(s).len() - 1] == s[trim_end_s(s).len() - 1]);
        }
    } else {
        assert(trim_end_s(s) == s);
        assert(s =~= s.take(s.len() as int));
    }
}

/// Any split of `s` into `s.subrange(i, j)` with whitespace outside and
/// non-whitespace at both ends is the trimmed sequence.
pub proof fn lemma_trim_unique(s: Seq<char>, i: int, j: int)
    requires
        0 <= i <= j <= s.len(),
        forall|k: int| 0 <= k < i ==> is_ws(s[k]),
        forall|k: int| j <= k < s.len() ==> is_ws(s[k]),
        i < j ==> !is_ws(s[i]) && !is_ws(s[j - 1]),
    ensures
        trim_s(s) == s.subrange(i, j),
{
    lemma_run_len(s, ws_p());
    if i < j {
        assert(!(ws_p()(s[i])));
        lemma_run_len_unique(s, ws_p(), i);
        let t = trim_start_s(s);
        assert(t =~= s.subrange(i, s.len() as int));
        lemma_trim_end(t);
        let m = trim_end_s(t).len() as int;
        // show m == j - i by the characterization
        if m < j - i {
            assert(is_ws(t[j - i - 1]));
            assert(t[j - i - 1] == s[j - 1]);
        }
        if m > j - i {
            assert(!is_ws(t[m - 1]));
            assert(t[m - 1] == s[i + m - 1]);
        }
        assert(trim_end_s(t) == t.take(m));
        assert(t.take(j - i) =~= s.subrange(i, j));
    } else {
        // i == j and every character of s is whitespace
        assert forall|k: int| 0 <= k < s.len() implies ws_p()(s[k]) by {
            assert(is_ws(s[k]));
        }
        lemma_run_len_unique(s, ws_p(), s.len() as int);
        let t = trim_start_s(s);
        assert(t =~= Seq::<char>::empty());
        lemma_trim_end(t);
        assert(trim_s(s) =~= s.subrange(i, j));
    }
}

/// Index of the last space character of `s`, or -1 when there is none.
pub open spec fn last_space(s: Seq<char>) -> int
    decreases s.len(),
{
    if s.len() == 0 {
        -1
    } else if s[s.len() - 1] == ' ' {
        s.len() - 1
    } else {
        last_space(s.drop_last())
    }
}

pub proof fn lemma_last_space(s: Seq<char>)
    ensures
        -1 <= last_space(s) < s.len(),
        last_space(s) >= 0 ==> s[last_space(s)] == ' ',
        forall|j: int| last_space(s) < j < s.len() ==> s[j] != ' ',
    decreases s.len(),
{
    if s.len() > 0 && s[s.len() - 1] != ' ' {
        lemma_last_space(s.drop_last());
        assert forall|j: int| last_space(s) < j < s.len() implies s[j] != ' ' by {
            if j < s.len() - 1 {
                assert(s.drop_last()[j] == s[j]);
            }
        }
        if last_space(s) >= 0 {
            assert(s.drop_last()[last_space(s)] == s[last_space(s)]);
        }
    }
}

pub proof fn lemma_last_space_unique(s: Seq<char>, i: int)
    requires
        -1 <= i < s.len(),
        i >= 0 ==> s[i] == ' ',
        forall|j: int| i < j < s.len() ==> s[j] != ' ',
    ensures
        i == last_space(s),
{
    lemma_last_space(s);
    if i < last_space(s) {
        assert(s[last_space(s)] != ' ');
    } else if i > last_space(s) {
        assert(s[i] != ' ');
    }
}

/// The first physical line of `s`: characters before the first newline,
/// with a carriage return immediately preceding the newline dropped.
pub open spec fn line_content(s: Seq<char>) -> Seq<char> {
    let k = run_len(s, not_nl_p()) as int;
    if k > 0 && s[k - 1] == '\r' && k < s.len() {
        s.take(k - 1)
    } else {
        s.take(k)
    }
}

/// What follows the first physical line of `s` (empty when `s` has no newline).
pub open spec fn line_rest(s: Seq<char>) -> Seq<char> {
    let k = run_len(s, not_nl_p()) as int;
    if k < s.len() {
        s.skip(k + 1)
    } else {
        Seq::empty()
    }
}

/// The views of a sequence of owned strings.
pub open spec fn strs(v: Seq<String>) -> Seq<Seq<char>> {
    v.map_values(|s: String| s@)
}

fn ws_at(s: &str, i: usize) -> (r: bool)
    requires
        i < s@.len(),
    ensures
        r == is_ws(s@[i as int]),
{
    let c = s.get_char(i);
    c == ' ' || c == '\t' || c == '\n' || c == '\r'
}

fn blank_at(s: &str, i: usize) -> (r: bool)
    requires
        i < s@.len(),
    ensures
        r == is_blank(s@[i as int]),
{
    let c = s.get_char(i);
    c == ' ' || c == '\t'
}

/// End of the run of blanks that starts at `from`.
pub(crate) fn scan_blanks(s: &str, from: usize) -> (e: usize)
    requires
        from <= s@.len(),
    ensures
        from <= e <= s@.len(),
        e - from == run_len(s@.skip(from as int), blank_p()),
{
    let n = s.unicode_len();
    let mut i: usize = from;
    while i < n && blank_at(s, i)
        invariant
            from <= i <= n,
            n == s@.len(),
            forall|j: int| from <= j < i ==> is_blank(s@[j]),
        decreases n - i,
    {
        i = i + 1;
    }
    proof {
        let u = s@.skip(from as int);
        assert forall|j: int| 0 <= j < i - from implies blank_p()(u[j]) by {
            assert(u[j] == s@[from + j]);
        }
        if i < n {
            assert(u[i - from] == s@[i as int]);
        }
        lemma_run_len_unique(u, blank_p(), i - from);
    }
    i
}

/// End of the run of whitespace characters that starts at `from`.
pub(crate) fn scan_ws(s: &str, from: usize) -> (e: usize)
    requires
        from <= s@.len(),
    ensures
        from <= e <= s@.len(),
        e - from == run_len(s@.skip(from as int), ws_p()),
{
    let n = s.unicode_len();
    let mut i: usize = from;
    while i < n && ws_at(s, i)
        invariant
            from <= i <= n,
            n == s@.len(),
            forall|j: int| from <= j < i ==> is_ws(s@[j]),
        decreases n - i,
    {
        i = i + 1;
    }
    proof {
        let u = s@.skip(from as int);
        assert forall|j: int| 0 <= j < i - from implies ws_p()(u[j]) by {
            assert(u[j] == s@[from + j]);
        }
        if i < n {
            assert(u[i - from] == s@[i as int]);
        }
        lemma_run_len_unique(u, ws_p(), i - from);
    }
    i
}

/// End of the run of non-whitespace characters that starts at `from`.
pub(crate) fn scan_word(s: &str, from: usize) -> (e: usize)
    requires
        from <= s@.len(),
    ensures
        from <= e <= s@.len(),
        e - from == run_len(s@.skip(from as int), word_p()),
{
    let n = s.unicode_len();
    let mut i: usize = from;
    while i < n && !ws_at(s, i)
        invariant
            from <= i <= n,
            n == s@.len(),
            forall|j: int| from <= j < i ==> !is_ws(s@[j]),
        decreases n - i,
    {
        i = i + 1;
    }
    proof {
        let u = s@.skip(from as int);
        assert forall|j: int| 0 <= j < i - from implies word_p()(u[j]) by {
            assert(u[j] == s@[from + j]);
        }
        if i < n {
            assert(u[i - from] == s@[i as int]);
        }
        lemma_run_len_unique(u, word_p(), i - from);
    }
    i
}

/// End of the run of marker characters that starts at `from`.
pub(crate) fn scan_stars(s: &str, from: usize) -> (e: usize)
    requires
        from <= s@.len(),
    ensures
        from <= e <= s@.len(),
        e - from == run_len(s@.skip(from as int), star_p()),
{
    let n = s.unicode_len();
    let mut i: usize = from;
    while i < n && s.get_char(i) == '*'
        invariant
            from <= i <= n,
            n == s@.len(),
            forall|j: int| from <= j < i ==> s@[j] == '*',
        decreases n - i,
    {
        i = i + 1;
    }
    proof {
        let u = s@.skip(from as int);
        assert forall|j: int| 0 <= j < i - from implies star_p()(u[j]) by {
            assert(u[j] == s@[from + j]);
        }
        if i < n {
            assert(u[i - from] == s@[i as int]);
        }
        lemma_run_len_unique(u, star_p(), i - from);
    }
    i
}

/// Position of the first newline at or after `from` (the length when none).
pub(crate) fn scan_to_newline(s: &str, from: usize) -> (e: usize)
    requires
        from <= s@.len(),
    ensures
        from <= e <= s@.len(),
        e - from == run_len(s@.skip(from as int), not_nl_p()),
{
    let n = s.unicode_len();
    let mut i: usize = from;
    while i < n && s.get_char(i) != '\n'
        invariant
            from <= i <= n,
            n == s@.len(),
            forall|j: int| from <= j < i ==> s@[j] != '\n',
        decreases n - i,
    {
        i = i + 1;
    }
    proof {
        let u = s@.skip(from as int);
        assert forall|j: int| 0 <= j < i - from implies not_nl_p()(u[j]) by {
            assert(u[j] == s@[from + j]);
        }
        if i < n {
            assert(u[i - from] == s@[i as int]);
        }
        lemma_run_len_unique(u, not_nl_p(), i - from);
    }
    i
}

/// Position of the first colon at or after `from`, stopping at `hi`
/// (`hi` when none before it).
pub(crate) fn scan_to_colon(s: &str, from: usize, hi: usize) -> (e: usize)
    requires
        from <= hi <= s@.len(),
    ensures
        from <= e <= hi,
        e - from == run_len(s@.subrange(from as int, hi as int), not_colon_p()),
{
    let mut i: usize = from;
    while i < hi && s.get_char(i) != ':'
        invariant
            from <= i <= hi,
            hi <= s@.len(),
            forall|j: int| from <= j < i ==> s@[j] != ':',
        decreases hi - i,
    {
        i = i + 1;
    }
    proof {
        let u = s@.subrange(from as int, hi as int);
        assert forall|j: int| 0 <= j < i - from implies not_colon_p()(u[j]) by {
            assert(u[j] == s@[from + j]);
        }
        if i < hi {
            assert(u[i - from] == s@[i as int]);
        }
        lemma_run_len_unique(u, not_colon_p(), i - from);
    }
    i
}

/// Shrink `[lo, hi)` to the bounds of its whitespace-trimmed middle.
pub(crate) fn trim_range(s: &str, lo: usize, hi: usize) -> (r: (usize, usize))
    requires
        lo <= hi <= s@.len(),
    ensures
        lo <= r.0 <= r.1 <= hi,
        s@.subrange(r.0 as int, r.1 as int) == trim_s(s@.subrange(lo as int, hi as int)),
{
    let mut a: usize = lo;
    let mut b: usize = hi;
    while a < b && ws_at(s, a)
        invariant
            lo <= a <= b,
            b == hi <= s@.len(),
            forall|j: int| lo <= j < a ==> is_ws(s@[j]),
        decreases b - a,
    {
        a = a + 1;
    }
    while b > a && ws_at(s, b - 1)
        invariant
            lo <= a <= b <= hi <= s@.len(),
            forall|j: int| lo <= j < a ==> is_ws(s@[j]),
            a < b ==> !is_ws(s@[a as int]),
            forall|j: int| b <= j < hi ==> is_ws(s@[j]),
        decreases b - a,
    {
        b = b - 1;
    }
    proof {
        let u = s@.subrange(lo as int, hi as int);
        assert forall|k: int| 0 <= k < a - lo implies is_ws(u[k]) by {
            assert(u[k] == s@[lo + k]);
        }
        assert forall|k: int| b - lo <= k < u.len() implies is_ws(u[k]) by {
            assert(u[k] == s@[lo + k]);
        }
        if a < b {
            assert(u[a - lo] == s@[a as int]);
            assert(u[b - lo - 1] == s@[b - 1]);
        }
        lemma_trim_unique(u, a - lo, b - lo);
        assert(s@.subrange(a as int, b as int) =~= u.subrange(a - lo, b - lo));
    }
    (a, b)
}

/// One past the last space in `[lo, hi)`, or `lo` when there is none.
pub(crate) fn find_last_space(s: &str, lo: usize, hi: usize) -> (m: usize)
    requires
        lo <= hi <= s@.len(),
    ensures
        lo <= m <= hi,
        m == lo ==> last_space(s@.subrange(lo as int, hi as int)) == -1,
        m > lo ==> last_space(s@.subrange(lo as int, hi as int)) == m - 1 - lo,
{
    let mut m: usize = hi;
    while m > lo && s.get_char(m - 1) != ' '
        invariant
            lo <= m <= hi <= s@.len(),
            forall|j: int| m <= j < hi ==> s@[j] != ' ',
        decreases m,
    {
        m = m - 1;
    }
    proof {
        let u = s@.subrange(lo as int, hi as int);
        assert forall|j: int| m - lo < j + 1 <= u.len() implies u[j] != ' ' by {
            assert(u[j] == s@[lo + j]);
        }
        if m > lo {
            assert(u[m - 1 - lo] == s@[m - 1]);
            lemma_last_space_unique(u, m - 1 - lo);
        } else {
            lemma_last_space_unique(u, -1);
        }
    }
    m
}

/// Split off the current physical line: bounds of its trimmed content and
/// the start of what follows the line.
pub(crate) fn split_line(input: &str, pos: usize) -> (r: (usize, usize, usize))
    requires
        pos <= input@.len(),
    ensures
        pos <= r.0 <= r.1 <= input@.len(),
        pos <= r.2 <= input@.len(),
        input@.subrange(r.0 as int, r.1 as int) == trim_s(line_content(input@.skip(pos as int))),
        input@.subrange(r.2 as int, input@.len() as int) == line_rest(input@.skip(pos as int)),
{
    let ghost t = input@.skip(pos as int);
    let n = input.unicode_len();
    let k = scan_to_newline(input, pos);
    let chi = if k > pos && k < n && input.get_char(k - 1) == '\r' {
        k - 1
    } else {
        k
    };
    let rest_lo = if k < n {
        k + 1
    } else {
        n
    };
    proof {
        assert(line_content(t) =~= input@.subrange(pos as int, chi as int));
        if k < n {
            assert(line_rest(t) =~= input@.subrange(rest_lo as int, n as int));
        } else {
            assert(line_rest(t) =~= input@.subrange(rest_lo as int, n as int));
        }
    }
    let bounds = trim_range(input, pos, chi);
    (bounds.0, bounds.1, rest_lo)
}

} // verus!
