//! The properties drawer: a named block `:NAME: ... :END:` whose body, when
//! the name is exactly `PROPERTIES`, is read as `:NAME: value` lines into a
//! key/value mapping where later duplicate names overwrite earlier ones.

use vstd::prelude::*;

use crate::text::{
    line_content, line_rest, lemma_run_len, lemma_run_len_unique, not_colon_p, not_nl_p, run_len,
    scan_to_colon, scan_to_newline, scan_ws, split_line, trim_range, trim_s, ws_p,
};

verus! {

/// Characters allowed in a drawer name.
pub open spec fn is_name_char(c: char) -> bool {
    ('a' as u32 <= c as u32 && c as u32 <= 'z' as u32) || ('A' as u32 <= c as u32 && c as u32
        <= 'Z' as u32) || ('0' as u32 <= c as u32 && c as u32 <= '9' as u32) || c == '-' || c == '_'
}

pub open spec fn name_p() -> spec_fn(char) -> bool {
    |c: char| is_name_char(c)
}

/// `:END:`, ignoring the case of its letters.
pub open spec fn end_marker(t: Seq<char>) -> bool {
    t.len() == 5 && t[0] == ':' && (t[1] == 'E' || t[1] == 'e') && (t[2] == 'N' || t[2] == 'n') && (
    t[3] == 'D' || t[3] == 'd') && t[4] == ':'
}

/// A line closes a drawer when its trimmed content is the end marker.
pub open spec fn is_end_line(l: Seq<char>) -> bool {
    end_marker(trim_s(l))
}

/// Scan the body for the closing line. Returns the length of the content
/// (the lines before the closing line, newlines included) and the offset of
/// what follows the closing line; `None` when no line closes the drawer.
pub open spec fn drawer_scan(s: Seq<char>) -> Option<(nat, nat)>
    decreases s.len(),
{
    let k = run_len(s, not_nl_p()) as int;
    if is_end_line(line_content(s)) {
        if k < s.len() {
            Option::Some((0, (k + 1) as nat))
        } else {
            Option::Some((0, s.len()))
        }
    } else if k >= s.len() {
        Option::None
    } else {
        match drawer_scan(s.skip(k + 1)) {
            Option::None => Option::None,
            Option::Some((ce, ro)) => Option::Some(
                (((k + 1) as nat + ce), ((k + 1) as nat + ro)),
            ),
        }
    }
}

/// The header `:NAME:` with a non-empty name stands at the start of `t`.
pub open spec fn drawer_header_ok(t: Seq<char>) -> bool {
    &&& t.len() > 0
    &&& t[0] == ':'
    &&& run_len(t.skip(1), name_p()) >= 1
    &&& 1 + run_len(t.skip(1), name_p()) < t.len()
    &&& t[1 + run_len(t.skip(1), name_p()) as int] == ':'
}

pub open spec fn drawer_name_of(t: Seq<char>) -> Seq<char> {
    t.subrange(1, 1 + run_len(t.skip(1), name_p()) as int)
}

/// The drawer body: what follows the header's physical line.
pub open spec fn drawer_body(t: Seq<char>) -> Seq<char> {
    line_rest(t.skip(2 + run_len(t.skip(1), name_p()) as int))
}

/// A complete drawer (header and closing line) stands at the start of the
/// whitespace-trimmed input.
pub open spec fn drawer_found(s: Seq<char>) -> bool {
    let t = trim_start_of(s);
    drawer_header_ok(t) && drawer_scan(drawer_body(t)) is Some
}

pub open spec fn trim_start_of(s: Seq<char>) -> Seq<char> {
    s.skip(run_len(s, ws_p()) as int)
}

/// The content between header and closing line.
pub open spec fn drawer_content(s: Seq<char>) -> Seq<char> {
    let t = trim_start_of(s);
    drawer_body(t).take(drawer_scan(drawer_body(t))->Some_0.0 as int)
}

/// What follows the drawer's closing line.
pub open spec fn drawer_rest(s: Seq<char>) -> Seq<char> {
    let t = trim_start_of(s);
    drawer_body(t).skip(drawer_scan(drawer_body(t))->Some_0.1 as int)
}

/// Drop the trailing run of `+` from a property name.
pub open spec fn trim_plus(s: Seq<char>) -> Seq<char>
    decreases s.len(),
{
    if s.len() > 0 && s[s.len() - 1] == '+' {
        trim_plus(s.drop_last())
    } else {
        s
    }
}

pub proof fn lemma_trim_plus(s: Seq<char>)
    ensures
        trim_plus(s).len() <= s.len(),
        trim_plus(s) == s.take(trim_plus(s).len() as int),
        forall|k: int| trim_plus(s).len() <= k < s.len() ==> s[k] == '+',
        trim_plus(s).len() > 0 ==> s[trim_plus(s).len() - 1] != '+',
    decreases s.len(),
{
    if s.len() > 0 && s[s.len() - 1] == '+' {
        lemma_trim_plus(s.drop_last());
        assert(s.drop_last() == s.take(s.len() - 1));
        assert(trim_plus(s) == s.drop_last().take(trim_plus(s).len() as int));
        assert(trim_plus(s) =~= s.take(trim_plus(s).len() as int));
        assert forall|k: int| trim_plus(s).len() <= k < s.len() implies s[k] == '+' by {
            if k < s.len() - 1 {
                assert(s.drop_last()[k] == s[k]);
            }
        }
        if trim_plus(s).len() > 0 {
            assert(s.drop_last()[trim_plus(s).len() - 1] == s[trim_plus(s).len() - 1]);
        }
    } else {
        assert(s =~= s.take(s.len() as int));
    }
}

/// One `:NAME: value` property at the start of `s` (leading whitespace and
/// blank lines skipped): the name between the first two colons with trailing
/// `+` stripped, the value the trimmed remainder of that physical line.
pub open spec fn node_prop(s: Seq<char>) -> Option<((Seq<char>, Seq<char>), Seq<char>)> {
    let t = s.skip(run_len(s, ws_p()) as int);
    if t.len() >= 1 && t[0] == ':' {
        let u = t.skip(1);
        let j = run_len(u, not_colon_p()) as int;
        if j < u.len() {
            let after = u.skip(j + 1);
            Option::Some(
                (
                    (trim_plus(u.take(j)), trim_s(line_content(after))),
                    line_rest(after),
                ),
            )
        } else {
            Option::None
        }
    } else {
        Option::None
    }
}

proof fn lemma_node_prop_consumes(s: Seq<char>)
    requires
        node_prop(s) is Some,
    ensures
        node_prop(s)->Some_0.1.len() < s.len(),
{
    lemma_run_len(s, ws_p());
    let t = s.skip(run_len(s, ws_p()) as int);
    let u = t.skip(1);
    lemma_run_len(u, not_colon_p());
    let j = run_len(u, not_colon_p()) as int;
    let after = u.skip(j + 1);
    lemma_run_len(after, not_nl_p());
}

/// The properties of a drawer body, in textual order, duplicates kept.
pub open spec fn pairs_of(s: Seq<char>) -> Seq<(Seq<char>, Seq<char>)>
    decreases s.len(),
    when true
    via pairs_of_decreases
{
    match node_prop(s) {
        Option::None => Seq::empty(),
        Option::Some((pair, rest)) => seq![pair] + pairs_of(rest),
    }
}

#[via_fn]
proof fn pairs_of_decreases(s: Seq<char>) {
    if node_prop(s) is Some {
        lemma_node_prop_consumes(s);
    }
}

/// The value of the last pair named `k`, if any: later pairs overwrite
/// earlier ones.
pub open spec fn last_value(pairs: Seq<(Seq<char>, Seq<char>)>, k: Seq<char>) -> Option<Seq<char>>
    decreases pairs.len(),
{
    if pairs.len() == 0 {
        Option::None
    } else if pairs.last().0 == k {
        Option::Some(pairs.last().1)
    } else {
        last_value(pairs.drop_last(), k)
    }
}

/// First-match lookup in an association list of owned strings.
pub open spec fn assoc_get(s: Seq<(String, String)>, k: Seq<char>) -> Option<Seq<char>>
    decreases s.len(),
{
    if s.len() == 0 {
        Option::None
    } else if s[0].0@ == k {
        Option::Some(s[0].1@)
    } else {
        assoc_get(s.skip(1), k)
    }
}

proof fn lemma_assoc_push(s: Seq<(String, String)>, p: (String, String), k2: Seq<char>)
    requires
        forall|j: int| 0 <= j < s.len() ==> s[j].0@ != p.0@,
    ensures
        assoc_get(s.push(p), k2) == (if k2 == p.0@ {
            Option::Some(p.1@)
        } else {
            assoc_get(s, k2)
        }),
    decreases s.len(),
{
    if s.len() == 0 {
        assert(s.push(p)[0] == p);
        assert(s.push(p).skip(1) =~= Seq::<(String, String)>::empty());
        assert(assoc_get(Seq::<(String, String)>::empty(), k2) is None);
        assert(assoc_get(s, k2) is None);
    } else {
        assert(s.push(p)[0] == s[0]);
        assert(s.push(p).skip(1) =~= s.skip(1).push(p));
        assert forall|j: int| 0 <= j < s.skip(1).len() implies s.skip(1)[j].0@ != p.0@ by {
            assert(s.skip(1)[j] == s[j + 1]);
        }
        lemma_assoc_push(s.skip(1), p, k2);
    }
}

proof fn lemma_assoc_remove(s: Seq<(String, String)>, i: int, k2: Seq<char>)
    requires
        0 <= i < s.len(),
        k2 != s[i].0@,
    ensures
        assoc_get(s.remove(i), k2) == assoc_get(s, k2),
    decreases s.len(),
{
    if i == 0 {
        assert(s.remove(0) =~= s.skip(1));
    } else {
        assert(s.remove(i)[0] == s[0]);
        assert(s.remove(i).skip(1) =~= s.skip(1).remove(i - 1));
        assert(s.skip(1)[i - 1] == s[i]);
        lemma_assoc_remove(s.skip(1), i - 1, k2);
    }
}

/// The parsed key/value mapping: an association list whose keys are unique;
/// later insertions of an existing key overwrite its value.
pub struct Properties {
    pub entries: Vec<(String, String)>,
}

impl Properties {
    /// Keys are pairwise distinct.
    pub open spec fn wf(&self) -> bool {
        forall|i: int, j: int|
            0 <= i < j < self.entries@.len() ==> self.entries@[i].0@ != self.entries@[j].0@
    }

    pub open spec fn spec_get(&self, k: Seq<char>) -> Option<Seq<char>> {
        assoc_get(self.entries@, k)
    }

    pub fn new() -> (r: Properties)
        ensures
            r.wf(),
            r.entries@.len() == 0,
            forall|k: Seq<char>| r.spec_get(k) is None,
    {
        let r = Properties { entries: Vec::new() };
        r
    }

    pub fn len(&self) -> (r: usize)
        ensures
            r == self.entries@.len(),
    {
        self.entries.len()
    }

    /// Look `k` up; `None` when no entry has that name.
    pub fn get(&self, k: &String) -> (r: Option<&String>)
        ensures
            match r {
                Option::Some(v) => self.spec_get(k@) == Option::Some(v@),
                Option::None => self.spec_get(k@) is None,
            },
    {
        let mut i: usize = 0;
        proof {
            assert(self.entries@.skip(0) =~= self.entries@);
        }
        while i < self.entries.len()
            invariant
                i <= self.entries@.len(),
                forall|j: int| 0 <= j < i ==> self.entries@[j].0@ != k@,
                assoc_get(self.entries@.skip(i as int), k@) == assoc_get(self.entries@, k@),
            decreases self.entries@.len() - i,
        {
            if self.entries[i].0 == *k {
                proof {
                    assert(self.entries@.skip(i as int)[0] == self.entries@[i as int]);
                }
                return Some(&self.entries[i].1);
            }
            proof {
                assert(self.entries@.skip(i as int)[0] == self.entries@[i as int]);
                assert(self.entries@.skip(i as int).skip(1) =~= self.entries@.skip(i + 1));
            }
            i = i + 1;
        }
        proof {
            assert(self.entries@.skip(i as int) =~= Seq::<(String, String)>::empty());
        }
        None
    }

    /// Insert `(k, v)`; an existing entry named `k` is overwritten.
    pub fn insert(&mut self, k: String, v: String)
        requires
            old(self).wf(),
        ensures
            final(self).wf(),
            forall|k2: Seq<char>|
                final(self).spec_get(k2) == (if k2 == k@ {
                    Option::Some(v@)
                } else {
                    old(self).spec_get(k2)
                }),
    {
        let ghost s0 = self.entries@;
        let ghost gk = k@;
        let found = find_key(&self.entries, &k);
        if let Some(i) = found {
            let ghost idx = i as int;
            self.entries.remove(i);
            proof {
                assert forall|a: int, b: int|
                    0 <= a < b < self.entries@.len() implies self.entries@[a].0@
                    != self.entries@[b].0@ by {
                    assert(self.entries@[a] == (if a < idx {
                        s0[a]
                    } else {
                        s0[a + 1]
                    }));
                    assert(self.entries@[b] == (if b < idx {
                        s0[b]
                    } else {
                        s0[b + 1]
                    }));
                }
                assert forall|j: int| 0 <= j < self.entries@.len() implies self.entries@[j].0@
                    != gk by {
                    assert(self.entries@[j] == (if j < idx {
                        s0[j]
                    } else {
                        s0[j + 1]
                    }));
                }
                assert forall|k2: Seq<char>| k2 != gk implies assoc_get(self.entries@, k2)
                    == assoc_get(s0, k2) by {
                    lemma_assoc_remove(s0, idx, k2);
                }
            }
        }
        let ghost s1 = self.entries@;
        let ghost gp = (k, v);
        self.entries.push((k, v));
        proof {
            assert(self.entries@ == s1.push(gp));
            assert forall|a: int, b: int|
                0 <= a < b < self.entries@.len() implies self.entries@[a].0@
                != self.entries@[b].0@ by {
                if b < s1.len() {
                    assert(self.entries@[a] == s1[a] && self.entries@[b] == s1[b]);
                } else {
                    assert(self.entries@[a] == s1[a] && self.entries@[b] == gp);
                }
            }
            assert forall|k2: Seq<char>|
                assoc_get(self.entries@, k2) == (if k2 == gk {
                    Option::Some(gp.1@)
                } else {
                    assoc_get(s0, k2)
                }) by {
                lemma_assoc_push(s1, gp, k2);
            }
        }
    }
}

pub proof fn lemma_trim_plus_unique(s: Seq<char>, i: int)
    requires
        0 <= i <= s.len(),
        forall|k: int| i <= k < s.len() ==> s[k] == '+',
        i > 0 ==> s[i - 1] != '+',
    ensures
        trim_plus(s) == s.take(i),
{
    lemma_trim_plus(s);
    let m = trim_plus(s).len() as int;
    if m < i {
        assert(s[i - 1] == '+');
    }
    if m > i {
        assert(s[m - 1] == '+');
    }
}

fn name_char_at(s: &str, i: usize) -> (r: bool)
    requires
        i < s@.len(),
    ensures
        r == is_name_char(s@[i as int]),
{
    let c = s.get_char(i);
    let cu = c as u32;
    (97 <= cu && cu <= 122) || (65 <= cu && cu <= 90) || (48 <= cu && cu <= 57) || c == '-' || c
        == '_'
}

/// End of the run of name characters that starts at `from`.
fn scan_name(s: &str, from: usize) -> (e: usize)
    requires
        from <= s@.len(),
    ensures
        from <= e <= s@.len(),
        e - from == run_len(s@.skip(from as int), name_p()),
{
    let n = s.unicode_len();
    let mut i: usize = from;
    while i < n && name_char_at(s, i)
        invariant
            from <= i <= n,
            n == s@.len(),
            forall|j: int| from <= j < i ==> is_name_char(s@[j]),
        decreases n - i,
    {
        i = i + 1;
    }
    proof {
        let u = s@.skip(from as int);
        assert forall|j: int| 0 <= j < i - from implies name_p()(u[j]) by {
            assert(u[j] == s@[from + j]);
        }
        if i < n {
            assert(u[i - from] == s@[i as int]);
        }
        lemma_run_len_unique(u, name_p(), i - from);
    }
    i
}

/// Does `input[lo..hi)` spell the end marker?
fn check_end(input: &str, lo: usize, hi: usize) -> (r: bool)
    requires
        lo <= hi <= input@.len(),
    ensures
        r == end_marker(input@.subrange(lo as int, hi as int)),
{
    if hi - lo != 5 {
        return false;
    }
    let c0 = input.get_char(lo);
    let c1 = input.get_char(lo + 1);
    let c2 = input.get_char(lo + 2);
    let c3 = input.get_char(lo + 3);
    let c4 = input.get_char(lo + 4);
    c0 == ':' && (c1 == 'E' || c1 == 'e') && (c2 == 'N' || c2 == 'n') && (c3 == 'D' || c3 == 'd')
        && c4 == ':'
}

/// Scan the body starting at `b0` for the drawer's closing line; returns the
/// absolute end of the content and the absolute start of what follows.
fn scan_drawer_end(input: &str, b0: usize) -> (r: Option<(usize, usize)>)
    requires
        b0 <= input@.len(),
    ensures
        r is None ==> drawer_scan(input@.skip(b0 as int)) is None,
        r matches Some((ce, ro)) ==> b0 <= ce <= ro <= input@.len() && drawer_scan(
            input@.skip(b0 as int),
        ) == Option::Some((((ce - b0) as nat, (ro - b0) as nat))),
{
    let n = input.unicode_len();
    let mut pos = b0;
    loop
        invariant
            b0 <= pos <= n,
            n == input@.len(),
            drawer_scan(input@.skip(b0 as int)) == (match drawer_scan(input@.skip(pos as int)) {
                Option::None => Option::<(nat, nat)>::None,
                Option::Some((ce, ro)) => Option::Some(
                    (((pos - b0 + ce) as nat, (pos - b0 + ro) as nat)),
                ),
            }),
        decreases n - pos,
    {
        let k = scan_to_newline(input, pos);
        let chi = if k > pos && k < n && input.get_char(k - 1) == '\r' {
            k - 1
        } else {
            k
        };
        let tb = trim_range(input, pos, chi);
        let is_end = check_end(input, tb.0, tb.1);
        let ghost cur = input@.skip(pos as int);
        proof {
            assert(line_content(cur) =~= input@.subrange(pos as int, chi as int));
            assert(is_end == is_end_line(line_content(cur)));
        }
        if is_end {
            let ro = if k < n {
                k + 1
            } else {
                n
            };
            return Some((pos, ro));
        }
        if k == n {
            return None;
        }
        proof {
            assert(cur.skip(k + 1 - pos) =~= input@.skip(k + 1));
        }
        pos = k + 1;
    }
}

/// One `:NAME: value` property line at `pos` of `s`, with blank lines and
/// leading whitespace skipped; `None` when none stands there.
pub fn parse_node_property(s: &str, pos: usize) -> (r: Option<(String, String, usize)>)
    requires
        pos <= s@.len(),
    ensures
        r is None ==> node_prop(s@.skip(pos as int)) is None,
        r matches Some((name, value, newpos)) ==> pos < newpos <= s@.len() && node_prop(
            s@.skip(pos as int),
        ) == Option::Some((((name@, value@), s@.skip(newpos as int)))),
{
    let ghost t0 = s@.skip(pos as int);
    let n = s.unicode_len();
    let a = scan_ws(s, pos);
    let ghost t = t0.skip(run_len(t0, ws_p()) as int);
    proof {
        assert(t =~= s@.skip(a as int));
    }
    if a == n {
        return None;
    }
    if s.get_char(a) != ':' {
        return None;
    }
    let ghost u = t.skip(1);
    proof {
        assert(u =~= s@.skip(a + 1));
        assert(s@.subrange(a + 1, n as int) =~= s@.skip(a + 1));
    }
    let j = scan_to_colon(s, a + 1, n);
    if j == n {
        return None;
    }
    let mut ne = j;
    while ne > a + 1 && s.get_char(ne - 1) == '+'
        invariant
            a + 1 <= ne <= j,
            j < n == s@.len(),
            forall|x: int| ne <= x < j ==> s@[x] == '+',
        decreases ne,
    {
        ne = ne - 1;
    }
    let name = s.substring_char(a + 1, ne).to_owned();
    proof {
        let nm = u.take(j - a - 1);
        assert(nm =~= s@.subrange(a + 1, j as int));
        assert forall|x: int| ne - a - 1 <= x < nm.len() implies nm[x] == '+' by {
            assert(nm[x] == s@[a + 1 + x]);
        }
        if ne > a + 1 {
            assert(nm[ne - a - 2] == s@[ne - 1]);
        }
        lemma_trim_plus_unique(nm, ne - a - 1);
        assert(nm.take(ne - a - 1) =~= s@.subrange(a + 1, ne as int));
        assert(name@ == trim_plus(nm));
    }
    let lr = split_line(s, j + 1);
    let value = s.substring_char(lr.0, lr.1).to_owned();
    let newpos = lr.2;
    proof {
        let after = u.skip(j - a);
        assert(after =~= s@.skip(j + 1));
        assert(value@ == trim_s(line_content(after)));
        assert(s@.skip(newpos as int) =~= s@.subrange(newpos as int, n as int));
        assert(s@.skip(newpos as int) == line_rest(after));
    }
    Some((name, value, newpos))
}

/// Fold every property of the drawer body into a map; later duplicates win.
fn fold_properties(content: &str) -> (props: Properties)
    ensures
        props.wf(),
        forall|k: Seq<char>| #![auto] props.spec_get(k) == last_value(pairs_of(content@), k),
{
    let mut props = Properties::new();
    let mut pos: usize = 0;
    let ghost mut done_pairs: Seq<(Seq<char>, Seq<char>)> = Seq::empty();
    proof {
        assert(content@.skip(0) =~= content@);
        assert(pairs_of(content@) =~= done_pairs + pairs_of(content@.skip(0)));
    }
    loop
        invariant
            pos <= content@.len(),
            props.wf(),
            forall|k: Seq<char>| #![auto] props.spec_get(k) == last_value(done_pairs, k),
            pairs_of(content@) == done_pairs + pairs_of(content@.skip(pos as int)),
        decreases content@.len() - pos,
    {
        let r = parse_node_property(content, pos);
        match r {
            None => {
                proof {
                    assert(pairs_of(content@.skip(pos as int)) =~= Seq::<
                        (Seq<char>, Seq<char>),
                    >::empty());
                    assert(pairs_of(content@) =~= done_pairs);
                }
                return props;
            },
            Some((name, value, newpos)) => {
                let ghost pair = (name@, value@);
                props.insert(name, value);
                proof {
                    let nd = done_pairs.push(pair);
                    assert(nd.drop_last() =~= done_pairs);
                    assert(nd.last() == pair);
                    assert forall|k: Seq<char>| #![auto] props.spec_get(k) == last_value(nd, k) by {
                        if k == pair.0 {
                            assert(last_value(nd, k) == Option::Some(pair.1));
                        } else {
                            assert(last_value(nd, k) == last_value(done_pairs, k));
                        }
                    }
                    assert(pairs_of(content@.skip(pos as int)) == seq![pair] + pairs_of(
                        content@.skip(newpos as int),
                    ));
                    assert(done_pairs + pairs_of(content@.skip(pos as int)) =~= nd + pairs_of(
                        content@.skip(newpos as int),
                    ));
                    done_pairs = nd;
                }
                pos = newpos;
            },
        }
    }
}

/// Recognize a drawer at the start of the input (leading whitespace
/// permitted) and, when its name is exactly `PROPERTIES`, parse its body
/// into a key/value map. `None` both when no complete drawer stands there
/// and when a drawer of another name does: the caller treats either as "no
/// properties present", never as a hard failure.
pub fn parse_properties_drawer(input: &str) -> (r: Option<(String, Properties)>)
    ensures
        r is Some <==> (drawer_found(input@) && drawer_name_of(trim_start_of(input@))
            == "PROPERTIES"@),
        r matches Some((rest, props)) ==> ({
            &&& rest@ == drawer_rest(input@)
            &&& props.wf()
            &&& forall|k: Seq<char>| #![auto]
                props.spec_get(k) == last_value(pairs_of(drawer_content(input@)), k)
        }),
{
    let n = input.unicode_len();
    proof {
        assert(input@.skip(0) =~= input@);
    }
    let t0 = scan_ws(input, 0);
    let ghost t = trim_start_of(input@);
    proof {
        assert(t =~= input@.skip(t0 as int));
    }
    if t0 == n {
        return None;
    }
    if input.get_char(t0) != ':' {
        return None;
    }
    proof {
        assert(t.skip(1) =~= input@.skip(t0 + 1));
    }
    let m_end = scan_name(input, t0 + 1);
    if m_end == t0 + 1 {
        return None;
    }
    if m_end == n {
        return None;
    }
    if input.get_char(m_end) != ':' {
        return None;
    }
    let name = input.substring_char(t0 + 1, m_end).to_owned();
    let k = scan_to_newline(input, m_end + 1);
    let b0 = if k < n {
        k + 1
    } else {
        n
    };
    proof {
        assert(drawer_header_ok(t));
        assert(drawer_name_of(t) =~= input@.subrange(t0 + 1, m_end as int));
        assert(t.skip(2 + run_len(t.skip(1), name_p()) as int) =~= input@.skip(m_end + 1));
        assert(drawer_body(t) =~= input@.skip(b0 as int));
    }
    let scan = scan_drawer_end(input, b0);
    match scan {
        None => None,
        Some((ce, ro)) => {
            let pname = "PROPERTIES".to_owned();
            if name == pname {
                let content = input.substring_char(b0, ce).to_owned();
                let props = fold_properties(content.as_str());
                let rest = input.substring_char(ro, n).to_owned();
                proof {
                    assert(drawer_content(input@) =~= content@);
                    assert(drawer_rest(input@) =~= rest@);
                }
                Some((rest, props))
            } else {
                None
            }
        },
    }
}

/// Position of the entry named `k`, if any.
fn find_key(entries: &Vec<(String, String)>, k: &String) -> (r: Option<usize>)
    ensures
        match r {
            Option::Some(i) => i < entries@.len() && entries@[i as int].0@ == k@,
            Option::None => forall|j: int| 0 <= j < entries@.len() ==> entries@[j].0@ != k@,
        },
{
    let mut i: usize = 0;
    while i < entries.len()
        invariant
            i <= entries@.len(),
            forall|j: int| 0 <= j < i ==> entries@[j].0@ != k@,
        decreases entries@.len() - i,
    {
        if entries[i].0 == *k {
            return Some(i);
        }
        i = i + 1;
    }
    None
}

} // verus!
