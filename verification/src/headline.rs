//! The headline-line parser: one physical line is read as a marker run
//! (the level), an optional state keyword from the caller's vocabulary, an
//! optional priority cookie, the raw title text, and trailing colon-tags.

use vstd::prelude::*;
use vstd::seq_lib::*;

use crate::config::ParseConfig;
use crate::text::{
    blank_p, find_last_space, is_ws, last_space, line_content, line_rest, not_colon_p, run_len,
    scan_blanks, scan_stars, scan_to_colon, scan_word, star_p, split_line, strs, trim_range,
    trim_s, word_p,
};

verus! {

pub open spec fn is_upper(c: char) -> bool {
    'A' as u32 <= c as u32 && c as u32 <= 'Z' as u32
}

/// A priority cookie is exactly `[#X]` with `X` an uppercase ASCII letter.
pub open spec fn cookie_ok(word: Seq<char>) -> bool {
    word.len() == 4 && word[0] == '[' && word[1] == '#' && is_upper(word[2]) && word[3] == ']'
}

/// The marker-run length at the start of `s`.
pub open spec fn spec_level(s: Seq<char>) -> nat {
    run_len(s, star_p())
}

pub open spec fn after_stars(s: Seq<char>) -> Seq<char> {
    s.skip(spec_level(s) as int)
}

/// The whitespace-delimited word after the leading blanks of `u`.
pub open spec fn next_word(u: Seq<char>) -> Seq<char> {
    let b = run_len(u, blank_p()) as int;
    let w = run_len(u.skip(b), word_p()) as int;
    u.subrange(b, b + w)
}

/// End position (in `u`) of the leading blanks plus the next word.
pub open spec fn next_word_end(u: Seq<char>) -> int {
    let b = run_len(u, blank_p()) as int;
    let w = run_len(u.skip(b), word_p()) as int;
    b + w
}

/// The keyword is consumed only when at least one blank precedes a non-empty
/// word that the vocabulary contains.
pub open spec fn kw_taken(u: Seq<char>, todo: Seq<Seq<char>>, done: Seq<Seq<char>>) -> bool {
    run_len(u, blank_p()) >= 1 && next_word(u).len() >= 1 && (todo.contains(next_word(u))
        || done.contains(next_word(u)))
}

pub open spec fn after_kw(u: Seq<char>, todo: Seq<Seq<char>>, done: Seq<Seq<char>>) -> Seq<
    char,
> {
    if kw_taken(u, todo, done) {
        u.skip(next_word_end(u))
    } else {
        u
    }
}

/// The priority cookie is consumed only when at least one blank precedes a
/// word of exactly the cookie shape.
pub open spec fn prio_taken(v: Seq<char>) -> bool {
    run_len(v, blank_p()) >= 1 && cookie_ok(next_word(v))
}

pub open spec fn after_prio(v: Seq<char>) -> Seq<char> {
    if prio_taken(v) {
        v.skip(next_word_end(v))
    } else {
        v
    }
}

/// What is left after the level, keyword and priority stages.
pub open spec fn stage_prio(s: Seq<char>, todo: Seq<Seq<char>>, done: Seq<Seq<char>>) -> Seq<
    char,
> {
    after_prio(after_kw(after_stars(s), todo, done))
}

pub open spec fn spec_keyword(s: Seq<char>, todo: Seq<Seq<char>>, done: Seq<Seq<char>>) -> Option<
    Seq<char>,
> {
    if kw_taken(after_stars(s), todo, done) {
        Option::Some(next_word(after_stars(s)))
    } else {
        Option::None
    }
}

pub open spec fn spec_priority(
    s: Seq<char>,
    todo: Seq<Seq<char>>,
    done: Seq<Seq<char>>,
) -> Option<char> {
    let v = after_kw(after_stars(s), todo, done);
    if prio_taken(v) {
        Option::Some(next_word(v)[2])
    } else {
        Option::None
    }
}

/// The trimmed remainder of the headline's physical line.
pub open spec fn spec_tail(s: Seq<char>, todo: Seq<Seq<char>>, done: Seq<Seq<char>>) -> Seq<
    char,
> {
    trim_s(line_content(stage_prio(s, todo, done)))
}

/// The input that follows the headline's physical line.
pub open spec fn spec_rest(s: Seq<char>, todo: Seq<Seq<char>>, done: Seq<Seq<char>>) -> Seq<
    char,
> {
    line_rest(stage_prio(s, todo, done))
}

/// The candidate tag block: what follows the last space of the trimmed tail.
pub open spec fn tag_block(tail: Seq<char>) -> Seq<char> {
    tail.skip(last_space(tail) + 1)
}

/// The tail splits into title and tags only when a space precedes a block
/// of more than two characters that both starts and ends with a colon.
pub open spec fn tag_split_ok(tail: Seq<char>) -> bool {
    last_space(tail) >= 0 && tag_block(tail).len() > 2 && tag_block(tail)[0] == ':' && tag_block(
        tail,
    )[tag_block(tail).len() - 1] == ':'
}

pub open spec fn nonempty_p() -> spec_fn(Seq<char>) -> bool {
    |t: Seq<char>| t.len() > 0
}

/// Split on colons, in order, dropping empty segments later via `filter`.
pub open spec fn split_colon(s: Seq<char>) -> Seq<Seq<char>>
    decreases s.len(),
{
    let k = run_len(s, not_colon_p()) as int;
    if k >= s.len() {
        seq![s]
    } else {
        seq![s.take(k)] + split_colon(s.skip(k + 1))
    }
}

/// The raw title: the trimmed part before the last space when the tag split
/// is accepted, the whole tail otherwise.
pub open spec fn split_raw(tail: Seq<char>) -> Seq<char> {
    if tag_split_ok(tail) {
        trim_s(tail.take(last_space(tail)))
    } else {
        tail
    }
}

/// The tags: the non-empty colon-separated segments of the accepted block,
/// left to right, duplicates kept.
pub open spec fn split_tags(tail: Seq<char>) -> Seq<Seq<char>> {
    if tag_split_ok(tail) {
        split_colon(tag_block(tail)).filter(nonempty_p())
    } else {
        Seq::empty()
    }
}

pub open spec fn spec_raw(s: Seq<char>, todo: Seq<Seq<char>>, done: Seq<Seq<char>>) -> Seq<
    char,
> {
    split_raw(spec_tail(s, todo, done))
}

pub open spec fn spec_tags(s: Seq<char>, todo: Seq<Seq<char>>, done: Seq<Seq<char>>) -> Seq<
    Seq<char>,
> {
    split_tags(spec_tail(s, todo, done))
}

pub open spec fn opt_str(o: Option<String>) -> Option<Seq<char>> {
    match o {
        Option::Some(s) => Option::Some(s@),
        Option::None => Option::None,
    }
}

proof fn lemma_filter_singleton(x: Seq<char>, pred: spec_fn(Seq<char>) -> bool)
    ensures
        seq![x].filter(pred) == (if pred(x) {
            seq![x]
        } else {
            Seq::<Seq<char>>::empty()
        }),
{
    reveal_with_fuel(Seq::filter, 2);
    assert(seq![x].drop_last() =~= Seq::<Seq<char>>::empty());
    if pred(x) {
        assert(Seq::<Seq<char>>::empty().push(x) =~= seq![x]);
    }
}

/// Law: a headline that starts with a marker run of length `n` (n >= 1)
/// parses with `level == n`.
pub proof fn lemma_level_counts_markers(s: Seq<char>, n: nat)
    requires
        1 <= n <= s.len(),
        forall|j: int| 0 <= j < n ==> s[j] == '*',
        n < s.len() ==> s[n as int] != '*',
    ensures
        spec_level(s) == n,
{
    crate::text::lemma_run_len_unique(s, star_p(), n as int);
}

/// The tag list written back as a block: `":t1:t2:...:tn:"` without its
/// opening colon.
pub open spec fn join_rest(tags: Seq<Seq<char>>) -> Seq<char>
    decreases tags.len(),
{
    if tags.len() == 0 {
        Seq::empty()
    } else {
        tags.first() + seq![':'] + join_rest(tags.drop_first())
    }
}

/// The tag list written back as a block, opening colon included.
pub open spec fn join_tags(tags: Seq<Seq<char>>) -> Seq<char> {
    seq![':'] + join_rest(tags)
}

/// A tag as the splitter produces it: non-empty, without colons or spaces.
pub open spec fn plain_tag(t: Seq<char>) -> bool {
    t.len() > 0 && forall|i: int| 0 <= i < t.len() ==> t[i] != ':' && t[i] != ' '
}

proof fn lemma_join_rest_props(tags: Seq<Seq<char>>)
    requires
        forall|i: int| 0 <= i < tags.len() ==> plain_tag(tags[i]),
    ensures
        join_rest(tags).len() >= 2 * tags.len(),
        tags.len() > 0 ==> join_rest(tags)[join_rest(tags).len() - 1] == ':',
        forall|x: int| 0 <= x < join_rest(tags).len() ==> join_rest(tags)[x] != ' ',
    decreases tags.len(),
{
    if tags.len() > 0 {
        let t0 = tags.first();
        let rest = tags.drop_first();
        assert forall|i: int| 0 <= i < rest.len() implies plain_tag(rest[i]) by {
            assert(rest[i] == tags[i + 1]);
        }
        lemma_join_rest_props(rest);
        let jr = join_rest(tags);
        assert(jr == t0 + seq![':'] + join_rest(rest));
        assert(t0.len() > 0);
        assert forall|x: int| 0 <= x < jr.len() implies jr[x] != ' ' by {
            if x < t0.len() {
                assert(jr[x] == t0[x]);
            } else if x == t0.len() {
                assert(jr[x] == ':');
            } else {
                assert(jr[x] == join_rest(rest)[x - t0.len() - 1]);
            }
        }
        if rest.len() == 0 {
            assert(jr[jr.len() - 1] == ':');
        } else {
            assert(jr[jr.len() - 1] == join_rest(rest)[join_rest(rest).len() - 1]);
        }
    }
}

proof fn lemma_split_join_rest(tags: Seq<Seq<char>>)
    requires
        forall|i: int| 0 <= i < tags.len() ==> plain_tag(tags[i]),
    ensures
        split_colon(join_rest(tags)).filter(nonempty_p()) == tags,
    decreases tags.len(),
{
    if tags.len() == 0 {
        let e = Seq::<char>::empty();
        assert(run_len(e, not_colon_p()) == 0);
        assert(split_colon(e) == seq![e]);
        lemma_filter_singleton(e, nonempty_p());
        assert(split_colon(join_rest(tags)).filter(nonempty_p()) =~= tags);
    } else {
        let t0 = tags.first();
        let rest = tags.drop_first();
        assert forall|i: int| 0 <= i < rest.len() implies plain_tag(rest[i]) by {
            assert(rest[i] == tags[i + 1]);
        }
        let jr = join_rest(tags);
        assert(jr == t0 + seq![':'] + join_rest(rest));
        assert forall|j: int| 0 <= j < t0.len() implies not_colon_p()(jr[j]) by {
            assert(jr[j] == t0[j]);
        }
        assert(jr[t0.len() as int] == ':');
        crate::text::lemma_run_len_unique(jr, not_colon_p(), t0.len() as int);
        let k = t0.len() as int;
        assert(k < jr.len());
        assert(split_colon(jr) == seq![jr.take(k)] + split_colon(jr.skip(k + 1)));
        assert(jr.take(k) =~= t0);
        assert(jr.skip(k + 1) =~= join_rest(rest));
        Seq::filter_distributes_over_add(seq![t0], split_colon(join_rest(rest)), nonempty_p());
        lemma_filter_singleton(t0, nonempty_p());
        lemma_split_join_rest(rest);
        assert(split_colon(jr).filter(nonempty_p()) =~= seq![t0] + rest);
        assert(seq![t0] + rest =~= tags);
    }
}

/// Law: the tag round trip. For any trimmed, non-empty raw title text and
/// any non-empty list of tags as the splitter produces them, the rebuilt
/// tail `"<raw> :<tag1>:<tag2>:...:"` splits back into exactly the same raw
/// text and the same tag list, in the same order.
pub proof fn lemma_tags_round_trip(raw: Seq<char>, tags: Seq<Seq<char>>)
    requires
        raw.len() > 0,
        !is_ws(raw[0]),
        !is_ws(raw[raw.len() - 1]),
        tags.len() > 0,
        forall|i: int| 0 <= i < tags.len() ==> plain_tag(tags[i]),
    ensures
        split_raw(raw + seq![' '] + join_tags(tags)) == raw,
        split_tags(raw + seq![' '] + join_tags(tags)) == tags,
{
    let block = join_tags(tags);
    let jr = join_rest(tags);
    let whole = raw + seq![' '] + block;
    lemma_join_rest_props(tags);
    assert(block[0] == ':');
    assert(block.len() == 1 + jr.len());
    assert(block[block.len() - 1] == jr[jr.len() - 1]);
    assert forall|j: int| raw.len() < j < whole.len() implies whole[j] != ' ' by {
        if j == raw.len() + 1 {
            assert(whole[j] == block[0]);
        } else {
            assert(whole[j] == jr[j - raw.len() - 2]);
        }
    }
    assert(whole[raw.len() as int] == ' ');
    crate::text::lemma_last_space_unique(whole, raw.len() as int);
    assert(tag_block(whole) =~= block);
    assert(tag_split_ok(whole));
    assert(whole.take(last_space(whole)) =~= raw);
    crate::text::lemma_trim_unique(raw, 0, raw.len() as int);
    assert(raw.subrange(0, raw.len() as int) =~= raw);
    assert(split_raw(whole) == raw);
    crate::text::lemma_run_len_unique(block, not_colon_p(), 0);
    assert(split_colon(block) == seq![block.take(0)] + split_colon(block.skip(1)));
    assert(block.take(0) =~= Seq::<char>::empty());
    assert(block.skip(1) =~= jr);
    Seq::filter_distributes_over_add(
        seq![Seq::<char>::empty()],
        split_colon(jr),
        nonempty_p(),
    );
    lemma_filter_singleton(Seq::<char>::empty(), nonempty_p());
    lemma_split_join_rest(tags);
    assert(split_tags(whole) =~= tags);
}

/// The non-empty colon-separated segments of `input[lo..hi)`.
fn split_tags_exec(input: &str, lo: usize, hi: usize) -> (tags: Vec<String>)
    requires
        lo <= hi <= input@.len(),
    ensures
        strs(tags@) == split_colon(input@.subrange(lo as int, hi as int)).filter(nonempty_p()),
{
    let ghost block = input@.subrange(lo as int, hi as int);
    let mut tags: Vec<String> = Vec::new();
    let mut pos: usize = lo;
    proof {
        assert(strs(tags@) =~= Seq::<Seq<char>>::empty());
    }
    loop
        invariant_except_break
            lo <= pos <= hi <= input@.len(),
            block == input@.subrange(lo as int, hi as int),
            strs(tags@) + split_colon(input@.subrange(pos as int, hi as int)).filter(nonempty_p())
                == split_colon(block).filter(nonempty_p()),
        ensures
            strs(tags@) == split_colon(block).filter(nonempty_p()),
        decreases hi - pos,
    {
        let e = scan_to_colon(input, pos, hi);
        let ghost cur = input@.subrange(pos as int, hi as int);
        let ghost k = (e - pos) as int;
        let ghost old_tags = tags@;
        if e > pos {
            let seg = input.substring_char(pos, e).to_owned();
            tags.push(seg);
            proof {
                assert(seg@ =~= cur.take(k));
                assert(strs(tags@) =~= strs(old_tags) + seq![cur.take(k)]);
            }
        }
        proof {
            assert(cur.take(k) =~= input@.subrange(pos as int, e as int));
            if e == hi {
                assert(split_colon(cur) == seq![cur]);
                lemma_filter_singleton(cur, nonempty_p());
                assert(cur.take(k) =~= cur);
                if e > pos {
                    assert(strs(tags@) =~= split_colon(block).filter(nonempty_p()));
                } else {
                    assert(strs(tags@) =~= split_colon(block).filter(nonempty_p()));
                }
            } else {
                assert(split_colon(cur) == seq![cur.take(k)] + split_colon(cur.skip(k + 1)));
                Seq::filter_distributes_over_add(
                    seq![cur.take(k)],
                    split_colon(cur.skip(k + 1)),
                    nonempty_p(),
                );
                lemma_filter_singleton(cur.take(k), nonempty_p());
                assert(cur.skip(k + 1) =~= input@.subrange(e + 1, hi as int));
                if e > pos {
                    assert(strs(tags@) + split_colon(cur.skip(k + 1)).filter(nonempty_p())
                        =~= split_colon(block).filter(nonempty_p()));
                } else {
                    assert(strs(tags@) + split_colon(cur.skip(k + 1)).filter(nonempty_p())
                        =~= split_colon(block).filter(nonempty_p()));
                }
            }
        }
        if e == hi {
            break;
        }
        pos = e + 1;
    }
    tags
}

/// The keyword attempt: consume a blank-separated word only when the
/// vocabulary contains it.
fn attempt_keyword(input: &str, pos: usize, config: &ParseConfig) -> (r: (Option<String>, usize))
    requires
        pos <= input@.len(),
    ensures
        pos <= r.1 <= input@.len(),
        opt_str(r.0) == (if kw_taken(input@.skip(pos as int), config.todo(), config.done()) {
            Option::Some(next_word(input@.skip(pos as int)))
        } else {
            Option::<Seq<char>>::None
        }),
        input@.skip(r.1 as int) == after_kw(
            input@.skip(pos as int),
            config.todo(),
            config.done(),
        ),
{
    let ghost u = input@.skip(pos as int);
    let p2 = scan_blanks(input, pos);
    let p3 = scan_word(input, p2);
    proof {
        assert(u.skip(p2 - pos) =~= input@.skip(p2 as int));
        assert(next_word(u) =~= input@.subrange(p2 as int, p3 as int));
    }
    let mut keyword: Option<String> = None;
    let mut newpos = pos;
    if p2 > pos && p3 > p2 {
        let word = input.substring_char(p2, p3).to_owned();
        proof {
            assert(word@ =~= next_word(u));
        }
        if config.contains_keyword(&word) {
            keyword = Some(word);
            newpos = p3;
        }
    }
    proof {
        if kw_taken(u, config.todo(), config.done()) {
            assert(u.skip(next_word_end(u)) =~= input@.skip(newpos as int));
        } else {
            assert(input@.skip(newpos as int) == u);
        }
    }
    (keyword, newpos)
}

/// The priority-cookie attempt: consume a blank-separated word only when it
/// is exactly `[#X]` with an uppercase letter.
fn attempt_priority(input: &str, pos: usize) -> (r: (Option<char>, usize))
    requires
        pos <= input@.len(),
    ensures
        pos <= r.1 <= input@.len(),
        r.0 == (if prio_taken(input@.skip(pos as int)) {
            Option::Some(next_word(input@.skip(pos as int))[2])
        } else {
            Option::<char>::None
        }),
        input@.skip(r.1 as int) == after_prio(input@.skip(pos as int)),
{
    let ghost v = input@.skip(pos as int);
    let q2 = scan_blanks(input, pos);
    let q3 = scan_word(input, q2);
    proof {
        assert(v.skip(q2 - pos) =~= input@.skip(q2 as int));
        assert(next_word(v) =~= input@.subrange(q2 as int, q3 as int));
    }
    let mut priority: Option<char> = None;
    let mut newpos = pos;
    if q2 > pos && q3 - q2 == 4 {
        let c0 = input.get_char(q2);
        let c1 = input.get_char(q2 + 1);
        let c2 = input.get_char(q2 + 2);
        let c3 = input.get_char(q2 + 3);
        let cu = c2 as u32;
        if c0 == '[' && c1 == '#' && 65 <= cu && cu <= 90 && c3 == ']' {
            priority = Some(c2);
            newpos = q3;
        }
    }
    proof {
        assert(prio_taken(v) <==> priority is Some);
        if prio_taken(v) {
            assert(v.skip(next_word_end(v)) =~= input@.skip(newpos as int));
        } else {
            assert(input@.skip(newpos as int) == v);
        }
    }
    (priority, newpos)
}

/// Apply the tag-split rule to the trimmed tail `input[tlo..thi)`.
fn extract_tags(input: &str, tlo: usize, thi: usize) -> (r: (String, Vec<String>))
    requires
        tlo <= thi <= input@.len(),
    ensures
        r.0@ == split_raw(input@.subrange(tlo as int, thi as int)),
        strs(r.1@) == split_tags(input@.subrange(tlo as int, thi as int)),
{
    let ghost tail = input@.subrange(tlo as int, thi as int);
    let m = find_last_space(input, tlo, thi);
    let mut raw_lo = tlo;
    let mut raw_hi = thi;
    let mut tags: Vec<String> = Vec::new();
    if m > tlo && thi - m > 2 && input.get_char(m) == ':' && input.get_char(thi - 1) == ':' {
        proof {
            assert(tag_block(tail) =~= input@.subrange(m as int, thi as int));
            assert(tag_block(tail)[0] == input@[m as int]);
            assert(tag_block(tail)[tag_block(tail).len() - 1] == input@[thi - 1]);
            assert(tag_split_ok(tail));
            assert(tail.take(last_space(tail)) =~= input@.subrange(tlo as int, m - 1));
        }
        let rr = trim_range(input, tlo, m - 1);
        raw_lo = rr.0;
        raw_hi = rr.1;
        tags = split_tags_exec(input, m, thi);
        proof {
            assert(strs(tags@) == split_tags(tail));
            assert(input@.subrange(raw_lo as int, raw_hi as int) == split_raw(tail));
        }
    } else {
        proof {
            if m > tlo {
                assert(tag_block(tail) =~= input@.subrange(m as int, thi as int));
                if tag_block(tail).len() > 2 {
                    assert(tag_block(tail)[0] == input@[m as int]);
                    assert(tag_block(tail)[tag_block(tail).len() - 1] == input@[thi - 1]);
                }
                assert(!tag_split_ok(tail));
            } else {
                assert(!tag_split_ok(tail));
            }
            assert(strs(tags@) =~= split_tags(tail));
            assert(input@.subrange(raw_lo as int, raw_hi as int) == split_raw(tail));
        }
    }
    let raw = input.substring_char(raw_lo, raw_hi).to_owned();
    (raw, tags)
}

/// Parse one headline line: the marker run (level), then an optional
/// vocabulary keyword, an optional priority cookie, and the remainder of the
/// physical line split into trimmed title text and trailing tags.
///
/// Returns `None` exactly when the input does not start with a marker
/// character; malformed structure otherwise degrades into plain title text.
/// On success the result is `(rest_of_input, (level, keyword, priority, raw,
/// tags))`.
pub fn parse_headline(input: &str, config: &ParseConfig) -> (r: Option<
    (String, (usize, Option<String>, Option<char>, String, Vec<String>)),
>)
    ensures
        r is Some <==> spec_level(input@) >= 1,
        r matches Some((rest, (level, keyword, priority, raw, tags))) ==> ({
            &&& level == spec_level(input@)
            &&& opt_str(keyword) == spec_keyword(input@, config.todo(), config.done())
            &&& priority == spec_priority(input@, config.todo(), config.done())
            &&& raw@ == spec_raw(input@, config.todo(), config.done())
            &&& strs(tags@) == spec_tags(input@, config.todo(), config.done())
            &&& rest@ == spec_rest(input@, config.todo(), config.done())
        }),
{
    let ghost todo = config.todo();
    let ghost dones = config.done();
    proof {
        assert(input@.skip(0) =~= input@);
    }
    let level = scan_stars(input, 0);
    if level == 0 {
        return None;
    }
    proof {
        assert(after_stars(input@) =~= input@.skip(level as int));
    }
    let kw = attempt_keyword(input, level, config);
    let keyword = kw.0;
    let pos1 = kw.1;
    let pr = attempt_priority(input, pos1);
    let priority = pr.0;
    let pos2 = pr.1;
    proof {
        assert(input@.skip(pos2 as int) == stage_prio(input@, todo, dones));
    }
    let lr = split_line(input, pos2);
    let rt = extract_tags(input, lr.0, lr.1);
    let n = input.unicode_len();
    let rest = input.substring_char(lr.2, n).to_owned();
    proof {
        assert(input@.subrange(lr.2 as int, input@.len() as int) =~= input@.subrange(
            lr.2 as int,
            n as int,
        ));
        assert(rest@ == spec_rest(input@, todo, dones));
        assert(rt.0@ == spec_raw(input@, todo, dones));
        assert(strs(rt.1@) == spec_tags(input@, todo, dones));
    }
    Some((rest, (level, keyword, priority, rt.0, rt.1)))
}

} // verus!

