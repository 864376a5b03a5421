//! Reading the load of an inference engine out of the text that its
//! `/metrics` endpoint serves (Prometheus exposition format).
//!
//! Two gauges matter: the number of requests running and the number of
//! requests waiting. For each of them the reading is the last
//! whitespace-separated field of the last line that begins with the gauge's
//! name. Turning that field into a number is left to the caller.
use vstd::prelude::*;
use crate::opt_view;

verus! {

/// `c` has the Unicode `White_Space` property (what `char::is_whitespace`
/// tests, and so what `str::split_whitespace` splits on).
pub open spec fn is_space(c: char) -> bool {
    let n = c as u32;
    ||| 0x09 <= n <= 0x0d
    ||| n == 0x20
    ||| n == 0x85
    ||| n == 0xa0
    ||| n == 0x1680
    ||| 0x2000 <= n <= 0x200a
    ||| n == 0x2028
    ||| n == 0x2029
    ||| n == 0x202f
    ||| n == 0x205f
    ||| n == 0x3000
}

/// Executable form of [`is_space`].
pub fn space(c: char) -> (b: bool)
    ensures
        b == is_space(c),
{
    let n: u32 = c as u32;
    (0x09 <= n && n <= 0x0d) || n == 0x20 || n == 0x85 || n == 0xa0 || n == 0x1680 || (0x2000
        <= n && n <= 0x200a) || n == 0x2028 || n == 0x2029 || n == 0x202f || n == 0x205f || n
        == 0x3000
}

/// The run of non-space characters at the very end of `s` (empty when `s`
/// ends in a space or is empty).
pub open spec fn trailing_word(s: Seq<char>) -> Seq<char>
    decreases s.len(),
{
    if s.len() == 0 || is_space(s.last()) {
        Seq::empty()
    } else {
        trailing_word(s.drop_last()).push(s.last())
    }
}

/// The last whitespace-separated field of `s`, empty when `s` holds none.
pub open spec fn last_field(s: Seq<char>) -> Seq<char>
    decreases s.len(),
{
    if s.len() == 0 {
        Seq::empty()
    } else if is_space(s.last()) {
        last_field(s.drop_last())
    } else {
        trailing_word(s)
    }
}

/// `a` is where a line of `t` begins.
pub open spec fn is_line_start(t: Seq<char>, a: int) -> bool {
    a == 0 || (0 < a <= t.len() && t[a - 1] == '\n')
}

/// Where the line that runs from `a` ends: the first `'\n'` at or after `a`,
/// or the end of `t`.
pub open spec fn line_end(t: Seq<char>, a: int) -> int
    decreases t.len() - a,
{
    if a < 0 || a >= t.len() {
        t.len() as int
    } else if t[a] == '\n' {
        a
    } else {
        line_end(t, a + 1)
    }
}

/// The line of `t` that begins at `a`, without its `'\n'`.
pub open spec fn line_at(t: Seq<char>, a: int) -> Seq<char> {
    t.subrange(a, line_end(t, a))
}

/// `s` begins with `p`.
pub open spec fn has_prefix(s: Seq<char>, p: Seq<char>) -> bool {
    p.len() <= s.len() && s.subrange(0, p.len() as int) == p
}

/// The start of the last line that begins before position `k` and starts
/// with `p`.
pub open spec fn last_line_with_prefix_before(t: Seq<char>, p: Seq<char>, k: int) -> Option<int>
    decreases k,
{
    if k <= 0 {
        None
    } else if is_line_start(t, k - 1) && has_prefix(line_at(t, k - 1), p) {
        Some(k - 1)
    } else {
        last_line_with_prefix_before(t, p, k - 1)
    }
}

/// The start of the last line of `t` that starts with `p`.
pub open spec fn last_line_with_prefix(t: Seq<char>, p: Seq<char>) -> Option<int> {
    last_line_with_prefix_before(t, p, t.len() + 1int)
}

/// The reading of the gauge named `p` in `t`: the last field of the last line
/// that starts with `p`, or `None` when no line does.
///
/// Lines are split at `'\n'` only. A `'\r'` before it is whitespace, so it is
/// never part of the last field, and lines split this way give the same
/// readings as lines split at `"\r\n"` too.
pub open spec fn gauge_reading(t: Seq<char>, p: Seq<char>) -> Option<Seq<char>> {
    match last_line_with_prefix(t, p) {
        Some(a) => Some(last_field(line_at(t, a))),
        None => None,
    }
}

/// The name of the gauge of running requests.
pub open spec fn running_gauge() -> Seq<char> {
    "vllm:num_requests_running"@
}

/// The name of the gauge of waiting requests.
pub open spec fn waiting_gauge() -> Seq<char> {
    "vllm:num_requests_waiting"@
}

/// The characters of `text`, one per element.
pub fn chars_of(text: &str) -> (v: Vec<char>)
    ensures
        v@ == text@,
{
    let mut v: Vec<char> = Vec::new();
    for c in it: text.chars()
        invariant
            v@ == it.seq().take(it.index() as int),
            it.seq() == text@,
    {
        v.push(c);
    }
    v
}


/// What a scrape of `/metrics` says of the two gauges: the raw field of each,
/// or `None` where the text has no line for it.
pub struct LoadReadings {
    pub running: Option<String>,
    pub waiting: Option<String>,
}

/// Where the line of `t` that begins at `a` ends.
fn line_end_at(t: &Vec<char>, a: usize) -> (e: usize)
    requires
        a <= t@.len(),
    ensures
        e == line_end(t@, a as int),
        a <= e <= t@.len(),
        forall|i: int| a <= i < e ==> t@[i] != '\n',
        e < t@.len() ==> t@[e as int] == '\n',
{
    let mut j: usize = a;
    while j < t.len() && t[j] != '\n'
        invariant
            a <= j <= t@.len(),
            forall|i: int| a <= i < j ==> t@[i] != '\n',
            line_end(t@, a as int) == line_end(t@, j as int),
        decreases t@.len() - j,
    {
        j = j + 1;
    }
    j
}

/// Whether the characters `t[a..e]` begin with `p`.
fn begins_with(t: &Vec<char>, a: usize, e: usize, p: &Vec<char>) -> (b: bool)
    requires
        a <= e <= t@.len(),
    ensures
        b == has_prefix(t@.subrange(a as int, e as int), p@),
{
    let ghost line = t@.subrange(a as int, e as int);
    if p.len() > e - a {
        return false;
    }
    let mut k: usize = 0;
    while k < p.len()
        invariant
            p@.len() <= e - a,
            a <= e <= t@.len(),
            k <= p@.len(),
            line == t@.subrange(a as int, e as int),
            forall|i: int| 0 <= i < k ==> line[i] == p@[i],
        decreases p@.len() - k,
    {
        if t[a + k] != p[k] {
            assert(line.subrange(0, p@.len() as int)[k as int] != p@[k as int]);
            return false;
        }
        k = k + 1;
    }
    assert(line.subrange(0, p@.len() as int) =~= p@);
    true
}

/// Bounds of the last field of the characters `t[a..e]`.
fn last_field_bounds(t: &Vec<char>, a: usize, e: usize) -> (r: (usize, usize))
    requires
        a <= e <= t@.len(),
    ensures
        a <= r.0 <= r.1 <= e,
        t@.subrange(r.0 as int, r.1 as int) == last_field(t@.subrange(a as int, e as int)),
{
    let mut j: usize = e;
    while j > a && space(t[j - 1])
        invariant
            a <= j <= e <= t@.len(),
            last_field(t@.subrange(a as int, e as int)) == last_field(
                t@.subrange(a as int, j as int),
            ),
        decreases j - a,
    {
        assert(t@.subrange(a as int, j - 1) =~= t@.subrange(a as int, j as int).drop_last());
        j = j - 1;
    }
    let f: usize = j;
    // `t[a..f]` is empty or ends in a non-space, so its last field is its trailing word.
    assert(last_field(t@.subrange(a as int, f as int)) == trailing_word(
        t@.subrange(a as int, f as int),
    ));
    while j > a && !space(t[j - 1])
        invariant
            a <= j <= f <= e <= t@.len(),
            trailing_word(t@.subrange(a as int, f as int)) == trailing_word(
                t@.subrange(a as int, j as int),
            ) + t@.subrange(j as int, f as int),
        decreases j - a,
    {
        let ghost s = t@.subrange(a as int, j as int);
        assert(s.drop_last() =~= t@.subrange(a as int, j - 1));
        assert(t@.subrange(j - 1, f as int) =~= seq![s.last()] + t@.subrange(j as int, f as int));
        assert(trailing_word(s) == trailing_word(s.drop_last()).push(s.last()));
        assert(trailing_word(s.drop_last()).push(s.last()) + t@.subrange(j as int, f as int)
            =~= trailing_word(s.drop_last()) + t@.subrange(j - 1, f as int));
        j = j - 1;
    }
    assert(trailing_word(t@.subrange(a as int, j as int)) =~= Seq::<char>::empty());
    assert(t@.subrange(j as int, f as int) =~= Seq::<char>::empty() + t@.subrange(
        j as int,
        f as int,
    ));
    (j, f)
}

/// Positions that begin no line add no candidate.
pub proof fn lemma_no_line_starts_between(t: Seq<char>, p: Seq<char>, lo: int, hi: int)
    requires
        0 <= lo <= hi,
        forall|x: int| lo <= x < hi ==> !is_line_start(t, x),
    ensures
        last_line_with_prefix_before(t, p, hi) == last_line_with_prefix_before(t, p, lo),
    decreases hi - lo,
{
    if hi > lo {
        lemma_no_line_starts_between(t, p, lo, hi - 1);
    }
}

/// Bounds of the last line of `t` that starts with `p`.
fn last_line_with(t: &Vec<char>, p: &Vec<char>) -> (r: Option<(usize, usize)>)
    ensures
        match r {
            Some((a, e)) => last_line_with_prefix(t@, p@) == Some(a as int) && e == line_end(
                t@,
                a as int,
            ) && a <= e <= t@.len(),
            None => last_line_with_prefix(t@, p@) is None,
        },
{
    let mut best: Option<(usize, usize)> = None;
    let mut a: usize = 0;
    loop
        invariant
            a <= t@.len(),
            is_line_start(t@, a as int),
            match best {
                Some((b, e)) => last_line_with_prefix_before(t@, p@, a as int) == Some(b as int)
                    && e == line_end(t@, b as int) && b <= e <= t@.len(),
                None => last_line_with_prefix_before(t@, p@, a as int) is None,
            },
        decreases t@.len() - a,
    {
        let e = line_end_at(t, a);
        if begins_with(t, a, e, p) {
            best = Some((a, e));
        }
        assert forall|x: int| a + 1 <= x < e + 1 implies !is_line_start(t@, x) by {
            assert(t@[x - 1] != '\n');
        }
        proof {
            lemma_no_line_starts_between(t@, p@, a + 1, e + 1);
        }
        if e == t.len() {
            return best;
        }
        a = e + 1;
    }
}

/// Reads the two load gauges out of the text served by `/metrics`.
///
/// For each gauge the result holds the last whitespace-separated field of the
/// last line that begins with the gauge's name, and `None` when no line does.
/// A later line for a gauge overrides an earlier one, whatever its field
/// holds; lines of comments and other metrics are passed over.
pub fn scan_load_metrics(text: &str) -> (r: LoadReadings)
    ensures
        opt_view(r.running) == gauge_reading(text@, running_gauge()),
        opt_view(r.waiting) == gauge_reading(text@, waiting_gauge()),
{
    let t = chars_of(text);
    let running = chars_of("vllm:num_requests_running");
    let waiting = chars_of("vllm:num_requests_waiting");
    LoadReadings {
        running: gauge_field(text, &t, &running),
        waiting: gauge_field(text, &t, &waiting),
    }
}

/// The field that `text` holds for the gauge named `p`.
fn gauge_field(text: &str, t: &Vec<char>, p: &Vec<char>) -> (r: Option<String>)
    requires
        t@ == text@,
    ensures
        opt_view(r) == gauge_reading(text@, p@),
{
    match last_line_with(t, p) {
        Some((a, e)) => {
            let (s, f) = last_field_bounds(t, a, e);
            Some(text.substring_char(s, f).to_owned())
        },
        None => None,
    }
}


proof fn lemma_line_end_without_newline(s: Seq<char>, a: int)
    requires
        0 <= a <= s.len(),
        forall|i: int| a <= i < s.len() ==> s[i] != '\n',
    ensures
        line_end(s, a) == s.len(),
    decreases s.len() - a,
{
    if a < s.len() {
        lemma_line_end_without_newline(s, a + 1);
    }
}

proof fn lemma_line_end_in_prefix(t: Seq<char>, t2: Seq<char>, a: int)
    requires
        0 <= a <= t.len(),
        t2.len() > t.len(),
        t2[t.len() as int] == '\n',
        forall|i: int| 0 <= i < t.len() ==> t2[i] == t[i],
    ensures
        line_end(t2, a) == line_end(t, a),
    decreases t.len() - a,
{
    if a < t.len() {
        lemma_line_end_in_prefix(t, t2, a + 1);
    }
}

proof fn lemma_earlier_lines_kept(t: Seq<char>, t2: Seq<char>, p: Seq<char>, k: int)
    requires
        0 <= k <= t.len() + 1,
        t2.len() > t.len(),
        t2[t.len() as int] == '\n',
        forall|i: int| 0 <= i < t.len() ==> t2[i] == t[i],
    ensures
        last_line_with_prefix_before(t2, p, k) == last_line_with_prefix_before(t, p, k),
        forall|a: int| 0 <= a < k ==> line_at(t2, a) == line_at(t, a),
    decreases k,
{
    if k > 0 {
        lemma_earlier_lines_kept(t, t2, p, k - 1);
        let a = k - 1;
        lemma_line_end_in_prefix(t, t2, a);
        lemma_line_end_bounds(t, a);
        assert(line_at(t2, a) =~= line_at(t, a));
        assert(is_line_start(t2, a) == is_line_start(t, a));
    }
}

/// A line ends within its text, at or after its start.
pub proof fn lemma_line_end_bounds(t: Seq<char>, a: int)
    requires
        0 <= a <= t.len(),
    ensures
        a <= line_end(t, a) <= t.len(),
    decreases t.len() - a,
{
    if a < t.len() && t[a] != '\n' {
        lemma_line_end_bounds(t, a + 1);
    }
}

/// Adding a line `l` at the end of the text: if it is a line of gauge `p`, it
/// alone gives the gauge's reading; otherwise the reading stays what it was.
/// So the last line of a gauge decides its reading, and lines of other
/// metrics change nothing.
pub proof fn law_last_line_decides(t: Seq<char>, l: Seq<char>, p: Seq<char>)
    requires
        forall|i: int| 0 <= i < l.len() ==> l[i] != '\n',
    ensures
        gauge_reading(t + seq!['\n'] + l, p) == if has_prefix(l, p) {
            Some(last_field(l))
        } else {
            gauge_reading(t, p)
        },
{
    let t2 = t + seq!['\n'] + l;
    let a: int = t.len() + 1int;
    assert(t2[t.len() as int] == '\n');
    assert forall|i: int| 0 <= i < t.len() implies t2[i] == t[i] by {}
    assert forall|i: int| a <= i < t2.len() implies t2[i] != '\n' by {
        assert(t2[i] == l[i - a]);
    }
    lemma_line_end_without_newline(t2, a);
    assert(line_at(t2, a) =~= l);
    assert forall|x: int| a + 1 <= x < t2.len() + 1 implies !is_line_start(t2, x) by {
        assert(t2[x - 1] != '\n');
    }
    lemma_no_line_starts_between(t2, p, a + 1, t2.len() + 1int);
    lemma_earlier_lines_kept(t, t2, p, t.len() + 1int);
    assert(is_line_start(t2, a));
    match last_line_with_prefix(t, p) {
        Some(b) => {
            lemma_last_line_in_range(t, p, t.len() + 1int);
            assert(line_at(t2, b) == line_at(t, b));
        },
        None => {},
    }
}

proof fn lemma_last_line_in_range(t: Seq<char>, p: Seq<char>, k: int)
    ensures
        last_line_with_prefix_before(t, p, k) matches Some(b) ==> 0 <= b < k,
    decreases k,
{
    if k > 0 {
        lemma_last_line_in_range(t, p, k - 1);
    }
}

/// The text `a + l + "\n" + b`: the line `l` put in at position `a.len()`.
pub open spec fn with_line(a: Seq<char>, l: Seq<char>, b: Seq<char>) -> Seq<char> {
    a + l + seq!['\n'] + b
}

/// A position of `a + b`, moved past a line of length `len` put in at
/// position `at`.
spec fn moved(x: int, at: int, len: int) -> int {
    if x >= at {
        x + len + 1
    } else {
        x
    }
}

proof fn lemma_line_end_before_insert(a: Seq<char>, l: Seq<char>, b: Seq<char>, x: int)
    requires
        a.len() > 0,
        a.last() == '\n',
        0 <= x < a.len(),
    ensures
        line_end(with_line(a, l, b), x) == line_end(a + b, x),
        line_end(a + b, x) < a.len(),
    decreases a.len() - x,
{
    let t = a + b;
    let t2 = with_line(a, l, b);
    assert(t[x] == a[x]);
    assert(t2[x] == a[x]);
    if a[x] != '\n' {
        assert(x != a.len() - 1);
        lemma_line_end_before_insert(a, l, b, x + 1);
    }
}

proof fn lemma_line_end_after_insert(a: Seq<char>, l: Seq<char>, b: Seq<char>, x: int)
    requires
        a.len() <= x <= a.len() + b.len(),
    ensures
        line_end(with_line(a, l, b), x + l.len() + 1) == line_end(a + b, x) + l.len() + 1,
    decreases a.len() + b.len() - x,
{
    let t = a + b;
    let t2 = with_line(a, l, b);
    let d = l.len() + 1;
    if x < t.len() {
        assert(t[x] == b[x - a.len()]);
        assert(t2[x + d] == b[x - a.len()]);
        if t[x] != '\n' {
            lemma_line_end_after_insert(a, l, b, x + 1);
        }
    }
}

proof fn lemma_lines_kept_around_insert(a: Seq<char>, l: Seq<char>, b: Seq<char>, x: int)
    requires
        a.len() == 0 || a.last() == '\n',
        0 <= x <= a.len() + b.len(),
    ensures
        is_line_start(with_line(a, l, b), moved(x, a.len() as int, l.len() as int)) == is_line_start(a + b, x),
        line_at(with_line(a, l, b), moved(x, a.len() as int, l.len() as int)) == line_at(a + b, x),
{
    let t = a + b;
    let t2 = with_line(a, l, b);
    let d = l.len() + 1;
    let y = moved(x, a.len() as int, l.len() as int);
    if x < a.len() {
        lemma_line_end_before_insert(a, l, b, x);
        lemma_line_end_bounds(t, x);
        assert(line_at(t2, x) =~= line_at(t, x));
        if x > 0 {
            assert(t[x - 1] == t2[x - 1]);
        }
    } else {
        lemma_line_end_after_insert(a, l, b, x);
        lemma_line_end_bounds(t, x);
        assert(line_at(t2, y) =~= line_at(t, x));
        if x > a.len() {
            assert(t[x - 1] == t2[y - 1]);
        } else {
            assert(t2[y - 1] == '\n');
            if a.len() > 0 {
                assert(t[x - 1] == a.last());
            }
        }
    }
}

proof fn lemma_before_insert_point(a: Seq<char>, l: Seq<char>, b: Seq<char>, p: Seq<char>, k: int)
    requires
        a.len() == 0 || a.last() == '\n',
        0 <= k <= a.len(),
    ensures
        last_line_with_prefix_before(with_line(a, l, b), p, k) == last_line_with_prefix_before(a + b, p, k),
    decreases k,
{
    if k > 0 {
        lemma_before_insert_point(a, l, b, p, k - 1);
        lemma_lines_kept_around_insert(a, l, b, k - 1);
    }
}

/// The candidate `o` of `a + b`, moved as its line is in `with_line(a, l, b)`.
spec fn moved_candidate(o: Option<int>, at: int, len: int) -> Option<int> {
    match o {
        Some(x) => Some(moved(x, at, len)),
        None => None,
    }
}

proof fn lemma_before_after_insert(a: Seq<char>, l: Seq<char>, b: Seq<char>, p: Seq<char>, j: int)
    requires
        a.len() == 0 || a.last() == '\n',
        forall|i: int| 0 <= i < l.len() ==> l[i] != '\n',
        !has_prefix(l, p),
        0 <= j <= b.len() + 1,
    ensures
        last_line_with_prefix_before(with_line(a, l, b), p, a.len() + l.len() + 1 + j)
            == moved_candidate(last_line_with_prefix_before(a + b, p, a.len() + j), a.len() as int, l.len() as int),
    decreases j,
{
    let t = a + b;
    let t2 = with_line(a, l, b);
    let at = a.len() as int;
    let d = l.len() + 1;
    if j == 0 {
        // The inserted line itself is no line of `p`, and nothing in it
        // begins a line.
        lemma_before_insert_point(a, l, b, p, at);
        assert forall|i: int| at <= i < at + l.len() implies t2[i] != '\n' by {
            assert(t2[i] == l[i - at]);
        }
        assert(t2[at + l.len()] == '\n');
        lemma_line_end_of_inserted(t2, at, at + l.len());
        assert(line_at(t2, at) =~= l);
        assert forall|x: int| at + 1 <= x < at + d implies !is_line_start(t2, x) by {
            assert(t2[x - 1] == l[x - 1 - at]);
        }
        lemma_no_line_starts_between(t2, p, at + 1, at + d);
        lemma_last_line_in_range(t, p, at);
    } else {
        lemma_before_after_insert(a, l, b, p, j - 1);
        lemma_lines_kept_around_insert(a, l, b, at + j - 1);
    }
}

proof fn lemma_line_end_of_inserted(t: Seq<char>, a: int, e: int)
    requires
        0 <= a <= e < t.len(),
        t[e] == '\n',
        forall|i: int| a <= i < e ==> t[i] != '\n',
    ensures
        line_end(t, a) == e,
    decreases e - a,
{
    if a < e {
        lemma_line_end_of_inserted(t, a + 1, e);
    }
}

/// Putting a line that is not a line of gauge `p` anywhere between the lines
/// of a text leaves the gauge's reading as it was; so does taking such a line
/// out (read the equation the other way). Lines of comments, empty lines and
/// lines of other metrics are such lines.
pub proof fn law_unrelated_line_changes_nothing(a: Seq<char>, l: Seq<char>, b: Seq<char>, p: Seq<char>)
    requires
        a.len() == 0 || a.last() == '\n',
        forall|i: int| 0 <= i < l.len() ==> l[i] != '\n',
        !has_prefix(l, p),
    ensures
        gauge_reading(with_line(a, l, b), p) == gauge_reading(a + b, p),
{
    let t = a + b;
    let t2 = with_line(a, l, b);
    let at = a.len() as int;
    lemma_before_after_insert(a, l, b, p, b.len() + 1int);
    assert(t2.len() + 1 == at + l.len() + 1 + (b.len() + 1));
    assert(t.len() + 1 == at + (b.len() + 1));
    lemma_last_line_in_range(t, p, t.len() + 1int);
    match last_line_with_prefix(t, p) {
        Some(x) => {
            lemma_lines_kept_around_insert(a, l, b, x);
        },
        None => {},
    }
}

proof fn lemma_trailing_word_at(s: Seq<char>) -> (i: int)
    ensures
        0 <= i <= s.len(),
        trailing_word(s) == s.subrange(i, s.len() as int),
        forall|k: int| i <= k < s.len() ==> !is_space(#[trigger] s[k]),
        i == 0 || is_space(s[i - 1]),
    decreases s.len(),
{
    if s.len() == 0 || is_space(s.last()) {
        assert(s.subrange(s.len() as int, s.len() as int) =~= Seq::<char>::empty());
        s.len() as int
    } else {
        let i = lemma_trailing_word_at(s.drop_last());
        assert(s.drop_last().subrange(i, s.len() - 1).push(s.last()) =~= s.subrange(i, s.len() as int));
        assert forall|k: int| i <= k < s.len() implies !is_space(#[trigger] s[k]) by {
            if k < s.len() - 1 {
                assert(s[k] == s.drop_last()[k]);
            }
        }
        if i > 0 {
            assert(s[i - 1] == s.drop_last()[i - 1]);
        }
        i
    }
}

proof fn lemma_last_field_at(s: Seq<char>) -> (r: (int, int))
    ensures
        0 <= r.0 <= r.1 <= s.len(),
        last_field(s) == s.subrange(r.0, r.1),
        forall|k: int| r.0 <= k < r.1 ==> !is_space(#[trigger] s[k]),
        forall|k: int| r.1 <= k < s.len() ==> is_space(#[trigger] s[k]),
        r.0 == 0 || is_space(s[r.0 - 1]),
        r.0 == r.1 ==> forall|k: int| 0 <= k < s.len() ==> is_space(#[trigger] s[k]),
    decreases s.len(),
{
    if s.len() == 0 {
        assert(s.subrange(0, 0) =~= Seq::<char>::empty());
        (0, 0)
    } else if is_space(s.last()) {
        let r = lemma_last_field_at(s.drop_last());
        assert(s.drop_last().subrange(r.0, r.1) =~= s.subrange(r.0, r.1));
        assert forall|k: int| r.0 <= k < r.1 implies !is_space(#[trigger] s[k]) by {
            assert(s[k] == s.drop_last()[k]);
        }
        assert forall|k: int| r.1 <= k < s.len() implies is_space(#[trigger] s[k]) by {
            if k < s.len() - 1 {
                assert(s[k] == s.drop_last()[k]);
            }
        }
        if r.0 > 0 {
            assert(s[r.0 - 1] == s.drop_last()[r.0 - 1]);
        }
        if r.0 == r.1 {
            assert forall|k: int| 0 <= k < s.len() implies is_space(#[trigger] s[k]) by {
                if k < s.len() - 1 {
                    assert(s[k] == s.drop_last()[k]);
                }
            }
        }
        r
    } else {
        let i = lemma_trailing_word_at(s);
        (i, s.len() as int)
    }
}

/// What the reading of a line is, in plain terms: a run of characters that
/// are not whitespace, preceded by whitespace or the start of the line and
/// followed only by whitespace up to the end of the line; empty only when
/// the line is all whitespace.
pub proof fn law_last_field_is_last_word(s: Seq<char>)
    ensures
        exists|i: int, j: int|
            0 <= i <= j <= s.len() && last_field(s) == s.subrange(i, j) && (forall|k: int|
                i <= k < j ==> !is_space(#[trigger] s[k])) && (forall|k: int|
                j <= k < s.len() ==> is_space(#[trigger] s[k])) && (i == 0 || is_space(s[i - 1])),
        last_field(s).len() == 0 ==> forall|k: int| 0 <= k < s.len() ==> is_space(#[trigger] s[k]),
{
    let r = lemma_last_field_at(s);
    assert(last_field(s) == s.subrange(r.0, r.1));
}

} // verus!
