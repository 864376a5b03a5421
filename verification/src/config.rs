//! Reading the list of engines from its textual form: comma-separated URLs,
//! each with the whitespace around it removed, empty entries left out.
use vstd::prelude::*;
use crate::metrics_text::{chars_of, is_space, space};
use crate::ranking::views;

verus! {

/// `s` without its leading whitespace.
pub open spec fn trim_start(s: Seq<char>) -> Seq<char>
    decreases s.len(),
{
    if s.len() > 0 && is_space(s[0]) {
        trim_start(s.drop_first())
    } else {
        s
    }
}

/// `s` without its trailing whitespace.
pub open spec fn trim_end(s: Seq<char>) -> Seq<char>
    decreases s.len(),
{
    if s.len() > 0 && is_space(s.last()) {
        trim_end(s.drop_last())
    } else {
        s
    }
}

/// `s` without whitespace at either end (what `str::trim` gives).
pub open spec fn trim(s: Seq<char>) -> Seq<char> {
    trim_end(trim_start(s))
}

/// Where the comma-separated entry of `t` that begins at `a` ends: the next
/// comma, or the end of `t`.
pub open spec fn entry_end(t: Seq<char>, a: int) -> int
    decreases t.len() - a,
{
    if a < 0 || a >= t.len() {
        t.len() as int
    } else if t[a] == ',' {
        a
    } else {
        entry_end(t, a + 1)
    }
}

/// An entry ends at or after its start, and within the text.
pub proof fn lemma_entry_end_bounds(t: Seq<char>, a: int)
    requires
        0 <= a <= t.len(),
    ensures
        a <= entry_end(t, a) <= t.len(),
    decreases t.len() - a,
{
    if a < t.len() && t[a] != ',' {
        lemma_entry_end_bounds(t, a + 1);
    }
}

/// The trimmed, non-empty entries of `t` from the entry that begins at `a`.
pub open spec fn entries_from(t: Seq<char>, a: int) -> Seq<Seq<char>>
    decreases t.len() - a,
{
    if a < 0 || a > t.len() {
        Seq::empty()
    } else {
        let e = entry_end(t, a);
        let rest = if e < t.len() {
            proof {
                lemma_entry_end_bounds(t, a);
            }
            entries_from(t, e + 1)
        } else {
            Seq::empty()
        };
        let entry = trim(t.subrange(a, e));
        if entry.len() > 0 {
            seq![entry] + rest
        } else {
            rest
        }
    }
}

/// The engines that a comma-separated list names.
pub open spec fn endpoint_list(t: Seq<char>) -> Seq<Seq<char>> {
    entries_from(t, 0)
}

/// Where the entry of `t` that begins at `a` ends.
fn entry_end_at(t: &Vec<char>, a: usize) -> (e: usize)
    requires
        a <= t@.len(),
    ensures
        e == entry_end(t@, a as int),
        a <= e <= t@.len(),
{
    let mut j: usize = a;
    while j < t.len() && t[j] != ','
        invariant
            a <= j <= t@.len(),
            entry_end(t@, a as int) == entry_end(t@, j as int),
        decreases t@.len() - j,
    {
        j = j + 1;
    }
    j
}

/// Bounds of `t[a..e]` with the whitespace at both ends removed.
fn trim_bounds(t: &Vec<char>, a: usize, e: usize) -> (r: (usize, usize))
    requires
        a <= e <= t@.len(),
    ensures
        a <= r.0 <= r.1 <= e,
        t@.subrange(r.0 as int, r.1 as int) == trim(t@.subrange(a as int, e as int)),
{
    let mut i: usize = a;
    while i < e && space(t[i])
        invariant
            a <= i <= e <= t@.len(),
            trim_start(t@.subrange(a as int, e as int)) == trim_start(t@.subrange(i as int, e as int)),
        decreases e - i,
    {
        assert(t@.subrange(i as int, e as int).drop_first() =~= t@.subrange(i + 1, e as int));
        i = i + 1;
    }
    assert(trim_start(t@.subrange(i as int, e as int)) == t@.subrange(i as int, e as int));
    let mut j: usize = e;
    while j > i && space(t[j - 1])
        invariant
            a <= i <= j <= e <= t@.len(),
            trim(t@.subrange(a as int, e as int)) == trim_end(t@.subrange(i as int, j as int)),
        decreases j - i,
    {
        assert(t@.subrange(i as int, j as int).drop_last() =~= t@.subrange(i as int, j - 1));
        j = j - 1;
    }
    (i, j)
}

/// The engines named by a comma-separated list: each entry with the
/// whitespace around it removed, empty entries left out, in the order given.
pub fn parse_endpoint_list(text: &str) -> (endpoints: Vec<String>)
    ensures
        views(endpoints@) == endpoint_list(text@),
{
    let t = chars_of(text);
    let mut endpoints: Vec<String> = Vec::new();
    let mut a: usize = 0;
    loop
        invariant
            t@ == text@,
            a <= t@.len(),
            views(endpoints@) + entries_from(t@, a as int) == endpoint_list(t@),
        decreases t@.len() - a,
    {
        let e = entry_end_at(&t, a);
        let (i, j) = trim_bounds(&t, a, e);
        let ghost before = views(endpoints@);
        if i < j {
            endpoints.push(text.substring_char(i, j).to_owned());
            assert(views(endpoints@) =~= before.push(t@.subrange(i as int, j as int)));
        }
        if e == t.len() {
            assert(entries_from(t@, a as int) == (if i < j {
                seq![t@.subrange(i as int, j as int)]
            } else {
                Seq::empty()
            }));
            if i < j {
                assert(views(endpoints@) =~= before + seq![t@.subrange(i as int, j as int)]);
            } else {
                assert(views(endpoints@) =~= before + Seq::<Seq<char>>::empty());
            }
            return endpoints;
        }
        if i < j {
            assert(entries_from(t@, a as int) == seq![t@.subrange(i as int, j as int)] + entries_from(t@, e + 1));
            assert(before + entries_from(t@, a as int) =~= views(endpoints@) + entries_from(t@, e + 1));
        }
        a = e + 1;
    }
}

proof fn lemma_trim_start_at(s: Seq<char>) -> (i: int)
    ensures
        0 <= i <= s.len(),
        trim_start(s) == s.subrange(i, s.len() as int),
        forall|k: int| 0 <= k < i ==> is_space(#[trigger] s[k]),
        i < s.len() ==> !is_space(s[i]),
    decreases s.len(),
{
    if s.len() > 0 && is_space(s[0]) {
        let i1 = lemma_trim_start_at(s.drop_first());
        assert(s.drop_first().subrange(i1, s.len() - 1) =~= s.subrange(i1 + 1, s.len() as int));
        assert forall|k: int| 0 <= k < i1 + 1 implies is_space(#[trigger] s[k]) by {
            if k > 0 {
                assert(s[k] == s.drop_first()[k - 1]);
            }
        }
        i1 + 1
    } else {
        assert(s.subrange(0, s.len() as int) =~= s);
        0
    }
}

proof fn lemma_trim_end_at(s: Seq<char>) -> (j: int)
    ensures
        0 <= j <= s.len(),
        trim_end(s) == s.subrange(0, j),
        forall|k: int| j <= k < s.len() ==> is_space(#[trigger] s[k]),
        j > 0 ==> !is_space(s[j - 1]),
    decreases s.len(),
{
    if s.len() > 0 && is_space(s.last()) {
        let j1 = lemma_trim_end_at(s.drop_last());
        assert(s.drop_last().subrange(0, j1) =~= s.subrange(0, j1));
        assert forall|k: int| j1 <= k < s.len() implies is_space(#[trigger] s[k]) by {
            if k < s.len() - 1 {
                assert(s[k] == s.drop_last()[k]);
            }
        }
        j1
    } else {
        assert(s.subrange(0, s.len() as int) =~= s);
        s.len() as int
    }
}

/// What trimming does: it keeps the part of `s` between its leading and its
/// trailing whitespace, which starts and ends with a character that is not
/// whitespace, or keeps nothing when `s` is all whitespace.
pub proof fn law_trim_keeps_the_middle(s: Seq<char>)
    ensures
        exists|i: int, j: int|
            0 <= i <= j <= s.len() && trim(s) == s.subrange(i, j) && (forall|k: int|
                0 <= k < i ==> is_space(#[trigger] s[k])) && (forall|k: int|
                j <= k < s.len() ==> is_space(#[trigger] s[k])) && (i < j ==> !is_space(s[i])
                && !is_space(s[j - 1])),
{
    let i = lemma_trim_start_at(s);
    let u = s.subrange(i, s.len() as int);
    let j1 = lemma_trim_end_at(u);
    let j = i + j1;
    assert(u.subrange(0, j1) =~= s.subrange(i, j));
    assert forall|k: int| j <= k < s.len() implies is_space(#[trigger] s[k]) by {
        assert(s[k] == u[k - i]);
    }
    if i < j {
        assert(s[j - 1] == u[j1 - 1]);
    }
}

proof fn lemma_entry_end_no_comma(t: Seq<char>, a: int, e: int)
    requires
        0 <= a <= e <= t.len(),
        e == t.len() || t[e] == ',',
        forall|k: int| a <= k < e ==> t[k] != ',',
    ensures
        entry_end(t, a) == e,
    decreases e - a,
{
    if a < e {
        lemma_entry_end_no_comma(t, a + 1, e);
    }
}

proof fn lemma_entry_end_shift(x: Seq<char>, y: Seq<char>, k: int)
    requires
        0 <= k <= y.len(),
    ensures
        entry_end(x + y, x.len() + k) == x.len() + entry_end(y, k),
    decreases y.len() - k,
{
    if k < y.len() {
        assert((x + y)[x.len() + k] == y[k]);
        if y[k] != ',' {
            lemma_entry_end_shift(x, y, k + 1);
        }
    }
}

proof fn lemma_entries_shift(x: Seq<char>, y: Seq<char>, k: int)
    requires
        0 <= k <= y.len(),
    ensures
        entries_from(x + y, x.len() + k) == entries_from(y, k),
    decreases y.len() - k,
{
    let t = x + y;
    lemma_entry_end_shift(x, y, k);
    lemma_entry_end_bounds(y, k);
    let e = entry_end(y, k);
    assert(t.subrange(x.len() + k, x.len() + e) =~= y.subrange(k, e));
    if e < y.len() {
        lemma_entries_shift(x, y, e + 1);
        assert(x.len() + e + 1 == x.len() + (e + 1));
    }
}

/// The entries of a list whose first entry `a` holds no comma: that entry,
/// trimmed, when it is not empty, then the entries of the rest. With the
/// next law, the list has one entry per non-empty field, in order.
pub proof fn law_first_entry_then_rest(a: Seq<char>, b: Seq<char>)
    requires
        forall|k: int| 0 <= k < a.len() ==> a[k] != ',',
    ensures
        endpoint_list(a + seq![','] + b) == (if trim(a).len() > 0 {
            seq![trim(a)]
        } else {
            Seq::empty()
        }) + endpoint_list(b),
{
    let x = a + seq![','];
    let t = x + b;
    assert forall|k: int| 0 <= k < a.len() implies t[k] != ',' by {
        assert(t[k] == a[k]);
    }
    assert(t[a.len() as int] == ',');
    lemma_entry_end_no_comma(t, 0, a.len() as int);
    assert(t.subrange(0, a.len() as int) =~= a);
    lemma_entries_shift(x, b, 0);
    assert(x.len() + 0 == a.len() + 1);
    if trim(a).len() == 0 {
        assert(Seq::<Seq<char>>::empty() + endpoint_list(b) =~= endpoint_list(b));
    }
}

/// A list without a comma names one engine, the text trimmed, or none when
/// the text is all whitespace.
pub proof fn law_single_entry(a: Seq<char>)
    requires
        forall|k: int| 0 <= k < a.len() ==> a[k] != ',',
    ensures
        endpoint_list(a) == (if trim(a).len() > 0 {
            seq![trim(a)]
        } else {
            Seq::empty()
        }),
{
    lemma_entry_end_no_comma(a, 0, a.len() as int);
    assert(a.subrange(0, a.len() as int) =~= a);
    if trim(a).len() > 0 {
        assert(seq![trim(a)] + Seq::<Seq<char>>::empty() =~= seq![trim(a)]);
    }
}

} // verus!
