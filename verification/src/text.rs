//! Character-level helpers for domain names: dot-separated labels, prefix,
//! suffix and substring tests.

use vstd::prelude::*;
use vstd::std_specs::iter::IteratorSpec;

verus! {

/// Position of the last `'.'` in `s`, or `-1` when `s` holds none.
pub open spec fn last_dot(s: Seq<char>) -> int
    decreases s.len(),
{
    if s.len() == 0 {
        -1
    } else if s.last() == '.' {
        s.len() - 1
    } else {
        last_dot(s.drop_last())
    }
}

/// The dot-separated labels of `s`, left to right. A string without a dot
/// (the empty string included) is a single label.
pub open spec fn labels(s: Seq<char>) -> Seq<Seq<char>>
    decreases s.len(),
{
    let i = last_dot(s);
    if 0 <= i < s.len() {
        labels(s.subrange(0, i)).push(s.subrange(i + 1, s.len() as int))
    } else {
        seq![s]
    }
}

/// `pat` occurs in `s` as a contiguous run of characters.
pub open spec fn has_substring(s: Seq<char>, pat: Seq<char>) -> bool {
    exists|i: int| 0 <= i && i + pat.len() <= s.len() && #[trigger] s.subrange(i, i + pat.len()) == pat
}

/// The views of a vector of character vectors.
pub open spec fn views(v: Seq<Vec<char>>) -> Seq<Seq<char>> {
    v.map_values(|x: Vec<char>| x@)
}

pub proof fn lemma_last_dot_bounds(s: Seq<char>)
    ensures
        -1 <= last_dot(s) < s.len(),
        last_dot(s) >= 0 ==> s[last_dot(s)] == '.',
        forall|j: int| last_dot(s) < j < s.len() ==> s[j] != '.',
    decreases s.len(),
{
    if s.len() > 0 && s.last() != '.' {
        let t = s.drop_last();
        lemma_last_dot_bounds(t);
        assert forall|j: int| last_dot(s) < j < s.len() implies s[j] != '.' by {
            if j < t.len() {
                assert(t[j] == s[j]);
            }
        }
    }
}

/// Appending a character either opens a new empty label (for a dot) or
/// extends the last label.
pub proof fn lemma_labels_push(s: Seq<char>, c: char)
    ensures
        labels(s).len() >= 1,
        c == '.' ==> labels(s.push(c)) == labels(s).push(Seq::<char>::empty()),
        c != '.' ==> labels(s.push(c)) == labels(s).drop_last().push(labels(s).last().push(c)),
{
    let t = s.push(c);
    lemma_last_dot_bounds(s);
    assert(t.drop_last() =~= s);
    if c == '.' {
        assert(last_dot(t) == s.len());
        assert(t.subrange(0, s.len() as int) =~= s);
        assert(t.subrange(s.len() as int + 1, t.len() as int) =~= Seq::<char>::empty());
    } else {
        let i = last_dot(s);
        assert(last_dot(t) == i);
        if i >= 0 {
            assert(t.subrange(0, i) =~= s.subrange(0, i));
            assert(t.subrange(i + 1, t.len() as int) =~= s.subrange(i + 1, s.len() as int).push(c));
            let front = labels(s.subrange(0, i));
            let tail = s.subrange(i + 1, s.len() as int);
            assert(front.push(tail).drop_last() =~= front);
        } else {
            assert(seq![s].drop_last().push(seq![s].last().push(c)) =~= seq![t]);
        }
    }
}

/// The labels of `head`, a dot, `tail` are the labels of `head` followed
/// by the labels of `tail`.
pub proof fn lemma_labels_concat(head: Seq<char>, tail: Seq<char>)
    ensures
        labels(head + seq!['.'] + tail) == labels(head) + labels(tail),
    decreases tail.len(),
{
    if tail.len() == 0 {
        lemma_labels_push(head, '.');
        assert(head + seq!['.'] + tail =~= head.push('.'));
        assert(tail =~= Seq::<char>::empty());
        assert(labels(tail) =~= seq![Seq::<char>::empty()]);
        assert(labels(head).push(Seq::<char>::empty()) =~= labels(head) + seq![Seq::<char>::empty()]);
    } else {
        let init = tail.drop_last();
        let c = tail.last();
        lemma_labels_concat(head, init);
        lemma_labels_push(init, c);
        lemma_labels_push(head + seq!['.'] + init, c);
        assert(tail =~= init.push(c));
        assert(head + seq!['.'] + tail =~= (head + seq!['.'] + init).push(c));
        let a = labels(head);
        let b = labels(init);
        assert(labels(head + seq!['.'] + init) == a + b);
        assert(b.len() >= 1);
        assert((a + b).last() == b.last());
        assert((a + b).drop_last() =~= a + b.drop_last());
        if c == '.' {
            assert((a + b).push(Seq::<char>::empty()) =~= a + b.push(Seq::<char>::empty()));
        } else {
            assert((a + b).drop_last().push((a + b).last().push(c)) =~= a + b.drop_last().push(
                b.last().push(c),
            ));
        }
    }
}

/// The characters of `s`, in order.
pub fn chars_of(s: &str) -> (v: Vec<char>)
    ensures
        v@ == s@,
{
    broadcast use vstd::string::group_string_axioms;

    let mut it = s.chars();
    let mut v: Vec<char> = Vec::new();
    loop
        invariant
            it.obeys_prophetic_iter_laws(),
            v@ + it.remaining() == s@,
            it.decrease() is Some,
        decreases it.decrease()->0,
    {
        let ghost before = it;
        match it.next() {
            Some(c) => {
                assert(v@.push(c) + it.remaining() =~= v@ + before.remaining());
                v.push(c);
            },
            None => {
                assert(v@ + it.remaining() =~= v@);
                return v;
            },
        }
    }
}

/// Splits `s` at every dot.
pub fn split_labels(s: &Vec<char>) -> (out: Vec<Vec<char>>)
    ensures
        views(out@) == labels(s@),
{
    let mut out: Vec<Vec<char>> = Vec::new();
    let mut cur: Vec<char> = Vec::new();
    let mut i: usize = 0;
    assert(s@.subrange(0, 0) =~= Seq::<char>::empty());
    assert(views(out@).push(cur@) =~= seq![Seq::<char>::empty()]);
    while i < s.len()
        invariant
            i <= s.len(),
            labels(s@.subrange(0, i as int)) == views(out@).push(cur@),
        decreases s.len() - i,
    {
        let c = s[i];
        proof {
            let p = s@.subrange(0, i as int);
            lemma_labels_push(p, c);
            assert(p.push(c) =~= s@.subrange(0, i + 1));
            let done = views(out@);
            assert(done.push(cur@).drop_last() =~= done);
            if c == '.' {
                assert(views(out@.push(cur)) =~= done.push(cur@));
            }
        }
        if c == '.' {
            out.push(cur);
            cur = Vec::new();
        } else {
            cur.push(c);
        }
        i += 1;
    }
    assert(s@.subrange(0, i as int) =~= s@);
    proof {
        assert(views(out@.push(cur)) =~= views(out@).push(cur@));
    }
    out.push(cur);
    out
}

/// Whether two character vectors hold the same characters.
pub fn same_chars(a: &Vec<char>, b: &Vec<char>) -> (r: bool)
    ensures
        r == (a@ == b@),
{
    if a.len() != b.len() {
        return false;
    }
    let mut i: usize = 0;
    while i < a.len()
        invariant
            i <= a.len(),
            a.len() == b.len(),
            forall|j: int| 0 <= j < i ==> a@[j] == b@[j],
        decreases a.len() - i,
    {
        if a[i] != b[i] {
            return false;
        }
        i += 1;
    }
    assert(a@ =~= b@);
    true
}

/// Whether `pat` stands in `s` at position `at`.
pub fn occurs_at(s: &Vec<char>, pat: &Vec<char>, at: usize) -> (r: bool)
    requires
        at + pat.len() <= s.len(),
    ensures
        r == (s@.subrange(at as int, at + pat.len()) == pat@),
{
    let mut j: usize = 0;
    while j < pat.len()
        invariant
            j <= pat.len(),
            at + pat.len() <= s.len(),
            forall|k: int| 0 <= k < j ==> s@[at + k] == pat@[k],
        decreases pat.len() - j,
    {
        if s[at + j] != pat[j] {
            assert(s@.subrange(at as int, at + pat.len())[j as int] != pat@[j as int]);
            return false;
        }
        j += 1;
    }
    assert(s@.subrange(at as int, at + pat.len()) =~= pat@);
    true
}

/// Whether `s` begins with `pat`.
pub fn starts_with(s: &Vec<char>, pat: &Vec<char>) -> (r: bool)
    ensures
        r == pat@.is_prefix_of(s@),
{
    if pat.len() > s.len() {
        return false;
    }
    occurs_at(s, pat, 0)
}

/// Whether `s` ends with `pat`.
pub fn ends_with(s: &Vec<char>, pat: &Vec<char>) -> (r: bool)
    ensures
        r == pat@.is_suffix_of(s@),
{
    if pat.len() > s.len() {
        return false;
    }
    occurs_at(s, pat, s.len() - pat.len())
}

/// Whether `pat` occurs anywhere in `s`. The empty pattern occurs in
/// every string.
pub fn contains(s: &Vec<char>, pat: &Vec<char>) -> (r: bool)
    ensures
        r == has_substring(s@, pat@),
{
    if pat.len() > s.len() {
        return false;
    }
    let span: usize = s.len() - pat.len();
    let mut i: usize = 0;
    while i < span
        invariant
            i <= span,
            span == s.len() - pat.len(),
            forall|k: int| 0 <= k < i ==> #[trigger] s@.subrange(k, k + pat.len()) != pat@,
        decreases span - i,
    {
        if occurs_at(s, pat, i) {
            return true;
        }
        i += 1;
    }
    occurs_at(s, pat, span)
}

/// `a`, a dot, then `b`.
pub open spec fn dotted(a: Seq<char>, b: Seq<char>) -> Seq<char> {
    a + seq!['.'] + b
}

/// The labels joined by dots, left to right.
pub open spec fn join_labels(list: Seq<Seq<char>>) -> Seq<char>
    decreases list.len(),
{
    if list.len() == 0 {
        Seq::empty()
    } else if list.len() == 1 {
        list[0]
    } else {
        dotted(join_labels(list.drop_last()), list.last())
    }
}

/// Some word of `words` is `word`.
pub open spec fn listed(words: Seq<Seq<char>>, word: Seq<char>) -> bool {
    exists|i: int| 0 <= i < words.len() && #[trigger] words[i] == word
}

/// The views of a vector of string slices.
pub open spec fn str_views(v: Seq<&str>) -> Seq<Seq<char>> {
    v.map_values(|w: &str| w@)
}

/// Joins two labels with a dot.
pub fn join_with_dot(a: &Vec<char>, b: &Vec<char>) -> (out: Vec<char>)
    ensures
        out@ == dotted(a@, b@),
{
    let mut out: Vec<char> = Vec::new();
    let mut i: usize = 0;
    while i < a.len()
        invariant
            i <= a.len(),
            out@ == a@.subrange(0, i as int),
        decreases a.len() - i,
    {
        out.push(a[i]);
        assert(a@.subrange(0, i as int).push(a@[i as int]) =~= a@.subrange(0, i + 1));
        i += 1;
    }
    assert(a@.subrange(0, i as int) =~= a@);
    out.push('.');
    let mut j: usize = 0;
    while j < b.len()
        invariant
            j <= b.len(),
            out@ == a@ + seq!['.'] + b@.subrange(0, j as int),
        decreases b.len() - j,
    {
        out.push(b[j]);
        assert((a@ + seq!['.'] + b@.subrange(0, j as int)).push(b@[j as int]) =~= a@ + seq!['.']
            + b@.subrange(0, j + 1));
        j += 1;
    }
    assert(b@.subrange(0, j as int) =~= b@);
    out
}

/// Whether `word` is one of `words`.
pub fn is_listed(words: &Vec<&str>, word: &Vec<char>) -> (r: bool)
    ensures
        r == listed(str_views(words@), word@),
{
    let mut i: usize = 0;
    while i < words.len()
        invariant
            i <= words.len(),
            forall|j: int| 0 <= j < i ==> #[trigger] str_views(words@)[j] != word@,
        decreases words.len() - i,
    {
        let w = chars_of(words[i]);
        assert(str_views(words@)[i as int] == w@);
        if same_chars(&w, word) {
            return true;
        }
        i += 1;
    }
    false
}

/// Collects characters into a `String` with std's `FromIterator<char>`
/// for `String`. Trusted: the string holds those characters in order.
#[verifier::external_body]
pub(crate) fn string_of(chars: &Vec<char>) -> (s: String)
    ensures
        s@ == chars@,
{
    chars.iter().collect()
}

/// The lowercase form of a text, as std's `str::to_lowercase` gives it.
pub uninterp spec fn lowercase(text: Seq<char>) -> Seq<char>;

/// The uppercase form of a text, as std's `str::to_uppercase` gives it.
pub uninterp spec fn uppercase(text: Seq<char>) -> Seq<char>;

/// Calls std's `str::to_lowercase`. Trusted: the result is what
/// `lowercase` names for the text.
#[verifier::external_body]
pub(crate) fn to_lowercase(text: &str) -> (s: String)
    ensures
        s@ == lowercase(text@),
{
    text.to_lowercase()
}

/// Calls std's `str::to_uppercase`. Trusted: the result is what
/// `uppercase` names for the text.
#[verifier::external_body]
pub(crate) fn to_uppercase(text: &str) -> (s: String)
    ensures
        s@ == uppercase(text@),
{
    text.to_uppercase()
}

/// What `f` gives for the items of `items`, in order, without the items
/// for which it gives nothing.
pub open spec fn collect<A, T>(items: Seq<A>, f: spec_fn(A) -> Option<T>) -> Seq<T>
    decreases items.len(),
{
    if items.len() == 0 {
        Seq::empty()
    } else {
        let init = collect(items.drop_last(), f);
        match f(items.last()) {
            Some(v) => init.push(v),
            None => init,
        }
    }
}

/// One more item adds what `f` gives for it, if anything.
pub proof fn lemma_collect_step<A, T>(items: Seq<A>, f: spec_fn(A) -> Option<T>, i: int)
    requires
        0 <= i < items.len(),
    ensures
        collect(items.subrange(0, i + 1), f) == match f(items[i]) {
            Some(v) => collect(items.subrange(0, i), f).push(v),
            None => collect(items.subrange(0, i), f),
        },
{
    assert(items.subrange(0, i + 1).drop_last() =~= items.subrange(0, i));
}

/// `collect` holds exactly what `f` gives for some item.
pub proof fn lemma_collect_members<A, T>(items: Seq<A>, f: spec_fn(A) -> Option<T>)
    ensures
        forall|v: T|
            collect(items, f).contains(v) <==> exists|i: int|
                0 <= i < items.len() && f(#[trigger] items[i]) == Some(v),
    decreases items.len(),
{
    let out = collect(items, f);
    if items.len() > 0 {
        let init = items.drop_last();
        let n = init.len() as int;
        lemma_collect_members(init, f);
        assert forall|v: T|
            out.contains(v) <==> exists|i: int|
                0 <= i < items.len() && f(#[trigger] items[i]) == Some(v) by {
            if out.contains(v) {
                let k = choose|k: int| 0 <= k < out.len() && out[k] == v;
                if k < collect(init, f).len() {
                    assert(collect(init, f)[k] == v);
                    assert(collect(init, f).contains(v));
                    let i = choose|i: int| 0 <= i < init.len() && f(#[trigger] init[i]) == Some(v);
                    assert(items[i] == init[i]);
                } else {
                    assert(f(items[n]) == Some(v));
                }
            }
            if exists|i: int| 0 <= i < items.len() && f(#[trigger] items[i]) == Some(v) {
                let i = choose|i: int| 0 <= i < items.len() && f(#[trigger] items[i]) == Some(v);
                if i < n {
                    assert(init[i] == items[i]);
                    assert(collect(init, f).contains(v));
                    let k = choose|k: int| 0 <= k < collect(init, f).len() && collect(init, f)[k] == v;
                    assert(out[k] == v);
                } else {
                    assert(out[out.len() - 1] == v);
                }
            }
        }
    } else {
        assert forall|v: T| !out.contains(v) by {}
    }
}

} // verus!
