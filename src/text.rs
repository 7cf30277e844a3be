//! Small verified helpers on text.

use vstd::prelude::*;

verus! {

/// Whether `s` begins with `prefix`.
pub open spec fn has_prefix(s: Seq<char>, prefix: Seq<char>) -> bool {
    prefix.len() <= s.len() && s.subrange(0, prefix.len() as int) == prefix
}

/// Character-wise equality of two strings.
pub fn str_equal(a: &str, b: &str) -> (r: bool)
    ensures
        r == (a@ == b@),
{
    let n = a.unicode_len();
    if n != b.unicode_len() {
        return false;
    }
    let mut i: usize = 0;
    while i < n
        invariant
            n == a@.len(),
            n == b@.len(),
            i <= n,
            forall|j: int| 0 <= j < i ==> a@[j] == b@[j],
        decreases n - i,
    {
        if a.get_char(i) != b.get_char(i) {
            return false;
        }
        i += 1;
    }
    assert(a@ =~= b@);
    true
}

/// Whether `s` begins with `prefix`.
pub fn starts_with(s: &str, prefix: &str) -> (r: bool)
    ensures
        r == has_prefix(s@, prefix@),
{
    let n = prefix.unicode_len();
    if n > s.unicode_len() {
        return false;
    }
    let mut i: usize = 0;
    while i < n
        invariant
            n == prefix@.len(),
            n <= s@.len(),
            i <= n,
            forall|j: int| 0 <= j < i ==> s@[j] == prefix@[j],
        decreases n - i,
    {
        if s.get_char(i) != prefix.get_char(i) {
            assert(s@.subrange(0, n as int)[i as int] != prefix@[i as int]);
            return false;
        }
        i += 1;
    }
    assert(s@.subrange(0, n as int) =~= prefix@);
    true
}

/// `s` without `prefix` when it begins with it, else `s` unchanged.
pub open spec fn strip_prefix_spec(s: Seq<char>, prefix: Seq<char>) -> Seq<char> {
    if has_prefix(s, prefix) {
        s.subrange(prefix.len() as int, s.len() as int)
    } else {
        s
    }
}

/// Removes `prefix` from the front of `s` where it stands there.
pub fn strip_prefix(s: &str, prefix: &str) -> (r: String)
    ensures
        r@ == strip_prefix_spec(s@, prefix@),
{
    if starts_with(s, prefix) {
        let sub = s.substring_char(prefix.unicode_len(), s.unicode_len());
        sub.to_string()
    } else {
        s.to_string()
    }
}

/// The texts of a list of strings.
pub open spec fn views(v: Seq<String>) -> Seq<Seq<char>> {
    v.map_values(|s: String| s@)
}

/// Whether `x` occurs in `v`.
pub fn contains_str(v: &Vec<String>, x: &str) -> (r: bool)
    ensures
        r == views(v@).contains(x@),
{
    let mut i: usize = 0;
    while i < v.len()
        invariant
            i <= v.len(),
            forall|j: int| 0 <= j < i ==> v@[j]@ != x@,
        decreases v.len() - i,
    {
        if str_equal(v[i].as_str(), x) {
            assert(views(v@)[i as int] == x@);
            return true;
        }
        i += 1;
    }
    assert(!views(v@).contains(x@)) by {
        if views(v@).contains(x@) {
            let k = choose|k: int| 0 <= k < v@.len() && #[trigger] views(v@)[k] == x@;
            assert(v@[k]@ == x@);
        }
    }
    false
}

/// A list without repeats whose items all occur in `b` is no longer than `b`.
pub proof fn lemma_no_dup_within_len<T>(a: Seq<T>, b: Seq<T>)
    requires
        a.no_duplicates(),
        forall|x: T| a.contains(x) ==> b.contains(x),
    ensures
        a.len() <= b.len(),
{
    a.unique_seq_to_set();
    b.lemma_cardinality_of_set();
    assert(a.to_set().subset_of(b.to_set()));
    vstd::set_lib::lemma_len_subset(a.to_set(), b.to_set());
}

/// Pushing an item that is not there keeps a list free of repeats.
pub proof fn lemma_push_fresh<T>(s: Seq<T>, x: T)
    requires
        s.no_duplicates(),
        !s.contains(x),
    ensures
        s.push(x).no_duplicates(),
        forall|y: T| s.push(x).contains(y) <==> (s.contains(y) || y == x),
{
    assert forall|y: T| s.push(x).contains(y) <==> (s.contains(y) || y == x) by {
        if s.push(x).contains(y) {
            let k = choose|k: int| 0 <= k < s.push(x).len() && s.push(x)[k] == y;
            if k < s.len() {
                assert(s[k] == y);
            }
        }
        if s.contains(y) {
            let k = choose|k: int| 0 <= k < s.len() && s[k] == y;
            assert(s.push(x)[k] == y);
        }
        if y == x {
            assert(s.push(x)[s.len() as int] == y);
        }
    }
    assert forall|i: int, j: int| 0 <= i < s.push(x).len() && 0 <= j < s.push(x).len() && i != j
        implies s.push(x)[i] != s.push(x)[j] by {
        if i < s.len() && j == s.len() {
            assert(s.contains(s[i]));
        }
        if j < s.len() && i == s.len() {
            assert(s.contains(s[j]));
        }
    }
}

/// What a list holds after a push.
pub proof fn lemma_push_contains<T>(s: Seq<T>, x: T)
    ensures
        forall|y: T| #[trigger] s.push(x).contains(y) <==> (s.contains(y) || y == x),
{
    assert forall|y: T| #[trigger] s.push(x).contains(y) <==> (s.contains(y) || y == x) by {
        if s.push(x).contains(y) {
            let k = choose|k: int| 0 <= k < s.push(x).len() && s.push(x)[k] == y;
            if k < s.len() {
                assert(s[k] == y);
            }
        }
        if s.contains(y) {
            let k = choose|k: int| 0 <= k < s.len() && s[k] == y;
            assert(s.push(x)[k] == y);
        }
        if y == x {
            assert(s.push(x)[s.len() as int] == y);
        }
    }
}

/// The texts of `v` with one more string pushed.
pub proof fn lemma_views_push(v: Seq<String>, x: String)
    ensures
        views(v.push(x)) == views(v).push(x@),
{
    assert(views(v.push(x)) =~= views(v).push(x@));
}

/// One more item of a prefix under a filter.
pub proof fn lemma_filter_step<T>(s: Seq<T>, i: int, pred: spec_fn(T) -> bool)
    requires
        0 <= i < s.len(),
    ensures
        s.subrange(0, i + 1).filter(pred) == (if pred(s[i]) {
            s.subrange(0, i).filter(pred).push(s[i])
        } else {
            s.subrange(0, i).filter(pred)
        }),
{
    reveal(Seq::filter);
    assert(s.subrange(0, i + 1).drop_last() =~= s.subrange(0, i));
}

/// A filter that no item passes leaves nothing.
pub proof fn lemma_filter_none<T>(s: Seq<T>, pred: spec_fn(T) -> bool)
    requires
        forall|i: int| 0 <= i < s.len() ==> !pred(#[trigger] s[i]),
    ensures
        s.filter(pred).len() == 0,
    decreases s.len(),
{
    reveal(Seq::filter);
    if s.len() > 0 {
        assert forall|i: int| 0 <= i < s.drop_last().len() implies !pred(#[trigger] s.drop_last()[i]) by {
            assert(s.drop_last()[i] == s[i]);
        }
        lemma_filter_none(s.drop_last(), pred);
        assert(!pred(s[s.len() - 1]));
    }
}

/// Under a filter that exactly the item at `k` passes, only that item stays.
pub proof fn lemma_filter_only<T>(s: Seq<T>, pred: spec_fn(T) -> bool, k: int)
    requires
        0 <= k < s.len(),
        pred(s[k]),
        forall|i: int| 0 <= i < s.len() && i != k ==> !pred(#[trigger] s[i]),
    ensures
        s.filter(pred) == seq![s[k]],
{
    lemma_filter_only_prefix(s, pred, k, s.len() as int);
    assert(s.subrange(0, s.len() as int) =~= s);
}

proof fn lemma_filter_only_prefix<T>(s: Seq<T>, pred: spec_fn(T) -> bool, k: int, m: int)
    requires
        0 <= k < s.len(),
        0 <= m <= s.len(),
        pred(s[k]),
        forall|i: int| 0 <= i < s.len() && i != k ==> !pred(#[trigger] s[i]),
    ensures
        s.subrange(0, m).filter(pred) == (if m > k { seq![s[k]] } else { Seq::<T>::empty() }),
    decreases m,
{
    if m == 0 {
        reveal(Seq::filter);
        assert(s.subrange(0, 0).filter(pred) =~= Seq::<T>::empty());
    } else {
        lemma_filter_only_prefix(s, pred, k, m - 1);
        lemma_filter_step(s, m - 1, pred);
        if m - 1 == k {
            assert(Seq::<T>::empty().push(s[k]) =~= seq![s[k]]);
        }
    }
}

/// Items of `src` that `other` lacks.
pub open spec fn missing_spec(src: Seq<Seq<char>>, other: Seq<Seq<char>>) -> Seq<Seq<char>> {
    src.filter(|x: Seq<char>| !other.contains(x))
}

/// Items of `src` that `other` also holds.
pub open spec fn kept_spec(src: Seq<Seq<char>>, other: Seq<Seq<char>>) -> Seq<Seq<char>> {
    src.filter(|x: Seq<char>| other.contains(x))
}

/// Each item of `v` after `prefix`.
pub open spec fn prefixed_spec(prefix: Seq<char>, v: Seq<Seq<char>>) -> Seq<Seq<char>> {
    v.map_values(|x: Seq<char>| prefix + x)
}

/// Items of `src` that `other` lacks, in order.
pub fn missing_from(src: &Vec<String>, other: &Vec<String>) -> (r: Vec<String>)
    ensures
        views(r@) == missing_spec(views(src@), views(other@)),
{
    let ghost pred = |x: Seq<char>| !views(other@).contains(x);
    let mut r: Vec<String> = Vec::new();
    let mut i: usize = 0;
    while i < src.len()
        invariant
            i <= src.len(),
            pred == (|x: Seq<char>| !views(other@).contains(x)),
            views(r@) == views(src@).subrange(0, i as int).filter(pred),
        decreases src.len() - i,
    {
        proof {
            lemma_filter_step(views(src@), i as int, pred);
        }
        if !contains_str(other, src[i].as_str()) {
            let c = src[i].clone();
            proof {
                lemma_views_push(r@, c);
            }
            r.push(c);
        }
        i += 1;
    }
    assert(views(src@).subrange(0, i as int) =~= views(src@));
    r
}

/// Items of `src` that `other` also holds, in order.
pub fn kept_from(src: &Vec<String>, other: &Vec<String>) -> (r: Vec<String>)
    ensures
        views(r@) == kept_spec(views(src@), views(other@)),
{
    let ghost pred = |x: Seq<char>| views(other@).contains(x);
    let mut r: Vec<String> = Vec::new();
    let mut i: usize = 0;
    while i < src.len()
        invariant
            i <= src.len(),
            pred == (|x: Seq<char>| views(other@).contains(x)),
            views(r@) == views(src@).subrange(0, i as int).filter(pred),
        decreases src.len() - i,
    {
        proof {
            lemma_filter_step(views(src@), i as int, pred);
        }
        if contains_str(other, src[i].as_str()) {
            let c = src[i].clone();
            proof {
                lemma_views_push(r@, c);
            }
            r.push(c);
        }
        i += 1;
    }
    assert(views(src@).subrange(0, i as int) =~= views(src@));
    r
}

/// Each item of `v` after `prefix`, in order.
pub fn prefixed(prefix: &str, v: &Vec<String>) -> (r: Vec<String>)
    ensures
        views(r@) == prefixed_spec(prefix@, views(v@)),
{
    let mut r: Vec<String> = Vec::new();
    let mut i: usize = 0;
    while i < v.len()
        invariant
            i <= v.len(),
            views(r@) == prefixed_spec(prefix@, views(v@).subrange(0, i as int)),
        decreases v.len() - i,
    {
        let mut c = String::from_str(prefix);
        c.append(v[i].as_str());
        proof {
            lemma_views_push(r@, c);
            assert(prefixed_spec(prefix@, views(v@).subrange(0, i + 1)) =~= prefixed_spec(
                prefix@,
                views(v@).subrange(0, i as int),
            ).push(prefix@ + v@[i as int]@));
        }
        r.push(c);
        i += 1;
    }
    assert(views(v@).subrange(0, i as int) =~= views(v@));
    r
}

/// Moves the items of `b` to the end of `a`.
pub fn append_strings(a: &mut Vec<String>, b: Vec<String>)
    ensures
        views(final(a)@) == views(old(a)@) + views(b@),
{
    let mut i: usize = 0;
    let ghost a0 = a@;
    while i < b.len()
        invariant
            i <= b.len(),
            views(a@) == views(a0) + views(b@).subrange(0, i as int),
        decreases b.len() - i,
    {
        let c = b[i].clone();
        proof {
            lemma_views_push(a@, c);
            assert(views(b@).subrange(0, i + 1) =~= views(b@).subrange(0, i as int).push(c@));
            assert(views(a0) + views(b@).subrange(0, i + 1) =~= (views(a0) + views(b@).subrange(0, i as int)).push(c@));
        }
        a.push(c);
        i += 1;
    }
    assert(views(b@).subrange(0, i as int) =~= views(b@));
}

/// Copies a list of strings.
pub fn copy_strings(v: &Vec<String>) -> (r: Vec<String>)
    ensures
        views(r@) == views(v@),
{
    let mut r: Vec<String> = Vec::new();
    let mut i: usize = 0;
    while i < v.len()
        invariant
            i <= v.len(),
            views(r@) == views(v@.subrange(0, i as int)),
        decreases v.len() - i,
    {
        proof {
            lemma_views_push(r@, v@[i as int]);
        }
        r.push(v[i].clone());
        assert(v@.subrange(0, i + 1) =~= v@.subrange(0, i as int).push(v@[i as int]));
        assert(views(v@.subrange(0, i + 1)) =~= views(v@.subrange(0, i as int)).push(v@[i as int]@));
        i += 1;
    }
    assert(v@.subrange(0, i as int) =~= v@);
    r
}

/// Copies an optional string.
pub fn copy_opt(o: &Option<String>) -> (r: Option<String>)
    ensures
        opt_view(r) == opt_view(*o),
{
    match o {
        Some(s) => Some(s.clone()),
        None => None,
    }
}

/// The text of an optional string.
pub open spec fn opt_view(o: Option<String>) -> Option<Seq<char>> {
    match o {
        Some(s) => Some(s@),
        None => None,
    }
}

/// `a` sorts before `b`: at the first position where they differ `a` has the
/// smaller character, or `a` is a proper prefix of `b` (the order of `str`).
pub open spec fn str_lt(a: Seq<char>, b: Seq<char>) -> bool
    decreases a.len(),
{
    if a.len() == 0 {
        b.len() > 0
    } else if b.len() == 0 {
        false
    } else if a[0] != b[0] {
        a[0] < b[0]
    } else {
        str_lt(a.drop_first(), b.drop_first())
    }
}

/// Strictly increasing in that order.
pub open spec fn sorted_strs(s: Seq<Seq<char>>) -> bool {
    forall|i: int, j: int| 0 <= i < j < s.len() ==> str_lt(#[trigger] s[i], #[trigger] s[j])
}

pub proof fn lemma_lt_irreflexive(a: Seq<char>)
    ensures
        !str_lt(a, a),
    decreases a.len(),
{
    if a.len() > 0 {
        lemma_lt_irreflexive(a.drop_first());
    }
}

pub proof fn lemma_lt_transitive(a: Seq<char>, b: Seq<char>, c: Seq<char>)
    requires
        str_lt(a, b),
        str_lt(b, c),
    ensures
        str_lt(a, c),
    decreases a.len(),
{
    if a.len() > 0 && b.len() > 0 && c.len() > 0 && a[0] == b[0] && b[0] == c[0] {
        lemma_lt_transitive(a.drop_first(), b.drop_first(), c.drop_first());
    }
}

pub proof fn lemma_lt_total(a: Seq<char>, b: Seq<char>)
    requires
        a != b,
    ensures
        str_lt(a, b) || str_lt(b, a),
    decreases a.len(),
{
    if a.len() > 0 && b.len() > 0 && a[0] == b[0] {
        if a.drop_first() == b.drop_first() {
            assert(a =~= seq![a[0]] + a.drop_first());
            assert(b =~= seq![b[0]] + b.drop_first());
        }
        lemma_lt_total(a.drop_first(), b.drop_first());
    } else if a.len() == 0 && b.len() == 0 {
        assert(a =~= b);
    }
}

proof fn lemma_lt_shift(a: Seq<char>, b: Seq<char>, i: int)
    requires
        0 <= i <= a.len(),
        i <= b.len(),
        forall|k: int| 0 <= k < i ==> a[k] == b[k],
    ensures
        str_lt(a, b) == str_lt(a.subrange(i, a.len() as int), b.subrange(i, b.len() as int)),
    decreases i,
{
    if i == 0 {
        assert(a.subrange(0, a.len() as int) =~= a);
        assert(b.subrange(0, b.len() as int) =~= b);
    } else {
        lemma_lt_shift(a.drop_first(), b.drop_first(), i - 1);
        assert(a.drop_first().subrange(i - 1, a.len() - 1) =~= a.subrange(i, a.len() as int));
        assert(b.drop_first().subrange(i - 1, b.len() - 1) =~= b.subrange(i, b.len() as int));
    }
}

/// Whether `a` sorts before `b`.
pub fn str_less(a: &str, b: &str) -> (r: bool)
    ensures
        r == str_lt(a@, b@),
{
    let n = a.unicode_len();
    let m = b.unicode_len();
    let mut i: usize = 0;
    while i < n && i < m
        invariant
            n == a@.len(),
            m == b@.len(),
            i <= n,
            i <= m,
            forall|k: int| 0 <= k < i ==> a@[k] == b@[k],
        decreases n - i,
    {
        let c = a.get_char(i);
        let d = b.get_char(i);
        if c != d {
            proof {
                lemma_lt_shift(a@, b@, i as int);
                assert(a@.subrange(i as int, n as int)[0] == c);
                assert(b@.subrange(i as int, m as int)[0] == d);
            }
            return c < d;
        }
        i += 1;
    }
    proof {
        lemma_lt_shift(a@, b@, i as int);
    }
    i == n && i < m
}

/// Adds `x` to a sorted list unless it is already there.
pub fn insert_sorted(v: &mut Vec<String>, x: String)
    requires
        sorted_strs(views(old(v)@)),
    ensures
        sorted_strs(views(final(v)@)),
        forall|y: Seq<char>| #[trigger] views(final(v)@).contains(y) <==> (views(old(v)@).contains(y) || y == x@),
{
    let ghost s0 = views(v@);
    let mut p: usize = 0;
    while p < v.len() && str_less(v[p].as_str(), x.as_str())
        invariant
            p <= v@.len(),
            s0 == views(v@),
            forall|k: int| 0 <= k < p ==> str_lt(#[trigger] s0[k], x@),
        decreases v.len() - p,
    {
        p += 1;
    }
    if p < v.len() && str_equal(v[p].as_str(), x.as_str()) {
        assert(s0[p as int] == x@);
        return;
    }
    proof {
        if p < s0.len() {
            lemma_lt_total(s0[p as int], x@);
            assert(str_lt(x@, s0[p as int]));
            assert forall|k: int| p <= k < s0.len() implies str_lt(x@, #[trigger] s0[k]) by {
                if k > p {
                    lemma_lt_transitive(x@, s0[p as int], s0[k]);
                }
            }
        }
    }
    let ghost xv = x@;
    v.insert(p, x);
    proof {
        assert(views(v@) =~= s0.insert(p as int, xv));
        let s1 = views(v@);
        assert forall|i: int, j: int| 0 <= i < j < s1.len() implies str_lt(#[trigger] s1[i], #[trigger] s1[j]) by {
            let oi = if i < p { i } else { i - 1 };
            let oj = if j < p { j } else { j - 1 };
            if i == p as int {
                assert(s1[j] == s0[oj]);
            } else if j == p as int {
                assert(s1[i] == s0[oi]);
            } else {
                assert(s1[i] == s0[oi] && s1[j] == s0[oj]);
            }
        }
        assert forall|y: Seq<char>| #[trigger] s1.contains(y) <==> (s0.contains(y) || y == xv) by {
            if s1.contains(y) {
                let k = choose|k: int| 0 <= k < s1.len() && s1[k] == y;
                if k < p {
                    assert(s0[k] == y);
                } else if k > p {
                    assert(s0[k - 1] == y);
                }
            }
            if s0.contains(y) {
                let k = choose|k: int| 0 <= k < s0.len() && s0[k] == y;
                if k < p {
                    assert(s1[k] == y);
                } else {
                    assert(s1[k + 1] == y);
                }
            }
            if y == xv {
                assert(s1[p as int] == y);
            }
        }
    }
}

/// A strictly increasing list has no repeats.
pub proof fn lemma_sorted_no_dup(s: Seq<Seq<char>>)
    requires
        sorted_strs(s),
    ensures
        s.no_duplicates(),
{
    assert forall|i: int, j: int| 0 <= i < s.len() && 0 <= j < s.len() && i != j implies s[i] != s[j] by {
        if s[i] == s[j] {
            lemma_lt_irreflexive(s[i]);
            if i < j {
                assert(str_lt(s[i], s[j]));
            } else {
                assert(str_lt(s[j], s[i]));
            }
        }
    }
}

} // verus!
