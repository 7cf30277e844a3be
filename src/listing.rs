//! Selecting and paging the endpoints of a parsed document.

use vstd::prelude::*;

use crate::model::{Endpoint, ParsedSpec};
use crate::text::{has_prefix, starts_with, views};

verus! {

/// A character folded to lower case, for ASCII letters.
pub open spec fn fold_char(c: char) -> u32 {
    if 'A' <= c && c <= 'Z' {
        (c as u32 + 32) as u32
    } else {
        c as u32
    }
}

/// Equality ignoring ASCII case.
pub open spec fn same_ignoring_case(a: Seq<char>, b: Seq<char>) -> bool {
    a.len() == b.len() && forall|i: int| 0 <= i < a.len() ==> fold_char(#[trigger] a[i]) == fold_char(b[i])
}

fn fold(c: char) -> (r: u32)
    ensures
        r == fold_char(c),
{
    if 'A' <= c && c <= 'Z' {
        (c as u32) + 32
    } else {
        c as u32
    }
}

/// Whether `a` and `b` are equal ignoring ASCII case.
pub fn eq_ignore_ascii_case(a: &str, b: &str) -> (r: bool)
    ensures
        r == same_ignoring_case(a@, b@),
{
    let n = a.unicode_len();
    if n != b.unicode_len() {
        return false;
    }
    let mut i: usize = 0;
    while i < n
        invariant
            n == a@.len(),
            n == b@.len(),
            i <= n,
            forall|k: int| 0 <= k < i ==> fold_char(#[trigger] a@[k]) == fold_char(b@[k]),
        decreases n - i,
    {
        if fold(a.get_char(i)) != fold(b.get_char(i)) {
            return false;
        }
        i += 1;
    }
    true
}

/// Endpoint `e` passes the filters: it has tag `tag` (ignoring case) and its
/// path begins with `prefix`, each where given.
pub open spec fn selected(e: Endpoint, tag: Option<Seq<char>>, prefix: Option<Seq<char>>) -> bool {
    &&& match tag {
        Some(t) => exists|k: int| 0 <= k < e.tags@.len() && same_ignoring_case(#[trigger] views(e.tags@)[k], t),
        None => true,
    }
    &&& match prefix {
        Some(p) => has_prefix(e.path@, p),
        None => true,
    }
}

fn has_tag(e: &Endpoint, tag: &str) -> (r: bool)
    ensures
        r == exists|k: int| 0 <= k < e.tags@.len() && same_ignoring_case(#[trigger] views(e.tags@)[k], tag@),
{
    let mut k: usize = 0;
    while k < e.tags.len()
        invariant
            k <= e.tags@.len(),
            forall|j: int| 0 <= j < k ==> !same_ignoring_case(#[trigger] views(e.tags@)[j], tag@),
        decreases e.tags.len() - k,
    {
        if eq_ignore_ascii_case(e.tags[k].as_str(), tag) {
            assert(views(e.tags@)[k as int] == e.tags@[k as int]@);
            return true;
        }
        assert(views(e.tags@)[k as int] == e.tags@[k as int]@);
        k += 1;
    }
    false
}

/// Positions, in order, of the endpoints of `spec` that pass the filters.
pub fn select_endpoints(spec: &ParsedSpec, tag: Option<&str>, prefix: Option<&str>) -> (r: Vec<usize>)
    ensures
        r@.len() <= spec.endpoints@.len(),
        forall|k: int| 0 <= k < r@.len() ==> (#[trigger] r@[k]) < spec.endpoints@.len(),
        forall|k: int, l: int| 0 <= k < l < r@.len() ==> r@[k] < r@[l],
        forall|i: int|
            0 <= i < spec.endpoints@.len() ==> (r@.contains(i as usize) <==> selected(
                #[trigger] spec.endpoints@[i],
                match tag {
                    Some(t) => Some(t@),
                    None => None,
                },
                match prefix {
                    Some(p) => Some(p@),
                    None => None,
                },
            )),
{
    let ghost t = match tag {
        Some(t) => Some(t@),
        None => None,
    };
    let ghost p = match prefix {
        Some(p) => Some(p@),
        None => None,
    };
    let mut r: Vec<usize> = Vec::new();
    let mut i: usize = 0;
    while i < spec.endpoints.len()
        invariant
            i <= spec.endpoints@.len(),
            t == match tag {
                Some(x) => Some(x@),
                None => None,
            },
            p == match prefix {
                Some(x) => Some(x@),
                None => None,
            },
            r@.len() <= i,
            forall|k: int| 0 <= k < r@.len() ==> (#[trigger] r@[k]) < i,
            forall|k: int, l: int| 0 <= k < l < r@.len() ==> r@[k] < r@[l],
            forall|j: int| 0 <= j < i ==> (r@.contains(j as usize) <==> selected(#[trigger] spec.endpoints@[j], t, p)),
        decreases spec.endpoints.len() - i,
    {
        let e = &spec.endpoints[i];
        let tag_ok = match tag {
            Some(tg) => has_tag(e, tg),
            None => true,
        };
        let prefix_ok = match prefix {
            Some(pf) => starts_with(e.path.as_str(), pf),
            None => true,
        };
        assert((tag_ok && prefix_ok) == selected(spec.endpoints@[i as int], t, p));
        let ghost r0 = r@;
        if tag_ok && prefix_ok {
            r.push(i);
        }
        assert forall|j: int| 0 <= j < i + 1 implies (r@.contains(j as usize) <==> selected(#[trigger] spec.endpoints@[j], t, p)) by {
            if j < i {
                if r@.contains(j as usize) && !r0.contains(j as usize) {
                    let k = choose|k: int| 0 <= k < r@.len() && r@[k] == j as usize;
                    if k < r0.len() {
                        assert(r0[k] == j as usize);
                    }
                }
                if r0.contains(j as usize) {
                    let k = choose|k: int| 0 <= k < r0.len() && r0[k] == j as usize;
                    assert(r@[k] == j as usize);
                }
            } else {
                if tag_ok && prefix_ok {
                    assert(r@[r@.len() - 1] == i);
                }
                if r0.contains(i) {
                    let k = choose|k: int| 0 <= k < r0.len() && r0[k] == i;
                    assert(r0[k] < i);
                }
            }
        }
        i += 1;
    }
    r
}

/// One page of a list: items `start..end` of `total`.
#[derive(Debug)]
pub struct Page {
    pub total: usize,
    pub offset: usize,
    pub limit: usize,
    pub start: usize,
    pub end: usize,
    pub has_more: bool,
}

impl Page {
    /// The page of `limit` items from `offset` in a list of `total`.
    pub fn of(total: usize, offset: usize, limit: usize) -> (r: Page)
        ensures
            r.total == total,
            r.offset == offset,
            r.limit == limit,
            r.start == if offset < total { offset } else { total },
            r.end == if offset + limit < total { (offset + limit) as int } else { total as int },
            r.start <= r.end <= total,
            r.has_more == (offset + limit < total),
    {
        let start = if offset < total { offset } else { total };
        let end = if limit < total - start { start + limit } else { total };
        let has_more = offset < total && limit < total - offset;
        Page { total, offset, limit, start, end, has_more }
    }
}

} // verus!
