//! Prefix matching over an ordered list of `(prefix, child)` entries.
use vstd::prelude::*;

verus! {

/// `p` is a literal prefix of `r`.
pub open spec fn is_prefix(p: Seq<char>, r: Seq<char>) -> bool {
    p.len() <= r.len() && r.subrange(0, p.len() as int) == p
}

/// The index of the first entry, in list order, whose prefix is a prefix of `r`.
pub open spec fn first_match<T>(e: Seq<(Seq<char>, T)>, r: Seq<char>) -> Option<int>
    decreases e.len(),
{
    if e.len() == 0 {
        None
    } else {
        match first_match(e.drop_last(), r) {
            Some(k) => Some(k),
            None => if is_prefix(e.last().0, r) {
                Some(e.len() - 1)
            } else {
                None
            },
        }
    }
}

/// The child that a request for path `r` reaches.
pub open spec fn routed<T>(e: Seq<(Seq<char>, T)>, r: Seq<char>) -> Option<T> {
    match first_match(e, r) {
        Some(k) => Some(e[k].1),
        None => None,
    }
}

/// The entry chosen for a path is the first one, in list order, whose prefix
/// is a literal prefix of the path; no entry is chosen when none is.
pub proof fn lemma_first_match_is_earliest<T>(e: Seq<(Seq<char>, T)>, r: Seq<char>)
    ensures
        match first_match(e, r) {
            Some(k) => 0 <= k < e.len() && is_prefix(e[k].0, r) && forall|j: int|
                0 <= j < k ==> !is_prefix(#[trigger] e[j].0, r),
            None => forall|j: int| 0 <= j < e.len() ==> !is_prefix(#[trigger] e[j].0, r),
        },
    decreases e.len(),
{
    if e.len() > 0 {
        let d = e.drop_last();
        lemma_first_match_is_earliest(d, r);
        assert forall|j: int| 0 <= j < d.len() implies d[j] == e[j] by {}
        if first_match(d, r) is None {
            assert forall|j: int| 0 <= j < e.len() - 1 implies !is_prefix(#[trigger] e[j].0, r) by {
                assert(d[j] == e[j]);
            }
        }
    }
}

/// Matching looks only at the prefixes and their order: two lists with the
/// same prefixes in the same order choose the same index for every path.
pub proof fn lemma_first_match_by_prefixes<T, U>(
    a: Seq<(Seq<char>, T)>,
    b: Seq<(Seq<char>, U)>,
    r: Seq<char>,
)
    requires
        a.len() == b.len(),
        forall|i: int| 0 <= i < a.len() ==> (#[trigger] a[i]).0 == b[i].0,
    ensures
        first_match(a, r) == first_match(b, r),
{
    lemma_first_match_is_earliest(a, r);
    lemma_first_match_is_earliest(b, r);
    match first_match(a, r) {
        Some(k) => {
            assert(a[k].0 == b[k].0);
            if let Some(m) = first_match(b, r) {
                assert(a[m].0 == b[m].0);
            }
        },
        None => {
            if let Some(m) = first_match(b, r) {
                assert(a[m].0 == b[m].0);
            }
        },
    }
}

/// An entry whose prefix repeats that of an earlier entry is never reached:
/// removing it leaves the child that every path reaches unchanged.
pub proof fn lemma_shadowed_duplicate<T>(e: Seq<(Seq<char>, T)>, i: int, j: int, r: Seq<char>)
    requires
        0 <= i < j < e.len(),
        e[i].0 == e[j].0,
    ensures
        routed(e.remove(j), r) == routed(e, r),
{
    let d = e.remove(j);
    lemma_first_match_is_earliest(e, r);
    lemma_first_match_is_earliest(d, r);
    assert forall|m: int| 0 <= m < d.len() implies #[trigger] d[m] == if m < j {
        e[m]
    } else {
        e[m + 1]
    } by {}
    match first_match(e, r) {
        Some(k) => {
            assert(k != j);
            let k2 = if k < j {
                k
            } else {
                k - 1
            };
            assert(d[k2] == e[k]);
            if let Some(m) = first_match(d, r) {
                if m < k2 {
                    if m < j {
                        assert(d[m] == e[m]);
                    } else {
                        assert(d[m] == e[m + 1]);
                    }
                }
            }
        },
        None => {
            if let Some(m) = first_match(d, r) {
                if m < j {
                    assert(d[m] == e[m]);
                } else {
                    assert(d[m] == e[m + 1]);
                }
            }
        },
    }
}

/// Where a request goes: to the child at an index, or to the canonical
/// "not found" response with its status code.
#[derive(Clone, Copy, Debug, PartialEq, Eq, Structural)]
pub enum Dispatch {
    Forward(usize),
    NotFound(u16),
}

/// Relies on `hyper::StatusCode::NOT_FOUND` and `StatusCode::as_u16`: the
/// canonical "not found" status is 404.
#[verifier::external_body]
fn not_found_code() -> (c: u16)
    ensures
        c == 404,
{
    hyper::StatusCode::NOT_FOUND.as_u16()
}

/// Relies on `str::starts_with` with a `&str` pattern: true exactly when
/// `prefix` is a prefix of `path`.
#[verifier::external_body]
fn has_prefix(path: &str, prefix: &str) -> (r: bool)
    ensures
        r == is_prefix(prefix@, path@),
{
    path.starts_with(prefix)
}

/// The view of a list of entries: each prefix as its characters.
pub open spec fn entries_view<T>(v: Seq<(&'static str, T)>) -> Seq<(Seq<char>, T)> {
    v.map_values(|p: (&'static str, T)| (p.0@, p.1))
}

/// Chooses where a request for `path` goes: the first entry whose prefix is a
/// prefix of `path`, or "not found" (404) when there is none.
pub fn dispatch<T>(entries: &Vec<(&'static str, T)>, path: &str) -> (d: Dispatch)
    ensures
        match first_match(entries_view(entries@), path@) {
            Some(k) => d == Dispatch::Forward(k as usize),
            None => d == Dispatch::NotFound(404),
        },
{
    let ghost e = entries_view(entries@);
    let mut i: usize = 0;
    while i < entries.len()
        invariant
            i <= entries@.len(),
            e == entries_view(entries@),
            forall|j: int| 0 <= j < i ==> !is_prefix(#[trigger] e[j].0, path@),
        decreases entries@.len() - i,
    {
        if has_prefix(path, entries[i].0) {
            proof {
                lemma_first_match_is_earliest(e, path@);
                assert(e[i as int].0 == entries@[i as int].0@);
                if let Some(k) = first_match(e, path@) {
                    if k > i {
                        assert(!is_prefix(e[i as int].0, path@));
                    }
                }
            }
            return Dispatch::Forward(i);
        }
        i = i + 1;
    }
    proof {
        lemma_first_match_is_earliest(e, path@);
    }
    Dispatch::NotFound(not_found_code())
}

} // verus!
