//! The composite factory and the composite handler it builds.
use vstd::prelude::*;
use crate::routing::{
    Dispatch,
    dispatch,
    entries_view,
    first_match,
    lemma_first_match_by_prefixes,
    routed,
};

verus! {

/// An ordered list of `(prefix, factory)` entries. Building it for a
/// connection yields a `CompositeService` that hands each request to the first
/// child whose prefix is a prefix of the request path.
///
/// The list is public so that it can be edited with the usual `Vec` methods
/// before the factory is put into service.
pub struct CompositeMakeService<F> {
    pub inner: Vec<(&'static str, F)>,
}

/// An ordered list of `(prefix, handler)` entries, in registration order.
pub struct CompositeService<S>(pub Vec<(&'static str, S)>);

impl<F> View for CompositeMakeService<F> {
    type V = Seq<(Seq<char>, F)>;

    open spec fn view(&self) -> Seq<(Seq<char>, F)> {
        entries_view(self.inner@)
    }
}

impl<S> View for CompositeService<S> {
    type V = Seq<(Seq<char>, S)>;

    open spec fn view(&self) -> Seq<(Seq<char>, S)> {
        entries_view(self.0@)
    }
}

impl<F> CompositeMakeService<F> {
    /// An empty factory.
    pub fn new() -> (r: Self)
        ensures
            r@ == Seq::<(Seq<char>, F)>::empty(),
    {
        CompositeMakeService { inner: Vec::new() }
    }

    /// Appends an entry after those already registered.
    pub fn push(&mut self, prefix: &'static str, factory: F)
        ensures
            final(self)@ == old(self)@.push((prefix@, factory)),
    {
        self.inner.push((prefix, factory));
        proof {
            assert(entries_view(self.inner@) =~= entries_view(old(self).inner@).push((prefix@, factory)));
        }
    }

    /// The number of entries.
    pub fn len(&self) -> (n: usize)
        ensures
            n == self@.len(),
    {
        self.inner.len()
    }

    /// Packages what each child factory built for one connection, given in
    /// registration order, into a composite handler. All or nothing: when
    /// every child was built, the handler holds each prefix with its child, in
    /// the same order; otherwise no handler is made and the error of the first
    /// child that failed is returned.
    pub fn assemble<S, E>(&self, built: Vec<Result<S, E>>) -> (r: Result<CompositeService<S>, E>)
        requires
            built@.len() == self@.len(),
        ensures
            r is Ok <==> forall|i: int| 0 <= i < built@.len() ==> #[trigger] built@[i] is Ok,
            match r {
                Ok(c) => c@.len() == self@.len() && forall|i: int|
                    0 <= i < c@.len() ==> (#[trigger] c@[i]).0 == self@[i].0 && built@[i] == Ok::<S, E>(
                        c@[i].1,
                    ),
                Err(e) => exists|k: int|
                    0 <= k < built@.len() && #[trigger] built@[k] == Err::<S, E>(e) && forall|j: int|
                        0 <= j < k ==> #[trigger] built@[j] is Ok,
            },
    {
        let ghost b0 = built@;
        let n = built.len();
        let mut rest = built;
        let mut entries: Vec<(&'static str, S)> = Vec::new();
        let mut i: usize = 0;
        while i < n
            invariant
                n == self@.len(),
                n == b0.len(),
                b0 == built@,
                i <= n,
                rest@ == b0.subrange(i as int, n as int),
                entries@.len() == i,
                forall|j: int| 0 <= j < i ==> #[trigger] b0[j] is Ok,
                forall|j: int|
                    0 <= j < i ==> (#[trigger] entries@[j]).0@ == self@[j].0 && b0[j] == Ok::<S, E>(
                        entries@[j].1,
                    ),
            decreases n - i,
        {
            assert(rest@[0] == b0[i as int]);
            let child = rest.remove(0);
            match child {
                Ok(s) => {
                    entries.push((self.inner[i].0, s));
                },
                Err(e) => {
                    assert(b0[i as int] == Err::<S, E>(e));
                    assert(!(b0[i as int] is Ok));
                    return Err(e);
                },
            }
            i = i + 1;
            assert(rest@ =~= b0.subrange(i as int, n as int));
        }
        let c = CompositeService(entries);
        assert(forall|j: int| 0 <= j < n ==> #[trigger] c@[j] == (c.0@[j].0@, c.0@[j].1));
        assert(forall|j: int| 0 <= j < n ==> #[trigger] b0[j] is Ok);
        Ok(c)
    }
}

impl<S> CompositeService<S> {
    /// A handler with the given entries, in order.
    pub fn new(entries: Vec<(&'static str, S)>) -> (r: Self)
        ensures
            r@ == entries_view(entries@),
    {
        CompositeService(entries)
    }

    /// The number of entries.
    pub fn len(&self) -> (n: usize)
        ensures
            n == self@.len(),
    {
        self.0.len()
    }

    /// Where a request for `path` goes: to the first child, in registration
    /// order, whose prefix is a prefix of `path`; to the canonical
    /// "not found" response (404) when there is none. At most one child is
    /// chosen, and none is consulted to choose it.
    pub fn route(&self, path: &str) -> (d: Dispatch)
        ensures
            match first_match(self@, path@) {
                Some(k) => d == Dispatch::Forward(k as usize),
                None => d == Dispatch::NotFound(404),
            },
    {
        dispatch(&self.0, path)
    }
}

/// Registration order is kept end to end: a handler assembled from the
/// children that a factory's entries built sends each path to the child built
/// by the entry that the path selects among the factory's registrations.
pub proof fn lemma_assembled_routes_as_registered<F, S, E>(
    factory: Seq<(Seq<char>, F)>,
    built: Seq<Result<S, E>>,
    handler: Seq<(Seq<char>, S)>,
    r: Seq<char>,
)
    requires
        built.len() == factory.len(),
        handler.len() == factory.len(),
        forall|i: int|
            0 <= i < handler.len() ==> (#[trigger] handler[i]).0 == factory[i].0 && built[i] == Ok::<
                S,
                E,
            >(handler[i].1),
    ensures
        first_match(handler, r) == first_match(factory, r),
        match first_match(factory, r) {
            Some(k) => routed(handler, r) matches Some(s) && built[k] == Ok::<S, E>(s),
            None => routed(handler, r) is None,
        },
{
    lemma_first_match_by_prefixes(handler, factory, r);
    crate::routing::lemma_first_match_is_earliest(factory, r);
}

} // verus!
