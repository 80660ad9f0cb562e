//! Facts and the tuples of facts that flow through constraint streams.
use vstd::prelude::*;

verus! {

/// A fact that may be seen as a value of type `T`. A stream's tuples hold
/// facts of one type `A` (most often an enum of the user's fact types); a
/// key function asks each fact whether it is a `T`.
pub trait GreynetFact<T> {
    /// The `T` that this fact is, if it is one. Verified implementations
    /// state it; an implementation that does not is read as holding no `T`.
    open spec fn spec_as(&self) -> Option<T> {
        None
    }

    /// This fact as a `T`, or `None` when it is of another type.
    fn as_fact(&self) -> (r: Option<&T>)
        ensures
            same_fact(r, self.spec_as()),
    ;
}

/// `r` holds the same fact as `v`, or nothing when `v` is `None`.
pub open spec fn same_fact<T>(r: Option<&T>, v: Option<T>) -> bool {
    match r {
        Some(x) => v == Some(*x),
        None => v is None,
    }
}

/// Every value is a fact of its own type.
impl<T> GreynetFact<T> for T {
    open spec fn spec_as(&self) -> Option<T> {
        Some(*self)
    }

    fn as_fact(&self) -> (r: Option<&T>) {
        Some(self)
    }
}

/// The facts of one tuple of a stream, in order; the arity is their number.
pub struct FactTuple<A> {
    pub facts: Vec<A>,
}

impl<A> View for FactTuple<A> {
    type V = Seq<A>;

    open spec fn view(&self) -> Seq<A> {
        self.facts@
    }
}

impl<A> FactTuple<A> {
    /// The tuple of the given facts.
    pub fn new(facts: Vec<A>) -> (t: Self)
        ensures
            t@ == facts@,
    {
        FactTuple { facts }
    }

    /// How many facts the tuple holds.
    pub fn arity(&self) -> (r: usize)
        ensures
            r == self@.len(),
    {
        self.facts.len()
    }

    /// The fact at `index`, or `None` past the end.
    pub fn get_fact_ref(&self, index: usize) -> (r: Option<&A>)
        ensures
            match r {
                Some(x) => index < self@.len() && *x == self@[index as int],
                None => index >= self@.len(),
            },
    {
        if index < self.facts.len() {
            Some(&self.facts[index])
        } else {
            None
        }
    }
}

/// The fact at `index` seen as a `T`: `None` past the end or when that fact
/// is of another type.
pub open spec fn spec_extract<T, A: GreynetFact<T>>(facts: Seq<A>, index: int) -> Option<T> {
    if 0 <= index < facts.len() {
        facts[index].spec_as()
    } else {
        None
    }
}

} // verus!
