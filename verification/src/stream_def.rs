//! Definitions of constraint streams: the nodes of a stream graph, the
//! identifiers by which equal nodes are shared, and their arities.
use vstd::prelude::*;
use std::any::TypeId;
use std::collections::hash_map::DefaultHasher;
use std::hash::{Hash, Hasher};
use std::marker::PhantomData;
use std::rc::Rc;
use crate::facts::{FactTuple, GreynetFact, same_fact, spec_extract};

pub mod key;
pub mod key_extractors;
pub mod stream;

pub use stream::{ConstraintRecipe, Stream};

verus! {

/// `std::any::TypeId`, the identity of a fact type.
#[verifier::external_type_specification]
#[verifier::external_body]
pub struct ExTypeId(TypeId);

/// Calls `TypeId::of::<T>()`. Type ids differ between builds, so nothing is
/// stated of the result.
#[verifier::external_body]
pub(crate) fn type_id_of<T: ?Sized + 'static>() -> TypeId {
    TypeId::of::<T>()
}

/// Calls `TypeId`'s `==`, which std derives from its fields: the result is
/// `true` exactly when the two ids are the same value.
#[verifier::external_body]
pub(crate) fn type_id_eq(a: &TypeId, b: &TypeId) -> (r: bool)
    ensures
        r == (*a == *b),
{
    *a == *b
}

/// `usize`'s `Hash::hash`: it writes to the hasher; nothing more is stated
/// for a generic hasher.
pub assume_specification<H: Hasher>[ <usize as Hash>::hash::<H> ](data: &usize, state: &mut H);

/// `u64`'s `Hash::hash`: it writes to the hasher; nothing more is stated.
pub assume_specification<H: Hasher>[ <u64 as Hash>::hash::<H> ](data: &u64, state: &mut H);

/// `isize`'s `Hash::hash`: it writes to the hasher; nothing more is stated.
pub assume_specification<H: Hasher>[ <isize as Hash>::hash::<H> ](data: &isize, state: &mut H);

/// `bool`'s `Hash::hash`: it writes to the hasher; nothing more is stated.
pub assume_specification<H: Hasher>[ <bool as Hash>::hash::<H> ](data: &bool, state: &mut H);

/// `TypeId`'s `Hash::hash`: it writes to the hasher; nothing more is stated.
pub assume_specification<H: Hasher>[ <TypeId as Hash>::hash::<H> ](data: &TypeId, state: &mut H);

/// Marker for streams of single facts.
#[derive(Clone)]
pub struct Arity1;

/// Marker for streams of pairs of facts.
#[derive(Clone)]
pub struct Arity2;

/// Marker for streams of triples of facts.
#[derive(Clone)]
pub struct Arity3;

/// Marker for streams of four facts.
#[derive(Clone)]
pub struct Arity4;

/// Marker for streams of five facts.
#[derive(Clone)]
pub struct Arity5;

/// The id under which a function (predicate, key, mapper, impact) was registered.
#[derive(Clone, Copy, Debug, PartialEq, Eq, Structural, Hash)]
pub struct FunctionId(pub usize);

/// The id of a constraint.
#[derive(Clone, Copy, Debug, PartialEq, Eq, Structural, Hash)]
pub struct ConstraintId(pub usize);

/// How the keys of the two sides of a join are compared.
#[derive(Clone, Copy, Debug, PartialEq, Eq, Structural, Hash)]
pub enum JoinerType {
    Equal,
    NotEqual,
    LessThan,
    LessThanOrEqual,
    GreaterThan,
    GreaterThanOrEqual,
}

impl JoinerType {
    /// The variant's position, which is what its derived hash writes.
    pub fn discriminant(&self) -> (r: isize)
        ensures
            r == match *self {
                JoinerType::Equal => 0isize,
                JoinerType::NotEqual => 1,
                JoinerType::LessThan => 2,
                JoinerType::LessThanOrEqual => 3,
                JoinerType::GreaterThan => 4,
                JoinerType::GreaterThanOrEqual => 5,
            },
    {
        match self {
            JoinerType::Equal => 0,
            JoinerType::NotEqual => 1,
            JoinerType::LessThan => 2,
            JoinerType::LessThanOrEqual => 3,
            JoinerType::GreaterThan => 4,
            JoinerType::GreaterThanOrEqual => 5,
        }
    }
}

/// Makes collectors for grouping and aggregation; two suppliers are equal
/// when their ids are.
pub struct CollectorSupplier<G> {
    id: usize,
    supplier: Rc<G>,
}

impl<G> CollectorSupplier<G> {
    /// The supplier's id.
    pub closed spec fn spec_id(&self) -> usize {
        self.id
    }

    /// The function that makes collectors.
    pub closed spec fn spec_supplier(&self) -> G {
        *self.supplier
    }

    /// A supplier with the given id.
    pub fn new(id: usize, supplier: G) -> (s: Self)
        ensures
            s.spec_id() == id,
            s.spec_supplier() == supplier,
    {
        Self { id, supplier: Rc::new(supplier) }
    }

    /// Makes a new collector.
    pub fn create<C>(&self) -> (c: C)
        where G: Fn() -> C,
        requires
            self.spec_supplier().requires(()),
        ensures
            self.spec_supplier().ensures((), c),
    {
        (*self.supplier)()
    }

    /// The supplier's id.
    pub fn id(&self) -> (r: usize)
        ensures
            r == self.spec_id(),
    {
        self.id
    }
}

/// Hands out collector ids one after the other, counting up (and wrapping
/// around past `usize::MAX`, as an atomic counter does).
pub struct CollectorIds {
    pub next: usize,
}

impl CollectorIds {
    /// Ids from 0.
    pub fn new() -> (r: Self)
        ensures
            r.next == 0,
    {
        CollectorIds { next: 0 }
    }

    /// The next id; the counter moves on by one.
    pub fn fresh(&mut self) -> (id: usize)
        ensures
            id == old(self).next,
            final(self).next == old(self).next.wrapping_add(1),
    {
        let id = self.next;
        self.next = self.next.wrapping_add(1);
        id
    }
}

impl<G> CollectorSupplier<G> {
    /// A supplier with the next id of `ids`.
    pub fn with_fresh_id(ids: &mut CollectorIds, supplier: G) -> (s: Self)
        ensures
            s.spec_id() == old(ids).next,
            s.spec_supplier() == supplier,
            final(ids).next == old(ids).next.wrapping_add(1),
    {
        let id = ids.fresh();
        Self::new(id, supplier)
    }
}

/// Law: suppliers made one after the other from the same counter, before it
/// wraps around, get increasing ids, so no two of them compare equal.
pub proof fn lemma_fresh_suppliers_differ<G>(a: CollectorSupplier<G>, b: CollectorSupplier<G>, start: usize, count: usize)
    requires
        a.spec_id() == start,
        b.spec_id() == start + count,
        count > 0,
        start + count <= usize::MAX,
    ensures
        a.spec_id() < b.spec_id(),
        !vstd::std_specs::cmp::PartialEqSpec::eq_spec(&a, &b),
{
}

impl<G> Clone for CollectorSupplier<G> {
    fn clone(&self) -> (r: Self)
        ensures
            r.spec_id() == self.spec_id(),
            r.spec_supplier() == self.spec_supplier(),
    {
        CollectorSupplier { id: self.id, supplier: Rc::clone(&self.supplier) }
    }
}

impl<G> PartialEq for CollectorSupplier<G> {
    fn eq(&self, other: &Self) -> (r: bool) {
        self.id == other.id
    }
}

impl<G> vstd::std_specs::cmp::PartialEqSpecImpl for CollectorSupplier<G> {
    open spec fn obeys_eq_spec() -> bool {
        true
    }

    open spec fn eq_spec(&self, other: &Self) -> bool {
        self.spec_id() == other.spec_id()
    }
}

impl<G> Hash for CollectorSupplier<G> {
    fn hash<H: Hasher>(&self, state: &mut H) {
        self.id.hash(state);
    }
}

} // verus!

verus! {

/// Identifies what a stream node computes, so that equal nodes can be shared.
pub enum RetrievalId<S> {
    From(TypeId, PhantomData<S>),
    Filter { source: Box<RetrievalId<S>>, predicate_id: FunctionId },
    Join {
        left: Box<RetrievalId<S>>,
        right: Box<RetrievalId<S>>,
        joiner: JoinerType,
        left_key_id: FunctionId,
        right_key_id: FunctionId,
    },
    ConditionalJoin {
        source: Box<RetrievalId<S>>,
        other: Box<RetrievalId<S>>,
        should_exist: bool,
        left_key_id: FunctionId,
        right_key_id: FunctionId,
    },
    Group { source: Box<RetrievalId<S>>, key_fn_id: FunctionId, collector_id: usize },
    FlatMap { source: Box<RetrievalId<S>>, mapper_fn_id: FunctionId },
    Mapping { source: Box<RetrievalId<S>>, mapper_fn_id: FunctionId },
    Union { sources_hash: u64, source_count: usize },
    Distinct { source: Box<RetrievalId<S>> },
    GlobalAggregate { source: Box<RetrievalId<S>>, collector_id: usize },
    Scoring { source: Box<RetrievalId<S>>, impact_fn_id: FunctionId, constraint_id: ConstraintId },
}

/// Compares two retrieval ids field by field.
pub fn retrieval_id_eq<S>(a: &RetrievalId<S>, b: &RetrievalId<S>) -> (r: bool)
    ensures
        r == (*a == *b),
    decreases a,
{
    match (a, b) {
        (RetrievalId::From(x, _), RetrievalId::From(y, _)) => type_id_eq(x, y),
        (RetrievalId::Filter { source: a1, predicate_id: b1 }, RetrievalId::Filter { source: c1, predicate_id: d1 }) => {
            retrieval_id_eq(&**a1, &**c1) && b1.0 == d1.0
        },
        (
            RetrievalId::Join { left: a1, right: b1, joiner: c1, left_key_id: d1, right_key_id: e1 },
            RetrievalId::Join { left: f1, right: g1, joiner: h1, left_key_id: i1, right_key_id: j1 },
        ) => {
            retrieval_id_eq(&**a1, &**f1) && retrieval_id_eq(&**b1, &**g1) && *c1 == *h1 && d1.0 == i1.0 && e1.0 == j1.0
        },
        (
            RetrievalId::ConditionalJoin { source: a1, other: b1, should_exist: c1, left_key_id: d1, right_key_id: e1 },
            RetrievalId::ConditionalJoin { source: f1, other: g1, should_exist: h1, left_key_id: i1, right_key_id: j1 },
        ) => {
            retrieval_id_eq(&**a1, &**f1) && retrieval_id_eq(&**b1, &**g1) && *c1 == *h1 && d1.0 == i1.0 && e1.0 == j1.0
        },
        (
            RetrievalId::Group { source: a1, key_fn_id: b1, collector_id: c1 },
            RetrievalId::Group { source: d1, key_fn_id: e1, collector_id: f1 },
        ) => {
            retrieval_id_eq(&**a1, &**d1) && b1.0 == e1.0 && *c1 == *f1
        },
        (RetrievalId::FlatMap { source: a1, mapper_fn_id: b1 }, RetrievalId::FlatMap { source: c1, mapper_fn_id: d1 }) => {
            retrieval_id_eq(&**a1, &**c1) && b1.0 == d1.0
        },
        (RetrievalId::Mapping { source: a1, mapper_fn_id: b1 }, RetrievalId::Mapping { source: c1, mapper_fn_id: d1 }) => {
            retrieval_id_eq(&**a1, &**c1) && b1.0 == d1.0
        },
        (
            RetrievalId::Union { sources_hash: a1, source_count: b1 },
            RetrievalId::Union { sources_hash: c1, source_count: d1 },
        ) => {
            *a1 == *c1 && *b1 == *d1
        },
        (RetrievalId::Distinct { source: a1 }, RetrievalId::Distinct { source: b1 }) => {
            retrieval_id_eq(&**a1, &**b1)
        },
        (
            RetrievalId::GlobalAggregate { source: a1, collector_id: b1 },
            RetrievalId::GlobalAggregate { source: c1, collector_id: d1 },
        ) => {
            retrieval_id_eq(&**a1, &**c1) && *b1 == *d1
        },
        (
            RetrievalId::Scoring { source: a1, impact_fn_id: b1, constraint_id: c1 },
            RetrievalId::Scoring { source: d1, impact_fn_id: e1, constraint_id: f1 },
        ) => {
            retrieval_id_eq(&**a1, &**d1) && b1.0 == e1.0 && c1.0 == f1.0
        },
        _ => false,
    }
}

impl<S> PartialEq for RetrievalId<S> {
    fn eq(&self, other: &Self) -> (r: bool) {
        retrieval_id_eq(self, other)
    }
}

impl<S> vstd::std_specs::cmp::PartialEqSpecImpl for RetrievalId<S> {
    open spec fn obeys_eq_spec() -> bool {
        true
    }

    open spec fn eq_spec(&self, other: &Self) -> bool {
        *self == *other
    }
}

impl<S> Eq for RetrievalId<S> {
}

impl<S> Hash for RetrievalId<S> {
    /// Writes the variant's position, then the fields in order.
    fn hash<H: Hasher>(&self, state: &mut H)
        decreases self,
    {
        match self {
            RetrievalId::From(type_id, _) => {
                0isize.hash(state);
                type_id.hash(state);
            },
            RetrievalId::Filter { source, predicate_id } => {
                1isize.hash(state);
                (**source).hash(state);
                predicate_id.0.hash(state);
            },
            RetrievalId::Join { left, right, joiner, left_key_id, right_key_id } => {
                2isize.hash(state);
                (**left).hash(state);
                (**right).hash(state);
                joiner.discriminant().hash(state);
                left_key_id.0.hash(state);
                right_key_id.0.hash(state);
            },
            RetrievalId::ConditionalJoin { source, other, should_exist, left_key_id, right_key_id } => {
                3isize.hash(state);
                (**source).hash(state);
                (**other).hash(state);
                should_exist.hash(state);
                left_key_id.0.hash(state);
                right_key_id.0.hash(state);
            },
            RetrievalId::Group { source, key_fn_id, collector_id } => {
                4isize.hash(state);
                (**source).hash(state);
                key_fn_id.0.hash(state);
                collector_id.hash(state);
            },
            RetrievalId::FlatMap { source, mapper_fn_id } => {
                5isize.hash(state);
                (**source).hash(state);
                mapper_fn_id.0.hash(state);
            },
            RetrievalId::Mapping { source, mapper_fn_id } => {
                6isize.hash(state);
                (**source).hash(state);
                mapper_fn_id.0.hash(state);
            },
            RetrievalId::Union { sources_hash, source_count } => {
                7isize.hash(state);
                sources_hash.hash(state);
                source_count.hash(state);
            },
            RetrievalId::Distinct { source } => {
                8isize.hash(state);
                (**source).hash(state);
            },
            RetrievalId::GlobalAggregate { source, collector_id } => {
                9isize.hash(state);
                (**source).hash(state);
                collector_id.hash(state);
            },
            RetrievalId::Scoring { source, impact_fn_id, constraint_id } => {
                10isize.hash(state);
                (**source).hash(state);
                impact_fn_id.0.hash(state);
                constraint_id.0.hash(state);
            },
        }
    }
}

} // verus!

verus! {

/// A node of a stream graph, with the definitions it is built from.
pub enum StreamDefinition<S, G> {
    From(FromDefinition),
    Filter(FilterDefinition<S, G>),
    Join(JoinDefinition<S, G>),
    ConditionalJoin(ConditionalJoinDefinition<S, G>),
    Group(GroupDefinition<S, G>),
    FlatMap(FlatMapDefinition<S, G>),
    Mapping(MapDefinition<S, G>),
    Union(UnionDefinition<S, G>),
    Distinct(DistinctDefinition<S, G>),
    GlobalAggregate(GlobalAggregateDefinition<S, G>),
    Scoring(ScoringDefinition<S, G>),
}

/// The source of the stream: all facts of one type.
pub struct FromDefinition {
    pub fact_type: TypeId,
    pub fact_type_name: &'static str,
}

impl FromDefinition {
    /// The source of facts of type `T`, under the given type name.
    pub fn new<T: ?Sized + 'static>(fact_type_name: &'static str) -> (d: Self)
        ensures
            d.fact_type_name == fact_type_name,
    {
        Self { fact_type: type_id_of::<T>(), fact_type_name }
    }
}

/// Keeps the tuples for which a registered predicate holds.
pub struct FilterDefinition<S, G> {
    pub source: Box<StreamDefinition<S, G>>,
    pub predicate_id: FunctionId,
    pub _phantom: PhantomData<S>,
}

impl<S, G> FilterDefinition<S, G> {
    pub fn new(source: StreamDefinition<S, G>, predicate_id: FunctionId) -> (d: Self)
        ensures
            *d.source == source,
            d.predicate_id == predicate_id,
    {
        Self { source: Box::new(source), predicate_id, _phantom: PhantomData }
    }
}

/// Pairs the tuples of two streams whose keys the joiner relates.
pub struct JoinDefinition<S, G> {
    pub left_source: Box<StreamDefinition<S, G>>,
    pub right_source: Box<StreamDefinition<S, G>>,
    pub joiner_type: JoinerType,
    pub left_key_fn_id: FunctionId,
    pub right_key_fn_id: FunctionId,
    pub _phantom: PhantomData<S>,
}

impl<S, G> JoinDefinition<S, G> {
    pub fn new(
        source: StreamDefinition<S, G>,
        other: StreamDefinition<S, G>,
        joiner: JoinerType,
        left_key: FunctionId,
        right_key: FunctionId,
    ) -> (d: Self)
        ensures
            *d.left_source == source,
            *d.right_source == other,
            d.joiner_type == joiner,
            d.left_key_fn_id == left_key,
            d.right_key_fn_id == right_key,
    {
        Self {
            left_source: Box::new(source),
            right_source: Box::new(other),
            joiner_type: joiner,
            left_key_fn_id: left_key,
            right_key_fn_id: right_key,
            _phantom: PhantomData,
        }
    }
}

/// Keeps the tuples of a stream for which a matching tuple of another
/// stream exists (or, when `should_exist` is false, does not exist).
pub struct ConditionalJoinDefinition<S, G> {
    pub source: Box<StreamDefinition<S, G>>,
    pub other: Box<StreamDefinition<S, G>>,
    pub should_exist: bool,
    pub left_key_fn_id: FunctionId,
    pub right_key_fn_id: FunctionId,
    pub _phantom: PhantomData<S>,
}

impl<S, G> ConditionalJoinDefinition<S, G> {
    pub fn new(
        source: StreamDefinition<S, G>,
        other: StreamDefinition<S, G>,
        should_exist: bool,
        left_key: FunctionId,
        right_key: FunctionId,
    ) -> (d: Self)
        ensures
            *d.source == source,
            *d.other == other,
            d.should_exist == should_exist,
            d.left_key_fn_id == left_key,
            d.right_key_fn_id == right_key,
    {
        Self {
            source: Box::new(source),
            other: Box::new(other),
            should_exist,
            left_key_fn_id: left_key,
            right_key_fn_id: right_key,
            _phantom: PhantomData,
        }
    }
}

/// Groups the tuples by a key and collects each group.
pub struct GroupDefinition<S, G> {
    pub source: Box<StreamDefinition<S, G>>,
    pub key_fn_id: FunctionId,
    pub collector_supplier: CollectorSupplier<G>,
    pub _phantom: PhantomData<S>,
}

impl<S, G> GroupDefinition<S, G> {
    pub fn new(source: StreamDefinition<S, G>, key_fn_id: FunctionId, collector_supplier: CollectorSupplier<G>) -> (d: Self)
        ensures
            *d.source == source,
            d.key_fn_id == key_fn_id,
            d.collector_supplier == collector_supplier,
    {
        Self { source: Box::new(source), key_fn_id, collector_supplier, _phantom: PhantomData }
    }
}

/// Scores the tuples of a stream for a constraint.
pub struct ScoringDefinition<S, G> {
    pub source: Box<StreamDefinition<S, G>>,
    pub impact_fn_id: FunctionId,
    pub constraint_id: ConstraintId,
    pub _phantom: PhantomData<S>,
}

impl<S, G> ScoringDefinition<S, G> {
    pub fn new(source: StreamDefinition<S, G>, impact_fn_id: FunctionId, constraint_id: ConstraintId) -> (d: Self)
        ensures
            *d.source == source,
            d.impact_fn_id == impact_fn_id,
            d.constraint_id == constraint_id,
    {
        Self { source: Box::new(source), impact_fn_id, constraint_id, _phantom: PhantomData }
    }
}

/// Maps each tuple to any number of single facts.
pub struct FlatMapDefinition<S, G> {
    pub source: Box<StreamDefinition<S, G>>,
    pub mapper_fn_id: FunctionId,
    pub _phantom: PhantomData<S>,
}

impl<S, G> FlatMapDefinition<S, G> {
    pub fn new(source: StreamDefinition<S, G>, mapper_fn_id: FunctionId) -> (d: Self)
        ensures
            *d.source == source,
            d.mapper_fn_id == mapper_fn_id,
    {
        Self { source: Box::new(source), mapper_fn_id, _phantom: PhantomData }
    }
}

/// Maps each tuple to a tuple of `target_arity` facts.
pub struct MapDefinition<S, G> {
    pub source: Box<StreamDefinition<S, G>>,
    pub mapper_fn_id: FunctionId,
    pub target_arity: usize,
    pub _phantom: PhantomData<S>,
}

impl<S, G> MapDefinition<S, G> {
    pub fn new(source: StreamDefinition<S, G>, mapper_fn_id: FunctionId, target_arity: usize) -> (d: Self)
        ensures
            *d.source == source,
            d.mapper_fn_id == mapper_fn_id,
            d.target_arity == target_arity,
    {
        Self { source: Box::new(source), mapper_fn_id, target_arity, _phantom: PhantomData }
    }
}

/// Merges the tuples of several streams.
pub struct UnionDefinition<S, G> {
    pub sources: Vec<StreamDefinition<S, G>>,
    pub _phantom: PhantomData<S>,
}

impl<S, G> UnionDefinition<S, G> {
    pub fn new(sources: Vec<StreamDefinition<S, G>>) -> (d: Self)
        ensures
            d.sources == sources,
    {
        Self { sources, _phantom: PhantomData }
    }
}

/// Drops repeated tuples.
pub struct DistinctDefinition<S, G> {
    pub source: Box<StreamDefinition<S, G>>,
    pub _phantom: PhantomData<S>,
}

impl<S, G> DistinctDefinition<S, G> {
    pub fn new(source: StreamDefinition<S, G>) -> (d: Self)
        ensures
            *d.source == source,
    {
        Self { source: Box::new(source), _phantom: PhantomData }
    }
}

/// Collects all tuples of a stream into one.
pub struct GlobalAggregateDefinition<S, G> {
    pub source: Box<StreamDefinition<S, G>>,
    pub collector_supplier: CollectorSupplier<G>,
    pub _phantom: PhantomData<S>,
}

impl<S, G> GlobalAggregateDefinition<S, G> {
    pub fn new(source: StreamDefinition<S, G>, collector_supplier: CollectorSupplier<G>) -> (d: Self)
        ensures
            *d.source == source,
            d.collector_supplier == collector_supplier,
    {
        Self { source: Box::new(source), collector_supplier, _phantom: PhantomData }
    }
}

} // verus!

verus! {

impl<S, G> StreamDefinition<S, G> {
    /// `rid` identifies this definition: it has the same shape, with the
    /// definition's function, collector and constraint ids, the sources'
    /// retrieval ids in place of the sources, and for a union the number of
    /// sources (and a hash of their retrieval ids).
    pub open spec fn spec_identified_by(&self, rid: RetrievalId<S>) -> bool
        decreases self,
    {
        match self {
            StreamDefinition::From(d) => rid == RetrievalId::<S>::From(d.fact_type, PhantomData),
            StreamDefinition::Filter(d) => rid matches RetrievalId::Filter { source, predicate_id }
                && predicate_id == d.predicate_id && d.source.spec_identified_by(*source),
            StreamDefinition::Join(d) => rid matches RetrievalId::Join { left, right, joiner, left_key_id, right_key_id }
                && joiner == d.joiner_type && left_key_id == d.left_key_fn_id && right_key_id == d.right_key_fn_id
                && d.left_source.spec_identified_by(*left) && d.right_source.spec_identified_by(*right),
            StreamDefinition::ConditionalJoin(d) => rid matches RetrievalId::ConditionalJoin { source, other, should_exist, left_key_id, right_key_id }
                && should_exist == d.should_exist && left_key_id == d.left_key_fn_id && right_key_id == d.right_key_fn_id
                && d.source.spec_identified_by(*source) && d.other.spec_identified_by(*other),
            StreamDefinition::Group(d) => rid matches RetrievalId::Group { source, key_fn_id, collector_id }
                && key_fn_id == d.key_fn_id && collector_id == d.collector_supplier.spec_id()
                && d.source.spec_identified_by(*source),
            StreamDefinition::FlatMap(d) => rid matches RetrievalId::FlatMap { source, mapper_fn_id }
                && mapper_fn_id == d.mapper_fn_id && d.source.spec_identified_by(*source),
            StreamDefinition::Mapping(d) => rid matches RetrievalId::Mapping { source, mapper_fn_id }
                && mapper_fn_id == d.mapper_fn_id && d.source.spec_identified_by(*source),
            StreamDefinition::Union(d) => rid matches RetrievalId::Union { sources_hash, source_count }
                && source_count == d.sources.len(),
            StreamDefinition::Distinct(d) => rid matches RetrievalId::Distinct { source }
                && d.source.spec_identified_by(*source),
            StreamDefinition::GlobalAggregate(d) => rid matches RetrievalId::GlobalAggregate { source, collector_id }
                && collector_id == d.collector_supplier.spec_id() && d.source.spec_identified_by(*source),
            StreamDefinition::Scoring(d) => rid matches RetrievalId::Scoring { source, impact_fn_id, constraint_id }
                && impact_fn_id == d.impact_fn_id && constraint_id == d.constraint_id
                && d.source.spec_identified_by(*source),
        }
    }

    /// The retrieval id of this definition (see `spec_identified_by`). For a
    /// union, the ids of the sources are hashed, in order, into one
    /// `DefaultHasher`.
    pub fn get_retrieval_id(&self) -> (r: RetrievalId<S>)
        ensures
            self.spec_identified_by(r),
        decreases self,
    {
        match self {
            StreamDefinition::From(def) => RetrievalId::From(def.fact_type, PhantomData),
            StreamDefinition::Filter(def) => RetrievalId::Filter {
                source: Box::new(def.source.get_retrieval_id()),
                predicate_id: def.predicate_id,
            },
            StreamDefinition::Join(def) => RetrievalId::Join {
                left: Box::new(def.left_source.get_retrieval_id()),
                right: Box::new(def.right_source.get_retrieval_id()),
                joiner: def.joiner_type,
                left_key_id: def.left_key_fn_id,
                right_key_id: def.right_key_fn_id,
            },
            StreamDefinition::ConditionalJoin(def) => RetrievalId::ConditionalJoin {
                source: Box::new(def.source.get_retrieval_id()),
                other: Box::new(def.other.get_retrieval_id()),
                should_exist: def.should_exist,
                left_key_id: def.left_key_fn_id,
                right_key_id: def.right_key_fn_id,
            },
            StreamDefinition::Group(def) => RetrievalId::Group {
                source: Box::new(def.source.get_retrieval_id()),
                key_fn_id: def.key_fn_id,
                collector_id: def.collector_supplier.id(),
            },
            StreamDefinition::FlatMap(def) => RetrievalId::FlatMap {
                source: Box::new(def.source.get_retrieval_id()),
                mapper_fn_id: def.mapper_fn_id,
            },
            StreamDefinition::Mapping(def) => RetrievalId::Mapping {
                source: Box::new(def.source.get_retrieval_id()),
                mapper_fn_id: def.mapper_fn_id,
            },
            StreamDefinition::Union(def) => {
                let mut hasher = DefaultHasher::new();
                let mut i: usize = 0;
                while i < def.sources.len()
                    invariant
                        i <= def.sources.len(),
                        *self is Union,
                        self->Union_0 == *def,
                    decreases def.sources.len() - i,
                {
                    let source_id = def.sources[i].get_retrieval_id();
                    source_id.hash(&mut hasher);
                    i = i + 1;
                }
                RetrievalId::Union { sources_hash: hasher.finish(), source_count: def.sources.len() }
            },
            StreamDefinition::Distinct(def) => RetrievalId::Distinct { source: Box::new(def.source.get_retrieval_id()) },
            StreamDefinition::GlobalAggregate(def) => RetrievalId::GlobalAggregate {
                source: Box::new(def.source.get_retrieval_id()),
                collector_id: def.collector_supplier.id(),
            },
            StreamDefinition::Scoring(def) => RetrievalId::Scoring {
                source: Box::new(def.source.get_retrieval_id()),
                impact_fn_id: def.impact_fn_id,
                constraint_id: def.constraint_id,
            },
        }
    }

    /// How many facts each tuple of this stream holds.
    pub open spec fn spec_output_arity(&self) -> int
        decreases self,
    {
        match self {
            StreamDefinition::From(_) => 1,
            StreamDefinition::Filter(def) => def.source.spec_output_arity(),
            StreamDefinition::Join(def) => def.left_source.spec_output_arity() + def.right_source.spec_output_arity(),
            StreamDefinition::ConditionalJoin(def) => def.source.spec_output_arity(),
            StreamDefinition::Group(_) => 2,
            StreamDefinition::FlatMap(_) => 1,
            StreamDefinition::Mapping(def) => def.target_arity as int,
            StreamDefinition::Union(def) => if def.sources@.len() == 0 {
                1
            } else {
                def.sources@[0].spec_output_arity()
            },
            StreamDefinition::Distinct(def) => def.source.spec_output_arity(),
            StreamDefinition::GlobalAggregate(_) => 1,
            StreamDefinition::Scoring(def) => def.source.spec_output_arity(),
        }
    }

    /// The arity is never negative.
    pub proof fn lemma_output_arity_nonneg(&self)
        ensures
            self.spec_output_arity() >= 0,
        decreases self,
    {
        match self {
            StreamDefinition::Filter(def) => def.source.lemma_output_arity_nonneg(),
            StreamDefinition::Join(def) => {
                def.left_source.lemma_output_arity_nonneg();
                def.right_source.lemma_output_arity_nonneg();
            },
            StreamDefinition::ConditionalJoin(def) => def.source.lemma_output_arity_nonneg(),
            StreamDefinition::Union(def) => {
                if def.sources@.len() > 0 {
                    def.sources@[0].lemma_output_arity_nonneg();
                }
            },
            StreamDefinition::Distinct(def) => def.source.lemma_output_arity_nonneg(),
            StreamDefinition::Scoring(def) => def.source.lemma_output_arity_nonneg(),
            _ => {},
        }
    }

    /// How many facts each tuple of this stream holds (a join adds the
    /// arities of its sides; a union takes that of its first source, or 1).
    pub fn output_arity(&self) -> (r: usize)
        requires
            self.spec_output_arity() <= usize::MAX,
        ensures
            r == self.spec_output_arity(),
        decreases self,
    {
        match self {
            StreamDefinition::From(_) => 1,
            StreamDefinition::Filter(def) => def.source.output_arity(),
            StreamDefinition::Join(def) => {
                proof {
                    def.left_source.lemma_output_arity_nonneg();
                    def.right_source.lemma_output_arity_nonneg();
                }
                def.left_source.output_arity() + def.right_source.output_arity()
            },
            StreamDefinition::ConditionalJoin(def) => def.source.output_arity(),
            StreamDefinition::Group(_) => 2,
            StreamDefinition::FlatMap(_) => 1,
            StreamDefinition::Mapping(def) => def.target_arity,
            StreamDefinition::Union(def) => {
                if def.sources.len() == 0 {
                    1
                } else {
                    def.sources[0].output_arity()
                }
            },
            StreamDefinition::Distinct(def) => def.source.output_arity(),
            StreamDefinition::GlobalAggregate(_) => 1,
            StreamDefinition::Scoring(def) => def.source.output_arity(),
        }
    }

    /// The single source of a filter, group, flat-map, map, distinct, global
    /// aggregate or scoring node; `None` for the others.
    pub fn get_parent(&self) -> (r: Option<&StreamDefinition<S, G>>)
        ensures
            match self {
                StreamDefinition::Filter(def) => r == Some(&*def.source),
                StreamDefinition::Group(def) => r == Some(&*def.source),
                StreamDefinition::FlatMap(def) => r == Some(&*def.source),
                StreamDefinition::Mapping(def) => r == Some(&*def.source),
                StreamDefinition::Distinct(def) => r == Some(&*def.source),
                StreamDefinition::GlobalAggregate(def) => r == Some(&*def.source),
                StreamDefinition::Scoring(def) => r == Some(&*def.source),
                _ => r is None,
            },
    {
        match self {
            StreamDefinition::Filter(def) => Some(&*def.source),
            StreamDefinition::Group(def) => Some(&*def.source),
            StreamDefinition::FlatMap(def) => Some(&*def.source),
            StreamDefinition::Mapping(def) => Some(&*def.source),
            StreamDefinition::Distinct(def) => Some(&*def.source),
            StreamDefinition::GlobalAggregate(def) => Some(&*def.source),
            StreamDefinition::Scoring(def) => Some(&*def.source),
            _ => None,
        }
    }

    /// The two sources of a join (left, right) or of a conditional join
    /// (source, other); `None` for the others.
    pub fn get_join_parents(&self) -> (r: Option<(&StreamDefinition<S, G>, &StreamDefinition<S, G>)>)
        ensures
            match self {
                StreamDefinition::Join(def) => r == Some((&*def.left_source, &*def.right_source)),
                StreamDefinition::ConditionalJoin(def) => r == Some((&*def.source, &*def.other)),
                _ => r is None,
            },
    {
        match self {
            StreamDefinition::Join(def) => Some((&*def.left_source, &*def.right_source)),
            StreamDefinition::ConditionalJoin(def) => Some((&*def.source, &*def.other)),
            _ => None,
        }
    }

    /// The sources of a union; `None` for the others.
    pub fn get_union_parents(&self) -> (r: Option<&[StreamDefinition<S, G>]>)
        ensures
            match self {
                StreamDefinition::Union(def) => r is Some && r->0@ == def.sources@,
                _ => r is None,
            },
    {
        match self {
            StreamDefinition::Union(def) => Some(def.sources.as_slice()),
            _ => None,
        }
    }
}

} // verus!

verus! {

/// The fact at `index` of the tuple, seen as a `T`: `None` past the end or
/// when that fact is of another type.
pub fn extract_fact<T, A: GreynetFact<T>>(tuple: &FactTuple<A>, index: usize) -> (r: Option<&T>)
    ensures
        same_fact(r, spec_extract::<T, A>(tuple@, index as int)),
{
    match tuple.get_fact_ref(index) {
        Some(fact) => fact.as_fact(),
        None => None,
    }
}

} // verus!

verus! {

/// A key function that applies `key_fn` to the `T` at position `index` of a
/// tuple.
pub struct FieldKey<T, F> {
    pub index: usize,
    pub key_fn: F,
    pub _phantom: PhantomData<T>,
}

impl<T, F> FieldKey<T, F> {
    /// The key of `tuple`, which must hold a `T` at the position.
    pub fn key<K, A>(&self, tuple: &FactTuple<A>) -> (k: K)
        where
            A: GreynetFact<T>,
            F: Fn(&T) -> K,
        requires
            key_extractors::total_on::<T, K, F>(self.key_fn),
            key::has_fact_at::<T, A>(tuple@, self.index as int),
        ensures
            key::key_of_fact_at::<T, K, F, A>(self.key_fn, tuple@, self.index as int, k),
    {
        let fact = extract_fact::<T, A>(tuple, self.index).unwrap();
        (self.key_fn)(fact)
    }
}

/// Names a position in a tuple at which a key function reads a fact.
pub trait KeyBuilder<T>: Sized {
    /// The position named.
    spec fn spec_index(&self) -> int;

    /// The key function that applies `f` to the `T` at this position.
    fn field<F>(self, f: F) -> (r: FieldKey<T, F>)
        ensures
            r.index == self.spec_index(),
            r.key_fn == f,
    ;
}

/// The first position of a tuple, read as a `T`.
pub struct FirstFact<T>(pub PhantomData<T>);

/// A given position of a tuple, read as a `T`.
pub struct AtIndex<T> {
    pub index: usize,
    pub _phantom: PhantomData<T>,
}

/// The first position of a tuple.
pub fn first<T>() -> (r: FirstFact<T>)
    ensures
        r == FirstFact::<T>(PhantomData),
        r.spec_index() == 0,
{
    FirstFact(PhantomData)
}

/// The position `index` of a tuple.
pub fn at_index<T>(index: usize) -> (r: AtIndex<T>)
    ensures
        r.index == index,
        r.spec_index() == index,
{
    AtIndex { index, _phantom: PhantomData }
}

impl<T> KeyBuilder<T> for FirstFact<T> {
    open spec fn spec_index(&self) -> int {
        0
    }

    fn field<F>(self, f: F) -> (r: FieldKey<T, F>) {
        FieldKey { index: 0, key_fn: f, _phantom: PhantomData }
    }
}

impl<T> KeyBuilder<T> for AtIndex<T> {
    open spec fn spec_index(&self) -> int {
        self.index as int
    }

    fn field<F>(self, f: F) -> (r: FieldKey<T, F>) {
        FieldKey { index: self.index, key_fn: f, _phantom: PhantomData }
    }
}

} // verus!

verus! {

/// Law: the key function that a position builder makes (`first()` or
/// `at_index(index)`, then `field(f)`) needs what `key::at` at the builder's
/// position needs (a `T` there) and answers what it answers (what `f` may
/// answer on that fact); for `first()` that position is 0, as for
/// `key::first`.
pub proof fn lemma_field_key_is_key_at<T, K, F: Fn(&T) -> K, A: GreynetFact<T>, B: KeyBuilder<T>>(
    builder: B,
    field_key: FieldKey<T, F>,
    key_fn: F,
)
    requires
        field_key.index == builder.spec_index(),
        field_key.key_fn == key_fn,
    ensures
        forall|facts: Seq<A>| #[trigger] key::has_fact_at::<T, A>(facts, field_key.index as int)
            == key::has_fact_at::<T, A>(facts, builder.spec_index()),
        forall|facts: Seq<A>, k: K| #[trigger] key::key_of_fact_at::<T, K, F, A>(field_key.key_fn, facts, field_key.index as int, k)
            == key::key_of_fact_at::<T, K, F, A>(key_fn, facts, builder.spec_index(), k),
{
}

} // verus!

verus! {

/// `d1` and `d2` compute the same node as far as node sharing can tell:
/// the same kind of node with the same functions, collectors, constraint and
/// flags, over sources that compute the same nodes (for a union, the same
/// number of sources; for a map, whatever target arity).
pub open spec fn spec_same_node<S, G>(d1: StreamDefinition<S, G>, d2: StreamDefinition<S, G>) -> bool
    decreases d1,
{
    match (d1, d2) {
        (StreamDefinition::From(a), StreamDefinition::From(b)) => a.fact_type == b.fact_type,
        (StreamDefinition::Filter(a), StreamDefinition::Filter(b)) =>
            a.predicate_id == b.predicate_id && spec_same_node(*a.source, *b.source),
        (StreamDefinition::Join(a), StreamDefinition::Join(b)) =>
            a.joiner_type == b.joiner_type && a.left_key_fn_id == b.left_key_fn_id && a.right_key_fn_id == b.right_key_fn_id
            && spec_same_node(*a.left_source, *b.left_source) && spec_same_node(*a.right_source, *b.right_source),
        (StreamDefinition::ConditionalJoin(a), StreamDefinition::ConditionalJoin(b)) =>
            a.should_exist == b.should_exist && a.left_key_fn_id == b.left_key_fn_id && a.right_key_fn_id == b.right_key_fn_id
            && spec_same_node(*a.source, *b.source) && spec_same_node(*a.other, *b.other),
        (StreamDefinition::Group(a), StreamDefinition::Group(b)) =>
            a.key_fn_id == b.key_fn_id && a.collector_supplier.spec_id() == b.collector_supplier.spec_id()
            && spec_same_node(*a.source, *b.source),
        (StreamDefinition::FlatMap(a), StreamDefinition::FlatMap(b)) =>
            a.mapper_fn_id == b.mapper_fn_id && spec_same_node(*a.source, *b.source),
        (StreamDefinition::Mapping(a), StreamDefinition::Mapping(b)) =>
            a.mapper_fn_id == b.mapper_fn_id && spec_same_node(*a.source, *b.source),
        (StreamDefinition::Union(a), StreamDefinition::Union(b)) => a.sources@.len() == b.sources@.len(),
        (StreamDefinition::Distinct(a), StreamDefinition::Distinct(b)) => spec_same_node(*a.source, *b.source),
        (StreamDefinition::GlobalAggregate(a), StreamDefinition::GlobalAggregate(b)) =>
            a.collector_supplier.spec_id() == b.collector_supplier.spec_id() && spec_same_node(*a.source, *b.source),
        (StreamDefinition::Scoring(a), StreamDefinition::Scoring(b)) =>
            a.impact_fn_id == b.impact_fn_id && a.constraint_id == b.constraint_id && spec_same_node(*a.source, *b.source),
        _ => false,
    }
}

/// Law: definitions that get the same retrieval id compute the same node:
/// different kinds of node, different functions, collectors, constraints or
/// flags (such as `if_exists` against `if_not_exists`), or sources that
/// differ so, give different retrieval ids.
pub proof fn lemma_retrieval_id_identifies<S, G>(d1: StreamDefinition<S, G>, d2: StreamDefinition<S, G>, rid: RetrievalId<S>)
    requires
        d1.spec_identified_by(rid),
        d2.spec_identified_by(rid),
    ensures
        spec_same_node(d1, d2),
    decreases d1,
{
    match (d1, d2) {
        (StreamDefinition::Filter(a), StreamDefinition::Filter(b)) => {
            let r = rid->Filter_source;
            lemma_retrieval_id_identifies(*a.source, *b.source, *r);
        },
        (StreamDefinition::Join(a), StreamDefinition::Join(b)) => {
            lemma_retrieval_id_identifies(*a.left_source, *b.left_source, *rid->Join_left);
            lemma_retrieval_id_identifies(*a.right_source, *b.right_source, *rid->Join_right);
        },
        (StreamDefinition::ConditionalJoin(a), StreamDefinition::ConditionalJoin(b)) => {
            lemma_retrieval_id_identifies(*a.source, *b.source, *rid->ConditionalJoin_source);
            lemma_retrieval_id_identifies(*a.other, *b.other, *rid->ConditionalJoin_other);
        },
        (StreamDefinition::Group(a), StreamDefinition::Group(b)) => {
            lemma_retrieval_id_identifies(*a.source, *b.source, *rid->Group_source);
        },
        (StreamDefinition::FlatMap(a), StreamDefinition::FlatMap(b)) => {
            lemma_retrieval_id_identifies(*a.source, *b.source, *rid->FlatMap_source);
        },
        (StreamDefinition::Mapping(a), StreamDefinition::Mapping(b)) => {
            lemma_retrieval_id_identifies(*a.source, *b.source, *rid->Mapping_source);
        },
        (StreamDefinition::Distinct(a), StreamDefinition::Distinct(b)) => {
            lemma_retrieval_id_identifies(*a.source, *b.source, *rid->Distinct_source);
        },
        (StreamDefinition::GlobalAggregate(a), StreamDefinition::GlobalAggregate(b)) => {
            lemma_retrieval_id_identifies(*a.source, *b.source, *rid->GlobalAggregate_source);
        },
        (StreamDefinition::Scoring(a), StreamDefinition::Scoring(b)) => {
            lemma_retrieval_id_identifies(*a.source, *b.source, *rid->Scoring_source);
        },
        _ => {},
    }
}

/// Law: filtering, dropping repeats, scoring or keeping the tuples that have
/// (or lack) a match never changes how many facts a tuple holds; a join's
/// tuples hold those of both sides; a source, a flat map or a global
/// aggregate gives single facts, a grouping pairs, a map its target arity.
pub proof fn lemma_output_arity_follows_sources<S, G>(d: StreamDefinition<S, G>)
    ensures
        d matches StreamDefinition::Filter(f) ==> d.spec_output_arity() == f.source.spec_output_arity(),
        d matches StreamDefinition::Distinct(f) ==> d.spec_output_arity() == f.source.spec_output_arity(),
        d matches StreamDefinition::Scoring(f) ==> d.spec_output_arity() == f.source.spec_output_arity(),
        d matches StreamDefinition::ConditionalJoin(f) ==> d.spec_output_arity() == f.source.spec_output_arity(),
        d matches StreamDefinition::Join(j) ==> d.spec_output_arity() == j.left_source.spec_output_arity() + j.right_source.spec_output_arity(),
        d is From || d is FlatMap || d is GlobalAggregate ==> d.spec_output_arity() == 1,
        d is Group ==> d.spec_output_arity() == 2,
        d matches StreamDefinition::Mapping(m) ==> d.spec_output_arity() == m.target_arity,
{
}

/// Law: a stream built by joining two sources of single facts and then
/// filtering holds pairs; in general, filtering a join keeps the sum of the
/// sides' arities.
pub proof fn lemma_filtered_join_arity<S, G>(f: FilterDefinition<S, G>, j: JoinDefinition<S, G>)
    requires
        *f.source == StreamDefinition::Join(j),
    ensures
        StreamDefinition::Filter(f).spec_output_arity()
            == j.left_source.spec_output_arity() + j.right_source.spec_output_arity(),
        j.left_source.spec_output_arity() == 1 && j.right_source.spec_output_arity() == 1
            ==> StreamDefinition::Filter(f).spec_output_arity() == 2,
{
    let fd = StreamDefinition::<S, G>::Filter(f);
    let jd = StreamDefinition::<S, G>::Join(j);
    assert(fd.spec_output_arity() == f.source.spec_output_arity());
    assert(jd.spec_output_arity() == j.left_source.spec_output_arity() + j.right_source.spec_output_arity());
}

} // verus!
