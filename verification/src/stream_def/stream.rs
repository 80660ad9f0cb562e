//! Building stream graphs step by step: each operation wraps the stream's
//! definition in a new node that refers to the functions registered for it,
//! and keeps the constraint the stream is being built for.
use vstd::prelude::*;
use std::marker::PhantomData;
use super::{
    Arity1, Arity2, CollectorSupplier, ConditionalJoinDefinition, ConstraintId, DistinctDefinition,
    FilterDefinition, FlatMapDefinition, FunctionId, GlobalAggregateDefinition, GroupDefinition,
    JoinDefinition, JoinerType, MapDefinition, StreamDefinition, UnionDefinition,
};

verus! {

/// A constraint ready to be added: the stream whose tuples it penalizes, the
/// function that says by how much, and the constraint's id.
pub struct ConstraintRecipe<S, G, P> {
    pub stream_def: StreamDefinition<S, G>,
    pub penalty_function: P,
    pub constraint_id: ConstraintId,
}

/// A stream of tuples of arity `A` under construction, with the constraint
/// it is built for, if any.
pub struct Stream<A, S, G> {
    pub definition: StreamDefinition<S, G>,
    pub constraint_id_context: Option<ConstraintId>,
    pub _arity: PhantomData<A>,
    pub _score: PhantomData<S>,
}

/// `d` is a join of `left` and `right` under the joiner and key functions.
pub open spec fn is_join<S, G>(
    d: StreamDefinition<S, G>,
    left: StreamDefinition<S, G>,
    right: StreamDefinition<S, G>,
    joiner: JoinerType,
    left_key_id: FunctionId,
    right_key_id: FunctionId,
) -> bool {
    d matches StreamDefinition::Join(j) && *j.left_source == left && *j.right_source == right
        && j.joiner_type == joiner && j.left_key_fn_id == left_key_id && j.right_key_fn_id == right_key_id
}

/// `d` keeps the tuples of `source` for which a matching tuple of `other`
/// exists (`should_exist`) or does not.
pub open spec fn is_conditional_join<S, G>(
    d: StreamDefinition<S, G>,
    source: StreamDefinition<S, G>,
    other: StreamDefinition<S, G>,
    should_exist: bool,
    left_key_id: FunctionId,
    right_key_id: FunctionId,
) -> bool {
    d matches StreamDefinition::ConditionalJoin(c) && *c.source == source && *c.other == other
        && c.should_exist == should_exist && c.left_key_fn_id == left_key_id && c.right_key_fn_id == right_key_id
}

/// `d` maps each tuple of `source` with the mapper to a tuple of `arity` facts.
pub open spec fn is_mapping<S, G>(d: StreamDefinition<S, G>, source: StreamDefinition<S, G>, mapper_fn_id: FunctionId, arity: usize) -> bool {
    d matches StreamDefinition::Mapping(m) && *m.source == source && m.mapper_fn_id == mapper_fn_id && m.target_arity == arity
}

impl<A, S, G> Stream<A, S, G> {
    /// A stream over the definition, built for no constraint.
    pub fn new(definition: StreamDefinition<S, G>) -> (r: Self)
        ensures
            r.definition == definition,
            r.constraint_id_context is None,
    {
        Stream { definition, constraint_id_context: None, _arity: PhantomData, _score: PhantomData }
    }

    /// A stream over the definition, built for the given constraint.
    pub fn new_with_context(definition: StreamDefinition<S, G>, context: Option<ConstraintId>) -> (r: Self)
        ensures
            r.definition == definition,
            r.constraint_id_context == context,
    {
        Stream { definition, constraint_id_context: context, _arity: PhantomData, _score: PhantomData }
    }

    /// Pairs this stream's tuples with the other's whose keys the joiner
    /// relates; the key functions were registered under the given ids.
    pub fn join_on_universal<OtherArity>(
        self,
        other: Stream<OtherArity, S, G>,
        joiner_type: JoinerType,
        left_key_id: FunctionId,
        right_key_id: FunctionId,
    ) -> (r: Stream<Arity2, S, G>)
        ensures
            is_join(r.definition, self.definition, other.definition, joiner_type, left_key_id, right_key_id),
            r.constraint_id_context == self.constraint_id_context,
    {
        let join_def = JoinDefinition::new(self.definition, other.definition, joiner_type, left_key_id, right_key_id);
        Stream::new_with_context(StreamDefinition::Join(join_def), self.constraint_id_context)
    }

    /// The join on equal keys.
    pub fn join_on<OtherArity>(self, other: Stream<OtherArity, S, G>, left_key_id: FunctionId, right_key_id: FunctionId) -> (r: Stream<Arity2, S, G>)
        ensures
            is_join(r.definition, self.definition, other.definition, JoinerType::Equal, left_key_id, right_key_id),
            r.constraint_id_context == self.constraint_id_context,
    {
        self.join_on_universal(other, JoinerType::Equal, left_key_id, right_key_id)
    }

    /// Joins a grouped stream, keyed by its group key (the first fact of its
    /// pairs), with another stream on equal keys.
    pub fn join_on_group_key<OtherArity>(self, other: Stream<OtherArity, S, G>, group_key_id: FunctionId, right_key_id: FunctionId) -> (r: Stream<Arity2, S, G>)
        ensures
            is_join(r.definition, self.definition, other.definition, JoinerType::Equal, group_key_id, right_key_id),
            r.constraint_id_context == self.constraint_id_context,
    {
        let join_def = JoinDefinition::new(self.definition, other.definition, JoinerType::Equal, group_key_id, right_key_id);
        Stream::new_with_context(StreamDefinition::Join(join_def), self.constraint_id_context)
    }

    /// Keeps this stream's tuples for which a tuple of the other stream with
    /// an equal key exists (`should_exist`) or does not.
    pub fn if_conditionally_universal<OtherArity>(
        self,
        other: Stream<OtherArity, S, G>,
        should_exist: bool,
        left_key_id: FunctionId,
        right_key_id: FunctionId,
    ) -> (r: Self)
        ensures
            is_conditional_join(r.definition, self.definition, other.definition, should_exist, left_key_id, right_key_id),
            r.constraint_id_context == self.constraint_id_context,
    {
        let cond_def = ConditionalJoinDefinition::new(self.definition, other.definition, should_exist, left_key_id, right_key_id);
        Self::new_with_context(StreamDefinition::ConditionalJoin(cond_def), self.constraint_id_context)
    }

    /// Keeps the tuples that have a match in the other stream.
    pub fn if_exists<OtherArity>(self, other: Stream<OtherArity, S, G>, left_key_id: FunctionId, right_key_id: FunctionId) -> (r: Self)
        ensures
            is_conditional_join(r.definition, self.definition, other.definition, true, left_key_id, right_key_id),
            r.constraint_id_context == self.constraint_id_context,
    {
        self.if_conditionally_universal(other, true, left_key_id, right_key_id)
    }

    /// Keeps the tuples that have no match in the other stream.
    pub fn if_not_exists<OtherArity>(self, other: Stream<OtherArity, S, G>, left_key_id: FunctionId, right_key_id: FunctionId) -> (r: Self)
        ensures
            is_conditional_join(r.definition, self.definition, other.definition, false, left_key_id, right_key_id),
            r.constraint_id_context == self.constraint_id_context,
    {
        self.if_conditionally_universal(other, false, left_key_id, right_key_id)
    }

    /// Groups the tuples by the registered key function and collects each
    /// group; the result pairs each key with its collected value.
    pub fn group_by(self, key_fn_id: FunctionId, collector_supplier: CollectorSupplier<G>) -> (r: Stream<Arity2, S, G>)
        ensures
            r.definition matches StreamDefinition::Group(g) && *g.source == self.definition
                && g.key_fn_id == key_fn_id && g.collector_supplier == collector_supplier,
            r.constraint_id_context == self.constraint_id_context,
    {
        let group_def = GroupDefinition::new(self.definition, key_fn_id, collector_supplier);
        Stream::new_with_context(StreamDefinition::Group(group_def), self.constraint_id_context)
    }

    /// Maps each tuple with the registered mapper to any number of facts.
    pub fn flat_map(self, mapper_fn_id: FunctionId) -> (r: Stream<Arity1, S, G>)
        ensures
            r.definition matches StreamDefinition::FlatMap(f) && *f.source == self.definition && f.mapper_fn_id == mapper_fn_id,
            r.constraint_id_context == self.constraint_id_context,
    {
        let flatmap_def = FlatMapDefinition::new(self.definition, mapper_fn_id);
        Stream::new_with_context(StreamDefinition::FlatMap(flatmap_def), self.constraint_id_context)
    }

    /// Maps each tuple with the registered mapper to a single fact.
    pub fn map(self, mapper_fn_id: FunctionId) -> (r: Stream<Arity1, S, G>)
        ensures
            is_mapping(r.definition, self.definition, mapper_fn_id, 1),
            r.constraint_id_context == self.constraint_id_context,
    {
        let map_def = MapDefinition::new(self.definition, mapper_fn_id, 1);
        Stream::new_with_context(StreamDefinition::Mapping(map_def), self.constraint_id_context)
    }

    /// Maps each tuple with the registered mapper to a pair of facts.
    pub fn map_to_pair(self, mapper_fn_id: FunctionId) -> (r: Stream<Arity2, S, G>)
        ensures
            is_mapping(r.definition, self.definition, mapper_fn_id, 2),
            r.constraint_id_context == self.constraint_id_context,
    {
        let map_def = MapDefinition::new(self.definition, mapper_fn_id, 2);
        Stream::new_with_context(StreamDefinition::Mapping(map_def), self.constraint_id_context)
    }

    /// The tuples of this stream and of the other, of the same arity.
    pub fn union(self, other: Stream<A, S, G>) -> (r: Self)
        ensures
            r.definition matches StreamDefinition::Union(u) && u.sources@ == seq![self.definition, other.definition],
            r.constraint_id_context == self.constraint_id_context,
    {
        let sources = vec![self.definition, other.definition];
        let union_def = UnionDefinition::new(sources);
        Self::new_with_context(StreamDefinition::Union(union_def), self.constraint_id_context)
    }

    /// The tuples of this stream, each once.
    pub fn distinct(self) -> (r: Self)
        ensures
            r.definition matches StreamDefinition::Distinct(d) && *d.source == self.definition,
            r.constraint_id_context == self.constraint_id_context,
    {
        let distinct_def = DistinctDefinition::new(self.definition);
        Self::new_with_context(StreamDefinition::Distinct(distinct_def), self.constraint_id_context)
    }

    /// All tuples of this stream collected into one value.
    pub fn aggregate(self, collector_supplier: CollectorSupplier<G>) -> (r: Stream<Arity1, S, G>)
        ensures
            r.definition matches StreamDefinition::GlobalAggregate(g) && *g.source == self.definition
                && g.collector_supplier == collector_supplier,
            r.constraint_id_context == self.constraint_id_context,
    {
        let global_agg_def = GlobalAggregateDefinition::new(self.definition, collector_supplier);
        Stream::new_with_context(StreamDefinition::GlobalAggregate(global_agg_def), self.constraint_id_context)
    }

    /// The constraint this stream is built for, penalizing its tuples by the
    /// function; the stream must be built for a constraint.
    pub fn penalize<P>(self, penalty_function: P) -> (r: ConstraintRecipe<S, G, P>)
        requires
            self.constraint_id_context is Some,
        ensures
            r.stream_def == self.definition,
            r.penalty_function == penalty_function,
            r.constraint_id == self.constraint_id_context->0,
    {
        let constraint_id = self.constraint_id_context.unwrap();
        self.penalize_with_id(constraint_id, penalty_function)
    }

    /// The constraint with the given id, penalizing this stream's tuples by
    /// the function.
    pub fn penalize_with_id<P>(self, constraint_id: ConstraintId, penalty_function: P) -> (r: ConstraintRecipe<S, G, P>)
        ensures
            r.stream_def == self.definition,
            r.penalty_function == penalty_function,
            r.constraint_id == constraint_id,
    {
        ConstraintRecipe { stream_def: self.definition, penalty_function, constraint_id }
    }

    /// Keeps the tuples for which the registered predicate holds.
    pub fn filter(self, predicate_id: FunctionId) -> (r: Self)
        ensures
            r.definition matches StreamDefinition::Filter(f) && *f.source == self.definition && f.predicate_id == predicate_id,
            r.constraint_id_context == self.constraint_id_context,
    {
        let filter_def = FilterDefinition::new(self.definition, predicate_id);
        Self::new_with_context(StreamDefinition::Filter(filter_def), self.constraint_id_context)
    }
}

} // verus!
