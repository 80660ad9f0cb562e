use greyjack::stream_def::{
    ConstraintId, DistinctDefinition, FilterDefinition, FlatMapDefinition, FromDefinition, FunctionId, GlobalAggregateDefinition,
    GroupDefinition, JoinDefinition, JoinerType, MapDefinition, ScoringDefinition, StreamDefinition, UnionDefinition,
    CollectorSupplier, ConditionalJoinDefinition, RetrievalId, retrieval_id_eq,
};
use std::collections::hash_map::DefaultHasher;
use std::hash::{Hash, Hasher};

type G = fn() -> u64;
type Def = StreamDefinition<(), G>;

fn make_collector() -> u64 {
    42
}

fn supplier(id: usize) -> CollectorSupplier<G> {
    CollectorSupplier::new(id, make_collector as G)
}

fn from_u64() -> Def {
    StreamDefinition::From(FromDefinition::new::<u64>("u64"))
}

fn from_i32() -> Def {
    StreamDefinition::From(FromDefinition::new::<i32>("i32"))
}

fn hash_of(r: &RetrievalId<()>) -> u64 {
    let mut h = DefaultHasher::new();
    r.hash(&mut h);
    h.finish()
}

#[test]
fn collector_supplier_ids_and_equality() {
    let a = supplier(3);
    let b = supplier(3);
    let c = supplier(4);
    assert_eq!(a.id(), 3);
    assert_eq!(a.create::<u64>(), 42);
    assert!(a == b);
    assert!(a != c);
    assert_eq!(a.clone().id(), 3);
}

#[test]
fn from_definition_keeps_name() {
    let d = FromDefinition::new::<u64>("u64");
    assert_eq!(d.fact_type_name, "u64");
    assert_eq!(d.fact_type, std::any::TypeId::of::<u64>());
}

#[test]
fn same_shape_gives_equal_retrieval_ids() {
    let a: Def = StreamDefinition::Filter(FilterDefinition::new(from_u64(), FunctionId(1)));
    let b: Def = StreamDefinition::Filter(FilterDefinition::new(from_u64(), FunctionId(1)));
    let c: Def = StreamDefinition::Filter(FilterDefinition::new(from_u64(), FunctionId(2)));
    let d: Def = StreamDefinition::Filter(FilterDefinition::new(from_i32(), FunctionId(1)));
    let ra = a.get_retrieval_id();
    let rb = b.get_retrieval_id();
    assert!(ra == rb);
    assert!(retrieval_id_eq(&ra, &rb));
    assert_eq!(hash_of(&ra), hash_of(&rb));
    assert!(ra != c.get_retrieval_id());
    assert!(ra != d.get_retrieval_id());
}

#[test]
fn join_and_group_retrieval_ids() {
    let j1: Def = StreamDefinition::Join(JoinDefinition::new(from_u64(), from_i32(), JoinerType::Equal, FunctionId(1), FunctionId(2)));
    let j2: Def = StreamDefinition::Join(JoinDefinition::new(from_u64(), from_i32(), JoinerType::LessThan, FunctionId(1), FunctionId(2)));
    assert!(j1.get_retrieval_id() != j2.get_retrieval_id());
    let g1: Def = StreamDefinition::Group(GroupDefinition::new(from_u64(), FunctionId(5), supplier(1)));
    let g2: Def = StreamDefinition::Group(GroupDefinition::new(from_u64(), FunctionId(5), supplier(2)));
    assert!(g1.get_retrieval_id() != g2.get_retrieval_id());
    assert!(g1.get_retrieval_id() == g1.get_retrieval_id());
}

#[test]
fn union_retrieval_ids_follow_sources() {
    let u1: Def = StreamDefinition::Union(UnionDefinition::new(vec![from_u64(), from_i32()]));
    let u2: Def = StreamDefinition::Union(UnionDefinition::new(vec![from_u64(), from_i32()]));
    let u3: Def = StreamDefinition::Union(UnionDefinition::new(vec![from_u64()]));
    assert!(u1.get_retrieval_id() == u2.get_retrieval_id());
    assert!(u1.get_retrieval_id() != u3.get_retrieval_id());
}

#[test]
fn output_arity_of_each_kind() {
    assert_eq!(from_u64().output_arity(), 1);
    let join: Def = StreamDefinition::Join(JoinDefinition::new(from_u64(), from_i32(), JoinerType::Equal, FunctionId(1), FunctionId(2)));
    assert_eq!(join.output_arity(), 2);
    let join3: Def = StreamDefinition::Join(JoinDefinition::new(join, from_u64(), JoinerType::NotEqual, FunctionId(3), FunctionId(4)));
    assert_eq!(join3.output_arity(), 3);
    let group: Def = StreamDefinition::Group(GroupDefinition::new(from_u64(), FunctionId(1), supplier(1)));
    assert_eq!(group.output_arity(), 2);
    let map: Def = StreamDefinition::Mapping(MapDefinition::new(from_u64(), FunctionId(1), 4));
    assert_eq!(map.output_arity(), 4);
    let flat: Def = StreamDefinition::FlatMap(FlatMapDefinition::new(group, FunctionId(2)));
    assert_eq!(flat.output_arity(), 1);
    let empty_union: Def = StreamDefinition::Union(UnionDefinition::new(Vec::new()));
    assert_eq!(empty_union.output_arity(), 1);
    let agg: Def = StreamDefinition::GlobalAggregate(GlobalAggregateDefinition::new(from_u64(), supplier(9)));
    assert_eq!(agg.output_arity(), 1);
    let cj: Def = StreamDefinition::ConditionalJoin(ConditionalJoinDefinition::new(join3_source(), from_i32(), true, FunctionId(1), FunctionId(1)));
    assert_eq!(cj.output_arity(), 2);
}

fn join3_source() -> Def {
    StreamDefinition::Join(JoinDefinition::new(from_u64(), from_i32(), JoinerType::Equal, FunctionId(1), FunctionId(2)))
}

#[test]
fn parents_of_each_kind() {
    let filter: Def = StreamDefinition::Filter(FilterDefinition::new(from_u64(), FunctionId(1)));
    assert!(filter.get_parent().is_some());
    assert!(filter.get_join_parents().is_none());
    assert!(filter.get_union_parents().is_none());
    let join = join3_source();
    assert!(join.get_parent().is_none());
    let (l, r) = join.get_join_parents().unwrap();
    assert_eq!(l.output_arity(), 1);
    assert_eq!(r.output_arity(), 1);
    let union: Def = StreamDefinition::Union(UnionDefinition::new(vec![from_u64(), from_i32(), from_u64()]));
    assert_eq!(union.get_union_parents().unwrap().len(), 3);
    assert!(from_u64().get_parent().is_none());
    let scoring: Def = StreamDefinition::Scoring(ScoringDefinition::new(from_u64(), FunctionId(7), ConstraintId(1)));
    assert!(scoring.get_parent().is_some());
    let distinct: Def = StreamDefinition::Distinct(DistinctDefinition::new(from_u64()));
    assert_eq!(distinct.get_parent().unwrap().output_arity(), 1);
}

#[test]
fn joiner_discriminants_are_positions() {
    assert_eq!(JoinerType::Equal.discriminant(), 0);
    assert_eq!(JoinerType::GreaterThanOrEqual.discriminant(), 5);
}

#[test]
fn collector_ids_are_fresh_and_increasing() {
    let mut ids = greyjack::stream_def::CollectorIds::new();
    let a = CollectorSupplier::with_fresh_id(&mut ids, make_collector as G);
    let b = CollectorSupplier::with_fresh_id(&mut ids, make_collector as G);
    assert_eq!(a.id(), 0);
    assert_eq!(b.id(), 1);
    assert!(a != b);
    assert_eq!(ids.fresh(), 2);
    assert_eq!(ids.next, 3);
}
