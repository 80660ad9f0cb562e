use greyjack::stream_def::{
    Arity1, Arity2, CollectorSupplier, ConstraintId, FromDefinition, FunctionId, JoinerType, Stream, StreamDefinition,
};

type G = fn() -> u64;
type S1 = Stream<Arity1, (), G>;

fn make_collector() -> u64 {
    7
}

fn from_u64() -> S1 {
    Stream::new(StreamDefinition::From(FromDefinition::new::<u64>("u64")))
}

fn from_i32_with_context(c: usize) -> S1 {
    Stream::new_with_context(StreamDefinition::From(FromDefinition::new::<i32>("i32")), Some(ConstraintId(c)))
}

fn is_from(d: &StreamDefinition<(), G>, name: &str) -> bool {
    match d {
        StreamDefinition::From(f) => f.fact_type_name == name,
        _ => false,
    }
}

#[test]
fn new_stream_has_no_context() {
    let s = from_u64();
    assert!(s.constraint_id_context.is_none());
    assert!(is_from(&s.definition, "u64"));
    let t = from_i32_with_context(4);
    assert_eq!(t.constraint_id_context, Some(ConstraintId(4)));
}

#[test]
fn join_on_universal_builds_join_and_keeps_context() {
    let s = from_i32_with_context(2);
    let j: Stream<Arity2, (), G> = s.join_on_universal(from_u64(), JoinerType::LessThan, FunctionId(10), FunctionId(11));
    assert_eq!(j.constraint_id_context, Some(ConstraintId(2)));
    match &j.definition {
        StreamDefinition::Join(d) => {
            assert!(is_from(&d.left_source, "i32"));
            assert!(is_from(&d.right_source, "u64"));
            assert_eq!(d.joiner_type, JoinerType::LessThan);
            assert_eq!(d.left_key_fn_id, FunctionId(10));
            assert_eq!(d.right_key_fn_id, FunctionId(11));
        },
        _ => panic!("expected a join"),
    }
    assert_eq!(j.definition.output_arity(), 2);
}

#[test]
fn join_on_uses_equal_joiner() {
    let j = from_u64().join_on(from_u64(), FunctionId(1), FunctionId(2));
    match &j.definition {
        StreamDefinition::Join(d) => assert_eq!(d.joiner_type, JoinerType::Equal),
        _ => panic!("expected a join"),
    }
    let g = from_u64().join_on_group_key(from_u64(), FunctionId(3), FunctionId(4));
    match &g.definition {
        StreamDefinition::Join(d) => {
            assert_eq!(d.joiner_type, JoinerType::Equal);
            assert_eq!(d.left_key_fn_id, FunctionId(3));
        },
        _ => panic!("expected a join"),
    }
}

#[test]
fn if_exists_and_if_not_exists() {
    let e = from_u64().if_exists(from_i32_with_context(1), FunctionId(5), FunctionId(6));
    match &e.definition {
        StreamDefinition::ConditionalJoin(d) => {
            assert!(d.should_exist);
            assert!(is_from(&d.source, "u64"));
            assert!(is_from(&d.other, "i32"));
        },
        _ => panic!("expected a conditional join"),
    }
    assert!(e.constraint_id_context.is_none());
    let n = from_u64().if_not_exists(from_u64(), FunctionId(5), FunctionId(6));
    match &n.definition {
        StreamDefinition::ConditionalJoin(d) => assert!(!d.should_exist),
        _ => panic!("expected a conditional join"),
    }
}

#[test]
fn group_map_and_aggregate_arities() {
    let g = from_u64().group_by(FunctionId(1), CollectorSupplier::new(9, make_collector as G));
    assert_eq!(g.definition.output_arity(), 2);
    match &g.definition {
        StreamDefinition::Group(d) => assert_eq!(d.collector_supplier.id(), 9),
        _ => panic!("expected a group"),
    }
    let m = from_u64().map(FunctionId(2));
    assert_eq!(m.definition.output_arity(), 1);
    let p = from_u64().map_to_pair(FunctionId(2));
    assert_eq!(p.definition.output_arity(), 2);
    let f = from_u64().flat_map(FunctionId(3));
    assert_eq!(f.definition.output_arity(), 1);
    let a = from_u64().aggregate(CollectorSupplier::new(8, make_collector as G));
    match &a.definition {
        StreamDefinition::GlobalAggregate(d) => assert_eq!(d.collector_supplier.id(), 8),
        _ => panic!("expected an aggregate"),
    }
}

#[test]
fn union_distinct_filter() {
    let u = from_i32_with_context(3).union(from_u64());
    match &u.definition {
        StreamDefinition::Union(d) => {
            assert_eq!(d.sources.len(), 2);
            assert!(is_from(&d.sources[0], "i32"));
            assert!(is_from(&d.sources[1], "u64"));
        },
        _ => panic!("expected a union"),
    }
    assert_eq!(u.constraint_id_context, Some(ConstraintId(3)));
    let d = from_u64().distinct().filter(FunctionId(12));
    match &d.definition {
        StreamDefinition::Filter(f) => {
            assert_eq!(f.predicate_id, FunctionId(12));
            assert!(matches!(*f.source, StreamDefinition::Distinct(_)));
        },
        _ => panic!("expected a filter"),
    }
}

#[test]
fn penalize_uses_context_or_given_id() {
    let r = from_i32_with_context(6).penalize(|x: u64| x + 1);
    assert_eq!(r.constraint_id, ConstraintId(6));
    assert_eq!((r.penalty_function)(1), 2);
    assert!(is_from(&r.stream_def, "i32"));
    let q = from_u64().penalize_with_id(ConstraintId(9), 5u64);
    assert_eq!(q.constraint_id, ConstraintId(9));
    assert_eq!(q.penalty_function, 5);
}
