use greyjack::facts::{FactTuple, GreynetFact};
use greyjack::stream_def::key;
use greyjack::stream_def::key_extractors;
use greyjack::stream_def::{at_index, extract_fact, first, KeyBuilder};

#[derive(Clone, Debug, PartialEq)]
struct Task {
    id: u64,
    duration: u64,
}

#[derive(Clone, Debug, PartialEq)]
enum Fact {
    Task(Task),
    Worker(u64),
}

impl GreynetFact<Task> for Fact {
    fn as_fact(&self) -> Option<&Task> {
        match self {
            Fact::Task(t) => Some(t),
            _ => None,
        }
    }
}

fn task(id: u64, duration: u64) -> Fact {
    Fact::Task(Task { id, duration })
}

fn tuple(facts: Vec<Fact>) -> FactTuple<Fact> {
    FactTuple::new(facts)
}

#[test]
fn fact_tuple_reads_positions() {
    let t = tuple(vec![task(1, 5), Fact::Worker(9)]);
    assert_eq!(t.arity(), 2);
    assert_eq!(t.get_fact_ref(1), Some(&Fact::Worker(9)));
    assert_eq!(t.get_fact_ref(2), None);
}

#[test]
fn extract_fact_checks_type_and_position() {
    let t = tuple(vec![task(1, 5), Fact::Worker(9)]);
    assert_eq!(extract_fact::<Task, Fact>(&t, 0), Some(&Task { id: 1, duration: 5 }));
    assert_eq!(extract_fact::<Task, Fact>(&t, 1), None);
    assert_eq!(extract_fact::<Task, Fact>(&t, 5), None);
}

#[test]
fn optional_extractors_answer_none_when_missing() {
    let t = tuple(vec![Fact::Worker(3), task(2, 7)]);
    let by_id = key_extractors::at_index::<Task, u64, _, Fact>(1, |x: &Task| x.id);
    assert_eq!(by_id(&t), Some(2));
    let first_id = key_extractors::first::<Task, u64, _, Fact>(|x: &Task| x.id);
    assert_eq!(first_id(&t), None);
    let second_duration = key_extractors::second::<Task, u64, _, Fact>(|x: &Task| x.duration);
    assert_eq!(second_duration(&t), Some(7));
}

#[test]
fn by_type_finds_first_task() {
    let t = tuple(vec![Fact::Worker(3), task(2, 7), task(4, 1)]);
    let f = key_extractors::by_type::<Task, u64, _, Fact>(|x: &Task| x.id);
    assert_eq!(f(&t), Some(2));
    assert_eq!(f(&tuple(vec![Fact::Worker(1)])), None);
}

#[test]
fn with_default_replaces_missing_keys() {
    let f = key_extractors::with_default::<u64, _, Fact>(key_extractors::first::<Task, u64, _, Fact>(|x: &Task| x.id));
    assert_eq!(f(&tuple(vec![task(8, 1)])), 8);
    assert_eq!(f(&tuple(vec![Fact::Worker(8)])), 0);
}

#[test]
fn composite_is_the_given_function() {
    let f = key_extractors::composite::<_, u64, Fact>(|t: &FactTuple<Fact>| Some(t.arity() as u64));
    assert_eq!(f(&tuple(vec![task(1, 1), task(2, 2)])), Some(2));
    let g = key::composite::<_, u64, Fact>(|t: &FactTuple<Fact>| t.arity() as u64 * 10);
    assert_eq!(g(&tuple(vec![task(1, 1)])), 10);
}

#[test]
fn required_keys_read_present_facts() {
    let t = tuple(vec![task(1, 5), task(2, 6)]);
    assert_eq!(key::first::<Task, u64, _, Fact>(|x: &Task| x.id)(&t), 1);
    assert_eq!(key::second::<Task, u64, _, Fact>(|x: &Task| x.duration)(&t), 6);
    assert_eq!(key::at::<Task, u64, _, Fact>(1, |x: &Task| x.id + 100)(&t), 102);
}

#[test]
fn value_clones_the_first_fact() {
    let t = tuple(vec![task(3, 4)]);
    assert_eq!(key::value::<Task, Fact>()(&t), Task { id: 3, duration: 4 });
    let plain = FactTuple::new(vec![5u64, 6u64]);
    assert_eq!(key::value::<u64, u64>()(&plain), 5);
}

#[test]
fn optional_module_answers_none() {
    let t = tuple(vec![Fact::Worker(1), task(5, 5)]);
    assert_eq!(key::optional::first::<Task, u64, _, Fact>(|x: &Task| x.id)(&t), None);
    assert_eq!(key::optional::at::<Task, u64, _, Fact>(1, |x: &Task| x.id)(&t), Some(5));
}

#[test]
fn with_default_module_answers_default() {
    let t = tuple(vec![Fact::Worker(1), task(5, 5)]);
    assert_eq!(key::with_default::first::<Task, u64, _, Fact>(|x: &Task| x.id, 77)(&t), 77);
    assert_eq!(key::with_default::at::<Task, u64, _, Fact>(1, |x: &Task| x.id, 77)(&t), 5);
}

#[test]
fn auto_default_module_answers_zero() {
    let t = tuple(vec![Fact::Worker(1), task(5, 5)]);
    assert_eq!(key::auto_default::first::<Task, u64, _, Fact>(|x: &Task| x.id)(&t), 0);
    assert_eq!(key::auto_default::at::<Task, u64, _, Fact>(1, |x: &Task| x.id)(&t), 5);
}

#[test]
fn key_builders_read_their_position() {
    let t = tuple(vec![task(1, 10), task(2, 20)]);
    let k0 = first::<Task>().field(|x: &Task| x.duration);
    assert_eq!(k0.key::<u64, Fact>(&t), 10);
    let k1 = at_index::<Task>(1).field(|x: &Task| x.duration);
    assert_eq!(k1.index, 1);
    assert_eq!(k1.key::<u64, Fact>(&t), 20);
}

#[test]
fn auto_default_agrees_with_with_default_over_optional() {
    let tuples = vec![tuple(vec![task(4, 2)]), tuple(vec![Fact::Worker(1)]), tuple(Vec::new())];
    let auto = key::auto_default::first::<Task, u64, _, Fact>(|x: &Task| x.id * 3);
    let wrapped = key_extractors::with_default::<u64, _, Fact>(key::optional::first::<Task, u64, _, Fact>(|x: &Task| x.id * 3));
    for t in &tuples {
        assert_eq!(auto(t), wrapped(t));
    }
}
