use greyjack::solver_setup::{link_ring, score_precision_fits};

#[test]
fn precision_must_have_one_number_per_component() {
    assert!(score_precision_fits(&None, 2));
    assert!(score_precision_fits(&Some(vec![3, 4]), 2));
    assert!(!score_precision_fits(&Some(vec![3]), 2));
    assert!(!score_precision_fits(&Some(vec![]), 1));
}

#[test]
fn ring_hands_each_agent_its_predecessors_channel() {
    let mut receivers = vec![0usize, 1, 2, 3];
    link_ring(&mut receivers);
    assert_eq!(receivers, vec![3, 0, 1, 2]);
    for (agent, channel) in receivers.iter().enumerate() {
        assert_eq!(*channel, (agent + 4 - 1) % 4);
        assert_ne!(*channel, agent);
    }
}

#[test]
fn ring_of_one_and_none() {
    let mut one = vec![7];
    link_ring(&mut one);
    assert_eq!(one, vec![7]);
    let mut none: Vec<u8> = Vec::new();
    link_ring(&mut none);
    assert!(none.is_empty());
}
