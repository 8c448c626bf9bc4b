use mcproxy::srv::{
    sort_by_priority, IntoPriorityGroupIter, IntoPriorityResolver, PriorityGroupIter,
    PrioritySrvLoader, SrvRecord, WeightedSrvMap,
};

fn rec(priority: u16, weight: u16, target: &str, port: u16) -> SrvRecord {
    SrvRecord { priority, weight, port, target: target.to_string() }
}

fn targets(records: &[SrvRecord]) -> Vec<String> {
    records.iter().map(|r| r.target.clone()).collect()
}

fn sample() -> Vec<SrvRecord> {
    vec![
        rec(20, 1, "c1", 1),
        rec(10, 5, "a1", 2),
        rec(30, 0, "d1", 3),
        rec(10, 0, "a2", 4),
        rec(20, 7, "c2", 5),
        rec(10, 3, "a3", 6),
    ]
}

#[test]
fn records_compare_by_priority() {
    assert!(rec(5, 1, "x", 1) == rec(5, 9, "y", 2));
    assert!(rec(5, 1, "x", 1) != rec(6, 1, "x", 1));
}

#[test]
fn every_record_yielded_once() {
    for _ in 0..50 {
        let out = PrioritySrvLoader::new(sample()).collect_candidates();
        let mut got = targets(&out);
        got.sort();
        assert_eq!(got, vec!["a1", "a2", "a3", "c1", "c2", "d1"]);
    }
}

#[test]
fn lower_priority_groups_come_first() {
    for _ in 0..50 {
        let out = sample().priority_resolver().collect_candidates();
        for w in out.windows(2) {
            assert!(w[0].priority <= w[1].priority);
        }
        assert_eq!(out.last().unwrap().target, "d1");
    }
}

#[test]
fn discovery_scenario_order() {
    for _ in 0..50 {
        let records = vec![rec(10, 5, "b1", 1), rec(10, 5, "b2", 2), rec(20, 1, "b3", 3)];
        let mut loader = PrioritySrvLoader::new(records);
        let first = loader.next().unwrap();
        let second = loader.next().unwrap();
        let third = loader.next().unwrap();
        assert!(loader.next().is_none());
        let mut head = vec![first.target.clone(), second.target.clone()];
        head.sort();
        assert_eq!(head, vec!["b1", "b2"]);
        assert_eq!(third.target, "b3");
        assert_eq!(third.port, 3);
    }
}

#[test]
fn empty_set_yields_nothing() {
    let mut loader = PrioritySrvLoader::new(vec![]);
    assert!(loader.next().is_none());
    assert!(loader.next().is_none());
}

#[test]
fn weighted_pick_by_draw() {
    let mut picks = Vec::new();
    for v in 0..=11u128 {
        let mut m = WeightedSrvMap::from_records(vec![rec(1, 10, "A", 1), rec(1, 1, "B", 2)]);
        assert_eq!(m.total_weight(), 11);
        let r = m.take_with(v).unwrap();
        assert_eq!(m.len(), 1);
        picks.push(r.target);
    }
    let a = picks.iter().filter(|t| *t == "A").count();
    assert_eq!(a, 11);
    assert_eq!(picks[11], "B");
}

#[test]
fn zero_weight_is_picked_at_zero_draw() {
    let mut m = WeightedSrvMap::from_records(vec![rec(1, 0, "Z", 1), rec(1, 4, "W", 2)]);
    assert_eq!(m.take_with(0).unwrap().target, "Z");
    let mut all_zero = WeightedSrvMap::from_records(vec![rec(1, 0, "P", 1), rec(1, 0, "Q", 2)]);
    assert_eq!(all_zero.next().unwrap().target, "P");
    assert_eq!(all_zero.next().unwrap().target, "Q");
    assert!(all_zero.next().is_none());
}

#[test]
fn heavier_record_first_more_often() {
    let mut a_first = 0u32;
    let mut b_first = 0u32;
    for _ in 0..12000 {
        let mut m = WeightedSrvMap::from_records(vec![rec(1, 10, "A", 1), rec(1, 1, "B", 2)]);
        match m.next().unwrap().target.as_str() {
            "A" => a_first += 1,
            _ => b_first += 1,
        }
        assert_eq!(m.len(), 1);
    }
    assert!(b_first > 0);
    let ratio = a_first as f64 / b_first as f64;
    assert!(ratio > 6.0 && ratio < 18.0, "ratio {}", ratio);
}

#[test]
fn large_weights_do_not_overflow() {
    let records: Vec<SrvRecord> = (0..10).map(|i| rec(1, u16::MAX, "h", i)).collect();
    let m = WeightedSrvMap::from_records(records);
    assert_eq!(m.total_weight(), 10 * 65535);
    let out = PrioritySrvLoader::new((0..10).map(|i| rec(1, u16::MAX, "h", i)).collect()).collect_candidates();
    assert_eq!(out.len(), 10);
}

#[test]
fn groups_split_by_priority() {
    let sorted = sort_by_priority(sample());
    let mut groups: PriorityGroupIter = sorted.priority_groupings();
    let g1 = groups.next().unwrap();
    assert_eq!(g1.len(), 3);
    let g2 = groups.next().unwrap();
    assert_eq!(g2.len(), 2);
    let g3 = groups.next().unwrap();
    assert_eq!(g3.len(), 1);
    assert!(groups.next().is_none());
}

#[test]
fn pull_takes_the_run() {
    let mut groups = PriorityGroupIter::new(vec![rec(4, 1, "b", 2), rec(4, 1, "c", 3), rec(9, 1, "d", 4)]);
    let mut g = groups.pull(rec(4, 1, "a", 1));
    assert_eq!(g.len(), 3);
    let mut seen = Vec::new();
    while let Some(r) = g.next() {
        seen.push(r.target);
    }
    seen.sort();
    assert_eq!(seen, vec!["a", "b", "c"]);
    let rest = groups.next().unwrap();
    assert_eq!(rest.len(), 1);
}

#[test]
fn sort_orders_by_priority() {
    let sorted = sort_by_priority(sample());
    let p: Vec<u16> = sorted.iter().map(|r| r.priority).collect();
    assert_eq!(p, vec![10, 10, 10, 20, 20, 30]);
}
