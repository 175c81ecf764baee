use matchtop::engine::Engine;

/// The bucket of the given count in a snapshot, with its members sorted.
fn bucket_sorted(snap: &[(usize, Vec<String>)], c: usize) -> Option<Vec<String>> {
    for (count, members) in snap.iter() {
        if *count == c {
            let mut m = members.clone();
            m.sort();
            return Some(m);
        }
    }
    None
}

fn ascending(snap: &[(usize, Vec<String>)]) -> bool {
    for i in 1..snap.len() {
        if snap[i - 1].0 >= snap[i].0 {
            return false;
        }
    }
    true
}

#[test]
fn scenario_window_three() {
    let mut e = Engine::new(3);

    e.process("A");
    {
        let s = e.snapshot();
        assert_eq!(s.len(), 1);
        assert_eq!(bucket_sorted(s, 1), Some(vec!["A".to_string()]));
    }

    e.process("B");
    {
        let s = e.snapshot();
        assert_eq!(s.len(), 1);
        assert_eq!(
            bucket_sorted(s, 1),
            Some(vec!["A".to_string(), "B".to_string()])
        );
    }

    e.process("A");
    {
        let s = e.snapshot();
        assert_eq!(s.len(), 2);
        assert_eq!(bucket_sorted(s, 1), Some(vec!["B".to_string()]));
        assert_eq!(bucket_sorted(s, 2), Some(vec!["A".to_string()]));
    }

    // the window is full: A is evicted (2 -> 1), C enters
    e.process("C");
    {
        let s = e.snapshot();
        assert_eq!(s.len(), 1);
        assert_eq!(
            bucket_sorted(s, 1),
            Some(vec!["A".to_string(), "B".to_string(), "C".to_string()])
        );
    }

    // B is evicted (1 -> 0, removed), A enters (1 -> 2)
    e.process("A");
    {
        let s = e.snapshot();
        assert!(ascending(s));
        assert_eq!(s.len(), 2);
        assert_eq!(bucket_sorted(s, 1), Some(vec!["C".to_string()]));
        assert_eq!(bucket_sorted(s, 2), Some(vec!["A".to_string()]));
        assert_eq!(bucket_sorted(s, 3), None);
    }
}

#[test]
fn window_size_one_keeps_only_latest() {
    let mut e = Engine::new(1);
    assert_eq!(e.snapshot().len(), 0);
    for value in ["A", "B", "B", "C"] {
        e.process(value);
        let s = e.snapshot();
        assert_eq!(s.len(), 1);
        assert_eq!(s[0].0, 1);
        assert_eq!(bucket_sorted(s, 1), Some(vec![value.to_string()]));
    }
}

#[test]
fn replay_same_sequence_same_ranking() {
    let feed = ["x", "y", "x", "z", "z", "x", "w", "y", "y", "y"];
    let mut e1 = Engine::new(4);
    let mut e2 = Engine::new(4);
    for value in feed {
        e1.process(value);
        e2.process(value);
    }
    let s1 = e1.snapshot();
    let s2 = e2.snapshot();
    assert_eq!(s1.len(), s2.len());
    for (c, _) in s1.iter() {
        assert_eq!(bucket_sorted(s1, *c), bucket_sorted(s2, *c));
    }
}

#[test]
fn eviction_is_fifo() {
    let mut e = Engine::new(2);
    e.process("A");
    e.process("B");
    e.process("C");
    let s = e.snapshot();
    assert_eq!(s.len(), 1);
    assert_eq!(
        bucket_sorted(s, 1),
        Some(vec!["B".to_string(), "C".to_string()])
    );
}

#[test]
fn reentering_own_evicted_value_keeps_count() {
    // the window is full of the same value: the eviction and the entry
    // cancel, the count stays at the capacity
    let mut e = Engine::new(2);
    e.process("A");
    e.process("A");
    e.process("A");
    let s = e.snapshot();
    assert_eq!(s.len(), 1);
    assert_eq!(bucket_sorted(s, 2), Some(vec!["A".to_string()]));
}

#[test]
fn empty_string_is_a_value() {
    let mut e = Engine::new(3);
    e.process("");
    let s = e.snapshot();
    assert_eq!(s.len(), 1);
    assert_eq!(bucket_sorted(s, 1), Some(vec!["".to_string()]));
}

#[test]
fn counts_conserved_at_window_size() {
    let mut e = Engine::new(3);
    for value in ["a", "b", "a", "c", "a", "b", "c"] {
        e.process(value);
    }
    let s = e.snapshot();
    let total: usize = s.iter().map(|(c, members)| c * members.len()).sum();
    assert_eq!(total, 3);
}
