use dns2tor::upstream::UpstreamSet;

#[test]
fn empty_set_yields_no_upstream() {
    let set = UpstreamSet::new(Vec::new());
    assert!(set.is_empty());
    assert_eq!(set.len(), 0);
    assert_eq!(set.choose_upstream(), None);
}

#[test]
fn singleton_set_always_yields_its_member() {
    let set = UpstreamSet::new(vec!["1.1.1.1:53".to_string()]);
    for _ in 0..50 {
        assert_eq!(set.choose_upstream(), Some(&"1.1.1.1:53".to_string()));
    }
}

#[test]
fn chosen_upstream_is_always_a_member() {
    let members = vec![
        "1.1.1.1:53".to_string(),
        "8.8.8.8:53".to_string(),
        "9.9.9.9:53".to_string(),
    ];
    let set = UpstreamSet::new(members.clone());
    assert_eq!(set.len(), 3);
    for i in 0..set.len() {
        assert_eq!(set.get(i), &members[i]);
    }
    for _ in 0..200 {
        let chosen = set.choose_upstream().expect("non-empty set");
        assert!(members.contains(chosen));
    }
}

#[test]
fn selection_is_roughly_uniform() {
    let members = vec!["a".to_string(), "b".to_string(), "c".to_string()];
    let set = UpstreamSet::new(members.clone());
    let mut counts = [0usize; 3];
    let draws = 3000;
    for _ in 0..draws {
        let chosen = set.choose_upstream().expect("non-empty set");
        let i = members.iter().position(|m| m == chosen).expect("member");
        counts[i] += 1;
    }
    // Each member should land near draws / 3 = 1000; the bounds are loose
    // enough (about six standard deviations) to keep the test stable.
    for (i, &c) in counts.iter().enumerate() {
        assert!(
            (840..=1160).contains(&c),
            "member {} drawn {} times out of {}",
            i,
            c,
            draws
        );
    }
}
