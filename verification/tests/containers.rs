use rhmap::{HashMap, HashSet};

#[test]
fn scenario_insert_thousand() {
    let mut m: HashMap<u64, u64> = HashMap::with_capacity(4);
    assert_eq!(m.capacity(), 4);
    for k in 1u64..=1000 {
        m.insert(k, k * 2).unwrap();
    }
    assert!(m.capacity() > 4);
    assert_eq!(m.len(), 1000);
    for k in 1u64..=1000 {
        assert_eq!(m.get(&k), Some(&(k * 2)));
    }
}

#[test]
fn scenario_remove_odds() {
    let mut m: HashMap<u64, u64> = HashMap::with_capacity(4);
    for k in 1u64..=1000 {
        m.insert(k, k * 2).unwrap();
    }
    for k in 1u64..=1000 {
        if k % 2 == 1 {
            assert_eq!(m.remove(&k), Some(k * 2));
        }
    }
    assert_eq!(m.len(), 500);
    for k in 1u64..=1000 {
        if k % 2 == 1 {
            assert_eq!(m.get(&k), None);
        } else {
            assert_eq!(m.get(&k), Some(&(k * 2)));
        }
    }
}

#[test]
fn scenario_set_basics() {
    let mut s: HashSet<u64> = HashSet::new();
    assert_eq!(s.insert(5).unwrap(), true);
    assert_eq!(s.insert(5).unwrap(), false);
    assert_eq!(s.len(), 1);
    assert!(s.remove(&5));
    assert!(!s.contains(&5));
    assert!(s.is_empty());
}

#[test]
fn latest_insert_wins() {
    let mut m: HashMap<u64, String> = HashMap::new();
    assert_eq!(m.insert(9, String::from("first")).unwrap(), None);
    assert_eq!(
        m.insert(9, String::from("second")).unwrap(),
        Some(String::from("first"))
    );
    assert_eq!(m.get(&9), Some(&String::from("second")));
    assert_eq!(m.remove(&9), Some(String::from("second")));
    assert_eq!(m.get(&9), None);
    assert_eq!(m.remove(&9), None);
}

#[test]
fn len_matches_present_keys() {
    let mut m: HashMap<u64, u64> = HashMap::new();
    assert!(m.is_empty());
    for k in 0u64..50 {
        m.insert(k, k).unwrap();
        assert_eq!(m.len() as u64, k + 1);
        // The load factor stays at or below nine tenths.
        assert!(10 * m.len() <= 9 * m.capacity());
    }
    for k in 0u64..25 {
        m.remove(&k);
        assert_eq!(m.len() as u64, 50 - k - 1);
    }
    assert_eq!(m.len(), 25);
}

#[test]
fn contains_key_tracks_membership() {
    let mut m: HashMap<u64, u64> = HashMap::new();
    assert!(!m.contains_key(&1));
    m.insert(1, 10).unwrap();
    assert!(m.contains_key(&1));
    m.remove(&1);
    assert!(!m.contains_key(&1));
}

#[test]
fn clear_retains_capacity() {
    let mut m: HashMap<u64, u64> = HashMap::with_capacity(64);
    for k in 0u64..40 {
        m.insert(k, k).unwrap();
    }
    let cap_before: usize = m.capacity();
    m.clear();
    assert_eq!(m.len(), 0);
    assert_eq!(m.capacity(), cap_before);
    assert_eq!(m.get(&3), None);
    m.insert(3, 33).unwrap();
    assert_eq!(m.get(&3), Some(&33));
}

#[test]
fn removal_then_lookup_heavy_churn() {
    // Exercises backward-shift deletion across many collisions and
    // resizes: no lookup may ever be wrong afterwards.
    let mut m: HashMap<u64, u64> = HashMap::with_capacity(4);
    for k in 0u64..300 {
        m.insert(k, k + 7).unwrap();
    }
    for k in 0u64..300 {
        if k % 3 != 0 {
            assert_eq!(m.remove(&k), Some(k + 7));
        }
    }
    for k in 0u64..300 {
        if k % 3 == 0 {
            assert_eq!(m.get(&k), Some(&(k + 7)));
        } else {
            assert_eq!(m.get(&k), None);
        }
    }
    for k in 0u64..300 {
        m.insert(k, k).unwrap();
    }
    assert_eq!(m.len(), 300);
    for k in 0u64..300 {
        assert_eq!(m.get(&k), Some(&k));
    }
}

#[test]
fn distinct_instances_work_alike() {
    // Two instances have their own seeds; behaviour is identical even if
    // probing orders differ.
    let mut a: HashMap<u64, u64> = HashMap::new();
    let mut b: HashMap<u64, u64> = HashMap::new();
    for k in 0u64..64 {
        a.insert(k, k * 3).unwrap();
        b.insert(k, k * 3).unwrap();
    }
    for k in 0u64..64 {
        assert_eq!(a.get(&k), b.get(&k));
    }
}

#[test]
fn works_with_u32_keys() {
    let mut m: HashMap<u32, u64> = HashMap::new();
    m.insert(7u32, 70).unwrap();
    m.insert(8u32, 80).unwrap();
    assert_eq!(m.get(&7u32), Some(&70));
    assert_eq!(m.remove(&8u32), Some(80));
    assert_eq!(m.len(), 1);
}

#[test]
fn set_with_capacity_and_churn() {
    let mut s: HashSet<u64> = HashSet::with_capacity(4);
    for k in 0u64..100 {
        assert_eq!(s.insert(k).unwrap(), true);
    }
    assert_eq!(s.len(), 100);
    for k in 0u64..100 {
        assert!(s.contains(&k));
    }
    for k in 0u64..50 {
        assert!(s.remove(&k));
    }
    assert_eq!(s.len(), 50);
    for k in 0u64..50 {
        assert!(!s.contains(&k));
        assert!(!s.remove(&k));
    }
}

#[test]
fn entry_walk_enumerates_all_pairs() {
    let mut m: rhmap::HashMap<u64, u64> = rhmap::HashMap::with_capacity(4);
    for k in 0u64..60 {
        m.insert(k, k + 1).unwrap();
    }
    let mut seen: usize = 0;
    for i in 0..m.capacity() {
        if let Some((k, v)) = m.entry_at(i) {
            assert_eq!(*v, *k + 1);
            seen += 1;
        }
    }
    assert_eq!(seen, m.len());
}

#[test]
fn set_walk_enumerates_all_elements() {
    let mut s: rhmap::HashSet<u64> = rhmap::HashSet::with_capacity(4);
    for k in 10u64..40 {
        s.insert(k).unwrap();
    }
    let mut seen: usize = 0;
    for i in 0..s.capacity() {
        if let Some(t) = s.element_at(i) {
            assert!(s.contains(t));
            seen += 1;
        }
    }
    assert_eq!(seen, s.len());
}
