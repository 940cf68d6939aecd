use ringhash::{elt_key, slice_contains_member, Consistent, Error};

/// The owner of `key` computed straight from the replicas' hashes.
fn expected_owner(members: &[&str], replicas: usize, key: &str) -> String {
    let mut points: Vec<(u32, String)> = Vec::new();
    for m in members {
        for i in 0..replicas {
            points.push((fxhash::hash32(format!("{}{}", i, m).as_str()), m.to_string()));
        }
    }
    points.sort();
    let h = fxhash::hash32(key);
    for (p, m) in points.iter() {
        if *p > h {
            return m.clone();
        }
    }
    points[0].1.clone()
}

#[test]
fn test_add() {
    let mut c = Consistent::new();
    c.add("abcdefg");
    assert_eq!(c.circle_len(), 20);
    assert_eq!(c.index_len(), 20);
    c.add("qwer");
    assert_eq!(c.circle_len(), 40);
    assert_eq!(c.index_len(), 40);
}

#[test]
fn test_remove() {
    let mut c = Consistent::new();
    c.add("abcdefg");
    c.remove("abcdefg");
    assert_eq!(c.circle_len(), 0);
    assert_eq!(c.index_len(), 0);
}

#[test]
fn test_remove_non_existing() {
    let mut c = Consistent::new();
    c.add("abcdefg");
    c.remove("abcdefghijk");
    assert_eq!(c.circle_len(), 20);
}

#[test]
fn test_get_empty() {
    let c = Consistent::new();
    let res = c.get("asdfsadfsadf");
    assert!(res.is_err());
}

#[test]
fn test_get_single() {
    let mut c = Consistent::new();
    c.add("abcdefg");
    let res = c.get("asdfsadfsadf");
    assert!(res.is_ok());
    assert_eq!(res.unwrap(), "abcdefg");
}

#[test]
fn test_get_two() {
    let mut c = Consistent::new();
    c.add("abcdefg");
    c.add("opqrstu");
    let res = c.get_two("asdfsadfsadf");
    assert!(res.is_ok());
}

#[test]
fn test_get_n() {
    let mut c = Consistent::new();
    c.add("abcdefg");
    c.add("opqrstu");
    c.add("hijklmn");
    let res = c.get_n("asdfsadfsadf", 3);
    assert!(res.is_ok());
    let mut res = res.unwrap();
    res.sort();
    assert_eq!(res, vec!["abcdefg", "hijklmn", "opqrstu"]);
}

#[test]
fn test_get_n_more_than_available() {
    let mut c = Consistent::new();
    c.add("abcdefg");
    c.add("opqrstu");
    c.add("hijklmn");
    let res = c.get_n("asdfsadfsadf", 4);
    assert!(res.is_ok());
    let mut res = res.unwrap();
    res.sort();
    assert_eq!(res, vec!["abcdefg", "hijklmn", "opqrstu"]);
}

#[test]
fn test_get_n_more_than_available_with_repeats() {
    let mut c = Consistent::new();
    c.add("abcdefg");
    c.add("opqrstu");
    c.add("hijklmn");
    let res = c.get_n("asdfsadfsadf", 5);
    assert!(res.is_ok());
    assert_eq!(res.unwrap().len(), 3);
}

#[test]
fn test_set() {
    let mut c = Consistent::new();
    c.add("abcdefg");
    c.add("opqrstu");
    c.add("hijklmn");
    c.set(vec!["qwer", "asdf"]);
    assert_eq!(c.circle_len(), 40);
    assert_eq!(c.index_len(), 40);
}

#[test]
fn set_converges_members() {
    let mut c = Consistent::new();
    c.add("A");
    c.add("B");
    c.add("C");
    c.set(vec!["D", "E", "D"]);
    let mut m = c.members();
    m.sort();
    assert_eq!(m, vec!["D", "E"]);
    assert_eq!(c.index_len(), 40);
}

#[test]
fn set_keeps_present_members() {
    let mut c = Consistent::new();
    c.add("A");
    c.add("B");
    c.set(vec!["B", "C"]);
    let mut m = c.members();
    m.sort();
    assert_eq!(m, vec!["B", "C"]);
    assert_eq!(c.circle_len(), 40);
}

#[test]
fn set_to_empty_clears_ring() {
    let mut c = Consistent::new();
    c.add("A");
    c.set(Vec::new());
    assert!(c.members().is_empty());
    assert_eq!(c.circle_len(), 0);
    assert_eq!(c.get("k"), Err(Error::EmptyCircle));
}

#[test]
fn get_matches_replica_hashes() {
    let mut c = Consistent::new();
    let members = ["cacheA", "cacheB", "cacheC"];
    for m in members.iter() {
        c.add(m);
    }
    for key in ["user_mcnulty", "user_bunk", "user_omar", "user_bunny", "user_stringer", "", "x"] {
        assert_eq!(c.get(key).unwrap(), expected_owner(&members, 20, key));
    }
}

#[test]
fn topology_changes_move_few_keys() {
    let users = ["user_mcnulty", "user_bunk", "user_omar", "user_bunny", "user_stringer"];
    let mut c = Consistent::new();
    c.add("cacheA");
    c.add("cacheB");
    c.add("cacheC");
    let before: Vec<String> = users.iter().map(|u| c.get(u).unwrap()).collect();
    for b in before.iter() {
        assert!(["cacheA", "cacheB", "cacheC"].contains(&b.as_str()));
    }
    c.add("cacheD");
    c.add("cacheE");
    let grown: Vec<String> = users.iter().map(|u| c.get(u).unwrap()).collect();
    for (b, g) in before.iter().zip(grown.iter()) {
        assert!(g == b || g == "cacheD" || g == "cacheE");
    }
    c.remove("cacheC");
    let shrunk: Vec<String> = users.iter().map(|u| c.get(u).unwrap()).collect();
    for (g, s) in grown.iter().zip(shrunk.iter()) {
        assert!(["cacheA", "cacheB", "cacheD", "cacheE"].contains(&s.as_str()));
        if g != "cacheC" {
            assert_eq!(g, s);
        }
    }
}

#[test]
fn get_two_single_member_gives_empty_second() {
    let mut c = Consistent::new();
    c.add("only");
    assert_eq!(c.get_two("k").unwrap(), ("only".to_string(), String::new()));
}

#[test]
fn get_two_gives_two_distinct_members() {
    let mut c = Consistent::new();
    c.add("abcdefg");
    c.add("opqrstu");
    let (a, b) = c.get_two("asdfsadfsadf").unwrap();
    assert_eq!(a, c.get("asdfsadfsadf").unwrap());
    assert_ne!(a, b);
    assert!(b == "abcdefg" || b == "opqrstu");
}

#[test]
fn get_two_empty_fails() {
    let c = Consistent::new();
    assert_eq!(c.get_two("k"), Err(Error::EmptyCircle));
}

#[test]
fn get_n_empty_fails() {
    let c = Consistent::new();
    assert_eq!(c.get_n("k", 2), Err(Error::EmptyCircle));
}

#[test]
fn get_n_starts_at_owner_and_caps() {
    let mut c = Consistent::new();
    c.add("a");
    c.add("b");
    c.add("c");
    let one = c.get_n("key", 1).unwrap();
    assert_eq!(one, vec![c.get("key").unwrap()]);
    let two = c.get_n("key", 2).unwrap();
    assert_eq!(two.len(), 2);
    assert_eq!(two[0], c.get("key").unwrap());
    assert_ne!(two[0], two[1]);
    assert!(c.get_n("key", 0).unwrap().is_empty());
}

#[test]
fn with_number_of_replicas_sets_fan_out() {
    let mut c = Consistent::new().with_number_of_replicas(5);
    c.add("a");
    assert_eq!(c.circle_len(), 5);
    assert_eq!(c.index_len(), 5);
    c.add("b");
    assert_eq!(c.circle_len(), 10);
}

#[test]
fn zero_replicas_leaves_nothing_to_route_to() {
    let mut c = Consistent::new().with_number_of_replicas(0);
    c.add("a");
    assert_eq!(c.members(), vec!["a"]);
    assert_eq!(c.get("k"), Err(Error::EmptyCircle));
}

#[test]
fn default_is_new() {
    let mut c = Consistent::default();
    c.add("m");
    assert_eq!(c.circle_len(), 20);
}

#[test]
fn re_adding_keeps_one_member() {
    let mut c = Consistent::new();
    c.add("m");
    c.add("m");
    assert_eq!(c.members(), vec!["m"]);
    assert_eq!(c.circle_len(), 20);
    assert_eq!(c.get_two("k").unwrap().1, "");
}

#[test]
fn members_lists_each_once() {
    let mut c = Consistent::new();
    c.add("x");
    c.add("y");
    c.remove("x");
    c.remove("zz");
    assert_eq!(c.members(), vec!["y"]);
}

#[test]
fn elt_key_puts_index_before_name() {
    assert_eq!(elt_key("abc", 0), "0abc");
    assert_eq!(elt_key("abc", 7), "7abc");
    assert_eq!(elt_key("node", 19), "19node");
    assert_eq!(elt_key("", 1204), "1204");
}

#[test]
fn slice_contains_member_finds_names() {
    let v = vec!["a".to_string(), "bc".to_string()];
    assert!(slice_contains_member(&v, &"bc".to_string()));
    assert!(!slice_contains_member(&v, &"b".to_string()));
    assert!(!slice_contains_member(&Vec::new(), &"a".to_string()));
}
