use depmap::{DepMap, Error};

fn deps_of(table: &[(u64, &[u64])], t: &u64) -> Vec<u64> {
    for (item, deps) in table {
        if item == t {
            return deps.to_vec();
        }
    }
    Vec::new()
}

#[test]
fn diamond_orders_dependencies_first() {
    // A depends on [B, C]; B and C both depend on D; D on nothing.
    let table: &[(u64, &[u64])] = &[(1, &[2, 3]), (2, &[4]), (3, &[4]), (4, &[])];
    let r: Result<Vec<u64>, Error<u64, ()>> =
        DepMap::process(vec![1], |t: &u64| Ok(deps_of(table, t)));
    let order = match r {
        Ok(order) => order,
        Err(_) => panic!("diamond graph must process"),
    };
    assert_eq!(order, vec![4, 2, 3, 1]);
}

#[test]
fn diamond_produces_shared_dependency_once() {
    let table: &[(u64, &[u64])] = &[(1, &[2, 3]), (2, &[4]), (3, &[4]), (4, &[])];
    let calls = std::cell::RefCell::new(Vec::new());
    let r: Result<Vec<u64>, Error<u64, ()>> = DepMap::process(vec![1], |t: &u64| {
        calls.borrow_mut().push(*t);
        Ok(deps_of(table, t))
    });
    assert!(r.is_ok());
    let seen = calls.borrow();
    assert_eq!(seen.iter().filter(|t| **t == 4).count(), 1);
    for v in [1u64, 2, 3, 4] {
        assert_eq!(seen.iter().filter(|t| **t == v).count(), 1);
    }
}

#[test]
fn two_item_cycle_is_reported() {
    // A depends on B; B depends on A.
    let table: &[(u64, &[u64])] = &[(1, &[2]), (2, &[1])];
    let r: Result<Vec<u64>, Error<u64, ()>> =
        DepMap::process(vec![1], |t: &u64| Ok(deps_of(table, t)));
    match r {
        Err(Error::CyclicDep(chain)) => assert_eq!(chain, vec![1, 2]),
        _ => panic!("cycle must be reported"),
    }
}

#[test]
fn self_cycle_is_reported() {
    // A depends on A.
    let r: Result<Vec<u64>, Error<u64, ()>> = DepMap::process(vec![1], |_t: &u64| Ok(vec![1]));
    match r {
        Err(Error::CyclicDep(chain)) => assert_eq!(chain, vec![1]),
        _ => panic!("self-cycle must be reported"),
    }
}

#[test]
fn deeper_cycle_reports_slice_from_first_repeat() {
    // A -> B -> C -> B: the chain starts at B, not at A.
    let table: &[(u64, &[u64])] = &[(1, &[2]), (2, &[3]), (3, &[2])];
    let r: Result<Vec<u64>, Error<u64, ()>> =
        DepMap::process(vec![1], |t: &u64| Ok(deps_of(table, t)));
    match r {
        Err(Error::CyclicDep(chain)) => assert_eq!(chain, vec![2, 3]),
        _ => panic!("cycle must be reported"),
    }
}

#[test]
fn empty_initial_list_gives_empty_order() {
    let r: Result<Vec<u64>, Error<u64, ()>> =
        DepMap::process(Vec::new(), |_t: &u64| Ok(Vec::new()));
    assert_eq!(r.ok(), Some(Vec::new()));
}

#[test]
fn duplicate_initial_items_appear_once() {
    let r: Result<Vec<u64>, Error<u64, ()>> = DepMap::process(vec![7, 7], |_t: &u64| Ok(vec![]));
    assert_eq!(r.ok(), Some(vec![7]));
}

#[test]
fn chain_is_finalized_depth_first() {
    // 1 -> 2 -> 3, no shared structure.
    let table: &[(u64, &[u64])] = &[(1, &[2]), (2, &[3])];
    let r: Result<Vec<u64>, Error<u64, ()>> =
        DepMap::process(vec![1], |t: &u64| Ok(deps_of(table, t)));
    assert_eq!(r.ok(), Some(vec![3, 2, 1]));
}

#[test]
fn later_siblings_are_handled_in_reverse_order() {
    // The first sibling is handled first; after it, remaining siblings are
    // taken from the back of the layer.
    let table: &[(u64, &[u64])] = &[(1, &[2, 3, 4])];
    let r: Result<Vec<u64>, Error<u64, ()>> =
        DepMap::process(vec![1], |t: &u64| Ok(deps_of(table, t)));
    assert_eq!(r.ok(), Some(vec![2, 4, 3, 1]));
}

#[test]
fn duplicate_dependencies_are_finalized_once() {
    let table: &[(u64, &[u64])] = &[(1, &[2, 2])];
    let r: Result<Vec<u64>, Error<u64, ()>> =
        DepMap::process(vec![1], |t: &u64| Ok(deps_of(table, t)));
    assert_eq!(r.ok(), Some(vec![2, 1]));
}

#[test]
fn producer_error_is_propagated_and_stops_the_run() {
    // 1 -> 2 -> 3, but the producer fails on 3.
    let table: &[(u64, &[u64])] = &[(1, &[2]), (2, &[3])];
    let calls = std::cell::Cell::new(0u32);
    let r: Result<Vec<u64>, Error<u64, &'static str>> = DepMap::process(vec![1], |t: &u64| {
        calls.set(calls.get() + 1);
        if *t == 3 {
            Err("boom")
        } else {
            Ok(deps_of(table, t))
        }
    });
    match r {
        Err(Error::UserDef(msg)) => assert_eq!(msg, "boom"),
        _ => panic!("producer error must be propagated"),
    }
    // 1, 2 and 3 were queried, nothing after the failure
    assert_eq!(calls.get(), 3);
}

#[test]
fn new_map_with_items_is_not_empty() {
    let map: DepMap<u64> = DepMap::new(vec![1, 2]);
    assert!(!map.is_empty());
}

#[test]
fn new_map_without_items_is_empty() {
    let map: DepMap<u64> = DepMap::new(Vec::new());
    assert!(map.is_empty());
}

#[test]
fn destroy_on_empty_map_returns_empty_result() {
    let map: DepMap<u64> = DepMap::new(Vec::new());
    match map.destroy() {
        Ok(res) => assert_eq!(res, Vec::new()),
        Err(_) => panic!("an empty map must destroy"),
    }
}

#[test]
fn destroy_on_pending_map_returns_the_map() {
    let map: DepMap<u64> = DepMap::new(vec![5]);
    match map.destroy() {
        Ok(_) => panic!("a pending map must not destroy"),
        Err(map) => assert!(!map.is_empty()),
    }
}

#[test]
fn stepwise_add_finalizes_leaf_and_empties_map() {
    let mut map: DepMap<u64> = DepMap::new(vec![5]);
    let step: Result<Option<usize>, ()> = map.add(|_t: &u64| Ok(Vec::new()));
    assert_eq!(step, Ok(None));
    assert!(map.is_empty());
    assert_eq!(map.destroy().ok(), Some(vec![5]));
}

#[test]
fn stepwise_add_reports_cycle_depth() {
    let mut map: DepMap<u64> = DepMap::new(vec![5]);
    // the sole dependency equals the root of the active path: depth 0
    let step: Result<Option<usize>, ()> = map.add(|_t: &u64| Ok(vec![5]));
    assert_eq!(step, Ok(Some(0)));
    // the target is retained, so the map still holds pending work
    assert!(!map.is_empty());
}

#[test]
fn add_on_empty_map_is_a_no_op() {
    let mut map: DepMap<u64> = DepMap::new(Vec::new());
    let step: Result<Option<usize>, ()> = map.add(|_t: &u64| Ok(vec![1, 2, 3]));
    assert_eq!(step, Ok(None));
    assert!(map.is_empty());
}

#[test]
fn error_from_wraps_user_error() {
    let e: Error<u64, &'static str> = Error::from("oops");
    match e {
        Error::UserDef(msg) => assert_eq!(msg, "oops"),
        _ => panic!("From must build the user-defined variant"),
    }
}
