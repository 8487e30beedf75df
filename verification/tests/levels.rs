use dep_levels::DepItem;
use dep_levels::DepLevel;
use dep_levels::DepRes;
use dep_levels::DepResolveError;

fn items(spec: &[(u64, &[u64])]) -> Vec<DepItem> {
    spec.iter().map(|(id, deps)| DepItem::new(*id, deps.to_vec())).collect()
}

fn level_sets(levels: &[DepLevel<Vec<u64>>]) -> Vec<(usize, Vec<u64>)> {
    levels
        .iter()
        .map(|l| {
            let mut ids = l.deps.clone();
            ids.sort();
            (l.level, ids)
        })
        .collect()
}

#[test]
fn test_1() {
    let items = vec![
        DepItem { id: 0, deps: vec![] },
        DepItem { id: 1, deps: vec![0] },
        DepItem { id: 2, deps: vec![] },
        DepItem { id: 3, deps: vec![] },
        DepItem { id: 4, deps: vec![3] },
        DepItem { id: 5, deps: vec![4] },
    ];
    let mut dr = DepRes::new();
    dr.add(&items);
    let r = dr.resolve();
    println!("{:?}\n", r);
    println!("{:?}\n", dr);
    let r = r.unwrap();
    let items = r.sorted_by_level();
    println!("{:?}", items);
    println!("");
    let levels = r.iter_level();
    println!("{:?}", levels);
}

#[test]
fn empty_graph_resolves_to_zero_levels() {
    let mut dr = DepRes::new();
    let r = dr.resolve().unwrap();
    assert_eq!(r.iter_level().len(), 0);
    assert_eq!(r.sorted_by_level(), Vec::<u64>::new());
    assert!(r.raw_level().is_empty());
}

#[test]
fn linear_chain_gives_one_identifier_per_level() {
    let mut dr = DepRes::new();
    dr.add(&items(&[(0, &[]), (1, &[0]), (2, &[1])]));
    let r = dr.resolve().unwrap();
    assert_eq!(
        level_sets(&r.iter_level()),
        vec![(0, vec![0]), (1, vec![1]), (2, vec![2])]
    );
    assert_eq!(r.sorted_by_level(), vec![0, 1, 2]);
}

#[test]
fn disjoint_roots_share_level_zero() {
    let mut dr = DepRes::new();
    dr.add(&items(&[(0, &[]), (1, &[]), (2, &[])]));
    let r = dr.resolve().unwrap();
    assert_eq!(level_sets(&r.iter_level()), vec![(0, vec![0, 1, 2])]);
    let mut flat = r.sorted_by_level();
    flat.sort();
    assert_eq!(flat, vec![0, 1, 2]);
}

#[test]
fn true_cycle_fails_with_islands_or_circular() {
    let mut dr = DepRes::new();
    dr.add(&items(&[(0, &[1]), (1, &[0])]));
    assert_eq!(dr.resolve().unwrap_err(), DepResolveError::IslandsOrCircular);
}

#[test]
fn dangling_dependency_fails_with_islands_or_circular() {
    let mut dr = DepRes::new();
    dr.add(&items(&[(0, &[99])]));
    assert_eq!(dr.resolve().unwrap_err(), DepResolveError::IslandsOrCircular);
}

#[test]
fn partial_cycle_behind_roots_fails() {
    let mut dr = DepRes::new();
    dr.add(&items(&[(0, &[]), (1, &[0]), (2, &[3]), (3, &[2])]));
    assert_eq!(dr.resolve().unwrap_err(), DepResolveError::IslandsOrCircular);
}

#[test]
fn adding_the_same_batch_twice_changes_nothing() {
    let batch = items(&[(0, &[]), (1, &[0]), (2, &[0, 1])]);
    let mut once = DepRes::new();
    once.add(&batch);
    let mut twice = DepRes::new();
    twice.add(&batch);
    twice.add(&batch);
    let r1 = once.resolve().unwrap();
    let r2 = twice.resolve().unwrap();
    assert_eq!(level_sets(&r1.iter_level()), level_sets(&r2.iter_level()));
}

#[test]
fn dependencies_accumulate_across_batches() {
    let mut dr = DepRes::new();
    dr.add(&items(&[(0, &[]), (1, &[0])]));
    dr.add(&items(&[(2, &[1]), (1, &[2])]));
    // 1 now depends on both 0 and 2. Had the second batch replaced 1's
    // recorded dependencies with {2}, nothing could advance past level 0;
    // because they are unioned, 1 still advances on its dependency 0.
    let r = dr.resolve().unwrap();
    assert_eq!(
        level_sets(&r.iter_level()),
        vec![(0, vec![0]), (1, vec![1]), (2, vec![2])]
    );
}

#[test]
fn repeated_resolution_gives_the_same_structure() {
    let spec: &[(u64, &[u64])] = &[(7, &[]), (3, &[7]), (9, &[7]), (4, &[3, 9]), (5, &[4])];
    let mut a = DepRes::new();
    a.add(&items(spec));
    let mut b = DepRes::new();
    b.add(&items(spec));
    let ra = a.resolve().unwrap();
    let rb = b.resolve().unwrap();
    assert_eq!(level_sets(&ra.iter_level()), level_sets(&rb.iter_level()));
}

#[test]
fn every_identifier_appears_in_exactly_one_level() {
    let mut dr = DepRes::new();
    dr.add(&items(&[(0, &[]), (1, &[0]), (2, &[]), (3, &[]), (4, &[3]), (5, &[4])]));
    let r = dr.resolve().unwrap();
    let levels = r.iter_level();
    let mut seen: Vec<u64> = Vec::new();
    for l in &levels {
        for id in &l.deps {
            assert!(!seen.contains(id));
            seen.push(*id);
        }
    }
    seen.sort();
    assert_eq!(seen, vec![0, 1, 2, 3, 4, 5]);
}

#[test]
fn each_level_has_a_dependency_one_below() {
    let spec: &[(u64, &[u64])] = &[(0, &[]), (1, &[0]), (2, &[]), (3, &[]), (4, &[3]), (5, &[4])];
    let mut dr = DepRes::new();
    dr.add(&items(spec));
    let r = dr.resolve().unwrap();
    let levels = r.iter_level();
    for (i, l) in levels.iter().enumerate() {
        assert_eq!(l.level, i);
        for id in &l.deps {
            let recorded: Vec<u64> = spec
                .iter()
                .filter(|(sid, _)| sid == id)
                .flat_map(|(_, ds)| ds.iter().copied())
                .collect();
            if i == 0 {
                assert!(recorded.is_empty());
            } else {
                assert!(recorded.iter().any(|d| levels[i - 1].deps.contains(d)));
            }
        }
    }
}

#[test]
fn sorted_by_level_repartitions_into_the_raw_levels() {
    let mut dr = DepRes::new();
    dr.add(&items(&[(0, &[]), (1, &[0]), (2, &[]), (3, &[]), (4, &[3]), (5, &[4])]));
    let r = dr.resolve().unwrap();
    let flat = r.sorted_by_level();
    let levels = r.iter_level();
    let raw = r.raw_level();
    let mut offset = 0usize;
    for l in &levels {
        let mut chunk: Vec<u64> = flat[offset..offset + l.deps.len()].to_vec();
        chunk.sort();
        let stored = raw.get(&l.level).unwrap();
        let mut stored: Vec<u64> = stored.iter().map(|v| *v).collect();
        stored.sort();
        assert_eq!(chunk, stored);
        offset += l.deps.len();
    }
    assert_eq!(offset, flat.len());
}

#[test]
fn default_and_clone_share_the_result() {
    let mut dr: DepRes = Default::default();
    dr.add(&items(&[(1, &[]), (2, &[1])]));
    let r = dr.resolve().unwrap();
    let r2 = r.clone();
    assert_eq!(level_sets(&r.iter_level()), level_sets(&r2.iter_level()));
    let empty: dep_levels::ResolvedDeps = Default::default();
    assert_eq!(empty.iter_level().len(), 0);
    assert_eq!(empty.sorted_by_level(), Vec::<u64>::new());
}

#[test]
fn wrapper_types_forward_the_capability() {
    let boxed: Vec<Box<DepItem>> = vec![
        Box::new(DepItem::new(0, vec![])),
        Box::new(DepItem::new(1, vec![0])),
    ];
    let mut dr = DepRes::new();
    dr.add(&boxed);
    let shared: Vec<std::rc::Rc<DepItem>> = vec![std::rc::Rc::new(DepItem::new(2, vec![1]))];
    dr.add(&shared);
    let counted: Vec<std::sync::Arc<DepItem>> = vec![std::sync::Arc::new(DepItem::new(3, vec![2]))];
    dr.add(&counted);
    let r = dr.resolve().unwrap();
    assert_eq!(r.sorted_by_level(), vec![0, 1, 2, 3]);
}
