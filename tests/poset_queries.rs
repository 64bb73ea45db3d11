use poset::{PartialOrder, PartialOrderBehaviour, Poset, PosetBehaviour, PosetError};

fn divisibility(n: i32) -> Poset<i32, PartialOrder<i32, impl Fn(&i32, &i32) -> bool>> {
    Poset::with_elements((1..=n).collect(), PartialOrder::new(|a: &i32, b: &i32| a % b == 0))
}

#[test]
fn maxima_and_minima_of_divisibility() {
    let pos = divisibility(15);
    let maxima: Vec<i32> = pos.maxima().unwrap().into_iter().copied().collect();
    assert_eq!(maxima, vec![8, 9, 10, 11, 12, 13, 14, 15]);
    let minima: Vec<i32> = pos.minima().unwrap().into_iter().copied().collect();
    assert_eq!(minima, vec![1]);
}

#[test]
fn empty_poset_scenario() {
    let pos: Poset<i32, _> = Poset::new(PartialOrder::new(|a: &i32, b: &i32| a % b == 0));
    assert_eq!(pos.cardinality(), 0);
    assert!(pos.maxima().unwrap().is_empty());
    assert!(pos.minima().unwrap().is_empty());
    let chains = pos.chain_decomposition().unwrap();
    assert!(chains.is_empty());
    let mut it = pos.antichains(vec![]);
    assert_eq!(it.next(), Some(vec![]));
    assert_eq!(it.next(), None);
    assert_eq!(it.next(), None);
}

#[test]
fn single_element_scenario() {
    let pos = Poset::with_elements(vec![7], PartialOrder::new(|a: &i32, b: &i32| a == b));
    assert_eq!(pos.maxima().unwrap(), vec![&7]);
    assert_eq!(pos.minima().unwrap(), vec![&7]);
    assert!(!pos.cover(&7, &7));
    let chains = pos.chain_decomposition().unwrap();
    assert_eq!(chains, vec![vec![&7]]);
    let mut it = pos.antichains(chains);
    assert_eq!(it.next(), Some(vec![]));
    assert_eq!(it.next(), Some(vec![&7]));
    assert_eq!(it.next(), None);
}

#[test]
fn dominance_cycle_has_no_maxima() {
    // a > b, b > c, c > a, and no element is >= itself.
    let cycle = PartialOrder::new(|x: &char, y: &char| {
        matches!((*x, *y), ('a', 'b') | ('b', 'c') | ('c', 'a'))
    });
    let pos = Poset::with_elements(vec!['a', 'b', 'c'], cycle);
    assert!(pos.gt(&'a', &'b') && pos.gt(&'b', &'c') && pos.gt(&'c', &'a'));
    assert_eq!(pos.maxima().err(), Some(PosetError::NoMaxima));
    assert_eq!(pos.minima().err(), Some(PosetError::NoMinima));
}

#[test]
fn cover_in_whole_poset() {
    let pos = divisibility(15);
    assert!(pos.cover(&2, &4));
    assert!(pos.cover(&3, &6));
    assert!(!pos.cover(&2, &8));
    assert!(!pos.cover(&4, &2));
    assert!(!pos.cover(&4, &6));
    assert!(!pos.cover(&5, &5));
}

#[test]
fn cover_in_pool_ignores_missing_elements() {
    let pos = divisibility(15);
    // positions of 2 and 8 only: 4 is not in the pool
    assert!(pos.cover_in_pool(&2, &8, &[1, 7]));
    assert!(!pos.cover_in_pool(&2, &8, &[1, 3, 7]));
    assert!(!pos.cover_in_pool(&8, &2, &[1, 7]));
}

#[test]
fn minima_in_pool_of_positions() {
    let pos = divisibility(15);
    // elements 4, 6, 8, 12 and 3
    assert_eq!(pos.minima_in_pool(&[3, 5, 7, 11, 2]), Some(vec![3, 2]));
    assert_eq!(pos.minima_in_pool(&[]), Some(vec![]));
}

#[test]
fn chain_from_pool_takes_greedy_chain() {
    let pos = divisibility(8);
    let mut pool: Vec<usize> = (0..8).collect();
    let chain = pos.chain_from_pool(&mut pool).unwrap();
    // 1, then the first cover of 1 is 2, then 4, then 8
    assert_eq!(chain, vec![0, 1, 3, 7]);
    assert_eq!(pool, vec![2, 4, 5, 6]);
    let mut empty: Vec<usize> = vec![];
    assert_eq!(pos.chain_from_pool(&mut empty), Ok(vec![]));
}

#[test]
fn chain_from_pool_without_minimum_fails() {
    let cycle = PartialOrder::new(|x: &char, y: &char| {
        matches!((*x, *y), ('a', 'b') | ('b', 'c') | ('c', 'a'))
    });
    let pos = Poset::with_elements(vec!['a', 'b', 'c'], cycle);
    let mut pool = vec![0, 1, 2];
    assert_eq!(pos.chain_from_pool(&mut pool), Err(PosetError::NoMinimalInPool));
    assert_eq!(pool, vec![0, 1, 2]);
    assert_eq!(pos.chain_decomposition().err(), Some(PosetError::NoMinimalInPool));
}

#[test]
fn chain_decomposition_partitions_and_ascends() {
    let pos = divisibility(15);
    let chains = pos.chain_decomposition().unwrap();
    let mut all: Vec<i32> = chains.iter().flat_map(|c| c.iter().map(|x| **x)).collect();
    all.sort();
    assert_eq!(all, (1..=15).collect::<Vec<i32>>());
    for c in &chains {
        assert!(!c.is_empty());
        for i in 0..c.len() {
            for j in i + 1..c.len() {
                assert!(pos.lt(c[i], c[j]));
            }
        }
    }
    assert_eq!(chains[0], vec![&1, &2, &4, &8]);
}

#[test]
fn divisibility_has_1133_antichains() {
    let pos = divisibility(15);
    let chains = pos.chain_decomposition().unwrap();
    let mut it = pos.antichains(chains);
    let mut count = 0;
    let mut first = None;
    while let Some(a) = it.next() {
        if first.is_none() {
            first = Some(a.clone());
        }
        for i in 0..a.len() {
            for j in i + 1..a.len() {
                assert!(pos.ip(a[i], a[j]));
            }
        }
        count += 1;
    }
    assert_eq!(count, 1133);
    assert_eq!(first, Some(vec![]));
}

#[test]
fn state_space_is_product_of_lengths_plus_one() {
    // Under equality as the order every choice is an antichain, so every state is emitted.
    let pos = Poset::with_elements(vec![1, 2, 3], PartialOrder::new(|a: &i32, b: &i32| a == b));
    let e = pos.elements();
    let mut it = pos.antichains(vec![vec![&e[0], &e[1]], vec![&e[2]]]);
    let mut seen = vec![];
    while let Some(a) = it.next() {
        seen.push(a.into_iter().copied().collect::<Vec<i32>>());
    }
    assert_eq!(seen.len(), 3 * 2);
    assert_eq!(
        seen,
        vec![vec![], vec![3], vec![1], vec![1, 3], vec![2], vec![2, 3]]
    );
}

#[test]
fn chains_with_an_empty_chain() {
    let pos = Poset::with_elements(vec![1, 2], PartialOrder::new(|a: &i32, b: &i32| a == b));
    let e = pos.elements();
    let mut it = pos.antichains(vec![vec![&e[0]], vec![], vec![&e[1]]]);
    let mut count = 0;
    while it.next().is_some() {
        count += 1;
    }
    assert_eq!(count, 2 * 1 * 2);
}

#[test]
fn hasse_edges_of_divisibility() {
    let pos = divisibility(15);
    let edges = pos.hasse_edges();
    assert_eq!(edges.len(), 19);
    assert_eq!(edges[0], (0, 1));
    assert!(edges.contains(&(1, 3)));
    assert!(!edges.contains(&(1, 7)));
}

#[test]
fn random_maximal_antichain_is_maximal() {
    let pos = divisibility(15);
    for _ in 0..20 {
        let a = pos.rnd_maximal_antichain();
        assert!(!a.is_empty());
        for i in 0..a.len() {
            for j in i + 1..a.len() {
                assert!(pos.ip(a[i], a[j]));
            }
        }
        for x in pos.elements() {
            assert!(a.contains(&x) || a.iter().any(|y| pos.cp(x, y)));
        }
    }
}

#[test]
fn maximal_antichain_in_given_order() {
    let pos = divisibility(15);
    // 8, 12, 9, 4 then 1: 4 divides 8 and 1 divides everything
    assert_eq!(pos.maximal_antichain_in_order(&[7, 11, 8, 3, 0]), vec![&8, &12, &9]);
    assert_eq!(pos.maximal_antichain_in_order(&[]), Vec::<&i32>::new());
}

#[test]
fn add_and_replace_elements() {
    let mut pos = divisibility(3);
    pos.add(4);
    assert_eq!(pos.cardinality(), 4);
    assert_eq!(pos.elements(), &[1, 2, 3, 4]);
    pos.replace_elements(vec![5, 10]);
    assert_eq!(pos.elements(), &[5, 10]);
    assert!(pos.partial_order().lt(&5, &10));
    assert_eq!(pos.maxima().unwrap(), vec![&10]);
}

#[test]
fn replace_partial_order_changes_comparisons() {
    fn same(a: &i32, b: &i32) -> bool {
        a == b
    }
    fn divides(a: &i32, b: &i32) -> bool {
        a % b == 0
    }
    let mut pos = Poset::with_elements(
        vec![2, 3, 6],
        PartialOrder::new(same as fn(&i32, &i32) -> bool),
    );
    assert!(pos.ip(&2, &6));
    pos.replace_partial_order(PartialOrder::new(divides as fn(&i32, &i32) -> bool));
    assert!(pos.lt(&2, &6));
    assert!(pos.ip(&2, &3));
}

#[test]
fn error_messages() {
    assert_eq!(PosetError::NoMaxima.message(), "non-empty poset should have a maximal element");
    assert_eq!(PosetError::NoMinima.message(), "non-empty poset should have a minimal element");
    assert_eq!(PosetError::NoMinimalInPool.message(), "there should be a minimal element");
}
