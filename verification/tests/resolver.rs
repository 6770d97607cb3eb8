use noirc_evaluator::context::Context;
use std::collections::BTreeMap;

fn chain(links: &[(usize, usize)]) -> BTreeMap<usize, usize> {
    links.iter().copied().collect()
}

fn resolve(id: usize, supersedes: &BTreeMap<usize, usize>) -> usize {
    let mut latest = id;
    Context::follow_mapped_slice_values(id, supersedes, &mut latest);
    latest
}

#[test]
fn an_id_that_nothing_supersedes_is_left_alone() {
    let supersedes = chain(&[(1, 2)]);
    let mut latest = 77;
    Context::follow_mapped_slice_values(5, &supersedes, &mut latest);
    assert_eq!(latest, 77);
}

#[test]
fn a_canonical_id_resolves_to_itself() {
    let supersedes = chain(&[(1, 2), (2, 3)]);
    assert_eq!(resolve(3, &supersedes), 3);
    assert_eq!(resolve(9, &supersedes), 9);
}

#[test]
fn one_link_is_followed() {
    let supersedes = chain(&[(4, 9)]);
    assert_eq!(resolve(4, &supersedes), 9);
}

#[test]
fn a_chain_is_followed_to_its_end() {
    let supersedes = chain(&[(1, 2), (2, 5), (5, 8), (8, 13)]);
    assert_eq!(resolve(1, &supersedes), 13);
}

#[test]
fn every_id_of_a_lineage_resolves_alike() {
    let supersedes = chain(&[(1, 2), (2, 5), (5, 8), (8, 13), (20, 21)]);
    for id in [1, 2, 5, 8, 13] {
        assert_eq!(resolve(id, &supersedes), 13);
    }
    assert_eq!(resolve(20, &supersedes), 21);
    assert_eq!(resolve(21, &supersedes), 21);
}

#[test]
fn resolving_twice_changes_nothing() {
    let supersedes = chain(&[(3, 4), (4, 6)]);
    let once = resolve(3, &supersedes);
    assert_eq!(resolve(once, &supersedes), once);
}

#[test]
fn a_link_may_lead_to_a_smaller_id() {
    let supersedes = chain(&[(9, 4), (4, 2)]);
    assert_eq!(resolve(9, &supersedes), 2);
}

#[test]
fn an_empty_map_supersedes_nothing() {
    let supersedes = BTreeMap::new();
    assert_eq!(resolve(0, &supersedes), 0);
}
