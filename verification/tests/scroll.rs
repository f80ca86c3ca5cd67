use fnv::FnvHashMap;
use paws_engine::scroll::ancestor_chain;

#[test]
fn chain_climbs_to_the_outermost_scroll_container() {
    let mut parents: FnvHashMap<u64, Option<u64>> = FnvHashMap::default();
    parents.insert(1, None);
    parents.insert(2, Some(1));
    parents.insert(3, Some(2));
    assert_eq!(ancestor_chain(&parents, 3), vec![3, 2, 1]);
    assert_eq!(ancestor_chain(&parents, 1), vec![1]);
}

#[test]
fn chain_stops_at_an_unknown_container() {
    let mut parents: FnvHashMap<u64, Option<u64>> = FnvHashMap::default();
    parents.insert(5, Some(9));
    assert_eq!(ancestor_chain(&parents, 5), vec![5, 9]);
    assert_eq!(ancestor_chain(&parents, 7), vec![7]);
}
