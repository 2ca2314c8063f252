use rust4geo::feature::{Dataset, Feature, Rect};
use rust4geo::duplicates_manager::DuplicatesManager;

fn rect(min_x: i64, min_y: i64, max_x: i64, max_y: i64) -> Rect {
    Rect { min_x, min_y, max_x, max_y }
}

fn feat(id: u64, attrs: Vec<Option<Vec<u8>>>, rects: Option<Vec<Rect>>) -> Feature {
    Feature { id, attrs, geom: rects }
}

fn same_attrs() -> Vec<Option<Vec<u8>>> {
    vec![Some(b"forest".to_vec()), None, Some(b"42".to_vec())]
}

#[test]
fn chain_of_four_forms_single_cluster() {
    // Four features with identical attributes in a chain where only
    // consecutive rectangles touch: one cluster, rooted at the first.
    let ds = Dataset {
        features: vec![
            feat(1, same_attrs(), Some(vec![rect(0, 0, 10, 10)])),
            feat(2, same_attrs(), Some(vec![rect(10, 0, 20, 10)])),
            feat(3, same_attrs(), Some(vec![rect(20, 0, 30, 10)])),
            feat(4, same_attrs(), Some(vec![rect(30, 0, 40, 10)])),
        ],
    };
    let manager = DuplicatesManager::new(&ds);
    let (parents, childs) = manager.cluster_maps();
    assert_eq!(parents.len(), 1);
    assert_eq!(parents.get(&1).unwrap(), &vec![2u64, 3, 4]);
    assert_eq!(childs.len(), 3);
    assert_eq!(*childs.get(&2).unwrap(), 1);
    assert_eq!(*childs.get(&3).unwrap(), 1);
    assert_eq!(*childs.get(&4).unwrap(), 1);
}

#[test]
fn identical_geometry_differing_attribute_forms_no_cluster() {
    let mut attrs_b = same_attrs();
    attrs_b[2] = Some(b"43".to_vec());
    let ds = Dataset {
        features: vec![
            feat(1, same_attrs(), Some(vec![rect(0, 0, 10, 10)])),
            feat(2, attrs_b, Some(vec![rect(0, 0, 10, 10)])),
        ],
    };
    let manager = DuplicatesManager::new(&ds);
    assert!(!manager.should_be_added(1, 2));
    let (parents, childs) = manager.cluster_maps();
    assert!(parents.is_empty());
    assert!(childs.is_empty());
}

#[test]
fn null_geometry_has_no_neighbors_and_stays_unclustered() {
    let ds = Dataset {
        features: vec![
            feat(1, same_attrs(), None),
            feat(2, same_attrs(), Some(vec![rect(0, 0, 10, 10)])),
        ],
    };
    let manager = DuplicatesManager::new(&ds);
    assert!(manager.get_features_in_neighboors(1).is_empty());
    let (parents, childs) = manager.cluster_maps();
    assert!(parents.is_empty());
    assert!(childs.is_empty());
}

#[test]
fn joins_parent_of_first_matching_child_candidate() {
    // Feature 5 touches both 2 (child of 1) and 4 (child of 3); candidate
    // order is storage order, so it joins 2's parent.
    let ds = Dataset {
        features: vec![
            feat(1, same_attrs(), Some(vec![rect(0, 0, 10, 10)])),
            feat(2, same_attrs(), Some(vec![rect(10, 0, 20, 10)])),
            feat(3, same_attrs(), Some(vec![rect(40, 0, 50, 10)])),
            feat(4, same_attrs(), Some(vec![rect(30, 0, 40, 10)])),
            feat(5, same_attrs(), Some(vec![rect(20, 0, 30, 10)])),
        ],
    };
    let manager = DuplicatesManager::new(&ds);
    assert_eq!(manager.get_features_in_neighboors(5), vec![2u64, 4]);
    let (parents, childs) = manager.cluster_maps();
    assert_eq!(*childs.get(&5).unwrap(), 1);
    assert_eq!(parents.get(&1).unwrap(), &vec![2u64, 5]);
    assert_eq!(parents.get(&3).unwrap(), &vec![4u64]);
}

#[test]
fn joins_other_parent_when_candidate_order_is_reversed() {
    // Same shape as above, but feature 4's record is stored before feature
    // 2's, so 5 sees 4 first and joins 3 instead.
    let ds = Dataset {
        features: vec![
            feat(3, same_attrs(), Some(vec![rect(40, 0, 50, 10)])),
            feat(4, same_attrs(), Some(vec![rect(30, 0, 40, 10)])),
            feat(1, same_attrs(), Some(vec![rect(0, 0, 10, 10)])),
            feat(2, same_attrs(), Some(vec![rect(10, 0, 20, 10)])),
            feat(5, same_attrs(), Some(vec![rect(20, 0, 30, 10)])),
        ],
    };
    let manager = DuplicatesManager::new(&ds);
    assert_eq!(manager.get_features_in_neighboors(5), vec![4u64, 2]);
    let (parents, childs) = manager.cluster_maps();
    assert_eq!(*childs.get(&5).unwrap(), 3);
    assert_eq!(parents.get(&3).unwrap(), &vec![4u64, 5]);
    assert_eq!(parents.get(&1).unwrap(), &vec![2u64]);
}

#[test]
fn orphan_pass_attaches_every_qualifying_candidate() {
    // Feature 1 touches three orphans; all three become its children in one
    // pass, not only the first.
    let ds = Dataset {
        features: vec![
            feat(1, same_attrs(), Some(vec![rect(10, 0, 20, 10)])),
            feat(2, same_attrs(), Some(vec![rect(0, 0, 10, 10)])),
            feat(3, same_attrs(), Some(vec![rect(20, 0, 30, 10)])),
            feat(4, same_attrs(), Some(vec![rect(10, 10, 20, 20)])),
        ],
    };
    let manager = DuplicatesManager::new(&ds);
    let (parents, childs) = manager.cluster_maps();
    assert_eq!(parents.len(), 1);
    assert_eq!(parents.get(&1).unwrap(), &vec![2u64, 3, 4]);
    assert_eq!(*childs.get(&2).unwrap(), 1);
    assert_eq!(*childs.get(&3).unwrap(), 1);
    assert_eq!(*childs.get(&4).unwrap(), 1);
}

#[test]
fn parents_and_children_stay_disjoint() {
    // A larger mixed pass: no id may end up both as a parent key and in the
    // child index, and no child may be listed under two parents.
    let mut features = Vec::new();
    for i in 0..6u64 {
        features.push(feat(
            i + 1,
            same_attrs(),
            Some(vec![rect(10 * i as i64, 0, 10 * i as i64 + 10, 10)]),
        ));
    }
    // A lone feature with different attributes, touching the chain.
    features.push(feat(7, vec![Some(b"meadow".to_vec())], Some(vec![rect(0, 10, 10, 20)])));
    let ds = Dataset { features };
    let manager = DuplicatesManager::new(&ds);
    let (parents, childs) = manager.cluster_maps();
    for (parent, kids) in parents.iter() {
        assert!(!childs.contains_key(parent));
        for kid in kids.iter() {
            assert_eq!(childs.get(kid), Some(parent));
        }
    }
    let mut seen: Vec<u64> = Vec::new();
    for (_, kids) in parents.iter() {
        for kid in kids.iter() {
            assert!(!seen.contains(kid));
            seen.push(*kid);
        }
    }
    assert!(!childs.contains_key(&7));
    assert!(!parents.contains_key(&7));
}

#[test]
fn should_be_added_rejects_self_and_disjoint_geometry() {
    let ds = Dataset {
        features: vec![
            feat(1, same_attrs(), Some(vec![rect(0, 0, 10, 10)])),
            feat(2, same_attrs(), Some(vec![rect(50, 50, 60, 60)])),
        ],
    };
    let manager = DuplicatesManager::new(&ds);
    // Never a duplicate of itself.
    assert!(!manager.should_be_added(1, 1));
    // Same attributes but geometries apart: no duplicate.
    assert!(!manager.should_be_added(1, 2));
}

#[test]
fn neighbor_query_uses_envelope_of_all_parts() {
    // A two-part geometry: the envelope spans both parts, so a feature
    // between them is still a candidate even though the exact geometries do
    // not touch it... and the exact test then rejects it.
    let ds = Dataset {
        features: vec![
            feat(1, same_attrs(), Some(vec![rect(0, 0, 10, 10), rect(40, 0, 50, 10)])),
            feat(2, same_attrs(), Some(vec![rect(20, 2, 25, 8)])),
        ],
    };
    let manager = DuplicatesManager::new(&ds);
    assert_eq!(manager.get_features_in_neighboors(1), vec![2u64]);
    assert!(!manager.should_be_added(1, 2));
    let (parents, childs) = manager.cluster_maps();
    assert!(parents.is_empty());
    assert!(childs.is_empty());
}

#[test]
fn get_present_and_absent_split_by_parent_keys() {
    let ds = Dataset {
        features: vec![
            feat(1, same_attrs(), Some(vec![rect(0, 0, 10, 10)])),
            feat(2, same_attrs(), Some(vec![rect(10, 0, 20, 10)])),
        ],
    };
    let manager = DuplicatesManager::new(&ds);
    let parents = manager.find_duplicates_neighboors();
    assert!(parents.contains_key(&1));
    let ids = vec![1u64, 2, 3];
    assert_eq!(DuplicatesManager::get_present(&ids, &parents), vec![1u64]);
    assert_eq!(DuplicatesManager::get_absent(&ids, &parents), vec![2u64, 3]);
}

#[test]
fn pass_visits_identifiers_in_ascending_order() {
    // Feature 2 is stored first, but the pass visits identifiers ascending,
    // so 1 becomes the parent.
    let ds = Dataset {
        features: vec![
            feat(2, same_attrs(), Some(vec![rect(10, 0, 20, 10)])),
            feat(1, same_attrs(), Some(vec![rect(0, 0, 10, 10)])),
        ],
    };
    let manager = DuplicatesManager::new(&ds);
    let (parents, childs) = manager.cluster_maps();
    assert_eq!(parents.len(), 1);
    assert_eq!(parents.get(&1).unwrap(), &vec![2u64]);
    assert_eq!(*childs.get(&2).unwrap(), 1);
}

#[test]
fn extract_features_ids_keeps_storage_order() {
    let ds = Dataset {
        features: vec![
            feat(9, same_attrs(), None),
            feat(4, same_attrs(), None),
            feat(7, same_attrs(), None),
        ],
    };
    let manager = DuplicatesManager::new(&ds);
    assert_eq!(manager.extract_features_ids(), vec![9u64, 4, 7]);
}
