use rust4geo::feature::Feature;
use rust4geo::attribute_manager::AttributeManager;

fn feat_with(attrs: Vec<Option<Vec<u8>>>) -> Feature {
    Feature { id: 1, attrs, geom: None }
}

#[test]
fn fingerprint_matches_digest_of_canonical_message() {
    // One present field: the message is the value followed by the separator.
    let f = feat_with(vec![Some(b"x".to_vec())]);
    let fp = AttributeManager::get_attribute_hash(&f);
    assert_eq!(fp.bytes, md5::compute(b"x|").0.to_vec());

    // An absent field contributes the sentinel, then the separator.
    let g = feat_with(vec![Some(b"x".to_vec()), None]);
    let gp = AttributeManager::get_attribute_hash(&g);
    assert_eq!(gp.bytes, md5::compute(b"x|None|").0.to_vec());
}

#[test]
fn fingerprint_is_sixteen_bytes() {
    let f = feat_with(vec![]);
    assert_eq!(AttributeManager::get_attribute_hash(&f).bytes.len(), 16);
}

#[test]
fn equality_is_reflexive() {
    let f = feat_with(vec![Some(b"a".to_vec()), None, Some(b"b".to_vec())]);
    let g = feat_with(vec![Some(b"a".to_vec()), None, Some(b"b".to_vec())]);
    assert!(AttributeManager::has_same_value(&f, &f));
    // Same attribute sequence, including the null position: equal.
    assert!(AttributeManager::has_same_value(&f, &g));
}

#[test]
fn equality_is_symmetric() {
    let f = feat_with(vec![Some(b"a".to_vec())]);
    let g = feat_with(vec![Some(b"b".to_vec())]);
    assert_eq!(
        AttributeManager::has_same_value(&f, &g),
        AttributeManager::has_same_value(&g, &f)
    );
    let h = feat_with(vec![Some(b"a".to_vec())]);
    assert_eq!(
        AttributeManager::has_same_value(&f, &h),
        AttributeManager::has_same_value(&h, &f)
    );
    assert!(AttributeManager::has_same_value(&f, &h));
}

#[test]
fn differing_value_changes_fingerprint() {
    let f = feat_with(vec![Some(b"a".to_vec()), Some(b"b".to_vec())]);
    let g = feat_with(vec![Some(b"a".to_vec()), Some(b"c".to_vec())]);
    assert!(!AttributeManager::has_same_value(&f, &g));
}

#[test]
fn null_position_matters() {
    let f = feat_with(vec![Some(b"a".to_vec()), None]);
    let g = feat_with(vec![None, Some(b"a".to_vec())]);
    assert!(!AttributeManager::has_same_value(&f, &g));
}
