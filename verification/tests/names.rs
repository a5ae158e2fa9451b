use git_vdb::meta::{
    check_meta_format, ivf_config_for, validate_config, validate_ivf_meta, validate_v1_index,
    RootMeta,
};
use git_vdb::names::{collection_ref, is_full_object_id, validate_collection_name, validate_tree_name};
use git_vdb::{CollectionConfig, Error, IndexConfig};

#[test]
fn collection_names_are_conservative() {
    for good in ["docs", "a", "my-notes_2.v1", &"x".repeat(128)] {
        assert!(validate_collection_name(good).is_ok(), "{good}");
    }
    for bad in ["", ".docs", "docs.", "a..b", "a/b", "spaces here", "é", &"x".repeat(129)] {
        assert!(matches!(validate_collection_name(bad), Err(Error::Invalid(_))), "{bad}");
    }
    assert_eq!(collection_ref("notes"), "refs/git-vdb/collections/notes");
}

#[test]
fn tree_names_cannot_escape() {
    assert!(validate_tree_name("meta.json").is_ok());
    assert!(validate_tree_name("..a").is_ok());
    for bad in ["", ".", "..", "a/b", "a\\b"] {
        assert!(matches!(validate_tree_name(bad), Err(Error::Corrupt(_))), "{bad}");
    }
}

#[test]
fn object_ids_are_full_lowercase_sha1() {
    assert!(is_full_object_id("b02e98c1f919ec065ac342812a5ccf6b62bc4217"));
    assert!(!is_full_object_id("B02E98C1F919EC065AC342812A5CCF6B62BC4217"));
    assert!(!is_full_object_id("b02e98c1"));
    assert!(!is_full_object_id("not a snapshot root"));
}

#[test]
fn configurations_are_checked() {
    assert!(validate_config(&CollectionConfig::new(2)).is_ok());
    assert!(matches!(validate_config(&CollectionConfig::new(0)), Err(Error::Invalid(_))));
    let mut index = IndexConfig::default();
    index.default_probes = 0;
    assert!(validate_config(&CollectionConfig::new(2).with_index(index)).is_err());
    assert!(validate_v1_index(&IndexConfig::default()).is_ok());
    let mut wide = IndexConfig::default();
    wide.signature_bits = 65;
    assert!(matches!(validate_v1_index(&wide), Err(Error::Invalid(_))));
    wide.signature_bits = 64;
    wide.tables = 0;
    assert!(validate_v1_index(&wide).is_err());
}

#[test]
fn new_metadata_is_accepted_by_readers() {
    let config = CollectionConfig::new(3).with_vector_space("model@1");
    let v2 = RootMeta::new_v2(&config, 100, ivf_config_for(100));
    assert!(check_meta_format(&v2).is_ok());
    assert!(validate_ivf_meta(&v2).is_ok());
    assert_eq!(v2.format_version(), 2);
    assert_eq!(v2.point_count(), 100);
    assert_eq!(v2.config().vector_space.as_deref(), Some("model@1"));
    assert_eq!(v2.ivf.as_ref().unwrap().centroid_count, 8);
    let v1 = RootMeta::new_v1(&config, 4);
    assert!(check_meta_format(&v1).is_ok());
    assert!(matches!(validate_ivf_meta(&v1), Err(Error::Corrupt(_))));
    let mut stale = RootMeta::new_v2(&config, 100, ivf_config_for(10));
    assert!(validate_ivf_meta(&stale).is_err());
    stale.vector_codec = "f32le-v1".to_string();
    assert!(matches!(check_meta_format(&stale), Err(Error::Corrupt(_))));
}
