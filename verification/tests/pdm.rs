use solid_diff::pdm::{changes_since, core_props_in, read_core_props, split_key, Revision};

#[test]
fn keys_group_revisions_of_one_part() {
    assert_eq!(
        split_key("570112-99__00000371_v8"),
        ("570112-99".to_string(), 8)
    );
    assert_eq!(
        split_key("570112-99__000001d2_v1"),
        ("570112-99".to_string(), 1)
    );
    // Same part, different vault ids: the id must not reach the key or
    // revisions would never group.
    assert_eq!(
        split_key("570112-99__00000371_v8").0,
        split_key("570112-99__000001d2_v1").0
    );
}

#[test]
fn names_that_do_not_fit_the_pattern_are_left_alone() {
    assert_eq!(split_key("Arm_brace"), ("Arm_brace".to_string(), 0));
    // A trailing `__something` that is not `<hex>_v<n>` is part of the name.
    assert_eq!(
        split_key("plate__revision_two"),
        ("plate__revision_two".to_string(), 0)
    );
    // Non-hex id.
    assert_eq!(
        split_key("thing__zzzz_v2"),
        ("thing__zzzz_v2".to_string(), 0)
    );
}

fn rev(key: &str, v: u32, when: Option<&str>) -> Revision {
    Revision {
        path: format!("{key}_v{v}.SLDPRT"),
        key: key.to_string(),
        version: v,
        modified: when.map(|s| s.to_string()),
        author: None,
    }
}

#[test]
fn picks_the_newest_and_the_last_one_before_the_cutoff() {
    let revs = vec![
        rev("a", 1, Some("2026-01-01T00:00:00Z")),
        rev("a", 2, Some("2026-05-01T00:00:00Z")),
        rev("a", 3, Some("2026-07-01T00:00:00Z")),
        rev("b", 1, Some("2026-01-01T00:00:00Z")),
    ];
    let c = changes_since(&revs, "2026-06-01");
    assert_eq!(c.len(), 1, "only `a` changed after the cutoff");
    assert_eq!(c[0].key, "a");
    assert_eq!(c[0].after.version, 3);
    assert_eq!(
        c[0].before.as_ref().map(|r| r.version),
        Some(2),
        "baseline is the newest revision from *before* the cutoff, not the first"
    );
}

#[test]
fn a_part_with_no_earlier_revision_has_no_baseline() {
    let revs = vec![rev("new", 1, Some("2026-07-01T00:00:00Z"))];
    let c = changes_since(&revs, "2026-06-01");
    assert_eq!(c.len(), 1);
    assert!(c[0].before.is_none(), "nothing to compare a new part with");
}

#[test]
fn undateable_parts_are_skipped_rather_than_guessed_at() {
    let revs = vec![rev("old", 1, None)];
    assert!(changes_since(&revs, "2026-06-01").is_empty());
}

#[test]
fn a_version_that_does_not_fit_counts_as_none() {
    assert_eq!(split_key("a__0f_v4294967295"), ("a".to_string(), 4294967295));
    assert_eq!(split_key("a__0f_v4294967296"), ("a".to_string(), 0));
    assert_eq!(split_key("a__0f_v007"), ("a".to_string(), 7));
}

#[test]
fn the_last_pair_of_underscores_is_the_cut() {
    assert_eq!(split_key("a__b__00ff_v3"), ("a__b".to_string(), 3));
    assert_eq!(split_key("a___00ff_v3"), ("a_".to_string(), 3));
    assert_eq!(split_key("a__00_v1_v2"), ("a__00_v1_v2".to_string(), 0));
    assert_eq!(split_key("a___v2"), ("a___v2".to_string(), 0));
}

#[test]
fn changed_parts_come_in_key_order_with_the_later_of_equals() {
    let mut revs = vec![
        rev("b", 1, Some("2026-07-01T00:00:00Z")),
        rev("a", 2, Some("2026-07-01T00:00:00Z")),
        rev("a", 1, Some("2026-07-01T00:00:00Z")),
        rev("a", 9, None),
    ];
    let mut twin = rev("b", 1, Some("2026-07-01T00:00:00Z"));
    twin.path = "twin".to_string();
    revs.push(twin);
    let c = changes_since(&revs, "2026-06-01");
    assert_eq!(c.len(), 2);
    assert_eq!((c[0].key.as_str(), c[0].after.version), ("a", 2));
    assert_eq!((c[1].key.as_str(), c[1].after.path.as_str()), ("b", "twin"));
    assert!(c[0].before.is_none());
}

#[test]
fn core_properties_are_read_from_their_elements() {
    let xml = "<x><dc:lastModifiedBy>stric</dc:lastModifiedBy>\
               <dcterms:modified>2026-07-23T18:40:10Z</dcterms:modified></x>";
    assert_eq!(
        core_props_in(xml),
        (
            Some("2026-07-23T18:40:10Z".to_string()),
            Some("stric".to_string())
        )
    );
    assert_eq!(core_props_in("<dcterms:modified>2026"), (None, None));
    assert_eq!(read_core_props(&[0u8; 100]), (None, None));
}
