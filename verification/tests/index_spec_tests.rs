use cfdb_petgraph::index_spec::{
    last_segment, ComputedKey, IndexEntry, IndexEntryError, IndexSpec, IndexSpecLoadError, UnknownComputedKey,
    CONVERSION_PREFIX_PATTERN,
};

#[test]
fn computed_key_round_trips_as_canonical_string() {
    assert_eq!(ComputedKey::LastSegment.as_str(), "last_segment(qname)");
    assert_eq!(
        "last_segment(qname)".parse::<ComputedKey>().expect("parse"),
        ComputedKey::LastSegment
    );
    assert!("bogus".parse::<ComputedKey>().is_err());
}

#[test]
fn conversion_prefix_round_trips_as_canonical_string() {
    assert_eq!(ComputedKey::ConversionPrefix.as_str(), "conversion_prefix(name)");
    assert_eq!(
        "conversion_prefix(name)".parse::<ComputedKey>().expect("parse"),
        ComputedKey::ConversionPrefix
    );
}

#[test]
fn source_prop_names_the_read_property_per_key() {
    assert_eq!(ComputedKey::LastSegment.source_prop(), "qname");
    assert_eq!(ComputedKey::ConversionPrefix.source_prop(), "name");
}

#[test]
fn conversion_prefix_pattern_matches_cypher_literal_decoded_form() {
    assert_eq!(CONVERSION_PREFIX_PATTERN, r"^(\w+)_(?:from|to|for|as)_");
}

#[test]
fn evaluate_dispatches_last_segment_to_the_last_segment_helper() {
    let inputs = ["foo::bar::baz", "foo", "", "cfdb_core::qname::last_segment"];
    for q in inputs {
        assert_eq!(ComputedKey::LastSegment.evaluate(q), Some(last_segment(q)));
    }
}

#[test]
fn last_segment_takes_the_text_after_the_last_separator() {
    assert_eq!(last_segment("foo::bar::baz"), "baz");
    assert_eq!(last_segment("foo"), "foo");
    assert_eq!(last_segment(""), "");
    assert_eq!(last_segment("::leading_separator"), "leading_separator");
    assert_eq!(last_segment("trailing_separator::"), "");
    assert_eq!(last_segment("a:b"), "a:b");
    assert_eq!(last_segment("a:::b"), "b");
}

#[test]
fn conversion_prefix_evaluate_returns_whole_match_or_none() {
    assert_eq!(
        ComputedKey::ConversionPrefix.evaluate("compute_0_from_bps").as_deref(),
        Some("compute_0_from_")
    );
    assert_eq!(
        ComputedKey::ConversionPrefix.evaluate("compute_0_from_pct").as_deref(),
        Some("compute_0_from_")
    );
    assert_eq!(ComputedKey::ConversionPrefix.evaluate("qty_to_notional").as_deref(), Some("qty_to_"));
    assert_eq!(ComputedKey::ConversionPrefix.evaluate("uniq_42"), None);
    assert_eq!(ComputedKey::ConversionPrefix.evaluate("DupStruct"), None);
    assert_eq!(ComputedKey::ConversionPrefix.evaluate(""), None);
}

#[test]
fn parse_refuses_near_misses() {
    assert_eq!(
        ComputedKey::parse("last_segment"),
        Err(UnknownComputedKey("last_segment".to_string()))
    );
    assert!(ComputedKey::parse(" last_segment(qname)").is_err());
}

#[test]
fn unknown_computed_key_message_names_the_key_and_the_allowed_set() {
    let e = UnknownComputedKey("parent_qpath(qname)".to_string());
    assert_eq!(
        e.message(),
        "unknown computed key `parent_qpath(qname)` — allowed: last_segment(qname), conversion_prefix(name)"
    );
}

#[test]
fn from_raw_needs_exactly_one_of_prop_and_computed() {
    let both = IndexEntry::from_raw(
        "Item".to_string(),
        Some("qname".to_string()),
        Some("last_segment(qname)".to_string()),
        "n".to_string(),
    );
    assert_eq!(both, Err(IndexEntryError::BothPropAndComputed));
    let neither = IndexEntry::from_raw("Item".to_string(), None, None, "n".to_string());
    assert_eq!(neither, Err(IndexEntryError::NeitherPropNorComputed));
    let prop = IndexEntry::from_raw("Item".to_string(), Some("qname".to_string()), None, "n".to_string());
    assert_eq!(
        prop,
        Ok(IndexEntry::Prop { label: "Item".to_string(), prop: "qname".to_string(), notes: "n".to_string() })
    );
    let computed = IndexEntry::from_raw("Item".to_string(), None, Some("conversion_prefix(name)".to_string()), "n".to_string());
    assert_eq!(
        computed,
        Ok(IndexEntry::Computed {
            label: "Item".to_string(),
            computed: ComputedKey::ConversionPrefix,
            notes: "n".to_string()
        })
    );
    let bogus = IndexEntry::from_raw("Item".to_string(), None, Some("parent_qpath(qname)".to_string()), "n".to_string());
    assert_eq!(
        bogus,
        Err(IndexEntryError::UnknownComputed(UnknownComputedKey("parent_qpath(qname)".to_string())))
    );
}

#[test]
fn index_entry_error_messages() {
    assert_eq!(
        IndexEntryError::BothPropAndComputed.message(),
        "index entry has both `prop` and `computed` set — pick one"
    );
    assert_eq!(
        IndexEntryError::NeitherPropNorComputed.message(),
        "index entry missing both `prop` and `computed` — exactly one required"
    );
    assert!(IndexEntryError::UnknownComputed(UnknownComputedKey("x".to_string())).message().contains("`x`"));
}

#[test]
fn empty_spec_is_empty() {
    assert!(IndexSpec::empty().is_empty());
    let spec = IndexSpec {
        entries: vec![IndexEntry::Prop { label: "Item".to_string(), prop: "qname".to_string(), notes: "n".to_string() }],
    };
    assert!(!spec.is_empty());
    assert_eq!(spec.duplicate(), spec);
}

#[test]
fn load_error_messages_wrap_the_cause() {
    assert_eq!(IndexSpecLoadError::Io("gone".to_string()).message(), "read indexes.toml: gone");
    assert_eq!(IndexSpecLoadError::Toml("bad".to_string()).message(), "parse indexes.toml: bad");
}
