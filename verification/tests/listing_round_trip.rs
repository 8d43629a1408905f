use alma_client::listing::{decode_listing, decode_listing_ids, decode_listing_with_total,
    encode_listing};

#[test]
fn round_trip_listing_with_total() {
    let ids = vec!["ann".to_string(), "bob#2".to_string(), "carol".to_string()];
    let body = encode_listing(&ids, 42);
    let (got, total) = decode_listing_with_total(body.as_str()).unwrap();
    assert_eq!(got, ids);
    assert_eq!(total, 42);
}

#[test]
fn round_trip_empty_listing() {
    let ids: Vec<String> = vec![];
    let body = encode_listing(&ids, 0);
    assert_eq!(body, "<users total_record_count=\"0\"></users>");
    let (got, total) = decode_listing_with_total(body.as_str()).unwrap();
    assert!(got.is_empty());
    assert_eq!(total, 0);
}

#[test]
fn missing_total_is_a_decode_failure() {
    let body = "<users><primary_id>u1</primary_id><primary_id>u2</primary_id></users>";
    assert!(decode_listing_with_total(body).is_err());
    // The identifiers themselves still decode.
    let ids = decode_listing_ids(body).unwrap();
    assert_eq!(ids, vec!["u1".to_string(), "u2".to_string()]);
    let (_, total) = decode_listing(body).unwrap();
    assert!(total.is_none());
}

#[test]
fn decoder_tolerates_other_markup_and_text() {
    let body = "<users total_record_count=\"2\">\n  <user>\n    <primary_id>abc</primary_id>\n    <status>ACTIVE</status>\n  </user>\n  <user><primary_id>def</primary_id></user>\n</users>";
    let (ids, total) = decode_listing_with_total(body).unwrap();
    assert_eq!(ids, vec!["abc".to_string(), "def".to_string()]);
    assert_eq!(total, 2);
}

#[test]
fn malformed_markup_is_a_decode_failure() {
    assert!(decode_listing("<users total_record_count=\"2\"").is_err());
    assert!(decode_listing("<primary_id><users></users></primary_id>").is_err());
}

#[test]
fn unparseable_total_attribute_is_ignored() {
    let body = "<users total_record_count=\"many\"><primary_id>x</primary_id></users>";
    let (ids, total) = decode_listing(body).unwrap();
    assert_eq!(ids, vec!["x".to_string()]);
    assert!(total.is_none());
    assert!(decode_listing_with_total(body).is_err());
}

#[test]
fn later_listing_element_overrides_total() {
    let body = "<users total_record_count=\"7\"></users><users total_record_count=\"9\"></users>";
    let (_, total) = decode_listing(body).unwrap();
    assert_eq!(total, Some(9));
}

#[test]
fn self_closing_identifier_element_yields_no_identifier() {
    let body = "<users total_record_count=\"0\"><primary_id/></users>";
    let (ids, total) = decode_listing_with_total(body).unwrap();
    assert!(ids.is_empty());
    assert_eq!(total, 0);
}

#[test]
fn self_closing_listing_element_advertises_no_total() {
    let (ids, total) = decode_listing("<users total_record_count=\"3\"/>").unwrap();
    assert!(ids.is_empty());
    assert!(total.is_none());
}

#[test]
fn prolog_and_comments_are_skipped() {
    let body = "<?xml version=\"1.0\" encoding=\"UTF-8\"?>\n<!-- a note with a > inside -->\n<users total_record_count=\"1\"><primary_id>u1</primary_id></users>";
    let (ids, total) = decode_listing_with_total(body).unwrap();
    assert_eq!(ids, vec!["u1".to_string()]);
    assert_eq!(total, 1);
}

#[test]
fn unterminated_comment_is_a_decode_failure() {
    assert!(decode_listing("<!-- never closed <users></users>").is_err());
}

#[test]
fn entity_references_in_identifiers_are_resolved() {
    let body = "<users total_record_count=\"1\"><primary_id>a&amp;b&lt;c&gt;d&apos;e&quot;f</primary_id></users>";
    let (ids, _) = decode_listing_with_total(body).unwrap();
    assert_eq!(ids, vec!["a&b<c>d'e\"f".to_string()]);
}

#[test]
fn empty_identifier_element_yields_empty_identifier() {
    let body = "<users total_record_count=\"1\"><primary_id></primary_id></users>";
    let (ids, total) = decode_listing_with_total(body).unwrap();
    assert_eq!(ids, vec![String::new()]);
    assert_eq!(total, 1);
}
