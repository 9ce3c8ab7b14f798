use specification_metrics::digest::snapshot_key;

#[test]
fn snapshot_key_is_the_blake3_digest_of_the_report_text() {
    assert_eq!(snapshot_key(""), "af1349b9f5f9a1a6a0404dea36dcc9499bcb25c9adc112b7cc9a93cae41f3262");
    assert_eq!(
        snapshot_key("abc"),
        "6437b3ac38465133ffb63b75273a8db548c558465d79db03fd359c6cd5bd9d85"
    );
    assert_eq!(snapshot_key("{\"a\":1}"), snapshot_key("{\"a\":1}"));
    assert_ne!(snapshot_key("{\"a\":1}"), snapshot_key("{\"a\":2}"));
}
