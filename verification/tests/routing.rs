use rlink_sink_conf::sink_config::{
    apply_fetch_result, build_config_url, compute_expression, get_compare_item, get_compare_type,
    get_sink_topic, CompareType, KafkaSinkConfParam, KafkaSinkContext, SinkConfigStore,
};

fn context(expression: &str, topic_true: &str, topic_false: &str) -> KafkaSinkContext {
    KafkaSinkContext {
        application_name: "app".to_string(),
        expression: expression.to_string(),
        topic_true: topic_true.to_string(),
        topic_false: topic_false.to_string(),
    }
}

fn params(pairs: &[(&str, &str)]) -> Vec<(String, String)> {
    pairs.iter().map(|(k, v)| (k.to_string(), v.to_string())).collect()
}

#[test]
fn evaluate_each_operator() {
    assert_eq!(compute_expression("7>5"), true);
    assert_eq!(compute_expression("5>7"), false);
    assert_eq!(compute_expression("5>5"), false);
    assert_eq!(compute_expression("5<7"), true);
    assert_eq!(compute_expression("7<5"), false);
    assert_eq!(compute_expression("5>=5"), true);
    assert_eq!(compute_expression("4>=5"), false);
    assert_eq!(compute_expression("5<=5"), true);
    assert_eq!(compute_expression("6<=5"), false);
}

#[test]
fn evaluate_negative_numbers() {
    assert_eq!(compute_expression("-3>-2"), false);
    assert_eq!(compute_expression("-2>-3"), true);
    assert_eq!(compute_expression("-5<=-5"), true);
    assert_eq!(compute_expression("-9223372036854775808<0"), true);
    assert_eq!(compute_expression("9223372036854775807>9223372036854775806"), true);
}

#[test]
fn evaluate_no_operator_is_true() {
    assert_eq!(compute_expression(""), true);
    assert_eq!(compute_expression("no operators here"), true);
}

#[test]
fn evaluate_non_numeric_side_counts_as_zero() {
    // "abc" parses leniently to 0, and 0 >= 5 is false.
    assert_eq!(compute_expression("abc>=5"), false);
    assert_eq!(compute_expression("abc>=-5"), true);
    assert_eq!(compute_expression("5>=abc"), true);
}

#[test]
fn evaluate_overflowing_literal_counts_as_zero() {
    // One past i64::MAX does not parse, so the left side degrades to 0.
    assert_eq!(compute_expression("9223372036854775808>=5"), false);
}

#[test]
fn operator_precedence_two_char_first() {
    // ">=" must win over its ">" prefix, whitespace trimmed off both sides.
    assert_eq!(get_compare_type("10 >= 5"), CompareType::GreaterEqual(10, 5));
    assert_eq!(get_compare_type("10 <= 5"), CompareType::SmallerEqual(10, 5));
    assert_eq!(get_compare_type("10 > 5"), CompareType::Greater(10, 5));
    assert_eq!(get_compare_type("10 < 5"), CompareType::Smaller(10, 5));
    assert_eq!(get_compare_type("10 5"), CompareType::NoComparison);
    assert_eq!(compute_expression("10 >= 5"), true);
}

#[test]
fn compare_item_splits_and_parses() {
    assert_eq!(get_compare_item("10>=5", ">="), (10, 5));
    assert_eq!(get_compare_item(" -7 < 22 ", "<"), (-7, 22));
    assert_eq!(get_compare_item("abc>1", ">"), (0, 1));
}

#[test]
fn evaluate_edge_expressions() {
    // An empty side parses leniently to 0.
    assert_eq!(compute_expression(">=5"), false);
    assert_eq!(compute_expression("5>="), true);
    // Only whitespace: no operator, so true.
    assert_eq!(compute_expression("   "), true);
    // The first matching operator of the tried order wins the split.
    assert_eq!(compute_expression("1<2>3"), false);
    assert_eq!(compute_expression("5>4>=3"), false);
    // Unicode white space is trimmed off the operands.
    assert_eq!(compute_expression("\u{a0}10\u{a0}>=5"), true);
}

#[test]
fn route_replaces_every_occurrence_of_a_key() {
    let mut store = SinkConfigStore::new();
    store.put(context("x>x", "yes", "no"));
    let topic = get_sink_topic(&store, &params(&[("x", "5")]));
    assert_eq!(topic, "no");
}

#[test]
fn route_before_any_fetch_returns_empty_true_destination() {
    let store = SinkConfigStore::new();
    let topic = get_sink_topic(&store, &params(&[]));
    assert_eq!(topic, "");
}

#[test]
fn route_substitutes_and_picks_destination() {
    let mut store = SinkConfigStore::new();
    store.put(context("timestamp>=100", "topic_new", "topic_old"));
    let topic = get_sink_topic(&store, &params(&[("timestamp", "150")]));
    assert_eq!(topic, "topic_new");
    let topic = get_sink_topic(&store, &params(&[("timestamp", "50")]));
    assert_eq!(topic, "topic_old");
}

#[test]
fn route_is_idempotent_without_refresh() {
    let mut store = SinkConfigStore::new();
    store.put(context("timestamp>=100", "topic_new", "topic_old"));
    let substitutions = params(&[("timestamp", "150")]);
    let first = get_sink_topic(&store, &substitutions);
    let second = get_sink_topic(&store, &substitutions);
    assert_eq!(first, second);
}

#[test]
fn route_applies_every_substitution_in_order() {
    let mut store = SinkConfigStore::new();
    store.put(context("lhs>=rhs", "yes", "no"));
    let topic = get_sink_topic(&store, &params(&[("lhs", "200"), ("rhs", "100")]));
    assert_eq!(topic, "yes");
    let topic = get_sink_topic(&store, &params(&[("lhs", "100"), ("rhs", "200")]));
    assert_eq!(topic, "no");
}

#[test]
fn put_replaces_whole_configuration() {
    let mut store = SinkConfigStore::new();
    store.put(context("timestamp>=100", "a_true", "a_false"));
    store.put(context("timestamp<100", "b_true", "b_false"));
    let topic = get_sink_topic(&store, &params(&[("timestamp", "50")]));
    assert_eq!(topic, "b_true");
    let fetched = store.get();
    assert_eq!(fetched.expression, "timestamp<100");
    assert_eq!(fetched.topic_true, "b_true");
    assert_eq!(fetched.topic_false, "b_false");
}

#[test]
fn empty_store_hands_out_empty_default() {
    let store = SinkConfigStore::new();
    let fetched = store.get();
    assert_eq!(fetched.application_name, "");
    assert_eq!(fetched.expression, "");
    assert_eq!(fetched.topic_true, "");
    assert_eq!(fetched.topic_false, "");
}

#[test]
fn successful_refresh_stores_fetched_configuration() {
    let mut store = SinkConfigStore::new();
    apply_fetch_result(&mut store, Some(context("timestamp>=100", "topic_new", "topic_old")));
    let topic = get_sink_topic(&store, &params(&[("timestamp", "150")]));
    assert_eq!(topic, "topic_new");
}

#[test]
fn failed_refresh_blanks_previous_configuration() {
    // The documented fail-open degrade policy: a failed cycle stores the
    // empty default over the previous configuration.
    let mut store = SinkConfigStore::new();
    store.put(context("timestamp>=100", "topic_new", "topic_old"));
    apply_fetch_result(&mut store, None);
    assert_eq!(get_sink_topic(&store, &params(&[])), "");
    assert_eq!(store.get().expression, "");
}

#[test]
fn empty_substitution_key_interleaves_its_value() {
    // Replacing the empty pattern inserts the value at every character
    // boundary, as `str::replace` does: "5>=3" becomes "X5X>X=X3X", which
    // no longer holds ">=" and falls to ">" with operands 0 and 0.
    let mut store = SinkConfigStore::new();
    store.put(context("5>=3", "yes", "no"));
    let topic = get_sink_topic(&store, &params(&[("", "X")]));
    assert_eq!(topic, "no");
}

#[test]
fn config_url_appends_application_name() {
    let param = KafkaSinkConfParam::new(
        "http://example.com/upgrade/config/name".to_string(),
        "test2".to_string(),
    );
    let url = build_config_url(&param);
    assert_eq!(url, "http://example.com/upgrade/config/name?applicationName=test2");
}
