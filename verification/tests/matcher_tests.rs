use object_system::subscription::{
    match_hierarchical_subscription, routing_decision, BusinessSubscription,
};

fn bs(bs: &str) -> BusinessSubscription {
    BusinessSubscription::String(bs.to_string())
}

fn bs_list(bs_vec: Vec<BusinessSubscription>) -> BusinessSubscription {
    BusinessSubscription::List(bs_vec)
}

#[test]
fn match_hierarchical_equal() {
    assert!(match_hierarchical_subscription(bs("routing/subscribe"), bs("routing/subscribe")) == true);
}

#[test]
fn match_hierarchical_kleene_star() {
    assert!(match_hierarchical_subscription(bs("routing/*"), bs("routing/subscribe")));
}

#[test]
fn match_hierarchical_kleene_star_shouldnt_work() {
    assert!(!match_hierarchical_subscription(bs("routing/subscribe"), bs("routing/*")));
}

#[test]
fn match_hierarchical_kleene_star_should_match_anything() {
    assert!(match_hierarchical_subscription(bs("*"), bs("routing/subscribe")));
    assert!(match_hierarchical_subscription(bs("*"), bs("services/discovery")));
    assert!(match_hierarchical_subscription(bs("*"), bs("")));
}

#[test]
fn routing_decision_should_work_with_events() {
    assert!(routing_decision(None, Some("routing/announcement"), None, &bs_list(vec![bs("@routing/*")])));

    assert!(!routing_decision(None, Some("routing/announcement"), None, &bs_list(vec![bs("!@routing/*")])));

    assert!(!routing_decision(None, Some("services/discovery"), None, &bs_list(vec![bs("@routing/*")])));
}

#[test]
fn routing_decision_should_work_with_natures() {
    assert!(routing_decision(Some(vec!["hasselhoff"]), None, None, &bs_list(vec![bs("#hasselhoff")])));

    assert!(!routing_decision(Some(vec!["hasselhoff"]), None, None, &bs_list(vec![bs("!#hasselhoff")])));
}

#[test]
fn routing_decision_should_work_with_types() {
    assert!(routing_decision(None, None, Some("text/plain"), &bs_list(vec![bs("text/*")])));

    assert!(!routing_decision(None, None, Some("text/plain"), &bs_list(vec![bs("!text/*")])));
}

#[test]
fn prefix_patterns_match_longer_inputs() {
    assert!(match_hierarchical_subscription(bs("a/*"), bs("a/b/c")));
    assert!(match_hierarchical_subscription(bs("a/b"), bs("a/b/c")));
    assert!(!match_hierarchical_subscription(bs("a/b/c"), bs("a/b")));
}

#[test]
fn type_parameters_are_stripped_before_matching() {
    assert!(routing_decision(None, None, Some("text/plain; charset=utf-8"), &bs_list(vec![bs("text/*")])));
}

#[test]
fn later_rules_override_earlier_ones() {
    assert!(routing_decision(
        None,
        Some("routing/announcement"),
        None,
        &bs_list(vec![bs("!@routing/*"), bs("@routing/announcement")]),
    ));
    assert!(!routing_decision(
        None,
        Some("routing/announcement"),
        None,
        &bs_list(vec![bs("@routing/*"), bs("!@routing/announcement")]),
    ));
}

#[test]
fn bare_star_rule_passes_without_a_payload_type() {
    assert!(routing_decision(None, Some("ping"), None, &bs_list(vec![bs("*")])));
}

#[test]
fn nested_bundles_never_pass() {
    assert!(!routing_decision(
        None,
        Some("routing/announcement"),
        None,
        &bs_list(vec![bs_list(vec![bs("@routing/*")])]),
    ));
    assert!(!routing_decision(None, Some("ping"), None, &bs("*")));
}
