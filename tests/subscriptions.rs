use ratelmq::packets::{ClientId, QoS, SubAckReturnCode, Subscription};
use ratelmq::trie::SubscriptionsRepository;

fn assert_clients(actual: Option<Vec<ClientId>>, expected: Option<Vec<ClientId>>) {
    let a = actual.map(|mut v| {
        v.sort();
        v
    });
    let e = expected.map(|mut v| {
        v.sort();
        v
    });
    println!("Actual: {:?}; Expected: {:?}", &a, &e);
    assert_eq!(a, e);
}

fn subscribe(repo: &mut SubscriptionsRepository, topic: &str, client_id: &str) {
    let subscription = Subscription::new(topic.to_string(), QoS::AtMostOnce);
    let client_id = ClientId::from(client_id);

    let result = repo.subscribe(&client_id, &subscription);
    assert_eq!(result, SubAckReturnCode::SuccessQoS0)
}

#[test]
fn test_subscribe_no_wildcard() {
    let mut repo = SubscriptionsRepository::new();
    let subscription = Subscription::new("asd/zxc/qwe".to_string(), QoS::AtMostOnce);
    let client_id = ClientId::from("client 1");

    let result = repo.subscribe(&client_id, &subscription);

    assert_eq!(result, SubAckReturnCode::SuccessQoS0)
}

#[test]
fn test_subscribed_clients_no_wildcards_matching() {
    let mut repo = SubscriptionsRepository::new();

    subscribe(&mut repo, "a/b/c", "c1");
    subscribe(&mut repo, "a/b/c", "c2");

    assert_clients(
        repo.subscribed_clients(&"a/b/c".to_string()),
        Some(vec!["c1".to_string(), "c2".to_string()]),
    )
}

#[test]
fn test_subscribed_clients_no_wildcards_not_matching() {
    let mut repo = SubscriptionsRepository::new();

    subscribe(&mut repo, "a", "c1");
    subscribe(&mut repo, "a/b", "c2");
    subscribe(&mut repo, "a/b/c/d", "c3");

    assert_clients(repo.subscribed_clients(&"a/b/c".to_string()), Some(vec![]))
}

#[test]
fn test_subscribed_clients_no_wildcards_combined() {
    let mut repo = SubscriptionsRepository::new();

    subscribe(&mut repo, "a/b/c", "c1");
    subscribe(&mut repo, "a/b/d", "c2");
    subscribe(&mut repo, "a/b/c/d", "c3");
    subscribe(&mut repo, "a/b", "c4");

    assert_clients(
        repo.subscribed_clients(&"a/b/c".to_string()),
        Some(vec!["c1".to_string()]),
    )
}

#[test]
fn test_subscribed_clients_wildcard_plus_matching() {
    let mut repo = SubscriptionsRepository::new();

    subscribe(&mut repo, "+/b/c", "c1");
    subscribe(&mut repo, "a/+/c", "c2");
    subscribe(&mut repo, "a/b/+", "c3");
    subscribe(&mut repo, "+/b/+", "c4");
    subscribe(&mut repo, "+/+/+", "c5");

    assert_clients(
        repo.subscribed_clients(&"a/b/c".to_string()),
        Some(vec![
            "c1".to_string(),
            "c2".to_string(),
            "c3".to_string(),
            "c4".to_string(),
            "c5".to_string(),
        ]),
    );
}

#[test]
fn test_subscribed_clients_wildcard_plus_not_matching() {
    let mut repo = SubscriptionsRepository::new();

    subscribe(&mut repo, "+/+/+/+", "c1");
    subscribe(&mut repo, "+/+", "c2");
    subscribe(&mut repo, "+", "c3");
    subscribe(&mut repo, "a/+", "c4");
    subscribe(&mut repo, "a/+/d", "c5");

    assert_clients(repo.subscribed_clients(&"a/b/c".to_string()), Some(vec![]));
}

#[test]
fn test_subscribed_clients_wildcard_plus_combined() {
    let mut repo = SubscriptionsRepository::new();

    subscribe(&mut repo, "a/b/+", "c1");
    subscribe(&mut repo, "+/b/+", "c2");
    subscribe(&mut repo, "+/+/+", "c3");
    subscribe(&mut repo, "+/+/+/+", "cx");
    subscribe(&mut repo, "+/+", "cx");

    assert_clients(
        repo.subscribed_clients(&"a/b/c".to_string()),
        Some(vec!["c1".to_string(), "c2".to_string(), "c3".to_string()]),
    );
}

#[test]
fn test_subscribed_clients_wildcard_hash_matching() {
    let mut repo = SubscriptionsRepository::new();

    subscribe(&mut repo, "a/#", "c1");
    subscribe(&mut repo, "a/b/#", "c2");

    assert_clients(
        repo.subscribed_clients(&"a/b/c".to_string()),
        Some(vec!["c1".to_string(), "c2".to_string()]),
    );
}

#[test]
fn test_subscribed_clients_wildcard_hash_not_matching() {
    let mut repo = SubscriptionsRepository::new();

    subscribe(&mut repo, "a/b/c/#", "c1");
    subscribe(&mut repo, "a/d/#", "c2");
    subscribe(&mut repo, "b/#", "c3");

    assert_clients(repo.subscribed_clients(&"a/b/c".to_string()), Some(vec!["c1".to_string()]));
}

#[test]
fn test_subscribed_clients_wildcard_hash_combined() {
    let mut repo = SubscriptionsRepository::new();

    subscribe(&mut repo, "a/#", "c1");
    subscribe(&mut repo, "a/d/#", "c2");
    subscribe(&mut repo, "b/#", "c3");

    assert_clients(
        repo.subscribed_clients(&"a/b/c".to_string()),
        Some(vec!["c1".to_string()]),
    );
}

#[test]
fn test_subscribed_clients_combined() {
    let mut repo = SubscriptionsRepository::new();

    subscribe(&mut repo, "a/b/c", "c1");
    subscribe(&mut repo, "a/b/d", "cx");

    subscribe(&mut repo, "a/+/+", "c2");
    subscribe(&mut repo, "a/+/d", "cy");

    subscribe(&mut repo, "a/#", "c3");
    subscribe(&mut repo, "a/d/#", "cz");

    assert_clients(
        repo.subscribed_clients(&"a/b/c".to_string()),
        Some(vec!["c1".to_string(), "c2".to_string(), "c3".to_string()]),
    );
}

#[test]
fn hash_matches_the_parent_level_too() {
    let mut repo = SubscriptionsRepository::new();
    subscribe(&mut repo, "a/#", "c1");

    assert_clients(repo.subscribed_clients(&"a".to_string()), Some(vec!["c1".to_string()]));
    assert_clients(repo.subscribed_clients(&"a/b".to_string()), Some(vec!["c1".to_string()]));
    assert_clients(repo.subscribed_clients(&"a/b/c/d".to_string()), Some(vec!["c1".to_string()]));
    assert_clients(repo.subscribed_clients(&"b/x".to_string()), Some(vec![]));
}

#[test]
fn a_client_matching_twice_is_listed_once() {
    let mut repo = SubscriptionsRepository::new();
    subscribe(&mut repo, "a/b/c", "c1");
    subscribe(&mut repo, "a/#", "c1");
    subscribe(&mut repo, "a/+/c", "c1");

    assert_clients(repo.subscribed_clients(&"a/b/c".to_string()), Some(vec!["c1".to_string()]));
}

#[test]
fn subscribing_twice_to_one_filter_is_one_subscription() {
    let mut repo = SubscriptionsRepository::new();
    subscribe(&mut repo, "a/b", "c1");
    subscribe(&mut repo, "a/b", "c1");
    repo.unsubscribe(&"c1".to_string(), &vec!["a/b".to_string()]);

    assert_clients(repo.subscribed_clients(&"a/b".to_string()), Some(vec![]));
}

#[test]
fn reserved_topics_escape_root_wildcards() {
    let mut repo = SubscriptionsRepository::new();
    subscribe(&mut repo, "#", "c1");
    subscribe(&mut repo, "+/info", "c2");
    subscribe(&mut repo, "$SYS/#", "c3");
    subscribe(&mut repo, "$SYS/+", "c4");

    assert_clients(
        repo.subscribed_clients(&"$SYS/info".to_string()),
        Some(vec!["c3".to_string(), "c4".to_string()]),
    );
    assert_clients(
        repo.subscribed_clients(&"x/info".to_string()),
        Some(vec!["c1".to_string(), "c2".to_string()]),
    );
}

#[test]
fn unsubscribe_removes_only_the_named_filters() {
    let mut repo = SubscriptionsRepository::new();
    subscribe(&mut repo, "a/b", "c1");
    subscribe(&mut repo, "a/+", "c1");
    subscribe(&mut repo, "a/b", "c2");

    repo.unsubscribe(&"c1".to_string(), &vec!["a/b".to_string(), "x/y".to_string()]);

    assert_clients(
        repo.subscribed_clients(&"a/b".to_string()),
        Some(vec!["c1".to_string(), "c2".to_string()]),
    );
    repo.unsubscribe(&"c1".to_string(), &vec!["a/+".to_string()]);
    assert_clients(repo.subscribed_clients(&"a/b".to_string()), Some(vec!["c2".to_string()]));
}

#[test]
fn disconnected_forgets_every_subscription_of_the_client() {
    let mut repo = SubscriptionsRepository::new();
    subscribe(&mut repo, "a/b", "c1");
    subscribe(&mut repo, "#", "c1");
    subscribe(&mut repo, "a/b", "c2");

    repo.disconnected(&"c1".to_string());
    assert_clients(repo.subscribed_clients(&"a/b".to_string()), Some(vec!["c2".to_string()]));

    repo.connections_lost(&"c2".to_string());
    assert_clients(repo.subscribed_clients(&"a/b".to_string()), Some(vec![]));
}

#[test]
fn requested_qos_is_granted() {
    let mut repo = SubscriptionsRepository::new();
    let c = "c1".to_string();
    assert_eq!(
        repo.subscribe(&c, &Subscription::new("a".to_string(), QoS::AtLeastOnce)),
        SubAckReturnCode::SuccessQoS1
    );
    assert_eq!(
        repo.subscribe(&c, &Subscription::new("b".to_string(), QoS::ExactlyOnce)),
        SubAckReturnCode::SuccessQoS2
    );
}

#[test]
fn empty_levels_are_levels() {
    let mut repo = SubscriptionsRepository::new();
    subscribe(&mut repo, "a//b", "c1");
    subscribe(&mut repo, "a/+/b", "c2");
    subscribe(&mut repo, "/a", "c3");

    assert_clients(
        repo.subscribed_clients(&"a//b".to_string()),
        Some(vec!["c1".to_string(), "c2".to_string()]),
    );
    assert_clients(repo.subscribed_clients(&"/a".to_string()), Some(vec!["c3".to_string()]));
    assert_clients(repo.subscribed_clients(&"a".to_string()), Some(vec![]));
}
