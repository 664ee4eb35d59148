use localcodepilot::environments::Environment;

#[test]
fn reading_a_variable_gives_what_was_set() {
    let mut env = Environment::default();
    assert_eq!(env.get("PORT"), None);
    env.set("PORT".to_string(), "3000".to_string());
    env.set("APP_ENV".to_string(), "local".to_string());
    assert_eq!(env.get("PORT"), Some("3000"));
    env.set("PORT".to_string(), "8080".to_string());
    assert_eq!(env.get("PORT"), Some("8080"));
    assert_eq!(env.get("APP_ENV"), Some("local"));
    assert_eq!(env.get("port"), None);
}

#[test]
fn variables_are_kept_in_name_order() {
    let mut env = Environment::default();
    for (key, value) in [("b", "2"), ("a", "1"), ("ab", "3"), ("B", "4"), ("é", "5"), ("a", "6")] {
        env.set(key.to_string(), value.to_string());
    }
    let pairs: Vec<(&str, &str)> = env
        .values()
        .iter()
        .map(|(k, v)| (k.as_str(), v.as_str()))
        .collect();
    assert_eq!(pairs, [("B", "4"), ("a", "6"), ("ab", "3"), ("b", "2"), ("é", "5")]);
    let copy = env.clone();
    assert_eq!(copy.get("ab"), Some("3"));
    assert_eq!(copy.values().len(), 5);
}

#[test]
fn setting_different_variables_in_either_order_gives_the_same_environment() {
    let mut first = Environment::default();
    first.set("A".to_string(), "1".to_string());
    first.set("B".to_string(), "2".to_string());
    let mut second = Environment::default();
    second.set("B".to_string(), "2".to_string());
    second.set("A".to_string(), "1".to_string());
    assert_eq!(first.values(), second.values());
}

#[test]
fn the_last_value_set_wins() {
    let mut twice = Environment::default();
    twice.set("PORT".to_string(), "3000".to_string());
    twice.set("PORT".to_string(), "8080".to_string());
    let mut once = Environment::default();
    once.set("PORT".to_string(), "8080".to_string());
    assert_eq!(twice.values(), once.values());
}
