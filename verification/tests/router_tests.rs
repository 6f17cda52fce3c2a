use radix_router::method::Method;
use radix_router::tree::{Node, RouteError};

fn params_of(res: &radix_router::tree::SearchResult<&'static str>) -> Vec<(String, String)> {
    res.params().iter().map(|p| (p.name().clone(), p.value().clone())).collect()
}

#[test]
fn method_as_str_round_trip() {
    let all = [
        (Method::Get, "GET"),
        (Method::Post, "POST"),
        (Method::Head, "HEAD"),
        (Method::Put, "PUT"),
        (Method::Patch, "PATCH"),
        (Method::Delete, "DELETE"),
        (Method::Options, "OPTIONS"),
        (Method::Connect, "CONNECT"),
        (Method::Trace, "TRACE"),
    ];
    for (m, s) in all {
        assert_eq!(m.as_str(), s);
        assert_eq!(Method::from_name(s), m);
    }
}

#[test]
fn method_from_name_is_case_insensitive() {
    assert_eq!(Method::from_name("get"), Method::Get);
    assert_eq!(Method::from_name("Post"), Method::Post);
    assert_eq!(Method::from_name("dElEtE"), Method::Delete);
    assert_eq!(Method::from_name("options"), Method::Options);
}

#[test]
fn method_unrecognized_falls_back_to_get() {
    assert_eq!(Method::from_name(""), Method::Get);
    assert_eq!(Method::from_name("BREW"), Method::Get);
    assert_eq!(Method::from_name("GETT"), Method::Get);
    assert_eq!(Method::default(), Method::Get);
}

#[test]
fn root_path_can_carry_a_handler() {
    let mut t: Node<&'static str> = Node::new();
    assert!(t.search(Method::Get, "/").is_none());
    assert!(t.insert(Method::Get, "/", "ROOT").is_ok());
    assert_eq!(*t.search(Method::Get, "/").unwrap().value(), "ROOT");
    assert!(t.search(Method::Post, "/").is_none());
    t.remove("/");
    assert!(t.search(Method::Get, "/").is_none());
}

#[test]
fn insert_and_search_static_route() {
    let mut t: Node<&'static str> = Node::new();
    assert!(t.insert(Method::Get, "/hello", "H").is_ok());
    let res = t.search(Method::Get, "/hello").unwrap();
    assert_eq!(*res.value(), "H");
    assert!(res.params().is_empty());
    assert!(t.search(Method::Get, "/hell").is_none());
    assert!(t.search(Method::Get, "/hello/x").is_none());
}

#[test]
fn search_without_leading_slash() {
    let mut t: Node<&'static str> = Node::new();
    assert!(t.insert(Method::Get, "hello", "H").is_ok());
    assert_eq!(*t.search(Method::Get, "/hello").unwrap().value(), "H");
    assert_eq!(*t.search(Method::Get, "hello").unwrap().value(), "H");
}

#[test]
fn wrong_method_is_not_found() {
    let mut t: Node<&'static str> = Node::new();
    assert!(t.insert(Method::Get, "/x", "H").is_ok());
    assert!(t.search(Method::Post, "/x").is_none());
}

#[test]
fn param_bindings_keep_pattern_order() {
    let mut t: Node<&'static str> = Node::new();
    assert!(t.insert(Method::Get, "/users/$id/posts/$postId", "P").is_ok());
    let res = t.search(Method::Get, "/users/42/posts/7").unwrap();
    assert_eq!(*res.value(), "P");
    assert_eq!(
        params_of(&res),
        vec![
            ("id".to_string(), "42".to_string()),
            ("postId".to_string(), "7".to_string()),
        ]
    );
}

#[test]
fn duplicate_registration_fails_and_first_survives() {
    let mut t: Node<&'static str> = Node::new();
    assert!(t.insert(Method::Get, "/dup", "FIRST").is_ok());
    assert_eq!(
        t.insert(Method::Get, "/dup", "SECOND"),
        Err(RouteError::DuplicateRoute)
    );
    assert_eq!(*t.search(Method::Get, "/dup").unwrap().value(), "FIRST");
}

#[test]
fn ambiguous_param_names_fail() {
    let mut t: Node<&'static str> = Node::new();
    assert!(t.insert(Method::Get, "/a/$x", "X").is_ok());
    assert_eq!(
        t.insert(Method::Post, "/a/$y", "Y"),
        Err(RouteError::AmbiguousParams)
    );
}

#[test]
fn same_param_name_for_two_methods_is_fine() {
    let mut t: Node<&'static str> = Node::new();
    assert!(t.insert(Method::Get, "/a/$x", "GX").is_ok());
    assert!(t.insert(Method::Post, "/a/$x", "PX").is_ok());
    assert_eq!(*t.search(Method::Get, "/a/1").unwrap().value(), "GX");
    assert_eq!(*t.search(Method::Post, "/a/2").unwrap().value(), "PX");
}

#[test]
fn malformed_wildcard_fails() {
    let mut t: Node<&'static str> = Node::new();
    assert_eq!(
        t.insert(Method::Get, "/a/*tail", "W"),
        Err(RouteError::MalformedWildcard)
    );
}

#[test]
fn remove_clears_every_method_at_the_exact_path() {
    let mut t: Node<&'static str> = Node::new();
    assert!(t.insert(Method::Get, "/gone", "G").is_ok());
    assert!(t.insert(Method::Post, "/gone", "P").is_ok());
    assert!(t.insert(Method::Get, "/gonzo", "Z").is_ok());
    t.remove("/gone");
    assert!(t.search(Method::Get, "/gone").is_none());
    assert!(t.search(Method::Post, "/gone").is_none());
    assert_eq!(*t.search(Method::Get, "/gonzo").unwrap().value(), "Z");
}

#[test]
fn wildcard_removal_drops_all_methods_in_one_call() {
    let mut t: Node<&'static str> = Node::new();
    assert!(t.insert(Method::Get, "/files/*", "GW").is_ok());
    assert!(t.insert(Method::Post, "/files/*", "PW").is_ok());
    assert_eq!(*t.search(Method::Get, "/files/a/b").unwrap().value(), "GW");
    assert_eq!(*t.search(Method::Post, "/files/a/b").unwrap().value(), "PW");
    t.remove("/files/*");
    assert!(t.search(Method::Get, "/files/a/b").is_none());
    assert!(t.search(Method::Post, "/files/a/b").is_none());
}

#[test]
fn shared_prefixes_split_without_disturbing_each_other() {
    let mut t: Node<&'static str> = Node::new();
    assert!(t.insert(Method::Get, "/apple", "A1").is_ok());
    assert!(t.insert(Method::Get, "/application", "A2").is_ok());
    assert_eq!(*t.search(Method::Get, "/apple").unwrap().value(), "A1");
    assert_eq!(*t.search(Method::Get, "/application").unwrap().value(), "A2");
    assert!(t.insert(Method::Get, "/ape", "A3").is_ok());
    assert_eq!(*t.search(Method::Get, "/apple").unwrap().value(), "A1");
    assert_eq!(*t.search(Method::Get, "/application").unwrap().value(), "A2");
    assert_eq!(*t.search(Method::Get, "/ape").unwrap().value(), "A3");
    assert!(t.search(Method::Get, "/app").is_none());
    assert!(t.search(Method::Get, "/ap").is_none());
}

#[test]
fn empty_param_segment_never_matches() {
    let mut t: Node<&'static str> = Node::new();
    assert!(t.insert(Method::Get, "/users/$id", "U").is_ok());
    assert!(t.search(Method::Get, "/users/").is_none());
    assert!(t.search(Method::Get, "/users").is_none());
    assert_eq!(*t.search(Method::Get, "/users/7").unwrap().value(), "U");
}

#[test]
fn removing_an_unregistered_path_is_a_no_op() {
    let mut t: Node<&'static str> = Node::new();
    assert!(t.insert(Method::Get, "/keep/me", "K").is_ok());
    t.remove("/not/there");
    t.remove("/keep/mermaid");
    t.remove("/keep");
    assert_eq!(*t.search(Method::Get, "/keep/me").unwrap().value(), "K");
}

#[test]
fn static_param_wildcard_precedence() {
    let mut t: Node<&'static str> = Node::new();
    assert!(t.insert(Method::Get, "/a/b", "H1").is_ok());
    assert!(t.insert(Method::Get, "/a/$p", "H2").is_ok());
    assert!(t.insert(Method::Get, "/a/*", "H3").is_ok());
    let r1 = t.search(Method::Get, "/a/b").unwrap();
    assert_eq!(*r1.value(), "H1");
    assert!(r1.params().is_empty());
    let r2 = t.search(Method::Get, "/a/c").unwrap();
    assert_eq!(*r2.value(), "H2");
    assert_eq!(params_of(&r2), vec![("p".to_string(), "c".to_string())]);
    let r3 = t.search(Method::Get, "/a/b/c").unwrap();
    assert_eq!(*r3.value(), "H3");
}

#[test]
fn param_route_wins_over_static_leaf_lacking_the_method() {
    let mut t: Node<&'static str> = Node::new();
    assert!(t.insert(Method::Get, "/a/b", "STATIC-GET").is_ok());
    assert!(t.insert(Method::Post, "/a/$p", "PARAM-POST").is_ok());
    let r = t.search(Method::Post, "/a/b").unwrap();
    assert_eq!(*r.value(), "PARAM-POST");
    assert_eq!(params_of(&r), vec![("p".to_string(), "b".to_string())]);
}

#[test]
fn wildcard_collects_params_bound_on_the_way() {
    let mut t: Node<&'static str> = Node::new();
    assert!(t.insert(Method::Get, "/v/$ver/*", "W").is_ok());
    let r = t.search(Method::Get, "/v/2/anything/else").unwrap();
    assert_eq!(*r.value(), "W");
    assert_eq!(params_of(&r), vec![("ver".to_string(), "2".to_string())]);
}

#[test]
fn update_swaps_the_value_in_place() {
    let mut t: Node<&'static str> = Node::new();
    assert!(t.insert(Method::Get, "/swap", "OLD").is_ok());
    assert!(t.update(Method::Get, "/swap", "NEW").is_ok());
    assert_eq!(*t.search(Method::Get, "/swap").unwrap().value(), "NEW");
}

#[test]
fn update_of_missing_route_fails() {
    let mut t: Node<&'static str> = Node::new();
    assert!(t.insert(Method::Get, "/here", "H").is_ok());
    assert_eq!(
        t.update(Method::Post, "/here", "X"),
        Err(RouteError::UnknownRoute)
    );
    assert_eq!(
        t.update(Method::Get, "/nowhere", "X"),
        Err(RouteError::UnknownRoute)
    );
    assert_eq!(*t.search(Method::Get, "/here").unwrap().value(), "H");
}

#[test]
fn update_reaches_param_and_wildcard_routes() {
    let mut t: Node<&'static str> = Node::new();
    assert!(t.insert(Method::Get, "/p/$x", "P0").is_ok());
    assert!(t.insert(Method::Get, "/w/*", "W0").is_ok());
    assert!(t.update(Method::Get, "/p/$x", "P1").is_ok());
    assert!(t.update(Method::Get, "/w/*", "W1").is_ok());
    assert_eq!(*t.search(Method::Get, "/p/k").unwrap().value(), "P1");
    assert_eq!(*t.search(Method::Get, "/w/a/b").unwrap().value(), "W1");
    assert_eq!(
        t.update(Method::Post, "/w/*", "W2"),
        Err(RouteError::UnknownRoute)
    );
}

#[test]
fn removal_then_reinsertion_works() {
    let mut t: Node<&'static str> = Node::new();
    assert!(t.insert(Method::Get, "/cycle/a", "1").is_ok());
    t.remove("/cycle/a");
    assert!(t.insert(Method::Get, "/cycle/a", "2").is_ok());
    assert_eq!(*t.search(Method::Get, "/cycle/a").unwrap().value(), "2");
}

#[test]
fn removal_merges_split_chains() {
    let mut t: Node<&'static str> = Node::new();
    assert!(t.insert(Method::Get, "/romane", "R1").is_ok());
    assert!(t.insert(Method::Get, "/romanus", "R2").is_ok());
    t.remove("/romane");
    assert!(t.search(Method::Get, "/romane").is_none());
    assert_eq!(*t.search(Method::Get, "/romanus").unwrap().value(), "R2");
}

#[test]
fn deep_nesting_with_multiple_branch_kinds() {
    let mut t: Node<u64> = Node::new();
    assert!(t.insert(Method::Get, "/api/v1/users", 1).is_ok());
    assert!(t.insert(Method::Get, "/api/v1/users/$id", 2).is_ok());
    assert!(t.insert(Method::Get, "/api/v1/users/$id/posts", 3).is_ok());
    assert!(t.insert(Method::Get, "/api/*", 4).is_ok());
    assert_eq!(*t.search(Method::Get, "/api/v1/users").unwrap().value(), 1);
    assert_eq!(*t.search(Method::Get, "/api/v1/users/9").unwrap().value(), 2);
    assert_eq!(
        *t.search(Method::Get, "/api/v1/users/9/posts").unwrap().value(),
        3
    );
    assert_eq!(*t.search(Method::Get, "/api/v2/other").unwrap().value(), 4);
    assert!(t.search(Method::Get, "/apx").is_none());
}
