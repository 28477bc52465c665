use route_optimizer::state::{all_routes, route_count, split_route, split_whole_route, whole_routes, CurrentShortest};

#[test]
fn route_names_split() {
    assert_eq!(split_route("jita,amarr,hek"), vec!["jita", "amarr", "hek"]);
    assert_eq!(split_route(""), vec![""]);
}

#[test]
fn every_order_once() {
    let parsed = split_route("a,b,c");
    let mut routes = all_routes(&parsed);
    assert_eq!(routes.len(), 6);
    routes.sort();
    routes.dedup();
    assert_eq!(routes.len(), 6);
    assert!(routes.contains(&vec!["c".to_string(), "a".to_string(), "b".to_string()]));
    assert_eq!(all_routes(&Vec::new()), vec![Vec::<String>::new()]);
}

#[test]
fn order_counts() {
    assert_eq!(route_count(0), 1);
    assert_eq!(route_count(5), 120);
    assert_eq!(route_count(20), 2432902008176640000);
    assert_eq!(route_count(21), usize::MAX);
    let cs = CurrentShortest::new();
    assert_eq!(cs.length, usize::MAX);
    assert!(cs.routes.is_empty());
}

#[test]
fn orders_come_in_lexicographic_order() {
    let parsed = split_route("a,b,c");
    let routes = all_routes(&parsed);
    let expected: Vec<Vec<String>> = ["abc", "acb", "bac", "bca", "cab", "cba"]
        .iter()
        .map(|w| w.chars().map(|c| c.to_string()).collect())
        .collect();
    assert_eq!(routes, expected);
}

#[test]
fn whole_route_text_splits_at_colons() {
    assert_eq!(split_whole_route("Jita:Amarr"), vec!["Jita", "Amarr"]);
    assert_eq!(split_whole_route("Jita,Amarr"), vec!["Jita,Amarr"]);
    assert_eq!(
        whole_routes("Jita:Amarr"),
        vec![vec!["Jita".to_string(), "Amarr".to_string()], vec!["Amarr".to_string(), "Jita".to_string()]]
    );
    assert_eq!(whole_routes("a:b:c").len(), 6);
}
