use route_optimizer::cli;
use route_optimizer::route::{RouteOption, UnorderedRoute};
use route_optimizer::args::{Args, Route};
use route_optimizer::manager::SystemManager;
use route_optimizer::pair::SystemPair;
use route_optimizer::progress::ProgressHolder;
use route_optimizer::shortest::CurrentShortest;
use route_optimizer::system::System;

fn holder_of(names: &[&str]) -> SystemManager {
    let mut holder = SystemManager::new();
    for name in names {
        holder.register_system(&System::new(name));
    }
    holder
}

fn connect(holder: &mut SystemManager, a: &str, b: &str, d: u64) {
    let pair = SystemPair::from_name(holder, &a.to_uppercase(), &b.to_uppercase());
    pair.set_distance(holder, d);
}

fn args_for(route: &str, start: &str, end: Option<&str>) -> Args {
    let mut builder = Args::builder();
    builder.set_route(route).set_start(start);
    if let Some(e) = end {
        builder.set_end(e);
    }
    builder.build().unwrap()
}

#[test]
fn system_name_is_upper_case() {
    let s = System::new("Jita");
    assert_eq!(s.name(), "JITA");
    let s = System::new("bkg-q2");
    assert_eq!(s.name(), "BKG-Q2");
    assert!(System::new("jita") == System::new("JITA"));
    assert!(System::new("jita") != System::new("amarr"));
}

#[test]
fn distance_read_after_write() {
    let mut a = System::new("a");
    let b = System::new("b");
    let c = System::new("c");
    assert_eq!(a.get_distance_to(&b), None);
    a.set_distance_to(&b, 4);
    assert_eq!(a.get_distance_to(&b), Some(4));
    assert_eq!(a.get_distance_to(&c), None);
    a.set_distance_to(&b, 7);
    assert_eq!(a.get_distance_to(&b), Some(7));
}

#[test]
fn pair_distance_is_symmetric() {
    let mut holder = holder_of(&["a", "b", "c"]);
    connect(&mut holder, "a", "c", 9);
    let a = holder.get(&"A".to_string()).clone();
    let c = holder.get(&"C".to_string()).clone();
    assert_eq!(a.get_distance_to(&c), Some(9));
    assert_eq!(c.get_distance_to(&a), Some(9));
    let b = holder.get(&"B".to_string()).clone();
    assert_eq!(a.get_distance_to(&b), None);
}

#[test]
fn pair_to_string() {
    let holder = holder_of(&["jita", "amarr"]);
    let pair = SystemPair::from_name(&holder, &"JITA".to_string(), &"AMARR".to_string());
    assert_eq!(pair.try_to_string(&holder), "( JITA : AMARR )");
    let pair = SystemPair::from_vec(vec![1, 0]);
    assert_eq!(pair.left(), 1);
    assert_eq!(pair.right(), 0);
    assert_eq!(pair.left_rlock(&holder).name(), "AMARR");
    assert_eq!(pair.right_rlock(&holder).name(), "JITA");
}

#[test]
fn registering_a_name_twice_keeps_one_system() {
    let mut holder = holder_of(&["a", "b"]);
    holder.register_system(&System::new("A"));
    assert_eq!(holder.len(), 2);
    assert_eq!(holder.index_of(&"A".to_string()), Some(2));
    assert_eq!(holder.index_of(&"B".to_string()), Some(1));
    assert_eq!(holder.index_of(&"Z".to_string()), None);
}

#[test]
fn registering_again_leaves_earlier_pairs_on_the_replaced_system() {
    let mut holder = holder_of(&["a", "b"]);
    let old_pair = SystemPair::from_name(&holder, &"A".to_string(), &"B".to_string());
    let mut fresh_a = System::new("a");
    fresh_a.set_distance_to(&System::new("c"), 7);
    holder.register_system(&fresh_a);
    // The pair made before reaches the replaced A, as a shared handle would.
    old_pair.set_distance(&mut holder, 3);
    let a = holder.get(&"A".to_string()).clone();
    let b = holder.get(&"B".to_string()).clone();
    assert_eq!(a.get_distance_to(&b), None);
    assert_eq!(a.get_distance_to(&System::new("c")), Some(7));
    assert_eq!(b.get_distance_to(&a), Some(3));
    assert_eq!(old_pair.left_rlock(&holder).get_distance_to(&b), Some(3));
    // A pair made now reaches the registered A.
    let new_pair = SystemPair::from_name(&holder, &"A".to_string(), &"B".to_string());
    assert_eq!((new_pair.left(), new_pair.right()), (2, 1));
    new_pair.set_distance(&mut holder, 4);
    let a = holder.get(&"A".to_string()).clone();
    assert_eq!(a.get_distance_to(&b), Some(4));
    let pairs = holder.all_inter_systems_iter();
    assert_eq!(pairs.len(), 1);
    assert_eq!((pairs[0].left(), pairs[0].right()), (1, 2));
}

#[test]
fn registered_system_is_a_copy_with_its_table() {
    let mut holder = SystemManager::new();
    let mut a = System::new("a");
    a.set_distance_to(&System::new("b"), 5);
    holder.register_systems(&vec![a.clone(), System::new("b")]);
    a.set_distance_to(&System::new("b"), 9);
    let stored = holder.get(&"A".to_string()).clone();
    assert_eq!(stored.get_distance_to(&System::new("b")), Some(5));
    assert_eq!(holder.len(), 2);
}

#[test]
fn register_route_registers_every_system() {
    let mut holder = SystemManager::new();
    let route = Route::new("jita,amarr,jita,hek");
    holder.register_route(&route);
    assert_eq!(holder.len(), 3);
    assert_eq!(holder.system(3).name(), "HEK");
    assert_eq!(holder.index_of(&"JITA".to_string()), Some(2));
}

#[test]
fn permutation_size_hint_is_factorial_of_others() {
    let holder = holder_of(&["a", "b", "c", "d", "e"]);
    assert_eq!(holder.permutation_size_hint(), Some(24));
    let holder = holder_of(&["a"]);
    assert_eq!(holder.permutation_size_hint(), Some(1));
    let names: Vec<String> = (0..36).map(|i| format!("s{i}")).collect();
    let refs: Vec<&str> = names.iter().map(|s| s.as_str()).collect();
    let holder = holder_of(&refs);
    assert_eq!(holder.permutation_size_hint(), None);
    let holder = holder_of(&refs[..35]);
    assert_eq!(holder.permutation_size_hint(), Some(295232799039604140847618609643520000000));
}

#[test]
fn all_pairs_once() {
    let holder = holder_of(&["a", "b", "c", "d"]);
    let pairs = holder.all_inter_systems_iter();
    assert_eq!(pairs.len(), 6);
    let mut seen: Vec<(usize, usize)> = pairs.iter().map(|p| (p.left(), p.right())).collect();
    seen.sort();
    assert_eq!(seen, vec![(0, 1), (0, 2), (0, 3), (1, 2), (1, 3), (2, 3)]);
}

fn named_routes(result: &CurrentShortest, holder: &SystemManager) -> Vec<Vec<String>> {
    let mut routes = result.to_named(holder).routes;
    routes.sort();
    routes
}

#[test]
fn shortest_open_route() {
    // S - A - B - C on a line, plus a long way around.
    let mut holder = holder_of(&["s", "a", "b", "c"]);
    connect(&mut holder, "s", "a", 1);
    connect(&mut holder, "a", "b", 1);
    connect(&mut holder, "b", "c", 1);
    connect(&mut holder, "s", "b", 2);
    connect(&mut holder, "s", "c", 3);
    connect(&mut holder, "a", "c", 2);
    let args = args_for("a,b,c", "s", None);
    let mut progress = ProgressHolder::new();
    let result = holder.build_shortest_path(&args, 1, &mut progress);
    assert_eq!(result.len(), 3);
    assert_eq!(named_routes(&result, &holder), vec![vec!["A".to_string(), "B".to_string(), "C".to_string()]]);
    assert_eq!(progress.done(), 6);
    let reports = progress.take_reports();
    let expected: Vec<(u128, String)> = (0..6u128)
        .map(|i| (i, format!("Building shortest path ( {} )", i)))
        .chain(std::iter::once((6u128, "Shortest path built".to_string())))
        .collect();
    assert_eq!(reports, expected);
}

#[test]
fn search_reports_every_step_th_order_and_unknown_legs() {
    let mut holder = holder_of(&["s", "a", "b", "c"]);
    connect(&mut holder, "s", "a", 1);
    let args = args_for("a,b,c", "s", None);
    let mut progress = ProgressHolder::new();
    progress.set_total(6);
    holder.build_shortest_path(&args, 4, &mut progress);
    let reports = progress.take_reports();
    let skip = |from: &str, to: &str| format!("Distance from '{from}' to '{to}' not set. Skipping");
    assert_eq!(
        reports,
        vec![
            (0, "Building shortest path ( 0 )".to_string()),
            (0, skip("A", "B")),
            (1, skip("A", "C")),
            (2, skip("S", "B")),
            (3, skip("S", "B")),
            (4, "Building shortest path ( 4 )".to_string()),
            (4, skip("S", "C")),
            (5, skip("S", "C")),
            (6, "Shortest path built".to_string()),
        ]
    );
    assert_eq!((progress.total(), progress.done()), (6, 6));
}

#[test]
fn shortest_keeps_ties_and_skips_unknown_legs() {
    let mut holder = holder_of(&["s", "x", "y", "e"]);
    connect(&mut holder, "s", "x", 2);
    connect(&mut holder, "s", "y", 2);
    connect(&mut holder, "x", "y", 1);
    connect(&mut holder, "x", "e", 2);
    connect(&mut holder, "y", "e", 2);
    let args = args_for("x,y", "s", Some("e"));
    let mut progress = ProgressHolder::new();
    let result = holder.build_shortest_path(&args, 1, &mut progress);
    assert_eq!(result.len(), 5);
    assert_eq!(
        named_routes(&result, &holder),
        vec![vec!["X".to_string(), "Y".to_string()], vec!["Y".to_string(), "X".to_string()]]
    );

    // Without the X-Y leg no route is known.
    let mut holder = holder_of(&["s", "x", "y", "e"]);
    connect(&mut holder, "s", "x", 2);
    connect(&mut holder, "s", "y", 2);
    connect(&mut holder, "x", "e", 2);
    connect(&mut holder, "y", "e", 2);
    let result = holder.build_shortest_path(&args, 1, &mut progress);
    assert_eq!(result.len(), u64::MAX);
    assert!(result.inner().1.is_empty());
}

#[test]
fn shortest_round_trip_when_end_is_start() {
    let mut holder = holder_of(&["s", "a", "b"]);
    connect(&mut holder, "s", "a", 1);
    connect(&mut holder, "a", "b", 5);
    connect(&mut holder, "s", "b", 1);
    let args = args_for("a,b", "s", Some("s"));
    let mut progress = ProgressHolder::new();
    let result = holder.build_shortest_path(&args, 2, &mut progress);
    assert_eq!(result.len(), 7);
    assert_eq!(result.inner().1.len(), 2);
}

#[test]
fn current_shortest_keeps_minimum() {
    let mut cs = CurrentShortest::new();
    assert_eq!(cs.len(), u64::MAX);
    assert!(cs.weak_check_registerable(u64::MAX));
    cs.register(&vec![1, 2], 10);
    cs.register(&vec![2, 1], 12);
    assert!(!cs.weak_check_registerable(11));
    cs.register(&vec![3], 10);
    assert_eq!(cs.inner(), (10, vec![vec![1, 2], vec![3]]));
    cs.register(&vec![4], 3);
    assert_eq!(cs.inner(), (3, vec![vec![4]]));
    assert!(cs.weak_check_registerable(3));
}

#[test]
fn registry_from_command_line() {
    let args = cli::Args {
        route: UnorderedRoute::new("jita,amarr"),
        start: System::new("hek"),
        end: Some(System::new("jita")),
        route_option: RouteOption::Fastest,
        avoid: None,
        concurrent: 2,
    };
    let holder = SystemManager::from_cli_args(&args);
    assert_eq!(holder.len(), 3);
    assert!(holder.index_of(&"HEK".to_string()).is_some());
    assert!(holder.has_middle_system(&args.start, &args.end));
    let holder = holder_of(&["hek", "jita"]);
    assert!(!holder.has_middle_system(&args.start, &args.end));
}

#[test]
fn search_checks_the_leg_to_the_end_before_the_middle_legs() {
    let mut holder = holder_of(&["s", "a", "b", "e"]);
    connect(&mut holder, "s", "a", 1);
    let args = args_for("a,b", "s", Some("e"));
    let mut progress = ProgressHolder::new();
    let result = holder.build_shortest_path(&args, 10, &mut progress);
    assert_eq!(result.len(), u64::MAX);
    assert_eq!(
        progress.take_reports(),
        vec![
            (0, "Building shortest path ( 0 )".to_string()),
            (0, "Distance from 'B' to 'E' not set. Skipping".to_string()),
            (1, "Distance from 'S' to 'B' not set. Skipping".to_string()),
            (6, "Shortest path built".to_string()),
        ]
    );
}
