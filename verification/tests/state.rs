use route_optimizer::args::{route_unset_msg, Args};
use route_optimizer::config;
use route_optimizer::fetch::FetchState;
use route_optimizer::progress::{feedback_step, ProgressHolder};
use route_optimizer::route::RouteOption;

#[test]
fn builder_needs_route_and_start() {
    let b = Args::builder();
    assert_eq!(b.build().unwrap_err(), "'route' must be set");
    let mut b = Args::builder();
    b.set_route("jita,amarr");
    assert_eq!(b.build().unwrap_err(), "'start' must be set");
    let mut b = Args::builder();
    b.set_start("hek");
    assert_eq!(b.build().unwrap_err(), "'route' must be set");
    let _ = route_unset_msg;
}

#[test]
fn builder_defaults_and_empty_texts() {
    let mut b = Args::builder();
    b.set_route("jita,amarr").set_start("hek").set_end("");
    let args = b.build().unwrap();
    assert_eq!(args.route_option, RouteOption::Fastest);
    assert_eq!(args.concurrent, config::DEFAULT_PARAREL_REQUEST);
    assert!(args.end.is_none());
    assert_eq!(args.start.name(), "HEK");
    let names: Vec<String> = args.route.systems().iter().map(|s| s.name().clone()).collect();
    assert_eq!(names, vec!["JITA", "AMARR"]);

    let mut b = Args::builder();
    b.set_route("a").set_route("").set_start("b").set_end("c");
    b.set_route_option(&RouteOption::LowNull).set_concurrent(3);
    let args = b.build().unwrap();
    assert_eq!(args.route.systems().len(), 1);
    assert_eq!(args.end.unwrap().name(), "C");
    assert_eq!(args.route_option, RouteOption::LowNull);
    assert_eq!(args.concurrent, 3);
}

#[test]
fn progress_holder_records() {
    let mut p = ProgressHolder::new();
    assert_eq!((p.total(), p.done()), (0, 0));
    p.set_total(120);
    p.feedback(60, "half way");
    assert_eq!((p.total(), p.done()), (120, 60));
    p.feedback(90, "three quarters");
    let reports = p.take_reports();
    assert_eq!(reports, vec![(60, "half way".to_string()), (90, "three quarters".to_string())]);
    assert!(p.take_reports().is_empty());
    assert_eq!((p.total(), p.done()), (120, 90));
}

#[test]
fn feedback_steps() {
    assert_eq!(feedback_step(0), 1);
    assert_eq!(feedback_step(199), 1);
    assert_eq!(feedback_step(4000), 20);
    assert_eq!(feedback_step(u128::MAX), std::cmp::min(1_000_000, std::cmp::max(1, u128::MAX / 200) as usize));
    assert_eq!(feedback_step(200_000_000_000), 1_000_000);
}

#[test]
fn fetch_counters() {
    let mut f = FetchState::new();
    assert_eq!(f.add_fetching(), 0);
    assert_eq!(f.fetching(), 0);
    f.set_total(3);
    assert_eq!(f.total(), 3);
    f.add_fetching();
    f.add_fetching();
    assert_eq!(f.fetching(), 2);
    f.add_success();
    f.add_failure();
    assert_eq!(f.fetching(), 0);
    assert_eq!(f.done(), 2);
}

#[test]
fn heatsink_cools_down_at_the_limit() {
    let mut f = FetchState::new();
    for _ in 0..config::REQUEST_OVERHEAT {
        assert_eq!(f.add_fetching(), 0);
    }
    assert_eq!(f.heat_percentile(), 100);
    assert_eq!(f.add_fetching(), config::REQUEST_OVERHEAT);
    assert_eq!(f.heat_percentile(), 100 / config::REQUEST_OVERHEAT);
    assert_eq!(f.add_fetching(), 0);
}

#[test]
fn counters_add_up_to_started_lookups() {
    let mut f = FetchState::new();
    f.set_total(5);
    for _ in 0..5 {
        f.add_fetching();
    }
    f.add_success();
    f.add_failure();
    f.add_success();
    assert_eq!(f.fetching() as u128 + f.done(), 5);
    assert_eq!((f.fetching(), f.done()), (2, 3));
    assert_eq!(f.total(), 5);
}
