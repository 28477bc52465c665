use route_optimizer::cli;
use route_optimizer::config;
use route_optimizer::manager::SystemManager;
use route_optimizer::pair::SystemPair;
use route_optimizer::request::{avoid_to_embed, make_url};
use route_optimizer::route::{avoid_system_as_url_string, RouteOption, UnorderedRoute};
use route_optimizer::system::System;
use route_optimizer::utils::{join_strings, route_to_gatecheck_url, route_to_url};

fn names(u: &UnorderedRoute) -> Vec<String> {
    u.systems().iter().map(|s| s.name().clone()).collect()
}

#[test]
fn unordered_route_keeps_first_of_each_name() {
    let u = UnorderedRoute::new("jita,Amarr,JITA,hek");
    assert_eq!(names(&u), vec!["JITA", "AMARR", "HEK"]);
    let u = UnorderedRoute::new("");
    assert_eq!(names(&u), vec![""]);
}

#[test]
fn avoid_fragment() {
    assert_eq!(avoid_system_as_url_string(&None), "");
    let u = UnorderedRoute::new("rancer,tama");
    assert_eq!(avoid_system_as_url_string(&Some(u)), ":-RANCER:-TAMA");
}

#[test]
fn route_option_fragments() {
    assert_eq!(RouteOption::Fastest.as_url(), "");
    assert_eq!(RouteOption::Highsec.as_url(), "2:");
    assert_eq!(RouteOption::LowNull.as_url(), "3:");
}

fn cli_args(option: RouteOption, avoid: Option<&str>) -> cli::Args {
    cli::Args {
        route: UnorderedRoute::new("jita,amarr"),
        start: System::new("hek"),
        end: None,
        route_option: option,
        avoid: avoid.map(UnorderedRoute::new),
        concurrent: config::DEFAULT_PARAREL_REQUEST,
    }
}

#[test]
fn route_search_url() {
    let mut holder = SystemManager::new();
    holder.register_system(&System::new("jita"));
    holder.register_system(&System::new("amarr"));
    let pair = SystemPair::from_vec(vec![0, 1]);
    let args = cli_args(RouteOption::Highsec, Some("rancer"));
    assert_eq!(avoid_to_embed(&args), ":-RANCER");
    assert_eq!(make_url(&holder, &pair, &args), "https://evemaps.dotlan.net/route/2:JITA:AMARR:-RANCER");
    let args = cli_args(RouteOption::Fastest, None);
    assert_eq!(make_url(&holder, &pair, &args), "https://evemaps.dotlan.net/route/JITA:AMARR");
}

#[test]
fn joined_strings() {
    let v: Vec<String> = vec![];
    assert_eq!(join_strings(&v, ','), "");
    let v = vec!["a".to_string()];
    assert_eq!(join_strings(&v, ','), "a");
    let v = vec!["a".to_string(), "".to_string(), "c".to_string()];
    assert_eq!(join_strings(&v, ':'), "a::c");
}

#[test]
fn old_route_urls() {
    let route = vec!["Amarr".to_string(), "Hek".to_string()];
    assert_eq!(
        route_to_url(&"Jita".to_string(), &"Dodixie".to_string(), RouteOption::LowNull, &route),
        "https://evemaps.dotlan.net/route/3:Jita:Amarr:Hek:Dodixie"
    );
    assert_eq!(
        route_to_url(&String::new(), &String::new(), RouteOption::Fastest, &route),
        "https://evemaps.dotlan.net/route/Amarr:Hek"
    );
    assert_eq!(
        route_to_gatecheck_url(&"Jita".to_string(), &"Dodixie".to_string(), RouteOption::Highsec, &route),
        "https://eve-gatecheck.space/eve/#Jita:Amarr,Hek,Dodixie:secure"
    );
    assert_eq!(
        route_to_gatecheck_url(&String::new(), &String::new(), RouteOption::Fastest, &vec!["A".to_string()]),
        "https://eve-gatecheck.space/eve/#A::shortest"
    );
}
