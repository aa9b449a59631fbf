use chronicle_broker::composition::{AppsBuilder, CompositionError};
use chronicle_broker::launcher::{Apps, Event, Reaction};

fn s(name: &str) -> String {
    name.to_string()
}

fn names(list: &[&str]) -> Vec<String> {
    list.iter().map(|name| name.to_string()).collect()
}

fn node() -> Apps {
    AppsBuilder::new()
        .app(s("broker"), names(&["scylla"]))
        .app(s("api"), names(&["scylla"]))
        .app(s("scylla"), vec![])
        .build()
        .unwrap()
}

#[test]
fn storage_starts_before_what_depends_on_it() {
    let apps = node();
    assert_eq!(apps.app_count(), 3);
    assert_eq!(apps.startup_order(), &names(&["scylla", "broker", "api"]));
}

#[test]
fn a_chain_starts_from_its_end() {
    let apps = AppsBuilder::new()
        .app(s("a"), names(&["b"]))
        .app(s("b"), names(&["c"]))
        .app(s("c"), names(&["d"]))
        .app(s("d"), vec![])
        .build()
        .unwrap();
    assert_eq!(apps.startup_order(), &names(&["d", "c", "b", "a"]));
}

#[test]
fn an_empty_node_is_composed() {
    let builder = AppsBuilder::new();
    assert_eq!(builder.app_count(), 0);
    let apps = builder.build().unwrap();
    assert_eq!(apps.app_count(), 0);
    assert!(apps.startup_order().is_empty());
}

#[test]
fn a_circle_is_rejected() {
    let composed = AppsBuilder::new()
        .app(s("a"), names(&["b"]))
        .app(s("b"), names(&["c"]))
        .app(s("c"), names(&["a"]))
        .app(s("d"), vec![])
        .build();
    assert_eq!(composed.unwrap_err(), CompositionError::CompositionCycle);
}

#[test]
fn an_application_that_needs_itself_is_rejected() {
    let composed = AppsBuilder::new().app(s("a"), names(&["a"])).build();
    assert_eq!(composed.unwrap_err(), CompositionError::CompositionCycle);
}

#[test]
fn an_unknown_dependency_is_rejected() {
    let composed = AppsBuilder::new().app(s("a"), names(&["b"])).build();
    assert_eq!(composed.unwrap_err(), CompositionError::UnknownDependency);
}

#[test]
fn a_second_declaration_replaces_the_first() {
    let builder = AppsBuilder::new()
        .app(s("a"), names(&["b"]))
        .app(s("b"), names(&["a"]))
        .app(s("a"), vec![]);
    assert_eq!(builder.app_count(), 2);
    let apps = builder.build().unwrap();
    assert_eq!(apps.startup_order(), &names(&["a", "b"]));
}

#[test]
fn register_app_tells_the_dashboards() {
    let mut apps = node();
    assert_eq!(apps.one_for_one(Event::RegisterDashboard(s("web"))), Reaction::Idle);
    assert_eq!(apps.one_for_one(Event::RegisterDashboard(s("cli"))), Reaction::Idle);
    assert_eq!(apps.one_for_one(Event::RegisterDashboard(s("web"))), Reaction::Idle);
    assert!(!apps.is_registered(&s("broker")));
    assert_eq!(
        apps.one_for_one(Event::RegisterApp(s("broker"))),
        Reaction::Started { app: s("broker"), dashboards: names(&["web", "cli"]) }
    );
    assert!(apps.is_registered(&s("broker")));
}

#[test]
fn start_app_starts_and_tells_the_dashboards() {
    let mut apps = node();
    apps.one_for_one(Event::RegisterDashboard(s("web")));
    assert_eq!(
        apps.one_for_one(Event::StartApp(s("scylla"))),
        Reaction::Start { app: s("scylla"), dashboards: names(&["web"]) }
    );
    assert!(!apps.is_registered(&s("scylla")));
}

#[test]
fn an_unrequested_shutdown_restarts_the_app() {
    let mut apps = node();
    apps.one_for_one(Event::RegisterDashboard(s("web")));
    apps.one_for_one(Event::RegisterApp(s("broker")));
    assert_eq!(
        apps.one_for_one(Event::AknShutdown(s("broker"))),
        Reaction::Start { app: s("broker"), dashboards: names(&["web"]) }
    );
    assert!(apps.is_registered(&s("broker")));
}

#[test]
fn a_requested_shutdown_stops_the_app() {
    let mut apps = node();
    apps.one_for_one(Event::RegisterDashboard(s("web")));
    apps.one_for_one(Event::RegisterApp(s("broker")));
    apps.one_for_one(Event::RegisterApp(s("api")));
    assert_eq!(apps.one_for_one(Event::ShutdownApp(s("broker"))), Reaction::Shutdown { app: s("broker") });
    assert!(!apps.is_registered(&s("broker")));
    assert!(apps.is_registered(&s("api")));
    assert_eq!(
        apps.one_for_one(Event::AknShutdown(s("broker"))),
        Reaction::Stopped { app: s("broker"), dashboards: names(&["web"]) }
    );
    assert!(!apps.is_registered(&s("broker")));
}

#[test]
fn shutdown_of_an_unregistered_app_does_nothing() {
    let mut apps = node();
    assert_eq!(apps.one_for_one(Event::ShutdownApp(s("broker"))), Reaction::Idle);
    assert!(!apps.is_registered(&s("broker")));
}

#[test]
fn break_leaves_the_loop() {
    let mut apps = node();
    apps.one_for_one(Event::RegisterApp(s("broker")));
    assert_eq!(apps.one_for_one(Event::Break), Reaction::Break);
    assert!(apps.is_registered(&s("broker")));
}

#[test]
fn status_and_unknown_apps_are_not_served() {
    let mut apps = node();
    assert!(!apps.can_serve(&Event::AppsStatus(s("web"))));
    assert!(!apps.can_serve(&Event::StartApp(s("nobody"))));
    assert!(apps.can_serve(&Event::StartApp(s("api"))));
    assert!(apps.can_serve(&Event::AknShutdown(s("nobody"))));
    assert!(apps.can_serve(&Event::RegisterApp(s("nobody"))));
    apps.one_for_one(Event::RegisterApp(s("nobody")));
    assert!(!apps.can_serve(&Event::AknShutdown(s("nobody"))));
    assert!(apps.can_serve(&Event::ShutdownApp(s("nobody"))));
    assert!(apps.can_serve(&Event::Break));
}
