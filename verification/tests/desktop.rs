use rkvm::leds::{attempt, count, event_node, has_light, Attempt, EVENT_PATH};
use rkvm::notify::{address, Notifier, EXPIRES};
use rkvm::session::{Entry, Session, RUNTIME_PATH};

fn entry(name: &str, modified: Option<i64>) -> Entry {
    Entry {
        name: Some(name.to_owned()),
        modified,
    }
}

fn session() -> Session {
    Session {
        uid: 1000,
        runtime: "/run/user/1000".to_owned(),
    }
}

fn names(names: &[&str]) -> Vec<Option<String>> {
    names.iter().map(|name| Some((*name).to_owned())).collect()
}

#[test]
fn last_login_is_found() {
    let found = Session::find(&vec![
        entry("1000", Some(10)),
        entry("1002", Some(30)),
        entry("1001", Some(20)),
    ])
    .unwrap();
    assert_eq!(found.uid, 1002);
    assert_eq!(found.runtime, "/run/user/1002");
    assert_eq!(RUNTIME_PATH, "/run/user");
}

#[test]
fn last_entry_wins_among_equals() {
    let found = Session::find(&vec![
        entry("1000", Some(5)),
        entry("1001", Some(5)),
        entry("1002", None),
    ])
    .unwrap();
    assert_eq!(found.uid, 1001);
    // What is not known counts as zero.
    let found = Session::find(&vec![entry("1000", Some(-5)), entry("1001", None)]).unwrap();
    assert_eq!(found.uid, 1001);
    let found = Session::find(&vec![entry("1000", Some(0)), entry("1001", None)]).unwrap();
    assert_eq!(found.uid, 1001);
}

#[test]
fn system_users_have_no_session() {
    assert!(Session::find(&vec![]).is_none());
    assert!(Session::find(&vec![
        entry("999", Some(10)),
        entry("0", Some(10)),
        entry("root", Some(10)),
        entry("4294967296", Some(10)),
        entry("", Some(10)),
        entry("10 00", Some(10)),
        Entry {
            name: None,
            modified: Some(10),
        },
    ])
    .is_none());
    assert_eq!(Session::find(&vec![entry("4294967295", None)]).unwrap().uid, u32::MAX);
}

#[test]
fn sign_and_zeros_are_read_as_a_number() {
    let found = Session::find(&vec![entry("+01000", None)]).unwrap();
    assert_eq!(found.uid, 1000);
    assert_eq!(found.runtime, "/run/user/+01000");
}

#[test]
fn bus_is_at_the_runtime_path() {
    assert_eq!(session().bus_path(), "/run/user/1000/bus");
    assert_eq!(
        session().bus(true).unwrap(),
        "unix:path=/run/user/1000/bus"
    );
    assert!(session().bus(false).is_none());
    let slash = Session {
        uid: 1000,
        runtime: "/tmp/".to_owned(),
    };
    assert_eq!(slash.bus_path(), "/tmp/bus");
}

#[test]
fn last_display_socket_is_found() {
    let listed = names(&["bus", "wayland-0", "wayland-1.lock", "wayland-1", "wayland-0.lock"]);
    assert_eq!(
        session().wayland(&listed).unwrap(),
        "/run/user/1000/wayland-1"
    );
    // By character, not by number.
    let listed = names(&["wayland-9", "wayland-10"]);
    assert_eq!(
        session().wayland(&listed).unwrap(),
        "/run/user/1000/wayland-9"
    );
    let listed = names(&["wayland-1", "wayland-10", "wayland-"]);
    assert_eq!(
        session().wayland(&listed).unwrap(),
        "/run/user/1000/wayland-10"
    );
}

#[test]
fn no_display_socket_is_found() {
    assert!(session().wayland(&vec![]).is_none());
    let mut listed = names(&["bus", "wayland-0.lock", "Wayland-0", "wayland"]);
    listed.push(None);
    assert!(session().wayland(&listed).is_none());
}

#[test]
fn popup_says_where_control_is() {
    let mut notifier = Notifier::new();
    let popup = notifier.popup("laptop");
    assert_eq!(popup.app_name, "rkvm");
    assert_eq!(popup.replaces, 0);
    assert_eq!(popup.icon, "input-keyboard");
    assert_eq!(popup.summary, "rkvm");
    assert_eq!(popup.body, "now on laptop");
    assert_eq!(popup.expires, EXPIRES);
    assert_eq!(EXPIRES, 1500);
    notifier.shown(42);
    assert_eq!(notifier.popup("server").replaces, 42);
}

#[test]
fn popups_need_a_session_with_a_bus() {
    assert_eq!(address(&None, true).unwrap_err(), "No user session");
    assert_eq!(
        address(&Some(session()), false).unwrap_err(),
        "No session bus"
    );
    assert_eq!(
        address(&Some(session()), true).unwrap(),
        "unix:path=/run/user/1000/bus"
    );
}

#[test]
fn lights_are_on_event_nodes() {
    assert!(event_node(Some("event0")));
    assert!(event_node(Some("event")));
    assert!(!event_node(Some("mouse0")));
    assert!(!event_node(Some("eve")));
    assert!(!event_node(None));
    assert_eq!(EVENT_PATH, "/dev/input");
}

#[test]
fn switched_lights_are_counted() {
    assert!(has_light(1) && !has_light(0) && !has_light(-1) && !has_light(2));
    assert_eq!(attempt(1, 0), Attempt::Switched);
    assert_eq!(attempt(1, -19), Attempt::Refused(-19));
    assert_eq!(attempt(0, 0), Attempt::Unsupported);
    assert_eq!(attempt(-1, 0), Attempt::Unsupported);
    assert_eq!(count(&vec![]), 0);
    assert_eq!(
        count(&vec![
            Attempt::Switched,
            Attempt::Unusable,
            Attempt::Refused(-1),
            Attempt::Switched,
            Attempt::Unsupported,
        ]),
        2
    );
}
