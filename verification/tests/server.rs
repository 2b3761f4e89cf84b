use rkvm::action::Action;
use rkvm::client::Client;
use rkvm::clipboard::Data;
use rkvm::device::{AbsAxis, Device};
use rkvm::error::Error;
use rkvm::event::{Event, KeyEvent, RawEvent};
use rkvm::server::{handed_back, Handover, Indicator, Reaction, Server, Settings, Switch};
use rkvm::state::Route;
use rkvm::update::Update;
use std::io;

const ESCAPE: u16 = 1;
const CTRL: u16 = 29;
const A: u16 = 30;
const ALT: u16 = 56;
const F1: u16 = 59;
const F2: u16 = 60;

fn settings(propagate: Option<bool>) -> Settings {
    Settings {
        switch_keys: vec![ALT, CTRL],
        switch_to: vec![
            ("server".to_owned(), vec![ALT, ESCAPE]),
            ("laptop".to_owned(), vec![ALT, F1]),
            ("tower".to_owned(), vec![ALT, F1, F2]),
        ],
        propagate_switch_keys: propagate,
        indicator: Indicator::CapsLock,
        on_switch: Some("notify".to_owned()),
    }
}

fn server(propagate: Option<bool>) -> Server {
    Server::new(settings(propagate)).unwrap()
}

fn quiet(propagate: Option<bool>) -> Server {
    let mut settings = settings(propagate);
    settings.indicator = Indicator::Off;
    settings.on_switch = None;
    Server::new(settings).unwrap()
}

fn keyboard() -> Device {
    Device {
        name: b"keyboard".to_vec(),
        vendor: 1,
        product: 2,
        version: 3,
        rel: vec![0, 1],
        abs: vec![AbsAxis {
            code: 0,
            min: -1,
            max: 1,
            fuzz: 0,
            flat: 0,
            resolution: 0,
        }],
        keys: vec![A, ALT, CTRL],
        delay: Some(250),
        period: None,
    }
}

fn client(name: Option<&str>) -> Client {
    Client {
        addr: "10.0.0.1:5258".to_owned(),
        name: name.map(|name| name.to_owned()),
    }
}

fn down(key: u16) -> Event {
    Event::Key(KeyEvent { key, down: true })
}

fn up(key: u16) -> Event {
    Event::Key(KeyEvent { key, down: false })
}

fn told(update: &Update) -> String {
    match update {
        Update::CreateDevice { id, device } => format!("create {} {:?}", id, device.name),
        Update::DestroyDevice { id } => format!("destroy {}", id),
        Update::Event { id, event } => format!("event {} {:?}", id, event),
        Update::Clipboard(data) => format!("clipboard {}", data.describe()),
        Update::Active(active) => format!("active {}", active),
        Update::Ping => "ping".to_owned(),
    }
}

fn done(actions: &[Action]) -> Vec<String> {
    actions
        .iter()
        .map(|action| match action {
            Action::Send { client, update } => format!("send {} {}", client, told(update)),
            Action::Apply(data) => format!("apply {}", data.describe()),
            Action::Run(command) => format!(
                "run {} {} {}",
                command.program,
                command.args.join(" "),
                command
                    .env
                    .iter()
                    .map(|(name, value)| format!("{}={}", name, value))
                    .collect::<Vec<_>>()
                    .join(" ")
            ),
            Action::Light { device, on } => format!("light {} {}", device, on),
        })
        .collect()
}

fn nothing(reaction: &Reaction) -> bool {
    reaction.actions.is_empty() && reaction.events.is_empty()
}

#[test]
fn empty_combination_is_refused() {
    let mut bad = settings(None);
    bad.switch_keys = vec![];
    let err = Server::new(bad).err().unwrap();
    assert!(matches!(err, Error::Config("A switch key combination is empty")));
    assert_eq!(err.message(), "Config error: A switch key combination is empty");

    let mut bad = settings(None);
    bad.switch_to.push(("phone".to_owned(), vec![]));
    assert!(Server::new(bad).is_err());
}

#[test]
fn errors_say_what_failed() {
    let network = Error::Network(io::Error::new(io::ErrorKind::Other, "cable cut"));
    assert_eq!(network.message(), "Network error: cable cut");
    let input = Error::Input(io::Error::new(io::ErrorKind::Other, "no device"));
    assert_eq!(input.message(), "Input error: no device");
    assert_eq!(Error::Overflow.message(), "Event queue overflow");
    assert_eq!(Error::Overflow.describe("unused"), "Event queue overflow");
    assert_eq!(input.describe("gone"), "Input error: gone");
}

#[test]
fn cycle_visits_every_machine_and_wraps_around() {
    let mut server = quiet(None);
    let (id, _) = server.register_device(keyboard());
    assert_eq!(id, 0);
    for _ in 0..3 {
        server.register(client(None));
    }
    let mut visited = vec![];
    server.input(id, down(ALT));
    for _ in 0..5 {
        server.input(id, down(CTRL));
        visited.push(server.controlled());
        server.input(id, up(CTRL));
    }
    assert_eq!(visited, [1, 2, 3, 0, 1]);
}

#[test]
fn cycle_skips_slots_that_are_free() {
    let mut server = quiet(None);
    let (id, _) = server.register_device(keyboard());
    for _ in 0..3 {
        server.register(client(None));
    }
    server.client_lost(1);
    assert!(!server.has_client(1));
    server.input(id, down(ALT));
    let mut visited = vec![];
    for _ in 0..3 {
        server.input(id, down(CTRL));
        visited.push(server.controlled());
        server.input(id, up(CTRL));
    }
    assert_eq!(visited, [1, 3, 0]);

    let (slot, _, _) = server.register(client(None));
    assert_eq!(slot, 1);
}

#[test]
fn cycle_without_clients_stays_on_the_server() {
    let mut server = quiet(None);
    let (id, _) = server.register_device(keyboard());
    server.input(id, down(ALT));
    let reaction = server.input(id, down(CTRL));
    assert_eq!(server.controlled(), 0);
    assert_eq!(reaction.route, Route::Server);
}

#[test]
fn name_leads_to_its_machine() {
    let mut server = server(None);
    let (id, _) = server.register_device(keyboard());
    server.register(client(None));
    server.register(client(Some("laptop")));
    server.register(client(Some("laptop")));
    assert_eq!(server.input(id, down(ALT)).switch, Switch::Stayed);
    let reaction = server.input(id, down(F1));
    assert_eq!(server.controlled(), 2);
    assert_eq!(reaction.switch, Switch::To("laptop".to_owned()));
    assert_eq!(
        done(&reaction.actions),
        [
            "send 1 active true",
            "run sh -c notify rkvm laptop RKVM_TARGET=laptop",
            "light 0 true",
        ]
    );
    // The key that completed the combination still goes where it was pressed.
    assert_eq!(reaction.route, Route::Server);
    assert_eq!(reaction.events, [(id, down(F1)), (id, Event::Sync)]);
}

#[test]
fn name_of_nobody_leads_nowhere() {
    let mut server = server(Some(false));
    let (id, _) = server.register_device(keyboard());
    server.register(client(Some("phone")));
    server.input(id, down(ALT));
    let reaction = server.input(id, down(F1));
    assert!(nothing(&reaction));
    assert_eq!(reaction.switch, Switch::NotConnected("laptop".to_owned()));
    assert_eq!(server.controlled(), 0);
}

#[test]
fn longer_combination_wins() {
    let mut server = quiet(None);
    let (id, _) = server.register_device(keyboard());
    server.register(client(Some("laptop")));
    server.register(client(Some("tower")));
    server.input(id, down(ALT));
    server.input(id, down(F2));
    server.input(id, down(F1));
    assert_eq!(server.controlled(), 2);
}

#[test]
fn first_of_equally_long_combinations_wins() {
    let mut server = quiet(None);
    let (id, _) = server.register_device(keyboard());
    server.register(client(Some("laptop")));
    server.input(id, down(ESCAPE));
    server.input(id, down(CTRL));
    // Completes both the cycle and the way back to the server.
    server.input(id, down(ALT));
    assert_eq!(server.controlled(), 1);
}

#[test]
fn server_shortcut_is_the_way_back() {
    let mut server = server(None);
    let (id, _) = server.register_device(keyboard());
    server.register(client(Some("laptop")));
    server.input(id, down(ALT));
    server.input(id, down(F1));
    server.input(id, up(F1));
    assert_eq!(server.controlled(), 1);
    let reaction = server.input(id, down(ESCAPE));
    assert_eq!(server.controlled(), 0);
    assert_eq!(reaction.switch, Switch::To("server".to_owned()));
    assert_eq!(
        done(&reaction.actions),
        [
            "send 0 active false",
            "run sh -c notify rkvm server RKVM_TARGET=server",
            "light 0 false",
        ]
    );
    assert_eq!(reaction.route, Route::Client(0));
}

#[test]
fn switch_to_the_same_machine_tells_no_client() {
    let mut server = server(None);
    let (id, _) = server.register_device(keyboard());
    server.register(client(Some("laptop")));
    server.input(id, down(ALT));
    let reaction = server.input(id, down(ESCAPE));
    assert_eq!(
        done(&reaction.actions),
        [
            "run sh -c notify rkvm server RKVM_TARGET=server",
            "light 0 false",
        ]
    );
}

#[test]
fn client_without_a_name_is_called_by_its_address() {
    assert_eq!(client(None).label(), "10.0.0.1:5258");
    assert_eq!(client(Some("laptop")).label(), "laptop");
    let mut server = server(None);
    let (id, _) = server.register_device(keyboard());
    server.register(client(None));
    server.input(id, down(ALT));
    let reaction = server.input(id, down(CTRL));
    assert_eq!(
        done(&reaction.actions)[1],
        "run sh -c notify rkvm 10.0.0.1:5258 RKVM_TARGET=10.0.0.1:5258"
    );
}

#[test]
fn only_a_press_switches() {
    let mut server = quiet(None);
    let (id, _) = server.register_device(keyboard());
    server.register(client(None));
    server.input(id, down(ALT));
    server.input(id, down(CTRL));
    assert_eq!(server.controlled(), 1);
    server.input(id, down(ESCAPE));
    assert_eq!(server.controlled(), 0);
    // ALT and CTRL are held all the while.
    server.input(id, up(ESCAPE));
    assert_eq!(server.controlled(), 0);
    server.input(id, down(A));
    assert_eq!(server.controlled(), 0);
}

#[test]
fn propagating_passes_every_event_at_once() {
    let mut server = quiet(None);
    let (id, _) = server.register_device(keyboard());
    server.register(client(None));
    let reaction = server.input(id, down(ALT));
    assert_eq!(reaction.events, [(id, down(ALT)), (id, Event::Sync)]);
    let reaction = server.input(id, down(A));
    assert_eq!(reaction.events, [(id, down(A))]);
    let raw = Event::Other(RawEvent {
        kind: 2,
        code: 0,
        value: -3,
    });
    assert_eq!(server.input(id, raw).events, [(id, raw)]);
    assert_eq!(server.input(id, Event::Sync).events, [(id, Event::Sync)]);
    let reaction = server.input(id, down(CTRL));
    assert_eq!(reaction.events, [(id, down(CTRL)), (id, Event::Sync)]);
    assert_eq!(reaction.route, Route::Server);
}

#[test]
fn keys_are_released_where_they_were_pressed() {
    let mut server = quiet(Some(true));
    let (id, _) = server.register_device(keyboard());
    server.register(client(None));
    server.input(id, down(ALT));
    server.input(id, down(CTRL));
    assert_eq!(server.controlled(), 1);
    // Other input follows the switch, the keys of the combination do not.
    assert_eq!(server.input(id, down(A)).route, Route::Client(0));
    assert_eq!(server.input(id, up(ALT)).route, Route::Server);
    assert_eq!(server.input(id, up(CTRL)).route, Route::Server);
    assert_eq!(server.input(id, down(ALT)).route, Route::Client(0));
}

#[test]
fn events_for_a_client_that_left_go_nowhere() {
    let mut server = quiet(None);
    let (id, _) = server.register_device(keyboard());
    server.register(client(None));
    server.input(id, down(ALT));
    server.input(id, down(CTRL));
    server.input(id, up(CTRL));
    server.input(id, down(CTRL));
    assert_eq!(server.controlled(), 0);
    server.client_lost(0);
    assert_eq!(server.input(id, up(CTRL)).route, Route::Nowhere);
}

#[test]
fn switch_keys_work_on_their_own() {
    let mut server = quiet(Some(false));
    let (id, _) = server.register_device(keyboard());
    assert!(nothing(&server.input(id, down(ALT))));
    let reaction = server.input(id, up(ALT));
    assert_eq!(
        reaction.events,
        [
            (id, down(ALT)),
            (id, Event::Sync),
            (id, up(ALT)),
            (id, Event::Sync),
        ]
    );
    assert_eq!(reaction.route, Route::Server);
}

#[test]
fn switch_keys_work_with_other_keys() {
    let mut server = quiet(Some(false));
    let (id, _) = server.register_device(keyboard());
    assert!(nothing(&server.input(id, down(ALT))));
    let reaction = server.input(id, down(A));
    assert_eq!(
        reaction.events,
        [(id, down(ALT)), (id, Event::Sync), (id, down(A))]
    );
    assert_eq!(server.input(id, up(A)).events, [(id, up(A))]);
    let reaction = server.input(id, up(ALT));
    assert_eq!(reaction.events, [(id, up(ALT)), (id, Event::Sync)]);
}

#[test]
fn completed_combination_is_swallowed() {
    let mut server = quiet(Some(false));
    let (id, _) = server.register_device(keyboard());
    server.register(client(None));
    assert!(nothing(&server.input(id, down(ALT))));
    let reaction = server.input(id, down(CTRL));
    assert_eq!(done(&reaction.actions), ["send 0 active true"]);
    assert!(reaction.events.is_empty());
    // Swallowed until all are released.
    assert!(nothing(&server.input(id, up(CTRL))));
    assert!(nothing(&server.input(id, down(F2))));
    assert!(nothing(&server.input(id, up(ALT))));
    assert!(nothing(&server.input(id, up(F2))));
    // Back to normal.
    server.input(id, down(F2));
    let reaction = server.input(id, up(F2));
    assert_eq!(reaction.events.len(), 4);
    assert_eq!(reaction.route, Route::Client(0));
}

#[test]
fn keys_that_got_through_are_released_on_a_switch() {
    let mut server = quiet(Some(false));
    let (id, _) = server.register_device(keyboard());
    let (other, _) = server.register_device(keyboard());
    server.register(client(None));
    server.input(id, down(ALT));
    server.input(other, down(F2));
    // Lets both through.
    assert_eq!(server.input(id, down(A)).events.len(), 5);
    let reaction = server.input(id, down(CTRL));
    assert_eq!(server.controlled(), 1);
    assert_eq!(reaction.route, Route::Server);
    let alt = [(id, up(ALT)), (id, Event::Sync)];
    let f2 = [(other, up(F2)), (other, Event::Sync)];
    assert!(
        reaction.events == [alt, f2].concat() || reaction.events == [f2, alt].concat(),
        "{:?}",
        reaction.events
    );
    // Nothing is left to release.
    server.input(id, up(CTRL));
    let reaction = server.input(id, down(CTRL));
    assert_eq!(server.controlled(), 0);
    assert!(reaction.events.is_empty());
}

#[test]
fn gone_device_leaves_no_trace() {
    let mut server = quiet(Some(false));
    let (id, _) = server.register_device(keyboard());
    let (other, _) = server.register_device(keyboard());
    server.register(client(None));
    server.input(id, down(ALT));
    server.input(other, down(CTRL));
    assert_eq!(server.controlled(), 1);
    assert_eq!(done(&server.device_gone(other)), ["send 0 destroy 1"]);
    assert!(!server.has_device(other));
    // CTRL is not held any more, so the combination has to be completed anew.
    server.input(id, up(ALT));
    server.input(id, down(ALT));
    assert_eq!(server.controlled(), 1);
    server.input(id, down(CTRL));
    assert_eq!(server.controlled(), 0);
}

#[test]
fn held_back_events_of_a_gone_device_are_dropped() {
    let mut server = quiet(Some(false));
    let (id, _) = server.register_device(keyboard());
    let (other, _) = server.register_device(keyboard());
    server.input(other, down(F2));
    server.input(id, down(ALT));
    server.device_gone(other);
    let reaction = server.input(id, down(A));
    assert_eq!(
        reaction.events,
        [(id, down(ALT)), (id, Event::Sync), (id, down(A))]
    );
}

#[test]
fn keys_work_after_their_device_was_unplugged() {
    let mut server = quiet(Some(false));
    let (id, _) = server.register_device(keyboard());
    server.register(client(None));
    server.input(id, down(ALT));
    server.input(id, down(CTRL));
    assert_eq!(server.controlled(), 1);
    server.device_gone(id);
    let (id, _) = server.register_device(keyboard());
    assert!(nothing(&server.input(id, down(ALT))));
    let reaction = server.input(id, up(ALT));
    assert_eq!(reaction.route, Route::Client(0));
    assert_eq!(reaction.events.len(), 4);
}

#[test]
fn device_errors_are_told_apart() {
    let mut server = quiet(None);
    let (id, _) = server.register_device(keyboard());
    server.register(client(None));
    let other = io::Error::new(io::ErrorKind::PermissionDenied, "no");
    match server.device_error(id, other) {
        Err(Error::Input(err)) => assert_eq!(err.kind(), io::ErrorKind::PermissionDenied),
        _ => panic!("the error was not passed on"),
    }
    assert!(server.has_device(id));
    let broken = io::Error::new(io::ErrorKind::BrokenPipe, "unplugged");
    let actions = server.device_error(id, broken).unwrap();
    assert_eq!(done(&actions), ["send 0 destroy 0"]);
    assert!(!server.has_device(id));
}

#[test]
fn every_client_learns_of_devices() {
    let mut server = quiet(None);
    server.register(client(None));
    server.register(client(None));
    let (id, actions) = server.register_device(keyboard());
    assert_eq!(id, 0);
    let name = format!("{:?}", b"keyboard".to_vec());
    assert_eq!(
        done(&actions),
        [
            format!("send 0 create 0 {}", name),
            format!("send 1 create 0 {}", name),
        ]
    );
}

#[test]
fn new_client_is_told_every_device_and_the_clipboard() {
    let mut server = quiet(None);
    let (gamepad, _) = server.register_device(keyboard());
    let (mouse, _) = server.register_device(keyboard());
    let (keys, _) = server.register_device(keyboard());
    server.device_gone(mouse);
    server.clipboard_changed(Data {
        mime: "text/plain".to_owned(),
        data: b"copied".to_vec(),
    });
    let (actions, greeting) = server.welcome(&vec![]);
    assert!(actions.is_empty());
    let ids = greeting
        .iter()
        .map(|update| match update {
            Update::CreateDevice { id, device } => {
                assert_eq!(device.keys, [A, ALT, CTRL]);
                assert_eq!(device.delay, Some(250));
                *id
            }
            update => panic!("{}", told(update)),
        })
        .collect::<Vec<_>>();
    assert_eq!(ids, [gamepad, keys]);
    let (slot, actions, ambiguous) = server.register(client(None));
    assert_eq!(slot, 0);
    assert!(!ambiguous);
    assert_eq!(done(&actions), ["send 0 clipboard text/plain (6 bytes)"]);
}

#[test]
fn clipboard_is_kept_for_later_clients() {
    let mut server = quiet(None);
    let (id, _) = server.register_device(keyboard());
    server.clipboard_shared(Data {
        mime: "text/plain".to_owned(),
        data: b"copied".to_vec(),
    });
    server.register(client(None));
    server.input(id, down(ALT));
    server.input(id, down(CTRL));
    server.client_lost(0);
    server.device_gone(id);
    let (slot, actions, _) = server.register(client(None));
    assert_eq!(slot, 0);
    assert_eq!(done(&actions), ["send 0 clipboard text/plain (6 bytes)"]);
}

#[test]
fn first_slots_are_the_lowest() {
    let mut server = quiet(None);
    assert_eq!(server.register(client(None)).0, 0);
    assert_eq!(server.register_device(keyboard()).0, 0);
}

#[test]
fn slots_that_were_left_are_used_again() {
    let mut server = quiet(None);
    for slot in 0..5 {
        assert_eq!(server.register(client(None)).0, slot);
        assert_eq!(server.register_device(keyboard()).0, slot);
    }
    server.client_lost(1);
    server.client_lost(3);
    assert_eq!(server.register(client(None)).0, 3);
    server.welcome(&vec![4, 0, 9]);
    // The last one that was left comes first; those that leave together do so in order.
    let slots = (0..4)
        .map(|_| server.register(client(None)).0)
        .collect::<Vec<_>>();
    assert_eq!(slots, [4, 0, 1, 5]);
    server.device_gone(2);
    server.device_gone(0);
    let slots = (0..3)
        .map(|_| server.register_device(keyboard()).0)
        .collect::<Vec<_>>();
    assert_eq!(slots, [0, 2, 5]);
}

#[test]
fn second_client_of_a_name_is_noticed() {
    let mut server = quiet(None);
    assert!(!server.register(client(Some("laptop"))).2);
    assert!(!server.register(client(Some("tower"))).2);
    assert!(server.register(client(Some("laptop"))).2);
    assert!(!server.register(client(None)).2);
    assert!(!server.register(client(None)).2);
}

#[test]
fn what_is_copied_reaches_all_machines() {
    let mut server = quiet(None);
    server.register(client(None));
    server.register(client(None));
    let data = Data {
        mime: "image/png".to_owned(),
        data: vec![1, 2, 3],
    };
    assert_eq!(
        done(&server.clipboard_changed(data.clone())),
        [
            "send 0 clipboard image/png (3 bytes)",
            "send 1 clipboard image/png (3 bytes)",
        ]
    );
    assert_eq!(
        done(&server.clipboard_shared(data)),
        [
            "apply image/png (3 bytes)",
            "send 0 clipboard image/png (3 bytes)",
            "send 1 clipboard image/png (3 bytes)",
        ]
    );
}

#[test]
fn control_falls_back_when_the_client_is_gone() {
    let mut server = server(None);
    let (id, _) = server.register_device(keyboard());
    server.register(client(Some("laptop")));
    server.register(client(Some("tower")));
    server.input(id, down(ALT));
    server.input(id, down(F1));
    assert_eq!(server.controlled(), 1);
    // Another client that is gone makes no difference.
    assert!(server.client_lost(1).is_empty());
    assert_eq!(server.controlled(), 1);
    let (actions, _) = server.welcome(&vec![0]);
    assert_eq!(
        done(&actions),
        [
            "run sh -c notify rkvm server RKVM_TARGET=server",
            "light 0 false",
        ]
    );
    assert_eq!(server.controlled(), 0);
    assert!(!server.has_client(0));
}

#[test]
fn lost_client_gives_control_back() {
    let mut server = server(None);
    let (id, _) = server.register_device(keyboard());
    server.register(client(Some("laptop")));
    server.input(id, down(ALT));
    server.input(id, down(F1));
    let actions = server.client_lost(0);
    assert_eq!(server.controlled(), 0);
    assert_eq!(done(&actions)[1], "light 0 false");
}

#[test]
fn light_of_a_new_device_shows_control() {
    let mut server = server(None);
    let (id, actions) = server.register_device(keyboard());
    assert!(actions.is_empty());
    server.register(client(Some("laptop")));
    server.input(id, down(ALT));
    server.input(id, down(F1));
    let (id, actions) = server.register_device(keyboard());
    assert_eq!(done(&actions)[1], format!("light {} true", id));
    let mut server = quiet(None);
    let (id, _) = server.register_device(keyboard());
    server.register(client(None));
    server.input(id, down(ALT));
    server.input(id, down(CTRL));
    assert_eq!(server.register_device(keyboard()).1.len(), 1);
}

#[test]
fn full_device_stops_the_server() {
    assert!(handed_back(Handover::Taken).is_ok());
    assert!(handed_back(Handover::Gone).is_ok());
    assert!(matches!(handed_back(Handover::Full), Err(Error::Overflow)));
}
