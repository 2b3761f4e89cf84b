use rkvm::clipboard::{Config, Data};
use rkvm::handshake::{
    is_sane, reply_timeout, turn, Heard, Refusal, Stage, Talk, Turn, MAX_NAME_LENGTH, MAX_PENDING,
};
use rkvm::update::Update;

const VERSION: u16 = 7;

fn proven() -> Stage {
    Stage::start()
        .next(VERSION, Heard::Sent)
        .next(VERSION, Heard::Version(VERSION))
        .next(VERSION, Heard::Sent)
        .next(VERSION, Heard::Response(true))
        .next(VERSION, Heard::Sent)
}

#[test]
fn proven_client_is_served() {
    let name = Some("laptop".to_owned());
    let stage = proven().next(VERSION, Heard::Name(name));
    match &stage {
        Stage::Register(Some(name)) => assert_eq!(name, "laptop"),
        stage => panic!("{:?}", stage),
    }
    assert!(matches!(
        stage.next(VERSION, Heard::Registered(true)),
        Stage::Serve
    ));
}

#[test]
fn client_needs_no_name() {
    let stage = proven().next(VERSION, Heard::Name(None));
    assert!(matches!(stage, Stage::Register(None)));
    assert!(matches!(
        stage.next(VERSION, Heard::Registered(false)),
        Stage::Close
    ));
}

#[test]
fn stages_come_in_order() {
    let stage = Stage::start();
    assert!(matches!(stage, Stage::SendVersion));
    let stage = stage.next(VERSION, Heard::Sent);
    assert!(matches!(stage, Stage::ReadVersion));
    let stage = stage.next(VERSION, Heard::Version(VERSION));
    assert!(matches!(stage, Stage::SendChallenge));
    let stage = stage.next(VERSION, Heard::Sent);
    assert!(matches!(stage, Stage::ReadResponse));
    let stage = stage.next(VERSION, Heard::Response(true));
    assert!(matches!(stage, Stage::SendStatus(true)));
    let stage = stage.next(VERSION, Heard::Sent);
    assert!(matches!(stage, Stage::ReadName));
}

#[test]
fn other_version_is_refused() {
    let stage = Stage::start()
        .next(VERSION, Heard::Sent)
        .next(VERSION, Heard::Version(12));
    match stage {
        Stage::Refuse(refusal) => {
            assert_eq!(
                refusal,
                Refusal::Version {
                    server: 7,
                    client: 12
                }
            );
            assert_eq!(
                refusal.message(),
                "Incompatible client version (got 12, expected 7)"
            );
        }
        stage => panic!("{:?}", stage),
    }
}

#[test]
fn wrong_password_is_answered_and_refused() {
    let stage = Stage::start()
        .next(VERSION, Heard::Sent)
        .next(VERSION, Heard::Version(VERSION))
        .next(VERSION, Heard::Sent)
        .next(VERSION, Heard::Response(false));
    assert!(matches!(stage, Stage::SendStatus(false)));
    match stage.next(VERSION, Heard::Sent) {
        Stage::Refuse(refusal) => {
            assert_eq!(refusal, Refusal::Auth);
            assert_eq!(refusal.message(), "Invalid password");
        }
        stage => panic!("{:?}", stage),
    }
}

#[test]
fn bad_name_is_refused() {
    match proven().next(VERSION, Heard::Name(Some(String::new()))) {
        Stage::Refuse(refusal) => {
            assert_eq!(refusal, Refusal::Name);
            assert_eq!(refusal.message(), "Invalid client name");
        }
        stage => panic!("{:?}", stage),
    }
}

#[test]
fn names_have_to_be_sane() {
    assert!(is_sane(&"laptop".to_owned()));
    assert!(is_sane(&"my laptop".to_owned()));
    assert!(!is_sane(&String::new()));
    assert!(is_sane(&"n".repeat(MAX_NAME_LENGTH)));
    assert!(!is_sane(&"n".repeat(MAX_NAME_LENGTH + 1)));
    // The length counts bytes.
    assert!(is_sane(&"\u{e9}".repeat(32)));
    assert!(!is_sane(&"\u{e9}".repeat(33)));
    for bad in ["a\nb", "\u{7f}", "\u{85}", "tab\t", "\0"] {
        assert!(!is_sane(&bad.to_owned()), "{:?}", bad);
    }
    assert!(is_sane(&"\u{a0}".to_owned()));
    assert_eq!((MAX_NAME_LENGTH, MAX_PENDING), (64, 16));
}

#[test]
fn sharing_the_clipboard_takes_longer() {
    let config = Config {
        list_types: String::new(),
        read: String::new(),
        write: String::new(),
    };
    assert_eq!(reply_timeout(&Some(config), 10, 2), 10);
    assert_eq!(reply_timeout(&None, 10, 2), 2);
}

#[test]
fn ping_is_answered() {
    let talk = Talk::Wait.next(Turn::Tick);
    assert!(matches!(talk, Talk::Tell(Update::Ping)));
    let talk = talk.next(Turn::Told);
    assert!(matches!(talk, Talk::ReadPong));
    assert!(matches!(talk.next(Turn::Pong(None)), Talk::Wait));
}

#[test]
fn pings_have_priority() {
    let mut waiting = Some(Some(Update::Active(true)));
    assert!(matches!(turn(true, &mut waiting), Some(Turn::Tick)));
    assert!(matches!(waiting, Some(Some(Update::Active(true)))));
    assert!(matches!(
        turn(false, &mut waiting),
        Some(Turn::Update(Some(Update::Active(true))))
    ));
    assert!(waiting.is_none());
    assert!(turn(false, &mut waiting).is_none());
    // The end comes after a ping that is due, too.
    let mut waiting = Some(None);
    assert!(matches!(turn(true, &mut waiting), Some(Turn::Tick)));
    assert!(matches!(
        turn(false, &mut waiting),
        Some(Turn::Update(None))
    ));
}

#[test]
fn clipboard_in_an_answer_is_shared() {
    let data = Data {
        mime: "text/plain".to_owned(),
        data: vec![1],
    };
    let talk = Talk::ReadPong.next(Turn::Pong(Some(data.clone())));
    match &talk {
        Talk::Share(shared) => assert!(*shared == data),
        _ => panic!("the contents are not shared"),
    }
    assert!(matches!(talk.next(Turn::Shared(true)), Talk::Wait));
    assert!(matches!(
        Talk::Share(data).next(Turn::Shared(false)),
        Talk::Close
    ));
}

#[test]
fn updates_are_passed_on_until_there_are_none() {
    let talk = Talk::Wait.next(Turn::Update(Some(Update::Active(true))));
    assert!(matches!(talk, Talk::Tell(Update::Active(true))));
    assert!(matches!(talk.next(Turn::Told), Talk::Wait));
    assert!(matches!(Talk::Wait.next(Turn::Update(None)), Talk::Close));
}
