use rkvm::config_file::accessible_to_others;
use rkvm::event::{Event, KeyEvent};
use rkvm::reconnect::{Backoff, RECONNECT_MAX, RECONNECT_MIN};
use rkvm::shell::{run_on_active, run_on_switch, shell};
use rkvm::text;
use rkvm::watch::{task, DeviceCommand, Occasion, Task};

#[test]
fn password_file_is_for_its_owner_only() {
    assert!(!accessible_to_others(0o600));
    assert!(!accessible_to_others(0o100700));
    assert!(accessible_to_others(0o640));
    assert!(accessible_to_others(0o604));
    assert!(accessible_to_others(0o601));
    assert!(accessible_to_others(0o610));
}

#[test]
fn delays_grow_and_start_over() {
    let mut backoff = Backoff::new();
    let waits = (0..6).map(|_| backoff.disconnected(0)).collect::<Vec<_>>();
    assert_eq!(waits, [500, 1000, 2000, 4000, 5000, 5000]);
    assert_eq!(backoff.disconnected(RECONNECT_MAX - 1), 5000);
    assert_eq!(backoff.disconnected(RECONNECT_MAX), 500);
    assert_eq!(backoff.disconnected(10), 1000);
    assert_eq!((RECONNECT_MIN, RECONNECT_MAX), (500, 5000));
}

#[test]
fn hooks_get_one_word() {
    let command = run_on_switch("echo $1", "my laptop");
    assert_eq!(command.program, "sh");
    assert_eq!(command.args, ["-c", "echo $1", "rkvm", "my laptop"]);
    assert_eq!(
        command.env,
        [("RKVM_TARGET".to_owned(), "my laptop".to_owned())]
    );
    let command = run_on_active("mute", false);
    assert_eq!(command.args, ["-c", "mute", "rkvm", "false"]);
    assert_eq!(command.env, [("RKVM_ACTIVE".to_owned(), "false".to_owned())]);
    assert_eq!(run_on_active("mute", true).args[3], "true");
    assert_eq!(shell("ls").args, ["-c", "ls"]);
}

#[test]
fn device_is_watched_until_it_fails() {
    let reported = |failed, heard| task(Occasion::Reported { failed, heard });
    assert_eq!(reported(false, true), Task::Wait);
    assert_eq!(reported(true, true), Task::Stop);
    assert_eq!(reported(false, false), Task::Stop);
    assert_eq!(task(Occasion::Command(None)), Task::Stop);
    assert_eq!(task(Occasion::Written { failed: false }), Task::Wait);
    assert_eq!(task(Occasion::Written { failed: true }), Task::Fail);
    assert_eq!(task(Occasion::Lit { failed: false }), Task::Wait);
    assert_eq!(task(Occasion::Lit { failed: true }), Task::Warn);
}

#[test]
fn device_is_given_what_the_server_has_for_it() {
    let event = Event::Key(KeyEvent { key: 30, down: true });
    let command = Occasion::Command(Some(DeviceCommand::Event(event)));
    assert_eq!(task(command), Task::Write(event));
    let command = Occasion::Command(Some(DeviceCommand::CapsLockLed(true)));
    assert_eq!(task(command), Task::Light(true));
}

#[test]
fn texts_are_taken_apart() {
    assert_eq!(text::replace("a{t}b{t}", "{t}", "x"), "axbx");
    assert_eq!(text::replace("aaa", "aa", "b"), "ba");
    assert!(text::starts_with("wayland-0", "wayland-"));
    assert!(!text::starts_with("way", "wayland-"));
    assert!(text::ends_with("a.lock", ".lock"));
    assert!(!text::ends_with("lock", ".lock"));
    assert!(text::same("a", "a") && !text::same("a", "A"));
    assert_eq!(text::parse_u32("4294967295"), Some(u32::MAX));
    assert_eq!(text::parse_u32("4294967296"), None);
    assert_eq!(text::parse_u32("-1"), None);
    assert_eq!(text::parse_u32("+"), None);
    assert_eq!(text::parse_u32("+7"), Some(7));
    assert_eq!(text::number(0), "0");
    assert_eq!(text::number(40960), "40960");
    assert_eq!(text::join("/run", "user"), "/run/user");
    assert_eq!(text::join("", "user"), "user");
}

#[test]
fn characters_are_classified_as_unicode_does() {
    for c in (0..0x3100u32).filter_map(char::from_u32) {
        assert_eq!(text::space(c), c.is_whitespace(), "{:?}", c);
        assert_eq!(text::has_control(&c.to_string()), c.is_control(), "{:?}", c);
    }
}
