use rkvm::clipboard::{
    command_output, hash, list_command, pick, quote, read_command, read_contents, request,
    write_command, write_outcome, CommandError, Config, Data, Outcome, Reading, Received, Watcher,
    MAX_MIME_LENGTH, MAX_SIZE,
};
use std::collections::hash_map::DefaultHasher;
use std::hash::{Hash, Hasher};

fn config() -> Config {
    Config {
        list_types: "wl-paste --list-types".to_owned(),
        read: "wl-paste --no-newline --type {type}".to_owned(),
        write: "wl-copy --type {type}".to_owned(),
    }
}

fn text(contents: &str) -> Data {
    Data {
        mime: "text/plain".to_owned(),
        data: contents.as_bytes().to_vec(),
    }
}

#[test]
fn images_are_preferred_over_text() {
    assert_eq!(pick("text/plain\nimage/jpeg\nimage/png\n"), Some("image/png"));
    assert_eq!(
        pick("text/plain;charset=utf-8\ntext/plain\nimage/jpeg\n"),
        Some("image/jpeg")
    );
}

#[test]
fn texts_are_picked_in_order() {
    assert_eq!(
        pick("text/html\ntext/plain\ntext/plain;charset=utf-8\n"),
        Some("text/plain;charset=utf-8")
    );
    assert_eq!(pick("text/html\ntext/plain\n"), Some("text/plain"));
    assert_eq!(pick("text/html\napplication/json\n"), Some("text/html"));
}

#[test]
fn case_of_a_type_does_not_matter() {
    assert_eq!(pick("text/html\nTEXT/PLAIN"), Some("TEXT/PLAIN"));
    assert_eq!(pick("text/plain\nImage/PNG"), Some("Image/PNG"));
    assert_eq!(
        pick("text/plain;charset=UTF-8"),
        Some("text/plain;charset=UTF-8")
    );
    assert_eq!(pick("text/plain\nImage/jpeg"), Some("Image/jpeg"));
    assert_eq!(pick("text/plain\nIMAGE/GIF\nimage/png"), Some("image/png"));
    assert_eq!(pick("text/plain\nimages/gif"), Some("text/plain"));
    assert_eq!(pick("text/html\nIMAGE/JPEG"), Some("IMAGE/JPEG"));
    // Where no text would be picked, only the usual spelling makes an image.
    assert_eq!(
        pick("application/pdf\nIMAGE/JPEG"),
        Some("application/pdf")
    );
    assert_eq!(pick("application/pdf\nimage/jpeg"), Some("image/jpeg"));
}

#[test]
fn targets_that_are_no_types_are_left_out() {
    assert_eq!(pick("TIMESTAMP\nTARGETS\nSTRING\n"), None);
    assert_eq!(pick(""), None);
    assert_eq!(pick("TIMESTAMP\n  text/html \r\n"), Some("text/html"));
}

#[test]
fn quoting_makes_one_word() {
    assert_eq!(quote("text/plain"), "'text/plain'");
    assert_eq!(quote("it's"), "'it'\\''s'");
    assert_eq!(quote(""), "''");
    assert_eq!(quote("$(rm -r)"), "'$(rm -r)'");
}

#[test]
fn commands_are_handed_to_the_shell() {
    let list = list_command(&config());
    assert_eq!(list.program, "sh");
    assert_eq!(list.args, ["-c", "wl-paste --list-types"]);
    assert!(list.env.is_empty());
    let write = write_command(&config(), &text("x"));
    assert_eq!(write.args, ["-c", "wl-copy --type 'text/plain'"]);
    let twice = Config {
        write: "{type} {type".to_owned() + "} {typ}",
        ..config()
    };
    assert_eq!(
        write_command(&twice, &text("x")).args[1],
        "'text/plain' 'text/plain' {typ}"
    );
}

#[test]
fn reading_asks_for_the_picked_type() {
    let asked = request(&config(), "TARGETS\ntext/plain\n").unwrap();
    assert_eq!(asked.mime, "text/plain");
    assert_eq!(
        asked.command.args,
        ["-c", "wl-paste --no-newline --type 'text/plain'"]
    );
    assert!(request(&config(), "TARGETS\n").is_none());
}

#[test]
fn bytes_that_are_no_text_do_no_harm() {
    let asked = read_command(&config(), &b"\xff\xfe\ntext/html\n".to_vec()).unwrap();
    assert_eq!(asked.mime, "text/html");
    let asked = read_command(&config(), &b"text/\xff\n".to_vec()).unwrap();
    assert_eq!(asked.mime, "text/\u{fffd}");
    assert!(read_command(&config(), &vec![0xff]).is_none());
}

#[test]
fn contents_have_to_be_some_and_not_too_many() {
    let mime = || "text/plain".to_owned();
    assert!(matches!(read_contents(mime(), vec![]), Reading::Nothing));
    match read_contents(mime(), vec![7]) {
        Reading::Contents(one) => {
            assert_eq!((one.mime.as_str(), one.data), ("text/plain", vec![7]));
        }
        _ => panic!("one byte is contents"),
    }
    assert!(matches!(
        read_contents(mime(), vec![0; MAX_SIZE]),
        Reading::Contents(_)
    ));
    match read_contents(mime(), vec![0; MAX_SIZE + 1]) {
        Reading::TooLarge { mime, size } => {
            assert_eq!((mime.as_str(), size), ("text/plain", MAX_SIZE + 1));
        }
        _ => panic!("one byte too many"),
    }
    assert_eq!(MAX_SIZE, 4194304);
}

#[test]
fn reading_needs_success() {
    let ended = |success| Outcome::Ended {
        success,
        status: "exit status: 1".to_owned(),
        output: vec![1],
    };
    assert_eq!(command_output(ended(true)).unwrap(), [1]);
    let err = command_output(ended(false)).unwrap_err();
    assert!(matches!(err, CommandError::Failed(_)));
    assert_eq!(err.message(), "Clipboard command failed: exit status: 1");
    let err = command_output(Outcome::TimedOut).unwrap_err();
    assert!(matches!(err, CommandError::TimedOut));
    assert_eq!(err.message(), "Clipboard command timed out");
}

#[test]
fn writing_needs_time_only() {
    let ended = Outcome::Ended {
        success: false,
        status: "exit status: 1".to_owned(),
        output: vec![],
    };
    assert!(write_outcome(ended).is_ok());
    assert!(matches!(
        write_outcome(Outcome::TimedOut),
        Err(CommandError::TimedOut)
    ));
}

#[test]
fn hash_is_that_of_the_fields() {
    let data = text("contents");
    let mut hasher = DefaultHasher::new();
    data.mime.hash(&mut hasher);
    data.data.hash(&mut hasher);
    assert_eq!(hash(&data), hasher.finish());
    assert_ne!(hash(&data), hash(&text("other")));
    let html = Data {
        mime: "text/html".to_owned(),
        data: data.data.clone(),
    };
    assert_ne!(hash(&data), hash(&html));
}

#[test]
fn same_contents_are_no_news() {
    let mut watcher = Watcher::new();
    assert!(watcher.polled(None).is_none());
    assert!(watcher.polled(Some(text("a"))) == Some(text("a")));
    assert!(watcher.polled(Some(text("a"))) == None);
    assert!(watcher.polled(Some(text("b"))) == Some(text("b")));
    assert!(watcher.polled(Some(text("a"))) == Some(text("a")));
}

#[test]
fn what_was_received_is_not_sent_back() {
    let mut watcher = Watcher::new();
    assert!(matches!(watcher.received(text("a")), Received::Apply(data) if data == text("a")));
    assert!(watcher.polled(Some(text("a"))) == None);
    assert!(matches!(watcher.received(text("a")), Received::Known));
}

#[test]
fn oversized_contents_are_ignored() {
    let mut watcher = Watcher::new();
    let large = Data {
        mime: "text/plain".to_owned(),
        data: vec![0; MAX_SIZE + 1],
    };
    assert!(matches!(watcher.received(large), Received::Oversized));
    let named = |length| Data {
        mime: "m".repeat(length),
        data: vec![1],
    };
    assert!(matches!(watcher.received(named(MAX_MIME_LENGTH + 1)), Received::Oversized));
    assert_eq!(watcher.last, None);
    assert!(matches!(
        watcher.received(named(MAX_MIME_LENGTH)),
        Received::Apply(_)
    ));
    // The length counts bytes.
    let accents = Data {
        mime: "\u{e9}".repeat(128),
        data: vec![1],
    };
    assert!(matches!(watcher.received(accents), Received::Oversized));
}

#[test]
fn contents_are_described_by_type_and_size() {
    assert_eq!(text("abc").describe(), "text/plain (3 bytes)");
    assert_eq!(text("").describe(), "text/plain (0 bytes)");
    let large = Data {
        mime: "image/png".to_owned(),
        data: vec![0; 1024],
    };
    assert_eq!(large.describe(), "image/png (1024 bytes)");
}

#[test]
fn commands_can_be_copied() {
    let copy = config().clone();
    assert_eq!(copy.write, "wl-copy --type {type}");
}
