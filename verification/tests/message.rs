use bincode::Options;
use rkvm::clipboard::{MAX_MIME_LENGTH, MAX_SIZE};
use rkvm::message::{
    decode_length, decode_name, decode_payload, encode, encode_name, Fault, MessageError,
    MAX_LENGTH,
};

#[test]
fn message_is_its_length_and_its_payload() {
    assert_eq!(encode(&vec![7, 8, 9]).unwrap(), [0, 0, 0, 3, 7, 8, 9]);
    assert_eq!(encode(&vec![]).unwrap(), [0, 0, 0, 0]);
    let long = encode(&vec![1; 0x010203]).unwrap();
    assert_eq!(long[..5], [0, 1, 2, 3, 1]);
}

#[test]
fn message_is_read_back_as_it_was_written() {
    for size in [0, 1, 255, 256, 70000] {
        let payload = vec![5; size];
        let bytes = encode(&payload).unwrap();
        let length = decode_length([bytes[0], bytes[1], bytes[2], bytes[3]]).unwrap();
        assert_eq!(length as usize, size);
        assert_eq!(decode_payload(length, bytes[4..].to_vec()).unwrap(), payload);
    }
}

#[test]
fn length_has_a_limit() {
    assert_eq!(MAX_LENGTH, 4194304 + 4096);
    let most = (MAX_LENGTH as u32).to_be_bytes();
    assert_eq!(decode_length(most).unwrap() as usize, MAX_LENGTH);
    let err = decode_length((MAX_LENGTH as u32 + 1).to_be_bytes()).unwrap_err();
    assert!(matches!(err, MessageError::TooLarge));
    assert_eq!(err.fault(), Fault::InvalidData);
    assert_eq!(err.message(), Some("Message too large"));
    assert!(decode_length([255, 255, 255, 255]).is_err());
}

#[test]
fn stream_that_ends_early_is_noticed() {
    let err = decode_payload(3, vec![1, 2]).unwrap_err();
    assert!(matches!(err, MessageError::TooShort));
    assert_eq!(err.fault(), Fault::UnexpectedEof);
    assert_eq!(err.message(), Some("Message shorter than advertised"));
}

#[test]
fn oversized_payload_is_a_fault_of_the_input() {
    assert!(encode(&vec![0; MAX_LENGTH]).is_ok());
    let err = encode(&vec![0; MAX_LENGTH + 1]).unwrap_err();
    assert!(matches!(err, MessageError::Oversized));
    assert_eq!(err.fault(), Fault::InvalidInput);
    assert_eq!(err.message(), Some("Data too large"));
}

#[test]
fn messages_in_a_row_are_read_back_in_order() {
    let names = [
        Some("laptop".to_owned()),
        None,
        Some("n".repeat(300)),
        Some(String::new()),
    ];
    let mut stream = vec![];
    for name in &names {
        stream.extend(encode_name(name).unwrap());
    }
    stream.extend([9, 9, 9]);
    for name in names {
        let length = decode_length([stream[0], stream[1], stream[2], stream[3]]).unwrap();
        let end = 4 + length as usize;
        let payload = decode_payload(length, stream[4..end].to_vec()).unwrap();
        assert_eq!(decode_name(&payload).unwrap(), name);
        stream.drain(..end);
    }
    assert_eq!(stream, [9, 9, 9]);
}

#[test]
fn largest_contents_fit_in_a_message() {
    let contents = (3u32, "m".repeat(MAX_MIME_LENGTH), vec![7u8; MAX_SIZE]);
    let payload = bincode::DefaultOptions::new()
        .with_limit(MAX_LENGTH as u64)
        .serialize(&contents)
        .unwrap();
    // One byte says which update it is, three how long the type is, five how long the data are.
    assert_eq!(payload.len(), 1 + 3 + MAX_MIME_LENGTH + 5 + MAX_SIZE);
    assert!(encode(&payload).is_ok());
}

#[test]
fn name_is_written_out() {
    assert_eq!(encode_name(&None).unwrap(), [0, 0, 0, 1, 0]);
    let name = Some("laptop".to_owned());
    assert_eq!(
        encode_name(&name).unwrap(),
        [0, 0, 0, 8, 1, 6, b'l', b'a', b'p', b't', b'o', b'p']
    );
}

#[test]
fn name_is_read_back_as_it_was_written() {
    for name in [
        None,
        Some(String::new()),
        Some("laptop".to_owned()),
        Some("\u{e9}t\u{e9}".to_owned()),
        Some("n".repeat(250)),
        Some("n".repeat(251)),
        Some("n".repeat(70000)),
    ] {
        let bytes = encode_name(&name).unwrap();
        assert_eq!(decode_name(&bytes[4..].to_vec()).unwrap(), name);
    }
}

#[test]
fn name_of_any_width_of_length_is_read() {
    let wide = vec![1, 251, 2, 0, b'o', b'k'];
    assert_eq!(decode_name(&wide).unwrap(), Some("ok".to_owned()));
    let wider = vec![1, 253, 2, 0, 0, 0, 0, 0, 0, 0, b'o', b'k'];
    assert_eq!(decode_name(&wider).unwrap(), Some("ok".to_owned()));
}

#[test]
fn payload_that_is_no_name_is_refused() {
    for payload in [
        vec![],
        vec![2],
        vec![0, 0],
        vec![1],
        vec![1, 3, b'a', b'b'],
        vec![1, 1, b'a', b'b'],
        vec![1, 1, 0xff],
        vec![1, 254, 1],
        vec![1, 251, 1],
    ] {
        let err = decode_name(&payload).unwrap_err();
        assert!(matches!(err, MessageError::Malformed(_)), "{:?}", payload);
        assert_eq!(err.fault(), Fault::InvalidData);
        assert_eq!(err.message(), None);
    }
}

#[test]
fn name_that_is_too_long_is_not_written() {
    let err = encode_name(&Some("n".repeat(MAX_LENGTH))).unwrap_err();
    assert!(matches!(err, MessageError::Unencodable(_)));
    assert_eq!(err.fault(), Fault::InvalidInput);
    assert_eq!(err.message(), None);
    // One byte says that there is a name, and five say how long it is.
    assert!(encode_name(&Some("n".repeat(MAX_LENGTH - 6))).is_ok());
    assert!(encode_name(&Some("n".repeat(MAX_LENGTH - 5))).is_err());
}
