use calen_do::codec::{decode, encode, try_encode, DecodeError};
use calen_do::date_util::Date;
use calen_do::user_data::{Activity, UserData};

fn date(year: u16, month: u8, day: u8) -> Date {
    Date { year, month, day }
}

fn sample_data() -> UserData {
    UserData {
        activities: vec![
            Activity {
                name: "Running".to_owned(),
                starting_date: date(2020, 1, 15),
                dates: vec![date(2020, 1, 15), date(2020, 1, 16), date(2020, 2, 29)],
            },
            Activity {
                name: "Caf\u{e9} \u{2615} diary".to_owned(),
                starting_date: date(2019, 12, 31),
                dates: vec![],
            },
        ],
    }
}

fn assert_same(a: &UserData, b: &UserData) {
    assert_eq!(a.activities.len(), b.activities.len());
    for (x, y) in a.activities.iter().zip(b.activities.iter()) {
        assert_eq!(x.name, y.name);
        assert_eq!(x.starting_date, y.starting_date);
        assert_eq!(x.dates, y.dates);
    }
}

#[test]
fn test_round_trip() {
    let data = sample_data();
    let bytes = encode(&data);
    let back = decode(&bytes).expect("an encoded save must decode");
    assert_same(&data, &back);
}

#[test]
fn test_round_trip_no_activities() {
    let data = UserData { activities: vec![] };
    let bytes = encode(&data);
    let back = decode(&bytes).expect("an empty save must decode");
    assert_eq!(back.activities.len(), 0);
}

#[test]
fn test_round_trip_empty_name() {
    let data = UserData {
        activities: vec![Activity {
            name: String::new(),
            starting_date: date(0, 1, 1),
            dates: vec![date(65535, 12, 31)],
        }],
    };
    let back = decode(&encode(&data)).expect("an empty name round-trips");
    assert_same(&data, &back);
}

#[test]
fn test_round_trip_longest_name() {
    let data = UserData {
        activities: vec![Activity {
            name: "y".repeat(255),
            starting_date: date(2020, 6, 1),
            dates: vec![],
        }],
    };
    let back = decode(&encode(&data)).expect("a 255-byte name round-trips");
    assert_same(&data, &back);
}

#[test]
fn test_try_encode_matches_encode() {
    let data = sample_data();
    assert_eq!(try_encode(&data).expect("the sample fits the format"), encode(&data));
}

#[test]
fn test_try_encode_rejects_long_name() {
    let data = UserData {
        activities: vec![Activity {
            name: "x".repeat(256),
            starting_date: date(2020, 1, 1),
            dates: vec![],
        }],
    };
    assert!(try_encode(&data).is_none());
}

#[test]
fn test_exact_bytes_of_small_save() {
    let data = UserData {
        activities: vec![Activity {
            name: "Ab".to_owned(),
            starting_date: date(2020, 1, 2),
            dates: vec![date(2021, 12, 31)],
        }],
    };
    let mut expected: Vec<u8> = Vec::new();
    expected.extend_from_slice(b"CALDOSAVE");
    expected.extend_from_slice(&[1, 0]); // version 1, little endian
    expected.extend_from_slice(&[1, 0, 0, 0]); // one activity
    expected.push(2); // name length in bytes
    expected.extend_from_slice(b"Ab");
    expected.extend_from_slice(&[0xe4, 0x07, 1, 2]); // 2020-01-02
    expected.extend_from_slice(&[1, 0, 0, 0]); // one date
    expected.extend_from_slice(&[0xe5, 0x07, 12, 31]); // 2021-12-31
    assert_eq!(encode(&data), expected);
}

#[test]
fn test_decode_rejects_foreign_magic() {
    let mut bytes = encode(&sample_data());
    bytes[0] = b'X';
    assert_eq!(decode(&bytes).unwrap_err(), DecodeError::FormatError);
}

#[test]
fn test_decode_rejects_other_version() {
    let mut bytes = encode(&sample_data());
    bytes[9] = 2;
    let err = decode(&bytes).unwrap_err();
    assert_eq!(err, DecodeError::VersionError);
    assert_ne!(err, DecodeError::FormatError);
}

#[test]
fn test_decode_rejects_truncation_everywhere() {
    let bytes = encode(&sample_data());
    for cut in 0..bytes.len() {
        assert_eq!(
            decode(&bytes[..cut]).unwrap_err(),
            DecodeError::TruncatedError,
            "cut at {cut}"
        );
    }
}

#[test]
fn test_decode_rejects_invalid_utf8_name() {
    let mut bytes: Vec<u8> = Vec::new();
    bytes.extend_from_slice(b"CALDOSAVE");
    bytes.extend_from_slice(&[1, 0]);
    bytes.extend_from_slice(&[1, 0, 0, 0]);
    bytes.push(2);
    bytes.extend_from_slice(&[0xff, 0xfe]); // not UTF-8
    bytes.extend_from_slice(&[0xe4, 0x07, 1, 2]);
    bytes.extend_from_slice(&[0, 0, 0, 0]);
    assert_eq!(decode(&bytes).unwrap_err(), DecodeError::EncodingError);
}

#[test]
fn test_decode_rejects_invalid_date() {
    let mut bytes: Vec<u8> = Vec::new();
    bytes.extend_from_slice(b"CALDOSAVE");
    bytes.extend_from_slice(&[1, 0]);
    bytes.extend_from_slice(&[1, 0, 0, 0]);
    bytes.push(1);
    bytes.push(b'A');
    bytes.extend_from_slice(&[0xe4, 0x07, 13, 1]); // month 13 names no day
    bytes.extend_from_slice(&[0, 0, 0, 0]);
    assert_eq!(decode(&bytes).unwrap_err(), DecodeError::FormatError);
}

#[test]
fn test_decode_collapses_repeated_dates() {
    let mut bytes: Vec<u8> = Vec::new();
    bytes.extend_from_slice(b"CALDOSAVE");
    bytes.extend_from_slice(&[1, 0]);
    bytes.extend_from_slice(&[1, 0, 0, 0]);
    bytes.push(1);
    bytes.push(b'A');
    bytes.extend_from_slice(&[0xe4, 0x07, 1, 2]);
    bytes.extend_from_slice(&[2, 0, 0, 0]); // the same date twice
    bytes.extend_from_slice(&[0xe4, 0x07, 3, 4]);
    bytes.extend_from_slice(&[0xe4, 0x07, 3, 4]);
    let back = decode(&bytes).expect("a stream with repeats still decodes");
    assert_eq!(back.activities[0].dates, vec![date(2020, 3, 4)]);
}

#[test]
fn test_decode_ignores_trailing_bytes() {
    let mut bytes = encode(&sample_data());
    bytes.push(0x5a);
    let back = decode(&bytes).expect("trailing bytes after the last activity are ignored");
    assert_same(&sample_data(), &back);
}
