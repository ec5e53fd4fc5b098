//! Name validation, the reference store's path arithmetic, and the
//! transport-side sideband decisions.

use git_core::refstore::Store;
use git_core::transport::decode_band;
use git_core::transport::message_kind_of;
use git_core::transport::reset_delimiters;
use git_core::transport::sideband_step;
use git_core::transport::Band;
use git_core::transport::MessageKind;
use git_core::transport::PacketLine;
use git_core::transport::Protocol;
use git_core::transport::SidebandStep;
use git_core::validate::reference;
use git_core::validate::tag;

#[test]
fn tag_names_accept_ordinary_names() {
    assert_eq!(tag::name(b"v1.0").expect("valid"), b"v1.0");
    assert_eq!(tag::name(b"release/2024").expect("valid"), b"release/2024");
}

#[test]
fn tag_names_reject_each_offence() {
    assert!(matches!(tag::name(b""), Err(tag::Error::Empty)));
    assert!(matches!(tag::name(b"a/"), Err(tag::Error::EndsWithSlash)));
    match tag::name(b"a b") {
        Err(tag::Error::InvalidByte(n)) => assert_eq!(n, b"a b".to_vec()),
        other => panic!("expected the offending name back, got {:?}", other),
    }
    assert!(matches!(tag::name(b"a\x07b"), Err(tag::Error::InvalidByte(_))));
    assert!(matches!(tag::name(b"a*b"), Err(tag::Error::Asterisk)));
    assert!(matches!(tag::name(b"a..b"), Err(tag::Error::DoubleDot)));
    assert!(matches!(tag::name(b"a@{b"), Err(tag::Error::ReflogPortion)));
    assert!(matches!(tag::name(b".a"), Err(tag::Error::StartsWithDot)));
    assert!(matches!(tag::name(b"a.lock"), Err(tag::Error::LockFileSuffix)));
}

#[test]
fn reference_names_accept_branches_and_standalone_upper() {
    assert_eq!(reference::name(b"refs/heads/main").expect("valid"), b"refs/heads/main");
    assert_eq!(reference::name(b"HEAD").expect("valid"), b"HEAD");
}

#[test]
fn reference_names_reject_each_offence() {
    assert!(matches!(reference::name(b"a*b"), Err(reference::Error::Tag(_))));
    assert!(matches!(reference::name(b"/a"), Err(reference::Error::StartsWithSlash)));
    assert!(matches!(reference::name(b"a//b"), Err(reference::Error::RepeatedSlash)));
    assert!(matches!(reference::name(b"a/./b"), Err(reference::Error::SingleDot)));
    assert!(matches!(reference::name(b"head"), Err(reference::Error::SomeLowercase)));
    assert!(matches!(reference::name(b"HEAD2"), Err(reference::Error::SomeLowercase)));
}

#[test]
fn refs_dir_joins_below_base() {
    let store = Store { base: b".git".to_vec() };
    assert_eq!(store.refs_dir(), b".git/refs".to_vec());
}

#[test]
fn bands_classify_by_leading_byte() {
    assert!(matches!(decode_band(b"\x01abc"), Some(Band::Data(d)) if d == b"abc".to_vec()));
    assert!(matches!(decode_band(b"\x02pct"), Some(Band::Progress(d)) if d == b"pct".to_vec()));
    assert!(matches!(decode_band(b"\x03err"), Some(Band::Error(d)) if d == b"err".to_vec()));
    assert!(decode_band(b"").is_none());
    assert!(decode_band(b"\x04x").is_none());
}

#[test]
fn sideband_steps_follow_the_band() {
    let data = PacketLine::Data(b"\x01bytes".to_vec());
    assert!(matches!(
        sideband_step(Some(&data), true),
        SidebandStep::Deliver(d) if d == b"bytes".to_vec()
    ));
    let progress = PacketLine::Data(b"\x02half".to_vec());
    assert!(matches!(
        sideband_step(Some(&progress), true),
        SidebandStep::Progress(d) if d == b"half".to_vec()
    ));
    let error = PacketLine::Data(b"\x03boom".to_vec());
    assert!(matches!(
        sideband_step(Some(&error), true),
        SidebandStep::RemoteError(d) if d == b"boom".to_vec()
    ));
    // without a handler the payload is the stream itself
    assert!(matches!(
        sideband_step(Some(&data), false),
        SidebandStep::Deliver(d) if d == b"\x01bytes".to_vec()
    ));
    // a non-data line in a data-only context fails the read
    assert!(matches!(sideband_step(Some(&PacketLine::Flush), false), SidebandStep::Malformed));
    assert!(matches!(sideband_step(None, true), SidebandStep::Stop));
    let bad = PacketLine::Data(b"\x09x".to_vec());
    assert!(matches!(sideband_step(Some(&bad), true), SidebandStep::Malformed));
}

#[test]
fn reset_and_stop_marks_follow_the_protocol() {
    let v1 = reset_delimiters(Protocol::V1);
    assert_eq!(v1.len(), 1);
    assert!(matches!(v1[0], PacketLine::Flush));
    let v2 = reset_delimiters(Protocol::V2);
    assert_eq!(v2.len(), 2);
    assert!(matches!(v2[0], PacketLine::Delimiter));
    assert!(matches!(v2[1], PacketLine::Flush));
    assert_eq!(message_kind_of(&PacketLine::Flush), MessageKind::Flush);
    assert_eq!(message_kind_of(&PacketLine::Delimiter), MessageKind::Delimiter);
    assert_eq!(message_kind_of(&PacketLine::ResponseEnd), MessageKind::ResponseEnd);
}
