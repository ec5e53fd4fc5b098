//! The object store: identifiers, loose decoding, pack reconstruction,
//! shadowing across backends, and absence kept apart from corruption.

use git_core::cache::DecodeEntry;
use git_core::cache::Never;
use git_core::compound;
use git_core::hash::ObjectId;
use git_core::linked;
use git_core::loose::Db as LooseDb;
use git_core::loose::LooseObject;
use git_core::object::decode_loose;
use git_core::object::encode_loose;
use git_core::object::Kind;
use git_core::pack;
use git_core::pack::DeltaOp;
use git_core::pack::IndexEntry;
use git_core::pack::Pack;
use git_core::pack::PackEntry;
use git_core::pack::PackSlot;

fn oid(hex: &str) -> ObjectId {
    ObjectId::from_hex(hex.as_bytes()).expect("valid hex")
}

const ID_A: &str = "aaaaaaaaaaaaaaaaaaaaaaaaaaaaaaaaaaaaaaaa";
const ID_B: &str = "bbbbbbbbbbbbbbbbbbbbbbbbbbbbbbbbbbbbbbbb";
const ID_C: &str = "cccccccccccccccccccccccccccccccccccccccc";

fn loose_backend(objects: Vec<(ObjectId, Vec<u8>)>) -> compound::Db {
    let objects = objects
        .into_iter()
        .map(|(o, bytes)| LooseObject { oid: o, bytes })
        .collect();
    compound::Db { loose: LooseDb { objects }, packs: Vec::new() }
}

#[test]
fn hex_round_trip() {
    let id = oid(ID_A);
    assert_eq!(id.to_hex(), ID_A.as_bytes().to_vec());
    let id2 = oid("0123456789abcdef0123456789ABCDEF01234567");
    assert_eq!(id2.to_hex(), b"0123456789abcdef0123456789abcdef01234567".to_vec());
    assert_eq!(ObjectId::from_hex(&id2.to_hex()), Some(id2));
}

#[test]
fn bad_hex_is_rejected() {
    assert_eq!(ObjectId::from_hex(b"abc"), None);
    assert_eq!(ObjectId::from_hex(b"zzzzzzzzzzzzzzzzzzzzzzzzzzzzzzzzzzzzzzzz"), None);
    assert_eq!(ObjectId::from_hex(b""), None);
}

#[test]
fn loose_codec_round_trips() {
    let enc = encode_loose(Kind::Blob, b"hello");
    assert_eq!(enc, b"blob 5\0hello".to_vec());
    let (k, d) = decode_loose(&enc).expect("well-formed");
    assert!(matches!(k, Kind::Blob));
    assert_eq!(d, b"hello".to_vec());
    let enc = encode_loose(Kind::Commit, b"");
    assert_eq!(enc, b"commit 0\0".to_vec());
    let (k, d) = decode_loose(&enc).expect("well-formed");
    assert!(matches!(k, Kind::Commit));
    assert_eq!(d, Vec::<u8>::new());
}

#[test]
fn malformed_loose_objects_are_rejected() {
    assert!(decode_loose(b"").is_none());
    assert!(decode_loose(b"blob5\0x").is_none());
    assert!(decode_loose(b"blob 5\0hi").is_none());
    assert!(decode_loose(b"blob 2\0hello").is_none());
    assert!(decode_loose(b"blob 02\0hi").is_none());
    assert!(decode_loose(b"sock 2\0hi").is_none());
    assert!(decode_loose(b"blob x\0hi").is_none());
}

#[test]
fn locate_returns_loose_bytes() {
    let db = linked::Db {
        dbs: vec![loose_backend(vec![(oid(ID_A), encode_loose(Kind::Blob, b"payload"))])],
    };
    let mut buf = Vec::new();
    let mut cache = Never;
    assert_eq!(db.locate(&oid(ID_A), &mut buf, &mut cache), Ok(Some(Kind::Blob)));
    assert_eq!(buf, b"payload".to_vec());
}

#[test]
fn shadowing_first_backend_wins() {
    // the same identifier in two backends with different bytes: the
    // higher-priority backend's bytes come back
    let db = linked::Db {
        dbs: vec![
            loose_backend(vec![(oid(ID_A), encode_loose(Kind::Blob, b"from A"))]),
            loose_backend(vec![(oid(ID_A), encode_loose(Kind::Blob, b"from B"))]),
        ],
    };
    let mut buf = Vec::new();
    let mut cache = Never;
    assert_eq!(db.locate(&oid(ID_A), &mut buf, &mut cache), Ok(Some(Kind::Blob)));
    assert_eq!(buf, b"from A".to_vec());
}

#[test]
fn absence_is_not_an_error() {
    let db = linked::Db {
        dbs: vec![loose_backend(vec![(oid(ID_A), encode_loose(Kind::Blob, b"x"))])],
    };
    let mut buf = Vec::new();
    let mut cache = Never;
    assert_eq!(db.locate(&oid(ID_B), &mut buf, &mut cache), Ok(None));
}

#[test]
fn corruption_is_not_absence() {
    // a broken delta chain: the only occurrence of the identifier names a
    // base absent from the index
    let p = Pack {
        pack_id: 1,
        index: vec![IndexEntry { oid: oid(ID_A), offset: 0 }],
        entries: vec![PackSlot {
            offset: 0,
            entry: PackEntry::RefDelta { base_id: oid(ID_C), ops: Vec::new() },
        }],
    };
    let db = linked::Db {
        dbs: vec![compound::Db { loose: LooseDb { objects: Vec::new() }, packs: vec![p] }],
    };
    let mut buf = Vec::new();
    let mut cache = Never;
    assert_eq!(
        db.locate(&oid(ID_A), &mut buf, &mut cache),
        Err(compound::Error::Pack(pack::Error::MissingBase))
    );
}

#[test]
fn index_without_entry_is_corruption() {
    // a malformed index: it names an offset at which no entry stands
    let p = Pack {
        pack_id: 6,
        index: vec![IndexEntry { oid: oid(ID_A), offset: 99 }],
        entries: Vec::new(),
    };
    let db = linked::Db {
        dbs: vec![compound::Db { loose: LooseDb { objects: Vec::new() }, packs: vec![p] }],
    };
    let mut buf = Vec::new();
    let mut cache = Never;
    assert_eq!(
        db.locate(&oid(ID_A), &mut buf, &mut cache),
        Err(compound::Error::Pack(pack::Error::MissingEntry))
    );
}

#[test]
fn truncated_loose_object_is_corruption() {
    let db = linked::Db {
        dbs: vec![loose_backend(vec![(oid(ID_A), b"blob 10\0short".to_vec())])],
    };
    let mut buf = Vec::new();
    let mut cache = Never;
    assert_eq!(
        db.locate(&oid(ID_A), &mut buf, &mut cache),
        Err(compound::Error::LooseCorrupt)
    );
}

#[test]
fn delta_chain_reconstructs_object() {
    // a base object rewritten by a copy and an insert, reachable by
    // offset and by identifier
    let p = Pack {
        pack_id: 7,
        index: vec![
            IndexEntry { oid: oid(ID_A), offset: 0 },
            IndexEntry { oid: oid(ID_B), offset: 10 },
            IndexEntry { oid: oid(ID_C), offset: 20 },
        ],
        entries: vec![
            PackSlot {
                offset: 0,
                entry: PackEntry::Base { kind: Kind::Blob, data: b"hello world".to_vec() },
            },
            PackSlot {
                offset: 10,
                entry: PackEntry::OfsDelta {
                    base_offset: 0,
                    ops: vec![
                        DeltaOp::Copy { from: 0, len: 5 },
                        DeltaOp::Insert { data: b"!".to_vec() },
                    ],
                },
            },
            PackSlot {
                offset: 20,
                entry: PackEntry::RefDelta {
                    base_id: oid(ID_B),
                    ops: vec![DeltaOp::Copy { from: 5, len: 1 }],
                },
            },
        ],
    };
    let db = linked::Db {
        dbs: vec![compound::Db { loose: LooseDb { objects: Vec::new() }, packs: vec![p] }],
    };
    let mut buf = Vec::new();
    let mut cache = Never;
    assert_eq!(db.locate(&oid(ID_B), &mut buf, &mut cache), Ok(Some(Kind::Blob)));
    assert_eq!(buf, b"hello!".to_vec());
    assert_eq!(db.locate(&oid(ID_C), &mut buf, &mut cache), Ok(Some(Kind::Blob)));
    assert_eq!(buf, b"!".to_vec());
}

#[test]
fn copy_outside_base_is_corruption() {
    let p = Pack {
        pack_id: 2,
        index: vec![IndexEntry { oid: oid(ID_A), offset: 1 }],
        entries: vec![
            PackSlot {
                offset: 0,
                entry: PackEntry::Base { kind: Kind::Blob, data: b"abc".to_vec() },
            },
            PackSlot {
                offset: 1,
                entry: PackEntry::OfsDelta {
                    base_offset: 0,
                    ops: vec![DeltaOp::Copy { from: 1, len: 5 }],
                },
            },
        ],
    };
    let db = linked::Db {
        dbs: vec![compound::Db { loose: LooseDb { objects: Vec::new() }, packs: vec![p] }],
    };
    let mut buf = Vec::new();
    let mut cache = Never;
    assert_eq!(
        db.locate(&oid(ID_A), &mut buf, &mut cache),
        Err(compound::Error::Pack(pack::Error::BadCopy))
    );
}

#[test]
fn overlong_delta_chain_is_corruption() {
    // one hop more than the bound: offset n is a delta against n - 1
    let mut entries = vec![PackSlot {
        offset: 0,
        entry: PackEntry::Base { kind: Kind::Blob, data: b"x".to_vec() },
    }];
    for i in 1..=65u64 {
        entries.push(PackSlot {
            offset: i,
            entry: PackEntry::OfsDelta {
                base_offset: i - 1,
                ops: vec![DeltaOp::Copy { from: 0, len: 1 }],
            },
        });
    }
    let p = Pack {
        pack_id: 3,
        index: vec![IndexEntry { oid: oid(ID_A), offset: 65 }],
        entries,
    };
    let db = linked::Db {
        dbs: vec![compound::Db { loose: LooseDb { objects: Vec::new() }, packs: vec![p] }],
    };
    let mut buf = Vec::new();
    let mut cache = Never;
    assert_eq!(
        db.locate(&oid(ID_A), &mut buf, &mut cache),
        Err(compound::Error::Pack(pack::Error::ChainTooDeep))
    );
}

#[test]
fn deepest_allowed_chain_still_decodes() {
    let mut entries = vec![PackSlot {
        offset: 0,
        entry: PackEntry::Base { kind: Kind::Blob, data: b"x".to_vec() },
    }];
    for i in 1..=64u64 {
        entries.push(PackSlot {
            offset: i,
            entry: PackEntry::OfsDelta {
                base_offset: i - 1,
                ops: vec![DeltaOp::Copy { from: 0, len: 1 }],
            },
        });
    }
    let p = Pack {
        pack_id: 4,
        index: vec![IndexEntry { oid: oid(ID_A), offset: 64 }],
        entries,
    };
    let db = linked::Db {
        dbs: vec![compound::Db { loose: LooseDb { objects: Vec::new() }, packs: vec![p] }],
    };
    let mut buf = Vec::new();
    let mut cache = Never;
    assert_eq!(db.locate(&oid(ID_A), &mut buf, &mut cache), Ok(Some(Kind::Blob)));
    assert_eq!(buf, b"x".to_vec());
}

#[test]
fn loose_shadows_packed_in_one_location() {
    let p = Pack {
        pack_id: 5,
        index: vec![IndexEntry { oid: oid(ID_A), offset: 0 }],
        entries: vec![PackSlot {
            offset: 0,
            entry: PackEntry::Base { kind: Kind::Blob, data: b"packed".to_vec() },
        }],
    };
    let mut db0 = loose_backend(vec![(oid(ID_A), encode_loose(Kind::Blob, b"loose"))]);
    db0.packs = vec![p];
    let db = linked::Db { dbs: vec![db0] };
    let mut buf = Vec::new();
    let mut cache = Never;
    assert_eq!(db.locate(&oid(ID_A), &mut buf, &mut cache), Ok(Some(Kind::Blob)));
    assert_eq!(buf, b"loose".to_vec());
}

#[test]
fn bounded_cache_remembers_and_evicts() {
    let mut cache = git_core::cache::Memory::new(2);
    assert!(cache.get(1, 0).is_none());
    cache.put(1, 0, Kind::Blob, b"aa");
    cache.put(1, 1, Kind::Tree, b"bb");
    assert!(matches!(cache.get(1, 0), Some((Kind::Blob, d)) if d == b"aa".to_vec()));
    assert!(matches!(cache.get(1, 1), Some((Kind::Tree, d)) if d == b"bb".to_vec()));
    // a third entry evicts the oldest
    cache.put(1, 2, Kind::Blob, b"cc");
    assert!(cache.get(1, 0).is_none());
    assert!(matches!(cache.get(1, 2), Some((Kind::Blob, d)) if d == b"cc".to_vec()));
    // overwriting a key keeps the cache bounded and current
    cache.put(1, 2, Kind::Blob, b"dd");
    assert!(matches!(cache.get(1, 2), Some((Kind::Blob, d)) if d == b"dd".to_vec()));
}

#[test]
fn locate_with_bounded_cache_matches_uncached() {
    let p = Pack {
        pack_id: 9,
        index: vec![
            IndexEntry { oid: oid(ID_A), offset: 0 },
            IndexEntry { oid: oid(ID_B), offset: 10 },
        ],
        entries: vec![
            PackSlot {
                offset: 0,
                entry: PackEntry::Base { kind: Kind::Blob, data: b"base".to_vec() },
            },
            PackSlot {
                offset: 10,
                entry: PackEntry::OfsDelta {
                    base_offset: 0,
                    ops: vec![DeltaOp::Copy { from: 0, len: 4 }],
                },
            },
        ],
    };
    let db = linked::Db {
        dbs: vec![compound::Db { loose: LooseDb { objects: Vec::new() }, packs: vec![p] }],
    };
    let mut cache = git_core::cache::Memory::new(8);
    let mut buf = Vec::new();
    // twice through the same cache: the second hit comes memoized
    assert_eq!(db.locate(&oid(ID_B), &mut buf, &mut cache), Ok(Some(Kind::Blob)));
    assert_eq!(buf, b"base".to_vec());
    buf.clear();
    assert_eq!(db.locate(&oid(ID_B), &mut buf, &mut cache), Ok(Some(Kind::Blob)));
    assert_eq!(buf, b"base".to_vec());
}

#[test]
fn noop_cache_misses_and_ignores_puts() {
    let mut cache = Never;
    cache.put(1, 2, Kind::Blob, b"abc");
    assert!(cache.get(1, 2).is_none());
}

#[test]
fn apply_delta_rewrites_base() {
    let out = pack::apply_delta(
        b"0123456789",
        &[
            DeltaOp::Copy { from: 2, len: 3 },
            DeltaOp::Insert { data: b"-".to_vec() },
            DeltaOp::Copy { from: 8, len: 2 },
        ],
    )
    .expect("in range");
    assert_eq!(out, b"234-89".to_vec());
    assert!(pack::apply_delta(b"abc", &[DeltaOp::Copy { from: 3, len: 1 }]).is_none());
}
