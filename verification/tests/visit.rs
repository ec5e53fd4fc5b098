//! Diff traversals over in-memory stores: the observed golden sequences,
//! pruning, additions from the empty tree, and the round trip of applying
//! the emitted changes.

use git_core::cache::Never;
use git_core::compound;
use git_core::diff::Change;
use git_core::diff::Changes;
use git_core::diff::Recorder;
use git_core::diff::State;
use git_core::hash::ObjectId;
use git_core::linked;
use git_core::linked::StoreResolver;
use git_core::loose::Db as LooseDb;
use git_core::loose::LooseObject;
use git_core::object::encode_loose;
use git_core::object::Kind;
use git_core::tree::encode_tree;
use git_core::tree::parse_tree;
use git_core::tree::EntryMode;
use git_core::tree::Tree;
use git_core::tree::TreeEntry;

fn oid(hex: &str) -> ObjectId {
    ObjectId::from_hex(hex.as_bytes()).expect("valid hex")
}

fn entry(mode: EntryMode, name: &str, id: &ObjectId) -> TreeEntry {
    TreeEntry { mode, filename: name.as_bytes().to_vec(), oid: *id }
}

fn tree_obj(entries: Vec<TreeEntry>) -> Vec<u8> {
    encode_loose(Kind::Tree, &encode_tree(&Tree { entries }))
}

fn db_of(objects: Vec<(ObjectId, Vec<u8>)>) -> linked::Db {
    let objects = objects
        .into_iter()
        .map(|(o, bytes)| LooseObject { oid: o, bytes })
        .collect();
    linked::Db { dbs: vec![compound::Db { loose: LooseDb { objects }, packs: Vec::new() }] }
}

fn tree_of(db: &linked::Db, id: &ObjectId) -> Tree {
    let mut buf = Vec::new();
    let mut cache = Never;
    match db.locate(id, &mut buf, &mut cache) {
        Ok(Some(Kind::Tree)) => parse_tree(&buf).expect("tree parses"),
        other => panic!("expected a tree, got {:?}", other.map(|_| ())),
    }
}

fn diff_with(db: &linked::Db, previous: Option<&ObjectId>, new_id: &ObjectId) -> Vec<Change> {
    let previous = previous.map(|id| tree_of(db, id));
    let new = tree_of(db, new_id);
    let mut state = State::default();
    let mut resolver = StoreResolver { db, cache: Never, buf: Vec::new() };
    let mut recorder = Recorder::new();
    Changes::from(previous)
        .needed_to_obtain(new, &mut state, &mut resolver, &mut recorder)
        .expect("traversal completes");
    recorder.records
}

const EMPTY_BLOB: &str = "e69de29bb2d1d6434b8b29ae775ad8c2e48c5391";
const BLOB_B: &str = "28ce6a8b26aa170e1de65536fe8abe1832bd3242";
const TREE_F: &str = "10f2f4b82222d2b5c31985130979a91fd87410f7";
const TREE_F2: &str = "ebbe0b3000afdfd1aed15000094b59a2800328eb";
const BLOB_C: &str = "13c2aca72ab576cb5f22dc8e7f8ba8ddab553a8a";
const ROOT_1: &str = "1111111111111111111111111111111111111111";
const ROOT_2: &str = "2222222222222222222222222222222222222222";
const ROOT_3: &str = "3333333333333333333333333333333333333333";
const ROOT_4: &str = "4444444444444444444444444444444444444444";

#[test]
fn many_different_states() {
    // an empty repository gains blob `f`
    let db = db_of(vec![
        (oid(EMPTY_BLOB), encode_loose(Kind::Blob, b"")),
        (oid(ROOT_1), tree_obj(vec![entry(EntryMode::Blob, "f", &oid(EMPTY_BLOB))])),
    ]);
    assert_eq!(
        diff_with(&db, None, &oid(ROOT_1)),
        vec![Change::Addition {
            entry_mode: EntryMode::Blob,
            oid: oid(EMPTY_BLOB),
            path: b"f".to_vec(),
        }]
    );

    // blob `f` changes content
    let db = db_of(vec![
        (oid(EMPTY_BLOB), encode_loose(Kind::Blob, b"")),
        (oid(BLOB_B), encode_loose(Kind::Blob, b"hi")),
        (oid(ROOT_1), tree_obj(vec![entry(EntryMode::Blob, "f", &oid(EMPTY_BLOB))])),
        (oid(ROOT_2), tree_obj(vec![entry(EntryMode::Blob, "f", &oid(BLOB_B))])),
    ]);
    assert_eq!(
        diff_with(&db, Some(&oid(ROOT_1)), &oid(ROOT_2)),
        vec![Change::Modification {
            previous_entry_mode: EntryMode::Blob,
            previous_oid: oid(EMPTY_BLOB),
            entry_mode: EntryMode::Blob,
            oid: oid(BLOB_B),
            path: b"f".to_vec(),
        }]
    );

    // blob `f` becomes tree `f` containing blob `f`
    let db = db_of(vec![
        (oid(BLOB_B), encode_loose(Kind::Blob, b"hi")),
        (oid(TREE_F), tree_obj(vec![entry(EntryMode::Blob, "f", &oid(BLOB_B))])),
        (oid(ROOT_2), tree_obj(vec![entry(EntryMode::Blob, "f", &oid(BLOB_B))])),
        (oid(ROOT_3), tree_obj(vec![entry(EntryMode::Tree, "f", &oid(TREE_F))])),
    ]);
    assert_eq!(
        diff_with(&db, Some(&oid(ROOT_2)), &oid(ROOT_3)),
        vec![
            Change::Deletion {
                entry_mode: EntryMode::Blob,
                oid: oid(BLOB_B),
                path: b"f".to_vec(),
            },
            Change::Addition {
                entry_mode: EntryMode::Tree,
                oid: oid(TREE_F),
                path: b"f".to_vec(),
            },
            Change::Addition {
                entry_mode: EntryMode::Blob,
                oid: oid(BLOB_B),
                path: b"f/f".to_vec(),
            },
        ]
    );

    // tree `f` gets a new identifier and its contained blob changes
    let db = db_of(vec![
        (oid(BLOB_B), encode_loose(Kind::Blob, b"hi")),
        (oid(BLOB_C), encode_loose(Kind::Blob, b"ho")),
        (oid(TREE_F), tree_obj(vec![entry(EntryMode::Blob, "f", &oid(BLOB_B))])),
        (oid(TREE_F2), tree_obj(vec![entry(EntryMode::Blob, "f", &oid(BLOB_C))])),
        (oid(ROOT_3), tree_obj(vec![entry(EntryMode::Tree, "f", &oid(TREE_F))])),
        (oid(ROOT_4), tree_obj(vec![entry(EntryMode::Tree, "f", &oid(TREE_F2))])),
    ]);
    assert_eq!(
        diff_with(&db, Some(&oid(ROOT_3)), &oid(ROOT_4)),
        vec![
            Change::Modification {
                previous_entry_mode: EntryMode::Tree,
                previous_oid: oid(TREE_F),
                entry_mode: EntryMode::Tree,
                oid: oid(TREE_F2),
                path: b"f".to_vec(),
            },
            Change::Modification {
                previous_entry_mode: EntryMode::Blob,
                previous_oid: oid(BLOB_B),
                entry_mode: EntryMode::Blob,
                oid: oid(BLOB_C),
                path: b"f/f".to_vec(),
            },
        ]
    );
}

#[test]
fn identity_pruning_skips_shared_subtree() {
    // both sides share subtree `d`; sibling `z` differs; nothing below `d/`
    // may be reported, and `d` itself is not resolvable — pruning must not
    // even try
    let shared = oid(TREE_F);
    let db = db_of(vec![
        (oid(EMPTY_BLOB), encode_loose(Kind::Blob, b"")),
        (oid(BLOB_B), encode_loose(Kind::Blob, b"hi")),
        (
            oid(ROOT_1),
            tree_obj(vec![
                entry(EntryMode::Tree, "d", &shared),
                entry(EntryMode::Blob, "z", &oid(EMPTY_BLOB)),
            ]),
        ),
        (
            oid(ROOT_2),
            tree_obj(vec![
                entry(EntryMode::Tree, "d", &shared),
                entry(EntryMode::Blob, "z", &oid(BLOB_B)),
            ]),
        ),
    ]);
    let changes = diff_with(&db, Some(&oid(ROOT_1)), &oid(ROOT_2));
    assert_eq!(
        changes,
        vec![Change::Modification {
            previous_entry_mode: EntryMode::Blob,
            previous_oid: oid(EMPTY_BLOB),
            entry_mode: EntryMode::Blob,
            oid: oid(BLOB_B),
            path: b"z".to_vec(),
        }]
    );
    for c in &changes {
        let path = match c {
            Change::Addition { path, .. } => path,
            Change::Deletion { path, .. } => path,
            Change::Modification { path, .. } => path,
        };
        assert!(!path.starts_with(b"d/"));
    }
}

#[test]
fn addition_from_empty_lists_every_leaf() {
    // diffing (None, T) where T holds tree `d` with blobs `a` and `b`:
    // exactly three additions, no deletions, no modifications
    let db = db_of(vec![
        (oid(EMPTY_BLOB), encode_loose(Kind::Blob, b"")),
        (oid(BLOB_B), encode_loose(Kind::Blob, b"hi")),
        (
            oid(TREE_F),
            tree_obj(vec![
                entry(EntryMode::Blob, "a", &oid(EMPTY_BLOB)),
                entry(EntryMode::Blob, "b", &oid(BLOB_B)),
            ]),
        ),
        (oid(ROOT_1), tree_obj(vec![entry(EntryMode::Tree, "d", &oid(TREE_F))])),
    ]);
    assert_eq!(
        diff_with(&db, None, &oid(ROOT_1)),
        vec![
            Change::Addition {
                entry_mode: EntryMode::Tree,
                oid: oid(TREE_F),
                path: b"d".to_vec(),
            },
            Change::Addition {
                entry_mode: EntryMode::Blob,
                oid: oid(EMPTY_BLOB),
                path: b"d/a".to_vec(),
            },
            Change::Addition {
                entry_mode: EntryMode::Blob,
                oid: oid(BLOB_B),
                path: b"d/b".to_vec(),
            },
        ]
    );
}

#[test]
fn resolve_failure_aborts_traversal() {
    // the new side names a tree the store does not hold
    let db = db_of(vec![(
        oid(ROOT_1),
        tree_obj(vec![entry(EntryMode::Tree, "d", &oid(TREE_F))]),
    )]);
    let new = tree_of(&db, &oid(ROOT_1));
    let mut state = State::default();
    let mut resolver = StoreResolver { db: &db, cache: Never, buf: Vec::new() };
    let mut recorder = Recorder::new();
    let r = Changes::from(None).needed_to_obtain(new, &mut state, &mut resolver, &mut recorder);
    assert!(r.is_err());
}

/// One flattened tree state: full path to (mode, id).
type Flat = Vec<(Vec<u8>, EntryMode, ObjectId)>;

fn flatten(db: &linked::Db, id: &ObjectId, prefix: &[u8], out: &mut Flat) {
    let t = tree_of(db, id);
    for e in &t.entries {
        let mut path = prefix.to_vec();
        if !path.is_empty() {
            path.push(b'/');
        }
        path.extend_from_slice(&e.filename);
        out.push((path.clone(), e.mode, e.oid));
        if matches!(e.mode, EntryMode::Tree) {
            flatten(db, &e.oid, &path, out);
        }
    }
}

fn apply_changes(mut state: Flat, changes: &[Change]) -> Flat {
    for c in changes {
        match c {
            Change::Addition { entry_mode, oid, path } => {
                state.retain(|(p, _, _)| p != path);
                state.push((path.clone(), *entry_mode, *oid));
            }
            Change::Deletion { path, .. } => {
                let mut below = path.clone();
                below.push(b'/');
                state.retain(|(p, _, _)| p != path && !p.starts_with(&below[..]));
            }
            Change::Modification { entry_mode, oid, path, .. } => {
                state.retain(|(p, _, _)| p != path);
                state.push((path.clone(), *entry_mode, *oid));
            }
        }
    }
    state.sort_by(|a, b| a.0.cmp(&b.0));
    state
}

#[test]
fn round_trip_reconstructs_new_state() {
    // applying the emitted changes to the previous flattened state yields
    // the new flattened state: entries change, a subtree disappears, a
    // subtree appears
    let db = db_of(vec![
        (oid(EMPTY_BLOB), encode_loose(Kind::Blob, b"")),
        (oid(BLOB_B), encode_loose(Kind::Blob, b"hi")),
        (oid(BLOB_C), encode_loose(Kind::Blob, b"ho")),
        (oid(TREE_F), tree_obj(vec![entry(EntryMode::Blob, "x", &oid(EMPTY_BLOB))])),
        (oid(TREE_F2), tree_obj(vec![entry(EntryMode::Blob, "y", &oid(BLOB_C))])),
        (
            oid(ROOT_1),
            tree_obj(vec![
                entry(EntryMode::Tree, "gone", &oid(TREE_F)),
                entry(EntryMode::Blob, "keep", &oid(EMPTY_BLOB)),
                entry(EntryMode::Blob, "turn", &oid(EMPTY_BLOB)),
            ]),
        ),
        (
            oid(ROOT_2),
            tree_obj(vec![
                entry(EntryMode::Tree, "come", &oid(TREE_F2)),
                entry(EntryMode::Blob, "keep", &oid(EMPTY_BLOB)),
                entry(EntryMode::Blob, "turn", &oid(BLOB_B)),
            ]),
        ),
    ]);
    let changes = diff_with(&db, Some(&oid(ROOT_1)), &oid(ROOT_2));
    let mut before: Flat = Vec::new();
    flatten(&db, &oid(ROOT_1), b"", &mut before);
    let mut after: Flat = Vec::new();
    flatten(&db, &oid(ROOT_2), b"", &mut after);
    after.sort_by(|a, b| a.0.cmp(&b.0));
    assert_eq!(apply_changes(before, &changes), after);
}

#[test]
fn tree_codec_round_trips() {
    let t = Tree {
        entries: vec![
            entry(EntryMode::Blob, "a", &oid(EMPTY_BLOB)),
            entry(EntryMode::Tree, "d", &oid(TREE_F)),
            entry(EntryMode::Link, "l", &oid(BLOB_B)),
        ],
    };
    let bytes = encode_tree(&t);
    let back = parse_tree(&bytes).expect("round trip parses");
    assert_eq!(encode_tree(&back), bytes);
    assert_eq!(back.entries.len(), 3);
    assert!(matches!(back.entries[1].mode, EntryMode::Tree));
    assert_eq!(back.entries[2].filename, b"l".to_vec());
    assert_eq!(back.entries[0].oid, oid(EMPTY_BLOB));
}

#[test]
fn malformed_tree_payloads_are_rejected() {
    assert!(parse_tree(b"no space here").is_none());
    // a bad mode token
    assert!(parse_tree(b"999999 f\0aaaaaaaaaaaaaaaaaaaa").is_none());
    // a truncated identifier
    assert!(parse_tree(b"100644 f\0short").is_none());
    // an empty name
    assert!(parse_tree(b"100644 \0aaaaaaaaaaaaaaaaaaaa").is_none());
    // the empty payload is the empty tree
    assert_eq!(parse_tree(b"").expect("empty tree").entries.len(), 0);
}
