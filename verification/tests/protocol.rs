use amanita::codec::decode;
use amanita::codec::encode;
use amanita::diff::find_changed_files;
use amanita::diff::names_match;
use amanita::manifest::sort_by_modified_desc;
use amanita::manifest::walk_dir;
use amanita::manifest::Data;
use amanita::manifest::Directory;
use amanita::manifest::FileData;
use amanita::manifest::FsNode;
use amanita::path::find_common_prefix;
use amanita::path::reconcile;
use amanita::path::FilePath;
use amanita::session::decode_response;
use amanita::session::handle_message;
use amanita::session::package_payload;
use amanita::session::request_files;
use amanita::session::ProtocolError;
use amanita::session::ServerAction;
use amanita::session::ServerEvent;

fn path(parts: &[&str]) -> FilePath {
    FilePath {
        components: parts.iter().map(|p| p.as_bytes().to_vec()).collect(),
    }
}

fn desc(parts: &[&str], modified: u64, size: u64) -> Directory {
    Directory {
        file_path: path(parts),
        modified,
        size,
    }
}

// Manifest builder

#[test]
fn walk_non_directory_is_empty() {
    let node = FsNode::File {
        info: desc(&["top", "a.txt"], 7, 3),
    };
    let manifest = walk_dir(&node);
    assert!(manifest.is_empty());
}

#[test]
fn walk_collects_every_file_in_subtree() {
    let tree = FsNode::Dir {
        entries: vec![
            FsNode::File {
                info: desc(&["root", "a.txt"], 10, 1),
            },
            FsNode::Dir {
                entries: vec![
                    FsNode::File {
                        info: desc(&["root", "sub", "b.txt"], 20, 2),
                    },
                    FsNode::Dir { entries: vec![] },
                    FsNode::File {
                        info: desc(&["root", "sub", "c.txt"], 30, 3),
                    },
                ],
            },
        ],
    };
    let manifest = walk_dir(&tree);
    assert_eq!(
        manifest,
        vec![
            desc(&["root", "a.txt"], 10, 1),
            desc(&["root", "sub", "b.txt"], 20, 2),
            desc(&["root", "sub", "c.txt"], 30, 3),
        ]
    );
}

#[test]
fn sort_orders_most_recently_modified_first() {
    let v = vec![
        desc(&["r", "old.txt"], 1, 10),
        desc(&["r", "new.txt"], 5, 11),
        desc(&["r", "mid.txt"], 3, 12),
    ];
    let sorted = sort_by_modified_desc(v);
    let times: Vec<u64> = sorted.iter().map(|d| d.modified).collect();
    assert_eq!(times, vec![5, 3, 1]);
    let sizes: Vec<u64> = sorted.iter().map(|d| d.size).collect();
    assert_eq!(sizes, vec![11, 12, 10]);
}

// Diff engine

#[test]
fn diff_unmatched_name_is_changed() {
    let client = vec![desc(&["send", "a.txt"], 1, 100)];
    let server = vec![desc(&["recv", "other.txt"], 1, 100)];
    let changed = find_changed_files(&client, &server);
    assert_eq!(changed, vec![desc(&["send", "a.txt"], 1, 100)]);
}

#[test]
fn diff_both_time_and_size_differ_is_changed() {
    let client = vec![desc(&["send", "a.txt"], 2, 200)];
    let server = vec![desc(&["recv", "a.txt"], 1, 100)];
    let changed = find_changed_files(&client, &server);
    assert_eq!(changed.len(), 1);
    assert_eq!(changed[0], desc(&["send", "a.txt"], 2, 200));
}

#[test]
fn diff_identical_entry_is_unchanged() {
    let client = vec![desc(&["send", "b.txt"], 4, 40)];
    let server = vec![desc(&["recv", "b.txt"], 4, 40)];
    let changed = find_changed_files(&client, &server);
    assert!(changed.is_empty());
}

#[test]
fn diff_only_time_differs_is_unchanged() {
    let client = vec![desc(&["send", "c.txt"], 9, 40)];
    let server = vec![desc(&["recv", "c.txt"], 4, 40)];
    let changed = find_changed_files(&client, &server);
    assert!(changed.is_empty());
}

#[test]
fn diff_only_size_differs_is_unchanged() {
    let client = vec![desc(&["send", "c.txt"], 4, 99)];
    let server = vec![desc(&["recv", "c.txt"], 4, 40)];
    let changed = find_changed_files(&client, &server);
    assert!(changed.is_empty());
}

#[test]
fn diff_first_name_match_wins() {
    let client = vec![desc(&["send", "x.txt"], 4, 40)];
    let server = vec![
        desc(&["recv", "one", "x.txt"], 4, 40),
        desc(&["recv", "two", "x.txt"], 9, 99),
    ];
    let changed = find_changed_files(&client, &server);
    assert!(changed.is_empty());
}

#[test]
fn diff_compares_file_name_not_full_path() {
    let client = vec![desc(&["send", "deep", "x.txt"], 5, 50)];
    let server = vec![desc(&["recv", "elsewhere", "x.txt"], 5, 50)];
    let changed = find_changed_files(&client, &server);
    assert!(changed.is_empty());
}

#[test]
fn names_match_on_final_component_only() {
    assert!(names_match(&path(&["a", "b", "x.txt"]), &path(&["x.txt"])));
    assert!(!names_match(&path(&["a", "x.txt"]), &path(&["a", "y.txt"])));
    assert!(names_match(&path(&[]), &path(&[])));
    assert!(!names_match(&path(&[]), &path(&["x.txt"])));
}

// Codec

#[test]
fn round_trip_manifest_message() {
    let make = || Data::WebMessage {
        directories: vec![
            desc(&["root", "a.txt"], 11, 100),
            desc(&["root", "sub", "b.txt"], 22, 0),
            desc(&[], 0, u64::MAX),
        ],
    };
    let bytes = encode(&make());
    assert_eq!(decode(&bytes), Some(make()));
}

#[test]
fn round_trip_payload_message() {
    let make = || Data::JsonFileMessage {
        file: FileData {
            dir: path(&["root", "sub", "b.txt"]),
            contents: vec![0, 1, 2, 255, 254],
        },
    };
    let bytes = encode(&make());
    assert_eq!(decode(&bytes), Some(make()));
}

#[test]
fn round_trip_empty_manifest() {
    let make = || Data::WebMessage {
        directories: vec![],
    };
    let bytes = encode(&make());
    assert_eq!(decode(&bytes), Some(make()));
}

#[test]
fn decode_rejects_garbage() {
    assert_eq!(decode(&vec![1, 2, 3]), None);
    assert_eq!(decode(&vec![]), None);
}

#[test]
fn decode_rejects_trailing_bytes() {
    let msg = Data::WebMessage {
        directories: vec![desc(&["r", "a"], 1, 2)],
    };
    let mut bytes = encode(&msg);
    bytes.push(0);
    assert_eq!(decode(&bytes), None);
}

#[test]
fn decode_rejects_unknown_leading_field() {
    // A well-formed length-prefixed name that is neither field name.
    let mut bytes = vec![5, 0, 0, 0, 0, 0, 0, 0];
    bytes.extend_from_slice(b"other");
    assert_eq!(decode(&bytes), None);
}

#[test]
fn encoded_shapes_differ_structurally() {
    // The two shapes share no leading field, so their encodings differ
    // from the first field name on.
    let manifest = encode(&Data::WebMessage {
        directories: vec![],
    });
    let payload = encode(&Data::JsonFileMessage {
        file: FileData {
            dir: path(&[]),
            contents: vec![],
        },
    });
    assert_ne!(manifest, payload);
    assert_ne!(manifest[8..19].to_vec(), payload[8..12].to_vec());
}

// Path reconciler

#[test]
fn common_prefix_splits_first_path() {
    let a = path(&["a", "b", "c"]);
    let b = path(&["a", "b", "d", "e"]);
    let (prefix, rest) = find_common_prefix(&a, &b);
    assert_eq!(prefix, path(&["a", "b"]));
    assert_eq!(rest, path(&["c"]));
}

#[test]
fn reconcile_merges_shared_prefix() {
    let origin = path(&["a", "b", "c.txt"]);
    let dest = path(&["a", "out"]);
    let target = reconcile(&origin, &dest);
    assert_eq!(target, path(&["a", "out", "b", "c.txt"]));
}

#[test]
fn reconcile_is_deterministic() {
    let origin = path(&["x", "y", "f.txt"]);
    let dest = path(&["x", "dest"]);
    let first = reconcile(&origin, &dest);
    let second = reconcile(&origin, &dest);
    assert_eq!(first, second);
}

#[test]
fn reconcile_without_shared_prefix_concatenates() {
    let origin = path(&["send", "f.txt"]);
    let dest = path(&["recv", "out"]);
    let target = reconcile(&origin, &dest);
    assert_eq!(target, path(&["recv", "out", "send", "f.txt"]));
}

#[test]
fn reconcile_result_begins_with_shared_prefix() {
    let origin = path(&["top", "shared", "data", "f.txt"]);
    let dest = path(&["top", "shared", "mirror"]);
    let target = reconcile(&origin, &dest);
    assert_eq!(
        target.components[..2].to_vec(),
        path(&["top", "shared"]).components
    );
}

// Session steps

#[test]
fn sender_request_sorts_and_encodes_manifest() {
    let dirs = vec![
        desc(&["r", "old.txt"], 1, 10),
        desc(&["r", "new.txt"], 9, 20),
    ];
    let (sorted, bytes) = request_files(dirs);
    let times: Vec<u64> = sorted.iter().map(|d| d.modified).collect();
    assert_eq!(times, vec![9, 1]);
    assert_eq!(
        decode(&bytes),
        Some(Data::WebMessage {
            directories: vec![
                desc(&["r", "new.txt"], 9, 20),
                desc(&["r", "old.txt"], 1, 10),
            ],
        })
    );
}

#[test]
fn package_payload_pairs_path_with_contents() {
    let d = desc(&["send", "a.txt"], 3, 4);
    let bytes = package_payload(&d, vec![9, 8, 7, 6]);
    assert_eq!(
        decode(&bytes),
        Some(Data::JsonFileMessage {
            file: FileData {
                dir: path(&["send", "a.txt"]),
                contents: vec![9, 8, 7, 6],
            },
        })
    );
}

#[test]
fn decode_response_accepts_manifest_reply() {
    let reply = encode(&Data::WebMessage {
        directories: vec![desc(&["send", "a.txt"], 1, 2)],
    });
    assert_eq!(
        decode_response(&reply),
        Ok(vec![desc(&["send", "a.txt"], 1, 2)])
    );
}

#[test]
fn decode_response_rejects_payload_as_protocol_error() {
    let frame = encode(&Data::JsonFileMessage {
        file: FileData {
            dir: path(&["send", "a.txt"]),
            contents: vec![1],
        },
    });
    assert_eq!(decode_response(&frame), Err(ProtocolError::UnexpectedPayload));
}

#[test]
fn decode_response_rejects_malformed_bytes() {
    assert_eq!(
        decode_response(&vec![42, 42]),
        Err(ProtocolError::MalformedMessage)
    );
}

#[test]
fn receiver_replies_to_manifest_with_changed_subset() {
    let server_manifest = vec![desc(&["recv", "b.txt"], 4, 40)];
    let inbound = encode(&Data::WebMessage {
        directories: vec![
            desc(&["send", "a.txt"], 1, 100),
            desc(&["send", "b.txt"], 4, 40),
        ],
    });
    let action = handle_message(
        ServerEvent::Frame { payload: inbound },
        &server_manifest,
        &path(&["recv"]),
    );
    match action {
        ServerAction::Reply { payload } => {
            assert_eq!(
                decode(&payload),
                Some(Data::WebMessage {
                    directories: vec![desc(&["send", "a.txt"], 1, 100)],
                })
            );
        }
        other => panic!("expected a reply, got {:?}", other),
    }
}

#[test]
fn receiver_writes_payload_at_reconciled_target() {
    let inbound = encode(&Data::JsonFileMessage {
        file: FileData {
            dir: path(&["send", "a.txt"]),
            contents: vec![5; 100],
        },
    });
    let action = handle_message(
        ServerEvent::Frame { payload: inbound },
        &vec![],
        &path(&["recv"]),
    );
    assert_eq!(
        action,
        ServerAction::WriteFile {
            target: path(&["recv", "send", "a.txt"]),
            contents: vec![5; 100],
        }
    );
}

#[test]
fn receiver_shuts_down_on_close_request() {
    let action = handle_message(ServerEvent::CloseRequest, &vec![], &path(&["recv"]));
    assert_eq!(action, ServerAction::Shutdown);
}

#[test]
fn receiver_ignores_other_frames_and_garbage() {
    let out = path(&["recv"]);
    assert_eq!(handle_message(ServerEvent::Other, &vec![], &out), ServerAction::Ignore);
    let garbage = ServerEvent::Frame {
        payload: vec![255, 0, 255],
    };
    assert_eq!(handle_message(garbage, &vec![], &out), ServerAction::Ignore);
}

// End-to-end scenarios over the verified steps; the surrounding process
// only moves bytes and performs the actions.

#[test]
fn scenario_missing_file_is_transferred() {
    // Sender has a.txt (100 bytes, time 1); the receiver's root is empty.
    let sender_tree = FsNode::Dir {
        entries: vec![FsNode::File {
            info: desc(&["send", "a.txt"], 1, 100),
        }],
    };
    let receiver_tree = FsNode::Dir { entries: vec![] };
    let output_dir = path(&["recv"]);

    let (_, manifest_bytes) = request_files(walk_dir(&sender_tree));
    let server_manifest = walk_dir(&receiver_tree);
    let reply = match handle_message(
        ServerEvent::Frame { payload: manifest_bytes },
        &server_manifest,
        &output_dir,
    ) {
        ServerAction::Reply { payload } => payload,
        other => panic!("expected a reply, got {:?}", other),
    };
    let changed = decode_response(&reply).unwrap();
    assert_eq!(changed, vec![desc(&["send", "a.txt"], 1, 100)]);

    let contents = vec![7u8; 100];
    let payload_bytes = package_payload(&changed[0], contents.clone());
    let write = handle_message(
        ServerEvent::Frame { payload: payload_bytes },
        &server_manifest,
        &output_dir,
    );
    assert_eq!(
        write,
        ServerAction::WriteFile {
            target: path(&["recv", "send", "a.txt"]),
            contents,
        }
    );
}

#[test]
fn scenario_identical_file_is_not_sent() {
    // Both roots hold b.txt with the same size and time.
    let sender_tree = FsNode::Dir {
        entries: vec![FsNode::File {
            info: desc(&["send", "b.txt"], 4, 40),
        }],
    };
    let receiver_tree = FsNode::Dir {
        entries: vec![FsNode::File {
            info: desc(&["recv", "b.txt"], 4, 40),
        }],
    };
    let (_, manifest_bytes) = request_files(walk_dir(&sender_tree));
    let server_manifest = walk_dir(&receiver_tree);
    let reply = match handle_message(
        ServerEvent::Frame { payload: manifest_bytes },
        &server_manifest,
        &path(&["recv"]),
    ) {
        ServerAction::Reply { payload } => payload,
        other => panic!("expected a reply, got {:?}", other),
    };
    let changed = decode_response(&reply).unwrap();
    assert!(changed.is_empty());
}

#[test]
fn scenario_same_size_different_time_is_not_sent() {
    // c.txt differs in modified time only: under the conjunctive rule the
    // changed list stays empty.
    let sender_tree = FsNode::Dir {
        entries: vec![FsNode::File {
            info: desc(&["send", "c.txt"], 9, 40),
        }],
    };
    let receiver_tree = FsNode::Dir {
        entries: vec![FsNode::File {
            info: desc(&["recv", "c.txt"], 4, 40),
        }],
    };
    let (_, manifest_bytes) = request_files(walk_dir(&sender_tree));
    let server_manifest = walk_dir(&receiver_tree);
    let reply = match handle_message(
        ServerEvent::Frame { payload: manifest_bytes },
        &server_manifest,
        &path(&["recv"]),
    ) {
        ServerAction::Reply { payload } => payload,
        other => panic!("expected a reply, got {:?}", other),
    };
    let changed = decode_response(&reply).unwrap();
    assert!(changed.is_empty());
}

#[test]
fn scenario_session_ends_with_shutdown() {
    // After the pushes the sender opens one last connection and sends a
    // close frame; the receiver raises the shutdown signal.
    let action = handle_message(ServerEvent::CloseRequest, &vec![], &path(&["recv"]));
    assert_eq!(action, ServerAction::Shutdown);
}
