use bimap::BiMap;
use dts_phandle::ast::{Branch, BranchEntry, FileEntry, Header, Value};
use dts_phandle::pipeline::{convert, render, ConvertError};
use dts_phandle::resolver::{
    diagnostic, first_pass_walker, resolve, second_pass_walker, DefectKind, ResolveError,
};

fn handle(value: Vec<i64>) -> BranchEntry {
    BranchEntry::KeyValue { key: "phandle".to_string(), value: Value::IntegerList(value) }
}

fn cells(key: &str, value: Vec<i64>) -> BranchEntry {
    BranchEntry::KeyValue { key: key.to_string(), value: Value::IntegerList(value) }
}

fn node(ident: &str, entries: Vec<BranchEntry>) -> Branch {
    Branch { ident: ident.to_string(), entries }
}

fn reference_tree() -> Branch {
    node(
        "root",
        vec![
            BranchEntry::Branch(node("child", vec![handle(vec![5])])),
            BranchEntry::Branch(node("ref", vec![cells("target", vec![5])])),
        ],
    )
}

fn targets(names: &[&str]) -> Vec<String> {
    names.iter().map(|n| n.to_string()).collect()
}

#[test]
fn first_pass_indexes_each_declaring_node() {
    let tree = node(
        "root",
        vec![
            handle(vec![1]),
            BranchEntry::Branch(node(
                "a",
                vec![handle(vec![2, 99]), BranchEntry::Branch(node("b", vec![handle(vec![3])]))],
            )),
            BranchEntry::Branch(node("c", vec![BranchEntry::Key("flag".to_string())])),
        ],
    );
    let mut map: BiMap<String, i64> = BiMap::new();
    assert_eq!(first_pass_walker(&mut map, "", &tree), Ok(()));
    assert_eq!(map.len(), 3);
    assert_eq!(map.get_by_left("root"), Some(&1));
    assert_eq!(map.get_by_left("root/a"), Some(&2));
    assert_eq!(map.get_by_left("root/a/b"), Some(&3));
    assert_eq!(map.get_by_right(&1), Some(&"root".to_string()));
    assert_eq!(map.get_by_right(&2), Some(&"root/a".to_string()));
    assert_eq!(map.get_by_right(&3), Some(&"root/a/b".to_string()));
    assert_eq!(map.get_by_right(&99), None);
    assert_eq!(map.get_by_left("root/c"), None);
}

#[test]
fn children_of_the_root_slash_get_no_second_slash() {
    let tree = node(
        "/",
        vec![
            handle(vec![1]),
            BranchEntry::Branch(node(
                "soc",
                vec![handle(vec![2]), BranchEntry::Branch(node("uart@0", vec![handle(vec![3])]))],
            )),
        ],
    );
    let mut map: BiMap<String, i64> = BiMap::new();
    assert_eq!(first_pass_walker(&mut map, "", &tree), Ok(()));
    assert_eq!(map.get_by_right(&1), Some(&"/".to_string()));
    assert_eq!(map.get_by_right(&2), Some(&"/soc".to_string()));
    assert_eq!(map.get_by_right(&3), Some(&"/soc/uart@0".to_string()));
}

#[test]
fn first_pass_joins_under_a_given_parent() {
    let tree = node("leaf", vec![handle(vec![7])]);
    let mut map: BiMap<String, i64> = BiMap::new();
    assert_eq!(first_pass_walker(&mut map, "top/mid", &tree), Ok(()));
    assert_eq!(map.get_by_right(&7), Some(&"top/mid/leaf".to_string()));
    let mut under_root: BiMap<String, i64> = BiMap::new();
    assert_eq!(first_pass_walker(&mut under_root, "/", &tree), Ok(()));
    assert_eq!(under_root.get_by_right(&7), Some(&"/leaf".to_string()));
}

#[test]
fn first_pass_without_handles_leaves_the_index_empty() {
    let tree = node("root", vec![cells("reg", vec![1]), BranchEntry::Key("flag".to_string())]);
    let mut map: BiMap<String, i64> = BiMap::new();
    assert_eq!(first_pass_walker(&mut map, "", &tree), Ok(()));
    assert!(map.is_empty());
}

#[test]
fn later_handle_replaces_an_equal_earlier_one() {
    let tree = node(
        "root",
        vec![
            BranchEntry::Branch(node("a", vec![handle(vec![1])])),
            BranchEntry::Branch(node("b", vec![handle(vec![1])])),
        ],
    );
    let mut map: BiMap<String, i64> = BiMap::new();
    assert_eq!(first_pass_walker(&mut map, "", &tree), Ok(()));
    assert_eq!(map.len(), 1);
    assert_eq!(map.get_by_right(&1), Some(&"root/b".to_string()));
    assert_eq!(map.get_by_left("root/a"), None);
}

#[test]
fn empty_handle_is_a_defect() {
    let tree = node("root", vec![BranchEntry::Branch(node("child", vec![handle(vec![])]))]);
    let mut map: BiMap<String, i64> = BiMap::new();
    assert_eq!(
        first_pass_walker(&mut map, "", &tree),
        Err(ResolveError { kind: DefectKind::EmptyHandle, path: "root/child".to_string() })
    );
}

#[test]
fn handle_that_is_not_a_cell_list_is_a_defect() {
    let tree = node(
        "root",
        vec![BranchEntry::KeyValue {
            key: "phandle".to_string(),
            value: Value::StringList(vec!["x".to_string()]),
        }],
    );
    let mut map: BiMap<String, i64> = BiMap::new();
    assert_eq!(
        first_pass_walker(&mut map, "", &tree),
        Err(ResolveError { kind: DefectKind::HandleNotIntegers, path: "root".to_string() })
    );
    let bytes = node(
        "n",
        vec![BranchEntry::KeyValue { key: "phandle".to_string(), value: Value::ByteList(vec![1]) }],
    );
    assert_eq!(
        first_pass_walker(&mut map, "", &bytes),
        Err(ResolveError { kind: DefectKind::HandleNotIntegers, path: "n".to_string() })
    );
}

#[test]
fn second_handle_in_one_node_is_a_defect() {
    let tree = node("root", vec![handle(vec![1]), handle(vec![2])]);
    let mut map: BiMap<String, i64> = BiMap::new();
    assert_eq!(
        first_pass_walker(&mut map, "", &tree),
        Err(ResolveError { kind: DefectKind::DuplicateHandle, path: "root".to_string() })
    );
    assert_eq!(map.get_by_left("root"), Some(&1));
}

#[test]
fn first_pass_keeps_what_it_inserted_before_a_defect() {
    let tree = node(
        "root",
        vec![
            BranchEntry::Branch(node("a", vec![handle(vec![1])])),
            BranchEntry::Branch(node("b", vec![handle(vec![])])),
            BranchEntry::Branch(node("c", vec![handle(vec![3])])),
        ],
    );
    let mut map: BiMap<String, i64> = BiMap::new();
    assert!(first_pass_walker(&mut map, "", &tree).is_err());
    assert_eq!(map.get_by_right(&1), Some(&"root/a".to_string()));
    assert_eq!(map.get_by_right(&3), None);
}

#[test]
fn targeted_reference_becomes_a_path() {
    let mut tree = reference_tree();
    let mut map: BiMap<String, i64> = BiMap::new();
    assert_eq!(first_pass_walker(&mut map, "", &tree), Ok(()));
    let log = second_pass_walker(&map, &mut tree, &targets(&["target"]));
    let expected = node(
        "root",
        vec![
            BranchEntry::Branch(node("child", vec![handle(vec![0])])),
            BranchEntry::Branch(node(
                "ref",
                vec![BranchEntry::KeyValue {
                    key: "target".to_string(),
                    value: Value::StringList(vec!["root/child".to_string()]),
                }],
            )),
        ],
    );
    assert_eq!(tree, expected);
    assert_eq!(log, vec![format!("{:25}: {}", "target", "0x5")]);
}

#[test]
fn unmatched_reference_stays_and_handle_is_cleared() {
    let mut tree = reference_tree();
    let mut map: BiMap<String, i64> = BiMap::new();
    assert_eq!(first_pass_walker(&mut map, "", &tree), Ok(()));
    let log = second_pass_walker(&map, &mut tree, &targets(&["nomatch"]));
    let expected = node(
        "root",
        vec![
            BranchEntry::Branch(node("child", vec![handle(vec![0])])),
            BranchEntry::Branch(node("ref", vec![cells("target", vec![5])])),
        ],
    );
    assert_eq!(tree, expected);
    assert!(log.is_empty());
}

#[test]
fn second_pass_without_targets_only_clears_handles() {
    let mut tree = reference_tree();
    let map: BiMap<String, i64> = BiMap::new();
    let log = second_pass_walker(&map, &mut tree, &[]);
    assert_eq!(
        tree.entries[0],
        BranchEntry::Branch(node("child", vec![handle(vec![0])]))
    );
    assert_eq!(tree.entries[1], BranchEntry::Branch(node("ref", vec![cells("target", vec![5])])));
    assert!(log.is_empty());
}

#[test]
fn every_cell_of_a_handle_becomes_zero() {
    let mut tree = node("n", vec![handle(vec![7, -3, 0, i64::MAX])]);
    let map: BiMap<String, i64> = BiMap::new();
    second_pass_walker(&map, &mut tree, &targets(&["phandle", "handle"]));
    assert_eq!(tree, node("n", vec![handle(vec![0, 0, 0, 0])]));
}

#[test]
fn handle_key_is_cleared_even_where_a_target_matches_it() {
    let mut tree = node("n", vec![handle(vec![1]), cells("my-phandle", vec![1])]);
    let mut map: BiMap<String, i64> = BiMap::new();
    assert_eq!(first_pass_walker(&mut map, "", &tree), Ok(()));
    let log = second_pass_walker(&map, &mut tree, &targets(&["phandle"]));
    assert_eq!(tree.entries[0], handle(vec![0]));
    assert_eq!(
        tree.entries[1],
        BranchEntry::KeyValue {
            key: "my-phandle".to_string(),
            value: Value::StringList(vec!["n".to_string()]),
        }
    );
    assert_eq!(log.len(), 1);
}

#[test]
fn unknown_handle_becomes_the_placeholder() {
    let mut tree = node("n", vec![cells("link", vec![1, 2, 3])]);
    let mut map: BiMap<String, i64> = BiMap::new();
    map.insert("somewhere".to_string(), 2);
    second_pass_walker(&map, &mut tree, &targets(&["link"]));
    assert_eq!(
        tree.entries[0],
        BranchEntry::KeyValue {
            key: "link".to_string(),
            value: Value::StringList(vec![
                "##UNKNOWN##".to_string(),
                "somewhere".to_string(),
                "##UNKNOWN##".to_string(),
            ]),
        }
    );
}

#[test]
fn rewritten_list_keeps_its_length() {
    let mut tree = node("n", vec![cells("link", vec![]), cells("links", vec![4, 4, 4, 4])]);
    let map: BiMap<String, i64> = BiMap::new();
    second_pass_walker(&map, &mut tree, &targets(&["link"]));
    assert_eq!(
        tree.entries[0],
        BranchEntry::KeyValue { key: "link".to_string(), value: Value::StringList(vec![]) }
    );
    match &tree.entries[1] {
        BranchEntry::KeyValue { value: Value::StringList(paths), .. } => assert_eq!(paths.len(), 4),
        other => panic!("not rewritten: {:?}", other),
    }
}

#[test]
fn target_matches_as_a_substring_of_the_key() {
    let mut tree = node(
        "n",
        vec![
            cells("interrupt-parent", vec![1]),
            cells("parent", vec![1]),
            cells("paren", vec![1]),
            cells("clocks", vec![1]),
        ],
    );
    let mut map: BiMap<String, i64> = BiMap::new();
    map.insert("/pic".to_string(), 1);
    let log = second_pass_walker(&map, &mut tree, &targets(&["parent", "zzz"]));
    let path = Value::StringList(vec!["/pic".to_string()]);
    assert_eq!(
        tree.entries[0],
        BranchEntry::KeyValue { key: "interrupt-parent".to_string(), value: path.clone() }
    );
    assert_eq!(tree.entries[1], BranchEntry::KeyValue { key: "parent".to_string(), value: path });
    assert_eq!(tree.entries[2], cells("paren", vec![1]));
    assert_eq!(tree.entries[3], cells("clocks", vec![1]));
    assert_eq!(log.len(), 2);
}

#[test]
fn other_values_and_keys_are_untouched() {
    let entries = vec![
        BranchEntry::Key("link".to_string()),
        BranchEntry::KeyValue { key: "link".to_string(), value: Value::ByteList(vec![1, 2]) },
        BranchEntry::KeyValue {
            key: "link".to_string(),
            value: Value::StringList(vec!["s".to_string()]),
        },
        BranchEntry::KeyValue { key: "phandle".to_string(), value: Value::ByteList(vec![9]) },
    ];
    let mut tree = node("n", entries.clone());
    let map: BiMap<String, i64> = BiMap::new();
    let log = second_pass_walker(&map, &mut tree, &targets(&["link"]));
    assert_eq!(tree, node("n", entries));
    assert!(log.is_empty());
}

#[test]
fn diagnostic_pads_the_key_and_previews_the_cells() {
    assert_eq!(diagnostic("target", &vec![5]), "target                   : 0x5");
    assert_eq!(diagnostic("k", &vec![]), format!("{:25}: {}", "k", ""));
    assert_eq!(diagnostic("k", &vec![255, 16]), format!("{:25}: {}", "k", "0xff, 0x10"));
    assert_eq!(diagnostic("k", &vec![-1]), format!("{:25}: {}", "k", "0xffffffffffffffff"));
}

#[test]
fn diagnostic_cuts_the_preview_at_twenty_five_characters() {
    let line = diagnostic("k", &vec![1, 2, 3, 4, 5, 6, 7, 8]);
    assert_eq!(line, format!("{:25}: {}", "k", "0x1, 0x2, 0x3, 0x4, 0x5, "));
    let exact = diagnostic("k", &vec![1, 2, 3, 4, 0x56]);
    assert_eq!(exact, format!("{:25}: {}", "k", "0x1, 0x2, 0x3, 0x4, 0x56"));
    let long = diagnostic("k", &vec![0x1234567890abcdef, 0x1234567890abcdef]);
    assert_eq!(long, format!("{:25}: {}", "k", "0x1234567890abcdef, 0x123"));
}

#[test]
fn diagnostic_leaves_a_long_key_as_it_is() {
    let key = "a-property-name-well-over-the-width";
    assert_eq!(diagnostic(key, &vec![1]), format!("{}: 0x1", key));
    let full = "exactly-twenty-five-chars";
    assert_eq!(full.len(), 25);
    assert_eq!(diagnostic(full, &vec![1]), format!("{}: 0x1", full));
}

#[test]
fn diagnostics_come_in_tree_order() {
    let mut tree = node(
        "root",
        vec![
            cells("link-a", vec![1]),
            BranchEntry::Branch(node("x", vec![cells("link-b", vec![2])])),
            cells("link-c", vec![3]),
        ],
    );
    let map: BiMap<String, i64> = BiMap::new();
    let log = second_pass_walker(&map, &mut tree, &targets(&["link"]));
    assert_eq!(
        log,
        vec![
            format!("{:25}: {}", "link-a", "0x1"),
            format!("{:25}: {}", "link-b", "0x2"),
            format!("{:25}: {}", "link-c", "0x3"),
        ]
    );
}

#[test]
fn resolve_runs_both_passes_over_a_file() {
    let mut file = vec![
        FileEntry::Header(Header { version: 1 }),
        FileEntry::Branch(node("a", vec![handle(vec![1]), cells("link", vec![2])])),
        FileEntry::Branch(node("b", vec![handle(vec![2]), cells("link", vec![1, 3])])),
    ];
    let log = resolve(&mut file, &targets(&["link"])).unwrap();
    assert_eq!(
        file,
        vec![
            FileEntry::Header(Header { version: 1 }),
            FileEntry::Branch(node(
                "a",
                vec![
                    handle(vec![0]),
                    BranchEntry::KeyValue {
                        key: "link".to_string(),
                        value: Value::StringList(vec!["b".to_string()]),
                    },
                ],
            )),
            FileEntry::Branch(node(
                "b",
                vec![
                    handle(vec![0]),
                    BranchEntry::KeyValue {
                        key: "link".to_string(),
                        value: Value::StringList(vec!["a".to_string(), "##UNKNOWN##".to_string()]),
                    },
                ],
            )),
        ]
    );
    assert_eq!(log.len(), 2);
}

#[test]
fn resolve_leaves_the_file_alone_on_a_defect() {
    let before = vec![
        FileEntry::Branch(node("a", vec![handle(vec![1]), cells("link", vec![1])])),
        FileEntry::Branch(node("b", vec![handle(vec![])])),
    ];
    let mut file = before.clone();
    assert_eq!(
        resolve(&mut file, &targets(&["link"])),
        Err(ResolveError { kind: DefectKind::EmptyHandle, path: "b".to_string() })
    );
    assert_eq!(file, before);
}

#[test]
fn conversion_rewrites_a_targeted_reference() {
    let input = "root { child { phandle = <0x05>; }; ref { target = <0x05>; }; };";
    let done = convert(input, &targets(&["target"])).unwrap();
    assert_eq!(
        done.text,
        "root {\n\tchild {\n\t\tphandle = <0x00>;\n\t};\n\tref {\n\t\ttarget = \"root/child\";\n\t};\n};\n"
    );
    assert_eq!(done.log, vec!["target                   : 0x5".to_string()]);
}

#[test]
fn conversion_leaves_an_unmatched_reference() {
    let input = "root { child { phandle = <0x05>; }; ref { target = <0x05>; }; };";
    let done = convert(input, &targets(&["nomatch"])).unwrap();
    assert_eq!(
        done.text,
        "root {\n\tchild {\n\t\tphandle = <0x00>;\n\t};\n\tref {\n\t\ttarget = <0x05>;\n\t};\n};\n"
    );
    assert!(done.log.is_empty());
}

#[test]
fn conversion_stops_at_an_empty_handle() {
    let input = "root { child { phandle = <>; }; ref { target = <0x05>; }; };";
    assert_eq!(
        convert(input, &targets(&["target"])),
        Err(ConvertError::Resolve(ResolveError {
            kind: DefectKind::EmptyHandle,
            path: "root/child".to_string(),
        }))
    );
}

#[test]
fn index_is_a_bijection_on_distinct_handles() {
    let tree = node(
        "/",
        vec![
            handle(vec![10]),
            BranchEntry::Branch(node("a", vec![handle(vec![20])])),
            BranchEntry::Branch(node(
                "b",
                vec![handle(vec![30]), BranchEntry::Branch(node("c", vec![handle(vec![-40])]))],
            )),
        ],
    );
    let mut map: BiMap<String, i64> = BiMap::new();
    assert_eq!(first_pass_walker(&mut map, "", &tree), Ok(()));
    let pairs = [("/", 10i64), ("/a", 20), ("/b", 30), ("/b/c", -40)];
    assert_eq!(map.len(), pairs.len());
    for (path, value) in pairs.iter() {
        assert_eq!(map.get_by_left(*path), Some(value));
        assert_eq!(map.get_by_right(value).map(|p| p.as_str()), Some(*path));
    }
}

#[test]
fn rendering_after_resolve_shows_paths_as_strings() {
    let mut file = vec![FileEntry::Branch(reference_tree())];
    resolve(&mut file, &targets(&["target"])).unwrap();
    assert_eq!(
        render(&file),
        "root {\n\tchild {\n\t\tphandle = <0x00>;\n\t};\n\tref {\n\t\ttarget = \"root/child\";\n\t};\n};\n"
    );
}

#[test]
fn defect_message_names_the_node() {
    let empty = ResolveError { kind: DefectKind::EmptyHandle, path: "root/child".to_string() };
    assert_eq!(empty.message(), "phandle holds no value in node root/child");
    let other = ResolveError { kind: DefectKind::HandleNotIntegers, path: "/".to_string() };
    assert_eq!(other.message(), "phandle is not a cell list in node /");
    let twice = ResolveError { kind: DefectKind::DuplicateHandle, path: "a/b".to_string() };
    assert_eq!(twice.message(), "phandle is declared twice in node a/b");
}
