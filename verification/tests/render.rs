use dts_phandle::ast::{Branch, BranchEntry, FileEntry, Header, Value};
use dts_phandle::pipeline::{line_column, render};
use dts_phandle::render::Serialize;
use dts_phandle::text::{byte_string, cell_string, dec_string, hex_string, indent, join_map};

fn sample_branch() -> Branch {
    Branch {
        ident: "root".to_string(),
        entries: vec![
            BranchEntry::Key("flag".to_string()),
            BranchEntry::Branch(Branch {
                ident: "child".to_string(),
                entries: vec![BranchEntry::KeyValue {
                    key: "phandle".to_string(),
                    value: Value::IntegerList(vec![5]),
                }],
            }),
        ],
    }
}

#[test]
fn indent_is_one_tab_per_level() {
    assert_eq!(indent(0), "");
    assert_eq!(indent(1), "\t");
    assert_eq!(indent(3), "\t\t\t");
}

#[test]
fn join_map_puts_separator_between_items() {
    let items = vec![1u32, 2, 3];
    assert_eq!(join_map(&items, |v: &u32| format!("{}", v), ", "), "1, 2, 3");
    assert_eq!(join_map(&items[..1], |v: &u32| format!("{}", v), ", "), "1");
    let none: Vec<u32> = Vec::new();
    assert_eq!(join_map(&none, |v: &u32| format!("{}", v), ", "), "");
    assert_eq!(join_map(&items, |v: &u32| format!("<{}>", v), ""), "<1><2><3>");
}

#[test]
fn hexadecimal_digits() {
    assert_eq!(hex_string(0), "0");
    assert_eq!(hex_string(9), "9");
    assert_eq!(hex_string(10), "a");
    assert_eq!(hex_string(255), "ff");
    assert_eq!(hex_string(0x1a2b3c), "1a2b3c");
    assert_eq!(hex_string(u64::MAX), "ffffffffffffffff");
}

#[test]
fn decimal_digits() {
    assert_eq!(dec_string(0), "0");
    assert_eq!(dec_string(7), "7");
    assert_eq!(dec_string(10), "10");
    assert_eq!(dec_string(1234567890), "1234567890");
    assert_eq!(dec_string(u32::MAX), "4294967295");
}

#[test]
fn cells_have_prefix_and_two_digits_at_least() {
    assert_eq!(cell_string(0), "0x00");
    assert_eq!(cell_string(4), "0x04");
    assert_eq!(cell_string(0x1a), "0x1a");
    assert_eq!(cell_string(0x100), "0x100");
    assert_eq!(cell_string(i64::MAX), "0x7fffffffffffffff");
}

#[test]
fn negative_cells_are_written_by_their_bits() {
    assert_eq!(cell_string(-1), "0xffffffffffffffff");
    assert_eq!(cell_string(-2), "0xfffffffffffffffe");
    assert_eq!(cell_string(i64::MIN), "0x8000000000000000");
    assert_eq!(cell_string(-1), format!("{:#04x}", -1i64));
}

#[test]
fn bytes_have_exactly_two_digits() {
    assert_eq!(byte_string(0), "00");
    assert_eq!(byte_string(5), "05");
    assert_eq!(byte_string(0x1a), "1a");
    assert_eq!(byte_string(255), "ff");
}

#[test]
fn header_renders_with_blank_line() {
    assert_eq!(Header { version: 1 }.serialize(0), "/dts-v1/;\n\n");
    assert_eq!(Header { version: 17 }.serialize(3), "/dts-v17/;\n\n");
}

#[test]
fn integer_list_renders_in_angles() {
    assert_eq!(Value::IntegerList(vec![4, 26, 256]).serialize(0), "<0x04 0x1a 0x100>");
    assert_eq!(Value::IntegerList(vec![5]).serialize(2), "<0x05>");
    assert_eq!(Value::IntegerList(vec![]).serialize(0), "<>");
}

#[test]
fn byte_list_renders_in_brackets() {
    assert_eq!(Value::ByteList(vec![0, 26, 255]).serialize(0), "[00 1a ff]");
    assert_eq!(Value::ByteList(vec![]).serialize(0), "[]");
}

#[test]
fn string_list_renders_quoted_and_comma_separated() {
    let value = Value::StringList(vec!["a".to_string(), "b c".to_string()]);
    assert_eq!(value.serialize(0), "\"a\", \"b c\"");
    assert_eq!(Value::StringList(vec!["one".to_string()]).serialize(0), "\"one\"");
    assert_eq!(Value::StringList(vec![]).serialize(0), "");
}

#[test]
fn key_renders_on_one_line() {
    assert_eq!(BranchEntry::Key("flag".to_string()).serialize(0), "flag;\n");
    assert_eq!(BranchEntry::Key("flag".to_string()).serialize(2), "\t\tflag;\n");
}

#[test]
fn key_value_renders_with_equals() {
    let entry = BranchEntry::KeyValue {
        key: "reg".to_string(),
        value: Value::IntegerList(vec![1, 2]),
    };
    assert_eq!(entry.serialize(1), "\treg = <0x01 0x02>;\n");
}

#[test]
fn branch_renders_entries_one_level_deeper() {
    let expected = "root {\n\tflag;\n\tchild {\n\t\tphandle = <0x05>;\n\t};\n};\n";
    assert_eq!(sample_branch().serialize(0), expected);
    assert_eq!(BranchEntry::Branch(sample_branch()).serialize(0), expected);
    assert_eq!(FileEntry::Branch(sample_branch()).serialize(0), expected);
}

#[test]
fn branch_renders_at_a_deeper_level() {
    let branch = Branch { ident: "n".to_string(), entries: vec![BranchEntry::Key("k".to_string())] };
    assert_eq!(branch.serialize(2), "\t\tn {\n\t\t\tk;\n\t\t};\n");
}

#[test]
fn empty_branch_renders_two_lines() {
    let branch = Branch { ident: "empty".to_string(), entries: vec![] };
    assert_eq!(branch.serialize(0), "empty {\n};\n");
}

#[test]
fn file_renders_entries_in_order() {
    let file = vec![
        FileEntry::Header(Header { version: 1 }),
        FileEntry::Branch(sample_branch()),
        FileEntry::Branch(Branch { ident: "other".to_string(), entries: vec![] }),
    ];
    let expected =
        "/dts-v1/;\n\nroot {\n\tflag;\n\tchild {\n\t\tphandle = <0x05>;\n\t};\n};\nother {\n};\n";
    assert_eq!(file.serialize(0), expected);
    assert_eq!(render(&file), expected);
    assert_eq!(render(&Vec::new()), "");
}

#[test]
fn clone_is_deep_and_equal() {
    let branch = sample_branch();
    let copy = branch.clone();
    assert_eq!(copy, branch);
    let entry = FileEntry::Branch(branch);
    assert_eq!(entry.clone(), entry);
    let value = Value::StringList(vec!["x".to_string()]);
    assert_eq!(value.clone(), value);
}

#[test]
fn line_and_column_of_an_offset() {
    let data = b"ab\ncd\n\nxyz";
    assert_eq!(line_column(data, 0), (1, 0));
    assert_eq!(line_column(data, 1), (1, 1));
    assert_eq!(line_column(data, 2), (1, 2));
    assert_eq!(line_column(data, 3), (2, 1));
    assert_eq!(line_column(data, 4), (2, 2));
    assert_eq!(line_column(data, 6), (3, 1));
    assert_eq!(line_column(data, 8), (4, 2));
}
