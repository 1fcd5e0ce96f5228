use dts_phandle::ast::{Branch, BranchEntry, FileEntry, Header, Value};
use dts_phandle::lexer::{lex, LexicalError, Spanned, Token};
use dts_phandle::parser::{parse, parse_tokens, ParseError};
use dts_phandle::pipeline::{convert, render, ConvertError};

fn kinds(text: &str) -> Vec<Token> {
    lex(text.as_bytes()).unwrap().into_iter().map(|t| t.token).collect()
}

fn ident(name: &str) -> Token {
    Token::Ident(name.to_string())
}

#[test]
fn lexes_punctuation_and_names() {
    assert_eq!(
        kinds("root { a = <1>; };"),
        vec![
            ident("root"),
            Token::OpenBrace,
            ident("a"),
            Token::Equals,
            Token::OpenAngle,
            Token::Integer(1),
            Token::CloseAngle,
            Token::Semicolon,
            Token::CloseBrace,
            Token::Semicolon,
        ]
    );
}

#[test]
fn lexes_spans_in_bytes() {
    let tokens = lex("ab {\n  c;".as_bytes()).unwrap();
    assert_eq!(
        tokens,
        vec![
            Spanned { token: ident("ab"), start: 0, end: 2 },
            Spanned { token: Token::OpenBrace, start: 3, end: 4 },
            Spanned { token: ident("c"), start: 7, end: 8 },
            Spanned { token: Token::Semicolon, start: 8, end: 9 },
        ]
    );
    let text = lex("\"h\u{e9}\" x".as_bytes()).unwrap();
    assert_eq!(
        text,
        vec![
            Spanned { token: Token::Text("h\u{e9}".to_string()), start: 0, end: 5 },
            Spanned { token: ident("x"), start: 6, end: 7 },
        ]
    );
}

#[test]
fn lexes_empty_and_blank_text_to_nothing() {
    assert_eq!(lex(b""), Ok(vec![]));
    assert_eq!(lex(b" \t\r\n  "), Ok(vec![]));
    assert_eq!(lex(b"// only a comment"), Ok(vec![]));
    assert_eq!(lex(b"/* a */ /* b */"), Ok(vec![]));
}

#[test]
fn lexes_names_with_their_punctuation() {
    assert_eq!(kinds("#address-cells"), vec![ident("#address-cells")]);
    assert_eq!(kinds("cpu@0"), vec![ident("cpu@0")]);
    assert_eq!(kinds("linux,phandle"), vec![ident("linux,phandle")]);
    assert_eq!(kinds("a.b_c+d?"), vec![ident("a.b_c+d?")]);
    assert_eq!(kinds("/"), vec![ident("/")]);
    assert_eq!(kinds("/ {"), vec![ident("/"), Token::OpenBrace]);
    assert_eq!(kinds("a;b"), vec![ident("a"), Token::Semicolon, ident("b")]);
}

#[test]
fn name_does_not_start_with_a_digit() {
    assert_eq!(kinds("1a"), vec![Token::Integer(1), ident("a")]);
    assert_eq!(kinds("a1"), vec![ident("a1")]);
}

#[test]
fn lexes_the_header_marker() {
    assert_eq!(
        kinds("/dts-v1/;"),
        vec![Token::HeaderMark, Token::Integer(1), ident("/"), Token::Semicolon]
    );
    assert_eq!(kinds("/dts-x"), vec![ident("/dts-x")]);
}

#[test]
fn lexes_decimal_and_hexadecimal_numbers() {
    assert_eq!(kinds("0"), vec![Token::Integer(0)]);
    assert_eq!(kinds("10"), vec![Token::Integer(10)]);
    assert_eq!(kinds("0x10"), vec![Token::Integer(16)]);
    assert_eq!(kinds("0X1f"), vec![Token::Integer(31)]);
    assert_eq!(kinds("0xAbC"), vec![Token::Integer(0xabc)]);
    assert_eq!(kinds("007"), vec![Token::Integer(7)]);
    assert_eq!(kinds("9223372036854775807"), vec![Token::Integer(i64::MAX)]);
    assert_eq!(kinds("<1 0x2>"), vec![
        Token::OpenAngle,
        Token::Integer(1),
        Token::Integer(2),
        Token::CloseAngle,
    ]);
}

#[test]
fn numbers_above_the_signed_range_wrap_to_negative() {
    assert_eq!(kinds("0xffffffffffffffff"), vec![Token::Integer(-1)]);
    assert_eq!(kinds("0x8000000000000000"), vec![Token::Integer(i64::MIN)]);
    assert_eq!(kinds("18446744073709551615"), vec![Token::Integer(-1)]);
    assert_eq!(kinds("9223372036854775808"), vec![Token::Integer(i64::MIN)]);
}

#[test]
fn number_above_sixty_four_bits_is_a_lexical_error() {
    assert_eq!(lex(b"a 0x10000000000000000"), Err(LexicalError { at: 2 }));
    assert_eq!(lex(b"18446744073709551616"), Err(LexicalError { at: 0 }));
    assert_eq!(lex(b"  99999999999999999999999 x"), Err(LexicalError { at: 2 }));
}

#[test]
fn lexes_text_literals_as_written() {
    assert_eq!(kinds("\"hello world\""), vec![Token::Text("hello world".to_string())]);
    assert_eq!(kinds("\"\""), vec![Token::Text(String::new())]);
    assert_eq!(kinds("\"a\\\"b\""), vec![Token::Text("a\\\"b".to_string())]);
    assert_eq!(kinds("\"a\\\\\" x"), vec![Token::Text("a\\\\".to_string()), ident("x")]);
    assert_eq!(
        kinds("\"a\", \"b\""),
        vec![Token::Text("a".to_string()), Token::Comma, Token::Text("b".to_string())]
    );
    assert_eq!(kinds("\"/* no comment */\""), vec![Token::Text("/* no comment */".to_string())]);
}

#[test]
fn unclosed_text_literal_is_a_lexical_error() {
    assert_eq!(lex(b"a = \"abc"), Err(LexicalError { at: 4 }));
    assert_eq!(lex(b"\"abc\\\""), Err(LexicalError { at: 0 }));
    assert_eq!(lex(b"\"abc\\"), Err(LexicalError { at: 0 }));
}

#[test]
fn text_that_is_not_utf8_is_a_lexical_error() {
    assert_eq!(lex(&[b'a', b' ', b'"', 0xff, b'"']), Err(LexicalError { at: 2 }));
    assert_eq!(lex(&[b'"', 0xc3, 0xa9, b'"']), Ok(vec![Spanned {
        token: Token::Text("\u{e9}".to_string()),
        start: 0,
        end: 4,
    }]));
}

#[test]
fn lexes_bytes_inside_brackets() {
    assert_eq!(
        kinds("[00 1a FF]"),
        vec![
            Token::OpenBracket,
            Token::Byte(0),
            Token::Byte(0x1a),
            Token::Byte(255),
            Token::CloseBracket,
        ]
    );
    assert_eq!(
        kinds("[0011]"),
        vec![Token::OpenBracket, Token::Byte(0), Token::Byte(0x11), Token::CloseBracket]
    );
    assert_eq!(kinds("[] ab"), vec![Token::OpenBracket, Token::CloseBracket, ident("ab")]);
    assert_eq!(kinds("[ab /* c */ cd]").len(), 4);
}

#[test]
fn odd_digit_inside_brackets_is_a_lexical_error() {
    assert_eq!(lex(b"[0]"), Err(LexicalError { at: 1 }));
    assert_eq!(lex(b"[00 1"), Err(LexicalError { at: 4 }));
    assert_eq!(lex(b"[0g]"), Err(LexicalError { at: 1 }));
    assert_eq!(lex(b"[ab; ]"), Err(LexicalError { at: 3 }));
}

#[test]
fn skips_comments_and_white_space() {
    assert_eq!(
        kinds("a // to the end ; {\n b /* in\nside */ c"),
        vec![ident("a"), ident("b"), ident("c")]
    );
    assert_eq!(kinds("a /**/ b"), vec![ident("a"), ident("b")]);
    assert_eq!(kinds("a // last line"), vec![ident("a")]);
}

#[test]
fn unclosed_comment_is_a_lexical_error() {
    assert_eq!(lex(b"a /* never closed"), Err(LexicalError { at: 2 }));
    assert_eq!(lex(b"/*/"), Err(LexicalError { at: 0 }));
}

#[test]
fn unknown_byte_is_a_lexical_error() {
    assert_eq!(lex(b"root { $ };"), Err(LexicalError { at: 7 }));
    assert_eq!(lex(b"a\n&b"), Err(LexicalError { at: 2 }));
    assert_eq!(lex(&[b'a', b' ', 0xc3, 0xa9]), Err(LexicalError { at: 2 }));
}

#[test]
fn parses_a_branch_with_every_kind_of_entry() {
    let text = "root { flag; reg = <1 0x20>; mac = [00 1a ff]; names = \"a\", \"b\"; sub { }; };";
    let expected = vec![FileEntry::Branch(Branch {
        ident: "root".to_string(),
        entries: vec![
            BranchEntry::Key("flag".to_string()),
            BranchEntry::KeyValue { key: "reg".to_string(), value: Value::IntegerList(vec![1, 32]) },
            BranchEntry::KeyValue {
                key: "mac".to_string(),
                value: Value::ByteList(vec![0, 0x1a, 0xff]),
            },
            BranchEntry::KeyValue {
                key: "names".to_string(),
                value: Value::StringList(vec!["a".to_string(), "b".to_string()]),
            },
            BranchEntry::Branch(Branch { ident: "sub".to_string(), entries: vec![] }),
        ],
    })];
    assert_eq!(parse(text), Ok(expected));
}

#[test]
fn parses_empty_lists() {
    let text = "n { a = <>; b = []; };";
    let expected = vec![FileEntry::Branch(Branch {
        ident: "n".to_string(),
        entries: vec![
            BranchEntry::KeyValue { key: "a".to_string(), value: Value::IntegerList(vec![]) },
            BranchEntry::KeyValue { key: "b".to_string(), value: Value::ByteList(vec![]) },
        ],
    })];
    assert_eq!(parse(text), Ok(expected));
}

#[test]
fn parses_header_and_several_branches() {
    let text = "/dts-v1/;\n\n/ {\n};\nother {\n};\n";
    let expected = vec![
        FileEntry::Header(Header { version: 1 }),
        FileEntry::Branch(Branch { ident: "/".to_string(), entries: vec![] }),
        FileEntry::Branch(Branch { ident: "other".to_string(), entries: vec![] }),
    ];
    assert_eq!(parse(text), Ok(expected));
    assert_eq!(parse("/dts-v17/;"), Ok(vec![FileEntry::Header(Header { version: 17 })]));
}

#[test]
fn parses_empty_text_to_an_empty_file() {
    assert_eq!(parse(""), Ok(vec![]));
    assert_eq!(parse("  // nothing\n"), Ok(vec![]));
}

#[test]
fn parses_nested_branches_in_order() {
    let text = "a { b { c { k; }; }; d { }; };";
    let expected = vec![FileEntry::Branch(Branch {
        ident: "a".to_string(),
        entries: vec![
            BranchEntry::Branch(Branch {
                ident: "b".to_string(),
                entries: vec![BranchEntry::Branch(Branch {
                    ident: "c".to_string(),
                    entries: vec![BranchEntry::Key("k".to_string())],
                })],
            }),
            BranchEntry::Branch(Branch { ident: "d".to_string(), entries: vec![] }),
        ],
    })];
    assert_eq!(parse(text), Ok(expected));
}

#[test]
fn lexical_error_comes_through_parse() {
    assert_eq!(parse("root { $ };"), Err(ParseError::Lexical { at: 7 }));
}

#[test]
fn unexpected_end_inside_a_construct() {
    assert_eq!(parse("root {"), Err(ParseError::UnexpectedEnd));
    assert_eq!(parse("root { a = <1>"), Err(ParseError::UnexpectedEnd));
    assert_eq!(parse("root { a = <1"), Err(ParseError::UnexpectedEnd));
    assert_eq!(parse("root { }"), Err(ParseError::UnexpectedEnd));
    assert_eq!(parse("root"), Err(ParseError::UnexpectedEnd));
    assert_eq!(parse("/dts-v1/"), Err(ParseError::UnexpectedEnd));
    assert_eq!(parse("r { a = \"x\","), Err(ParseError::UnexpectedEnd));
}

#[test]
fn unrecognized_token_is_reported_with_its_span() {
    assert_eq!(
        parse("root { a = ; };"),
        Err(ParseError::UnrecognizedToken { token: Token::Semicolon, start: 11, end: 12 })
    );
    assert_eq!(
        parse("root { a = <1 b>; };"),
        Err(ParseError::UnrecognizedToken { token: ident("b"), start: 14, end: 15 })
    );
    assert_eq!(
        parse("root { 5; };"),
        Err(ParseError::UnrecognizedToken { token: Token::Integer(5), start: 7, end: 8 })
    );
    assert_eq!(
        parse("root { a b; };"),
        Err(ParseError::UnrecognizedToken { token: ident("b"), start: 9, end: 10 })
    );
    assert_eq!(
        parse("r { a = \"x\" \"y\"; };"),
        Err(ParseError::UnrecognizedToken { token: Token::Text("y".to_string()), start: 12, end: 15 })
    );
    assert_eq!(
        parse("r { a = \"x\", 1; };"),
        Err(ParseError::UnrecognizedToken { token: Token::Integer(1), start: 13, end: 14 })
    );
}

#[test]
fn trailing_tokens_are_not_accepted() {
    assert_eq!(
        parse("root { }; ;"),
        Err(ParseError::UnrecognizedToken { token: Token::Semicolon, start: 10, end: 11 })
    );
    assert_eq!(
        parse("root { }; }"),
        Err(ParseError::UnrecognizedToken { token: Token::CloseBrace, start: 10, end: 11 })
    );
}

#[test]
fn top_level_entry_must_be_a_branch() {
    assert_eq!(
        parse("flag;"),
        Err(ParseError::UnrecognizedToken { token: Token::Semicolon, start: 4, end: 5 })
    );
    assert_eq!(
        parse("a = <1>;"),
        Err(ParseError::UnrecognizedToken { token: Token::Equals, start: 2, end: 3 })
    );
}

#[test]
fn header_must_come_first_and_be_complete() {
    assert_eq!(
        parse("root { }; /dts-v1/;"),
        Err(ParseError::UnrecognizedToken { token: Token::HeaderMark, start: 10, end: 16 })
    );
    assert_eq!(
        parse("/dts-v1/; /dts-v1/;"),
        Err(ParseError::UnrecognizedToken { token: Token::HeaderMark, start: 10, end: 16 })
    );
    assert_eq!(
        parse("/dts-v/;"),
        Err(ParseError::UnrecognizedToken { token: ident("/"), start: 6, end: 7 })
    );
    assert_eq!(
        parse("/dts-v1 x;"),
        Err(ParseError::UnrecognizedToken { token: ident("x"), start: 8, end: 9 })
    );
    assert_eq!(
        parse("/dts-v4294967296/;"),
        Err(ParseError::UnrecognizedToken {
            token: Token::Integer(4294967296),
            start: 6,
            end: 16,
        })
    );
    assert_eq!(
        parse("/dts-v4294967295/;"),
        Ok(vec![FileEntry::Header(Header { version: u32::MAX })])
    );
}

#[test]
fn parse_tokens_takes_tokens_from_anywhere() {
    let tokens = vec![
        Spanned { token: ident("n"), start: 0, end: 1 },
        Spanned { token: Token::OpenBrace, start: 1, end: 2 },
        Spanned { token: Token::CloseBrace, start: 2, end: 3 },
        Spanned { token: Token::Semicolon, start: 3, end: 4 },
    ];
    assert_eq!(
        parse_tokens(&tokens),
        Ok(vec![FileEntry::Branch(Branch { ident: "n".to_string(), entries: vec![] })])
    );
    assert_eq!(parse_tokens(&Vec::new()), Ok(vec![]));
    let stray = vec![Spanned { token: Token::Byte(1), start: 40, end: 42 }];
    assert_eq!(
        parse_tokens(&stray),
        Err(ParseError::UnrecognizedToken { token: Token::Byte(1), start: 40, end: 42 })
    );
}

#[test]
fn canonical_text_round_trips() {
    let text = "/dts-v1/;\n\n/ {\n\tcompatible = \"acme,board\", \"acme\";\n\t#address-cells = <0x01>;\n\tflag;\n\tdata = [00 1a ff];\n\tempty = <>;\n\tcpus {\n\t\tcpu@0 {\n\t\t\treg = <0x00 0x1234 0xffffffffffffffff>;\n\t\t};\n\t};\n};\nsecond {\n};\n";
    let file = parse(text).unwrap();
    assert_eq!(render(&file), text);
}

#[test]
fn minimal_texts_round_trip() {
    for text in ["", "a {\n};\n", "/dts-v1/;\n\n", "a {\n\tk;\n};\n", "a {\n\tv = \"\";\n};\n"] {
        assert_eq!(render(&parse(text).unwrap()), text);
    }
}

#[test]
fn conversion_without_matching_property_reproduces_canonical_text() {
    let text = "/dts-v1/;\n\nroot {\n\tlink = <0x01>;\n\tchild {\n\t\tname = \"x\";\n\t};\n};\n";
    let done = convert(text, &["nomatch".to_string()]).unwrap();
    assert_eq!(done.text, text);
    assert!(done.log.is_empty());
    assert_eq!(convert(text, &[]).unwrap().text, text);
}

#[test]
fn rendering_is_stable_under_a_second_round() {
    let text = "a{b=<1 2>;c{d;};e=[0a0B];f=\"x\",\"y\";};";
    let once = render(&parse(text).unwrap());
    assert_eq!(once, "a {\n\tb = <0x01 0x02>;\n\tc {\n\t\td;\n\t};\n\te = [0a 0b];\n\tf = \"x\", \"y\";\n};\n");
    assert_eq!(render(&parse(&once).unwrap()), once);
}

#[test]
fn conversion_reports_parse_failures() {
    assert_eq!(
        convert("root {", &[]),
        Err(ConvertError::Parse(ParseError::UnexpectedEnd))
    );
    assert_eq!(
        convert("root { ! };", &[]),
        Err(ConvertError::Parse(ParseError::Lexical { at: 7 }))
    );
}

#[test]
fn entry_points_are_reachable_from_the_crate_root() {
    let mut file = dts_phandle::parse("n { phandle = <1>; };").unwrap();
    let mut map: bimap::BiMap<String, i64> = bimap::BiMap::new();
    for entry in &file {
        if let FileEntry::Branch(branch) = entry {
            dts_phandle::first_pass_walker(&mut map, "", branch).unwrap();
        }
    }
    for entry in &mut file {
        if let FileEntry::Branch(branch) = entry {
            dts_phandle::second_pass_walker(&map, branch, &[]);
        }
    }
    assert_eq!(map.get_by_right(&1), Some(&"n".to_string()));
    assert_eq!(dts_phandle::ast::Serialize::serialize(&file, 0), "n {\n\tphandle = <0x00>;\n};\n");
    assert_eq!(dts_phandle::ast::indent(2), "\t\t");
}
