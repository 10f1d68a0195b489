use saveparse::parse::{
    assignment_parser, boolean_parser, object_parser, section_parser, sections_parser,
    single_object_parser, string_parser, struct_parser, title_parser, wierd_exception,
};
use saveparse::{ErrorKind, Object};

fn chars(s: &str) -> Vec<char> {
    s.chars().collect()
}

#[test]
fn test_title_parser() {
    let s = chars("[hello]");
    let (title, rest) = title_parser(&s, 0).unwrap();
    assert_eq!(title, "hello".to_string());
    assert_eq!(rest, s.len());
}

#[test]
fn test_string_parser() {
    let s = chars("\"hello \\\"world\\\"\"");
    let (text, rest) = string_parser(&s, 0).unwrap();
    assert_eq!(text, "hello \"world\"".to_string());
    assert_eq!(rest, s.len());
}

#[test]
fn test_boolean_parser() {
    let s = chars("true");
    let (o, rest) = boolean_parser(&s, 0).unwrap();
    assert_eq!(o, Object::Boolean(true));
    assert_eq!(rest, s.len());
}

#[test]
fn test_wierd_exception_parser() {
    let s = chars("$$string");
    let (o, rest) = wierd_exception(&s, 0).unwrap();
    assert_eq!(o, Object::RandomText("$$string".to_string()));
    assert_eq!(rest, s.len());
}

#[test]
fn test_single_object_parser() {
    let s = chars("123");
    let (o, rest) = single_object_parser(&s, 0).unwrap();
    assert_eq!(o, Object::IntObject(123));
    assert_eq!(rest, s.len());

    let s = chars("true");
    let (o, rest) = single_object_parser(&s, 0).unwrap();
    assert_eq!(o, Object::Boolean(true));
    assert_eq!(rest, s.len());

    let s = chars("\"string\"");
    let (o, rest) = single_object_parser(&s, 0).unwrap();
    assert_eq!(o, Object::String("string".to_string()));
    assert_eq!(rest, s.len());

    let s = chars("$$wierd");
    let (o, rest) = single_object_parser(&s, 0).unwrap();
    assert_eq!(o, Object::RandomText("$$wierd".to_string()));
    assert_eq!(rest, s.len());
}

#[test]
fn test_struct_parser() {
    let s = chars("{\"col1\", \"col2\"\n1, 2\n\"hello\", \"world\"\ntrue, false\n}");
    let ((header, rows), rest) = struct_parser(&s, 0).unwrap();
    assert_eq!(header, vec!["col1".to_string(), "col2".to_string()]);
    assert_eq!(
        rows,
        vec![
            vec![Object::IntObject(1), Object::IntObject(2)],
            vec![
                Object::String("hello".to_string()),
                Object::String("world".to_string())
            ],
            vec![Object::Boolean(true), Object::Boolean(false)],
        ]
    );
    assert_eq!(rest, s.len());
}

#[test]
fn test_object_parser() {
    let s = chars("1, 2, 3");
    let (o, rest) = object_parser(&s, 0).unwrap();
    assert_eq!(
        o,
        Object::VecObject(vec![
            Object::IntObject(1),
            Object::IntObject(2),
            Object::IntObject(3)
        ])
    );
    assert_eq!(rest, s.len());
}

#[test]
fn test_assignment_parser() {
    let s = chars("test = 1");
    let ((key, o), rest) = assignment_parser(&s, 0).unwrap();
    assert_eq!(key, "test".to_string());
    assert_eq!(o, Object::IntObject(1));
    assert_eq!(rest, s.len());
}

#[test]
fn test_section_parser() {
    let s = chars("[test]\ntest1 = 1\ntest2 = \"hello world\"\ntest3 = true");
    let ((name, sec), rest) = section_parser(&s, 0).unwrap();
    assert_eq!(name, "test".to_string());
    assert_eq!(
        sec,
        vec![
            ("test1".to_string(), Object::IntObject(1)),
            (
                "test2".to_string(),
                Object::String("hello world".to_string())
            ),
            ("test3".to_string(), Object::Boolean(true)),
        ]
    );
    assert_eq!(rest, s.len());
}

#[test]
fn integer_signs_and_limits() {
    let s = chars("-42");
    assert_eq!(
        single_object_parser(&s, 0).unwrap().0,
        Object::IntObject(-42)
    );
    let s = chars("+7");
    assert_eq!(single_object_parser(&s, 0).unwrap().0, Object::IntObject(7));
    let s = chars("9223372036854775807");
    assert_eq!(
        single_object_parser(&s, 0).unwrap().0,
        Object::IntObject(i64::MAX)
    );
    let s = chars("-9223372036854775808");
    assert_eq!(
        single_object_parser(&s, 0).unwrap().0,
        Object::IntObject(i64::MIN)
    );
}

#[test]
fn integer_overflow_is_an_error() {
    let s = chars("9223372036854775808");
    let e = single_object_parser(&s, 0).unwrap_err();
    assert_eq!(e.kind, ErrorKind::NumericOverflow);
    let s = chars("-9223372036854775809");
    let e = single_object_parser(&s, 0).unwrap_err();
    assert_eq!(e.kind, ErrorKind::NumericOverflow);
}

#[test]
fn malformed_title_is_an_error() {
    let s = chars("[]");
    let e = title_parser(&s, 0).unwrap_err();
    assert_eq!(e.kind, ErrorKind::MalformedTitle);
    let s = chars("[abc");
    let e = title_parser(&s, 0).unwrap_err();
    assert_eq!(e.kind, ErrorKind::MalformedTitle);
}

#[test]
fn title_is_alphanumeric_only() {
    let s = chars("[a1B]");
    let (title, rest) = title_parser(&s, 0).unwrap();
    assert_eq!(title, "a1B".to_string());
    assert_eq!(rest, s.len());
    let s = chars("[a_]");
    let e = title_parser(&s, 0).unwrap_err();
    assert_eq!(e.kind, ErrorKind::MalformedTitle);
}

#[test]
fn key_may_hold_underscore() {
    let s = chars("my_key = 1");
    let ((key, o), _) = assignment_parser(&s, 0).unwrap();
    assert_eq!(key, "my_key".to_string());
    assert_eq!(o, Object::IntObject(1));
}

#[test]
fn string_errors() {
    let s = chars("\"abc");
    let e = string_parser(&s, 0).unwrap_err();
    assert_eq!(e.kind, ErrorKind::UnterminatedString);
    let s = chars("\"abc\\");
    let e = string_parser(&s, 0).unwrap_err();
    assert_eq!(e.kind, ErrorKind::DanglingEscape);
}

#[test]
fn localization_wrapper_is_stripped() {
    let s = chars("_(\"hi\")");
    let (text, rest) = string_parser(&s, 0).unwrap();
    assert_eq!(text, "hi".to_string());
    assert_eq!(rest, s.len());
}

#[test]
fn escape_decoding() {
    let s = chars("\"a\\tb\\nc\\\\d\\q\"");
    let (text, _) = string_parser(&s, 0).unwrap();
    assert_eq!(text, "a\tb\nc\\dq".to_string());
}

#[test]
fn empty_table_header_is_an_error() {
    let s = chars("{}");
    let e = object_parser(&s, 0).unwrap_err();
    assert_eq!(e.kind, ErrorKind::EmptyArrayNotAllowed);
}

#[test]
fn row_arity_mismatch_is_an_error() {
    let s = chars("{\"a\", \"b\"\n1, 2, 3\n}");
    let e = struct_parser(&s, 0).unwrap_err();
    assert_eq!(e.kind, ErrorKind::RowArityMismatch);
    let s = chars("{\"a\", \"b\"\n1\n}");
    let e = struct_parser(&s, 0).unwrap_err();
    assert_eq!(e.kind, ErrorKind::RowArityMismatch);
}

#[test]
fn table_value_is_zipped_with_header() {
    let s = chars("{\"col1\", \"col2\"\n1, 2\n}");
    let (o, _) = object_parser(&s, 0).unwrap();
    assert_eq!(
        o,
        Object::StructVecObject(vec![vec![
            ("col1".to_string(), Object::IntObject(1)),
            ("col2".to_string(), Object::IntObject(2)),
        ]])
    );
}

#[test]
fn zero_row_table_parses() {
    let s = chars("{\"a\", \"b\"\n}");
    let ((header, rows), rest) = struct_parser(&s, 0).unwrap();
    assert_eq!(header, vec!["a".to_string(), "b".to_string()]);
    assert_eq!(rows, Vec::<Vec<Object>>::new());
    assert_eq!(rest, s.len());
}

#[test]
fn single_scalar_is_not_an_array() {
    let s = chars("x = 1");
    let ((_, o), _) = assignment_parser(&s, 0).unwrap();
    assert_eq!(o, Object::IntObject(1));
}

#[test]
fn assignment_errors() {
    let s = chars("test 1");
    let e = assignment_parser(&s, 0).unwrap_err();
    assert_eq!(e.kind, ErrorKind::MissingEquals);
    let s = chars("test =");
    let e = assignment_parser(&s, 0).unwrap_err();
    assert_eq!(e.kind, ErrorKind::MissingValue);
}

#[test]
fn duplicate_key_last_wins() {
    let s = chars("[s]\na = 1\na = 2");
    let ((_, sec), _) = section_parser(&s, 0).unwrap();
    assert_eq!(sec, vec![("a".to_string(), Object::IntObject(2))]);
}

#[test]
fn document_parsing() {
    let s = chars("[one]\nx = 1\n[two]\ny = \"z\"\n");
    let doc = sections_parser(&s).unwrap();
    assert_eq!(doc.len(), 2);
    assert_eq!(doc[0].0, "one".to_string());
    assert_eq!(doc[0].1, vec![("x".to_string(), Object::IntObject(1))]);
    assert_eq!(doc[1].0, "two".to_string());
    assert_eq!(
        doc[1].1,
        vec![("y".to_string(), Object::String("z".to_string()))]
    );

    let empty = chars("   \n ");
    assert_eq!(sections_parser(&empty).unwrap(), vec![]);
}

#[test]
fn trailing_garbage_is_an_error() {
    let s = chars("hello");
    let e = sections_parser(&s).unwrap_err();
    assert_eq!(e.kind, ErrorKind::TrailingGarbage);
}

#[test]
fn document_round_trip() {
    let text = "[alpha]\nnum = -7\nflag = true\nname = \"hello \\\"w\\\"\"\narr = 1, 2, 3\nraw = $$token\n[beta]\ntab = {\"c1\", \"c2\"\n1, \"x\"\ntrue, 2\n}\n";
    let s = chars(text);
    let doc = sections_parser(&s).unwrap();
    let rendered = saveparse::render::document_to_chars(&doc);
    let doc2 = sections_parser(&rendered).unwrap();
    assert_eq!(doc, doc2);
}
