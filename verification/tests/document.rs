use cargo_graph::document::{toml_from_str, DocValue, Entry};
use cargo_graph::error::CliError;
use cargo_graph::nesting::{nesting_of, MAX_NESTING};
use cargo_graph::text::{contains_name, find_space, push_decimal, split_at_space};

#[test]
fn a_document_is_read_into_a_tree() {
    let doc = toml_from_str(
        "title = \"x\"\ncount = 3\non = true\nratio = 1.5\nwhen = 1979-05-27T07:32:00Z\nlist = [1, \"two\"]\n",
    )
    .unwrap();
    assert_eq!(
        doc,
        DocValue::Table(vec![
            Entry { key: "count".to_owned(), value: DocValue::Integer(3) },
            Entry {
                key: "list".to_owned(),
                value: DocValue::Array(vec![
                    DocValue::Integer(1),
                    DocValue::String("two".to_owned())
                ]),
            },
            Entry { key: "on".to_owned(), value: DocValue::Boolean(true) },
            Entry { key: "ratio".to_owned(), value: DocValue::Float(1.5f64.to_bits()) },
            Entry { key: "title".to_owned(), value: DocValue::String("x".to_owned()) },
            Entry {
                key: "when".to_owned(),
                value: DocValue::Datetime("1979-05-27T07:32:00Z".to_owned()),
            },
        ])
    );
}

#[test]
fn tables_nest() {
    let doc = toml_from_str("[a]\nb = { c = 1 }\n[[d]]\ne = 2\n[[d]]\ne = 3\n").unwrap();
    let a = doc.get("a").unwrap();
    let b = a.get("b").unwrap();
    assert_eq!(b.get("c"), Some(&DocValue::Integer(1)));
    let d = doc.get("d").unwrap().as_array().unwrap();
    assert_eq!(d.len(), 2);
    assert_eq!(d[1].get("e"), Some(&DocValue::Integer(3)));
}

#[test]
fn an_empty_text_is_an_empty_table() {
    assert_eq!(toml_from_str("").unwrap(), DocValue::Table(vec![]));
}

#[test]
fn a_text_that_is_no_document_is_refused() {
    assert!(matches!(toml_from_str("a = "), Err(CliError::Parse(_))));
    assert!(matches!(toml_from_str("[a"), Err(CliError::Parse(_))));
    assert!(matches!(toml_from_str("a = 1\na = 2\n"), Err(CliError::Parse(_))));
}

#[test]
fn get_reads_tables_only() {
    let table = DocValue::Table(vec![
        Entry { key: "k".to_owned(), value: DocValue::Integer(1) },
        Entry { key: "k".to_owned(), value: DocValue::Integer(2) },
        Entry { key: "l".to_owned(), value: DocValue::Boolean(false) },
    ]);
    assert_eq!(table.get("k"), Some(&DocValue::Integer(1)));
    assert_eq!(table.get("l"), Some(&DocValue::Boolean(false)));
    assert_eq!(table.get("m"), None);
    assert_eq!(DocValue::Array(vec![]).get("k"), None);
    assert_eq!(DocValue::String("k".to_owned()).get("k"), None);
}

#[test]
fn the_accessors_tell_the_variants_apart() {
    let s = DocValue::String("text".to_owned());
    assert_eq!(s.as_str(), Some("text"));
    assert!(s.as_table().is_none() && s.as_array().is_none() && !s.is_true());
    assert_eq!(DocValue::Datetime("1979-05-27".to_owned()).as_str(), None);
    assert!(DocValue::Boolean(true).is_true());
    assert!(!DocValue::Boolean(false).is_true());
    assert!(!DocValue::Integer(1).is_true());
    assert_eq!(DocValue::Table(vec![]).as_table(), Some(&vec![]));
    assert_eq!(
        DocValue::Array(vec![DocValue::Integer(1)]).as_array(),
        Some(&vec![DocValue::Integer(1)])
    );
    assert!(DocValue::Float(0).as_array().is_none());
}

#[test]
fn splitting_at_the_first_space() {
    assert_eq!(find_space("lib 2.0"), Some(3));
    assert_eq!(find_space(" x"), Some(0));
    assert_eq!(find_space("none"), None);
    assert_eq!(find_space(""), None);
    assert_eq!(find_space("ünï cödé"), Some(3));
    assert_eq!(split_at_space("lib 2.0 (registry)"), Some(("lib", "2.0 (registry)")));
    assert_eq!(split_at_space("ünï cödé"), Some(("ünï", "cödé")));
    assert_eq!(split_at_space("end "), Some(("end", "")));
    assert_eq!(split_at_space("a  b"), Some(("a", " b")));
    assert_eq!(split_at_space("word"), None);
}

#[test]
fn names_are_found_in_lists() {
    let names = vec!["a".to_owned(), "bc".to_owned()];
    assert!(contains_name(&names, &"bc".to_owned()));
    assert!(!contains_name(&names, &"b".to_owned()));
    assert!(!contains_name(&Vec::new(), &"a".to_owned()));
}

#[test]
fn numbers_are_written_in_decimal() {
    let mut out = "n".to_owned();
    push_decimal(&mut out, 0);
    out.push(',');
    push_decimal(&mut out, 7);
    out.push(',');
    push_decimal(&mut out, 10);
    out.push(',');
    push_decimal(&mut out, 4096);
    out.push(',');
    push_decimal(&mut out, usize::MAX);
    assert_eq!(out, format!("n0,7,10,4096,{}", usize::MAX));
}

#[test]
fn nesting_counts_brackets_braces_and_periods() {
    assert_eq!(MAX_NESTING, 128);
    assert_eq!(nesting_of(""), 0);
    assert_eq!(nesting_of("a = 1\nb = \"x\"\n"), 0);
    assert_eq!(nesting_of("a = [1, 2]\n"), 1);
    assert_eq!(nesting_of("a = [[1], [2, [3]]]\n"), 3);
    assert_eq!(nesting_of("a = { b = { c = 1 } }\n"), 2);
    assert_eq!(nesting_of("[a.b.c]\n"), 3);
    assert_eq!(nesting_of("[[a.b]]\n"), 3);
    assert_eq!(nesting_of("a.b.c = 1\n"), 2);
    assert_eq!(nesting_of("a.b = [[1]]\n"), 3);
    assert_eq!(nesting_of("a = { b.c = { d.e = [1] } }\n"), 5);
    assert_eq!(nesting_of("a = 1.5\nb = 2.5\nc = 3.5\n"), 1);
    assert_eq!(nesting_of("a = [\n 1.5,\n 2.5,\n]\nb = 1\n"), 3);
    assert_eq!(nesting_of("a = [1]\nb = [2]\nc = [3]\n"), 1);
    assert_eq!(nesting_of("a = [1]\r\nb.c = 2\r\n"), 1);
}

#[test]
fn nesting_passes_over_strings_and_comments() {
    assert_eq!(nesting_of("a = \"[[[{{{...\"\n"), 0);
    assert_eq!(nesting_of("a = '[[[{{{...'\n"), 0);
    assert_eq!(nesting_of("# [[[ ... {{{\na = [1]\n"), 1);
    assert_eq!(nesting_of("a = [1] # ]]] [[[\n"), 1);
    assert_eq!(nesting_of("a = \"x\\\"[[\"\nb = [1]\n"), 1);
    assert_eq!(nesting_of("a = \"x\\\\\"\nb = [[1]]\n"), 2);
    assert_eq!(nesting_of("a = \"\"\nb = [[1]]\n"), 2);
    assert_eq!(nesting_of("a = ''\nb = [[1]]\n"), 2);
    assert_eq!(nesting_of("a = \"\"\"\n[[[\n\"\" [[ \"\n\"\"\"\nb = [1]\n"), 1);
    assert_eq!(nesting_of("a = '''\n[[[\n'' ]] \\'''\nb = [1]\n"), 1);
    assert_eq!(nesting_of("a = \"\"\"x\"\"\"\"\"\nb = [[1]]\n"), 2);
    assert_eq!(nesting_of("a = \"\"\"x\\\"\"\"[[[\"\"\"\nb = [1]\n"), 1);
    assert_eq!(nesting_of("\"a.b\".c = 1\n'd.e' = 2\n"), 1);
    assert_eq!(nesting_of("[target.'cfg(any(unix, windows))'.dependencies]\n"), 3);
}

fn nested(levels: usize) -> String {
    format!("a = {}1{}\n", "[".repeat(levels), "]".repeat(levels))
}

#[test]
fn a_text_at_the_limit_is_read() {
    assert_eq!(nesting_of(&nested(MAX_NESTING)), MAX_NESTING);
    let doc = toml_from_str(&nested(MAX_NESTING)).unwrap();
    let mut value = doc.get("a").unwrap();
    let mut levels = 0;
    while let Some(items) = value.as_array() {
        assert_eq!(items.len(), 1);
        value = &items[0];
        levels += 1;
    }
    assert_eq!(levels, MAX_NESTING);
    assert_eq!(value, &DocValue::Integer(1));
    let parts: Vec<&str> = std::iter::repeat("t").take(MAX_NESTING).collect();
    let keys: Vec<&str> = std::iter::repeat("k").take(MAX_NESTING / 2 + 1).collect();
    let text = format!(
        "[{}]\n{} = {}1{}\n",
        parts.join("."),
        keys.join("."),
        "[".repeat(MAX_NESTING / 2),
        "]".repeat(MAX_NESTING / 2)
    );
    assert_eq!(nesting_of(&text), MAX_NESTING);
    assert!(toml_from_str(&text).is_ok());
}

#[test]
fn a_text_beyond_the_limit_is_refused() {
    assert!(matches!(toml_from_str(&nested(MAX_NESTING + 1)), Err(CliError::Nesting)));
    assert!(matches!(toml_from_str(&"[".repeat(100_000)), Err(CliError::Nesting)));
    assert!(matches!(toml_from_str(&"{".repeat(100_000)), Err(CliError::Nesting)));
    let header = format!("[a{}]\n", ".a".repeat(100_000));
    assert!(matches!(toml_from_str(&header), Err(CliError::Nesting)));
    let key = format!("a{} = 1\n", ".a".repeat(100_000));
    assert!(matches!(toml_from_str(&key), Err(CliError::Nesting)));
    let in_string = format!("a = \"{}\"\n", "[".repeat(1000));
    assert!(toml_from_str(&in_string).is_ok());
    let in_comment = format!("# {}\na = 1\n", "[.{".repeat(1000));
    assert!(toml_from_str(&in_comment).is_ok());
}
