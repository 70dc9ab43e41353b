use yo_compat::corpus::{split, Corpus, Register};

#[test]
fn a_quoted_empty_value_is_an_argument() {
    let args = split(r#"SET key """#).unwrap();
    assert_eq!(args, vec!["SET", "key", ""]);
}

#[test]
fn a_value_with_spaces_survives() {
    let args = split(r#"SET key "two words""#).unwrap();
    assert_eq!(args, vec!["SET", "key", "two words"]);
}

#[test]
fn an_unclosed_quote_is_an_error_and_not_a_guess() {
    assert!(split(r#"SET key "unfinished"#).is_err());
}

#[test]
fn a_divergence_without_a_reason_does_not_load() {
    let text = "[[divergence]]\ncorpus = \"string.txt\"\ncommand = \"OBJECT\"\n";
    assert!(Register::parse(text).is_err());
}

#[test]
fn the_register_excuses_by_prefix_and_nothing_else() {
    let text = "[[divergence]]\ncorpus = \"string.txt\"\n\
                command = \"OBJECT ENCODING\"\nreason = \"we have one encoding\"\n";
    let r = Register::parse(text).unwrap();
    assert!(r.excuses("string.txt", "OBJECT ENCODING key"));
    assert!(!r.excuses("string.txt", "OBJECT REFCOUNT key"));
    assert!(!r.excuses("expire.txt", "OBJECT ENCODING key"));
}

#[test]
fn split_messages_name_the_fault() {
    assert_eq!(split(r#"SET key "open"#).unwrap_err(), "a quote was never closed");
    assert_eq!(split(r#"SET key "ends\"#).unwrap_err(), "a line ended in a backslash");
}

#[test]
fn escapes_inside_quotes_become_characters() {
    let args = split(r#"SET k "a\nb\tc\\d\"e\qf\r""#).unwrap();
    assert_eq!(args, vec!["SET", "k", "a\nb\tc\\d\"eqf\r"]);
}

#[test]
fn a_backslash_outside_quotes_is_an_ordinary_character() {
    let args = split(r#"SET k a\nb"#).unwrap();
    assert_eq!(args, vec!["SET", "k", "a\\nb"]);
}

#[test]
fn whitespace_runs_separate_and_quotes_join() {
    let args = split("  GET\t  k  ").unwrap();
    assert_eq!(args, vec!["GET", "k"]);
    let args = split(r#"SET a"b c"d "   ""#).unwrap();
    assert_eq!(args, vec!["SET", "ab cd", "   "]);
    assert_eq!(split("").unwrap(), Vec::<String>::new());
    assert_eq!(split("\"\"").unwrap(), vec![""]);
}

#[test]
fn a_corpus_keeps_line_numbers_and_skips_comments() {
    let text = "# strings\n\nSET k v\r\n  # indented comment\nGET k\n   \nAPPEND k \"x y\"";
    let c = Corpus::from_text(text).ok().unwrap();
    assert_eq!(c.steps.len(), 3);
    assert_eq!(c.steps[0].line, 3);
    assert_eq!(c.steps[0].args, vec!["SET", "k", "v"]);
    assert_eq!(c.steps[1].line, 5);
    assert_eq!(c.steps[1].args, vec!["GET", "k"]);
    assert_eq!(c.steps[2].line, 7);
    assert_eq!(c.steps[2].args, vec!["APPEND", "k", "x y"]);
}

#[test]
fn a_corpus_line_that_does_not_split_is_reported_by_number() {
    let text = "SET k v\nGET \"k\n";
    match Corpus::from_text(text) {
        Err(e) => {
            assert_eq!(e.line, 2);
            assert_eq!(e.message, "a quote was never closed");
        }
        Ok(_) => panic!("the unclosed quote was accepted"),
    }
    assert_eq!(Corpus::from_text("").ok().unwrap().steps.len(), 0);
}

#[test]
fn register_faults_carry_their_line() {
    let e = Register::parse("[[divergence]]\ncorpus \"x\"\n").err().unwrap();
    assert_eq!(e, "not a key and a value: corpus \"x\"");
    let e = Register::parse("[[divergence]]\nfile = \"x\"\n").err().unwrap();
    assert_eq!(e, "no such field: file");
    let e = Register::parse("[[divergence]]\ncorpus = \"a\"\ncommand = \"b\"\nreason = \"\"\n")
        .err()
        .unwrap();
    assert_eq!(e, "every divergence needs a corpus, a command and a reason");
}

#[test]
fn an_empty_register_excuses_nothing() {
    let r = Register::parse("# nothing yet\n").ok().unwrap();
    assert!(!r.excuses("string.txt", "GET k"));
    let r = Register::default();
    assert!(!r.excuses("string.txt", "GET k"));
}

#[test]
fn the_register_ignores_case_and_holds_every_table() {
    let text = "[[divergence]]\ncorpus = \"a.txt\"\ncommand = \"setrange\"\nreason = \"r\"\n\
                [[divergence]]\n  corpus=\"a.txt\"\ncommand = \"\"\"GETEX k\"\"\"\nreason = why\n";
    let r = Register::parse(text).ok().unwrap();
    assert!(r.excuses("a.txt", "SETRANGE k 5 x"));
    assert!(r.excuses("a.txt", "getex k PX 10"));
    assert!(!r.excuses("a.txt", "GET k"));
    assert!(!r.excuses("b.txt", "SETRANGE k 5 x"));
}

#[test]
fn corpus_files_are_the_txt_names_in_order() {
    let names: Vec<Vec<u8>> =
        ["string.txt", "README.md", ".txt", "a..txt", "zset.txt", "b.TXT", "hash.txt", "txt", "Z.txt"]
            .iter()
            .map(|s| s.as_bytes().to_vec())
            .collect();
    let files = yo_compat::corpus::corpus_files(&names);
    let expected: Vec<Vec<u8>> = ["Z.txt", "a..txt", "hash.txt", "string.txt", "zset.txt"]
        .iter()
        .map(|s| s.as_bytes().to_vec())
        .collect();
    assert_eq!(files, expected);
    assert!(yo_compat::corpus::corpus_files(&vec![]).is_empty());
    let odd = vec![b"\xffx.txt".to_vec(), b"a.txt".to_vec()];
    assert_eq!(yo_compat::corpus::corpus_files(&odd), vec![b"a.txt".to_vec(), b"\xffx.txt".to_vec()]);
}

#[test]
fn plain_words_split_back_into_themselves() {
    let words = ["SETRANGE", "k\\x", "5", "a'b"];
    let line = words.join(" ");
    assert_eq!(split(&line).unwrap(), words.to_vec());
}

#[test]
fn any_run_of_whitespace_separates_unquoted_words() {
    let line = " \tSET\u{a0}\u{3000}k\\x   v\u{2028}";
    let words: Vec<String> = line.split_whitespace().map(String::from).collect();
    assert_eq!(split(line).unwrap(), words);
    assert_eq!(split("  \t ").unwrap(), Vec::<String>::new());
}

#[test]
fn quoted_and_escaped_arguments_split_back_into_themselves() {
    let args = vec!["", "two words", "a\"b", "back\\slash", " \t", "plain"];
    let quote = |a: &str| format!("\"{}\"", a.replace('\\', "\\\\").replace('"', "\\\""));
    let line = args.iter().map(|a| quote(a)).collect::<Vec<_>>().join(" ");
    assert_eq!(split(&line).unwrap(), args);
}
