//! Token-level behavior of the serializer: escaping, ordering, and the
//! structure of the flattened remote command.

use sshish::Command;

fn strs(v: &[String]) -> Vec<&str> {
    v.iter().map(|s| s.as_str()).collect()
}

#[test]
fn safe_arg_passes_unchanged() {
    let mut c = Command::new("echo").host("localhost");
    c.arg("abc");
    let toks = c.remote_tokens();
    assert_eq!(strs(&toks), vec!["echo", "abc"]);
}

#[test]
fn arg_with_space_and_empty_arg_stay_distinct() {
    // Two distinct arguments must reach the remote program: one with an
    // embedded space, one empty — never one merged string.
    let mut c = Command::new("echo").host("localhost");
    c.arg("a b");
    c.arg("");
    let toks = c.remote_tokens();
    assert_eq!(strs(&toks), vec!["echo", "'a b'", "''"]);
}

#[test]
fn arg_count_is_preserved() {
    let mut c = Command::new("./tests/countargs.sh").host("localhost");
    c.arg("hi");
    c.arg("hello what is up");
    let toks = c.remote_tokens();
    // One token for the program, then exactly one token per argument,
    // whatever whitespace the arguments hold.
    assert_eq!(toks.len(), 3);
    assert_eq!(strs(&toks), vec!["./tests/countargs.sh", "hi", "'hello what is up'"]);
}

#[test]
fn dollar_arg_stays_literal() {
    // A literal dollar-prefixed argument is quoted, so the remote shell
    // cannot expand it as a variable reference.
    let mut c = Command::new("echo").host("localhost");
    c.arg("$hihello");
    let toks = c.remote_tokens();
    assert_eq!(strs(&toks), vec!["echo", "'$hihello'"]);
}

#[test]
fn quote_and_bang_are_escaped() {
    let mut c = Command::new("echo").host("localhost");
    c.arg("it's here!");
    let toks = c.remote_tokens();
    assert_eq!(strs(&toks), vec!["echo", r#"'it'\''s here'\!''"#]);
}

#[test]
fn metacharacters_are_quoted() {
    let mut c = Command::new("echo").host("localhost");
    c.arg("a;b|c&d`e");
    c.arg("new\nline");
    let toks = c.remote_tokens();
    assert_eq!(strs(&toks), vec!["echo", "'a;b|c&d`e'", "'new\nline'"]);
}

#[test]
fn args_appends_in_order() {
    let mut c = Command::new("prog").host("h");
    c.arg("first");
    c.args(&vec!["second".to_string(), "third one".to_string()]);
    let toks = c.remote_tokens();
    assert_eq!(strs(&toks), vec!["prog", "first", "second", "'third one'"]);
}

#[test]
fn env_value_is_escaped_and_key_is_not() {
    let val = "whatever it doesn't matter what I put here";
    let mut c = Command::new("bash").host("localhost");
    c.env("hihello", val);
    c.arg("-c");
    c.arg("echo $hihello");
    let toks = c.remote_tokens();
    assert_eq!(
        strs(&toks),
        vec![
            r#"hihello='whatever it doesn'\''t matter what I put here'"#,
            "bash",
            "-c",
            "'echo $hihello'",
        ]
    );
}

#[test]
fn env_dollar_value_not_expandable() {
    let mut c = Command::new("prog").host("h");
    c.env("K", "$HOME");
    let toks = c.remote_tokens();
    assert_eq!(strs(&toks), vec!["K='$HOME'", "prog"]);
}

#[test]
fn env_keys_serialize_in_lexicographic_order() {
    let mut c = Command::new("prog").host("h");
    c.env("ZEBRA", "1");
    c.env("ALPHA", "2");
    c.env("MIDDLE", "3");
    let toks = c.remote_tokens();
    assert_eq!(strs(&toks), vec!["ALPHA=2", "MIDDLE=3", "ZEBRA=1", "prog"]);
}

#[test]
fn env_insertion_order_does_not_matter() {
    let mut a = Command::new("prog").host("h");
    a.env("B", "two");
    a.env("A", "one word");
    let mut b = Command::new("prog").host("h");
    b.env("A", "one word");
    b.env("B", "two");
    assert_eq!(a.remote_tokens(), b.remote_tokens());
    assert_eq!(a.transport_argv(), b.transport_argv());
    assert_eq!(strs(&a.remote_tokens()), vec!["A='one word'", "B=two", "prog"]);
}

#[test]
fn env_last_disposition_wins() {
    let mut c = Command::new("prog").host("h");
    c.env("K", "old value");
    c.env("K", "new");
    let toks = c.remote_tokens();
    assert_eq!(strs(&toks), vec!["K=new", "prog"]);
}

#[test]
fn envs_records_pairs_in_call_order() {
    let mut c = Command::new("prog").host("h");
    c.envs(&vec![
        ("K".to_string(), "first".to_string()),
        ("A".to_string(), "x".to_string()),
        ("K".to_string(), "second".to_string()),
    ]);
    let toks = c.remote_tokens();
    assert_eq!(strs(&toks), vec!["A=x", "K=second", "prog"]);
}

#[test]
fn env_remove_emits_no_assignment() {
    let mut c = Command::new("prog").host("h");
    c.env("KEEP", "v");
    c.env("DROP", "w");
    c.env_remove("DROP");
    let toks = c.remote_tokens();
    assert_eq!(strs(&toks), vec!["KEEP=v", "prog"]);
}

#[test]
fn env_clear_discards_all_dispositions() {
    let mut c = Command::new("prog").host("h");
    c.env("A", "1");
    c.env("B", "2");
    c.env_clear();
    let toks = c.remote_tokens();
    assert_eq!(strs(&toks), vec!["prog"]);
    c.env("C", "3");
    assert_eq!(strs(&c.remote_tokens()), vec!["C=3", "prog"]);
}

#[test]
fn cd_clause_opens_the_command_and_is_conjoined() {
    let mut c = Command::new("prog").host("h");
    c.current_dir("/no such dir");
    c.env("K", "v");
    c.arg("x");
    let toks = c.remote_tokens();
    // The program token stands only after the `&&` conjunction: a failed
    // directory change stops the remote shell before the program.
    assert_eq!(
        strs(&toks),
        vec!["cd", "'/no such dir'", "&&", "K=v", "prog", "x"]
    );
}

#[test]
fn no_cd_clause_without_current_dir() {
    let mut c = Command::new("prog").host("h");
    c.arg("x");
    assert_eq!(strs(&c.remote_tokens()), vec!["prog", "x"]);
}

#[test]
fn program_name_is_not_escaped() {
    let c = Command::new("my program").host("h");
    // The documented trust boundary: the program token travels verbatim.
    assert_eq!(strs(&c.remote_tokens()), vec!["my program"]);
}
