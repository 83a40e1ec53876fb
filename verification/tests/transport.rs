//! The argument vector handed to the transport binary.

use sshish::Command;

fn strs(v: &[String]) -> Vec<&str> {
    v.iter().map(|s| s.as_str()).collect()
}

#[test]
fn default_port_emits_no_flag() {
    let mut c = Command::new("ls").host("example.com");
    c.arg("-l");
    let argv = c.transport_argv();
    assert_eq!(strs(&argv), vec!["example.com", "--", "ls", "-l"]);
}

#[test]
fn explicit_default_port_emits_no_flag() {
    let c = Command::new("ls").port(22).host("example.com");
    assert_eq!(strs(&c.transport_argv()), vec!["example.com", "--", "ls"]);
}

#[test]
fn non_default_port_emits_flag() {
    let c = Command::new("ls").port(2222).host("example.com");
    assert_eq!(
        strs(&c.transport_argv()),
        vec!["-p", "2222", "example.com", "--", "ls"]
    );
}

#[test]
fn port_one_digit_and_largest() {
    let c = Command::new("x").port(7).host("h");
    assert_eq!(strs(&c.transport_argv()), vec!["-p", "7", "h", "--", "x"]);
    let c = Command::new("x").port(65535).host("h");
    assert_eq!(strs(&c.transport_argv()), vec!["-p", "65535", "h", "--", "x"]);
}

#[test]
fn builder_state_is_not_drained_by_serialization() {
    let mut c = Command::new("prog").host("h");
    c.arg("a b");
    let first = c.remote_tokens();
    let second = c.remote_tokens();
    assert_eq!(first, second);
}
