//! Tests for the goldenscript parser: strings and escapes, command
//! structure, blocks, and error cases.

use goldenscript::{parse, parse_command, Command};

fn cmd(input: &str) -> Command {
    parse_command(&format!("{}\n", input)).expect("invalid command")
}

/// Escape sequences decode to the escaped characters: a `\n` escape becomes
/// one literal newline, an empty quoted string is empty, and a Unicode escape
/// becomes its scalar value.
#[test]
fn escape_correctness() {
    assert_eq!(cmd("\"a\\nb\"").name, "a\nb");
    assert_eq!(cmd("x ''").args[0].value, "");
    assert_eq!(cmd("x \"\\u{1F680}\"").args[0].value, "\u{1F680}");
    assert_eq!(cmd("x \"\\u{1F680}\"").args[0].value, "🚀");
}

/// The remaining escapes: quotes, backslash, null, carriage return, tab, and
/// two-digit hexadecimal bytes.
#[test]
fn escape_sequences() {
    assert_eq!(cmd("x \"\\\\ \\' \\\" \\0 \\r \\t\"").args[0].value, "\\ ' \" \0 \r \t");
    assert_eq!(cmd("x \"\\x41\\x7a\"").args[0].value, "Az");
    assert_eq!(cmd("x '\\xFF'").args[0].value, "\u{FF}");
}

/// Malformed escapes are parse errors: an unknown escape, a bad hex digit,
/// too many Unicode digits, an invalid code point (a surrogate), and an
/// unterminated quote.
#[test]
fn escape_errors() {
    assert!(parse_command("x \"\\q\"\n").is_err());
    assert!(parse_command("x \"\\xg1\"\n").is_err());
    assert!(parse_command("x \"\\u{1234567}\"\n").is_err());
    assert!(parse_command("x \"\\u{D800}\"\n").is_err());
    assert!(parse_command("x \"abc\n").is_err());
}

/// Unquoted strings take alphanumerics and `_ - . / @`, and stop at anything
/// else.
#[test]
fn unquoted_strings() {
    let c = cmd("na-me.1/x@y arg_1");
    assert_eq!(c.name, "na-me.1/x@y");
    assert_eq!(c.args[0].value, "arg_1");
    // A string may not start with punctuation.
    assert!(parse_command("-x\n").is_err());
}

/// A command line: silencing parentheses, prefix, failure marker, arguments
/// with and without keys and values, and a bracketed tag list.
#[test]
fn command_structure() {
    let c = cmd("(client1: ! put key=value bare key2= [slow,2])");
    assert!(c.silent);
    assert_eq!(c.prefix.as_deref(), Some("client1"));
    assert!(c.fail);
    assert_eq!(c.name, "put");
    assert_eq!(c.args.len(), 3);
    assert_eq!(c.args[0].key.as_deref(), Some("key"));
    assert_eq!(c.args[0].value, "value");
    assert_eq!(c.args[1].key, None);
    assert_eq!(c.args[1].value, "bare");
    assert_eq!(c.args[2].key.as_deref(), Some("key2"));
    assert_eq!(c.args[2].value, "");
    assert_eq!(c.tags, vec!["slow".to_string(), "2".to_string()]);
    assert_eq!(c.line_number, 1);

    // An unterminated silencing parenthesis or tag list is an error, and so
    // is trailing garbage.
    assert!(parse_command("(cmd\n").is_err());
    assert!(parse_command("cmd [a\n").is_err());
    assert!(parse_command("cmd )\n").is_err());
}

/// Comments after a command are ignored; a comment cannot stand in place of
/// a command name.
#[test]
fn command_comments() {
    let c = cmd("get key # trailing comment");
    assert_eq!(c.name, "get");
    assert_eq!(c.args.len(), 1);
    let c = cmd("get key // slashes too");
    assert_eq!(c.name, "get");
}

/// Blocks: commands, separator, and skipped output regions; comment lines
/// between commands are skipped; line numbers are 1-based.
#[test]
fn parse_blocks() {
    let input = "get a\n---\nold output\nmore output\n\n# comment\nput b=1\n---\n";
    let blocks = parse(input).expect("parse failed");
    assert_eq!(blocks.len(), 2);
    assert_eq!(blocks[0].commands.len(), 1);
    assert_eq!(blocks[0].commands[0].name, "get");
    assert_eq!(blocks[0].line_number, 1);
    assert_eq!(blocks[0].literal, "get a\n");
    assert_eq!(blocks[1].commands.len(), 1);
    assert_eq!(blocks[1].commands[0].name, "put");
    assert_eq!(blocks[1].commands[0].line_number, 7);
    assert_eq!(blocks[1].literal, "# comment\nput b=1\n");
}

/// A trailing block of only comments or blank lines is kept with no
/// commands; its literal is preserved verbatim.
#[test]
fn parse_trailing_comments() {
    let input = "get a\n---\n\n# the end\n";
    let blocks = parse(input).expect("parse failed");
    assert_eq!(blocks.len(), 2);
    assert_eq!(blocks[1].commands.len(), 0);
    assert_eq!(blocks[1].literal, "# the end\n");
}

/// A missing separator after a command section is a parse error, as is a
/// separator with no commands before it, or a command without a line ending.
#[test]
fn parse_errors() {
    assert!(parse("get a\n").is_err());
    assert!(parse("---\n").is_err());
    assert!(parse("get a").is_err());
    let e = parse("get a\nbad !\n---\n").unwrap_err();
    assert_eq!(e.line, 2);
    // The empty script is fine: no blocks.
    assert_eq!(parse("").expect("parse failed").len(), 0);
}

/// A command name must be a non-empty string: an empty quoted name is a
/// parse error, while an empty quoted argument value is fine.
#[test]
fn empty_command_name() {
    assert!(parse_command("''\n").is_err());
    assert!(parse_command("\"\"\n").is_err());
    assert!(parse_command("'' arg\n").is_err());
    assert!(parse("''\n---\n").is_err());
    assert_eq!(cmd("x '' ''=''").args.len(), 2);
}
