//! Tests for arguments, commands, and the argument consumer.

use goldenscript::{parse_command, Argument, Command};

/// Constructs a positional Argument from a string value.
fn arg(value: &str) -> Argument {
    Argument { key: None, value: value.to_string() }
}

/// Constructs a key=value Argument.
fn arg_kv(key: &str, value: &str) -> Argument {
    Argument { key: Some(key.to_string()), value: value.to_string() }
}

/// Constructs a Command by parsing the given input string.
fn cmd(input: &str) -> Command {
    parse_command(&format!("{}\n", input)).expect("invalid command")
}

/// Tests Argument.name().
#[test]
fn argument_name() {
    assert_eq!(arg("value").name(), "value");
    assert_eq!(arg_kv("key", "value").name(), "key");
}

/// Basic tests of Argument.parse(). Not comprehensive, since it dispatches
/// to core::str::parse().
#[test]
fn argument_parse() {
    assert_eq!(arg("-1").parse::<i64>().unwrap(), -1_i64);
    assert_eq!(arg("0").parse::<i64>().unwrap(), 0_i64);
    assert_eq!(arg("1").parse::<i64>().unwrap(), 1_i64);

    assert_eq!(
        arg("").parse::<i64>().unwrap_err().to_string(),
        "invalid argument '': cannot parse integer from empty string"
    );
    assert_eq!(
        arg("foo").parse::<i64>().unwrap_err().to_string(),
        "invalid argument 'foo': invalid digit found in string"
    );

    assert!(!arg("false").parse::<bool>().unwrap());
    assert!(arg("true").parse::<bool>().unwrap());

    assert_eq!(
        arg("").parse::<bool>().unwrap_err().to_string(),
        "invalid argument '': provided string was not `true` or `false`"
    );
}

/// Tests Command.consume_args(). ArgumentConsumer is tested separately.
#[test]
fn command_consume_args() {
    let cmd = cmd("cmd foo key=value bar");
    assert_eq!(cmd.consume_args().rest(), vec![&cmd.args[0], &cmd.args[1], &cmd.args[2]]);
}

/// Tests ArgumentConsumer.lookup().
#[test]
fn argument_consumer_lookup() {
    let cmd = cmd("cmd value key=value foo=bar key=other");

    // lookup() returns None on unknown keys, including ones that match a
    // value argument.
    let mut args = cmd.consume_args();
    assert_eq!(args.lookup("unknown"), None);
    assert_eq!(args.lookup("value"), None);
    assert_eq!(args.rest().len(), 4);

    // lookup() removes duplicate keys, returning the last.
    let mut args = cmd.consume_args();
    assert_eq!(args.lookup("key"), Some(&cmd.args[3]));
    assert_eq!(args.rest(), vec![&cmd.args[0], &cmd.args[2]]);

    // lookup() removes single keys.
    let mut args = cmd.consume_args();
    assert_eq!(args.lookup("foo"), Some(&cmd.args[2]));
    assert_eq!(args.rest(), vec![&cmd.args[0], &cmd.args[1], &cmd.args[3]]);
}

/// Tests ArgumentConsumer.lookup_parse().
#[test]
fn argument_consumer_lookup_parse() {
    let cmd = cmd("cmd value key=1 foo=bar key=2");

    // lookup_parse() returns None on unknown keys, including ones that
    // match a value argument.
    let mut args = cmd.consume_args();
    assert_eq!(args.lookup_parse::<String>("unknown").unwrap(), None);
    assert_eq!(args.lookup_parse::<String>("value").unwrap(), None);
    assert_eq!(args.rest().len(), 4);

    // lookup_parse() parses and removes duplicate keys, returning the last.
    let mut args = cmd.consume_args();
    assert_eq!(args.lookup_parse("key").unwrap(), Some(2));
    assert_eq!(args.rest(), vec![&cmd.args[0], &cmd.args[2]]);

    // lookup_parse() parses and removes single keys, with string parsing
    // being a noop.
    let mut args = cmd.consume_args();
    assert_eq!(args.lookup_parse("foo").unwrap(), Some("bar".to_string()));
    assert_eq!(args.rest(), vec![&cmd.args[0], &cmd.args[1], &cmd.args[3]]);

    // lookup_parse() does not remove arguments on parse errors, even with
    // duplicate keys.
    let mut args = cmd.consume_args();
    assert!(args.lookup_parse::<bool>("key").is_err());
    assert_eq!(args.rest(), vec![&cmd.args[0], &cmd.args[1], &cmd.args[2], &cmd.args[3]]);
}

/// Tests ArgumentConsumer.next(), next_pos(), and next_key().
#[test]
fn argument_consumer_next() {
    let cmd = cmd("cmd foo key=1 key=2 bar");

    // next() returns references to all arguments and consumes them.
    let mut args = cmd.consume_args();
    assert_eq!(args.next(), Some(&cmd.args[0]));
    assert_eq!(args.next(), Some(&cmd.args[1]));
    assert_eq!(args.next(), Some(&cmd.args[2]));
    assert_eq!(args.next(), Some(&cmd.args[3]));
    assert_eq!(args.next(), None);
    assert!(args.rest().is_empty());

    // next_key() returns references to key/value arguments and consumes them.
    let mut args = cmd.consume_args();
    assert_eq!(args.next_key(), Some(&cmd.args[1]));
    assert_eq!(args.next_key(), Some(&cmd.args[2]));
    assert_eq!(args.next_key(), None);
    assert_eq!(args.next(), Some(&cmd.args[0]));
    assert_eq!(args.next(), Some(&cmd.args[3]));
    assert_eq!(args.next(), None);
    assert!(args.rest().is_empty());

    // next_pos() returns references to key/value arguments and consumes them.
    let mut args = cmd.consume_args();
    assert_eq!(args.next_pos(), Some(&cmd.args[0]));
    assert_eq!(args.next_pos(), Some(&cmd.args[3]));
    assert_eq!(args.next_pos(), None);
    assert_eq!(args.next(), Some(&cmd.args[1]));
    assert_eq!(args.next(), Some(&cmd.args[2]));
    assert_eq!(args.next(), None);
    assert!(args.rest().is_empty());
}

/// Tests ArgumentConsumer.reject_rest().
#[test]
fn argument_consumer_reject_rest() {
    // Empty args return Ok.
    let cmd_empty = cmd("cmd");
    assert!(cmd_empty.consume_args().reject_rest().is_ok());

    // Positional argument fails. It does not consume the arg.
    let cmd_pos = cmd("cmd value");
    let mut args = cmd_pos.consume_args();
    assert_eq!(args.reject_rest().unwrap_err().to_string(), "invalid argument 'value'");
    assert!(!args.rest().is_empty());

    // Key/value argument fails.
    let cmd_kv = cmd("cmd key=value");
    let mut args = cmd_kv.consume_args();
    assert_eq!(args.reject_rest().unwrap_err().to_string(), "invalid argument 'key'");
    assert!(!args.rest().is_empty());
}

/// Tests ArgumentConsumer.rest(), rest_pos() and rest_key().
#[test]
fn argument_consumer_rest() {
    let cmd = cmd("cmd foo key=1 key=2 bar");

    // rest() returns references to all arguments and consumes them.
    let mut args = cmd.consume_args();
    assert_eq!(args.rest(), vec![&cmd.args[0], &cmd.args[1], &cmd.args[2], &cmd.args[3]]);
    assert!(args.rest().is_empty());

    // rest_pos() returns and consumes positional arguments.
    let mut args = cmd.consume_args();
    assert_eq!(args.rest_pos(), vec![&cmd.args[0], &cmd.args[3]]);
    assert!(args.rest_pos().is_empty());
    assert_eq!(args.rest(), vec![&cmd.args[1], &cmd.args[2]]);

    // rest_key() returns and consumes key/value arguments.
    let mut args = cmd.consume_args();
    assert_eq!(args.rest_key(), vec![&cmd.args[1], &cmd.args[2]]);
    assert!(args.rest_key().is_empty());
    assert_eq!(args.rest(), vec![&cmd.args[0], &cmd.args[3]]);
}

/// Duplicate keys: lookup over `k=1 k=2 k=3` returns the last value and
/// removes all three instances from the working set.
#[test]
fn argument_consumer_duplicate_keys() {
    let cmd = cmd("cmd k=1 k=2 k=3");
    let mut args = cmd.consume_args();
    let found = args.lookup("k").expect("key not found");
    assert_eq!(found.value, "3");
    assert!(args.rest().is_empty());
}
