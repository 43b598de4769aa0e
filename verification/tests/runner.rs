//! Tests for the execution engine: hooks, output formatting, failure
//! handling, and round-trip generation.

use goldenscript::{generate, render_command, Command, GenerateError, HookKind, Outcome, Runner};

/// A runner which simply counts the number of times its hooks are called.
#[derive(Default)]
struct HookRunner {
    start_script_count: usize,
    end_script_count: usize,
    start_block_count: usize,
    end_block_count: usize,
}

impl Runner for HookRunner {
    fn run(&mut self, _: &Command) -> Result<String, String> {
        Ok(String::new())
    }

    fn start_script(&mut self) -> Result<(), String> {
        self.start_script_count += 1;
        Ok(())
    }

    fn end_script(&mut self) -> Result<(), String> {
        self.end_script_count += 1;
        Ok(())
    }

    fn start_block(&mut self) -> Result<String, String> {
        self.start_block_count += 1;
        Ok(String::new())
    }

    fn end_block(&mut self) -> Result<String, String> {
        self.end_block_count += 1;
        Ok(String::new())
    }
}

/// Tests that runner hooks are called as expected.
#[test]
fn hooks() {
    let mut runner = HookRunner::default();
    generate(
        &mut runner,
        r#"
command
---

command
---
"#,
    )
    .unwrap();

    assert_eq!(runner.start_script_count, 1);
    assert_eq!(runner.end_script_count, 1);
    assert_eq!(runner.start_block_count, 2);
    assert_eq!(runner.end_block_count, 2);
}

/// A runner that echoes its arguments' values joined with literal newlines,
/// errors on an `error` command, and otherwise returns a fixed reply.
struct EchoRunner;

impl Runner for EchoRunner {
    fn run(&mut self, command: &Command) -> Result<String, String> {
        match command.name.as_str() {
            "echo" => {
                let values: Vec<String> = command.args.iter().map(|a| a.value.clone()).collect();
                Ok(values.join("\n"))
            }
            "error" => {
                let message =
                    command.args.first().map(|a| a.value.as_str()).unwrap_or("boom");
                Err(message.to_string())
            }
            "empty" => Ok(String::new()),
            name => Err(format!("invalid command {name}")),
        }
    }
}

/// Round-trip idempotence: feeding generated output back in as a script
/// reproduces it byte for byte.
#[test]
fn round_trip_idempotence() {
    let input = "\
# A comment stays in the input section.
echo one
(echo silent)
client1: echo hi
---
stale output

echo a b
---
";
    let first = generate(&mut EchoRunner, input).expect("generate failed");
    let second = generate(&mut EchoRunner, &first).expect("generate failed");
    assert_eq!(first, second);
}

/// Blank-line escaping: output holding a blank line renders with every line
/// prefixed by `> `.
#[test]
fn blank_line_escaping() {
    let input = "echo line1 '' line2\n---\n";
    let output = generate(&mut EchoRunner, input).expect("generate failed");
    assert_eq!(output, "echo line1 '' line2\n---\n> line1\n>\n> line2\n");
}

/// Default output: a block whose commands all return empty, unprefixed,
/// unsilenced output renders the single line `ok`.
#[test]
fn default_output() {
    let output = generate(&mut EchoRunner, "empty\nempty\n---\n").expect("generate failed");
    assert_eq!(output, "empty\nempty\n---\nok\n");
}

/// Fail marker: an expected failure renders `Error: <message>`; an
/// unexpected success aborts generation.
#[test]
fn fail_marker() {
    let output = generate(&mut EchoRunner, "! error bad\n---\n").expect("generate failed");
    assert_eq!(output, "! error bad\n---\nError: bad\n");

    let err = generate(&mut EchoRunner, "! echo fine\n---\n").unwrap_err();
    match err {
        GenerateError::UnexpectedCommandSuccess { name, line, output } => {
            assert_eq!(name, "echo");
            assert_eq!(line, 1);
            assert_eq!(output, "fine");
        }
        other => panic!("unexpected error {other:?}"),
    }
}

/// An unexpected failure aborts generation with the command's name and line.
#[test]
fn unexpected_failure() {
    let err = generate(&mut EchoRunner, "echo hi\nerror bad\n---\n").unwrap_err();
    match err {
        GenerateError::UnexpectedCommandFailure { name, line, message } => {
            assert_eq!(name, "error");
            assert_eq!(line, 2);
            assert_eq!(message, "bad");
        }
        other => panic!("unexpected error {other:?}"),
    }
}

/// Prefix: the command's output lines carry the `prefix: ` label.
#[test]
fn prefix_output() {
    let output = generate(&mut EchoRunner, "client1: echo hi\n---\n").expect("generate failed");
    assert_eq!(output, "client1: echo hi\n---\nclient1: hi\n");

    // Multi-line output has every line prefixed.
    let output = generate(&mut EchoRunner, "c2: echo a b\n---\n").expect("generate failed");
    assert_eq!(output, "c2: echo a b\n---\nc2: a\nc2: b\n");
}

/// Silencing: a silenced command renders nothing, sibling commands still
/// render, and a block silenced entirely defaults to `ok`.
#[test]
fn silencing() {
    let output = generate(&mut EchoRunner, "(echo hi)\necho yo\n---\n").expect("generate failed");
    assert_eq!(output, "(echo hi)\necho yo\n---\nyo\n");

    let output = generate(&mut EchoRunner, "(echo hi)\n---\n").expect("generate failed");
    assert_eq!(output, "(echo hi)\n---\nok\n");
}

/// End-of-line detection: a script using `\r\n` anywhere renders all line
/// terminators as `\r\n`.
#[test]
fn crlf_output() {
    let output = generate(&mut EchoRunner, "echo hi\r\n---\r\n").expect("generate failed");
    assert_eq!(output, "echo hi\r\n---\r\nhi\r\n");

    let output = generate(&mut EchoRunner, "empty\r\n---\r\n").expect("generate failed");
    assert_eq!(output, "empty\r\n---\r\nok\r\n");
}

/// A malformed script aborts with a parse error carrying its position.
#[test]
fn generate_parse_error() {
    let err = generate(&mut EchoRunner, "echo hi\n").unwrap_err();
    match err {
        GenerateError::Parse(e) => assert_eq!(e.line, 2),
        other => panic!("unexpected error {other:?}"),
    }
}

/// A failing hook aborts generation, tagged with the hook and line.
#[test]
fn hook_failure() {
    struct FailingStart;
    impl Runner for FailingStart {
        fn run(&mut self, _: &Command) -> Result<String, String> {
            Ok(String::new())
        }
        fn start_block(&mut self) -> Result<String, String> {
            Err("nope".to_string())
        }
    }
    let err = generate(&mut FailingStart, "echo hi\n---\n").unwrap_err();
    assert_eq!(
        err,
        GenerateError::Hook {
            kind: HookKind::StartBlock,
            line: Some(1),
            message: "nope".to_string()
        }
    );
}

/// Hook output brackets the block's output and is normalized to end with a
/// line terminator.
#[test]
fn block_hook_output() {
    struct BlockHooks;
    impl Runner for BlockHooks {
        fn run(&mut self, _: &Command) -> Result<String, String> {
            Ok("out".to_string())
        }
        fn start_block(&mut self) -> Result<String, String> {
            Ok("begin".to_string())
        }
        fn end_block(&mut self) -> Result<String, String> {
            Ok("done".to_string())
        }
    }
    let output = generate(&mut BlockHooks, "cmd\n---\n").expect("generate failed");
    assert_eq!(output, "cmd\n---\nbegin\nout\ndone\n");
}

/// Rendering a single command: an expected fault renders `Panic: <message>`,
/// an unexpected fault is an error.
#[test]
fn render_command_fault() {
    let mut cmd = goldenscript::parse_command("! cmd\n").expect("invalid command");
    let rendered = render_command(
        &cmd,
        String::new(),
        Outcome::Fault("boom".to_string()),
        String::new(),
        "\n",
    )
    .expect("render failed");
    assert_eq!(rendered, "Panic: boom\n");

    cmd.fail = false;
    let err = render_command(
        &cmd,
        String::new(),
        Outcome::Fault("boom".to_string()),
        String::new(),
        "\n",
    )
    .unwrap_err();
    match err {
        GenerateError::UnexpectedCommandFault { name, line, message } => {
            assert_eq!(name, "cmd");
            assert_eq!(line, 1);
            assert_eq!(message, "boom");
        }
        other => panic!("unexpected error {other:?}"),
    }
}

/// Command hook output brackets each command's output and is prefixed and
/// silenced along with it.
#[test]
fn command_hook_output() {
    struct CommandHooks;
    impl Runner for CommandHooks {
        fn run(&mut self, _: &Command) -> Result<String, String> {
            Ok("out".to_string())
        }
        fn start_command(&mut self, _: &Command) -> Result<String, String> {
            Ok("S".to_string())
        }
        fn end_command(&mut self, _: &Command) -> Result<String, String> {
            Ok("E".to_string())
        }
    }
    let output = generate(&mut CommandHooks, "cmd\n---\n").expect("generate failed");
    assert_eq!(output, "cmd\n---\nSoutE\n");

    // Silencing discards the command's own output but keeps the hooks' text.
    let output = generate(&mut CommandHooks, "(cmd)\n---\n").expect("generate failed");
    assert_eq!(output, "(cmd)\n---\nSE\n");
}

/// A failing end_script hook aborts generation without a line number.
#[test]
fn end_script_failure() {
    struct FailingEnd;
    impl Runner for FailingEnd {
        fn run(&mut self, _: &Command) -> Result<String, String> {
            Ok(String::new())
        }
        fn end_script(&mut self) -> Result<(), String> {
            Err("bye".to_string())
        }
    }
    let err = generate(&mut FailingEnd, "cmd\n---\n").unwrap_err();
    assert_eq!(
        err,
        GenerateError::Hook { kind: HookKind::EndScript, line: None, message: "bye".to_string() }
    );
}

/// A silenced command is still executed, its output is only suppressed.
#[test]
fn silenced_commands_execute() {
    #[derive(Default)]
    struct CountingRunner {
        runs: usize,
    }
    impl Runner for CountingRunner {
        fn run(&mut self, _: &Command) -> Result<String, String> {
            self.runs += 1;
            Ok(String::new())
        }
    }
    let mut runner = CountingRunner::default();
    generate(&mut runner, "(echo hi)\necho yo\n---\n").expect("generate failed");
    assert_eq!(runner.runs, 2);
}

/// ensure_eol appends the line terminator only to non-empty text that does
/// not already end with a newline.
#[test]
fn ensure_eol_behavior() {
    assert_eq!(goldenscript::ensure_eol("x".to_string(), "\n"), "x\n");
    assert_eq!(goldenscript::ensure_eol("x\n".to_string(), "\n"), "x\n");
    assert_eq!(goldenscript::ensure_eol(String::new(), "\n"), "");
    assert_eq!(goldenscript::ensure_eol("x".to_string(), "\r\n"), "x\r\n");
}
