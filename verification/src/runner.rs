//! Execution engine: runs each parsed command through a [`Runner`] and
//! regenerates the script's output text, applying the formatting rules
//! (silencing, prefixing, end-of-line normalization, the `ok` default, and
//! blank-line escaping). The rendering is stated as spec functions over the
//! parsed blocks and a trace of what the runner returned; the engine is
//! proved to emit exactly that rendering.

use vstd::prelude::*;

use crate::command::{BlockV, Command, CommandV};
use crate::parser::ParseError;
use crate::text::{push_char, str_chars};

verus! {

use vstd::string::StringExecFns;

// ---------------------------------------------------------------------------
// Outcomes and traces
// ---------------------------------------------------------------------------
/// The result of executing one command: its output text on success, an error
/// message on an ordinary failure, or the message of an unrecoverable fault.
pub enum Outcome {
    Success(String),
    Failure(String),
    Fault(String),
}

/// Mathematical model of an [`Outcome`].
pub enum OutcomeV {
    Success(Seq<char>),
    Failure(Seq<char>),
    Fault(Seq<char>),
}

impl View for Outcome {
    type V = OutcomeV;

    open spec fn view(&self) -> OutcomeV {
        match self {
            Outcome::Success(t) => OutcomeV::Success(t@),
            Outcome::Failure(m) => OutcomeV::Failure(m@),
            Outcome::Fault(m) => OutcomeV::Fault(m@),
        }
    }
}

/// What the runner returned around one command: the start-command hook text,
/// the command's outcome, and the end-command hook text.
pub struct CommandTrace {
    pub start: Seq<char>,
    pub outcome: OutcomeV,
    pub end: Seq<char>,
}

/// What the runner returned for one block: the start-block hook text, one
/// trace per command, and the end-block hook text.
pub struct BlockTrace {
    pub start: Seq<char>,
    pub commands: Seq<CommandTrace>,
    pub end: Seq<char>,
}

/// An outcome the engine accepts: success for an ordinary command, failure or
/// fault for a command marked with the `!` failure marker.
pub open spec fn outcome_ok(fail: bool, o: OutcomeV) -> bool {
    match o {
        OutcomeV::Success(_) => !fail,
        OutcomeV::Failure(_) => fail,
        OutcomeV::Fault(_) => fail,
    }
}

/// The text an accepted outcome contributes: the output itself on success,
/// or the message behind an `Error: ` or `Panic: ` marker.
pub open spec fn outcome_text(o: OutcomeV) -> Seq<char> {
    match o {
        OutcomeV::Success(t) => t,
        OutcomeV::Failure(m) => "Error: "@ + m,
        OutcomeV::Fault(m) => "Panic: "@ + m,
    }
}

/// A full trace fits the parsed blocks and holds only accepted outcomes.
pub open spec fn trace_ok(bs: Seq<BlockV>, ts: Seq<BlockTrace>) -> bool {
    &&& ts.len() == bs.len()
    &&& forall|i: int|
        0 <= i < bs.len() ==> #[trigger] ts[i].commands.len() == bs[i].commands.len()
    &&& forall|i: int, j: int|
        0 <= i < bs.len() && 0 <= j < bs[i].commands.len() ==> outcome_ok(
            bs[i].commands[j].fail,
            #[trigger] ts[i].commands[j].outcome,
        )
}

// ---------------------------------------------------------------------------
// End-of-line handling and text transforms
// ---------------------------------------------------------------------------
/// True when the text contains a `\r\n` pair anywhere.
pub open spec fn has_crlf(s: Seq<char>) -> bool {
    exists|i: int| 0 <= i && i + 1 < s.len() && #[trigger] s[i] == '\r' && s[i + 1] == '\n'
}

/// The line terminator the generated text uses: `\r\n` when the input uses it
/// anywhere, else `\n`.
pub open spec fn eol_of(s: Seq<char>) -> Seq<char> {
    if has_crlf(s) {
        "\r\n"@
    } else {
        "\n"@
    }
}

/// Appends the line terminator unless the text is empty or already ends with
/// a newline.
pub open spec fn ensure_eol_spec(s: Seq<char>, eol: Seq<char>) -> Seq<char> {
    if s.len() == 0 || s.last() == '\n' {
        s
    } else {
        s + eol
    }
}

/// Inserts `ins` after every newline.
pub open spec fn replace_nl(s: Seq<char>, ins: Seq<char>) -> Seq<char>
    decreases s.len(),
{
    if s.len() == 0 {
        Seq::empty()
    } else if s[0] == '\n' {
        seq!['\n'] + ins + replace_nl(s.drop_first(), ins)
    } else {
        seq![s[0]] + replace_nl(s.drop_first(), ins)
    }
}

/// Detects a `\r\n` pair in the input.
fn detect_crlf(s: &Vec<char>) -> (r: bool)
    ensures
        r == has_crlf(s@),
{
    if s.len() == 0 {
        return false;
    }
    let mut i: usize = 0;
    while i < s.len() - 1
        invariant
            s@.len() > 0,
            i <= s@.len(),
            forall|j: int|
                0 <= j < i ==> !(j + 1 < s@.len() && #[trigger] s@[j] == '\r' && s@[j + 1] == '\n'),
        decreases s@.len() - i,
    {
        if s[i] == '\r' && s[i + 1] == '\n' {
            return true;
        }
        i = i + 1;
    }
    false
}

/// Checks whether the text is empty or ends with a newline, and otherwise
/// appends the line terminator. Public so that runners can normalize text the
/// same way the engine does.
pub fn ensure_eol(s: String, eol: &str) -> (r: String)
    ensures
        r@ == ensure_eol_spec(s@, eol@),
{
    let n = s.as_str().unicode_len();
    if n == 0 {
        return s;
    }
    if s.as_str().get_char(n - 1) == '\n' {
        s
    } else {
        let mut out = s;
        out.append(eol);
        out
    }
}

/// Builds the text with `ins` inserted after every newline.
fn replace_nl_exec(text: &str, ins: &str) -> (r: String)
    ensures
        r@ == replace_nl(text@, ins@),
{
    let cs = str_chars(text);
    let n = cs.len();
    let mut out = String::new();
    let mut i: usize = 0;
    proof {
        assert(cs@.skip(0) =~= cs@);
    }
    while i < n
        invariant
            i <= n == cs@.len(),
            cs@ == text@,
            replace_nl(text@, ins@) =~= out@ + replace_nl(cs@.skip(i as int), ins@),
        decreases n - i,
    {
        let c = cs[i];
        proof {
            assert(cs@.skip(i as int)[0] == cs@[i as int]);
            assert(cs@.skip(i as int).drop_first() =~= cs@.skip(i + 1));
        }
        let ghost out0 = out@;
        push_char(&mut out, c);
        if c == '\n' {
            out.append(ins);
            proof {
                assert(out@ + replace_nl(cs@.skip(i + 1), ins@) =~= out0 + (seq!['\n'] + ins@
                    + replace_nl(cs@.skip(i + 1), ins@)));
            }
        } else {
            proof {
                assert(out@ + replace_nl(cs@.skip(i + 1), ins@) =~= out0 + (seq![c] + replace_nl(
                    cs@.skip(i + 1),
                    ins@,
                )));
            }
        }
        i = i + 1;
    }
    proof {
        assert(cs@.skip(n as int) =~= Seq::<char>::empty());
        assert(out@ =~= out@ + replace_nl(cs@.skip(n as int), ins@));
    }
    out
}

// ---------------------------------------------------------------------------
// Rendering: commands, blocks, the whole script
// ---------------------------------------------------------------------------
/// The rendered text of one command: the start-command hook text, then the
/// outcome's text (discarded when the command is silenced; hook text is
/// kept), then the end-command hook text; every line prefixed with
/// `PREFIX: ` when a prefix is set; ended with exactly one line terminator
/// unless empty.
pub open spec fn command_text(c: CommandV, t: CommandTrace, eol: Seq<char>) -> Seq<char> {
    let body = if c.silent {
        Seq::<char>::empty()
    } else {
        outcome_text(t.outcome)
    };
    let kept = t.start + body + t.end;
    let with_prefix = match c.prefix {
        Some(px) => px + ": "@ + replace_nl(kept, px + ": "@) + eol,
        None => kept,
    };
    ensure_eol_spec(with_prefix, eol)
}

/// The rendered text of the first `n` commands of a block.
pub open spec fn commands_out(cs: Seq<CommandV>, ts: Seq<CommandTrace>, n: int, eol: Seq<char>) -> Seq<char>
    decreases n, when 0 <= n <= cs.len() && n <= ts.len()
{
    if n <= 0 {
        Seq::empty()
    } else {
        commands_out(cs, ts, n - 1, eol) + command_text(cs[n - 1], ts[n - 1], eol)
    }
}

/// True when the text starts with a blank line or contains one inside: a
/// newline at the start (also behind a carriage return), or two newlines in a
/// row (possibly around a carriage return).
pub open spec fn has_blank_line(s: Seq<char>) -> bool {
    ||| (s.len() >= 1 && s[0] == '\n')
    ||| (s.len() >= 2 && s[0] == '\r' && s[1] == '\n')
    ||| exists|i: int| 0 <= i && i + 1 < s.len() && #[trigger] s[i] == '\n' && s[i + 1] == '\n'
    ||| exists|i: int|
        0 <= i && i + 2 < s.len() && #[trigger] s[i] == '\n' && s[i + 1] == '\r' && s[i + 2]
            == '\n'
}

/// The end of the line starting at `p`: the position just after its newline,
/// or the end of the text.
pub open spec fn line_end_from(s: Seq<char>, p: int) -> int
    decreases s.len() - p, when 0 <= p <= s.len()
{
    if p < s.len() {
        if s[p] == '\n' {
            p + 1
        } else {
            line_end_from(s, p + 1)
        }
    } else {
        p
    }
}

/// The blank-line escape from position `p` on: every line prefixed with
/// `> `, a blank line (bare `\n` or `\r\n`) with `>` alone.
pub open spec fn escape_from(s: Seq<char>, p: int) -> Seq<char>
    decreases s.len() - p, when 0 <= p <= s.len()
{
    if p >= s.len() {
        Seq::empty()
    } else {
        let e = line_end_from(s, p);
        let blank = s[p] == '\n' || (p + 1 < s.len() && s[p] == '\r' && s[p + 1] == '\n');
        let prefix: Seq<char> = if blank {
            seq!['>']
        } else {
            seq!['>', ' ']
        };
        if e <= p || e > s.len() {
            prefix + s.subrange(p, s.len() as int)
        } else {
            prefix + s.subrange(p, e) + escape_from(s, e)
        }
    }
}

/// The blank-line escape: every line prefixed with `> ` (a blank line with a
/// bare `>`), keeping each line's terminator.
pub open spec fn escape_blanks(s: Seq<char>) -> Seq<char> {
    escape_from(s, 0)
}

/// The output text of one block: the start-block hook text, the commands'
/// texts, and the end-block hook text, each hook text ended with a line
/// terminator unless empty; `ok` plus a line terminator when all of that is
/// empty; the whole escaped with `> ` when it starts with or contains a blank
/// line.
pub open spec fn block_out(b: BlockV, t: BlockTrace, eol: Seq<char>) -> Seq<char> {
    let buf = ensure_eol_spec(t.start, eol) + commands_out(b.commands, t.commands, b.commands.len() as int, eol)
        + ensure_eol_spec(t.end, eol);
    let buf2 = if buf.len() == 0 {
        "ok"@ + eol
    } else {
        buf
    };
    if has_blank_line(buf2) {
        escape_blanks(buf2)
    } else {
        buf2
    }
}

/// The emitted text of block `i`: its literal alone when it has no commands
/// (a trailing comment-only block); otherwise the literal, the separator
/// line, the block output, and a blank line before the next block (omitted
/// after the last one).
pub open spec fn block_piece(bs: Seq<BlockV>, ts: Seq<BlockTrace>, i: int, eol: Seq<char>) -> Seq<char> {
    let b = bs[i];
    if b.commands.len() == 0 {
        b.literal
    } else {
        b.literal + "---"@ + eol + block_out(b, ts[i], eol) + (if i < bs.len() - 1 {
            eol
        } else {
            Seq::<char>::empty()
        })
    }
}

/// The emitted text of the first `n` blocks.
pub open spec fn render_upto(bs: Seq<BlockV>, ts: Seq<BlockTrace>, n: int, eol: Seq<char>) -> Seq<char>
    decreases n, when 0 <= n
{
    if n <= 0 {
        Seq::empty()
    } else {
        render_upto(bs, ts, n - 1, eol) + block_piece(bs, ts, n - 1, eol)
    }
}

/// The whole generated script text for the given blocks and trace.
pub open spec fn render_script(bs: Seq<BlockV>, ts: Seq<BlockTrace>, eol: Seq<char>) -> Seq<char> {
    render_upto(bs, ts, bs.len() as int, eol)
}

/// Rendering the first `n` blocks reads only the first `n` trace entries.
proof fn lemma_render_upto_extend(
    bs: Seq<BlockV>,
    ts: Seq<BlockTrace>,
    t: BlockTrace,
    n: int,
    eol: Seq<char>,
)
    requires
        0 <= n <= ts.len(),
    ensures
        render_upto(bs, ts.push(t), n, eol) == render_upto(bs, ts, n, eol),
    decreases n,
{
    if n > 0 {
        lemma_render_upto_extend(bs, ts, t, n - 1, eol);
        assert(ts.push(t)[n - 1] == ts[n - 1]);
    }
}

// ---------------------------------------------------------------------------
// Errors and the Runner trait
// ---------------------------------------------------------------------------
/// The lifecycle hook that failed.
#[derive(Clone, Copy, Debug, PartialEq, Eq)]
pub enum HookKind {
    StartScript,
    EndScript,
    StartBlock,
    EndBlock,
    StartCommand,
    EndCommand,
}

/// A fatal generation error. Generation aborts at the first one; no partial
/// output is returned.
#[derive(Clone, Debug, PartialEq, Eq)]
pub enum GenerateError {
    /// The script is malformed.
    Parse(ParseError),
    /// A lifecycle hook failed; block and command hooks carry the line.
    Hook { kind: HookKind, line: Option<usize>, message: String },
    /// A command with the `!` failure marker succeeded; carries its output.
    UnexpectedCommandSuccess { name: String, line: usize, output: String },
    /// A command without the `!` failure marker failed.
    UnexpectedCommandFailure { name: String, line: usize, message: String },
    /// A command without the `!` failure marker raised an unrecoverable
    /// fault.
    UnexpectedCommandFault { name: String, line: usize, message: String },
}

/// Runs goldenscript commands, returning their output. The four block and
/// script hooks and the two command hooks default to doing nothing.
pub trait Runner {
    /// Runs a goldenscript command, returning its output, or a message when
    /// the command failed. To test error cases, return an `Ok` result
    /// containing e.g. the error message as output.
    fn run(&mut self, command: &Command) -> Result<String, String>;

    /// Called at the start of a goldenscript. Used e.g. for initial setup.
    /// Can't return output, since it's not called in the context of a block.
    fn start_script(&mut self) -> Result<(), String> {
        Ok(())
    }

    /// Called at the end of a goldenscript. Used e.g. for state assertions.
    /// Can't return output, since it's not called in the context of a block.
    fn end_script(&mut self) -> Result<(), String> {
        Ok(())
    }

    /// Called at the start of a block. Used e.g. to output initial state.
    /// Any output is prepended to the block's output.
    fn start_block(&mut self) -> Result<String, String> {
        Ok(String::new())
    }

    /// Called at the end of a block. Used e.g. to output final state.
    /// Any output is appended to the block's output.
    fn end_block(&mut self) -> Result<String, String> {
        Ok(String::new())
    }

    /// Called before each command. Any output is prepended to the command's
    /// output.
    fn start_command(&mut self, _command: &Command) -> Result<String, String> {
        Ok(String::new())
    }

    /// Called after each command. Any output is appended to the command's
    /// output.
    fn end_command(&mut self, _command: &Command) -> Result<String, String> {
        Ok(String::new())
    }
}

// ---------------------------------------------------------------------------
// Executable rendering
// ---------------------------------------------------------------------------
/// Checks for a leading or inner blank line.
fn has_blank_line_exec(s: &Vec<char>) -> (r: bool)
    ensures
        r == has_blank_line(s@),
{
    let n = s.len();
    if n >= 1 && s[0] == '\n' {
        return true;
    }
    if n >= 2 && s[0] == '\r' && s[1] == '\n' {
        return true;
    }
    let mut i: usize = 0;
    while i < n
        invariant
            n == s@.len(),
            i <= n,
            forall|j: int|
                0 <= j < i ==> !(j + 1 < s@.len() && #[trigger] s@[j] == '\n' && s@[j + 1] == '\n'),
            forall|j: int|
                0 <= j < i ==> !(j + 2 < s@.len() && #[trigger] s@[j] == '\n' && s@[j + 1] == '\r'
                    && s@[j + 2] == '\n'),
        decreases n - i,
    {
        if s[i] == '\n' {
            if i + 1 < n && s[i + 1] == '\n' {
                return true;
            }
            if i + 1 < n && s[i + 1] == '\r' && i + 2 < n && s[i + 2] == '\n' {
                return true;
            }
        }
        i = i + 1;
    }
    false
}

proof fn lemma_line_end_from_bounds(s: Seq<char>, p: int)
    requires
        0 <= p <= s.len(),
    ensures
        p <= line_end_from(s, p) <= s.len(),
        p < s.len() ==> p < line_end_from(s, p),
    decreases s.len() - p,
{
    if p < s.len() && s[p] != '\n' {
        lemma_line_end_from_bounds(s, p + 1);
    }
}

/// Prefixes every line of the text with `> ` (a blank line with a bare `>`).
fn escape_blanks_exec(text: &str) -> (r: String)
    ensures
        r@ == escape_blanks(text@),
{
    let cs = str_chars(text);
    let n = cs.len();
    let mut out = String::new();
    let mut i: usize = 0;
    proof {
        assert(escape_from(cs@, 0) =~= out@ + escape_from(cs@, 0));
    }
    while i < n
        invariant
            i <= n == cs@.len(),
            cs@ == text@,
            escape_from(cs@, 0) =~= out@ + escape_from(cs@, i as int),
        decreases n - i,
    {
        let ghost ls = i as int;
        proof {
            lemma_line_end_from_bounds(cs@, ls);
        }
        let blank = cs[i] == '\n' || (i + 1 < n && cs[i] == '\r' && cs[i + 1] == '\n');
        let ghost out0 = out@;
        push_char(&mut out, '>');
        if !blank {
            push_char(&mut out, ' ');
        }
        let mut e = i;
        while e < n && cs[e] != '\n'
            invariant
                i <= e <= n == cs@.len(),
                line_end_from(cs@, i as int) == line_end_from(cs@, e as int),
            decreases n - e,
        {
            e = e + 1;
        }
        let e2 = if e < n {
            e + 1
        } else {
            e
        };
        proof {
            assert(line_end_from(cs@, ls) == e2 as int);
        }
        let mut j = i;
        let ghost out1 = out@;
        while j < e2
            invariant
                i <= j <= e2 <= n == cs@.len(),
                out@ =~= out1 + cs@.subrange(i as int, j as int),
            decreases e2 - j,
        {
            push_char(&mut out, cs[j]);
            proof {
                assert(out@ =~= out1 + cs@.subrange(i as int, j + 1));
            }
            j = j + 1;
        }
        proof {
            let prefix: Seq<char> = if blank {
                seq!['>']
            } else {
                seq!['>', ' ']
            };
            assert(out1 =~= out0 + prefix);
            assert(escape_from(cs@, ls) =~= prefix + cs@.subrange(ls, e2 as int) + escape_from(
                cs@,
                e2 as int,
            ));
            assert(out@ + escape_from(cs@, e2 as int) =~= out0 + escape_from(cs@, ls));
        }
        i = e2;
    }
    proof {
        assert(escape_from(cs@, n as int) =~= Seq::<char>::empty());
        assert(escape_from(cs@, 0) =~= out@);
    }
    out
}

/// Renders one command's output from its outcome and the command-hook texts,
/// or reports why the outcome is not accepted: an expected failure that
/// succeeded, or an unexpected failure or fault.
pub fn render_command(
    command: &Command,
    start: String,
    outcome: Outcome,
    end: String,
    eol: &str,
) -> (r: Result<String, GenerateError>)
    ensures
        r matches Ok(t) ==> outcome_ok(command@.fail, outcome@) && t@ == command_text(
            command@,
            CommandTrace { start: start@, outcome: outcome@, end: end@ },
            eol@,
        ),
        r is Err ==> !outcome_ok(command@.fail, outcome@),
        r matches Err(e) ==> match e {
            GenerateError::UnexpectedCommandSuccess { name, line, output } => name@
                == command@.name && line == command.line_number && outcome@ == OutcomeV::Success(
                output@,
            ),
            GenerateError::UnexpectedCommandFailure { name, line, message } => name@
                == command@.name && line == command.line_number && outcome@ == OutcomeV::Failure(
                message@,
            ),
            GenerateError::UnexpectedCommandFault { name, line, message } => name@ == command@.name
                && line == command.line_number && outcome@ == OutcomeV::Fault(message@),
            _ => false,
        },
{
    let ghost ov = outcome@;
    let body: String = match outcome {
        Outcome::Success(o) => {
            if command.fail {
                return Err(
                    GenerateError::UnexpectedCommandSuccess {
                        name: command.name.clone(),
                        line: command.line_number,
                        output: o,
                    },
                );
            }
            o
        },
        Outcome::Failure(m) => {
            if !command.fail {
                return Err(
                    GenerateError::UnexpectedCommandFailure {
                        name: command.name.clone(),
                        line: command.line_number,
                        message: m,
                    },
                );
            }
            let mut b = String::new();
            b.append("Error: ");
            b.append(m.as_str());
            b
        },
        Outcome::Fault(m) => {
            if !command.fail {
                return Err(
                    GenerateError::UnexpectedCommandFault {
                        name: command.name.clone(),
                        line: command.line_number,
                        message: m,
                    },
                );
            }
            let mut b = String::new();
            b.append("Panic: ");
            b.append(m.as_str());
            b
        },
    };
    assert(body@ == outcome_text(ov));
    let ghost startv = start@;
    let ghost endv = end@;
    let mut kept = start;
    if !command.silent {
        kept.append(body.as_str());
    }
    kept.append(end.as_str());
    proof {
        let bodyv = if command@.silent {
            Seq::<char>::empty()
        } else {
            outcome_text(ov)
        };
        assert(kept@ =~= startv + bodyv + endv);
    }
    let t: String = match &command.prefix {
        Some(px) => {
            let mut ins = px.clone();
            ins.append(": ");
            let mut out2 = px.clone();
            out2.append(": ");
            out2.append(replace_nl_exec(kept.as_str(), ins.as_str()).as_str());
            out2.append(eol);
            out2
        },
        None => kept,
    };
    Ok(ensure_eol(t, eol))
}

// ---------------------------------------------------------------------------
// The generator
// ---------------------------------------------------------------------------
/// Law: normalized text is empty or ends with a newline.
pub proof fn lemma_ensure_eol_ends(s: Seq<char>, eol: Seq<char>)
    requires
        eol.len() > 0,
        eol.last() == '\n',
    ensures
        ensure_eol_spec(s, eol).len() == 0 || ensure_eol_spec(s, eol).last() == '\n',
{
    if s.len() > 0 && s.last() != '\n' {
        assert((s + eol).last() == eol.last());
    }
}

/// Law: a rendered command's text ends with exactly the normalization rule
/// asks: it is empty or ends with a newline.
pub proof fn lemma_command_text_ends(c: CommandV, t: CommandTrace, eol: Seq<char>)
    requires
        eol.len() > 0,
        eol.last() == '\n',
    ensures
        command_text(c, t, eol).len() == 0 || command_text(c, t, eol).last() == '\n',
{
    let body = if c.silent {
        Seq::<char>::empty()
    } else {
        outcome_text(t.outcome)
    };
    let kept = t.start + body + t.end;
    match c.prefix {
        Some(px) => {
            let wp = px + ": "@ + replace_nl(kept, px + ": "@) + eol;
            assert(wp.last() == eol.last());
            assert(command_text(c, t, eol) == ensure_eol_spec(wp, eol));
        },
        None => {
            lemma_ensure_eol_ends(kept, eol);
        },
    }
}

/// Rendering the first `n` commands reads only the first `n` trace entries.
proof fn lemma_commands_out_extend(
    cs: Seq<CommandV>,
    ts: Seq<CommandTrace>,
    t: CommandTrace,
    n: int,
    eol: Seq<char>,
)
    requires
        0 <= n <= ts.len(),
        n <= cs.len(),
    ensures
        commands_out(cs, ts.push(t), n, eol) == commands_out(cs, ts, n, eol),
    decreases n,
{
    if n > 0 {
        lemma_commands_out_extend(cs, ts, t, n - 1, eol);
        assert(ts.push(t)[n - 1] == ts[n - 1]);
    }
}

/// Law: a silenced command renders the same text whatever its outcome. Only
/// the command-hook texts and the prefix reach its output.
pub proof fn lemma_silenced_output_independent(
    c: CommandV,
    t1: CommandTrace,
    t2: CommandTrace,
    eol: Seq<char>,
)
    requires
        c.silent,
        t1.start == t2.start,
        t1.end == t2.end,
    ensures
        command_text(c, t1, eol) == command_text(c, t2, eol),
{
}

/// Empty hook texts and empty successful outcomes render no command text.
proof fn lemma_commands_out_empty(
    cs: Seq<CommandV>,
    ts: Seq<CommandTrace>,
    n: int,
    eol: Seq<char>,
)
    requires
        0 <= n <= cs.len(),
        n <= ts.len(),
        forall|j: int| 0 <= j < n ==> (#[trigger] cs[j].prefix) is None,
        forall|j: int|
            0 <= j < n ==> (#[trigger] ts[j]).start.len() == 0 && ts[j].end.len() == 0
                && ts[j].outcome == OutcomeV::Success(Seq::<char>::empty()),
    ensures
        commands_out(cs, ts, n, eol).len() == 0,
    decreases n,
{
    if n > 0 {
        lemma_commands_out_empty(cs, ts, n - 1, eol);
        let body = if cs[n - 1].silent {
            Seq::<char>::empty()
        } else {
            outcome_text(ts[n - 1].outcome)
        };
        assert(ts[n - 1].start + body + ts[n - 1].end =~= Seq::<char>::empty());
        assert(command_text(cs[n - 1], ts[n - 1], eol).len() == 0);
    }
}

/// Law: a block whose commands all return empty, unprefixed output, with no
/// hook output, renders the single line `ok` followed by the line
/// terminator.
pub proof fn lemma_default_output(b: BlockV, t: BlockTrace, eol: Seq<char>)
    requires
        eol == "\n"@ || eol == "\r\n"@,
        t.start.len() == 0,
        t.end.len() == 0,
        t.commands.len() == b.commands.len(),
        forall|j: int| 0 <= j < b.commands.len() ==> (#[trigger] b.commands[j].prefix) is None,
        forall|j: int|
            0 <= j < t.commands.len() ==> (#[trigger] t.commands[j]).start.len() == 0
                && t.commands[j].end.len() == 0 && t.commands[j].outcome == OutcomeV::Success(
                Seq::<char>::empty(),
            ),
    ensures
        block_out(b, t, eol) == "ok"@ + eol,
{
    lemma_commands_out_empty(b.commands, t.commands, b.commands.len() as int, eol);
    let buf = ensure_eol_spec(t.start, eol) + commands_out(
        b.commands,
        t.commands,
        b.commands.len() as int,
        eol,
    ) + ensure_eol_spec(t.end, eol);
    assert(buf.len() == 0);
    let buf2 = "ok"@ + eol;
    reveal_strlit("ok");
    reveal_strlit("\n");
    reveal_strlit("\r\n");
    if eol == "\n"@ {
        assert(buf2 =~= seq!['o', 'k', '\n']);
    } else {
        assert(buf2 =~= seq!['o', 'k', '\r', '\n']);
    }
    assert(!has_blank_line(buf2)) by {
        assert(buf2[0] == 'o');
        assert forall|i: int| 0 <= i && i + 1 < buf2.len() implies !(#[trigger] buf2[i] == '\n'
            && buf2[i + 1] == '\n') by {
            if buf2[i] == '\n' {
                assert(i == buf2.len() - 1);
            }
        }
        assert forall|i: int| 0 <= i && i + 2 < buf2.len() implies !(#[trigger] buf2[i] == '\n'
            && buf2[i + 1] == '\r' && buf2[i + 2] == '\n') by {
            if buf2[i] == '\n' {
                assert(i == buf2.len() - 1);
            }
        }
    }
}

/// Characters strictly inside a line are not newlines: only the line's last
/// position may hold one.
proof fn lemma_line_end_chars(s: Seq<char>, p: int, k: int)
    requires
        0 <= p <= s.len(),
        p <= k < line_end_from(s, p),
    ensures
        s[k] != '\n' || k == line_end_from(s, p) - 1,
    decreases s.len() - p,
{
    if p < s.len() && s[p] != '\n' && k > p {
        lemma_line_end_chars(s, p + 1, k);
    }
}

/// Escaped text starts with `>` and never holds a blank line: every line of
/// it starts with `>`.
proof fn lemma_escape_no_blank(s: Seq<char>, p: int)
    requires
        0 <= p <= s.len(),
    ensures
        !has_blank_line(escape_from(s, p)),
        p < s.len() ==> escape_from(s, p).len() > 0 && escape_from(s, p)[0] == '>',
    decreases s.len() - p,
{
    if p >= s.len() {
        assert(escape_from(s, p) =~= Seq::<char>::empty());
    } else {
        lemma_line_end_from_bounds(s, p);
        let e = line_end_from(s, p);
        lemma_escape_no_blank(s, e);
        let blank = s[p] == '\n' || (p + 1 < s.len() && s[p] == '\r' && s[p + 1] == '\n');
        let prefix: Seq<char> = if blank {
            seq!['>']
        } else {
            seq!['>', ' ']
        };
        let sub = s.subrange(p, e);
        let rest = escape_from(s, e);
        let r = escape_from(s, p);
        assert(r == prefix + sub + rest);
        let l1 = prefix.len() as int;
        let l2 = e - p;
        assert(r.len() == l1 + l2 + rest.len());
        assert(r[0] == '>');
        assert(rest.len() > 0 ==> rest[0] == '>') by {
            if e < s.len() {
            } else {
                assert(rest =~= Seq::<char>::empty());
            }
        }
        assert forall|i: int| 0 <= i && i + 1 < r.len() implies !(#[trigger] r[i] == '\n' && r[i
            + 1] == '\n') by {
            if r[i] == '\n' {
                if i < l1 {
                    assert(r[i] == prefix[i]);
                    assert(false);
                } else if i < l1 + l2 {
                    assert(r[i] == s[p + (i - l1)]);
                    lemma_line_end_chars(s, p, p + (i - l1));
                    assert(i == l1 + l2 - 1);
                    assert(rest.len() > 0);
                    assert(r[i + 1] == rest[0]);
                } else {
                    let k = i - (l1 + l2);
                    assert(r[i] == rest[k]);
                    assert(r[i + 1] == rest[k + 1]);
                    assert(!(rest[k] == '\n' && rest[k + 1] == '\n'));
                }
            }
        }
        assert forall|i: int| 0 <= i && i + 2 < r.len() implies !(#[trigger] r[i] == '\n' && r[i
            + 1] == '\r' && r[i + 2] == '\n') by {
            if r[i] == '\n' && r[i + 1] == '\r' {
                if i < l1 {
                    assert(r[i] == prefix[i]);
                    assert(false);
                } else if i < l1 + l2 {
                    assert(r[i] == s[p + (i - l1)]);
                    lemma_line_end_chars(s, p, p + (i - l1));
                    assert(i == l1 + l2 - 1);
                    assert(rest.len() > 0);
                    assert(r[i + 1] == rest[0]);
                    assert(false);
                } else {
                    let k = i - (l1 + l2);
                    assert(r[i] == rest[k]);
                    assert(r[i + 1] == rest[k + 1]);
                    assert(r[i + 2] == rest[k + 2]);
                    assert(!(rest[k] == '\n' && rest[k + 1] == '\r' && rest[k + 2] == '\n'));
                }
            }
        }
        assert(!has_blank_line(r));
    }
}

/// Law: a block's rendered output never holds a blank line, neither at its
/// start nor inside. This is what keeps block output unambiguous with the
/// blank-line separator between blocks, and it is what makes generated
/// output parse again as a script.
pub proof fn lemma_block_out_no_blank_line(b: BlockV, t: BlockTrace, eol: Seq<char>)
    ensures
        !has_blank_line(block_out(b, t, eol)),
{
    let buf = ensure_eol_spec(t.start, eol) + commands_out(
        b.commands,
        t.commands,
        b.commands.len() as int,
        eol,
    ) + ensure_eol_spec(t.end, eol);
    let buf2 = if buf.len() == 0 {
        "ok"@ + eol
    } else {
        buf
    };
    if has_blank_line(buf2) {
        lemma_escape_no_blank(buf2, 0);
    }
}

/// Scanning for a blank line inside a region with none, that ends with a
/// newline followed by a line ending (or the end of the text), stops exactly
/// at that following line ending.
proof fn lemma_output_scan_region(s: Seq<char>, p: int, q: int, r: int)
    requires
        0 <= p < q <= s.len(),
        p <= r < q,
        s[q - 1] == '\n',
        q == s.len() || crate::parser::line_ending(s, q) is Some,
        forall|i: int| p <= i && i + 1 < q ==> !(#[trigger] s[i] == '\n' && s[i + 1] == '\n'),
        forall|i: int|
            p <= i && i + 2 < q ==> !(#[trigger] s[i] == '\n' && s[i + 1] == '\r' && s[i + 2]
                == '\n'),
    ensures
        crate::parser::output_scan(s, r) == (match crate::parser::line_ending(s, q) {
            Some(e) => e,
            None => q,
        }),
    decreases q - r,
{
    let target = match crate::parser::line_ending(s, q) {
        Some(e) => e,
        None => q,
    };
    match crate::parser::line_ending(s, r) {
        Some(r1) => {
            assert(s[r1 - 1] == '\n');
            if r1 == q {
                // the region's final newline: the next line ending (or the
                // end of the text) completes the blank line, and the scan
                // stops there.
                assert(crate::parser::output_scan(s, r) == target);
            } else {
                // a line ending inside the region: no blank line follows it.
                assert(r1 < q);
                assert(crate::parser::line_ending(s, r1) is None) by {
                    if s[r1] == '\r' && r1 + 1 < s.len() && s[r1 + 1] == '\n' {
                        assert(r1 != q - 1);
                        assert(r1 + 1 < q);
                    }
                }
                assert(r + 1 < q);
                lemma_output_scan_region(s, p, q, r + 1);
            }
        },
        None => {
            assert(r != q - 1);
            assert(r + 1 < q);
            lemma_output_scan_region(s, p, q, r + 1);
        },
    }
}

/// Law (a step of round-trip idempotence): the parser's output region ends
/// exactly where the generator's block output ends. A region that holds no
/// blank line and ends with a newline, followed by a line ending (the blank
/// separator line) or the end of the text, is consumed through that line
/// ending and no further. With [`lemma_block_out_no_blank_line`], re-parsing
/// generated output skips each rendered block output exactly.
pub proof fn lemma_output_region_consumed(s: Seq<char>, p: int, q: int)
    requires
        0 <= p < q <= s.len(),
        !has_blank_line(s.subrange(p, q)),
        s[q - 1] == '\n',
        q == s.len() || crate::parser::line_ending(s, q) is Some,
    ensures
        crate::parser::output_end(s, p) == (match crate::parser::line_ending(s, q) {
            Some(e) => e,
            None => q,
        }),
{
    let o = s.subrange(p, q);
    assert(o[0] == s[p]);
    assert forall|i: int| p <= i && i + 1 < q implies !(#[trigger] s[i] == '\n' && s[i + 1]
        == '\n') by {
        if s[i] == '\n' && s[i + 1] == '\n' {
            assert(o[i - p] == '\n' && o[i - p + 1] == '\n');
            assert(has_blank_line(o));
        }
    }
    assert forall|i: int| p <= i && i + 2 < q implies !(#[trigger] s[i] == '\n' && s[i + 1] == '\r'
        && s[i + 2] == '\n') by {
        if s[i] == '\n' && s[i + 1] == '\r' && s[i + 2] == '\n' {
            assert(o[i - p] == '\n' && o[i - p + 1] == '\r' && o[i - p + 2] == '\n');
            assert(has_blank_line(o));
        }
    }
    assert(s[p] != '\n');
    assert(crate::parser::line_ending(s, p) is None) by {
        if s[p] == '\r' && p + 1 < s.len() && s[p + 1] == '\n' {
            assert(p + 1 < q ==> o[1] == '\n');
            assert(p + 1 == q ==> s[q - 1] == '\r');
            assert(has_blank_line(o) || s[q - 1] != '\n');
        }
    }
    lemma_output_scan_region(s, p, q, p);
}

/// Two commands that agree on everything a renderer reads: only their line
/// numbers (which serve diagnostics alone) may differ.
pub open spec fn same_command_mod_line(a: CommandV, b: CommandV) -> bool {
    &&& a.name == b.name
    &&& a.args == b.args
    &&& a.prefix == b.prefix
    &&& a.silent == b.silent
    &&& a.fail == b.fail
    &&& a.tags == b.tags
}

/// Two parses that agree up to line numbers: same literals, same commands.
pub open spec fn same_blocks_mod_line(a: Seq<BlockV>, b: Seq<BlockV>) -> bool {
    &&& a.len() == b.len()
    &&& forall|i: int|
        0 <= i < a.len() ==> (#[trigger] a[i]).literal == b[i].literal && a[i].commands.len()
            == b[i].commands.len() && (forall|j: int|
            0 <= j < a[i].commands.len() ==> same_command_mod_line(
                #[trigger] a[i].commands[j],
                b[i].commands[j],
            ))
}

proof fn lemma_commands_out_mod_line(
    a: Seq<CommandV>,
    b: Seq<CommandV>,
    ts: Seq<CommandTrace>,
    n: int,
    eol: Seq<char>,
)
    requires
        a.len() == b.len(),
        forall|j: int| 0 <= j < a.len() ==> same_command_mod_line(#[trigger] a[j], b[j]),
        0 <= n <= a.len(),
        n <= ts.len(),
    ensures
        commands_out(a, ts, n, eol) == commands_out(b, ts, n, eol),
    decreases n,
{
    if n > 0 {
        lemma_commands_out_mod_line(a, b, ts, n - 1, eol);
        assert(command_text(a[n - 1], ts[n - 1], eol) == command_text(b[n - 1], ts[n - 1], eol));
    }
}

/// Law (the determinism behind round-trip idempotence): rendering reads only
/// the blocks' literals, the commands' fields other than their line numbers,
/// and the runner's outcomes. Re-parsing generated output moves the commands
/// to new lines but changes nothing else, so a second generation that sees
/// the same outcomes renders byte-for-byte the same text.
pub proof fn lemma_render_deterministic(
    a: Seq<BlockV>,
    b: Seq<BlockV>,
    ts: Seq<BlockTrace>,
    n: int,
    eol: Seq<char>,
)
    requires
        same_blocks_mod_line(a, b),
        0 <= n <= a.len(),
        n <= ts.len(),
        forall|i: int| 0 <= i < n ==> (#[trigger] ts[i]).commands.len() == a[i].commands.len(),
    ensures
        render_upto(a, ts, n, eol) == render_upto(b, ts, n, eol),
    decreases n,
{
    if n > 0 {
        lemma_render_deterministic(a, b, ts, n - 1, eol);
        let i = n - 1;
        lemma_commands_out_mod_line(
            a[i].commands,
            b[i].commands,
            ts[i].commands,
            a[i].commands.len() as int,
            eol,
        );
        assert(block_out(a[i], ts[i], eol) == block_out(b[i], ts[i], eol));
        assert(block_piece(a, ts, i, eol) == block_piece(b, ts, i, eol));
    }
}

/// True when generation failed on a parse error.
pub open spec fn is_parse_error(r: Result<String, GenerateError>) -> bool {
    match r {
        Err(GenerateError::Parse(_)) => true,
        _ => false,
    }
}

/// Generates the output for a goldenscript input, without comparing it to
/// anything. Parses the input into blocks, runs every command through the
/// runner in source order (bracketed by the script, block, and command
/// hooks), and emits each block's literal command text, the `---` separator,
/// and the regenerated output. Fails exactly on malformed input, on a hook
/// failure, and on a command whose outcome does not match its failure marker.
#[verifier::rlimit(100)]
pub fn generate<R: Runner>(runner: &mut R, input: &str) -> (r: Result<String, GenerateError>)
    requires
        input@.len() < usize::MAX,
    ensures
        is_parse_error(r) <==> crate::parser::spec_parse(input@) is None,
        r matches Ok(out) ==> crate::parser::spec_parse(input@) is Some && exists|
            ts: Seq<BlockTrace>,
        |
            trace_ok(crate::parser::spec_parse(input@)->Some_0, ts) && out@ == render_script(
                crate::parser::spec_parse(input@)->Some_0,
                ts,
                eol_of(input@),
            ),
{
    let in_chars = str_chars(input);
    let crlf = detect_crlf(&in_chars);
    let eol: &str = if crlf {
        "\r\n"
    } else {
        "\n"
    };
    proof {
        reveal_strlit("\r\n");
        reveal_strlit("\n");
        assert(eol@ == eol_of(input@));
        assert(eol@.len() > 0 && eol@.last() == '\n');
    }
    let blocks_vec = match crate::parser::parse(input) {
        Ok(b) => b,
        Err(e) => {
            return Err(GenerateError::Parse(e));
        },
    };
    let ghost bs = crate::command::blocks_view(blocks_vec@);
    match runner.start_script() {
        Ok(_) => {},
        Err(m) => {
            return Err(
                GenerateError::Hook { kind: HookKind::StartScript, line: None, message: m },
            );
        },
    }
    let mut output = String::new();
    let ghost mut ts: Seq<BlockTrace> = Seq::empty();
    let n = blocks_vec.len();
    let mut i: usize = 0;
    while i < n
        invariant
            n == blocks_vec@.len(),
            i <= n,
            crate::parser::spec_parse(input@) == Some(bs),
            bs == crate::command::blocks_view(blocks_vec@),
            bs.len() == n,
            ts.len() == i,
            forall|k: int| 0 <= k < i ==> #[trigger] ts[k].commands.len() == bs[k].commands.len(),
            forall|k: int, j: int|
                0 <= k < i && 0 <= j < bs[k].commands.len() ==> outcome_ok(
                    bs[k].commands[j].fail,
                    #[trigger] ts[k].commands[j].outcome,
                ),
            eol@ == eol_of(input@),
            eol@.len() > 0,
            eol@.last() == '\n',
            output@ == render_upto(bs, ts, i as int, eol@),
        decreases n - i,
    {
        let block = &blocks_vec[i];
        proof {
            assert(block@ == bs[i as int]);
        }
        if block.commands.len() == 0 {
            output.append(block.literal.as_str());
            proof {
                let t = BlockTrace {
                    start: Seq::<char>::empty(),
                    commands: Seq::<CommandTrace>::empty(),
                    end: Seq::<char>::empty(),
                };
                lemma_render_upto_extend(bs, ts, t, i as int, eol@);
                ts = ts.push(t);
                assert(bs[i as int].commands.len() == 0);
                assert(block_piece(bs, ts, i as int, eol@) == bs[i as int].literal);
                assert(output@ == render_upto(bs, ts, i + 1, eol@));
            }
            i = i + 1;
            continue ;
        }
        let sb = match runner.start_block() {
            Ok(t) => t,
            Err(m) => {
                return Err(
                    GenerateError::Hook {
                        kind: HookKind::StartBlock,
                        line: Some(block.line_number),
                        message: m,
                    },
                );
            },
        };
        let ghost sbv = sb@;
        let mut buf = ensure_eol(sb, eol);
        proof {
            lemma_ensure_eol_ends(sbv, eol@);
        }
        let ghost mut ctr: Seq<CommandTrace> = Seq::empty();
        let m = block.commands.len();
        let mut j: usize = 0;
        proof {
            assert(buf@ =~= ensure_eol_spec(sbv, eol@) + commands_out(
                bs[i as int].commands,
                ctr,
                0,
                eol@,
            ));
        }
        while j < m
            invariant
                crate::parser::spec_parse(input@) == Some(bs),
                i < bs.len(),
                n == blocks_vec@.len() == bs.len(),
                bs == crate::command::blocks_view(blocks_vec@),
                block == &blocks_vec@[i as int],
                block@ == bs[i as int],
                m == bs[i as int].commands.len(),
                m == block.commands@.len(),
                j <= m,
                ctr.len() == j,
                forall|k: int|
                    0 <= k < j ==> outcome_ok(
                        bs[i as int].commands[k].fail,
                        #[trigger] ctr[k].outcome,
                    ),
                eol@ == eol_of(input@),
                eol@.len() > 0,
                eol@.last() == '\n',
                buf@ == ensure_eol_spec(sbv, eol@) + commands_out(
                    bs[i as int].commands,
                    ctr,
                    j as int,
                    eol@,
                ),
                buf@.len() == 0 || buf@.last() == '\n',
            decreases m - j,
        {
            let cmd = &block.commands[j];
            proof {
                assert(cmd@ == bs[i as int].commands[j as int]);
            }
            let sc = match runner.start_command(cmd) {
                Ok(t) => t,
                Err(msg) => {
                    return Err(
                        GenerateError::Hook {
                            kind: HookKind::StartCommand,
                            line: Some(cmd.line_number),
                            message: msg,
                        },
                    );
                },
            };
            let outcome = match runner.run(cmd) {
                Ok(t) => Outcome::Success(t),
                Err(msg) => Outcome::Failure(msg),
            };
            let ec = match runner.end_command(cmd) {
                Ok(t) => t,
                Err(msg) => {
                    return Err(
                        GenerateError::Hook {
                            kind: HookKind::EndCommand,
                            line: Some(cmd.line_number),
                            message: msg,
                        },
                    );
                },
            };
            let ghost scv = sc@;
            let ghost ov = outcome@;
            let ghost ecv = ec@;
            let text = match render_command(cmd, sc, outcome, ec, eol) {
                Ok(t) => t,
                Err(e) => {
                    return Err(e);
                },
            };
            let ghost tr = CommandTrace { start: scv, outcome: ov, end: ecv };
            let ghost buf0 = buf@;
            buf.append(text.as_str());
            proof {
                lemma_command_text_ends(cmd@, tr, eol@);
                lemma_commands_out_extend(bs[i as int].commands, ctr, tr, j as int, eol@);
                ctr = ctr.push(tr);
                assert(ctr[j as int] == tr);
                assert(commands_out(bs[i as int].commands, ctr, j + 1, eol@) == commands_out(
                    bs[i as int].commands,
                    ctr,
                    j as int,
                    eol@,
                ) + command_text(bs[i as int].commands[j as int], tr, eol@));
                assert(buf@ =~= ensure_eol_spec(sbv, eol@) + commands_out(
                    bs[i as int].commands,
                    ctr,
                    j + 1,
                    eol@,
                ));
                if buf@.len() > 0 {
                    if text@.len() > 0 {
                        assert(buf@.last() == text@.last());
                    } else {
                        assert(buf@ =~= buf0);
                    }
                }
            }
            j = j + 1;
        }
        let eb = match runner.end_block() {
            Ok(t) => t,
            Err(m2) => {
                return Err(
                    GenerateError::Hook {
                        kind: HookKind::EndBlock,
                        line: Some(block.line_number),
                        message: m2,
                    },
                );
            },
        };
        let ghost ebv = eb@;
        let ghost buf_before_end = buf@;
        buf.append(ensure_eol(eb, eol).as_str());
        let ghost btrace = BlockTrace { start: sbv, commands: ctr, end: ebv };
        proof {
            lemma_ensure_eol_ends(ebv, eol@);
            if buf@.len() > 0 {
                if ensure_eol_spec(ebv, eol@).len() > 0 {
                    assert(buf@.last() == ensure_eol_spec(ebv, eol@).last());
                } else {
                    assert(buf@ =~= buf_before_end);
                }
            }
        }
        let mut buf2 = buf;
        if buf2.as_str().is_empty() {
            buf2 = String::new();
            buf2.append("ok");
            buf2.append(eol);
            proof {
                assert(buf2@.last() == eol@.last());
            }
        }
        let bl = {
            let bv = str_chars(buf2.as_str());
            has_blank_line_exec(&bv)
        };
        let buf3 = if bl {
            escape_blanks_exec(buf2.as_str())
        } else {
            buf2
        };
        proof {
            assert(buf3@ == block_out(bs[i as int], btrace, eol@));
        }
        output.append(block.literal.as_str());
        output.append("---");
        output.append(eol);
        output.append(buf3.as_str());
        if i + 1 < n {
            output.append(eol);
        }
        proof {
            lemma_render_upto_extend(bs, ts, btrace, i as int, eol@);
            ts = ts.push(btrace);
            assert(ts[i as int] == btrace);
            assert(bs[i as int].commands.len() > 0);
            let tail_sep: Seq<char> = if (i as int) < bs.len() - 1 {
                eol@
            } else {
                Seq::<char>::empty()
            };
            assert(block_piece(bs, ts, i as int, eol@) == bs[i as int].literal + "---"@ + eol@
                + block_out(bs[i as int], btrace, eol@) + tail_sep);
            assert(output@ =~= render_upto(bs, ts, i + 1, eol@));
        }
        i = i + 1;
    }
    match runner.end_script() {
        Ok(_) => {},
        Err(m) => {
            return Err(GenerateError::Hook { kind: HookKind::EndScript, line: None, message: m });
        },
    }
    proof {
        let bs2 = crate::parser::spec_parse(input@)->Some_0;
        assert(bs2 == bs);
        assert(trace_ok(bs2, ts));
        assert(output@ == render_script(bs2, ts, eol_of(input@)));
        assert(exists|ts2: Seq<BlockTrace>|
            trace_ok(bs2, ts2) && output@ == render_script(bs2, ts2, eol_of(input@))) by {
            assert(trace_ok(bs2, ts) && output@ == render_script(bs2, ts, eol_of(input@)));
        }
    }
    Ok(output)
}

} // verus!

