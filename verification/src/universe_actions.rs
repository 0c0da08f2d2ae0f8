//! Whitelisted universe actions: request validation, the command line each
//! action runs, and the progress events reported while it runs.

use crate::text::{concat_str, decimal, decimal_chars, from_chars, str_eq, to_chars};
use vstd::prelude::*;

verus! {

/// Seconds an action may run before it is stopped.
pub const ACTION_TIMEOUT_SECS: u64 = 600;

/// A request to run a universe action.
#[derive(Clone, Debug)]
pub struct UniverseActionRequest {
    /// Action name.
    pub action: String,
    /// Extra arguments (none are accepted).
    pub args: Vec<String>,
}

/// The whitelisted action names.
pub open spec fn known_action(action: Seq<char>) -> bool {
    action == "semantic_index"@ || action == "discover_refresh"@ || action == "cfg_refresh"@
}

/// The whitelisted name of `action`, if it is one.
pub fn resolve_action(action: &str) -> (r: Option<&'static str>)
    ensures
        r is Some <==> known_action(action@),
        r matches Some(name) ==> name@ == action@,
{
    if str_eq(action, "semantic_index") {
        Some("semantic_index")
    } else if str_eq(action, "discover_refresh") {
        Some("discover_refresh")
    } else if str_eq(action, "cfg_refresh") {
        Some("cfg_refresh")
    } else {
        None
    }
}

/// CLI hint text for an action, naming the repository.
pub open spec fn cli_hint(action: Seq<char>, repo: Seq<char>) -> Option<Seq<char>> {
    if action == "semantic_index"@ {
        Some("rg-build -r "@ + repo + " semantic index --embedder vocab"@)
    } else if action == "discover_refresh"@ {
        Some("rg-build -r "@ + repo + " discover . --with-universe"@)
    } else if action == "cfg_refresh"@ {
        Some("rg-build -r "@ + repo + " discover . --with-universe --with-cfg"@)
    } else {
        None
    }
}

/// CLI hint text for copy-only universe command entries.
pub fn action_cli_hint(action: &str, repo: &str) -> (r: Option<String>)
    ensures
        r matches Some(s) ==> cli_hint(action@, repo@) == Some(s@),
        r is None ==> cli_hint(action@, repo@) is None,
{
    let head = concat_str("rg-build -r ", repo);
    if str_eq(action, "semantic_index") {
        Some(concat_str(head.as_str(), " semantic index --embedder vocab"))
    } else if str_eq(action, "discover_refresh") {
        Some(concat_str(head.as_str(), " discover . --with-universe"))
    } else if str_eq(action, "cfg_refresh") {
        Some(concat_str(head.as_str(), " discover . --with-universe --with-cfg"))
    } else {
        None
    }
}

/// The arguments an action runs with, after the binary, `-r` and the repository.
pub open spec fn action_tail(action: Seq<char>) -> Seq<Seq<char>> {
    if action == "semantic_index"@ {
        seq!["semantic"@, "index"@, "--embedder"@, "hash"@]
    } else if action == "discover_refresh"@ {
        seq!["discover"@, "."@, "--with-universe"@]
    } else {
        seq!["discover"@, "."@, "--with-universe"@, "--with-cfg"@]
    }
}

/// The message for an unknown action.
pub open spec fn unknown_action_message(action: Seq<char>) -> Seq<char> {
    "unknown action `"@ + action + "`"@
}

fn unknown_action(action: &str) -> (m: String)
    ensures
        m@ == unknown_action_message(action@),
{
    let head = concat_str("unknown action `", action);
    concat_str(head.as_str(), "`")
}

/// The command line of a whitelisted action: the binary, `-r`, the
/// repository, then the action's own arguments; an unknown action is refused.
pub fn build_argv(action: &str, bin: &str, repo: &str) -> (r: Result<Vec<String>, String>)
    ensures
        known_action(action@) ==> (r matches Ok(argv) && argv@.map_values(|s: String| s@) == seq![bin@, "-r"@, repo@]
            + action_tail(action@)),
        !known_action(action@) ==> (r matches Err(m) && m@ == unknown_action_message(action@)),
{
    if resolve_action(action).is_none() {
        return Err(unknown_action(action));
    }
    let mut argv: Vec<String> = Vec::new();
    argv.push(bin.to_owned());
    argv.push("-r".to_owned());
    argv.push(repo.to_owned());
    if str_eq(action, "semantic_index") {
        argv.push("semantic".to_owned());
        argv.push("index".to_owned());
        argv.push("--embedder".to_owned());
        argv.push("hash".to_owned());
    } else if str_eq(action, "discover_refresh") {
        argv.push("discover".to_owned());
        argv.push(".".to_owned());
        argv.push("--with-universe".to_owned());
    } else {
        argv.push("discover".to_owned());
        argv.push(".".to_owned());
        argv.push("--with-universe".to_owned());
        argv.push("--with-cfg".to_owned());
    }
    proof {
        assert(argv@.map_values(|s: String| s@) =~= seq![bin@, "-r"@, repo@] + action_tail(action@));
    }
    Ok(argv)
}

/// `args` joined with single spaces.
pub open spec fn join_spaces(args: Seq<Seq<char>>) -> Seq<char>
    decreases args.len(),
{
    if args.len() == 0 {
        Seq::empty()
    } else if args.len() == 1 {
        args[0]
    } else {
        join_spaces(args.drop_last()) + " "@ + args.last()
    }
}

/// The arguments joined with single spaces (the command as displayed).
pub fn join_args(args: &Vec<String>) -> (r: String)
    ensures
        r@ == join_spaces(args@.map_values(|s: String| s@)),
{
    let ghost v = args@.map_values(|s: String| s@);
    let mut r = String::new();
    let mut i: usize = 0;
    proof {
        assert(v.take(0) =~= Seq::<Seq<char>>::empty());
    }
    while i < args.len()
        invariant
            i <= args@.len(),
            v == args@.map_values(|s: String| s@),
            r@ == join_spaces(v.take(i as int)),
        decreases args@.len() - i,
    {
        proof {
            assert(v.take(i + 1).drop_last() =~= v.take(i as int));
            assert(v.take(i + 1).last() == args@[i as int]@);
        }
        if i == 0 {
            r = concat_str("", args[i].as_str());
            proof {
                assert(v.take(1).len() == 1);
                assert(""@ + args@[0]@ =~= args@[0]@) by {
                    reveal_strlit("");
                }
            }
        } else {
            let with_space = concat_str(r.as_str(), " ");
            r = concat_str(with_space.as_str(), args[i].as_str());
        }
        i = i + 1;
    }
    proof {
        assert(v.take(args@.len() as int) =~= v);
    }
    r
}

/// Why a request was refused: an HTTP status code and a message.
#[derive(Clone, Debug, PartialEq, Eq)]
pub struct ActionRejection {
    /// HTTP status code.
    pub status: u16,
    /// Message for the client.
    pub message: String,
}

/// The message for a request with extra arguments.
pub open spec fn extra_args_message() -> Seq<char> {
    "extra args are not supported for universe actions"@
}

/// Check a request and prepare its command line and display text: unknown
/// actions and requests with arguments are refused with status 400.
pub fn prepare_action(req: &UniverseActionRequest, bin: &str, repo: &str) -> (r: Result<(Vec<String>, String), ActionRejection>)
    ensures
        !known_action(req.action@) ==> (r matches Err(rej) && rej.status == 400 && rej.message@ == unknown_action_message(
            req.action@,
        )),
        known_action(req.action@) && req.args@.len() > 0 ==> (r matches Err(rej) && rej.status == 400 && rej.message@
            == extra_args_message()),
        known_action(req.action@) && req.args@.len() == 0 ==> (r matches Ok(p) && p.0@.map_values(|s: String| s@)
            == seq![bin@, "-r"@, repo@] + action_tail(req.action@) && p.1@ == join_spaces(
            p.0@.map_values(|s: String| s@),
        )),
{
    if resolve_action(req.action.as_str()).is_none() {
        return Err(ActionRejection { status: 400, message: unknown_action(req.action.as_str()) });
    }
    if req.args.len() > 0 {
        let m = "extra args are not supported for universe actions";
        return Err(ActionRejection { status: 400, message: m.to_owned() });
    }
    match build_argv(req.action.as_str(), bin, repo) {
        Ok(argv) => {
            let display = join_args(&argv);
            Ok((argv, display))
        },
        Err(message) => Err(ActionRejection { status: 400, message }),
    }
}

/// Kind of a progress event.
#[derive(Clone, Copy, Debug, PartialEq, Eq, Structural)]
pub enum ActionEventKind {
    Started,
    Stdout,
    Completed,
    Error,
}

/// One progress event of a running action.
#[derive(Clone, Debug, PartialEq, Eq)]
pub struct ActionEvent {
    /// Event kind.
    pub kind: ActionEventKind,
    /// The action.
    pub action: Option<String>,
    /// The command, on start.
    pub command: Option<String>,
    /// An output line.
    pub line: Option<String>,
    /// The exit code, when the process exited.
    pub exit_code: Option<i32>,
    /// An error message.
    pub message: Option<String>,
}

/// The first event: the action started with this command.
pub fn started_event(action: &str, command: &str) -> (e: ActionEvent)
    ensures
        e.kind == ActionEventKind::Started,
        e.action matches Some(a) && a@ == action@,
        e.command matches Some(c) && c@ == command@,
        e.line is None && e.exit_code is None && e.message is None,
{
    ActionEvent {
        kind: ActionEventKind::Started,
        action: Some(action.to_owned()),
        command: Some(command.to_owned()),
        line: None,
        exit_code: None,
        message: None,
    }
}

/// An error event with a message and no exit code.
pub fn error_event(action: &str, message: &str) -> (e: ActionEvent)
    ensures
        e.kind == ActionEventKind::Error,
        e.action matches Some(a) && a@ == action@,
        e.message matches Some(m) && m@ == message@,
        e.command is None && e.line is None && e.exit_code is None,
{
    ActionEvent {
        kind: ActionEventKind::Error,
        action: Some(action.to_owned()),
        command: None,
        line: None,
        exit_code: None,
        message: Some(message.to_owned()),
    }
}

/// `s` without its trailing `\r` and `\n` characters.
pub open spec fn trim_line_end(s: Seq<char>) -> Seq<char>
    decreases s.len(),
{
    if s.len() > 0 && (s.last() == '\r' || s.last() == '\n') {
        trim_line_end(s.drop_last())
    } else {
        s
    }
}

/// The event for one line read from the process: the line without its line
/// ending, or nothing for a blank line.
pub fn line_event(action: &str, raw_line: &str) -> (e: Option<ActionEvent>)
    ensures
        trim_line_end(raw_line@).len() == 0 ==> e is None,
        trim_line_end(raw_line@).len() > 0 ==> (e matches Some(ev) && ev.kind == ActionEventKind::Stdout && ev.line
            == Some(ev.line->0) && ev.line->0@ == trim_line_end(raw_line@) && ev.action == Some(ev.action->0)
            && ev.action->0@ == action@ && ev.command is None && ev.exit_code is None && ev.message is None),
{
    let mut cs = to_chars(raw_line);
    while cs.len() > 0 && (cs[cs.len() - 1] == '\r' || cs[cs.len() - 1] == '\n')
        invariant
            trim_line_end(cs@) == trim_line_end(raw_line@),
        decreases cs@.len(),
    {
        cs.pop();
    }
    if cs.len() == 0 {
        None
    } else {
        Some(
            ActionEvent {
                kind: ActionEventKind::Stdout,
                action: Some(action.to_owned()),
                command: None,
                line: Some(from_chars(cs.as_slice())),
                exit_code: None,
                message: None,
            },
        )
    }
}

/// The decimal text of a signed code.
pub open spec fn signed_decimal(code: int) -> Seq<char> {
    if code < 0 {
        seq!['-'] + decimal((-code) as nat)
    } else {
        decimal(code as nat)
    }
}

fn code_text(code: i32) -> (r: String)
    ensures
        r@ == signed_decimal(code as int),
{
    if code < 0 {
        let mag: u64 = (0i64 - code as i64) as u64;
        let mut cs: Vec<char> = Vec::new();
        cs.push('-');
        let digits = decimal_chars(mag);
        let mut j: usize = 0;
        while j < digits.len()
            invariant
                j <= digits@.len(),
                cs@ == seq!['-'] + digits@.take(j as int),
            decreases digits@.len() - j,
        {
            cs.push(digits[j]);
            proof {
                assert(digits@.take(j + 1) =~= digits@.take(j as int).push(digits@[j as int]));
            }
            j = j + 1;
        }
        proof {
            assert(digits@.take(digits@.len() as int) =~= digits@);
        }
        from_chars(cs.as_slice())
    } else {
        let digits = decimal_chars(code as u64);
        from_chars(digits.as_slice())
    }
}

/// The last event once the process exited: `completed` with the exit code on
/// success, otherwise an error naming the code (`-1` when there is none).
pub fn exit_event(action: &str, success: bool, code: Option<i32>) -> (e: ActionEvent)
    ensures
        ({
            let c: i32 = match code {
                Some(c) => c,
                None => -1i32,
            };
            &&& e.action matches Some(a) && a@ == action@
            &&& e.exit_code == Some(c)
            &&& e.command is None && e.line is None
            &&& success ==> e.kind == ActionEventKind::Completed && e.message is None
            &&& !success ==> (e.kind == ActionEventKind::Error && (e.message matches Some(m) && m@
                == "process exited with code "@ + signed_decimal(c as int)))
        }),
{
    let c: i32 = match code {
        Some(c) => c,
        None => -1,
    };
    if success {
        ActionEvent {
            kind: ActionEventKind::Completed,
            action: Some(action.to_owned()),
            command: None,
            line: None,
            exit_code: Some(c),
            message: None,
        }
    } else {
        let text = code_text(c);
        ActionEvent {
            kind: ActionEventKind::Error,
            action: Some(action.to_owned()),
            command: None,
            line: None,
            exit_code: Some(c),
            message: Some(concat_str("process exited with code ", text.as_str())),
        }
    }
}

/// The event when the action ran out of time.
pub fn timeout_event(action: &str) -> (e: ActionEvent)
    ensures
        e.kind == ActionEventKind::Error,
        e.action matches Some(a) && a@ == action@,
        e.message matches Some(m) && m@ == "action timed out after "@ + decimal(ACTION_TIMEOUT_SECS as nat) + "s"@,
        e.command is None && e.line is None && e.exit_code is None,
{
    let secs = decimal_chars(ACTION_TIMEOUT_SECS);
    let secs_s = from_chars(secs.as_slice());
    let head = concat_str("action timed out after ", secs_s.as_str());
    let m = concat_str(head.as_str(), "s");
    error_event(action, m.as_str())
}


// ---------------------------------------------------------------------------
// Running an action
// ---------------------------------------------------------------------------

/// `o` holds the text `t`.
pub open spec fn text_is(o: Option<String>, t: Seq<char>) -> bool {
    o matches Some(s) && s@ == t
}

/// `e` reports that `action` started with `command`.
pub open spec fn started_shape(e: ActionEvent, action: Seq<char>, command: Seq<char>) -> bool {
    &&& e.kind == ActionEventKind::Started
    &&& text_is(e.action, action)
    &&& text_is(e.command, command)
    &&& e.line is None && e.exit_code is None && e.message is None
}

/// `e` reports error `message` of `action`, without an exit code.
pub open spec fn error_shape(e: ActionEvent, action: Seq<char>, message: Seq<char>) -> bool {
    &&& e.kind == ActionEventKind::Error
    &&& text_is(e.action, action)
    &&& text_is(e.message, message)
    &&& e.command is None && e.line is None && e.exit_code is None
}

/// `e` reports output line `raw` (without its line ending) of `action`.
pub open spec fn line_shape(e: ActionEvent, action: Seq<char>, raw: Seq<char>) -> bool {
    &&& e.kind == ActionEventKind::Stdout
    &&& text_is(e.line, trim_line_end(raw))
    &&& text_is(e.action, action)
    &&& e.command is None && e.exit_code is None && e.message is None
}

/// `e` reports that `action`'s process exited (see `exit_event`).
pub open spec fn exit_shape(e: ActionEvent, action: Seq<char>, success: bool, code: Option<i32>) -> bool {
    let c: i32 = match code {
        Some(c) => c,
        None => -1i32,
    };
    &&& text_is(e.action, action)
    &&& e.exit_code == Some(c)
    &&& e.command is None && e.line is None
    &&& success ==> e.kind == ActionEventKind::Completed && e.message is None
    &&& !success ==> (e.kind == ActionEventKind::Error && text_is(
        e.message,
        "process exited with code "@ + signed_decimal(c as int),
    ))
}

/// The message when an action runs out of time.
pub open spec fn timeout_message() -> Seq<char> {
    "action timed out after "@ + decimal(ACTION_TIMEOUT_SECS as nat) + "s"@
}

/// The message when there is no command to run.
pub open spec fn empty_command_message() -> Seq<char> {
    "empty command"@
}

/// The message when the process's output cannot be read.
pub open spec fn no_stdout_message() -> Seq<char> {
    "failed to capture stdout"@
}

/// Where a run of an action stands.
#[derive(Clone, Copy, Debug, PartialEq, Eq, Structural)]
pub enum RunPhase {
    /// Nothing has happened yet.
    Idle,
    /// The process is being started.
    Spawning,
    /// The process runs and its output is read.
    Running,
    /// The run is over; nothing more is reported.
    Finished,
}

/// What the driver of a run observed.
#[derive(Clone, Debug)]
pub enum RunEvent {
    /// The run begins with this command line and its display text.
    Begin { argv: Vec<String>, command: String },
    /// Starting the process failed with this message.
    SpawnFailed(String),
    /// The process started; whether its standard output can be read.
    Spawned { has_stdout: bool },
    /// A line read from standard output.
    StdoutLine(String),
    /// Reading standard output failed with this message.
    StdoutFailed(String),
    /// A line read from standard error.
    StderrLine(String),
    /// The process exited (after its output was read to the end).
    Exited { success: bool, code: Option<i32> },
    /// Waiting for the process failed with this message.
    WaitFailed(String),
    /// The time limit passed.
    TimedOut,
}

/// What the driver must do next.
#[derive(Clone, Debug)]
pub enum RunCommand {
    /// Nothing.
    Wait,
    /// Start `program` with `args` in the repository.
    Spawn { program: String, args: Vec<String> },
    /// Stop the process.
    Kill,
}

/// The texts of strings.
pub open spec fn texts(v: Seq<String>) -> Seq<Seq<char>> {
    v.map_values(|s: String| s@)
}

/// `r` is the next phase, the events to report and the command for the driver
/// when `event` happens in `phase` of a run of `action`. Events that do not
/// fit the phase change nothing.
pub open spec fn run_step_ok(action: Seq<char>, phase: RunPhase, event: RunEvent, r: (RunPhase, Vec<ActionEvent>, RunCommand)) -> bool {
    let out = r.1@;
    match (phase, event) {
        (RunPhase::Idle, RunEvent::Begin { argv, command }) => {
            &&& out.len() >= 1 && started_shape(out[0], action, command@)
            &&& if argv@.len() == 0 {
                &&& r.0 == RunPhase::Finished
                &&& out.len() == 2 && error_shape(out[1], action, empty_command_message())
                &&& r.2 is Wait
            } else {
                &&& r.0 == RunPhase::Spawning
                &&& out.len() == 1
                &&& r.2 matches RunCommand::Spawn { program, args } && program@ == argv@[0]@ && texts(args@) == texts(
                    argv@.drop_first(),
                )
            }
        },
        (RunPhase::Spawning, RunEvent::SpawnFailed(msg)) => {
            &&& r.0 == RunPhase::Finished
            &&& out.len() == 1 && error_shape(out[0], action, msg@)
            &&& r.2 is Wait
        },
        (RunPhase::Spawning, RunEvent::Spawned { has_stdout }) => if has_stdout {
            r.0 == RunPhase::Running && out.len() == 0 && r.2 is Wait
        } else {
            &&& r.0 == RunPhase::Finished
            &&& out.len() == 1 && error_shape(out[0], action, no_stdout_message())
            &&& r.2 is Kill
        },
        (RunPhase::Running, RunEvent::StdoutLine(raw)) | (RunPhase::Running, RunEvent::StderrLine(raw)) => {
            &&& r.0 == RunPhase::Running
            &&& r.2 is Wait
            &&& if trim_line_end(raw@).len() == 0 {
                out.len() == 0
            } else {
                out.len() == 1 && line_shape(out[0], action, raw@)
            }
        },
        (RunPhase::Running, RunEvent::StdoutFailed(msg)) => {
            &&& r.0 == RunPhase::Running
            &&& out.len() == 1 && error_shape(out[0], action, msg@)
            &&& r.2 is Wait
        },
        (RunPhase::Running, RunEvent::Exited { success, code }) => {
            &&& r.0 == RunPhase::Finished
            &&& out.len() == 1 && exit_shape(out[0], action, success, code)
            &&& r.2 is Wait
        },
        (RunPhase::Running, RunEvent::WaitFailed(msg)) => {
            &&& r.0 == RunPhase::Finished
            &&& out.len() == 1 && error_shape(out[0], action, msg@)
            &&& r.2 is Wait
        },
        (RunPhase::Running, RunEvent::TimedOut) => {
            &&& r.0 == RunPhase::Finished
            &&& out.len() == 1 && error_shape(out[0], action, timeout_message())
            &&& r.2 is Kill
        },
        _ => r.0 == phase && out.len() == 0 && r.2 is Wait,
    }
}

fn copy_strings(v: &[String]) -> (r: Vec<String>)
    ensures
        r@ == v@,
{
    let mut r: Vec<String> = Vec::new();
    let mut i: usize = 0;
    while i < v.len()
        invariant
            i <= v@.len(),
            r@ == v@.take(i as int),
        decreases v@.len() - i,
    {
        r.push(v[i].clone());
        proof {
            assert(v@.take(i + 1) =~= v@.take(i as int).push(v@[i as int]));
        }
        i = i + 1;
    }
    proof {
        assert(v@.take(i as int) =~= v@);
    }
    r
}

/// One step of running `action`: what to report and do when `event` happens
/// in `phase` (see `run_step_ok`). The driver performs the command, reads
/// the process and feeds back what it observes until the phase is finished.
pub fn run_step(action: &str, phase: RunPhase, event: &RunEvent) -> (r: (RunPhase, Vec<ActionEvent>, RunCommand))
    ensures
        run_step_ok(action@, phase, *event, r),
{
    let mut out: Vec<ActionEvent> = Vec::new();
    match (phase, event) {
        (RunPhase::Idle, RunEvent::Begin { argv, command }) => {
            out.push(started_event(action, command.as_str()));
            if argv.len() == 0 {
                out.push(error_event(action, "empty command"));
                (RunPhase::Finished, out, RunCommand::Wait)
            } else {
                let program = argv[0].clone();
                let args = copy_strings(slice_tail(argv.as_slice()));
                proof {
                    assert(args@ == argv@.drop_first());
                }
                (RunPhase::Spawning, out, RunCommand::Spawn { program, args })
            }
        },
        (RunPhase::Spawning, RunEvent::SpawnFailed(msg)) => {
            out.push(error_event(action, msg.as_str()));
            (RunPhase::Finished, out, RunCommand::Wait)
        },
        (RunPhase::Spawning, RunEvent::Spawned { has_stdout }) => {
            if *has_stdout {
                (RunPhase::Running, out, RunCommand::Wait)
            } else {
                out.push(error_event(action, "failed to capture stdout"));
                (RunPhase::Finished, out, RunCommand::Kill)
            }
        },
        (RunPhase::Running, RunEvent::StdoutLine(raw)) | (RunPhase::Running, RunEvent::StderrLine(raw)) => {
            match line_event(action, raw.as_str()) {
                Some(e) => out.push(e),
                None => {},
            }
            (RunPhase::Running, out, RunCommand::Wait)
        },
        (RunPhase::Running, RunEvent::StdoutFailed(msg)) => {
            out.push(error_event(action, msg.as_str()));
            (RunPhase::Running, out, RunCommand::Wait)
        },
        (RunPhase::Running, RunEvent::Exited { success, code }) => {
            out.push(exit_event(action, *success, *code));
            (RunPhase::Finished, out, RunCommand::Wait)
        },
        (RunPhase::Running, RunEvent::WaitFailed(msg)) => {
            out.push(error_event(action, msg.as_str()));
            (RunPhase::Finished, out, RunCommand::Wait)
        },
        (RunPhase::Running, RunEvent::TimedOut) => {
            out.push(timeout_event(action));
            (RunPhase::Finished, out, RunCommand::Kill)
        },
        _ => (phase, out, RunCommand::Wait),
    }
}

/// All but the first element of a non-empty slice.
fn slice_tail(v: &[String]) -> (r: &[String])
    requires
        v@.len() > 0,
    ensures
        r@ == v@.drop_first(),
{
    vstd::slice::slice_subrange(v, 1, v.len())
}


/// A finished run stays finished and reports nothing more, whatever the
/// driver observes.
pub proof fn lemma_finished_run_is_silent(
    action: Seq<char>,
    event: RunEvent,
    r: (RunPhase, Vec<ActionEvent>, RunCommand),
)
    requires
        run_step_ok(action, RunPhase::Finished, event, r),
    ensures
        r.0 == RunPhase::Finished,
        r.1@.len() == 0,
        r.2 is Wait,
{
}

} // verus!
