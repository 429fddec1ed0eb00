//! The command dispatcher: classify the first argv element, carry out the
//! built-ins, and plan what the surrounding binary must do for the rest
//! (terminate, change directory, spawn). Environment values (search path,
//! home, working directory) are handed in by the caller.

use vstd::prelude::*;

use crate::args::CmdArgs;
use crate::strutil::concat_str;
use crate::strutil::str_eq;
use crate::utils::expand_tilda;
use crate::utils::expand_leading_tilde;
use crate::utils::find_command;
use crate::utils::split_colon;

verus! {

use vstd::string::StrSliceExecFns;
use vstd::string::StringSliceAdditionalSpecFns;
use vstd::utf8::encode_utf8;

/// A command's resolved name and the path it was found at.
pub struct ExecutableCmd {
    pub cmd: String,
    pub path: String,
}

/// What a stage hands the next command as standard input: nothing (the
/// terminal is inherited), text or bytes from a built-in, or the live pipe of
/// the previous external command.
pub enum CmdInput {
    Text(String),
    Bytes(Vec<u8>),
    Pipe,
}

/// Ghost form of a command input.
pub enum CmdInputModel {
    Text(Seq<char>),
    Bytes(Seq<u8>),
    Pipe,
}

impl View for CmdInput {
    type V = CmdInputModel;

    open spec fn view(&self) -> CmdInputModel {
        match self {
            CmdInput::Text(s) => CmdInputModel::Text(s@),
            CmdInput::Bytes(b) => CmdInputModel::Bytes(b@),
            CmdInput::Pipe => CmdInputModel::Pipe,
        }
    }
}

/// The command kinds the first argv element can name.
pub enum Cmd {
    Exit,
    Echo,
    Type,
    Executable(ExecutableCmd),
    Cd,
    Pwd,
    Unknown,
}

/// One stream of a command's output: text or bytes, for standard output or
/// standard error; or the live streams of a running external command, whose
/// handle the caller keeps.
pub enum CmdOutput {
    Stdout(String),
    Stderr(String),
    StdoutBytes(Vec<u8>),
    StderrBytes(Vec<u8>),
    Stream,
}

/// Ghost form of a command output.
pub enum CmdOutputModel {
    Stdout(Seq<char>),
    Stderr(Seq<char>),
    StdoutBytes(Seq<u8>),
    StderrBytes(Seq<u8>),
    Stream,
}

impl View for CmdOutput {
    type V = CmdOutputModel;

    open spec fn view(&self) -> CmdOutputModel {
        match self {
            CmdOutput::Stdout(s) => CmdOutputModel::Stdout(s@),
            CmdOutput::Stderr(s) => CmdOutputModel::Stderr(s@),
            CmdOutput::StdoutBytes(b) => CmdOutputModel::StdoutBytes(b@),
            CmdOutput::StderrBytes(b) => CmdOutputModel::StderrBytes(b@),
            CmdOutput::Stream => CmdOutputModel::Stream,
        }
    }
}

/// What a stage produced: at most one value for each of the two streams.
pub struct ExecutionOutput(pub Option<CmdOutput>, pub Option<CmdOutput>);

/// Ghost form of an execution output.
pub type ExecutionOutputModel = (Option<CmdOutputModel>, Option<CmdOutputModel>);

/// Ghost form of an optional command output.
pub open spec fn opt_output_model(o: Option<CmdOutput>) -> Option<CmdOutputModel> {
    match o {
        Some(v) => Some(v@),
        None => None,
    }
}

impl View for ExecutionOutput {
    type V = ExecutionOutputModel;

    open spec fn view(&self) -> ExecutionOutputModel {
        (opt_output_model(self.0), opt_output_model(self.1))
    }
}

/// An execution output that says something on standard output only.
pub open spec fn stdout_only(msg: Seq<char>) -> ExecutionOutputModel {
    (Some(CmdOutputModel::Stdout(msg)), None)
}

/// An execution output that says something on standard error only.
pub open spec fn stderr_only(msg: Seq<char>) -> ExecutionOutputModel {
    (None, Some(CmdOutputModel::Stderr(msg)))
}

impl ExecutionOutput {
    /// No output on either stream.
    pub fn none() -> (r: ExecutionOutput)
        ensures
            r@ == (None::<CmdOutputModel>, None::<CmdOutputModel>),
    {
        ExecutionOutput(None, None)
    }

    /// Text on standard output only.
    pub fn stdout(stdout: String) -> (r: ExecutionOutput)
        ensures
            r@ == stdout_only(stdout@),
    {
        ExecutionOutput(Some(CmdOutput::Stdout(stdout)), None)
    }

    /// Bytes on standard output only.
    pub fn stdout_bytes(stdout: Vec<u8>) -> (r: ExecutionOutput)
        ensures
            r@ == (Some(CmdOutputModel::StdoutBytes(stdout@)), None::<CmdOutputModel>),
    {
        ExecutionOutput(Some(CmdOutput::StdoutBytes(stdout)), None)
    }

    /// Text on standard error only.
    pub fn stderr(stderr: String) -> (r: ExecutionOutput)
        ensures
            r@ == stderr_only(stderr@),
    {
        ExecutionOutput(None, Some(CmdOutput::Stderr(stderr)))
    }

    /// Bytes on standard error only.
    pub fn stderr_bytes(stderr: Vec<u8>) -> (r: ExecutionOutput)
        ensures
            r@ == (None::<CmdOutputModel>, Some(CmdOutputModel::StderrBytes(stderr@))),
    {
        ExecutionOutput(None, Some(CmdOutput::StderrBytes(stderr)))
    }
}

/// How the caller must wire a spawned child's standard input.
pub enum StdinPlan {
    Inherit,
    FromPipe,
    WriteBytes(Vec<u8>),
}

/// Ghost form of a stdin plan.
pub enum StdinPlanModel {
    Inherit,
    FromPipe,
    WriteBytes(Seq<u8>),
}

impl View for StdinPlan {
    type V = StdinPlanModel;

    open spec fn view(&self) -> StdinPlanModel {
        match self {
            StdinPlan::Inherit => StdinPlanModel::Inherit,
            StdinPlan::FromPipe => StdinPlanModel::FromPipe,
            StdinPlan::WriteBytes(b) => StdinPlanModel::WriteBytes(b@),
        }
    }
}

/// The child's standard input for each kind of piped-in value: text and
/// bytes are written into the child and closed; a pipe is inherited from the
/// previous stage; nothing means the terminal.
pub open spec fn stdin_plan_of(input: Option<CmdInputModel>) -> StdinPlanModel {
    match input {
        None => StdinPlanModel::Inherit,
        Some(CmdInputModel::Pipe) => StdinPlanModel::FromPipe,
        Some(CmdInputModel::Text(s)) => StdinPlanModel::WriteBytes(encode_utf8(s)),
        Some(CmdInputModel::Bytes(b)) => StdinPlanModel::WriteBytes(b),
    }
}

/// What carrying a command out comes to: a finished output, an order to
/// terminate the process, a directory change, or a child to spawn.
pub enum CmdAction {
    Done(ExecutionOutput),
    Terminate(u8),
    ChangeDir { target: String, failure: ExecutionOutput },
    Spawn { program: String, args: Vec<String>, stdin: StdinPlan, failure: ExecutionOutput },
}

/// Ghost form of a command action.
pub enum CmdActionModel {
    Done(ExecutionOutputModel),
    Terminate(u8),
    ChangeDir { target: Seq<char>, failure: ExecutionOutputModel },
    Spawn {
        program: Seq<char>,
        args: Seq<Seq<char>>,
        stdin: StdinPlanModel,
        failure: ExecutionOutputModel,
    },
}

impl View for CmdAction {
    type V = CmdActionModel;

    open spec fn view(&self) -> CmdActionModel {
        match self {
            CmdAction::Done(out) => CmdActionModel::Done(out@),
            CmdAction::Terminate(code) => CmdActionModel::Terminate(*code),
            CmdAction::ChangeDir { target, failure } => CmdActionModel::ChangeDir {
                target: target@,
                failure: failure@,
            },
            CmdAction::Spawn { program, args, stdin, failure } => CmdActionModel::Spawn {
                program: program@,
                args: args.deep_view(),
                stdin: stdin@,
                failure: failure@,
            },
        }
    }
}

/// Whether a name is one of the built-in commands.
pub open spec fn is_builtin_name(name: Seq<char>) -> bool {
    name == "echo"@ || name == "exit"@ || name == "type"@ || name == "pwd"@ || name == "cd"@
}

/// The value of the digits of `s` from `i` on, accumulated onto `acc`;
/// nothing on a non-digit or once the value leaves the unsigned byte range.
pub open spec fn u8_of_digits(s: Seq<char>, i: int, acc: int) -> Option<int>
    decreases s.len() - i,
{
    if i < 0 || i >= s.len() {
        Some(acc)
    } else if !('0' <= s[i] <= '9') {
        None
    } else {
        let acc2 = acc * 10 + (s[i] as int - '0' as int);
        if acc2 > 255 {
            None
        } else {
            u8_of_digits(s, i + 1, acc2)
        }
    }
}

/// The unsigned byte a string of digits (with an optional leading plus)
/// names, if any.
pub open spec fn parse_u8_spec(s: Seq<char>) -> Option<u8> {
    let body = if s.len() > 0 && s[0] == '+' {
        s.drop_first()
    } else {
        s
    };
    if body.len() == 0 {
        None
    } else {
        match u8_of_digits(body, 0, 0) {
            Some(v) => Some(v as u8),
            None => None,
        }
    }
}

/// Parse an unsigned byte: optional leading plus, then decimal digits whose
/// value fits.
pub fn parse_u8(s: &str) -> (r: Option<u8>)
    ensures
        r == parse_u8_spec(s@),
{
    let n = s.unicode_len();
    let mut i: usize = 0;
    if n > 0 && s.get_char(0) == '+' {
        i = 1;
    }
    let ghost body = if s@.len() > 0 && s@[0] == '+' {
        s@.drop_first()
    } else {
        s@
    };
    if i >= n {
        proof {
            assert(body.len() == 0);
        }
        return None;
    }
    let mut acc: u32 = 0;
    while i < n
        invariant
            i <= n,
            n == s@.len(),
            acc <= 255,
            body == (if s@.len() > 0 && s@[0] == '+' {
                s@.drop_first()
            } else {
                s@
            }),
            body.len() > 0,
            i >= (if s@.len() > 0 && s@[0] == '+' {
                1int
            } else {
                0int
            }),
            u8_of_digits(body, 0, 0) == u8_of_digits(
                body,
                i - (if s@.len() > 0 && s@[0] == '+' {
                    1int
                } else {
                    0int
                }),
                acc as int,
            ),
        decreases n - i,
    {
        let c = s.get_char(i);
        let ghost off = if s@.len() > 0 && s@[0] == '+' {
            1int
        } else {
            0int
        };
        proof {
            if off == 1 {
                assert(body[i - 1] == s@[i as int]);
            } else {
                assert(body[i as int] == s@[i as int]);
            }
        }
        if c < '0' || c > '9' {
            return None;
        }
        let d = (c as u32) - ('0' as u32);
        let acc2 = acc * 10 + d;
        if acc2 > 255 {
            return None;
        }
        acc = acc2;
        i = i + 1;
    }
    proof {
        assert(u8_of_digits(body, body.len() as int, acc as int) == Some(acc as int));
    }
    Some(acc as u8)
}

/// The arguments joined by single spaces.
pub open spec fn join_spaces(args: Seq<Seq<char>>) -> Seq<char>
    decreases args.len(),
{
    if args.len() == 0 {
        Seq::empty()
    } else if args.len() == 1 {
        args[0]
    } else {
        args[0] + seq![' '] + join_spaces(args.drop_first())
    }
}

/// Join strings with single spaces between them.
fn join_with_spaces(args: &Vec<String>, from: usize) -> (r: String)
    requires
        from <= args@.len(),
    ensures
        r@ == join_spaces(args.deep_view().skip(from as int)),
{
    let ghost av = args.deep_view();
    let mut r = String::new();
    let mut k: usize = from;
    while k < args.len()
        invariant
            from <= k <= args@.len(),
            av == args.deep_view(),
            join_spaces(av.skip(from as int)) == r@ + join_spaces(av.skip(k as int)),
        decreases args@.len() - k,
    {
        proof {
            assert(av[k as int] == args@[k as int]@);
        }
        let ghost r_pre = r@;
        r.append(args[k].as_str());
        if k + 1 < args.len() {
            crate::strutil::string_push_char(&mut r, ' ');
        }
        proof {
            let rest = av.skip(k as int);
            assert(rest[0] == av[k as int]);
            if k + 1 < args@.len() {
                assert(rest.drop_first() =~= av.skip(k as int + 1));
                assert(join_spaces(rest) == rest[0] + seq![' '] + join_spaces(
                    av.skip(k as int + 1),
                ));
                assert(r@ =~= r_pre + av[k as int] + seq![' ']);
                assert(r_pre + (av[k as int] + seq![' '] + join_spaces(av.skip(k as int + 1)))
                    =~= r@ + join_spaces(av.skip(k as int + 1)));
            } else {
                assert(rest.len() == 1);
                assert(join_spaces(rest) == rest[0]);
                assert(av.skip(k as int + 1) =~= Seq::<Seq<char>>::empty());
                assert(r@ == r_pre + av[k as int]);
                assert(r_pre + join_spaces(rest) =~= r@ + join_spaces(av.skip(k as int + 1)));
            }
        }
        k = k + 1;
    }
    proof {
        assert(join_spaces(av.skip(k as int)) =~= Seq::<char>::empty()) by {
            assert(av.skip(k as int) =~= Seq::<Seq<char>>::empty());
        }
        assert(r@ + Seq::<char>::empty() =~= r@);
    }
    r
}


/// The action of `exit`: terminate with 255, or the parsed byte; complain on
/// a bad code or extra arguments.
pub open spec fn exit_action(args: Seq<Seq<char>>) -> CmdActionModel {
    if args.len() == 1 && args[0] == "exit"@ {
        CmdActionModel::Terminate(255)
    } else if args.len() == 2 && args[0] == "exit"@ {
        match parse_u8_spec(args[1]) {
            Some(code) => CmdActionModel::Terminate(code),
            None => CmdActionModel::Done(stderr_only("exit: invalid code"@)),
        }
    } else {
        CmdActionModel::Done(stderr_only("exit: expected 1 arg at most"@))
    }
}

/// The action of `echo`: the arguments after the name, joined by single
/// spaces, on standard output.
pub open spec fn echo_action(args: Seq<Seq<char>>) -> CmdActionModel {
    CmdActionModel::Done(stdout_only(join_spaces(args.skip(1))))
}

/// The action of `pwd`: the working directory on standard output; complain
/// on any argument.
pub open spec fn pwd_action(args: Seq<Seq<char>>, current_dir: Seq<char>) -> CmdActionModel {
    if args.len() == 1 && args[0] == "pwd"@ {
        CmdActionModel::Done(stdout_only(current_dir))
    } else {
        CmdActionModel::Done(stderr_only("pwd: expected 0 args"@))
    }
}

/// A path with its leading tilde expanded against the home directory, when
/// one is known.
pub open spec fn expand_home(path: Seq<char>, home: Option<Seq<char>>) -> Seq<char> {
    match home {
        Some(h) => expand_leading_tilde(path, h),
        None => path,
    }
}

/// The failure line of `cd`.
pub open spec fn cd_failure_message(path: Seq<char>) -> Seq<char> {
    "cd: "@ + path + ": No such file or directory"@
}

/// The action of `cd`: change to home for a bare `cd`, expand a leading
/// tilde, and complain on extra arguments. The failure output is what the
/// caller emits when the directory change is refused.
pub open spec fn cd_action(args: Seq<Seq<char>>, home: Option<Seq<char>>) -> CmdActionModel {
    if args.len() == 1 && args[0] == "cd"@ {
        CmdActionModel::ChangeDir {
            target: expand_home("~"@, home),
            failure: stderr_only(cd_failure_message("~"@)),
        }
    } else if args.len() == 2 && args[0] == "cd"@ {
        let path = args[1];
        let target = if path.len() > 0 && path[0] == '~' {
            expand_home(path, home)
        } else {
            path
        };
        CmdActionModel::ChangeDir { target, failure: stderr_only(cd_failure_message(path)) }
    } else {
        CmdActionModel::Done(stderr_only("cd: expected 1 arg at most"@))
    }
}

/// The action of an external command: spawn the resolved executable with the
/// remaining arguments and the piped-in standard input; the failure output,
/// which names the command as typed, is what the caller emits when the spawn
/// is refused.
pub open spec fn spawn_action(
    cmd: Seq<char>,
    path: Seq<char>,
    args: Seq<Seq<char>>,
    input: Option<CmdInputModel>,
) -> CmdActionModel {
    CmdActionModel::Spawn {
        program: path,
        args: args.skip(1),
        stdin: stdin_plan_of(input),
        failure: stderr_only(cmd + ": failed to execute"@),
    }
}

/// Whether `found` has the shape of a search-path hit for `name`: one of the
/// directories of the search path, a slash, and the name.
pub open spec fn is_path_hit(found: Seq<char>, name: Seq<char>, search_path: Seq<char>) -> bool {
    exists|k: int|
        0 <= k < split_colon(search_path).len() && found == #[trigger] split_colon(search_path)[k]
            + seq!['/'] + name
}

/// What `type` may answer for a well-formed request: the built-in line, a
/// search-path hit, or not found. Which of the last two comes back depends on
/// the disk.
pub open spec fn type_answer_ok(
    name: Seq<char>,
    search_path: Seq<char>,
    r: CmdActionModel,
) -> bool {
    if is_builtin_name(name) {
        r == CmdActionModel::Done(stdout_only(name + " is a shell builtin"@))
    } else {
        ||| (exists|p: Seq<char>|
            is_path_hit(p, name, search_path) && r == CmdActionModel::Done(
                stdout_only(name + " is "@ + p),
            ))
        ||| r == CmdActionModel::Done(stderr_only(name + ": not found"@))
    }
}

impl Cmd {
    /// Classify a command name: one of the built-ins by name; otherwise an
    /// executable if the search path turns one up, and unknown if not.
    pub fn from_name(program: String, search_path: &str) -> (r: Cmd)
        ensures
            program@ == "echo"@ ==> r is Echo,
            program@ == "exit"@ ==> r is Exit,
            program@ == "type"@ ==> r is Type,
            program@ == "pwd"@ ==> r is Pwd,
            program@ == "cd"@ ==> r is Cd,
            match r {
                Cmd::Echo => program@ == "echo"@,
                Cmd::Exit => program@ == "exit"@,
                Cmd::Type => program@ == "type"@,
                Cmd::Pwd => program@ == "pwd"@,
                Cmd::Cd => program@ == "cd"@,
                Cmd::Executable(e) => !is_builtin_name(program@) && e.cmd@ == program@
                    && is_path_hit(e.path@, program@, search_path@),
                Cmd::Unknown => !is_builtin_name(program@),
            },
    {
        proof {
            broadcast use vstd::string::group_string_axioms;

            reveal_strlit("echo");
            reveal_strlit("exit");
            reveal_strlit("type");
            reveal_strlit("pwd");
            reveal_strlit("cd");
            assert("echo"@[1] == 'c' && "exit"@[1] == 'x' && "type"@[1] == 'y' && "pwd"@.len() == 3
                && "cd"@.len() == 2 && "pwd"@[0] == 'p' && "cd"@[0] == 'c');
        }
        if str_eq(program.as_str(), "echo") {
            Cmd::Echo
        } else if str_eq(program.as_str(), "exit") {
            Cmd::Exit
        } else if str_eq(program.as_str(), "type") {
            Cmd::Type
        } else if str_eq(program.as_str(), "pwd") {
            Cmd::Pwd
        } else if str_eq(program.as_str(), "cd") {
            Cmd::Cd
        } else {
            match find_command(program.as_str(), search_path) {
                Some(executable_path) => Cmd::Executable(
                    ExecutableCmd { cmd: program, path: executable_path },
                ),
                None => Cmd::Unknown,
            }
        }
    }

    /// Carry the command out on its argv and piped-in input. The caller
    /// supplies the environment: the search path, the home directory if one
    /// is set, and the current working directory.
    pub fn exec(
        &self,
        cmd_args: CmdArgs,
        input: Option<CmdInput>,
        search_path: &str,
        home: Option<&str>,
        current_dir: String,
    ) -> (r: CmdAction)
        requires
            cmd_args@.len() >= 1,
        ensures
            ({
                let args = cmd_args.deep_view();
                let home_model = match home {
                    Some(h) => Some(h@),
                    None => None,
                };
                let input_model = match input {
                    Some(v) => Some(v@),
                    None => None,
                };
                match self {
                    Cmd::Exit => r@ == exit_action(args),
                    Cmd::Echo => r@ == echo_action(args),
                    Cmd::Type => (if args.len() == 2 && args[0] == "type"@ {
                        type_answer_ok(args[1], search_path@, r@)
                    } else {
                        r@ == CmdActionModel::Done(stderr_only("type: expected 1 arg"@))
                    }),
                    Cmd::Executable(e) => r@ == spawn_action(e.cmd@, e.path@, args, input_model),
                    Cmd::Cd => r@ == cd_action(args, home_model),
                    Cmd::Pwd => r@ == pwd_action(args, current_dir@),
                    Cmd::Unknown => r@ == CmdActionModel::Done(
                        (None::<CmdOutputModel>, None::<CmdOutputModel>),
                    ),
                }
            }),
    {
        match self {
            Cmd::Exit => exec_exit(&cmd_args),
            Cmd::Echo => exec_echo(&cmd_args),
            Cmd::Type => exec_type(&cmd_args, search_path),
            Cmd::Executable(e) => exec_executable(e, &cmd_args, input),
            Cmd::Cd => exec_cd(&cmd_args, home),
            Cmd::Pwd => exec_pwd(&cmd_args, current_dir),
            Cmd::Unknown => CmdAction::Done(ExecutionOutput::none()),
        }
    }
}

/// The `exit` built-in: terminate the shell with 255, or with the given
/// unsigned byte.
fn exec_exit(cmd_args: &CmdArgs) -> (r: CmdAction)
    ensures
        r@ == exit_action(cmd_args.deep_view()),
{
    let ghost args = cmd_args.deep_view();
    proof {
        if cmd_args@.len() > 0 {
            assert(args[0] == cmd_args@[0]@);
        }
        if cmd_args@.len() > 1 {
            assert(args[1] == cmd_args@[1]@);
        }
    }
    if cmd_args.len() == 1 && str_eq(cmd_args[0].as_str(), "exit") {
        CmdAction::Terminate(255)
    } else if cmd_args.len() == 2 && str_eq(cmd_args[0].as_str(), "exit") {
        match parse_u8(cmd_args[1].as_str()) {
            Some(code) => CmdAction::Terminate(code),
            None => CmdAction::Done(ExecutionOutput::stderr("exit: invalid code".to_owned())),
        }
    } else {
        CmdAction::Done(ExecutionOutput::stderr("exit: expected 1 arg at most".to_owned()))
    }
}

/// The `echo` built-in: the arguments joined by single spaces.
fn exec_echo(cmd_args: &CmdArgs) -> (r: CmdAction)
    requires
        cmd_args@.len() >= 1,
    ensures
        r@ == echo_action(cmd_args.deep_view()),
{
    let text = join_with_spaces(cmd_args, 1);
    CmdAction::Done(ExecutionOutput::stdout(text))
}

/// The `type` built-in: name the kind of a command.
fn exec_type(cmd_args: &CmdArgs, search_path: &str) -> (r: CmdAction)
    ensures
        ({
            let args = cmd_args.deep_view();
            if args.len() == 2 && args[0] == "type"@ {
                type_answer_ok(args[1], search_path@, r@)
            } else {
                r@ == CmdActionModel::Done(stderr_only("type: expected 1 arg"@))
            }
        }),
{
    let ghost args = cmd_args.deep_view();
    proof {
        if cmd_args@.len() > 0 {
            assert(args[0] == cmd_args@[0]@);
        }
        if cmd_args@.len() > 1 {
            assert(args[1] == cmd_args@[1]@);
        }
    }
    if cmd_args.len() == 2 && str_eq(cmd_args[0].as_str(), "type") {
        let command = cmd_args[1].clone();
        let looked_up = Cmd::from_name(command.clone(), search_path);
        match looked_up {
            Cmd::Unknown => CmdAction::Done(
                ExecutionOutput::stderr(concat_str(command.as_str(), ": not found")),
            ),
            Cmd::Executable(exe) => {
                let with_is = concat_str(exe.cmd.as_str(), " is ");
                CmdAction::Done(
                    ExecutionOutput::stdout(concat_str(with_is.as_str(), exe.path.as_str())),
                )
            },
            _ => CmdAction::Done(
                ExecutionOutput::stdout(concat_str(command.as_str(), " is a shell builtin")),
            ),
        }
    } else {
        CmdAction::Done(ExecutionOutput::stderr("type: expected 1 arg".to_owned()))
    }
}

/// An external command: plan the spawn with the remaining arguments and the
/// piped-in standard input.
fn exec_executable(
    executable_cmd: &ExecutableCmd,
    cmd_args: &CmdArgs,
    input: Option<CmdInput>,
) -> (r: CmdAction)
    requires
        cmd_args@.len() >= 1,
    ensures
        r@ == spawn_action(
            executable_cmd.cmd@,
            executable_cmd.path@,
            cmd_args.deep_view(),
            match input {
                Some(v) => Some(v@),
                None => None,
            },
        ),
{
    let stdin = match input {
        Some(CmdInput::Pipe) => StdinPlan::FromPipe,
        Some(CmdInput::Text(text)) => StdinPlan::WriteBytes(text.as_str().as_bytes_vec()),
        Some(CmdInput::Bytes(bytes)) => StdinPlan::WriteBytes(bytes),
        None => StdinPlan::Inherit,
    };
    let mut rest: Vec<String> = Vec::new();
    let mut k: usize = 1;
    proof {
        assert(rest.deep_view() =~= cmd_args.deep_view().skip(1).take(0));
    }
    while k < cmd_args.len()
        invariant
            1 <= k <= cmd_args@.len(),
            rest.deep_view() =~= cmd_args.deep_view().skip(1).take(k - 1),
        decreases cmd_args@.len() - k,
    {
        let ghost rest_pre = rest;
        let item = cmd_args[k].clone();
        let ghost item_pre = item;
        rest.push(item);
        proof {
            crate::strutil::lemma_deep_view_push(rest_pre, rest, item_pre);
            assert(item_pre@ == cmd_args.deep_view()[k as int]);
            assert(cmd_args.deep_view().skip(1)[k - 1] == cmd_args.deep_view()[k as int]);
            assert(rest.deep_view() =~= cmd_args.deep_view().skip(1).take(k as int));
        }
        k = k + 1;
    }
    proof {
        assert(rest.deep_view() =~= cmd_args.deep_view().skip(1)) by {
            assert(cmd_args.deep_view().skip(1).take(cmd_args@.len() - 1)
                =~= cmd_args.deep_view().skip(1));
        }
    }
    let failure = ExecutionOutput::stderr(
        concat_str(executable_cmd.cmd.as_str(), ": failed to execute"),
    );
    CmdAction::Spawn { program: executable_cmd.path.clone(), args: rest, stdin, failure }
}

/// The `cd` built-in: plan the directory change.
fn exec_cd(cmd_args: &CmdArgs, home: Option<&str>) -> (r: CmdAction)
    ensures
        r@ == cd_action(
            cmd_args.deep_view(),
            match home {
                Some(h) => Some(h@),
                None => None,
            },
        ),
{
    let ghost args = cmd_args.deep_view();
    proof {
        if cmd_args@.len() > 0 {
            assert(args[0] == cmd_args@[0]@);
        }
        if cmd_args@.len() > 1 {
            assert(args[1] == cmd_args@[1]@);
        }
    }
    if cmd_args.len() == 1 && str_eq(cmd_args[0].as_str(), "cd") {
        let target = match home {
            Some(h) => expand_tilda("~", h),
            None => "~".to_owned(),
        };
        let head = concat_str("cd: ", "~");
        let failure = ExecutionOutput::stderr(
            concat_str(head.as_str(), ": No such file or directory"),
        );
        proof {
            reveal_strlit("~");
        }
        CmdAction::ChangeDir { target, failure }
    } else if cmd_args.len() == 2 && str_eq(cmd_args[0].as_str(), "cd") {
        let path = &cmd_args[1];
        let starts_tilde = path.as_str().unicode_len() > 0 && path.as_str().get_char(0) == '~';
        let target = if starts_tilde {
            match home {
                Some(h) => expand_tilda(path.as_str(), h),
                None => path.clone(),
            }
        } else {
            path.clone()
        };
        let head = concat_str("cd: ", path.as_str());
        let failure = ExecutionOutput::stderr(
            concat_str(head.as_str(), ": No such file or directory"),
        );
        CmdAction::ChangeDir { target, failure }
    } else {
        CmdAction::Done(ExecutionOutput::stderr("cd: expected 1 arg at most".to_owned()))
    }
}

/// The `pwd` built-in: the working directory the caller read.
fn exec_pwd(cmd_args: &CmdArgs, current_dir: String) -> (r: CmdAction)
    ensures
        r@ == pwd_action(cmd_args.deep_view(), current_dir@),
{
    let ghost args = cmd_args.deep_view();
    proof {
        if cmd_args@.len() > 0 {
            assert(args[0] == cmd_args@[0]@);
        }
    }
    if cmd_args.len() == 1 && str_eq(cmd_args[0].as_str(), "pwd") {
        CmdAction::Done(ExecutionOutput::stdout(current_dir))
    } else {
        CmdAction::Done(ExecutionOutput::stderr("pwd: expected 0 args".to_owned()))
    }
}

/// The line the shell prints for a name that is no command.
pub fn command_not_found_message(line: &str) -> (r: String)
    ensures
        r@ == line@ + ": command not found"@,
{
    concat_str(line, ": command not found")
}

} // verus!
