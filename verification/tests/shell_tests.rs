use rshell::args::parse_args;
use rshell::args::LexError;
use rshell::command::Cmd;
use rshell::command::CmdAction;
use rshell::command::CmdInput;
use rshell::command::CmdOutput;
use rshell::command::ExecutionOutput;
use rshell::command::StdinPlan;
use rshell::command::command_not_found_message;
use rshell::history::History;
use rshell::history::HistoryNavigation;
use rshell::history::split_lines;
use rshell::input::EditorOutcome;
use rshell::input::EditorReaction;
use rshell::input::EditorState;
use rshell::input::editor_step;
use rshell::pipeline::StagePlan;
use rshell::pipeline::pipeline_step;
use rshell::tab_completions::TabCompletionsCtx;
use rshell::tab_completions::setup_cmd_completions;
use rshell::trie::Trie;
use rshell::utils::expand_tilda;
use rshell::utils::find_command;
use rshell::utils::split_vec_by_delimiter;
use rshell::writer::CmdOutputWriter;
use rshell::writer::Redirection;
use rshell::writer::WriteAction;
use rshell::writer::file_payload;
use rshell::ansi_codes::AnsiCode;

fn argv(stage: &(Vec<String>, Redirection)) -> Vec<&str> {
    stage.0.iter().map(|s| s.as_str()).collect()
}

#[test]
fn lex_plain_words() {
    let stages = parse_args("echo hello world".to_string()).unwrap();
    assert_eq!(stages.len(), 1);
    assert_eq!(argv(&stages[0]), vec!["echo", "hello", "world"]);
    assert!(matches!(stages[0].1, Redirection::Terminal));
}

#[test]
fn lex_double_quoted_plain_word() {
    let stages = parse_args("\"hello\"".to_string()).unwrap();
    assert_eq!(stages.len(), 1);
    assert_eq!(argv(&stages[0]), vec!["hello"]);
    assert!(matches!(stages[0].1, Redirection::Terminal));
}

#[test]
fn lex_single_quotes_keep_spaces() {
    let stages = parse_args("echo 'a b'".to_string()).unwrap();
    assert_eq!(stages.len(), 1);
    assert_eq!(argv(&stages[0]), vec!["echo", "a b"]);
}

#[test]
fn lex_quotes_inside_other_quotes() {
    let stages = parse_args("echo \"a'b\"".to_string()).unwrap();
    assert_eq!(argv(&stages[0]), vec!["echo", "a'b"]);

    let stages = parse_args("echo 'a\"b'".to_string()).unwrap();
    assert_eq!(argv(&stages[0]), vec!["echo", "a\"b"]);
}

#[test]
fn lex_escaped_space() {
    let stages = parse_args("echo \\ a".to_string()).unwrap();
    assert_eq!(stages.len(), 1);
    assert_eq!(argv(&stages[0]), vec!["echo", " a"]);
}

#[test]
fn lex_escapes_in_double_quotes() {
    // only backslash and double quote drop their backslash
    let stages = parse_args("echo \"\\\"hi\\\"\"".to_string()).unwrap();
    assert_eq!(argv(&stages[0]), vec!["echo", "\"hi\""]);

    let stages = parse_args("echo \"a\\xb\"".to_string()).unwrap();
    assert_eq!(argv(&stages[0]), vec!["echo", "a\\xb"]);
}

#[test]
fn lex_pipe_splits_stages() {
    let stages = parse_args("a | b".to_string()).unwrap();
    assert_eq!(stages.len(), 2);
    assert_eq!(argv(&stages[0]), vec!["a"]);
    assert_eq!(argv(&stages[1]), vec!["b"]);
}

#[test]
fn lex_stdout_redirection() {
    let stages = parse_args("echo hi > out".to_string()).unwrap();
    assert_eq!(stages.len(), 1);
    assert_eq!(argv(&stages[0]), vec!["echo", "hi"]);
    match &stages[0].1 {
        Redirection::Stdout { file_path, append } => {
            assert_eq!(file_path, "out");
            assert!(!append);
        },
        _ => panic!("expected a stdout redirection"),
    }

    let stages = parse_args("echo hi >> out".to_string()).unwrap();
    match &stages[0].1 {
        Redirection::Stdout { file_path, append } => {
            assert_eq!(file_path, "out");
            assert!(append);
        },
        _ => panic!("expected an appending stdout redirection"),
    }
}

#[test]
fn lex_stderr_redirection_and_last_wins() {
    let stages = parse_args("x 2> e".to_string()).unwrap();
    match &stages[0].1 {
        Redirection::Stderr { file_path, append } => {
            assert_eq!(file_path, "e");
            assert!(!append);
        },
        _ => panic!("expected a stderr redirection"),
    }

    // the last operator wins
    let stages = parse_args("x > a > b".to_string()).unwrap();
    assert_eq!(argv(&stages[0]), vec!["x"]);
    match &stages[0].1 {
        Redirection::Stdout { file_path, .. } => assert_eq!(file_path, "b"),
        _ => panic!("expected a stdout redirection"),
    }
}

#[test]
fn lex_faults() {
    assert_eq!(
        parse_args("echo >".to_string()).unwrap_err(),
        LexError::MissingRedirectionTarget
    );
    assert_eq!(parse_args("a | | b".to_string()).unwrap_err(), LexError::EmptyStage);
    assert_eq!(parse_args("a |".to_string()).unwrap_err(), LexError::EmptyStage);
    assert_eq!(parse_args("> f".to_string()).unwrap_err(), LexError::EmptyStage);
}

#[test]
fn lex_blank_line_has_no_stages() {
    assert_eq!(parse_args(String::new()).unwrap().len(), 0);
    assert_eq!(parse_args("   ".to_string()).unwrap().len(), 0);
}

fn strings(parts: &[&str]) -> Vec<String> {
    parts.iter().map(|p| p.to_string()).collect()
}

fn stderr_text(action: &CmdAction) -> &str {
    match action {
        CmdAction::Done(ExecutionOutput(None, Some(CmdOutput::Stderr(s)))) => s.as_str(),
        _ => panic!("expected an error output"),
    }
}

fn stdout_text(action: &CmdAction) -> &str {
    match action {
        CmdAction::Done(ExecutionOutput(Some(CmdOutput::Stdout(s)), None)) => s.as_str(),
        _ => panic!("expected a standard output text"),
    }
}

#[test]
fn exit_codes() {
    let action = Cmd::Exit.exec(strings(&["exit"]), None, "", None, String::new());
    assert!(matches!(action, CmdAction::Terminate(255)));

    let action = Cmd::Exit.exec(strings(&["exit", "7"]), None, "", None, String::new());
    assert!(matches!(action, CmdAction::Terminate(7)));

    let action = Cmd::Exit.exec(strings(&["exit", "abc"]), None, "", None, String::new());
    assert_eq!(stderr_text(&action), "exit: invalid code");

    let action = Cmd::Exit.exec(strings(&["exit", "300"]), None, "", None, String::new());
    assert_eq!(stderr_text(&action), "exit: invalid code");

    let action = Cmd::Exit.exec(strings(&["exit", "1", "2"]), None, "", None, String::new());
    assert_eq!(stderr_text(&action), "exit: expected 1 arg at most");
}

#[test]
fn echo_joins_arguments() {
    let action = Cmd::Echo.exec(
        strings(&["echo", "hello", "world"]),
        None,
        "",
        None,
        String::new(),
    );
    assert_eq!(stdout_text(&action), "hello world");

    let action = Cmd::Echo.exec(strings(&["echo", "a   b", "c"]), None, "", None, String::new());
    assert_eq!(stdout_text(&action), "a   b c");

    let action = Cmd::Echo.exec(strings(&["echo"]), None, "", None, String::new());
    assert_eq!(stdout_text(&action), "");
}

#[test]
fn pwd_reports_the_working_directory() {
    let action = Cmd::Pwd.exec(strings(&["pwd"]), None, "", None, "/tmp/somewhere".to_string());
    assert_eq!(stdout_text(&action), "/tmp/somewhere");

    let action = Cmd::Pwd.exec(strings(&["pwd", "x"]), None, "", None, String::new());
    assert_eq!(stderr_text(&action), "pwd: expected 0 args");
}

#[test]
fn cd_expands_tilde_and_plans_the_change() {
    let action = Cmd::Cd.exec(
        strings(&["cd", "~/docs"]),
        None,
        "",
        Some("/home/u"),
        String::new(),
    );
    match action {
        CmdAction::ChangeDir { target, failure } => {
            assert_eq!(target, "/home/u/docs");
            match failure {
                ExecutionOutput(None, Some(CmdOutput::Stderr(s))) => {
                    assert_eq!(s, "cd: ~/docs: No such file or directory");
                },
                _ => panic!("expected the cd failure message"),
            }
        },
        _ => panic!("expected a directory change"),
    }

    let action = Cmd::Cd.exec(strings(&["cd", "/abs"]), None, "", Some("/home/u"), String::new());
    match action {
        CmdAction::ChangeDir { target, .. } => assert_eq!(target, "/abs"),
        _ => panic!("expected a directory change"),
    }

    let action = Cmd::Cd.exec(strings(&["cd", "a", "b"]), None, "", None, String::new());
    assert_eq!(stderr_text(&action), "cd: expected 1 arg at most");
}

#[test]
fn type_names_builtins_and_strangers() {
    let action = Cmd::Type.exec(strings(&["type", "echo"]), None, "", None, String::new());
    assert_eq!(stdout_text(&action), "echo is a shell builtin");

    let action = Cmd::Type.exec(
        strings(&["type", "no_such_command_zzz"]),
        None,
        "/nonexistent_dir_zzz",
        None,
        String::new(),
    );
    assert_eq!(stderr_text(&action), "no_such_command_zzz: not found");

    let action = Cmd::Type.exec(strings(&["type"]), None, "", None, String::new());
    assert_eq!(stderr_text(&action), "type: expected 1 arg");
}

#[test]
fn spawn_plan_carries_args_and_stdin() {
    let exe = match Cmd::from_name("definitely_missing_zzz".to_string(), "/nonexistent_dir_zzz") {
        Cmd::Unknown => true,
        _ => false,
    };
    assert!(exe);
    assert!(matches!(Cmd::from_name("echo".to_string(), ""), Cmd::Echo));
    assert!(matches!(Cmd::from_name("cd".to_string(), ""), Cmd::Cd));

    let cmd = Cmd::Executable(rshell::command::ExecutableCmd {
        cmd: "cat".to_string(),
        path: "/bin/cat".to_string(),
    });
    let action = cmd.exec(
        strings(&["cat", "-n"]),
        Some(CmdInput::Text("pipe".to_string())),
        "",
        None,
        String::new(),
    );
    match action {
        CmdAction::Spawn { program, args, stdin, failure } => {
            // the resolved path is spawned, not the bare name
            assert_eq!(program, "/bin/cat");
            assert_eq!(args, strings(&["-n"]));
            match stdin {
                StdinPlan::WriteBytes(bytes) => assert_eq!(bytes, b"pipe".to_vec()),
                _ => panic!("expected bytes for the child's stdin"),
            }
            match failure {
                ExecutionOutput(None, Some(CmdOutput::Stderr(s))) => {
                    assert_eq!(s, "cat: failed to execute");
                },
                _ => panic!("expected the spawn failure message"),
            }
        },
        _ => panic!("expected a spawn plan"),
    }
}

#[test]
fn unknown_command_message() {
    assert_eq!(command_not_found_message("foo bar"), "foo bar: command not found");
    let action = Cmd::Unknown.exec(strings(&["foo"]), None, "", None, String::new());
    assert!(matches!(action, CmdAction::Done(ExecutionOutput(None, None))));
}

#[test]
fn pipeline_pipes_builtin_text() {
    let plan = pipeline_step(
        ExecutionOutput::stdout("pipe".to_string()),
        &Redirection::Terminal,
        true,
    );
    match plan {
        StagePlan::PipeNext(CmdInput::Text(s)) => assert_eq!(s, "pipe"),
        _ => panic!("expected the text to flow to the next stage"),
    }
}

#[test]
fn pipeline_stdout_redirection_cancels_piping() {
    let plan = pipeline_step(
        ExecutionOutput::stdout("data".to_string()),
        &Redirection::Stdout { file_path: "f".to_string(), append: false },
        true,
    );
    assert!(matches!(plan, StagePlan::Write(_)));

    // and the last stage always writes
    let plan = pipeline_step(
        ExecutionOutput::stdout("data".to_string()),
        &Redirection::Terminal,
        false,
    );
    assert!(matches!(plan, StagePlan::Write(_)));

    // standard error redirection preserves piping
    let plan = pipeline_step(
        ExecutionOutput::stdout("data".to_string()),
        &Redirection::Stderr { file_path: "e".to_string(), append: false },
        true,
    );
    assert!(matches!(plan, StagePlan::PipeNext(CmdInput::Text(_))));
}

#[test]
fn appending_twice_injects_one_newline() {
    // an initially empty file, appended to twice, ends as "hi\nhi"
    let first = file_payload(&b"hi".to_vec(), true, false);
    assert_eq!(first, b"hi".to_vec());
    let second = file_payload(&b"hi".to_vec(), true, true);
    assert_eq!(second, b"\nhi".to_vec());
    let mut file = first.clone();
    file.extend(second.clone());
    assert_eq!(file, b"hi\nhi".to_vec());
}

#[test]
fn writer_routes_by_redirection() {
    let w = CmdOutputWriter::new(Redirection::Terminal);
    let actions = w.output_string("one two");
    assert_eq!(actions.len(), 1);
    match &actions[0] {
        WriteAction::TerminalOut { data, newline } => {
            assert_eq!(data, &b"one two".to_vec());
            assert!(*newline);
        },
        _ => panic!("expected terminal output"),
    }

    let w = CmdOutputWriter::new(Redirection::Stdout {
        file_path: "f".to_string(),
        append: false,
    });
    let actions = w.output_string("one two");
    assert_eq!(actions.len(), 1);
    match &actions[0] {
        WriteAction::FileWrite { path, append, data, newline_if_nonempty } => {
            assert_eq!(path, "f");
            assert!(!*append);
            assert_eq!(data, &b"one two".to_vec());
            assert!(*newline_if_nonempty);
        },
        _ => panic!("expected a file write"),
    }

    // stderr redirection: stdout data still reaches the terminal, the file is
    // only touched
    let w = CmdOutputWriter::new(Redirection::Stderr {
        file_path: "e".to_string(),
        append: true,
    });
    let (actions, wrote) = w.output(b"x");
    assert!(wrote);
    assert_eq!(actions.len(), 2);
    assert!(matches!(&actions[0], WriteAction::TerminalOut { .. }));
    assert!(matches!(&actions[1], WriteAction::Touch { .. }));
}

#[test]
fn writer_finishes_terminal_byte_output_on_a_fresh_line() {
    // stderr bytes with no redirection reach the terminal; without a final
    // line feed the writer asks for one
    let w = CmdOutputWriter::new(Redirection::Terminal);
    let actions = w.write_cmd_output(CmdOutput::StderrBytes(b"oops".to_vec()));
    assert_eq!(actions.len(), 2);
    match &actions[0] {
        WriteAction::TerminalErr { data, newline } => {
            assert_eq!(data, &b"oops".to_vec());
            assert!(!*newline);
        },
        _ => panic!("expected terminal error output"),
    }
    assert!(matches!(&actions[1], WriteAction::TerminalErr { newline: true, .. }));

    // bytes that already end in a line feed get no extra one
    let actions = w.write_cmd_output(CmdOutput::StdoutBytes(b"done\n".to_vec()));
    assert_eq!(actions.len(), 1);
}

#[test]
fn editor_echoes_and_edits() {
    let history = History::new();
    let trie = Trie::new();
    let mut state = EditorState::new(&history);

    let (reaction, outcome) = editor_step(&mut state, b'h', &trie, &history);
    assert!(matches!(reaction, EditorReaction::Echo(b'h')));
    assert!(matches!(outcome, EditorOutcome::Continue));
    let (_, _) = editor_step(&mut state, b'i', &trie, &history);
    assert_eq!(state.input, b"hi".to_vec());

    let (reaction, _) = editor_step(&mut state, 0x7F, &trie, &history);
    assert!(matches!(reaction, EditorReaction::Backspace));
    assert_eq!(state.input, b"h".to_vec());

    let (reaction, outcome) = editor_step(&mut state, b'\n', &trie, &history);
    assert!(matches!(reaction, EditorReaction::CrLf));
    match outcome {
        EditorOutcome::Submit(line) => assert_eq!(line, "h"),
        _ => panic!("expected the line to be submitted"),
    }
}

#[test]
fn editor_cancels_on_ctrl_c() {
    let history = History::new();
    let trie = Trie::new();
    let mut state = EditorState::new(&history);
    let (reaction, outcome) = editor_step(&mut state, 3, &trie, &history);
    assert!(matches!(reaction, EditorReaction::CrLf));
    assert!(matches!(outcome, EditorOutcome::Cancel));
}

#[test]
fn editor_navigates_history_with_arrows() {
    let mut history = History::new();
    history.push("first");
    history.push("second");
    let trie = Trie::new();
    let mut state = EditorState::new(&history);

    let (r, _) = editor_step(&mut state, 27, &trie, &history);
    assert!(matches!(r, EditorReaction::Quiet));
    let (r, _) = editor_step(&mut state, 91, &trie, &history);
    assert!(matches!(r, EditorReaction::Quiet));
    let (r, _) = editor_step(&mut state, 65, &trie, &history);
    match r {
        EditorReaction::Redraw(line) => assert_eq!(line, b"second".to_vec()),
        _ => panic!("expected the previous entry"),
    }

    // down past the end shows the typed buffer again
    let (_, _) = editor_step(&mut state, 27, &trie, &history);
    let (_, _) = editor_step(&mut state, 91, &trie, &history);
    let (r, _) = editor_step(&mut state, 66, &trie, &history);
    match r {
        EditorReaction::Redraw(line) => assert_eq!(line, b"".to_vec()),
        _ => panic!("expected the buffer redraw"),
    }
}

#[test]
fn editor_completes_a_unique_word() {
    let history = History::new();
    let mut trie = Trie::new();
    trie.insert("echo");
    let mut state = EditorState::new(&history);
    editor_step(&mut state, b'e', &trie, &history);
    editor_step(&mut state, b'c', &trie, &history);

    let (reaction, _) = editor_step(&mut state, 9, &trie, &history);
    match reaction {
        EditorReaction::Redraw(line) => assert_eq!(line, b"echo ".to_vec()),
        _ => panic!("expected the completed command"),
    }
    assert_eq!(state.input, b"echo ".to_vec());
}

#[test]
fn editor_rings_bell_without_completions() {
    let history = History::new();
    let trie = Trie::new();
    let mut state = EditorState::new(&history);
    editor_step(&mut state, b'x', &trie, &history);
    let (reaction, _) = editor_step(&mut state, 9, &trie, &history);
    assert!(matches!(reaction, EditorReaction::Bell));
    assert!(!state.tab_ctx.enabled);
}

#[test]
fn editor_extends_to_the_common_prefix_then_lists() {
    let history = History::new();
    let mut trie = Trie::new();
    trie.insert("apple");
    trie.insert("application");
    let mut state = EditorState::new(&history);
    editor_step(&mut state, b'a', &trie, &history);

    // first TAB: extend "a" to the common prefix "appl"
    let (reaction, _) = editor_step(&mut state, 9, &trie, &history);
    match reaction {
        EditorReaction::Redraw(line) => assert_eq!(line, b"appl".to_vec()),
        _ => panic!("expected the common prefix"),
    }
    assert_eq!(state.input, b"appl".to_vec());
    assert!(state.tab_ctx.enabled);

    // second TAB: the listing is armed, so the completions are printed
    let (reaction, _) = editor_step(&mut state, 9, &trie, &history);
    match reaction {
        EditorReaction::ListCompletions(c) => {
            assert!(c.contains(&"apple".to_string()));
            assert!(c.contains(&"application".to_string()));
            assert_eq!(c.len(), 2);
        },
        _ => panic!("expected the completion listing"),
    }
}

#[test]
fn editor_bells_when_no_progress_is_possible() {
    let history = History::new();
    let mut trie = Trie::new();
    trie.insert("apple");
    trie.insert("append");
    let mut state = EditorState::new(&history);
    editor_step(&mut state, b'a', &trie, &history);
    editor_step(&mut state, b'p', &trie, &history);
    editor_step(&mut state, b'p', &trie, &history);

    // "app" is already the longest common extension: bell, and arm the listing
    let (reaction, _) = editor_step(&mut state, 9, &trie, &history);
    assert!(matches!(reaction, EditorReaction::Bell));
    assert!(state.tab_ctx.enabled);
    assert_eq!(state.input, b"app".to_vec());
}

#[test]
fn history_navigation_moves_within_bounds() {
    let stack = vec!["first".to_string(), "second".to_string()];
    let mut nav = HistoryNavigation::from_size(2);
    assert_eq!(nav.previous(&stack), Some(&"second".to_string()));
    assert_eq!(nav.previous(&stack), Some(&"first".to_string()));
    assert_eq!(nav.previous(&stack), Some(&"first".to_string()));
    assert_eq!(nav.next(&stack), Some(&"second".to_string()));
    assert_eq!(nav.next(&stack), None);
    assert_eq!(nav.next(&stack), None);
}

#[test]
fn history_renders_one_line_per_entry() {
    let mut history = History::new();
    history.push("echo a");
    history.push("pwd");
    assert_eq!(history.render(), "echo a\npwd\n");

    let mut history = History::from_lines(vec!["x".to_string()]);
    history.extend_from_lines(vec!["y".to_string(), "z".to_string()]);
    assert_eq!(history.render(), "x\ny\nz\n");
    history.set_from_lines(vec!["only".to_string()]);
    assert_eq!(history.render(), "only\n");
}

#[test]
fn splitting_rendered_history_round_trips() {
    let mut history = History::new();
    history.push("echo a");
    history.push("pwd");
    assert_eq!(split_lines(&history.render()), vec!["echo a".to_string(), "pwd".to_string()]);

    assert_eq!(split_lines(""), Vec::<String>::new());
    assert_eq!(split_lines("a\n\nb"), vec!["a".to_string(), String::new(), "b".to_string()]);
    assert_eq!(split_lines("a"), vec!["a".to_string()]);
}

#[test]
fn completion_index_holds_builtins_and_executables() {
    let trie = setup_cmd_completions(&vec!["ls".to_string(), "cat".to_string()]);
    assert!(trie.search("echo"));
    assert!(trie.search("exit"));
    assert!(trie.search("type"));
    assert!(trie.search("pwd"));
    assert!(trie.search("cd"));
    assert!(trie.search("ls"));
    assert!(trie.search("cat"));
    assert!(!trie.search("ec"));
    assert!(!trie.search("history"));
    assert!(trie.starts_with("ec"));
}

#[test]
fn tab_context_remembers_and_forgets() {
    let mut ctx = TabCompletionsCtx::new();
    assert!(!ctx.is_enabled());
    ctx.set_completions(vec!["a".to_string()]);
    ctx.enable();
    assert!(ctx.is_enabled());
    assert_eq!(ctx.completions.len(), 1);
    ctx.reset();
    assert!(!ctx.is_enabled());
    assert!(ctx.completions.is_empty());
}

#[test]
fn tilde_expansion_and_search_path() {
    assert_eq!(expand_tilda("~/x", "/home/u"), "/home/u/x");
    assert_eq!(expand_tilda("/abs", "/home/u"), "/abs");
    assert_eq!(expand_tilda("~", "/home/u"), "/home/u");
    // only the leading tilde is expanded
    assert_eq!(expand_tilda("~/a~b", "/home/u"), "/home/u/a~b");
    assert_eq!(expand_tilda("a~b", "/home/u"), "a~b");

    assert!(find_command("no_such_cmd_zzz", "/nonexistent_a:/nonexistent_b").is_none());
    assert!(find_command("sh", "/bin:/usr/bin").is_some());
}

#[test]
fn split_vec_drops_empty_groups() {
    let v = strings(&["a", "|", "b", "c", "|", "|", "d"]);
    let groups = split_vec_by_delimiter(v, "|");
    assert_eq!(groups.len(), 3);
    assert_eq!(groups[0], strings(&["a"]));
    assert_eq!(groups[1], strings(&["b", "c"]));
    assert_eq!(groups[2], strings(&["d"]));

    let only = split_vec_by_delimiter(strings(&["|", "|"]), "|");
    assert!(only.is_empty());
}

#[test]
fn ansi_codes_spell_their_sequences() {
    assert_eq!(AnsiCode::CRLF.as_str(), "\r\n");
    assert_eq!(AnsiCode::BEL.as_str(), "\x07");
    assert_eq!(AnsiCode::MoveCursorLeft.as_str(), "\x1b[D");
    assert_eq!(AnsiCode::ClearToEndOfLine.as_bytes(), b"\x1b[K");
    assert_eq!(AnsiCode::CRLF.as_bytes(), b"\r\n");
}
