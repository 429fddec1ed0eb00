//! Lexer for input lines: a single-pass character scanner with quoting and
//! escaping, pipe splitting into stages, and redirection extraction. The spec
//! functions state the scanner rules; `parse_args` returns exactly what they
//! compute, or the fault that discards the whole line.

use vstd::prelude::*;

use crate::strutil::chars_to_string;
use crate::strutil::lemma_chars_deep_view;
use crate::strutil::lemma_deep_view_push;
use crate::strutil::str_to_chars;
use crate::writer::Redirection;
use crate::writer::RedirectionModel;

verus! {

/// An argument list of one stage.
pub type CmdArgs = Vec<String>;

/// Scanner mode: what ends the region being read.
#[derive(Clone, Copy, Debug)]
pub enum WaitFor {
    Space,
    SingleQuote,
    DoubleQuote,
}

/// Why a line is rejected as a whole.
#[derive(Clone, Copy, Debug, PartialEq, Eq)]
pub enum LexError {
    /// A redirection operator with no following path token.
    MissingRedirectionTarget,
    /// A stage with no command: adjacent pipes, a pipe at an end of the
    /// line, or a stage holding nothing but its redirection.
    EmptyStage,
}

impl LexError {
    /// The line the shell prints for this fault.
    pub fn message(&self) -> (r: &'static str)
        ensures
            match self {
                LexError::MissingRedirectionTarget => r@ == "missing redirection target"@,
                LexError::EmptyStage => r@ == "empty pipeline stage"@,
            },
    {
        match self {
            LexError::MissingRedirectionTarget => "missing redirection target",
            LexError::EmptyStage => "empty pipeline stage",
        }
    }
}

/// State of the scanner between characters.
pub struct LexState {
    pub mode: WaitFor,
    pub escaping: bool,
    pub cur: Seq<char>,
    pub toks: Seq<Seq<char>>,
}

/// The scanner's starting state.
pub open spec fn lex_init() -> LexState {
    LexState {
        mode: WaitFor::Space,
        escaping: false,
        cur: Seq::empty(),
        toks: Seq::empty(),
    }
}

/// One character of the scan. With an escape pending the character is taken
/// literally (inside single quotes the backslash comes along; inside double
/// quotes only backslash and double quote drop theirs). Otherwise a space
/// commits the argument outside quotes, a quote toggles its region or is
/// literal inside the other one, a backslash sets the escape, and anything
/// else is appended.
pub open spec fn lex_step(st: LexState, c: char) -> LexState {
    if st.escaping {
        match st.mode {
            WaitFor::Space => LexState { escaping: false, cur: st.cur.push(c), ..st },
            WaitFor::SingleQuote => LexState {
                escaping: false,
                cur: st.cur.push('\\').push(c),
                ..st
            },
            WaitFor::DoubleQuote => {
                if c == '\\' || c == '"' {
                    LexState { escaping: false, cur: st.cur.push(c), ..st }
                } else {
                    LexState { escaping: false, cur: st.cur.push('\\').push(c), ..st }
                }
            },
        }
    } else if c == ' ' {
        match st.mode {
            WaitFor::Space => {
                if st.cur.len() == 0 {
                    st
                } else {
                    LexState { cur: Seq::empty(), toks: st.toks.push(st.cur), ..st }
                }
            },
            _ => LexState { cur: st.cur.push(' '), ..st },
        }
    } else if c == '\'' {
        match st.mode {
            WaitFor::Space => LexState { mode: WaitFor::SingleQuote, ..st },
            WaitFor::SingleQuote => LexState { mode: WaitFor::Space, ..st },
            WaitFor::DoubleQuote => LexState { cur: st.cur.push('\''), ..st },
        }
    } else if c == '"' {
        match st.mode {
            WaitFor::Space => LexState { mode: WaitFor::DoubleQuote, ..st },
            WaitFor::DoubleQuote => LexState { mode: WaitFor::Space, ..st },
            WaitFor::SingleQuote => LexState { cur: st.cur.push('"'), ..st },
        }
    } else if c == '\\' {
        LexState { escaping: true, ..st }
    } else {
        LexState { cur: st.cur.push(c), ..st }
    }
}

/// At end of input any non-empty argument is committed.
pub open spec fn lex_finish(st: LexState) -> Seq<Seq<char>> {
    if st.cur.len() == 0 {
        st.toks
    } else {
        st.toks.push(st.cur)
    }
}

/// The tokens produced by scanning `input` from position `i` in state `st`.
pub open spec fn lex_tokens_from(input: Seq<char>, i: int, st: LexState) -> Seq<Seq<char>>
    decreases input.len() - i,
{
    if i < 0 || i >= input.len() {
        lex_finish(st)
    } else {
        lex_tokens_from(input, i + 1, lex_step(st, input[i]))
    }
}

/// The tokens of a line.
pub open spec fn lex_tokens(input: Seq<char>) -> Seq<Seq<char>> {
    lex_tokens_from(input, 0, lex_init())
}

/// The token that separates stages.
pub open spec fn pipe_token() -> Seq<char> {
    seq!['|']
}

/// Which redirection a token names, as `(stderr, append)`; nothing for any
/// token that is not one of the six operators.
pub open spec fn redir_op_of(t: Seq<char>) -> Option<(bool, bool)> {
    if t == seq!['>'] || t == seq!['1', '>'] {
        Some((false, false))
    } else if t == seq!['>', '>'] || t == seq!['1', '>', '>'] {
        Some((false, true))
    } else if t == seq!['2', '>'] {
        Some((true, false))
    } else if t == seq!['2', '>', '>'] {
        Some((true, true))
    } else {
        None
    }
}

/// Split tokens into stage groups at pipe tokens, keeping empty groups.
pub open spec fn split_groups_from(
    toks: Seq<Seq<char>>,
    i: int,
    cur: Seq<Seq<char>>,
    done: Seq<Seq<Seq<char>>>,
) -> Seq<Seq<Seq<char>>>
    decreases toks.len() - i,
{
    if i < 0 || i >= toks.len() {
        done.push(cur)
    } else if toks[i] == pipe_token() {
        split_groups_from(toks, i + 1, Seq::empty(), done.push(cur))
    } else {
        split_groups_from(toks, i + 1, cur.push(toks[i]), done)
    }
}

/// The stage groups of a token list.
pub open spec fn split_groups(toks: Seq<Seq<char>>) -> Seq<Seq<Seq<char>>> {
    split_groups_from(toks, 0, Seq::empty(), Seq::empty())
}

/// Walk a group left to right: an operator takes the following token as the
/// file path (a later operator wins), every other token stays in the argv.
/// Nothing when an operator ends the group.
pub open spec fn extract_from(
    toks: Seq<Seq<char>>,
    i: int,
    args: Seq<Seq<char>>,
    redir: RedirectionModel,
) -> Option<(Seq<Seq<char>>, RedirectionModel)>
    decreases toks.len() - i,
{
    if i < 0 || i >= toks.len() {
        Some((args, redir))
    } else {
        match redir_op_of(toks[i]) {
            Some(op) => {
                if i + 1 < toks.len() {
                    let r = if op.0 {
                        RedirectionModel::Stderr { file_path: toks[i + 1], append: op.1 }
                    } else {
                        RedirectionModel::Stdout { file_path: toks[i + 1], append: op.1 }
                    };
                    extract_from(toks, i + 2, args, r)
                } else {
                    None
                }
            },
            None => extract_from(toks, i + 1, args.push(toks[i]), redir),
        }
    }
}

/// Turn groups into stages, left to right; the first fault discards the line.
pub open spec fn stages_of_groups(groups: Seq<Seq<Seq<char>>>) -> Result<
    Seq<(Seq<Seq<char>>, RedirectionModel)>,
    LexError,
>
    decreases groups.len(),
{
    if groups.len() == 0 {
        Ok(Seq::empty())
    } else if groups[0].len() == 0 {
        Err(LexError::EmptyStage)
    } else {
        match extract_from(groups[0], 0, Seq::empty(), RedirectionModel::Terminal) {
            None => Err(LexError::MissingRedirectionTarget),
            Some(stage) => {
                if stage.0.len() == 0 {
                    Err(LexError::EmptyStage)
                } else {
                    match stages_of_groups(groups.drop_first()) {
                        Ok(rest) => Ok(seq![stage] + rest),
                        Err(e) => Err(e),
                    }
                }
            },
        }
    }
}

/// What a line means: its stages in pipeline order, or the fault that
/// discards it. A line with no tokens at all means no stages.
pub open spec fn lex_spec(input: Seq<char>) -> Result<
    Seq<(Seq<Seq<char>>, RedirectionModel)>,
    LexError,
> {
    let groups = split_groups(lex_tokens(input));
    if groups.len() == 1 && groups[0].len() == 0 {
        Ok(Seq::empty())
    } else {
        stages_of_groups(groups)
    }
}

/// Deep view of built stages.
pub open spec fn stages_view(stages: Seq<(Vec<String>, Redirection)>) -> Seq<
    (Seq<Seq<char>>, RedirectionModel),
> {
    Seq::new(stages.len(), |i: int| (stages[i].0.deep_view(), stages[i].1@))
}

/// Which redirection operator a token is, if any, as `(stderr, append)`.
fn redir_op(t: &Vec<char>) -> (r: Option<(bool, bool)>)
    ensures
        r == redir_op_of(t@),
{
    proof {
        assert(seq!['>'].len() == 1 && seq!['>'][0] == '>');
        assert(seq!['1', '>'].len() == 2 && seq!['1', '>'][0] == '1' && seq!['1', '>'][1] == '>');
        assert(seq!['>', '>'].len() == 2 && seq!['>', '>'][0] == '>' && seq!['>', '>'][1] == '>');
        assert(seq!['1', '>', '>'].len() == 3 && seq!['1', '>', '>'][0] == '1' && seq![
            '1',
            '>',
            '>',
        ][1] == '>' && seq!['1', '>', '>'][2] == '>');
        assert(seq!['2', '>'].len() == 2 && seq!['2', '>'][0] == '2' && seq!['2', '>'][1] == '>');
        assert(seq!['2', '>', '>'].len() == 3 && seq!['2', '>', '>'][0] == '2' && seq![
            '2',
            '>',
            '>',
        ][1] == '>' && seq!['2', '>', '>'][2] == '>');
    }
    let n = t.len();
    if n == 1 && t[0] == '>' {
        proof {
            assert(t@ =~= seq!['>']);
        }
        Some((false, false))
    } else if n == 2 && t[0] == '1' && t[1] == '>' {
        proof {
            assert(t@ =~= seq!['1', '>']);
        }
        Some((false, false))
    } else if n == 2 && t[0] == '>' && t[1] == '>' {
        proof {
            assert(t@ =~= seq!['>', '>']);
        }
        Some((false, true))
    } else if n == 3 && t[0] == '1' && t[1] == '>' && t[2] == '>' {
        proof {
            assert(t@ =~= seq!['1', '>', '>']);
        }
        Some((false, true))
    } else if n == 2 && t[0] == '2' && t[1] == '>' {
        proof {
            assert(t@ =~= seq!['2', '>']);
        }
        Some((true, false))
    } else if n == 3 && t[0] == '2' && t[1] == '>' && t[2] == '>' {
        proof {
            assert(t@ =~= seq!['2', '>', '>']);
        }
        Some((true, true))
    } else {
        proof {
            assert(redir_op_of(t@) is None);
        }
        None
    }
}

/// Scan a line into its tokens.
fn tokenize(cs: &Vec<char>) -> (r: Vec<Vec<char>>)
    ensures
        r.deep_view() == lex_tokens(cs@),
{
    let mut mode = WaitFor::Space;
    let mut escaping = false;
    let mut arg: Vec<char> = Vec::new();
    let mut toks: Vec<Vec<char>> = Vec::new();
    proof {
        assert(toks.deep_view() =~= Seq::<Seq<char>>::empty());
    }
    let mut i: usize = 0;
    while i < cs.len()
        invariant
            i <= cs@.len(),
            lex_tokens_from(
                cs@,
                i as int,
                LexState { mode, escaping, cur: arg@, toks: toks.deep_view() },
            ) == lex_tokens(cs@),
        decreases cs@.len() - i,
    {
        let ghost pre = LexState { mode, escaping, cur: arg@, toks: toks.deep_view() };
        let c = cs[i];
        if escaping {
            match mode {
                WaitFor::Space => {
                    arg.push(c);
                },
                WaitFor::SingleQuote => {
                    arg.push('\\');
                    arg.push(c);
                },
                WaitFor::DoubleQuote => {
                    if c == '\\' || c == '"' {
                        arg.push(c);
                    } else {
                        arg.push('\\');
                        arg.push(c);
                    }
                },
            }
            escaping = false;
        } else if c == ' ' {
            match mode {
                WaitFor::Space => {
                    if arg.len() > 0 {
                        let ghost toks_pre = toks;
                        let ghost arg_pre = arg;
                        toks.push(arg);
                        arg = Vec::new();
                        proof {
                            lemma_deep_view_push(toks_pre, toks, arg_pre);
                            lemma_chars_deep_view(arg_pre);
                            assert(arg@ =~= Seq::<char>::empty());
                        }
                    }
                },
                _ => {
                    arg.push(' ');
                },
            }
        } else if c == '\'' {
            match mode {
                WaitFor::Space => {
                    mode = WaitFor::SingleQuote;
                },
                WaitFor::SingleQuote => {
                    mode = WaitFor::Space;
                },
                WaitFor::DoubleQuote => {
                    arg.push('\'');
                },
            }
        } else if c == '"' {
            match mode {
                WaitFor::Space => {
                    mode = WaitFor::DoubleQuote;
                },
                WaitFor::DoubleQuote => {
                    mode = WaitFor::Space;
                },
                WaitFor::SingleQuote => {
                    arg.push('"');
                },
            }
        } else if c == '\\' {
            escaping = true;
        } else {
            arg.push(c);
        }
        proof {
            assert(LexState { mode, escaping, cur: arg@, toks: toks.deep_view() } == lex_step(
                pre,
                c,
            ));
        }
        i = i + 1;
    }
    if arg.len() > 0 {
        let ghost toks_pre = toks;
        let ghost arg_pre = arg;
        toks.push(arg);
        proof {
            lemma_deep_view_push(toks_pre, toks, arg_pre);
            lemma_chars_deep_view(arg_pre);
        }
    }
    toks
}

/// Walk one stage's tokens: each redirection operator takes the following
/// token as its file path (a later operator wins, and one without a path is
/// the fault that discards the line); every other token stays in the argv.
fn extract_redirection(group: &Vec<Vec<char>>) -> (r: Result<(CmdArgs, Redirection), LexError>)
    ensures
        match r {
            Ok(stage) => extract_from(
                group.deep_view(),
                0,
                Seq::empty(),
                RedirectionModel::Terminal,
            ) == Some((stage.0.deep_view(), stage.1@)),
            Err(e) => e == LexError::MissingRedirectionTarget && extract_from(
                group.deep_view(),
                0,
                Seq::empty(),
                RedirectionModel::Terminal,
            ) is None,
        },
{
    let ghost gdv = group.deep_view();
    let mut args: Vec<String> = Vec::new();
    let mut redir = Redirection::Terminal;
    proof {
        assert(args.deep_view() =~= Seq::<Seq<char>>::empty());
    }
    let mut t: usize = 0;
    while t < group.len()
        invariant
            t <= group@.len(),
            gdv == group.deep_view(),
            extract_from(gdv, t as int, args.deep_view(), redir@) == extract_from(
                gdv,
                0,
                Seq::empty(),
                RedirectionModel::Terminal,
            ),
        decreases group@.len() - t,
    {
        proof {
            assert(gdv[t as int] == group@[t as int].deep_view());
            lemma_chars_deep_view(group@[t as int]);
        }
        match redir_op(&group[t]) {
            Some(op) => {
                if t + 1 < group.len() {
                    proof {
                        assert(gdv[t as int + 1] == group@[t as int + 1].deep_view());
                        lemma_chars_deep_view(group@[t as int + 1]);
                    }
                    let path = chars_to_string(&group[t + 1]);
                    let (stderr, append) = op;
                    redir = if stderr {
                        Redirection::Stderr { file_path: path, append }
                    } else {
                        Redirection::Stdout { file_path: path, append }
                    };
                    t = t + 2;
                } else {
                    proof {
                        assert(extract_from(gdv, t as int, args.deep_view(), redir@) is None);
                    }
                    return Err(LexError::MissingRedirectionTarget);
                }
            },
            None => {
                let word = chars_to_string(&group[t]);
                let ghost args_pre = args;
                let ghost word_pre = word;
                args.push(word);
                proof {
                    lemma_deep_view_push(args_pre, args, word_pre);
                }
                t = t + 1;
            },
        }
    }
    Ok((args, redir))
}

/// Lex a full command line into its pipeline stages: each stage an argv and
/// its redirection, exactly as the scanner rules say; or the first fault.
pub fn parse_args(full_command: String) -> (r: Result<Vec<(CmdArgs, Redirection)>, LexError>)
    ensures
        match r {
            Ok(stages) => lex_spec(full_command@) == Ok::<_, LexError>(stages_view(stages@)),
            Err(e) => lex_spec(full_command@) == Err::<Seq<(Seq<Seq<char>>, RedirectionModel)>, _>(e),
        },
{
    let cs = str_to_chars(full_command.as_str());
    let toks = tokenize(&cs);
    let ghost tv = toks.deep_view();
    // split into stage groups at pipe tokens, keeping empty groups
    let mut groups: Vec<Vec<Vec<char>>> = Vec::new();
    let mut cur: Vec<Vec<char>> = Vec::new();
    proof {
        assert(groups.deep_view() =~= Seq::<Seq<Seq<char>>>::empty());
        assert(cur.deep_view() =~= Seq::<Seq<char>>::empty());
    }
    let mut i: usize = 0;
    while i < toks.len()
        invariant
            i <= toks@.len(),
            tv == toks.deep_view(),
            split_groups_from(tv, i as int, cur.deep_view(), groups.deep_view()) == split_groups(
                tv,
            ),
        decreases toks@.len() - i,
    {
        proof {
            assert(toks.deep_view()[i as int] == toks@[i as int].deep_view());
            lemma_chars_deep_view(toks@[i as int]);
        }
        if is_pipe(&toks[i]) {
            let ghost groups_pre = groups;
            let ghost cur_pre = cur;
            groups.push(cur);
            cur = Vec::new();
            proof {
                lemma_deep_view_push(groups_pre, groups, cur_pre);
                assert(cur.deep_view() =~= Seq::<Seq<char>>::empty());
            }
        } else {
            let t = crate::strutil::clone_chars(&toks[i]);
            let ghost cur_pre = cur;
            let ghost t_pre = t;
            cur.push(t);
            proof {
                lemma_deep_view_push(cur_pre, cur, t_pre);
                lemma_chars_deep_view(t_pre);
            }
        }
        i = i + 1;
    }
    let ghost groups_pre = groups;
    let ghost cur_pre = cur;
    groups.push(cur);
    proof {
        lemma_deep_view_push(groups_pre, groups, cur_pre);
    }
    let ghost gv = groups.deep_view();
    proof {
        assert(gv == split_groups(tv));
    }
    // a line of nothing but whitespace has no stages and is not a fault
    if groups.len() == 1 && groups[0].len() == 0 {
        proof {
            assert(gv[0].len() == 0);
            assert(stages_view(Seq::<(Vec<String>, Redirection)>::empty()) =~= Seq::<
                (Seq<Seq<char>>, RedirectionModel),
            >::empty());
        }
        return Ok(Vec::new());
    }
    proof {
        if gv.len() == 1 && gv[0].len() == 0 {
            assert(groups@[0].deep_view().len() == 0);
            assert(false);
        }
        assert(lex_spec(full_command@) == stages_of_groups(gv));
    }
    // extract each group into a stage
    let mut stages: Vec<(CmdArgs, Redirection)> = Vec::new();
    let mut g: usize = 0;
    proof {
        assert(gv.skip(0) =~= gv);
        assert(stages_view(stages@) =~= Seq::<(Seq<Seq<char>>, RedirectionModel)>::empty());
        if stages_of_groups(gv) is Ok {
            assert(stages_view(stages@) + stages_of_groups(gv)->Ok_0 =~= stages_of_groups(
                gv,
            )->Ok_0);
        }
    }
    while g < groups.len()
        invariant
            g <= groups@.len(),
            gv == groups.deep_view(),
            lex_spec(full_command@) == stages_of_groups(gv),
            stages_of_groups(gv) == (match stages_of_groups(gv.skip(g as int)) {
                Ok(rest) => Ok(stages_view(stages@) + rest),
                Err(e) => Err::<Seq<(Seq<Seq<char>>, RedirectionModel)>, LexError>(e),
            }),
        decreases groups@.len() - g,
    {
        let ghost suffix = gv.skip(g as int);
        proof {
            assert(suffix.len() > 0);
            assert(suffix[0] == gv[g as int]);
            assert(suffix.drop_first() =~= gv.skip(g as int + 1));
        }
        let group = &groups[g];
        proof {
            assert(group.deep_view() == gv[g as int]);
        }
        if group.len() == 0 {
            proof {
                assert(gv[g as int].len() == 0);
                assert(stages_of_groups(suffix) == Err::<
                    Seq<(Seq<Seq<char>>, RedirectionModel)>,
                    LexError,
                >(LexError::EmptyStage));
            }
            return Err(LexError::EmptyStage);
        }
        let ghost gdv = group.deep_view();
        let (args, redir) = match extract_redirection(group) {
            Ok(stage) => stage,
            Err(e) => {
                proof {
                    assert(extract_from(gdv, 0, Seq::empty(), RedirectionModel::Terminal)
                        is None);
                    assert(suffix[0] == gdv);
                    assert(stages_of_groups(suffix) == Err::<
                        Seq<(Seq<Seq<char>>, RedirectionModel)>,
                        LexError,
                    >(LexError::MissingRedirectionTarget));
                }
                return Err(e);
            },
        };
        if args.len() == 0 {
            proof {
                assert(args.deep_view().len() == 0);
                assert(stages_of_groups(suffix) == Err::<
                    Seq<(Seq<Seq<char>>, RedirectionModel)>,
                    LexError,
                >(LexError::EmptyStage));
            }
            return Err(LexError::EmptyStage);
        }
        let ghost stages_pre = stages@;
        let ghost stage_model = (args.deep_view(), redir@);
        stages.push((args, redir));
        proof {
            assert(args.deep_view().len() > 0);
            assert(stages_view(stages@) =~= stages_view(stages_pre).push(stage_model));
            if stages_of_groups(gv.skip(g as int + 1)) is Ok {
                let rest = stages_of_groups(gv.skip(g as int + 1))->Ok_0;
                assert(stages_of_groups(suffix) == Ok::<
                    Seq<(Seq<Seq<char>>, RedirectionModel)>,
                    LexError,
                >(seq![stage_model] + rest));
                assert(stages_view(stages_pre) + (seq![stage_model] + rest) =~= stages_view(
                    stages@,
                ) + rest);
            } else {
                assert(stages_of_groups(suffix) == stages_of_groups(gv.skip(g as int + 1)));
            }
        }
        g = g + 1;
    }
    proof {
        assert(gv.skip(g as int) =~= Seq::<Seq<Seq<char>>>::empty());
        assert(stages_of_groups(gv.skip(g as int)) == Ok::<
            Seq<(Seq<Seq<char>>, RedirectionModel)>,
            LexError,
        >(Seq::empty()));
        assert(stages_view(stages@) + Seq::<(Seq<Seq<char>>, RedirectionModel)>::empty()
            =~= stages_view(stages@));
    }
    Ok(stages)
}

/// Whether a token is the pipe separator.
fn is_pipe(t: &Vec<char>) -> (r: bool)
    ensures
        r == (t@ == pipe_token()),
{
    proof {
        assert(pipe_token().len() == 1 && pipe_token()[0] == '|');
    }
    if t.len() == 1 && t[0] == '|' {
        proof {
            assert(t@ =~= pipe_token());
        }
        true
    } else {
        false
    }
}


/// A character the quoting rules act on.
pub open spec fn is_special_char(c: char) -> bool {
    c == ' ' || c == '\'' || c == '"' || c == '\\' || c == '|'
}

/// Splitting tokens of which none is a pipe leaves one group: everything
/// still unread joins the group being built.
proof fn lemma_split_no_pipes(toks: Seq<Seq<char>>, i: int, cur: Seq<Seq<char>>, done: Seq<Seq<Seq<char>>>)
    requires
        0 <= i <= toks.len(),
        forall|k: int| i <= k < toks.len() ==> #[trigger] toks[k] != pipe_token(),
    ensures
        split_groups_from(toks, i, cur, done) == done.push(cur + toks.skip(i)),
    decreases toks.len() - i,
{
    if i >= toks.len() {
        assert(cur + toks.skip(i) =~= cur);
    } else {
        lemma_split_no_pipes(toks, i + 1, cur.push(toks[i]), done);
        assert(cur.push(toks[i]) + toks.skip(i + 1) =~= cur + toks.skip(i));
    }
}

/// Extracting from tokens of which none is an operator keeps them all in the
/// argv and leaves the redirection alone.
proof fn lemma_extract_no_ops(toks: Seq<Seq<char>>, i: int, acc: Seq<Seq<char>>, redir: RedirectionModel)
    requires
        0 <= i <= toks.len(),
        forall|k: int| i <= k < toks.len() ==> redir_op_of(#[trigger] toks[k]) is None,
    ensures
        extract_from(toks, i, acc, redir) == Some((acc + toks.skip(i), redir)),
    decreases toks.len() - i,
{
    if i >= toks.len() {
        assert(acc + toks.skip(i) =~= acc);
    } else {
        lemma_extract_no_ops(toks, i + 1, acc.push(toks[i]), redir);
        assert(acc.push(toks[i]) + toks.skip(i + 1) =~= acc + toks.skip(i));
    }
}

/// Scanning ordinary characters inside double quotes appends them one by one.
proof fn lemma_scan_plain_in_double_quotes(input: Seq<char>, i: int, j: int, st: LexState)
    requires
        0 <= i <= j <= input.len(),
        st.mode is DoubleQuote,
        !st.escaping,
        forall|k: int| i <= k < j ==> !is_special_char(#[trigger] input[k]),
    ensures
        lex_tokens_from(input, i, st) == lex_tokens_from(
            input,
            j,
            LexState { cur: st.cur + input.subrange(i, j), ..st },
        ),
    decreases j - i,
{
    if i == j {
        assert(st.cur + input.subrange(i, j) =~= st.cur);
        assert(LexState { cur: st.cur + input.subrange(i, j), ..st } == st);
    } else {
        let c = input[i];
        let st1 = lex_step(st, c);
        assert(st1 == LexState { cur: st.cur.push(c), ..st });
        lemma_scan_plain_in_double_quotes(input, i + 1, j, st1);
        assert(st.cur.push(c) + input.subrange(i + 1, j) =~= st.cur + input.subrange(i, j));
    }
}

/// Law: a word without quote, backslash, pipe or space characters, wrapped in
/// double quotes, lexes to a single stage whose argv is just that word, with
/// no redirection. (An operator token such as `>` is the one exception: it is
/// read as a redirection even when it was quoted.)
pub proof fn lemma_double_quoted_word(s: Seq<char>)
    requires
        s.len() > 0,
        forall|k: int| 0 <= k < s.len() ==> !is_special_char(#[trigger] s[k]),
        redir_op_of(s) is None,
    ensures
        lex_spec(seq!['"'] + s + seq!['"']) == Ok::<_, LexError>(
            seq![(seq![s], RedirectionModel::Terminal)],
        ),
{
    let input = seq!['"'] + s + seq!['"'];
    let n = s.len() as int;
    assert(input.len() == n + 2);
    assert(input[0] == '"');
    assert(input[n + 1] == '"');
    assert(forall|k: int| 0 <= k < s.len() ==> #[trigger] input[k + 1] == s[k]);
    // opening quote
    let st0 = lex_init();
    let st1 = lex_step(st0, '"');
    assert(st1 == LexState {
        mode: WaitFor::DoubleQuote,
        escaping: false,
        cur: Seq::empty(),
        toks: Seq::empty(),
    });
    // the word itself
    assert(forall|k: int| 1 <= k < n + 1 ==> !is_special_char(#[trigger] input[k])) by {
        assert(forall|k: int| 1 <= k < n + 1 ==> input[k] == #[trigger] s[k - 1]);
    }
    lemma_scan_plain_in_double_quotes(input, 1, n + 1, st1);
    let st2 = LexState { cur: st1.cur + input.subrange(1, n + 1), ..st1 };
    assert(st2.cur =~= s) by {
        assert(input.subrange(1, n + 1) =~= s);
    }
    // closing quote
    let st3 = lex_step(st2, input[n + 1]);
    assert(st3 == LexState { mode: WaitFor::Space, ..st2 });
    assert(lex_tokens_from(input, n + 2, st3) == lex_finish(st3));
    assert(lex_finish(st3) =~= seq![s]) by {
        assert(st3.cur == st2.cur);
        assert(st3.toks.push(st3.cur) =~= seq![s]);
    }
    assert(lex_tokens(input) == seq![s]);
    // one group, no pipe
    let toks = seq![s];
    assert(toks[0] != pipe_token()) by {
        if s == pipe_token() {
            assert(s[0] == '|');
            assert(is_special_char(s[0]));
        }
    }
    lemma_split_no_pipes(toks, 0, Seq::empty(), Seq::empty());
    let groups = split_groups(toks);
    assert(groups == Seq::<Seq<Seq<char>>>::empty().push(
        Seq::<Seq<char>>::empty() + toks.skip(0),
    ));
    assert(groups =~= seq![toks]) by {
        assert(Seq::<Seq<char>>::empty() + toks.skip(0) =~= toks);
    }
    assert(groups.len() == 1 && groups[0].len() == 1);
    // one stage, no redirection
    lemma_extract_no_ops(toks, 0, Seq::empty(), RedirectionModel::Terminal);
    assert(extract_from(toks, 0, Seq::empty(), RedirectionModel::Terminal) == Some(
        ((Seq::<Seq<char>>::empty() + toks.skip(0)), RedirectionModel::Terminal),
    ));
    assert(Seq::<Seq<char>>::empty() + toks.skip(0) =~= toks);
    assert(stages_of_groups(groups.drop_first()) == Ok::<
        Seq<(Seq<Seq<char>>, RedirectionModel)>,
        LexError,
    >(Seq::empty())) by {
        assert(groups.drop_first().len() == 0);
    }
    assert(stages_of_groups(groups) == Ok::<Seq<(Seq<Seq<char>>, RedirectionModel)>, LexError>(
        seq![(toks, RedirectionModel::Terminal)] + Seq::empty(),
    ));
    assert(seq![(toks, RedirectionModel::Terminal)] + Seq::empty() =~= seq![
        (seq![s], RedirectionModel::Terminal),
    ]);
}

/// Characters that stay exactly themselves inside single quotes: no lone
/// backslash at the end (it would swallow the closing quote) and no unescaped
/// single quote (it would close the region early).
pub open spec fn sq_literal(x: Seq<char>) -> bool
    decreases x.len(),
{
    if x.len() == 0 {
        true
    } else if x[0] == '\\' {
        x.len() >= 2 && sq_literal(x.skip(2))
    } else if x[0] == '\'' {
        false
    } else {
        sq_literal(x.skip(1))
    }
}

/// A word wrapped in single quotes.
pub open spec fn quote_single(x: Seq<char>) -> Seq<char> {
    seq!['\''] + x + seq!['\'']
}

/// The elements each wrapped in single quotes and joined with single spaces.
pub open spec fn requote_join(args: Seq<Seq<char>>) -> Seq<char>
    decreases args.len(),
{
    if args.len() == 0 {
        Seq::empty()
    } else if args.len() == 1 {
        quote_single(args[0])
    } else {
        quote_single(args[0]) + seq![' '] + requote_join(args.drop_first())
    }
}

/// Scanning a literal word inside single quotes appends exactly the word.
proof fn lemma_scan_in_single_quotes(input: Seq<char>, i: int, x: Seq<char>, st: LexState)
    requires
        0 <= i,
        i + x.len() <= input.len(),
        st.mode is SingleQuote,
        !st.escaping,
        sq_literal(x),
        forall|k: int| 0 <= k < x.len() ==> #[trigger] input[i + k] == x[k],
    ensures
        lex_tokens_from(input, i, st) == lex_tokens_from(
            input,
            i + x.len(),
            LexState { cur: st.cur + x, ..st },
        ),
    decreases x.len(),
{
    if x.len() == 0 {
        assert(st.cur + x =~= st.cur);
        assert(LexState { cur: st.cur + x, ..st } == st);
    } else if x[0] == '\\' {
        assert(input[i + 0] == x[0]);
        let st1 = lex_step(st, input[i]);
        assert(st1 == LexState { escaping: true, ..st });
        assert(input[i + 1] == x[1]);
        let st2 = lex_step(st1, input[i + 1]);
        assert(st2 == LexState { escaping: false, cur: st.cur.push('\\').push(x[1]), ..st });
        assert forall|k: int| 0 <= k < x.skip(2).len() implies #[trigger] input[(i + 2) + k]
            == x.skip(2)[k] by {
            assert(input[i + (k + 2)] == x[k + 2]);
            assert(x.skip(2)[k] == x[k + 2]);
        }
        lemma_scan_in_single_quotes(input, i + 2, x.skip(2), st2);
        assert(st.cur.push('\\').push(x[1]) + x.skip(2) =~= st.cur + x);
        assert(lex_tokens_from(input, i, st) == lex_tokens_from(input, i + 1, st1));
        assert(lex_tokens_from(input, i + 1, st1) == lex_tokens_from(input, i + 2, st2));
        assert((i + 2) + x.skip(2).len() == i + x.len());
        assert(LexState { cur: st2.cur + x.skip(2), ..st2 } == LexState { cur: st.cur + x, ..st });
    } else {
        assert(input[i + 0] == x[0]);
        let st1 = lex_step(st, input[i]);
        assert(x[0] != '\'');
        assert(st1 == LexState { cur: st.cur.push(x[0]), ..st });
        assert forall|k: int| 0 <= k < x.skip(1).len() implies #[trigger] input[(i + 1) + k]
            == x.skip(1)[k] by {
            assert(input[i + (k + 1)] == x[k + 1]);
            assert(x.skip(1)[k] == x[k + 1]);
        }
        lemma_scan_in_single_quotes(input, i + 1, x.skip(1), st1);
        assert(st.cur.push(x[0]) + x.skip(1) =~= st.cur + x);
        assert(lex_tokens_from(input, i, st) == lex_tokens_from(input, i + 1, st1));
        assert((i + 1) + x.skip(1).len() == i + x.len());
        assert(LexState { cur: st1.cur + x.skip(1), ..st1 } == LexState { cur: st.cur + x, ..st });
    }
}

/// Scanning the re-quoted words from a committed position yields exactly the
/// words as further tokens.
proof fn lemma_requote_tokens(input: Seq<char>, i: int, args: Seq<Seq<char>>, st: LexState)
    requires
        0 <= i <= input.len(),
        input.len() - i == requote_join(args).len(),
        forall|k: int| 0 <= k < requote_join(args).len() ==> #[trigger] input[i + k]
            == requote_join(args)[k],
        st.mode is Space,
        !st.escaping,
        st.cur.len() == 0,
        args.len() > 0,
        forall|k: int| 0 <= k < args.len() ==> (#[trigger] args[k]).len() > 0 && sq_literal(
            args[k],
        ),
    ensures
        lex_tokens_from(input, i, st) == st.toks + args,
    decreases args.len(),
{
    let x = args[0];
    let q = quote_single(x);
    let r = requote_join(args);
    let xn = x.len() as int;
    assert(q.len() == xn + 2);
    assert forall|k: int| 0 <= k < q.len() implies #[trigger] r[k] == q[k] by {
        if args.len() > 1 {
            assert((q + seq![' '] + requote_join(args.drop_first()))[k] == q[k]);
        }
    }
    // opening quote
    assert(input[i + 0] == r[0]);
    assert(q[0] == '\'');
    assert(input[i] == '\'');
    let st1 = lex_step(st, input[i]);
    assert(st1 == LexState { mode: WaitFor::SingleQuote, ..st });
    // the word
    assert forall|k: int| 0 <= k < x.len() implies #[trigger] input[(i + 1) + k] == x[k] by {
        assert(input[i + (k + 1)] == r[k + 1]);
        assert(q[k + 1] == x[k]) by {
            assert((seq!['\''] + x + seq!['\''])[k + 1] == x[k]);
        }
        assert(r[k + 1] == q[k + 1]);
    }
    lemma_scan_in_single_quotes(input, i + 1, x, st1);
    let st2 = LexState { cur: st1.cur + x, ..st1 };
    assert(st2.cur =~= x);
    assert(lex_tokens_from(input, i, st) == lex_tokens_from(input, i + 1, st1));
    assert(lex_tokens_from(input, i + 1, st1) == lex_tokens_from(input, (i + 1) + x.len(), st2));
    // closing quote
    assert(input[i + (xn + 1)] == r[xn + 1]);
    assert(q[xn + 1] == '\'') by {
        assert((seq!['\''] + x + seq!['\''])[xn + 1] == '\'');
    }
    assert(input[i + 1 + x.len()] == '\'');
    let st3 = lex_step(st2, input[i + 1 + x.len()]);
    assert(st3 == LexState { mode: WaitFor::Space, ..st2 });
    let after = i + xn + 2;
    assert(lex_tokens_from(input, i + 1 + xn, st2) == lex_tokens_from(input, after, st3));
    assert(lex_tokens_from(input, i, st) == lex_tokens_from(input, after, st3));
    if args.len() == 1 {
        assert(after == input.len());
        assert(lex_tokens_from(input, after, st3) == lex_finish(st3));
        assert(st3.cur.len() > 0);
        assert(lex_finish(st3) == st3.toks.push(st3.cur));
        assert(st3.cur == x);
        assert(st3.toks == st.toks);
        assert(st.toks.push(x) =~= st.toks + args) by {
            assert(args =~= seq![x]);
        }
        assert(lex_tokens_from(input, i, st) == st.toks + args);
    } else {
        // the separating space commits the token
        let rest = requote_join(args.drop_first());
        assert(r[q.len() as int] == ' ') by {
            assert((q + seq![' '] + rest)[q.len() as int] == ' ');
        }
        assert(input[i + (xn + 2)] == r[xn + 2]);
        assert(input[after] == ' ');
        let st4 = lex_step(st3, input[after]);
        assert(st4 == LexState {
            mode: WaitFor::Space,
            escaping: false,
            cur: Seq::empty(),
            toks: st3.toks.push(st3.cur),
        });
        assert forall|k: int| 0 <= k < rest.len() implies #[trigger] input[(after + 1) + k]
            == rest[k] by {
            assert((q + seq![' '] + rest)[(xn + 3) + k] == rest[k]);
            assert(r[(xn + 3) + k] == (q + seq![' '] + rest)[(xn + 3) + k]) by {
                assert(r == q + seq![' '] + rest);
            }
            assert(input[i + ((xn + 3) + k)] == r[(xn + 3) + k]);
        }
        assert(input.len() - (after + 1) == rest.len());
        lemma_requote_tokens(input, after + 1, args.drop_first(), st4);
        assert(lex_tokens_from(input, after, st3) == lex_tokens_from(input, after + 1, st4));
        assert(lex_tokens_from(input, after + 1, st4) == st4.toks + args.drop_first());
        assert(st4.toks == st.toks.push(x)) by {
            assert(st3.cur == x);
        }
        assert(st.toks.push(x) + args.drop_first() =~= st.toks + args);
    }
}

/// Law: a round trip through single quotes. Any argv whose elements are
/// non-empty, spell themselves inside single quotes (no unescaped single
/// quote, no trailing lone backslash), and are not the pipe token or a
/// redirection operator, re-lexes - each element re-quoted with single quotes
/// and the elements joined with spaces - to a single stage with exactly that
/// argv and no redirection.
pub proof fn lemma_single_quote_round_trip(args: Seq<Seq<char>>)
    requires
        args.len() > 0,
        forall|k: int| 0 <= k < args.len() ==> (#[trigger] args[k]).len() > 0 && sq_literal(
            args[k],
        ) && args[k] != pipe_token() && redir_op_of(args[k]) is None,
    ensures
        lex_spec(requote_join(args)) == Ok::<_, LexError>(
            seq![(args, RedirectionModel::Terminal)],
        ),
{
    let input = requote_join(args);
    lemma_requote_tokens(input, 0, args, lex_init());
    assert(lex_tokens(input) == Seq::<Seq<char>>::empty() + args);
    assert(Seq::<Seq<char>>::empty() + args =~= args);
    assert(lex_tokens(input) == args);
    lemma_split_no_pipes(args, 0, Seq::empty(), Seq::empty());
    let groups = split_groups(args);
    assert(groups =~= seq![args]) by {
        assert(Seq::<Seq<char>>::empty() + args.skip(0) =~= args);
    }
    assert(groups.len() == 1 && groups[0].len() == args.len());
    lemma_extract_no_ops(args, 0, Seq::empty(), RedirectionModel::Terminal);
    assert(Seq::<Seq<char>>::empty() + args.skip(0) =~= args);
    assert(extract_from(args, 0, Seq::empty(), RedirectionModel::Terminal) == Some(
        (args, RedirectionModel::Terminal),
    ));
    assert(stages_of_groups(groups.drop_first()) == Ok::<
        Seq<(Seq<Seq<char>>, RedirectionModel)>,
        LexError,
    >(Seq::empty())) by {
        assert(groups.drop_first().len() == 0);
    }
    assert(stages_of_groups(groups) == Ok::<Seq<(Seq<Seq<char>>, RedirectionModel)>, LexError>(
        seq![(args, RedirectionModel::Terminal)] + Seq::empty(),
    ));
    assert(seq![(args, RedirectionModel::Terminal)] + Seq::empty() =~= seq![
        (args, RedirectionModel::Terminal),
    ]);
}

} // verus!
