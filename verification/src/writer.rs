//! Routing of a command's output: to the terminal, or to a file named by a
//! redirection, in truncate or append mode. The writer here computes exact
//! plans - which bytes go to which terminal stream, and which bytes go into
//! which file - and the surrounding binary carries them out.

use vstd::prelude::*;

use crate::command::CmdOutput;
use crate::command::CmdOutputModel;

verus! {

use vstd::utf8::encode_utf8;

/// Where a stage's streams go. `Terminal` uses the terminal for both;
/// `Stdout` sends standard output to a file (standard error stays on the
/// terminal); `Stderr` sends standard error to a file.
#[derive(Debug, Clone)]
pub enum Redirection {
    Stdout { file_path: String, append: bool },
    Stderr { file_path: String, append: bool },
    Terminal,
}

/// Ghost form of a redirection, with the file path as a character sequence.
pub enum RedirectionModel {
    Stdout { file_path: Seq<char>, append: bool },
    Stderr { file_path: Seq<char>, append: bool },
    Terminal,
}

impl View for Redirection {
    type V = RedirectionModel;

    open spec fn view(&self) -> RedirectionModel {
        match self {
            Redirection::Stdout { file_path, append } => RedirectionModel::Stdout {
                file_path: file_path@,
                append: *append,
            },
            Redirection::Stderr { file_path, append } => RedirectionModel::Stderr {
                file_path: file_path@,
                append: *append,
            },
            Redirection::Terminal => RedirectionModel::Terminal,
        }
    }
}


/// One thing the writer asks the caller to do.
pub enum WriteAction {
    /// Write these bytes to the terminal's standard output; `newline` asks
    /// for a line break after them.
    TerminalOut { data: Vec<u8>, newline: bool },
    /// The same for the terminal's standard error.
    TerminalErr { data: Vec<u8>, newline: bool },
    /// Create the file if missing (truncating or appending per `append`) and
    /// write these bytes. Standard-output data sets `newline_if_nonempty`:
    /// when appending to a file that already holds something, a line break
    /// goes in first. Standard-error data is written verbatim.
    FileWrite { path: String, append: bool, data: Vec<u8>, newline_if_nonempty: bool },
    /// Create the file if missing, write nothing into it.
    Touch { path: String, append: bool },
}

/// Ghost form of a write action.
pub enum WriteActionModel {
    TerminalOut { data: Seq<u8>, newline: bool },
    TerminalErr { data: Seq<u8>, newline: bool },
    FileWrite { path: Seq<char>, append: bool, data: Seq<u8>, newline_if_nonempty: bool },
    Touch { path: Seq<char>, append: bool },
}

impl View for WriteAction {
    type V = WriteActionModel;

    open spec fn view(&self) -> WriteActionModel {
        match self {
            WriteAction::TerminalOut { data, newline } => WriteActionModel::TerminalOut {
                data: data@,
                newline: *newline,
            },
            WriteAction::TerminalErr { data, newline } => WriteActionModel::TerminalErr {
                data: data@,
                newline: *newline,
            },
            WriteAction::FileWrite { path, append, data, newline_if_nonempty } => {
                WriteActionModel::FileWrite {
                    path: path@,
                    append: *append,
                    data: data@,
                    newline_if_nonempty: *newline_if_nonempty,
                }
            },
            WriteAction::Touch { path, append } => WriteActionModel::Touch {
                path: path@,
                append: *append,
            },
        }
    }
}

impl DeepView for WriteAction {
    type V = WriteActionModel;

    open spec fn deep_view(&self) -> WriteActionModel {
        self.view()
    }
}

/// The exact bytes a file write puts into the file: when appending to a file
/// that already holds something, a line break comes first.
pub open spec fn file_payload_spec(data: Seq<u8>, append: bool, file_nonempty: bool) -> Seq<u8> {
    if append && file_nonempty {
        seq![10u8] + data
    } else {
        data
    }
}

/// The bytes to put into the file for a `FileWrite` action, given whether the
/// file already holds anything.
pub fn file_payload(data: &Vec<u8>, append: bool, file_nonempty: bool) -> (r: Vec<u8>)
    ensures
        r@ == file_payload_spec(data@, append, file_nonempty),
{
    if append && file_nonempty {
        let mut r: Vec<u8> = Vec::new();
        r.push(10u8);
        let mut k: usize = 0;
        while k < data.len()
            invariant
                k <= data@.len(),
                r@ == seq![10u8] + data@.take(k as int),
            decreases data@.len() - k,
        {
            r.push(data[k]);
            proof {
                assert(seq![10u8] + data@.take(k as int + 1) =~= (seq![10u8] + data@.take(
                    k as int,
                )).push(data@[k as int]));
            }
            k = k + 1;
        }
        proof {
            assert(data@.take(k as int) =~= data@);
        }
        r
    } else {
        let mut r: Vec<u8> = Vec::new();
        let mut k: usize = 0;
        while k < data.len()
            invariant
                k <= data@.len(),
                r@ == data@.take(k as int),
            decreases data@.len() - k,
        {
            r.push(data[k]);
            proof {
                assert(data@.take(k as int + 1) =~= data@.take(k as int).push(data@[k as int]));
            }
            k = k + 1;
        }
        proof {
            assert(data@.take(k as int) =~= data@);
        }
        r
    }
}

/// Law: appending the same bytes twice, the first time to an empty file,
/// leaves the file holding the bytes, a line break, and the bytes again: the
/// first append finds the file empty, the second does not.
pub proof fn lemma_append_twice(data: Seq<u8>)
    ensures
        file_payload_spec(data, true, false) + file_payload_spec(data, true, true) == data + seq![
            10u8,
        ] + data,
{
    assert(data + (seq![10u8] + data) =~= data + seq![10u8] + data);
}

/// The plan for byte output meant for standard output, and whether the
/// terminal's standard output is written.
pub open spec fn output_plan_spec(redirection: RedirectionModel, buf: Seq<u8>) -> (
    Seq<WriteActionModel>,
    bool,
) {
    match redirection {
        RedirectionModel::Stdout { file_path, append } => (
            seq![
                WriteActionModel::FileWrite {
                    path: file_path,
                    append,
                    data: buf,
                    newline_if_nonempty: true,
                },
            ],
            false,
        ),
        RedirectionModel::Stderr { file_path, append } => {
            if buf.len() == 0 {
                (seq![WriteActionModel::Touch { path: file_path, append }], false)
            } else {
                (
                    seq![
                        WriteActionModel::TerminalOut { data: buf, newline: false },
                        WriteActionModel::Touch { path: file_path, append },
                    ],
                    true,
                )
            }
        },
        RedirectionModel::Terminal => {
            if buf.len() == 0 {
                (Seq::empty(), false)
            } else {
                (seq![WriteActionModel::TerminalOut { data: buf, newline: false }], true)
            }
        },
    }
}

/// The plan for text meant for standard output: to the terminal it gets a
/// trailing line break; to a file it goes verbatim.
pub open spec fn output_string_plan_spec(redirection: RedirectionModel, text: Seq<char>) -> Seq<
    WriteActionModel,
> {
    match redirection {
        RedirectionModel::Stdout { file_path, append } => seq![
            WriteActionModel::FileWrite {
                path: file_path,
                append,
                data: encode_utf8(text),
                newline_if_nonempty: true,
            },
        ],
        RedirectionModel::Stderr { file_path, append } => seq![
            WriteActionModel::TerminalOut { data: encode_utf8(text), newline: true },
            WriteActionModel::Touch { path: file_path, append },
        ],
        RedirectionModel::Terminal => seq![
            WriteActionModel::TerminalOut { data: encode_utf8(text), newline: true },
        ],
    }
}

/// The plan for byte output meant for standard error, and whether the
/// terminal's standard error is written.
pub open spec fn output_error_plan_spec(redirection: RedirectionModel, buf: Seq<u8>) -> (
    Seq<WriteActionModel>,
    bool,
) {
    match redirection {
        RedirectionModel::Stderr { file_path, append } => (
            seq![
                WriteActionModel::FileWrite {
                    path: file_path,
                    append,
                    data: buf,
                    newline_if_nonempty: false,
                },
            ],
            false,
        ),
        RedirectionModel::Stdout { file_path, append } => {
            if buf.len() == 0 {
                (seq![WriteActionModel::Touch { path: file_path, append }], false)
            } else {
                (
                    seq![
                        WriteActionModel::TerminalErr { data: buf, newline: false },
                        WriteActionModel::Touch { path: file_path, append },
                    ],
                    true,
                )
            }
        },
        RedirectionModel::Terminal => {
            if buf.len() == 0 {
                (Seq::empty(), false)
            } else {
                (seq![WriteActionModel::TerminalErr { data: buf, newline: false }], true)
            }
        },
    }
}

/// The plan for text meant for standard error.
pub open spec fn output_error_string_plan_spec(
    redirection: RedirectionModel,
    text: Seq<char>,
) -> Seq<WriteActionModel> {
    match redirection {
        RedirectionModel::Stderr { file_path, append } => seq![
            WriteActionModel::FileWrite {
                path: file_path,
                append,
                data: encode_utf8(text),
                newline_if_nonempty: false,
            },
        ],
        RedirectionModel::Stdout { file_path, append } => seq![
            WriteActionModel::TerminalErr { data: encode_utf8(text), newline: true },
            WriteActionModel::Touch { path: file_path, append },
        ],
        RedirectionModel::Terminal => seq![
            WriteActionModel::TerminalErr { data: encode_utf8(text), newline: true },
        ],
    }
}

/// The whole plan for one materialized command output: route it by stream
/// and redirection; byte outputs that reached the terminal and do not end in
/// a line feed are followed by one.
pub open spec fn cmd_output_plan_spec(
    redirection: RedirectionModel,
    out: CmdOutputModel,
) -> Seq<WriteActionModel> {
    match out {
        CmdOutputModel::Stdout(s) => output_string_plan_spec(redirection, s),
        CmdOutputModel::StdoutBytes(b) => {
            let plan = output_plan_spec(redirection, b);
            if plan.1 && b.last() != 10u8 {
                plan.0.push(
                    WriteActionModel::TerminalOut { data: Seq::empty(), newline: true },
                )
            } else {
                plan.0
            }
        },
        CmdOutputModel::Stderr(s) => output_error_string_plan_spec(redirection, s),
        CmdOutputModel::StderrBytes(b) => {
            let plan = output_error_plan_spec(redirection, b);
            if plan.1 && b.last() != 10u8 {
                plan.0.push(
                    WriteActionModel::TerminalErr { data: Seq::empty(), newline: true },
                )
            } else {
                plan.0
            }
        },
        CmdOutputModel::Stream => Seq::empty(),
    }
}

/// Routes one stage's output under its redirection.
pub struct CmdOutputWriter {
    pub redirection: Redirection,
}

impl CmdOutputWriter {
    /// A writer for a stage with this redirection.
    pub fn new(redirection: Redirection) -> (r: CmdOutputWriter)
        ensures
            r.redirection@ == redirection@,
    {
        CmdOutputWriter { redirection }
    }

    /// Route bytes meant for standard output. The second result says whether
    /// the terminal's standard output was written; standard output
    /// redirection sends the bytes to the file instead, standard error
    /// redirection only touches the file.
    pub fn output(&self, buf: &[u8]) -> (r: (Vec<WriteAction>, bool))
        ensures
            (r.0.deep_view(), r.1) == output_plan_spec(self.redirection@, buf@),
    {
        let mut actions: Vec<WriteAction> = Vec::new();
        proof {
            assert(actions.deep_view() =~= Seq::<WriteActionModel>::empty());
        }
        match &self.redirection {
            Redirection::Stdout { file_path, append } => {
                let ghost pre = actions;
                actions.push(
                    WriteAction::FileWrite {
                        path: file_path.clone(),
                        append: *append,
                        data: slice_to_vec_u8(buf),
                        newline_if_nonempty: true,
                    },
                );
                proof {
                    crate::strutil::lemma_deep_view_push(pre, actions, actions@[0]);
                    assert(actions.deep_view() =~= output_plan_spec(self.redirection@, buf@).0);
                }
                (actions, false)
            },
            Redirection::Stderr { file_path, append } => {
                if buf.len() == 0 {
                    let ghost pre = actions;
                    actions.push(WriteAction::Touch { path: file_path.clone(), append: *append });
                    proof {
                        crate::strutil::lemma_deep_view_push(pre, actions, actions@[0]);
                        assert(actions.deep_view() =~= output_plan_spec(
                            self.redirection@,
                            buf@,
                        ).0);
                    }
                    (actions, false)
                } else {
                    let ghost pre0 = actions;
                    actions.push(
                        WriteAction::TerminalOut { data: slice_to_vec_u8(buf), newline: false },
                    );
                    proof {
                        crate::strutil::lemma_deep_view_push(pre0, actions, actions@[0]);
                    }
                    let ghost pre1 = actions;
                    actions.push(WriteAction::Touch { path: file_path.clone(), append: *append });
                    proof {
                        crate::strutil::lemma_deep_view_push(pre1, actions, actions@[1]);
                        assert(actions.deep_view() =~= output_plan_spec(
                            self.redirection@,
                            buf@,
                        ).0);
                    }
                    (actions, true)
                }
            },
            Redirection::Terminal => {
                if buf.len() == 0 {
                    (actions, false)
                } else {
                    let ghost pre = actions;
                    actions.push(
                        WriteAction::TerminalOut { data: slice_to_vec_u8(buf), newline: false },
                    );
                    proof {
                        crate::strutil::lemma_deep_view_push(pre, actions, actions@[0]);
                        assert(actions.deep_view() =~= output_plan_spec(
                            self.redirection@,
                            buf@,
                        ).0);
                    }
                    (actions, true)
                }
            },
        }
    }

    /// Route text meant for standard output.
    pub fn output_string(&self, text: &str) -> (r: Vec<WriteAction>)
        ensures
            r.deep_view() == output_string_plan_spec(self.redirection@, text@),
    {
        let mut actions: Vec<WriteAction> = Vec::new();
        proof {
            assert(actions.deep_view() =~= Seq::<WriteActionModel>::empty());
        }
        match &self.redirection {
            Redirection::Stdout { file_path, append } => {
                let ghost pre = actions;
                actions.push(
                    WriteAction::FileWrite {
                        path: file_path.clone(),
                        append: *append,
                        data: text.as_bytes_vec(),
                        newline_if_nonempty: true,
                    },
                );
                proof {
                    crate::strutil::lemma_deep_view_push(pre, actions, actions@[0]);
                    assert(actions.deep_view() =~= output_string_plan_spec(
                        self.redirection@,
                        text@,
                    ));
                }
                actions
            },
            Redirection::Stderr { file_path, append } => {
                let ghost pre0 = actions;
                actions.push(WriteAction::TerminalOut { data: text.as_bytes_vec(), newline: true });
                proof {
                    crate::strutil::lemma_deep_view_push(pre0, actions, actions@[0]);
                }
                let ghost pre1 = actions;
                actions.push(WriteAction::Touch { path: file_path.clone(), append: *append });
                proof {
                    crate::strutil::lemma_deep_view_push(pre1, actions, actions@[1]);
                    assert(actions.deep_view() =~= output_string_plan_spec(
                        self.redirection@,
                        text@,
                    ));
                }
                actions
            },
            Redirection::Terminal => {
                let ghost pre = actions;
                actions.push(WriteAction::TerminalOut { data: text.as_bytes_vec(), newline: true });
                proof {
                    crate::strutil::lemma_deep_view_push(pre, actions, actions@[0]);
                    assert(actions.deep_view() =~= output_string_plan_spec(
                        self.redirection@,
                        text@,
                    ));
                }
                actions
            },
        }
    }

    /// Route bytes meant for standard error. The second result says whether
    /// the terminal's standard error was written.
    pub fn output_error(&self, buf: &[u8]) -> (r: (Vec<WriteAction>, bool))
        ensures
            (r.0.deep_view(), r.1) == output_error_plan_spec(self.redirection@, buf@),
    {
        let mut actions: Vec<WriteAction> = Vec::new();
        proof {
            assert(actions.deep_view() =~= Seq::<WriteActionModel>::empty());
        }
        match &self.redirection {
            Redirection::Stderr { file_path, append } => {
                let ghost pre = actions;
                actions.push(
                    WriteAction::FileWrite {
                        path: file_path.clone(),
                        append: *append,
                        data: slice_to_vec_u8(buf),
                        newline_if_nonempty: false,
                    },
                );
                proof {
                    crate::strutil::lemma_deep_view_push(pre, actions, actions@[0]);
                    assert(actions.deep_view() =~= output_error_plan_spec(
                        self.redirection@,
                        buf@,
                    ).0);
                }
                (actions, false)
            },
            Redirection::Stdout { file_path, append } => {
                if buf.len() == 0 {
                    let ghost pre = actions;
                    actions.push(WriteAction::Touch { path: file_path.clone(), append: *append });
                    proof {
                        crate::strutil::lemma_deep_view_push(pre, actions, actions@[0]);
                        assert(actions.deep_view() =~= output_error_plan_spec(
                            self.redirection@,
                            buf@,
                        ).0);
                    }
                    (actions, false)
                } else {
                    let ghost pre0 = actions;
                    actions.push(
                        WriteAction::TerminalErr { data: slice_to_vec_u8(buf), newline: false },
                    );
                    proof {
                        crate::strutil::lemma_deep_view_push(pre0, actions, actions@[0]);
                    }
                    let ghost pre1 = actions;
                    actions.push(WriteAction::Touch { path: file_path.clone(), append: *append });
                    proof {
                        crate::strutil::lemma_deep_view_push(pre1, actions, actions@[1]);
                        assert(actions.deep_view() =~= output_error_plan_spec(
                            self.redirection@,
                            buf@,
                        ).0);
                    }
                    (actions, true)
                }
            },
            Redirection::Terminal => {
                if buf.len() == 0 {
                    (actions, false)
                } else {
                    let ghost pre = actions;
                    actions.push(
                        WriteAction::TerminalErr { data: slice_to_vec_u8(buf), newline: false },
                    );
                    proof {
                        crate::strutil::lemma_deep_view_push(pre, actions, actions@[0]);
                        assert(actions.deep_view() =~= output_error_plan_spec(
                            self.redirection@,
                            buf@,
                        ).0);
                    }
                    (actions, true)
                }
            },
        }
    }

    /// Route text meant for standard error.
    pub fn output_error_string(&self, text: &str) -> (r: Vec<WriteAction>)
        ensures
            r.deep_view() == output_error_string_plan_spec(self.redirection@, text@),
    {
        let mut actions: Vec<WriteAction> = Vec::new();
        proof {
            assert(actions.deep_view() =~= Seq::<WriteActionModel>::empty());
        }
        match &self.redirection {
            Redirection::Stderr { file_path, append } => {
                let ghost pre = actions;
                actions.push(
                    WriteAction::FileWrite {
                        path: file_path.clone(),
                        append: *append,
                        data: text.as_bytes_vec(),
                        newline_if_nonempty: false,
                    },
                );
                proof {
                    crate::strutil::lemma_deep_view_push(pre, actions, actions@[0]);
                    assert(actions.deep_view() =~= output_error_string_plan_spec(
                        self.redirection@,
                        text@,
                    ));
                }
                actions
            },
            Redirection::Stdout { file_path, append } => {
                let ghost pre0 = actions;
                actions.push(WriteAction::TerminalErr { data: text.as_bytes_vec(), newline: true });
                proof {
                    crate::strutil::lemma_deep_view_push(pre0, actions, actions@[0]);
                }
                let ghost pre1 = actions;
                actions.push(WriteAction::Touch { path: file_path.clone(), append: *append });
                proof {
                    crate::strutil::lemma_deep_view_push(pre1, actions, actions@[1]);
                    assert(actions.deep_view() =~= output_error_string_plan_spec(
                        self.redirection@,
                        text@,
                    ));
                }
                actions
            },
            Redirection::Terminal => {
                let ghost pre = actions;
                actions.push(WriteAction::TerminalErr { data: text.as_bytes_vec(), newline: true });
                proof {
                    crate::strutil::lemma_deep_view_push(pre, actions, actions@[0]);
                    assert(actions.deep_view() =~= output_error_string_plan_spec(
                        self.redirection@,
                        text@,
                    ));
                }
                actions
            },
        }
    }

    /// Route one materialized command output (a live stream's draining is the
    /// caller's work, chunk by chunk through `output` and `output_error`).
    /// Byte outputs that reach the terminal keep their bytes verbatim, but
    /// when they do not end in a line feed the terminal gets one after them.
    pub fn write_cmd_output(&self, cmd_output: CmdOutput) -> (r: Vec<WriteAction>)
        requires
            !(cmd_output@ is Stream),
        ensures
            r.deep_view() == cmd_output_plan_spec(self.redirection@, cmd_output@),
    {
        match cmd_output {
            CmdOutput::Stdout(s) => self.output_string(s.as_str()),
            CmdOutput::StdoutBytes(b) => {
                let (mut actions, wrote) = self.output(b.as_slice());
                if wrote && b[b.len() - 1] != 10u8 {
                    let ghost pre = actions;
                    let empty_data: Vec<u8> = Vec::new();
                    proof {
                        assert(empty_data@ =~= Seq::<u8>::empty());
                    }
                    actions.push(WriteAction::TerminalOut { data: empty_data, newline: true });
                    proof {
                        crate::strutil::lemma_deep_view_push(
                            pre,
                            actions,
                            actions@[actions@.len() - 1],
                        );
                    }
                }
                actions
            },
            CmdOutput::Stderr(s) => self.output_error_string(s.as_str()),
            CmdOutput::StderrBytes(b) => {
                let (mut actions, wrote) = self.output_error(b.as_slice());
                if wrote && b[b.len() - 1] != 10u8 {
                    let ghost pre = actions;
                    let empty_data: Vec<u8> = Vec::new();
                    proof {
                        assert(empty_data@ =~= Seq::<u8>::empty());
                    }
                    actions.push(WriteAction::TerminalErr { data: empty_data, newline: true });
                    proof {
                        crate::strutil::lemma_deep_view_push(
                            pre,
                            actions,
                            actions@[actions@.len() - 1],
                        );
                    }
                }
                actions
            },
            CmdOutput::Stream => {
                let r: Vec<WriteAction> = Vec::new();
                proof {
                    assert(r.deep_view() =~= Seq::<WriteActionModel>::empty());
                }
                r
            },
        }
    }
}

/// A byte slice copied into a vector.
fn slice_to_vec_u8(buf: &[u8]) -> (r: Vec<u8>)
    ensures
        r@ == buf@,
{
    let mut r: Vec<u8> = Vec::new();
    let mut k: usize = 0;
    while k < buf.len()
        invariant
            k <= buf@.len(),
            r@ == buf@.take(k as int),
        decreases buf@.len() - k,
    {
        r.push(buf[k]);
        proof {
            assert(buf@.take(k as int + 1) =~= buf@.take(k as int).push(buf@[k as int]));
        }
        k = k + 1;
    }
    proof {
        assert(buf@.take(k as int) =~= buf@);
    }
    r
}

} // verus!
