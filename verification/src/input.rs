//! The line editor as a state machine: one step per byte read from the raw
//! terminal. Each step says what to print (echo, bell, redraw, completion
//! list) and whether the line was submitted or cancelled; the caller does the
//! terminal reads and writes.

use vstd::prelude::*;

use crate::error::Error;
use crate::history::History;
use crate::history::HistoryNavigation;
use crate::tab_completions::TabCompletionsCtx;
use crate::trie::Trie;

verus! {

use vstd::utf8::encode_utf8;
use vstd::utf8::valid_utf8;
use vstd::string::StringSliceAdditionalSpecFns;

/// Recognizer for the arrow-key escape sequences.
pub enum SequenceState {
    Normal,
    ESCReceived,
    BracketReceived,
}

/// Everything the editor carries between bytes.
pub struct EditorState {
    pub input: Vec<u8>,
    pub seq_state: SequenceState,
    pub tab_ctx: TabCompletionsCtx,
    pub history_nav: HistoryNavigation,
}

/// What the caller must print after a step.
pub enum EditorReaction {
    /// Nothing.
    Quiet,
    /// Echo this byte.
    Echo(u8),
    /// Erase the last character: cursor left, space, cursor left.
    Backspace,
    /// Ring the bell.
    Bell,
    /// Carriage return and line feed.
    CrLf,
    /// Print these completions separated by two spaces on a fresh line, then
    /// a fresh prompt with the current buffer.
    ListCompletions(Vec<String>),
    /// Clear the line and print the prompt followed by these bytes.
    Redraw(Vec<u8>),
}

/// Whether the editor goes on, and what it hands back when it stops.
pub enum EditorOutcome {
    Continue,
    Submit(String),
    Cancel,
    Fail(Error),
}

/// Relies on std's String::from_utf8: the string whose UTF-8 encoding is
/// exactly these bytes, when the bytes are valid UTF-8.
#[verifier::external_body]
fn bytes_to_string(bytes: &Vec<u8>) -> (r: Option<String>)
    ensures
        match r {
            Some(s) => encode_utf8(s@) == bytes@,
            None => !valid_utf8(bytes@),
        },
{
    String::from_utf8(bytes.clone()).ok()
}

/// A copy of a byte vector.
fn copy_bytes(v: &Vec<u8>) -> (r: Vec<u8>)
    ensures
        r@ == v@,
{
    let mut r: Vec<u8> = Vec::new();
    let mut k: usize = 0;
    while k < v.len()
        invariant
            k <= v@.len(),
            r@ == v@.take(k as int),
        decreases v@.len() - k,
    {
        r.push(v[k]);
        proof {
            assert(v@.take(k as int + 1) =~= v@.take(k as int).push(v@[k as int]));
        }
        k = k + 1;
    }
    proof {
        assert(v@.take(k as int) =~= v@);
    }
    r
}

/// A copy of a vector of strings, character for character.
fn copy_strings(v: &Vec<String>) -> (r: Vec<String>)
    ensures
        r.deep_view() == v.deep_view(),
{
    let mut r: Vec<String> = Vec::new();
    let mut k: usize = 0;
    while k < v.len()
        invariant
            k <= v@.len(),
            r.deep_view() =~= v.deep_view().take(k as int),
        decreases v@.len() - k,
    {
        let ghost pre = r;
        let item = v[k].clone();
        let ghost item_pre = item;
        r.push(item);
        proof {
            crate::strutil::lemma_deep_view_push(pre, r, item_pre);
            assert(r.deep_view() =~= v.deep_view().take(k as int + 1));
        }
        k = k + 1;
    }
    proof {
        assert(v.deep_view().take(k as int) =~= v.deep_view());
    }
    r
}

/// Exactly the completions of `s`: every listed word is in the tree and
/// extends `s`, (for a non-empty `s`) every such word is listed, and no word
/// is listed twice.
pub open spec fn completions_exact(t: Trie, s: Seq<char>, c: Seq<Seq<char>>) -> bool {
    &&& forall|k: int| 0 <= k < c.len() ==> t@.contains(#[trigger] c[k]) && s.is_prefix_of(c[k])
    &&& s.len() > 0 ==> forall|w: Seq<char>|
        #[trigger] t@.contains(w) && s.is_prefix_of(w) ==> exists|k: int|
            0 <= k < c.len() && c[k] == w
    &&& s.len() == 0 ==> c.len() == 0
    &&& forall|k1: int, k2: int| 0 <= k1 < k2 < c.len() ==> (#[trigger] c[k1]) != (#[trigger] c[k2])
}

/// The TAB table of the editor: no completion rings the bell; one completion
/// replaces the buffer with it and a trailing space; several move the buffer
/// to the longest common extension, or ring the bell and arm the listing when
/// no progress is possible.
pub open spec fn tab_case(
    t: Trie,
    s: Seq<char>,
    c: Seq<Seq<char>>,
    st0: EditorState,
    st1: EditorState,
    reaction: EditorReaction,
) -> bool {
    &&& st1.seq_state is Normal
    &&& st1.history_nav == st0.history_nav
    &&& if c.len() == 0 {
        &&& reaction is Bell
        &&& st1.input == st0.input
        &&& st1.tab_ctx == st0.tab_ctx
    } else if c.len() == 1 {
        &&& st1.input@ == encode_utf8(c[0]) + seq![32u8]
        &&& (match reaction {
            EditorReaction::Redraw(b) => b@ == st1.input@,
            _ => false,
        })
        &&& st1.tab_ctx == st0.tab_ctx
    } else {
        let q = t.lce(s);
        &&& st1.tab_ctx.enabled
        &&& st1.tab_ctx.completions.deep_view() == c
        &&& if q == s {
            reaction is Bell && st1.input == st0.input
        } else {
            st1.input@ == encode_utf8(q) && (match reaction {
                EditorReaction::Redraw(b) => b@ == encode_utf8(q),
                _ => false,
            })
        }
    }
}

/// What one editor step does, for every byte and starting state.
pub open spec fn editor_step_post(
    t: Trie,
    history: History,
    st0: EditorState,
    st1: EditorState,
    byte: u8,
    reaction: EditorReaction,
    outcome: EditorOutcome,
) -> bool {
    if byte == 9 {
        if st0.tab_ctx.enabled {
            &&& st1.input == st0.input
            &&& st1.seq_state is Normal
            &&& st1.tab_ctx == st0.tab_ctx
            &&& st1.history_nav == st0.history_nav
            &&& (match reaction {
                EditorReaction::ListCompletions(c) => c.deep_view()
                    == st0.tab_ctx.completions.deep_view(),
                _ => false,
            })
            &&& outcome is Continue
        } else {
            match outcome {
                EditorOutcome::Fail(e) => e == Error::Utf8Error && !valid_utf8(st0.input@),
                EditorOutcome::Continue => exists|s: Seq<char>, c: Seq<Seq<char>>|
                    encode_utf8(s) == st0.input@ && #[trigger] completions_exact(t, s, c)
                        && tab_case(t, s, c, st0, st1, reaction),
                _ => false,
            }
        }
    } else {
        // any byte but TAB forgets an armed completion listing first
        &&& (if st0.tab_ctx.enabled {
            !st1.tab_ctx.enabled && st1.tab_ctx.completions@.len() == 0
        } else {
            st1.tab_ctx == st0.tab_ctx
        })
        &&& if byte == 10 || byte == 13 {
            &&& reaction is CrLf
            &&& (match outcome {
                EditorOutcome::Submit(line) => encode_utf8(line@) == st0.input@,
                EditorOutcome::Fail(e) => e == Error::Utf8Error && !valid_utf8(st0.input@),
                _ => false,
            })
        } else if byte == 3 {
            &&& reaction is CrLf
            &&& outcome is Cancel
        } else if byte == 8 || byte == 127 {
            &&& outcome is Continue
            &&& st1.seq_state is Normal
            &&& st1.history_nav == st0.history_nav
            &&& if st0.input@.len() > 0 {
                st1.input@ == st0.input@.drop_last() && reaction is Backspace
            } else {
                st1.input == st0.input && reaction is Quiet
            }
        } else if byte == 27 && st0.seq_state is Normal {
            &&& st1.seq_state is ESCReceived
            &&& st1.input == st0.input
            &&& st1.history_nav == st0.history_nav
            &&& reaction is Quiet
            &&& outcome is Continue
        } else if byte == 91 && st0.seq_state is ESCReceived {
            &&& st1.seq_state is BracketReceived
            &&& st1.input == st0.input
            &&& st1.history_nav == st0.history_nav
            &&& reaction is Quiet
            &&& outcome is Continue
        } else if byte == 65 && st0.seq_state is BracketReceived {
            // up arrow: show the previous history entry, if any
            &&& st1.seq_state is Normal
            &&& st1.input == st0.input
            &&& outcome is Continue
            &&& st1.history_nav.size == st0.history_nav.size
            &&& st1.history_nav.pointer == (if st0.history_nav.pointer == 0 {
                0int
            } else {
                st0.history_nav.pointer - 1
            })
            &&& if st1.history_nav.pointer < history.stack@.len() {
                match reaction {
                    EditorReaction::Redraw(b) => b@ == encode_utf8(
                        history.stack@[st1.history_nav.pointer as int]@,
                    ),
                    _ => false,
                }
            } else {
                reaction is Quiet
            }
        } else if byte == 66 && st0.seq_state is BracketReceived {
            // down arrow: show the next entry, or the buffer past the end
            &&& st1.seq_state is Normal
            &&& st1.input == st0.input
            &&& outcome is Continue
            &&& st1.history_nav.size == st0.history_nav.size
            &&& (if st0.history_nav.pointer == st0.history_nav.size {
                &&& st1.history_nav.pointer == st0.history_nav.pointer
                &&& (match reaction {
                    EditorReaction::Redraw(b) => b@ == st0.input@,
                    _ => false,
                })
            } else {
                &&& st1.history_nav.pointer == st0.history_nav.pointer + 1
                &&& if st1.history_nav.pointer < history.stack@.len() {
                    match reaction {
                        EditorReaction::Redraw(b) => b@ == encode_utf8(
                            history.stack@[st1.history_nav.pointer as int]@,
                        ),
                        _ => false,
                    }
                } else {
                    match reaction {
                        EditorReaction::Redraw(b) => b@ == st0.input@,
                        _ => false,
                    }
                }
            })
        } else {
            // an ordinary byte: echo it and append it to the buffer
            &&& st1.seq_state is Normal
            &&& st1.input@ == st0.input@.push(byte)
            &&& st1.history_nav == st0.history_nav
            &&& (match reaction {
                EditorReaction::Echo(b) => b == byte,
                _ => false,
            })
            &&& outcome is Continue
        }
    }
}

impl EditorState {
    /// The editor at the start of a prompt: empty buffer, no escape sequence
    /// underway, no completion listing armed, history cursor past the end.
    pub fn new(history: &History) -> (r: EditorState)
        ensures
            r.input@.len() == 0,
            r.seq_state is Normal,
            !r.tab_ctx.enabled,
            r.tab_ctx.completions@.len() == 0,
            r.history_nav.wf(),
            r.history_nav.pointer == history.stack@.len(),
            r.history_nav.size == history.stack@.len(),
    {
        EditorState {
            input: Vec::new(),
            seq_state: SequenceState::Normal,
            tab_ctx: TabCompletionsCtx::new(),
            history_nav: HistoryNavigation::from_size(history.stack.len()),
        }
    }
}

/// One byte of the editor: dispatch on the byte and on the escape-sequence
/// state, and say what to print and whether the line is done.
pub fn editor_step(
    state: &mut EditorState,
    byte: u8,
    cmd_completions: &Trie,
    history: &History,
) -> (r: (EditorReaction, EditorOutcome))
    requires
        old(state).history_nav.wf(),
    ensures
        final(state).history_nav.wf(),
        editor_step_post(*cmd_completions, *history, *old(state), *final(state), byte, r.0, r.1),
{
    if state.tab_ctx.is_enabled() && byte != 9 {
        state.tab_ctx.reset();
    }
    if byte == 9 {
        if state.tab_ctx.is_enabled() {
            state.seq_state = SequenceState::Normal;
            let listing = copy_strings(&state.tab_ctx.completions);
            (EditorReaction::ListCompletions(listing), EditorOutcome::Continue)
        } else {
            state.seq_state = SequenceState::Normal;
            match bytes_to_string(&state.input) {
                None => (EditorReaction::Quiet, EditorOutcome::Fail(Error::Utf8Error)),
                Some(buffer_text) => {
                    let ghost s = buffer_text@;
                    let found = cmd_completions.get_completions(buffer_text.as_str());
                    let ghost c = found.deep_view();
                    proof {
                        assert forall|k: int| 0 <= k < c.len() implies cmd_completions@.contains(
                            #[trigger] c[k],
                        ) && s.is_prefix_of(c[k]) by {
                            assert(c[k] == found@[k]@);
                        }
                        assert(completions_exact(*cmd_completions, s, c)) by {
                            if s.len() > 0 {
                                assert forall|w: Seq<char>|
                                    #[trigger] cmd_completions@.contains(w) && s.is_prefix_of(
                                        w,
                                    ) implies exists|k: int| 0 <= k < c.len() && c[k] == w by {
                                    let k = choose|k: int|
                                        0 <= k < found@.len() && (#[trigger] found@[k])@ == w;
                                    assert(c[k] == w);
                                }
                            }
                            assert forall|k1: int, k2: int|
                                0 <= k1 < k2 < c.len() implies (#[trigger] c[k1]) != (
                            #[trigger] c[k2]) by {
                                assert(found@[k1]@ != found@[k2]@);
                            }
                        }
                    }
                    if found.len() == 0 {
                        proof {
                            assert(c.len() == 0);
                        }
                        (EditorReaction::Bell, EditorOutcome::Continue)
                    } else if found.len() == 1 {
                        let first = &found[0];
                        state.input.clear();
                        let first_bytes = first.as_str().as_bytes_vec();
                        let ghost st_mid = *state;
                        let mut k: usize = 0;
                        while k < first_bytes.len()
                            invariant
                                k <= first_bytes@.len(),
                                state.input@ == first_bytes@.take(k as int),
                                state.seq_state == st_mid.seq_state,
                                state.tab_ctx == st_mid.tab_ctx,
                                state.history_nav == st_mid.history_nav,
                            decreases first_bytes@.len() - k,
                        {
                            state.input.push(first_bytes[k]);
                            proof {
                                assert(first_bytes@.take(k as int + 1) =~= first_bytes@.take(
                                    k as int,
                                ).push(first_bytes@[k as int]));
                            }
                            k = k + 1;
                        }
                        state.input.push(32u8);
                        proof {
                            assert(first_bytes@.take(first_bytes@.len() as int) =~= first_bytes@);
                            assert(first_bytes@ == encode_utf8(c[0]));
                            assert(state.input@ =~= encode_utf8(c[0]) + seq![32u8]);
                        }
                        let redraw = copy_bytes(&state.input);
                        (EditorReaction::Redraw(redraw), EditorOutcome::Continue)
                    } else {
                        state.tab_ctx.enable();
                        state.tab_ctx.set_completions(found);
                        let lcp = cmd_completions.longest_common_prefix(buffer_text.as_str());
                        if crate::strutil::str_eq(lcp.as_str(), buffer_text.as_str()) {
                            proof {
                                assert(cmd_completions.lce(s) == s);
                            }
                            (EditorReaction::Bell, EditorOutcome::Continue)
                        } else {
                            state.input.clear();
                            let lcp_bytes = lcp.as_str().as_bytes_vec();
                            let redraw = copy_bytes(&lcp_bytes);
                            let ghost st_mid = *state;
                            let mut k: usize = 0;
                            while k < lcp_bytes.len()
                                invariant
                                    k <= lcp_bytes@.len(),
                                    state.input@ == lcp_bytes@.take(k as int),
                                    state.seq_state == st_mid.seq_state,
                                    state.tab_ctx == st_mid.tab_ctx,
                                    state.history_nav == st_mid.history_nav,
                                decreases lcp_bytes@.len() - k,
                            {
                                state.input.push(lcp_bytes[k]);
                                proof {
                                    assert(lcp_bytes@.take(k as int + 1) =~= lcp_bytes@.take(
                                        k as int,
                                    ).push(lcp_bytes@[k as int]));
                                }
                                k = k + 1;
                            }
                            proof {
                                assert(lcp_bytes@.take(lcp_bytes@.len() as int) =~= lcp_bytes@);
                                assert(state.input@ == encode_utf8(cmd_completions.lce(s)));
                            }
                            (EditorReaction::Redraw(redraw), EditorOutcome::Continue)
                        }
                    }
                },
            }
        }
    } else if byte == 10 || byte == 13 {
        match bytes_to_string(&state.input) {
            Some(line) => (EditorReaction::CrLf, EditorOutcome::Submit(line)),
            None => (EditorReaction::CrLf, EditorOutcome::Fail(Error::Utf8Error)),
        }
    } else if byte == 3 {
        (EditorReaction::CrLf, EditorOutcome::Cancel)
    } else if byte == 8 || byte == 127 {
        state.seq_state = SequenceState::Normal;
        if state.input.len() > 0 {
            state.input.pop();
            (EditorReaction::Backspace, EditorOutcome::Continue)
        } else {
            (EditorReaction::Quiet, EditorOutcome::Continue)
        }
    } else if byte == 27 && matches!(state.seq_state, SequenceState::Normal) {
        state.seq_state = SequenceState::ESCReceived;
        (EditorReaction::Quiet, EditorOutcome::Continue)
    } else if byte == 91 && matches!(state.seq_state, SequenceState::ESCReceived) {
        state.seq_state = SequenceState::BracketReceived;
        (EditorReaction::Quiet, EditorOutcome::Continue)
    } else if byte == 65 && matches!(state.seq_state, SequenceState::BracketReceived) {
        state.seq_state = SequenceState::Normal;
        match state.history_nav.previous(&history.stack) {
            Some(entry) => {
                let redraw = entry.as_str().as_bytes_vec();
                (EditorReaction::Redraw(redraw), EditorOutcome::Continue)
            },
            None => (EditorReaction::Quiet, EditorOutcome::Continue),
        }
    } else if byte == 66 && matches!(state.seq_state, SequenceState::BracketReceived) {
        state.seq_state = SequenceState::Normal;
        match state.history_nav.next(&history.stack) {
            Some(entry) => {
                let redraw = entry.as_str().as_bytes_vec();
                (EditorReaction::Redraw(redraw), EditorOutcome::Continue)
            },
            None => {
                let redraw = copy_bytes(&state.input);
                (EditorReaction::Redraw(redraw), EditorOutcome::Continue)
            },
        }
    } else {
        state.seq_state = SequenceState::Normal;
        state.input.push(byte);
        (EditorReaction::Echo(byte), EditorOutcome::Continue)
    }
}

} // verus!
