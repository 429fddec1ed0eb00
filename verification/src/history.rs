//! Append-only history of submitted lines, with a cursor for arrow-key
//! navigation. Loading from and saving to a file is done by the caller, who
//! hands lines in and takes the rendered file contents out.

use vstd::prelude::*;

verus! {

use vstd::string::StrSliceExecFns;

/// Ordered sequence of submitted lines, oldest first.
pub struct History {
    pub stack: Vec<String>,
}

impl History {
    /// An empty history.
    pub fn new() -> (r: History)
        ensures
            r.stack@.len() == 0,
    {
        History { stack: Vec::new() }
    }

    /// Append one submitted line.
    pub fn push(&mut self, command_str: &str)
        ensures
            final(self).stack.deep_view() == old(self).stack.deep_view().push(command_str@),
    {
        let ghost pre = self.stack;
        let owned = command_str.to_owned();
        let ghost owned_pre = owned;
        self.stack.push(owned);
        proof {
            crate::strutil::lemma_deep_view_push(pre, self.stack, owned_pre);
        }
    }

    /// A history holding exactly these lines, oldest first.
    pub fn from_lines(lines: Vec<String>) -> (r: History)
        ensures
            r.stack.deep_view() == lines.deep_view(),
    {
        History { stack: lines }
    }

    /// Replace the whole history with these lines.
    pub fn set_from_lines(&mut self, lines: Vec<String>)
        ensures
            final(self).stack.deep_view() == lines.deep_view(),
    {
        self.stack = lines;
    }

    /// Extend the history with these lines, keeping what it holds.
    pub fn extend_from_lines(&mut self, lines: Vec<String>)
        ensures
            final(self).stack.deep_view() == old(self).stack.deep_view() + lines.deep_view(),
    {
        let ghost base = self.stack.deep_view();
        let ghost incoming = lines.deep_view();
        let mut k: usize = 0;
        let n = lines.len();
        let mut rest = lines;
        while k < n
            invariant
                k <= n,
                n == incoming.len(),
                rest.deep_view() == incoming,
                self.stack.deep_view() == base + incoming.take(k as int),
            decreases n - k,
        {
            let ghost pre = self.stack;
            let item = rest[k].clone();
            let ghost item_pre = item;
            self.stack.push(item);
            proof {
                crate::strutil::lemma_deep_view_push(pre, self.stack, item_pre);
                assert(item_pre@ == incoming[k as int]);
                assert((base + incoming.take(k as int)).push(incoming[k as int]) =~= base
                    + incoming.take(k as int + 1));
            }
            k = k + 1;
        }
        proof {
            assert(incoming.take(n as int) =~= incoming);
        }
    }

    /// The history rendered for its file: each line followed by a line feed.
    pub fn render(&self) -> (r: String)
        ensures
            r@ == render_lines(self.stack.deep_view()),
    {
        let ghost lines = self.stack.deep_view();
        let mut out = String::new();
        let mut k: usize = 0;
        proof {
            assert(lines.take(0) =~= Seq::<Seq<char>>::empty());
        }
        while k < self.stack.len()
            invariant
                k <= self.stack@.len(),
                lines == self.stack.deep_view(),
                out@ == render_lines(lines.take(k as int)),
            decreases self.stack@.len() - k,
        {
            proof {
                assert(lines[k as int] == self.stack@[k as int]@);
            }
            out.append(self.stack[k].as_str());
            crate::strutil::string_push_char(&mut out, '\n');
            proof {
                lemma_render_push(lines.take(k as int), lines[k as int]);
                assert(lines.take(k as int).push(lines[k as int]) =~= lines.take(k as int + 1));
            }
            k = k + 1;
        }
        proof {
            assert(lines.take(k as int) =~= lines);
        }
        out
    }
}

/// The file form of a history: each line followed by a line feed.
pub open spec fn render_lines(lines: Seq<Seq<char>>) -> Seq<char>
    decreases lines.len(),
{
    if lines.len() == 0 {
        Seq::empty()
    } else {
        render_lines(lines.drop_last()) + lines.last() + seq!['\n']
    }
}

/// Rendering one more line appends it and a line feed.
proof fn lemma_render_push(lines: Seq<Seq<char>>, line: Seq<char>)
    ensures
        render_lines(lines.push(line)) == render_lines(lines) + line + seq!['\n'],
{
    assert(lines.push(line).drop_last() =~= lines);
    assert(lines.push(line).last() == line);
}

/// Cursor over a history stack for arrow-key navigation. `pointer` ranges
/// over `0..=size`, starting past the end; `size` is the history length at
/// the moment the cursor was created. The cursor never mutates the history.
pub struct HistoryNavigation {
    pub pointer: usize,
    pub size: usize,
}

impl HistoryNavigation {
    /// Well-formed cursors stay within `0..=size`.
    pub open spec fn wf(self) -> bool {
        self.pointer <= self.size
    }

    /// A cursor for a history of `size` entries, starting past the end.
    pub fn from_size(size: usize) -> (r: HistoryNavigation)
        ensures
            r.wf(),
            r.pointer == size,
            r.size == size,
    {
        HistoryNavigation { pointer: size, size }
    }

    /// Move one entry forward (towards newer lines) and return the entry now
    /// under the cursor; past the end there is no entry.
    pub fn next<'a>(&mut self, stack: &'a Vec<String>) -> (r: Option<&'a String>)
        requires
            old(self).wf(),
        ensures
            final(self).wf(),
            final(self).size == old(self).size,
            old(self).pointer == old(self).size ==> final(self).pointer == old(self).pointer
                && r is None,
            old(self).pointer < old(self).size ==> final(self).pointer == old(self).pointer + 1,
            old(self).pointer < old(self).size ==> (match r {
                Some(entry) => final(self).pointer < stack@.len()
                    && entry == &stack@[final(self).pointer as int],
                None => final(self).pointer >= stack@.len(),
            }),
    {
        if self.pointer == self.size {
            return None;
        }
        self.pointer = self.pointer + 1;
        if self.pointer < stack.len() {
            Some(&stack[self.pointer])
        } else {
            None
        }
    }

    /// Move one entry back (towards older lines) and return the entry now
    /// under the cursor; at the oldest entry the cursor stays put.
    pub fn previous<'a>(&mut self, stack: &'a Vec<String>) -> (r: Option<&'a String>)
        requires
            old(self).wf(),
        ensures
            final(self).wf(),
            final(self).size == old(self).size,
            final(self).pointer == if old(self).pointer == 0 {
                0
            } else {
                old(self).pointer - 1
            },
            match r {
                Some(entry) => final(self).pointer < stack@.len()
                    && entry == &stack@[final(self).pointer as int],
                None => final(self).pointer >= stack@.len(),
            },
    {
        if self.pointer != 0 {
            self.pointer = self.pointer - 1;
        }
        if self.pointer < stack.len() {
            Some(&stack[self.pointer])
        } else {
            None
        }
    }
}


/// The lines of a file's contents, split at line feeds, from position `i`
/// on: a line feed commits the piece being built (empty or not); a last piece
/// with no line feed after it is kept only when it holds something.
pub open spec fn split_lines_from(
    s: Seq<char>,
    i: int,
    cur: Seq<char>,
    done: Seq<Seq<char>>,
) -> Seq<Seq<char>>
    decreases s.len() - i,
{
    if i < 0 || i >= s.len() {
        if cur.len() == 0 {
            done
        } else {
            done.push(cur)
        }
    } else if s[i] == '\n' {
        split_lines_from(s, i + 1, Seq::empty(), done.push(cur))
    } else {
        split_lines_from(s, i + 1, cur.push(s[i]), done)
    }
}

/// The lines of a file's contents.
pub open spec fn split_lines_spec(s: Seq<char>) -> Seq<Seq<char>> {
    split_lines_from(s, 0, Seq::empty(), Seq::empty())
}

/// Split a file's contents into its lines, the line feed being the only
/// delimiter on disk.
pub fn split_lines(content: &str) -> (r: Vec<String>)
    ensures
        r.deep_view() == split_lines_spec(content@),
{
    let n = content.unicode_len();
    let mut done: Vec<String> = Vec::new();
    let mut cur = String::new();
    proof {
        assert(done.deep_view() =~= Seq::<Seq<char>>::empty());
    }
    let mut i: usize = 0;
    while i < n
        invariant
            i <= n,
            n == content@.len(),
            split_lines_from(content@, i as int, cur@, done.deep_view()) == split_lines_spec(
                content@,
            ),
        decreases n - i,
    {
        let c = content.get_char(i);
        if c == '\n' {
            let ghost done_pre = done;
            let ghost cur_pre = cur;
            done.push(cur);
            cur = String::new();
            proof {
                crate::strutil::lemma_deep_view_push(done_pre, done, cur_pre);
            }
        } else {
            crate::strutil::string_push_char(&mut cur, c);
        }
        i = i + 1;
    }
    if cur.unicode_len() > 0 {
        let ghost done_pre = done;
        let ghost cur_pre = cur;
        done.push(cur);
        proof {
            crate::strutil::lemma_deep_view_push(done_pre, done, cur_pre);
        }
    }
    done
}

/// Rendering reads left to right: the first line, a line feed, the rest.
proof fn lemma_render_cons(x: Seq<char>, rest: Seq<Seq<char>>)
    ensures
        render_lines(seq![x] + rest) == x + seq!['\n'] + render_lines(rest),
    decreases rest.len(),
{
    let whole = seq![x] + rest;
    if rest.len() == 0 {
        assert(whole.len() == 1);
        assert(whole.drop_last() =~= Seq::<Seq<char>>::empty());
        assert(whole.last() == x);
        assert(render_lines(whole) == render_lines(Seq::<Seq<char>>::empty()) + x + seq!['\n']);
        assert(Seq::<char>::empty() + x + seq!['\n'] =~= x + seq!['\n']);
        assert(x + seq!['\n'] + render_lines(rest) =~= x + seq!['\n']);
    } else {
        assert(whole.drop_last() =~= seq![x] + rest.drop_last());
        assert(whole.last() == rest.last());
        lemma_render_cons(x, rest.drop_last());
        assert(render_lines(whole) == (x + seq!['\n'] + render_lines(rest.drop_last()))
            + rest.last() + seq!['\n']);
        assert((x + seq!['\n'] + render_lines(rest.drop_last())) + rest.last() + seq!['\n'] =~= x
            + seq!['\n'] + (render_lines(rest.drop_last()) + rest.last() + seq!['\n']));
    }
}

/// Splitting scans a line-feed-free piece by appending it whole.
proof fn lemma_split_scan_line(input: Seq<char>, i: int, x: Seq<char>, cur: Seq<char>, done: Seq<Seq<char>>)
    requires
        0 <= i,
        i + x.len() <= input.len(),
        forall|k: int| 0 <= k < x.len() ==> #[trigger] input[i + k] == x[k],
        !x.contains('\n'),
    ensures
        split_lines_from(input, i, cur, done) == split_lines_from(
            input,
            i + x.len(),
            cur + x,
            done,
        ),
    decreases x.len(),
{
    if x.len() == 0 {
        assert(cur + x =~= cur);
    } else {
        assert(input[i + 0] == x[0]);
        assert(x[0] != '\n');
        assert forall|k: int| 0 <= k < x.skip(1).len() implies #[trigger] input[(i + 1) + k]
            == x.skip(1)[k] by {
            assert(input[i + (k + 1)] == x[k + 1]);
            assert(x.skip(1)[k] == x[k + 1]);
        }
        assert(!x.skip(1).contains('\n')) by {
            if x.skip(1).contains('\n') {
                let k = choose|k: int| 0 <= k < x.skip(1).len() && x.skip(1)[k] == '\n';
                assert(x[k + 1] == '\n');
            }
        }
        lemma_split_scan_line(input, i + 1, x.skip(1), cur.push(x[0]), done);
        assert(cur.push(x[0]) + x.skip(1) =~= cur + x);
    }
}

/// Splitting the rendering of some lines, none holding a line feed, gives the
/// lines back.
proof fn lemma_split_render_from(input: Seq<char>, i: int, lines: Seq<Seq<char>>, done: Seq<Seq<char>>)
    requires
        0 <= i <= input.len(),
        input.len() - i == render_lines(lines).len(),
        forall|k: int| 0 <= k < render_lines(lines).len() ==> #[trigger] input[i + k]
            == render_lines(lines)[k],
        forall|k: int| 0 <= k < lines.len() ==> !(#[trigger] lines[k]).contains('\n'),
    ensures
        split_lines_from(input, i, Seq::empty(), done) == done + lines,
    decreases lines.len(),
{
    if lines.len() == 0 {
        assert(render_lines(lines).len() == 0);
        assert(i == input.len());
        assert(done + lines =~= done);
    } else {
        let x = lines[0];
        let rest = lines.drop_first();
        assert(seq![x] + rest =~= lines);
        lemma_render_cons(x, rest);
        let r = render_lines(lines);
        assert(r == x + seq!['\n'] + render_lines(rest));
        let xn = x.len() as int;
        assert forall|k: int| 0 <= k < x.len() implies #[trigger] input[i + k] == x[k] by {
            assert(input[i + k] == r[k]);
            assert(r[k] == (x + seq!['\n'] + render_lines(rest))[k]);
        }
        lemma_split_scan_line(input, i, x, Seq::empty(), done);
        assert(Seq::<char>::empty() + x =~= x);
        assert(input[i + xn] == r[xn]);
        assert(r[xn] == '\n') by {
            assert((x + seq!['\n'] + render_lines(rest))[xn] == '\n');
        }
        assert(split_lines_from(input, i + xn, x, done) == split_lines_from(
            input,
            i + xn + 1,
            Seq::empty(),
            done.push(x),
        ));
        assert forall|k: int| 0 <= k < render_lines(rest).len() implies #[trigger] input[(i + xn
            + 1) + k] == render_lines(rest)[k] by {
            assert(input[i + ((xn + 1) + k)] == r[(xn + 1) + k]);
            assert(r[(xn + 1) + k] == (x + seq!['\n'] + render_lines(rest))[(xn + 1) + k]);
        }
        assert(forall|k: int| 0 <= k < rest.len() ==> !(#[trigger] rest[k]).contains('\n')) by {
            assert(forall|k: int| 0 <= k < rest.len() ==> rest[k] == #[trigger] lines[k + 1]);
        }
        lemma_split_render_from(input, i + xn + 1, rest, done.push(x));
        assert(done.push(x) + rest =~= done + lines);
    }
}

/// Law: saving and loading round-trips a history. For lines without embedded
/// line feeds, splitting the rendered file contents gives the lines back.
pub proof fn lemma_render_split_round_trip(lines: Seq<Seq<char>>)
    requires
        forall|k: int| 0 <= k < lines.len() ==> !(#[trigger] lines[k]).contains('\n'),
    ensures
        split_lines_spec(render_lines(lines)) == lines,
{
    let input = render_lines(lines);
    assert(forall|k: int| 0 <= k < input.len() ==> #[trigger] input[0 + k] == input[k]);
    lemma_split_render_from(input, 0, lines, Seq::empty());
    assert(Seq::<Seq<char>>::empty() + lines =~= lines);
}

} // verus!
