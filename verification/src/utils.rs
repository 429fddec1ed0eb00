//! Small helpers: splitting token lists, tilde expansion, and looking a
//! command up in the directories of a search path. The search-path string and
//! the home directory are handed in by the caller; only the two disk probes
//! are trusted.

use vstd::prelude::*;

use crate::strutil::concat_str;
use crate::strutil::lemma_deep_view_push;
use crate::strutil::string_push_char;

verus! {

use vstd::string::StrSliceExecFns;

/// Groups of the elements of `v` from position `i` on, split at `d`, with
/// empty groups left out; `cur` is the group being built and `done` the
/// groups already committed.
pub open spec fn split_by_delim_from(
    v: Seq<Seq<char>>,
    i: int,
    d: Seq<char>,
    cur: Seq<Seq<char>>,
    done: Seq<Seq<Seq<char>>>,
) -> Seq<Seq<Seq<char>>>
    decreases v.len() - i,
{
    if i < 0 || i >= v.len() {
        if cur.len() == 0 {
            done
        } else {
            done.push(cur)
        }
    } else if v[i] == d {
        if cur.len() == 0 {
            split_by_delim_from(v, i + 1, d, cur, done)
        } else {
            split_by_delim_from(v, i + 1, d, Seq::empty(), done.push(cur))
        }
    } else {
        split_by_delim_from(v, i + 1, d, cur.push(v[i]), done)
    }
}

/// The groups of `v` split at `d`, empty groups left out.
pub open spec fn split_by_delim(v: Seq<Seq<char>>, d: Seq<char>) -> Seq<Seq<Seq<char>>> {
    split_by_delim_from(v, 0, d, Seq::empty(), Seq::empty())
}

/// Split a vector of strings into groups at a delimiter string. Groups with
/// no elements between delimiters are not part of the result.
pub fn split_vec_by_delimiter(vec: Vec<String>, delimiter: &str) -> (r: Vec<Vec<String>>)
    ensures
        r.deep_view() == split_by_delim(vec.deep_view(), delimiter@),
{
    let ghost vd = vec.deep_view();
    let mut result: Vec<Vec<String>> = Vec::new();
    let mut current_group: Vec<String> = Vec::new();
    proof {
        assert(result.deep_view() =~= Seq::<Seq<Seq<char>>>::empty());
        assert(current_group.deep_view() =~= Seq::<Seq<char>>::empty());
    }
    let mut i: usize = 0;
    while i < vec.len()
        invariant
            i <= vec@.len(),
            vd == vec.deep_view(),
            split_by_delim_from(
                vd,
                i as int,
                delimiter@,
                current_group.deep_view(),
                result.deep_view(),
            ) == split_by_delim(vd, delimiter@),
        decreases vec@.len() - i,
    {
        proof {
            assert(vd[i as int] == vec@[i as int]@);
        }
        if crate::strutil::str_eq(vec[i].as_str(), delimiter) {
            if current_group.len() > 0 {
                let ghost result_pre = result;
                let ghost group_pre = current_group;
                result.push(current_group);
                current_group = Vec::new();
                proof {
                    lemma_deep_view_push(result_pre, result, group_pre);
                    assert(current_group.deep_view() =~= Seq::<Seq<char>>::empty());
                }
            }
        } else {
            let item = vec[i].clone();
            let ghost group_pre = current_group;
            let ghost item_pre = item;
            current_group.push(item);
            proof {
                lemma_deep_view_push(group_pre, current_group, item_pre);
            }
        }
        i = i + 1;
    }
    if current_group.len() > 0 {
        let ghost result_pre = result;
        let ghost group_pre = current_group;
        result.push(current_group);
        proof {
            lemma_deep_view_push(result_pre, result, group_pre);
        }
    }
    result
}

/// `p` with a leading tilde replaced by `home`; any other path, and any
/// other tilde, stays as it is.
pub open spec fn expand_leading_tilde(p: Seq<char>, home: Seq<char>) -> Seq<char> {
    if p.len() > 0 && p[0] == '~' {
        home + p.skip(1)
    } else {
        p
    }
}

/// The path with a leading `~` replaced by the home directory.
pub fn expand_tilda(path: &str, home: &str) -> (r: String)
    ensures
        r@ == expand_leading_tilde(path@, home@),
{
    let n = path.unicode_len();
    if n > 0 && path.get_char(0) == '~' {
        let rest = path.substring_char(1, n);
        let r = concat_str(home, rest);
        proof {
            assert(rest@ =~= path@.skip(1));
        }
        r
    } else {
        path.to_owned()
    }
}

/// The elements of `s` split at `:` characters, empty pieces kept.
pub open spec fn split_colon_from(s: Seq<char>, i: int, cur: Seq<char>, done: Seq<Seq<char>>) -> Seq<
    Seq<char>,
>
    decreases s.len() - i,
{
    if i < 0 || i >= s.len() {
        done.push(cur)
    } else if s[i] == ':' {
        split_colon_from(s, i + 1, Seq::empty(), done.push(cur))
    } else {
        split_colon_from(s, i + 1, cur.push(s[i]), done)
    }
}

/// The pieces of a colon-separated search path.
pub open spec fn split_colon(s: Seq<char>) -> Seq<Seq<char>> {
    split_colon_from(s, 0, Seq::empty(), Seq::empty())
}

/// The colon-separated pieces of a string.
pub fn split_colon_exec(s: &str) -> (r: Vec<String>)
    ensures
        r.deep_view() == split_colon(s@),
{
    let n = s.unicode_len();
    let mut done: Vec<String> = Vec::new();
    let mut cur = String::new();
    proof {
        assert(done.deep_view() =~= Seq::<Seq<char>>::empty());
    }
    let mut i: usize = 0;
    while i < n
        invariant
            i <= n,
            n == s@.len(),
            split_colon_from(s@, i as int, cur@, done.deep_view()) == split_colon(s@),
        decreases n - i,
    {
        let c = s.get_char(i);
        if c == ':' {
            let ghost done_pre = done;
            let ghost cur_pre = cur;
            done.push(cur);
            cur = String::new();
            proof {
                lemma_deep_view_push(done_pre, done, cur_pre);
            }
        } else {
            string_push_char(&mut cur, c);
        }
        i = i + 1;
    }
    let ghost done_pre = done;
    let ghost cur_pre = cur;
    done.push(cur);
    proof {
        lemma_deep_view_push(done_pre, done, cur_pre);
    }
    done
}

/// Relies on is_executable::is_executable: whether a file exists at the path
/// and is executable. The answer depends on the disk, so nothing is promised
/// of it.
#[verifier::external_body]
fn is_executable_path(path: &str) -> bool {
    is_executable::is_executable(std::path::Path::new(path))
}

/// Relies on std's Path::exists: whether anything exists on disk at the
/// path. The answer depends on the disk, so nothing is promised of it.
#[verifier::external_body]
fn path_exists(path: &str) -> bool {
    std::path::Path::new(path).exists()
}

/// Look `command` up in each directory of the colon-separated search path,
/// in order. Whether a candidate is accepted depends on the disk; what is
/// returned is always `directory/command` for one of the directories.
pub fn find_command(command: &str, path: &str) -> (r: Option<String>)
    ensures
        match r {
            Some(found) => exists|k: int|
                0 <= k < split_colon(path@).len() && found@ == #[trigger] split_colon(path@)[k]
                    + seq!['/'] + command@,
            None => true,
        },
{
    let dirs = split_colon_exec(path);
    let mut k: usize = 0;
    while k < dirs.len()
        invariant
            k <= dirs@.len(),
            dirs.deep_view() == split_colon(path@),
        decreases dirs@.len() - k,
    {
        proof {
            assert(dirs.deep_view()[k as int] == dirs@[k as int]@);
        }
        let with_slash = concat_str(dirs[k].as_str(), "/");
        let candidate = concat_str(with_slash.as_str(), command);
        proof {
            reveal_strlit("/");
            assert("/"@ =~= seq!['/']);
            assert(candidate@ == split_colon(path@)[k as int] + seq!['/'] + command@);
        }
        if path_exists(candidate.as_str()) && is_executable_path(candidate.as_str()) {
            return Some(candidate);
        }
        k = k + 1;
    }
    None
}

} // verus!
