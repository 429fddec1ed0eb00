//! The completion index and the editor's tab-completion context. The index
//! holds the built-in command names and every executable name the caller
//! found on the search path.

use vstd::prelude::*;

use crate::trie::Trie;

verus! {

/// The words the completion index holds: the five built-in command names and
/// every non-empty name among the first `k` executables.
pub open spec fn completion_words(executables: Seq<Seq<char>>, k: int) -> Set<Seq<char>> {
    Set::new(
        |w: Seq<char>|
            w == "echo"@ || w == "exit"@ || w == "type"@ || w == "pwd"@ || w == "cd"@ || (exists|
                j: int,
            |
                0 <= j < k && j < executables.len() && executables[j] == w && w.len() > 0),
    )
}

/// Build the completion index from the five built-in names and the given
/// executable names (empty names are not words and are left out).
pub fn setup_cmd_completions(executables: &Vec<String>) -> (r: Trie)
    ensures
        r@ == completion_words(executables.deep_view(), executables.deep_view().len() as int),
{
    let ghost ex = executables.deep_view();
    let mut completions = Trie::new();
    completions.insert("echo");
    completions.insert("exit");
    completions.insert("type");
    completions.insert("pwd");
    completions.insert("cd");
    proof {
        reveal_strlit("echo");
        reveal_strlit("exit");
        reveal_strlit("type");
        reveal_strlit("pwd");
        reveal_strlit("cd");
        assert("echo"@.len() == 4 && "exit"@.len() == 4 && "type"@.len() == 4 && "pwd"@.len() == 3
            && "cd"@.len() == 2);
        assert(completions@ =~= completion_words(ex, 0)) by {
            assert(completions@ == Set::<Seq<char>>::empty().insert("echo"@).insert(
                "exit"@,
            ).insert("type"@).insert("pwd"@).insert("cd"@));
        }
    }
    let mut k: usize = 0;
    while k < executables.len()
        invariant
            k <= executables@.len(),
            ex == executables.deep_view(),
            completions@ == completion_words(ex, k as int),
        decreases executables@.len() - k,
    {
        let ghost before = completions@;
        completions.insert(executables[k].as_str());
        proof {
            assert(ex[k as int] == executables@[k as int]@);
            if executables@[k as int]@.len() > 0 {
                assert(completions@ == before.insert(ex[k as int]));
            }
            assert(completions@ =~= completion_words(ex, k as int + 1));
        }
        k = k + 1;
    }
    completions
}

/// The editor's memory of an unsuccessful TAB: whether the next TAB should
/// list, and what it should list.
pub struct TabCompletionsCtx {
    pub enabled: bool,
    pub completions: Vec<String>,
}

impl TabCompletionsCtx {
    /// A fresh context: disabled, nothing remembered.
    pub fn new() -> (r: TabCompletionsCtx)
        ensures
            !r.enabled,
            r.completions@.len() == 0,
    {
        TabCompletionsCtx { enabled: false, completions: Vec::new() }
    }

    /// Forget the remembered completions and disable listing.
    pub fn reset(&mut self)
        ensures
            !final(self).enabled,
            final(self).completions@.len() == 0,
    {
        self.enabled = false;
        self.completions.clear();
    }

    /// The next TAB lists.
    pub fn enable(&mut self)
        ensures
            final(self).enabled,
            final(self).completions == old(self).completions,
    {
        self.enabled = true;
    }

    /// Remember what to list.
    pub fn set_completions(&mut self, completions: Vec<String>)
        ensures
            final(self).enabled == old(self).enabled,
            final(self).completions == completions,
    {
        self.completions = completions;
    }

    /// Whether the next TAB lists.
    pub fn is_enabled(&self) -> (r: bool)
        ensures
            r == self.enabled,
    {
        self.enabled
    }
}

} // verus!
