//! Small executable helpers for building strings character by character.

use vstd::prelude::*;

verus! {

use vstd::string::StrSliceExecFns;

/// Relies on std's String::push: appends the given character to the end of
/// the string.
#[verifier::external_body]
pub fn string_push_char(s: &mut String, c: char)
    ensures
        final(s)@ == old(s)@.push(c),
{
    s.push(c);
}

/// The string spelled by a sequence of characters.
pub fn chars_to_string(chars: &Vec<char>) -> (r: String)
    ensures
        r@ == chars@,
{
    let mut r = String::new();
    let mut k: usize = 0;
    while k < chars.len()
        invariant
            k <= chars@.len(),
            r@ == chars@.take(k as int),
        decreases chars@.len() - k,
    {
        string_push_char(&mut r, chars[k]);
        proof {
            assert(chars@.take(k as int).push(chars@[k as int]) =~= chars@.take(k + 1));
        }
        k = k + 1;
    }
    proof {
        assert(chars@.take(k as int) =~= chars@);
    }
    r
}

/// The characters of a string, as a vector.
pub fn str_to_chars(s: &str) -> (r: Vec<char>)
    ensures
        r@ == s@,
{
    let n = s.unicode_len();
    let mut r: Vec<char> = Vec::new();
    let mut k: usize = 0;
    while k < n
        invariant
            k <= n,
            n == s@.len(),
            r@ == s@.take(k as int),
        decreases n - k,
    {
        r.push(s.get_char(k));
        proof {
            assert(s@.take(k as int).push(s@[k as int]) =~= s@.take(k + 1));
        }
        k = k + 1;
    }
    proof {
        assert(s@.take(k as int) =~= s@);
    }
    r
}

/// The characters of a vector, one by one, are its deep view.
pub proof fn lemma_chars_deep_view(v: Vec<char>)
    ensures
        v.deep_view() == v@,
{
    assert(v.deep_view() =~= v@);
}

/// Pushing onto a vector pushes onto its deep view.
pub proof fn lemma_deep_view_push<T: DeepView>(prev: Vec<T>, now: Vec<T>, x: T)
    requires
        now@ == prev@.push(x),
    ensures
        now.deep_view() == prev.deep_view().push(x.deep_view()),
{
    assert(now.deep_view() =~= prev.deep_view().push(x.deep_view())) by {
        assert forall|k: int| 0 <= k < now@.len() implies now.deep_view()[k]
            == prev.deep_view().push(x.deep_view())[k] by {
            if k < prev@.len() {
                assert(now@[k] == prev@[k]);
            } else {
                assert(now@[k] == x);
            }
        }
    }
}

/// Whether two strings spell the same characters.
pub fn str_eq(a: &str, b: &str) -> (r: bool)
    ensures
        r == (a@ == b@),
{
    let n = a.unicode_len();
    if n != b.unicode_len() {
        return false;
    }
    let mut k: usize = 0;
    while k < n
        invariant
            k <= n,
            n == a@.len(),
            n == b@.len(),
            a@.take(k as int) == b@.take(k as int),
        decreases n - k,
    {
        if a.get_char(k) != b.get_char(k) {
            proof {
                assert(a@[k as int] != b@[k as int]);
            }
            return false;
        }
        proof {
            assert(a@.take(k + 1) =~= a@.take(k as int).push(a@[k as int]));
            assert(b@.take(k + 1) =~= b@.take(k as int).push(b@[k as int]));
        }
        k = k + 1;
    }
    proof {
        assert(a@.take(k as int) =~= a@);
        assert(b@.take(k as int) =~= b@);
    }
    true
}

/// The concatenation of two strings.
pub fn concat_str(a: &str, b: &str) -> (r: String)
    ensures
        r@ == a@ + b@,
{
    let mut r = a.to_owned();
    r.append(b);
    r
}

/// A copy of a character vector.
pub fn clone_chars(v: &Vec<char>) -> (r: Vec<char>)
    ensures
        r@ == v@,
{
    let r = v.clone();
    proof {
        assert(r@ =~= v@);
    }
    r
}

} // verus!
