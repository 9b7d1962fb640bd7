//! Shell variables.

use vstd::prelude::*;

use crate::strmap::StrMap;
use crate::text::{owned, str_chars};

verus! {

/// Stores (or overwrites) the shell variable `name` with `value`.
pub fn set(vars: &mut StrMap, name: &str, value: &str)
    ensures
        final(vars)@ == old(vars)@.insert(name@, value@),
{
    vars.insert(owned(name), owned(value));
}

/// A copy of the value of `name`, or `None` if it is not set.
pub fn get(vars: &StrMap, name: &str) -> (r: Option<String>)
    ensures
        match r {
            Some(v) => vars@.contains_key(name@) && vars@[name@] == v@,
            None => !vars@.contains_key(name@),
        },
{
    vars.get(name)
}

/// An ASCII letter.
pub open spec fn is_alpha(c: char) -> bool {
    ('a' <= c && c <= 'z') || ('A' <= c && c <= 'Z')
}

/// An ASCII digit.
pub open spec fn is_digit(c: char) -> bool {
    '0' <= c && c <= '9'
}

/// A valid shell variable name: a letter or underscore, then only ASCII
/// letters, digits and underscores.
pub open spec fn valid_name(s: Seq<char>) -> bool {
    &&& s.len() > 0
    &&& (s[0] == '_' || is_alpha(s[0]))
    &&& forall|i: int| 1 <= i < s.len() ==> (#[trigger] s[i] == '_' || is_alpha(s[i]) || is_digit(
        s[i],
    ))
}

/// Whether `name` is a valid shell variable name (see `valid_name`).
pub fn is_valid_name(name: &str) -> (b: bool)
    ensures
        b == valid_name(name@),
{
    let c = str_chars(name);
    if c.len() == 0 {
        return false;
    }
    let first = c[0];
    if !(first == '_' || ('a' <= first && first <= 'z') || ('A' <= first && first <= 'Z')) {
        return false;
    }
    let n = c.len();
    let mut i: usize = 1;
    while i < n
        invariant
            n == c@.len(),
            c@ == name@,
            1 <= i <= n,
            forall|k: int| 1 <= k < i ==> (#[trigger] c@[k] == '_' || is_alpha(c@[k]) || is_digit(
                c@[k],
            )),
        decreases n - i,
    {
        let ch = c[i];
        if !(ch == '_' || ('a' <= ch && ch <= 'z') || ('A' <= ch && ch <= 'Z') || ('0' <= ch && ch
            <= '9')) {
            return false;
        }
        i = i + 1;
    }
    true
}

/// Law: reading a variable right after setting it gives the value set,
/// and setting one variable leaves every other variable as it was.
pub proof fn lemma_get_after_set(
    vars: Map<Seq<char>, Seq<char>>,
    name: Seq<char>,
    value: Seq<char>,
    other: Seq<char>,
)
    requires
        other != name,
    ensures
        vars.insert(name, value).contains_key(name),
        vars.insert(name, value)[name] == value,
        vars.insert(name, value).contains_key(other) == vars.contains_key(other),
        vars.contains_key(other) ==> vars.insert(name, value)[other] == vars[other],
{
}

} // verus!
