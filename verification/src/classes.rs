//! Character classes of the selector grammar, and maximal runs of a class.
//!
//! Every layer of the tokenizer advances by scanning the longest run of
//! characters drawn from one class. `run_end` is the mathematical
//! definition of where such a run stops; `run_end_exec` computes it.

use vstd::prelude::*;

verus! {

/// The character classes that drive the layered tokenizers.
#[derive(Clone, Copy, PartialEq, Eq, Debug)]
pub enum CharClass {
    /// Whitespace inside a fragment: space, tab, newline, form feed.
    Ws,
    /// Separators between fragments: whitespace or a comma.
    Sep,
    /// Characters allowed in a key: word characters plus `-`, `.` and `/`.
    Key,
    /// Characters allowed in an equality value: word characters plus `-` and `.`.
    Value,
    /// Characters allowed in a value-list member: letters, `_` and `-`.
    /// Deliberately narrower than `Value`: digits and `.` are rejected
    /// inside a parenthesized list.
    Item,
    /// Characters that may appear between the parentheses of a value list
    /// when a fragment is classified: value characters, whitespace, commas.
    List,
    /// Any character other than the `)` that closes a value list.
    NotClose,
}

/// ASCII word character: letter, digit or underscore.
pub open spec fn is_word_char(c: char) -> bool {
    ||| ('a' as u32) <= (c as u32) && (c as u32) <= ('z' as u32)
    ||| ('A' as u32) <= (c as u32) && (c as u32) <= ('Z' as u32)
    ||| ('0' as u32) <= (c as u32) && (c as u32) <= ('9' as u32)
    ||| c == '_'
}

/// ASCII letter.
pub open spec fn is_letter(c: char) -> bool {
    ||| ('a' as u32) <= (c as u32) && (c as u32) <= ('z' as u32)
    ||| ('A' as u32) <= (c as u32) && (c as u32) <= ('Z' as u32)
}

/// Whitespace recognized inside fragments: space, tab, newline, form feed.
pub open spec fn is_ws_char(c: char) -> bool {
    c == ' ' || c == '\t' || c == '\n' || c == '\u{000C}'
}

/// Which characters belong to a class.
pub open spec fn char_in(cls: CharClass, c: char) -> bool {
    match cls {
        CharClass::Ws => is_ws_char(c),
        CharClass::Sep => is_ws_char(c) || c == ',',
        CharClass::Key => is_word_char(c) || c == '-' || c == '.' || c == '/',
        CharClass::Value => is_word_char(c) || c == '-' || c == '.',
        CharClass::Item => is_letter(c) || c == '_' || c == '-',
        CharClass::List => is_word_char(c) || c == '-' || c == '.' || is_ws_char(c) || c == ',',
        CharClass::NotClose => c != ')',
    }
}

/// The end of the maximal run of `cls` characters starting at `i`.
pub open spec fn run_end(s: Seq<char>, i: int, cls: CharClass) -> int
    decreases s.len() - i
        when 0 <= i <= s.len()
{
    if i < s.len() && char_in(cls, s[i]) {
        run_end(s, i + 1, cls)
    } else {
        i
    }
}

/// What a maximal run means: every character inside it is in the class,
/// and the run is not extendable.
pub proof fn lemma_run_end(s: Seq<char>, i: int, cls: CharClass)
    requires
        0 <= i <= s.len(),
    ensures
        i <= run_end(s, i, cls) <= s.len(),
        forall|k: int| i <= k < run_end(s, i, cls) ==> char_in(cls, #[trigger] s[k]),
        run_end(s, i, cls) == s.len() || !char_in(cls, s[run_end(s, i, cls)]),
    decreases s.len() - i,
{
    if i < s.len() && char_in(cls, s[i]) {
        lemma_run_end(s, i + 1, cls);
    }
}

/// The converse: a position that closes a non-extendable all-class stretch
/// is exactly where the run ends.
pub proof fn lemma_run_end_is(s: Seq<char>, i: int, j: int, cls: CharClass)
    requires
        0 <= i <= j <= s.len(),
        forall|k: int| i <= k < j ==> char_in(cls, #[trigger] s[k]),
        j == s.len() || !char_in(cls, s[j]),
    ensures
        run_end(s, i, cls) == j,
    decreases j - i,
{
    if i < j {
        lemma_run_end_is(s, i + 1, j, cls);
    }
}

/// A run taken inside a subrange is the run of the full sequence,
/// capped at the subrange's end.
pub proof fn lemma_run_end_subrange(s: Seq<char>, a: int, b: int, i: int, cls: CharClass)
    requires
        0 <= a <= i <= b <= s.len(),
    ensures
        run_end(s.subrange(a, b), i - a, cls) == (if run_end(s, i, cls) <= b {
            run_end(s, i, cls)
        } else {
            b
        }) - a,
{
    lemma_run_end(s, i, cls);
    let e = run_end(s, i, cls);
    let cap = if e <= b { e } else { b };
    lemma_run_end_is(s.subrange(a, b), i - a, cap - a, cls);
}

/// Decides membership of one character in a class.
pub fn char_in_exec(cls: CharClass, c: char) -> (b: bool)
    ensures
        b == char_in(cls, c),
{
    let u = c as u32;
    let word = (97 <= u && u <= 122) || (65 <= u && u <= 90) || (48 <= u && u <= 57) || c == '_';
    let letter = (97 <= u && u <= 122) || (65 <= u && u <= 90);
    let ws = c == ' ' || c == '\t' || c == '\n' || c == '\u{000C}';
    match cls {
        CharClass::Ws => ws,
        CharClass::Sep => ws || c == ',',
        CharClass::Key => word || c == '-' || c == '.' || c == '/',
        CharClass::Value => word || c == '-' || c == '.',
        CharClass::Item => letter || c == '_' || c == '-',
        CharClass::List => word || c == '-' || c == '.' || ws || c == ',',
        CharClass::NotClose => c != ')',
    }
}

/// Scans the maximal run of `cls` characters starting at `i`.
pub fn run_end_exec(s: &str, n: usize, i: usize, cls: CharClass) -> (j: usize)
    requires
        n == s@.len(),
        i <= n,
    ensures
        i <= j <= n,
        j == run_end(s@, i as int, cls),
{
    let mut j = i;
    while j < n && char_in_exec(cls, s.get_char(j))
        invariant
            n == s@.len(),
            i <= j <= n,
            run_end(s@, i as int, cls) == run_end(s@, j as int, cls),
        decreases n - j,
    {
        j = j + 1;
    }
    proof {
        lemma_run_end(s@, j as int, cls);
    }
    j
}

} // verus!
