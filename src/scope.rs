use vstd::prelude::*;

use ropey::Rope;

use crate::errors::FindingScopeError;
use crate::text::{rope_char, rope_len, rope_text};

verus! {

/// The position of the first brace at or after `i`.
pub open spec fn first_brace(t: Seq<char>, i: int) -> Option<int>
    decreases t.len() - i,
{
    if i < 0 || i >= t.len() {
        None
    } else if t[i] == '{' || t[i] == '}' {
        Some(i)
    } else {
        first_brace(t, i + 1)
    }
}

/// The position of the `}` that closes the scope, reading from `k` with `d` scopes open.
pub open spec fn closing_brace(t: Seq<char>, k: int, d: int) -> Option<int>
    decreases t.len() - k,
{
    if k < 0 || k >= t.len() {
        None
    } else if t[k] == '}' && d == 1 {
        Some(k)
    } else if t[k] == '}' {
        closing_brace(t, k + 1, d - 1)
    } else if t[k] == '{' {
        closing_brace(t, k + 1, d + 1)
    } else {
        closing_brace(t, k + 1, d)
    }
}

/// The next scope at or after `start`: the positions of its `{` and of the `}` that
/// closes it; none where no brace is left; an error where a `}` comes first or the
/// scope is never closed.
pub open spec fn locate(t: Seq<char>, start: int) -> Result<Option<(int, int)>, FindingScopeError> {
    match first_brace(t, start) {
        None => Ok(None),
        Some(o) => if t[o] == '}' {
            Err(FindingScopeError::FoundEndingBraceBeforeStartingBrace)
        } else {
            match closing_brace(t, o + 1, 1) {
                None => Err(FindingScopeError::NoEndingBrace),
                Some(c) => Ok(Some((o, c))),
            }
        },
    }
}

/// No brace at all from `start` on.
pub open spec fn no_braces_from(t: Seq<char>, start: int) -> bool {
    forall|k: int| start <= k < t.len() ==> #[trigger] t[k] != '{' && t[k] != '}'
}

/// Where no brace is left, there is no scope to locate.
pub proof fn lemma_no_braces_no_scope(t: Seq<char>, start: int)
    requires
        0 <= start,
        no_braces_from(t, start),
    ensures
        locate(t, start) == Ok::<Option<(int, int)>, FindingScopeError>(None),
    decreases t.len() - start,
{
    if start < t.len() {
        lemma_no_braces_no_scope(t, start + 1);
    }
}

/// Finds the next scope of the text at or after `start_idx`.
pub fn find_next_scope(text: &Rope, start_idx: usize) -> (r: Result<Option<(usize, usize)>, FindingScopeError>)
    ensures
        match locate(rope_text(*text), start_idx as int) {
            Ok(None) => r == Ok::<Option<(usize, usize)>, FindingScopeError>(None),
            Ok(Some((o, c))) => r matches Ok(Some((o2, c2))) && o2 == o && c2 == c,
            Err(e) => r == Err::<Option<(usize, usize)>, FindingScopeError>(e),
        },
        r matches Ok(Some((o, c))) ==> start_idx <= o < c < rope_text(*text).len(),
{
    let ghost t = rope_text(*text);
    let n = rope_len(text);
    let mut i = start_idx;
    while i < n
        invariant
            t == rope_text(*text),
            n == t.len(),
            start_idx <= i,
            first_brace(t, start_idx as int) == first_brace(t, i as int),
        decreases n - i,
    {
        let c = rope_char(text, i);
        if c == '}' {
            return Err(FindingScopeError::FoundEndingBraceBeforeStartingBrace);
        }
        if c == '{' {
            assert(first_brace(t, i as int) == Some(i as int));
            let mut depth: usize = 1;
            let mut k = i + 1;
            while k < n
                invariant
                    t == rope_text(*text),
                    n == t.len(),
                    i < k <= n,
                    start_idx <= i,
                    i < t.len(),
                    t[i as int] == '{',
                    first_brace(t, start_idx as int) == Some(i as int),
                    1 <= depth <= k - i,
                    closing_brace(t, i + 1, 1) == closing_brace(t, k as int, depth as int),
                decreases n - k,
            {
                let c2 = rope_char(text, k);
                if c2 == '}' {
                    if depth == 1 {
                        return Ok(Some((i, k)));
                    }
                    depth = depth - 1;
                } else if c2 == '{' {
                    depth = depth + 1;
                }
                k = k + 1;
            }
            return Err(FindingScopeError::NoEndingBrace);
        }
        i = i + 1;
    }
    Ok(None)
}

} // verus!
