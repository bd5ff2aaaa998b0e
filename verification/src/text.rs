//! Character-level helpers for splitting a task's context into a title
//! line and a description body.

use vstd::prelude::*;

verus! {

use vstd::string::StrSliceExecFns;

/// The Unicode white-space characters, as Rust's `char::is_whitespace`
/// recognises them.
pub open spec fn is_space(c: char) -> bool {
    c == '\u{0009}' || c == '\u{000A}' || c == '\u{000B}' || c == '\u{000C}' || c == '\u{000D}'
        || c == '\u{0020}' || c == '\u{0085}' || c == '\u{00A0}' || c == '\u{1680}'
        || c == '\u{2000}' || c == '\u{2001}' || c == '\u{2002}' || c == '\u{2003}'
        || c == '\u{2004}' || c == '\u{2005}' || c == '\u{2006}' || c == '\u{2007}'
        || c == '\u{2008}' || c == '\u{2009}' || c == '\u{200A}' || c == '\u{2028}'
        || c == '\u{2029}' || c == '\u{202F}' || c == '\u{205F}' || c == '\u{3000}'
}

pub fn is_space_char(c: char) -> (r: bool)
    ensures
        r == is_space(c),
{
    c == '\u{0009}' || c == '\u{000A}' || c == '\u{000B}' || c == '\u{000C}' || c == '\u{000D}'
        || c == '\u{0020}' || c == '\u{0085}' || c == '\u{00A0}' || c == '\u{1680}'
        || c == '\u{2000}' || c == '\u{2001}' || c == '\u{2002}' || c == '\u{2003}'
        || c == '\u{2004}' || c == '\u{2005}' || c == '\u{2006}' || c == '\u{2007}'
        || c == '\u{2008}' || c == '\u{2009}' || c == '\u{200A}' || c == '\u{2028}'
        || c == '\u{2029}' || c == '\u{202F}' || c == '\u{205F}' || c == '\u{3000}'
}

/// Every character of `s` is white space (so `s` trims to the empty string).
pub open spec fn trim_empty(s: Seq<char>) -> bool {
    forall|i: int| 0 <= i < s.len() ==> is_space(#[trigger] s[i])
}

/// Index of the first line feed in `s`, or `s.len()` if there is none.
pub open spec fn first_nl(s: Seq<char>) -> int
    decreases s.len(),
{
    if s.len() == 0 {
        0
    } else if s[0] == '\n' {
        0
    } else {
        1 + first_nl(s.subrange(1, s.len() as int))
    }
}

/// Number of line feeds at the front of `s`.
pub open spec fn leading_nl(s: Seq<char>) -> int
    decreases s.len(),
{
    if s.len() == 0 {
        0
    } else if s[0] != '\n' {
        0
    } else {
        1 + leading_nl(s.subrange(1, s.len() as int))
    }
}

/// The first line of `s` as `str::lines` yields it: everything before the
/// first line feed, with a carriage return dropped when the line feed
/// follows one; the whole of `s` when it has no line feed.
pub open spec fn spec_first_line(s: Seq<char>) -> Seq<char> {
    let k = first_nl(s);
    if k < s.len() && 0 < k && s[k - 1] == '\r' {
        s.subrange(0, k - 1)
    } else {
        s.subrange(0, k)
    }
}

pub proof fn lemma_first_nl(s: Seq<char>)
    ensures
        0 <= first_nl(s) <= s.len(),
        forall|i: int| 0 <= i < first_nl(s) ==> s[i] != '\n',
        first_nl(s) < s.len() ==> s[first_nl(s)] == '\n',
    decreases s.len(),
{
    if s.len() == 0 {
    } else if s[0] == '\n' {
    } else {
        let t = s.subrange(1, s.len() as int);
        lemma_first_nl(t);
        assert forall|i: int| 0 <= i < first_nl(s) implies s[i] != '\n' by {
            if i >= 1 {
                assert(s[i] == t[i - 1]);
            }
        }
    }
}

pub proof fn lemma_first_nl_unique(s: Seq<char>, k: int)
    requires
        0 <= k <= s.len(),
        forall|i: int| 0 <= i < k ==> s[i] != '\n',
        k < s.len() ==> s[k] == '\n',
    ensures
        k == first_nl(s),
{
    lemma_first_nl(s);
}

pub proof fn lemma_leading_nl(s: Seq<char>)
    ensures
        0 <= leading_nl(s) <= s.len(),
        forall|i: int| 0 <= i < leading_nl(s) ==> s[i] == '\n',
        leading_nl(s) < s.len() ==> s[leading_nl(s)] != '\n',
    decreases s.len(),
{
    if s.len() == 0 {
    } else if s[0] != '\n' {
    } else {
        let t = s.subrange(1, s.len() as int);
        lemma_leading_nl(t);
        assert forall|i: int| 0 <= i < leading_nl(s) implies s[i] == '\n' by {
            if i >= 1 {
                assert(s[i] == t[i - 1]);
            }
        }
    }
}

pub proof fn lemma_leading_nl_unique(s: Seq<char>, k: int)
    requires
        0 <= k <= s.len(),
        forall|i: int| 0 <= i < k ==> s[i] == '\n',
        k < s.len() ==> s[k] != '\n',
    ensures
        k == leading_nl(s),
{
    lemma_leading_nl(s);
}

/// Index of the first line feed of `s`, or its length if there is none.
pub fn find_newline(s: &str) -> (k: usize)
    ensures
        k as int == first_nl(s@),
{
    let n: usize = s.unicode_len();
    let mut i: usize = 0;
    while i < n
        invariant
            0 <= i <= n,
            n as int == s@.len(),
            forall|j: int| 0 <= j < i ==> s@[j] != '\n',
        decreases n - i,
    {
        if s.get_char(i) == '\n' {
            proof {
                lemma_first_nl_unique(s@, i as int);
            }
            return i;
        }
        i = i + 1;
    }
    proof {
        lemma_first_nl_unique(s@, n as int);
    }
    n
}

/// Whether the first `end` characters of `s` are all white space.
pub fn all_space_prefix(s: &str, end: usize) -> (r: bool)
    requires
        end as int <= s@.len(),
    ensures
        r == trim_empty(s@.subrange(0, end as int)),
{
    let mut i: usize = 0;
    while i < end
        invariant
            0 <= i <= end,
            end as int <= s@.len(),
            forall|j: int| 0 <= j < i ==> is_space(#[trigger] s@[j]),
        decreases end - i,
    {
        if !is_space_char(s.get_char(i)) {
            assert(!trim_empty(s@.subrange(0, end as int))) by {
                assert(s@.subrange(0, end as int)[i as int] == s@[i as int]);
            }
            return false;
        }
        i = i + 1;
    }
    assert forall|j: int| 0 <= j < end implies is_space(#[trigger] s@.subrange(0, end as int)[j])
        by {
        assert(s@.subrange(0, end as int)[j] == s@[j]);
    }
    true
}

} // verus!
