//! Character-level scanning over list and manifest text: whitespace,
//! token, comment and line boundaries, with executable scanners proved
//! against the recursive specifications.
use vstd::prelude::*;
use vstd::string::StrSliceExecFns;

verus! {

/// Whitespace as the list formats use it: blanks, tabs and carriage
/// returns inside a line. Line feeds terminate lines and are handled
/// by the line splitter, never by the token scanner.
pub open spec fn is_space(c: char) -> bool {
    c == ' ' || c == '\t' || c == '\r'
}

/// First position at or after `i` holding a non-whitespace character,
/// or `s.len()` if only whitespace follows.
pub open spec fn skip_spaces(s: Seq<char>, i: int) -> int
    decreases s.len() - i,
    when 0 <= i <= s.len()
{
    if i >= s.len() {
        i
    } else if is_space(s[i]) {
        skip_spaces(s, i + 1)
    } else {
        i
    }
}

/// First position at or after `i` holding a whitespace character, or
/// `s.len()` if none follows: the end of the token starting at `i`.
pub open spec fn skip_token(s: Seq<char>, i: int) -> int
    decreases s.len() - i,
    when 0 <= i <= s.len()
{
    if i >= s.len() {
        i
    } else if is_space(s[i]) {
        i
    } else {
        skip_token(s, i + 1)
    }
}

/// First position at or after `i` holding a line feed, or `s.len()`:
/// the end of the line starting at `i`.
pub open spec fn line_end(s: Seq<char>, i: int) -> int
    decreases s.len() - i,
    when 0 <= i <= s.len()
{
    if i >= s.len() {
        i
    } else if s[i] == '\n' {
        i
    } else {
        line_end(s, i + 1)
    }
}

/// First position at or after `i` holding a number sign, or `s.len()`:
/// where the comment suffix of a line begins.
pub open spec fn until_hash(s: Seq<char>, i: int) -> int
    decreases s.len() - i,
    when 0 <= i <= s.len()
{
    if i >= s.len() {
        i
    } else if s[i] == '#' {
        i
    } else {
        until_hash(s, i + 1)
    }
}

/// End of the line once trailing whitespace before position `j` is
/// dropped; `0` if positions below `j` hold only whitespace.
pub open spec fn trim_end(s: Seq<char>, j: int) -> int
    decreases j,
    when 0 <= j <= s.len()
{
    if j <= 0 {
        0
    } else if is_space(s[j - 1]) {
        trim_end(s, j - 1)
    } else {
        j
    }
}

pub proof fn lemma_skip_spaces(s: Seq<char>, i: int)
    requires
        0 <= i <= s.len(),
    ensures
        i <= skip_spaces(s, i) <= s.len(),
        forall|k: int| i <= k < skip_spaces(s, i) ==> is_space(s[k]),
        skip_spaces(s, i) == s.len() || !is_space(s[skip_spaces(s, i)]),
    decreases s.len() - i,
{
    if i < s.len() && is_space(s[i]) {
        lemma_skip_spaces(s, i + 1);
    }
}

pub proof fn lemma_skip_token(s: Seq<char>, i: int)
    requires
        0 <= i <= s.len(),
    ensures
        i <= skip_token(s, i) <= s.len(),
        forall|k: int| i <= k < skip_token(s, i) ==> !is_space(s[k]),
        skip_token(s, i) == s.len() || is_space(s[skip_token(s, i)]),
    decreases s.len() - i,
{
    if i < s.len() && !is_space(s[i]) {
        lemma_skip_token(s, i + 1);
    }
}

pub proof fn lemma_line_end(s: Seq<char>, i: int)
    requires
        0 <= i <= s.len(),
    ensures
        i <= line_end(s, i) <= s.len(),
        forall|k: int| i <= k < line_end(s, i) ==> s[k] != '\n',
        line_end(s, i) == s.len() || s[line_end(s, i)] == '\n',
    decreases s.len() - i,
{
    if i < s.len() && s[i] != '\n' {
        lemma_line_end(s, i + 1);
    }
}

pub proof fn lemma_until_hash(s: Seq<char>, i: int)
    requires
        0 <= i <= s.len(),
    ensures
        i <= until_hash(s, i) <= s.len(),
        forall|k: int| i <= k < until_hash(s, i) ==> s[k] != '#',
        until_hash(s, i) == s.len() || s[until_hash(s, i)] == '#',
    decreases s.len() - i,
{
    if i < s.len() && s[i] != '#' {
        lemma_until_hash(s, i + 1);
    }
}

pub proof fn lemma_trim_end(s: Seq<char>, j: int)
    requires
        0 <= j <= s.len(),
    ensures
        0 <= trim_end(s, j) <= j,
        forall|k: int| trim_end(s, j) <= k < j ==> is_space(s[k]),
        trim_end(s, j) == 0 || !is_space(s[trim_end(s, j) - 1]),
    decreases j,
{
    if j > 0 && is_space(s[j - 1]) {
        lemma_trim_end(s, j - 1);
    }
}

/// The end of a line is the same position whether it is sought in the
/// full text or in the suffix that starts at `i`.
pub proof fn lemma_line_end_shift(s: Seq<char>, i: int, j: int)
    requires
        0 <= i <= j <= s.len(),
    ensures
        line_end(s.subrange(i, s.len() as int), j - i) == line_end(s, j) - i,
    decreases s.len() - j,
{
    let t = s.subrange(i, s.len() as int);
    if j < s.len() && s[j] != '\n' {
        lemma_line_end_shift(s, i, j + 1);
    }
}

/// Whether the character at `j` is whitespace.
pub fn space_at(s: &str, j: usize) -> (b: bool)
    requires
        j < s@.len(),
    ensures
        b == is_space(s@[j as int]),
{
    let c = s.get_char(j);
    c == ' ' || c == '\t' || c == '\r'
}

pub fn skip_spaces_exec(s: &str, from: usize) -> (r: usize)
    requires
        from <= s@.len(),
    ensures
        r == skip_spaces(s@, from as int),
{
    let n = s.unicode_len();
    let mut j = from;
    while j < n && space_at(s, j)
        invariant
            from <= j <= n,
            n == s@.len(),
            skip_spaces(s@, from as int) == skip_spaces(s@, j as int),
        decreases n - j,
    {
        j = j + 1;
    }
    j
}

pub fn skip_token_exec(s: &str, from: usize) -> (r: usize)
    requires
        from <= s@.len(),
    ensures
        r == skip_token(s@, from as int),
{
    let n = s.unicode_len();
    let mut j = from;
    while j < n && !space_at(s, j)
        invariant
            from <= j <= n,
            n == s@.len(),
            skip_token(s@, from as int) == skip_token(s@, j as int),
        decreases n - j,
    {
        j = j + 1;
    }
    j
}

/// Whether the character at `j` equals `c`.
pub fn char_at_is(s: &str, j: usize, c: char) -> (b: bool)
    requires
        j < s@.len(),
    ensures
        b == (s@[j as int] == c),
{
    s.get_char(j) == c
}

pub fn line_end_exec(s: &str, from: usize) -> (r: usize)
    requires
        from <= s@.len(),
    ensures
        r == line_end(s@, from as int),
{
    let n = s.unicode_len();
    let mut j = from;
    while j < n && !char_at_is(s, j, '\n')
        invariant
            from <= j <= n,
            n == s@.len(),
            line_end(s@, from as int) == line_end(s@, j as int),
        decreases n - j,
    {
        j = j + 1;
    }
    j
}

pub fn until_hash_exec(s: &str, from: usize) -> (r: usize)
    requires
        from <= s@.len(),
    ensures
        r == until_hash(s@, from as int),
{
    let n = s.unicode_len();
    let mut j = from;
    while j < n && !char_at_is(s, j, '#')
        invariant
            from <= j <= n,
            n == s@.len(),
            until_hash(s@, from as int) == until_hash(s@, j as int),
        decreases n - j,
    {
        j = j + 1;
    }
    j
}

pub fn trim_end_exec(s: &str, upto: usize) -> (r: usize)
    requires
        upto <= s@.len(),
    ensures
        r == trim_end(s@, upto as int),
{
    let mut j = upto;
    while j > 0 && space_at(s, j - 1)
        invariant
            j <= upto <= s@.len(),
            trim_end(s@, upto as int) == trim_end(s@, j as int),
        decreases j,
    {
        j = j - 1;
    }
    j
}

} // verus!
