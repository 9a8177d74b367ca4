//! Extraction of blocklist source locations from the manifest
//! document: the lines between the literal markers `## Blocklists`
//! and `## Allowlists` whose trimmed form starts with `- ` name one
//! source each.
use crate::text::{
    is_space, lemma_line_end, lemma_line_end_shift, lemma_skip_spaces, lemma_trim_end, line_end,
    line_end_exec, skip_spaces, skip_spaces_exec, trim_end, trim_end_exec, char_at_is,
};
use crate::DomainListError;
use vstd::prelude::*;
use vstd::string::StrSliceExecFns;
use vstd::string::StringExecFns;

verus! {

/// First position at or after `i` where `pat` occurs in `s`, or `-1`
/// if it does not occur there.
pub open spec fn find_at(s: Seq<char>, pat: Seq<char>, i: int) -> int
    decreases s.len() - i,
    when 0 <= i
    via find_at_decreases
{
    if i + pat.len() > s.len() {
        -1
    } else if s.subrange(i, i + pat.len()) == pat {
        i
    } else {
        find_at(s, pat, i + 1)
    }
}

#[via_fn]
proof fn find_at_decreases(s: Seq<char>, pat: Seq<char>, i: int) {
    if 0 <= i && i + pat.len() <= s.len() && pat.len() == 0 {
        assert(s.subrange(i, i + pat.len() as int) =~= pat);
    }
}

/// Whether `pat` occurs in `s` starting exactly at position `j`.
fn match_at(s: &str, pat: &str, j: usize) -> (b: bool)
    requires
        j + pat@.len() <= s@.len(),
    ensures
        b == (s@.subrange(j as int, j + pat@.len()) == pat@),
{
    let sn = s.unicode_len();
    let m = pat.unicode_len();
    let mut k: usize = 0;
    while k < m
        invariant
            k <= m,
            m == pat@.len(),
            sn == s@.len(),
            j + m <= sn,
            forall|t: int| 0 <= t < k ==> s@[j + t] == pat@[t],
        decreases m - k,
    {
        let sc = s.get_char(j + k);
        let pc = pat.get_char(k);
        if sc != pc {
            proof {
                assert(s@.subrange(j as int, j + pat@.len())[k as int] != pat@[k as int]);
            }
            return false;
        }
        k = k + 1;
    }
    proof {
        assert(s@.subrange(j as int, j + pat@.len()) =~= pat@);
    }
    true
}

/// First occurrence of `pat` in `s` at or after `from`, as the
/// specification names it.
pub fn find_str(s: &str, pat: &str, from: usize) -> (r: Option<usize>)
    requires
        from <= s@.len(),
    ensures
        match r {
            Some(j) => j == find_at(s@, pat@, from as int) && from <= j && j + pat@.len()
                <= s@.len() && s@.subrange(j as int, j + pat@.len()) == pat@,
            None => find_at(s@, pat@, from as int) == -1,
        },
{
    let n = s.unicode_len();
    let m = pat.unicode_len();
    if m > n {
        return None;
    }
    if m == 0 {
        proof {
            assert(s@.subrange(from as int, from as int) =~= pat@);
        }
        return Some(from);
    }
    let mut j = from;
    while j <= n - m
        invariant
            from <= j,
            j <= n,
            1 <= m <= n,
            n == s@.len(),
            m == pat@.len(),
            find_at(s@, pat@, from as int) == find_at(s@, pat@, j as int),
        decreases n - j,
    {
        if match_at(s, pat, j) {
            return Some(j);
        }
        j = j + 1;
    }
    None
}

/// The line with surrounding whitespace removed.
pub open spec fn trimmed(line: Seq<char>) -> Seq<char> {
    let a = skip_spaces(line, 0);
    let b = trim_end(line, line.len() as int);
    if a <= b {
        line.subrange(a, b)
    } else {
        Seq::empty()
    }
}

/// The source location a single manifest line names, if any: the
/// remainder of the trimmed line after its `- ` prefix.
pub open spec fn line_url(line: Seq<char>) -> Option<Seq<char>> {
    let t = trimmed(line);
    if t.len() >= 2 && t[0] == '-' && t[1] == ' ' {
        Some(t.subrange(2, t.len() as int))
    } else {
        None
    }
}

/// The contribution of a single manifest line as a sequence.
pub open spec fn line_url_seq(line: Seq<char>) -> Seq<Seq<char>> {
    match line_url(line) {
        Some(u) => seq![u],
        None => Seq::empty(),
    }
}

/// The source locations the section text names, line by line and in
/// order.
pub open spec fn urls_from(s: Seq<char>) -> Seq<Seq<char>>
    decreases s.len(),
    via urls_from_decreases
{
    let e = line_end(s, 0);
    if e >= s.len() {
        line_url_seq(s)
    } else {
        line_url_seq(s.subrange(0, e)) + urls_from(s.subrange(e + 1, s.len() as int))
    }
}

#[via_fn]
proof fn urls_from_decreases(s: Seq<char>) {
    lemma_line_end(s, 0);
}

/// The source locations named by the lines of `s` from position `i`
/// on.
pub open spec fn urls_at(s: Seq<char>, i: int) -> Seq<Seq<char>> {
    urls_from(s.subrange(i, s.len() as int))
}

pub proof fn lemma_urls_at_unfold(s: Seq<char>, i: int)
    requires
        0 <= i <= s.len(),
    ensures
        line_end(s, i) == s.len() ==> urls_at(s, i) == line_url_seq(
            s.subrange(i, s.len() as int),
        ),
        line_end(s, i) < s.len() ==> urls_at(s, i) == line_url_seq(s.subrange(i, line_end(s, i)))
            + urls_at(s, line_end(s, i) + 1),
{
    lemma_line_end(s, i);
    let e = line_end(s, i);
    let t = s.subrange(i, s.len() as int);
    lemma_line_end_shift(s, i, i);
    if e < s.len() {
        assert(t.subrange(0, e - i) =~= s.subrange(i, e));
        assert(t.subrange(e - i + 1, t.len() as int) =~= s.subrange(e + 1, s.len() as int));
    }
}

/// The text between the first `## Blocklists` marker and the first
/// `## Allowlists` marker after it, if both are present.
pub open spec fn blocklists_section(readme: Seq<char>) -> Option<Seq<char>> {
    let p1 = find_at(readme, "## Blocklists"@, 0);
    if p1 < 0 {
        None
    } else {
        let rest = readme.subrange(p1 + "## Blocklists"@.len(), readme.len() as int);
        let p2 = find_at(rest, "## Allowlists"@, 0);
        if p2 < 0 {
            None
        } else {
            Some(rest.subrange(0, p2))
        }
    }
}

/// The blocklist source locations of the manifest: `None` when a
/// marker is missing or the section names no source at all.
pub open spec fn manifest_urls(readme: Seq<char>) -> Option<Seq<Seq<char>>> {
    match blocklists_section(readme) {
        None => None,
        Some(sec) => if urls_from(sec).len() == 0 {
            None
        } else {
            Some(urls_from(sec))
        },
    }
}

/// The source location of one manifest line, as the specification
/// names it.
pub fn line_url_exec(line: &str) -> (r: Option<String>)
    ensures
        match r {
            Some(u) => line_url(line@) == Some(u@),
            None => line_url(line@) is None,
        },
{
    let n = line.unicode_len();
    let a = skip_spaces_exec(line, 0);
    let b = trim_end_exec(line, n);
    proof {
        lemma_skip_spaces(line@, 0);
        lemma_trim_end(line@, n as int);
    }
    let is_item = if b >= 2 && a <= b - 2 {
        char_at_is(line, a, '-') && char_at_is(line, a + 1, ' ')
    } else {
        false
    };
    if is_item {
        let u = line.substring_char(a + 2, b);
        proof {
            let t = trimmed(line@);
            assert(t == line@.subrange(a as int, b as int));
            assert(t[0] == line@[a as int]);
            assert(t[1] == line@[a + 1 as int]);
            assert(u@ =~= t.subrange(2, t.len() as int));
        }
        Some(String::from_str(u))
    } else {
        proof {
            let t = trimmed(line@);
            if a <= b {
                assert(t == line@.subrange(a as int, b as int));
                if t.len() >= 2 {
                    assert(t[0] == line@[a as int]);
                    assert(t[1] == line@[a + 1 as int]);
                }
            }
        }
        None
    }
}

/// Extracts the blocklist source locations from the manifest text;
/// fails exactly when a marker is missing or no line names a source.
pub fn get_block_list_urls(readme: &str) -> (r: Result<Vec<String>, DomainListError>)
    ensures
        match r {
            Ok(urls) => manifest_urls(readme@) == Some(urls.deep_view()) && urls@.len() > 0,
            Err(e) => e == DomainListError::ReadmeError && manifest_urls(readme@) is None,
        },
{
    let n = readme.unicode_len();
    let m1: &str = "## Blocklists";
    let m2: &str = "## Allowlists";
    let p1 = match find_str(readme, m1, 0) {
        Some(p) => p,
        None => {
            return Err(DomainListError::ReadmeError);
        },
    };
    let m1len = m1.unicode_len();
    let rest = readme.substring_char(p1 + m1len, n);
    let p2 = match find_str(rest, m2, 0) {
        Some(p) => p,
        None => {
            return Err(DomainListError::ReadmeError);
        },
    };
    let sec = rest.substring_char(0, p2);
    proof {
        assert(blocklists_section(readme@) == Some(sec@));
    }
    let sn = sec.unicode_len();
    let mut urls: Vec<String> = Vec::new();
    let mut i: usize = 0;
    let mut last = false;
    proof {
        assert(sec@.subrange(0, sec@.len() as int) =~= sec@);
    }
    while !last
        invariant
            i <= sn,
            sn == sec@.len(),
            !last ==> urls_from(sec@) == urls.deep_view() + urls_at(sec@, i as int),
            last ==> urls_from(sec@) == urls.deep_view(),
        decreases (if last { 0int } else { 1int }), sn - i,
    {
        let e = line_end_exec(sec, i);
        proof {
            lemma_line_end(sec@, i as int);
            lemma_urls_at_unfold(sec@, i as int);
        }
        let line = sec.substring_char(i, e);
        let ghost before = urls.deep_view();
        match line_url_exec(line) {
            Some(u) => {
                let ghost uv = u@;
                urls.push(u);
                proof {
                    assert(urls.deep_view() =~= before.push(uv));
                    assert(before.push(uv) =~= before + line_url_seq(line@));
                }
            },
            None => {
                proof {
                    assert(urls.deep_view() =~= before + line_url_seq(line@));
                }
            },
        }
        if e == sn {
            last = true;
            proof {
                assert(urls_from(sec@) =~= urls.deep_view());
            }
        } else {
            proof {
                assert(urls_from(sec@) =~= urls.deep_view() + urls_at(sec@, e + 1 as int));
            }
            i = e + 1;
        }
    }
    if urls.len() == 0 {
        proof {
            assert(urls.deep_view().len() == 0);
        }
        Err(DomainListError::ReadmeError)
    } else {
        proof {
            assert(urls.deep_view().len() > 0);
        }
        Ok(urls)
    }
}

} // verus!
