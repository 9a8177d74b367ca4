//! Parsing of list text into a set of domains: each line is stripped
//! of its `#` comment suffix and split on whitespace; a lone token is
//! a bare domain, the second of exactly two tokens is the domain of a
//! hosts-file line, and any other line is ignored.
use crate::domain_set::DomainSet;
use crate::text::{
    is_space, lemma_line_end, lemma_skip_spaces, lemma_skip_token, lemma_until_hash,
    lemma_line_end_shift, line_end, line_end_exec, skip_spaces, skip_spaces_exec, skip_token,
    skip_token_exec, until_hash, until_hash_exec,
};
use crate::DomainListError;
use vstd::prelude::*;
use vstd::string::StrSliceExecFns;
use vstd::string::StringExecFns;

verus! {

/// The tokens of `s` from position `i` on: maximal runs of
/// non-whitespace characters.
pub open spec fn tokens_from(s: Seq<char>, i: int) -> Seq<Seq<char>>
    decreases s.len() - i,
    when 0 <= i <= s.len()
    via tokens_from_decreases
{
    if i >= s.len() {
        Seq::empty()
    } else if is_space(s[i]) {
        tokens_from(s, i + 1)
    } else {
        seq![s.subrange(i, skip_token(s, i + 1))] + tokens_from(s, skip_token(s, i + 1))
    }
}

#[via_fn]
proof fn tokens_from_decreases(s: Seq<char>, i: int) {
    if 0 <= i < s.len() && !is_space(s[i]) {
        lemma_skip_token(s, i + 1);
    }
}

/// A line with its comment suffix removed.
pub open spec fn line_body(line: Seq<char>) -> Seq<char> {
    line.subrange(0, until_hash(line, 0))
}

/// The domain a single line contributes, if any.
pub open spec fn line_domain(line: Seq<char>) -> Option<Seq<char>> {
    let ts = tokens_from(line_body(line), 0);
    if ts.len() == 1 {
        Some(ts[0])
    } else if ts.len() == 2 {
        Some(ts[1])
    } else {
        None
    }
}

/// The contribution of a single line as a set.
pub open spec fn line_domains(line: Seq<char>) -> Set<Seq<char>> {
    match line_domain(line) {
        Some(d) => set![d],
        None => Set::<Seq<char>>::empty(),
    }
}

/// The set of domains the whole text yields, line by line.
pub open spec fn parse_domains(s: Seq<char>) -> Set<Seq<char>>
    decreases s.len(),
    via parse_domains_decreases
{
    let e = line_end(s, 0);
    if e >= s.len() {
        line_domains(s)
    } else {
        line_domains(s.subrange(0, e)).union(parse_domains(s.subrange(e + 1, s.len() as int)))
    }
}

#[via_fn]
proof fn parse_domains_decreases(s: Seq<char>) {
    lemma_line_end(s, 0);
}

/// The domains contributed by the lines of `s` from position `i` on.
pub open spec fn domains_from(s: Seq<char>, i: int) -> Set<Seq<char>> {
    parse_domains(s.subrange(i, s.len() as int))
}

pub proof fn lemma_domains_from_unfold(s: Seq<char>, i: int)
    requires
        0 <= i <= s.len(),
    ensures
        line_end(s, i) == s.len() ==> domains_from(s, i) == line_domains(
            s.subrange(i, s.len() as int),
        ),
        line_end(s, i) < s.len() ==> domains_from(s, i) == line_domains(
            s.subrange(i, line_end(s, i)),
        ).union(domains_from(s, line_end(s, i) + 1)),
{
    lemma_line_end(s, i);
    let e = line_end(s, i);
    let t = s.subrange(i, s.len() as int);
    lemma_line_end_shift(s, i, i);
    if e < s.len() {
        assert(t.subrange(0, e - i) =~= s.subrange(i, e));
        assert(t.subrange(e - i + 1, t.len() as int) =~= s.subrange(e + 1, s.len() as int));
    }
}

/// Skipping leading whitespace does not change the tokens.
proof fn lemma_tokens_skip_spaces(s: Seq<char>, i: int)
    requires
        0 <= i <= s.len(),
    ensures
        tokens_from(s, i) == tokens_from(s, skip_spaces(s, i)),
    decreases s.len() - i,
{
    if i < s.len() && is_space(s[i]) {
        lemma_tokens_skip_spaces(s, i + 1);
    }
}

/// The domain of one line, as the specification names it.
pub fn line_domain_exec(line: &str) -> (r: Option<String>)
    ensures
        match r {
            Some(d) => line_domain(line@) == Some(d@),
            None => line_domain(line@) is None,
        },
{
    let h = until_hash_exec(line, 0);
    proof {
        lemma_until_hash(line@, 0);
    }
    let body = line.substring_char(0, h);
    let ghost bs = body@;
    proof {
        assert(bs == line_body(line@));
    }
    let a1 = skip_spaces_exec(body, 0);
    proof {
        lemma_skip_spaces(bs, 0);
        lemma_tokens_skip_spaces(bs, 0);
    }
    if a1 == h {
        proof {
            assert(tokens_from(bs, a1 as int) =~= Seq::<Seq<char>>::empty());
        }
        return None;
    }
    let b1 = skip_token_exec(body, a1);
    proof {
        lemma_skip_token(bs, a1 as int);
    }
    let ghost t1 = bs.subrange(a1 as int, b1 as int);
    proof {
        assert(tokens_from(bs, a1 as int) == seq![t1] + tokens_from(bs, b1 as int));
    }
    let a2 = skip_spaces_exec(body, b1);
    proof {
        lemma_skip_spaces(bs, b1 as int);
        lemma_tokens_skip_spaces(bs, b1 as int);
    }
    if a2 == h {
        proof {
            assert(tokens_from(bs, a2 as int) =~= Seq::<Seq<char>>::empty());
            assert(tokens_from(bs, 0) =~= seq![t1]);
        }
        let t = body.substring_char(a1, b1);
        return Some(String::from_str(t));
    }
    let b2 = skip_token_exec(body, a2);
    proof {
        lemma_skip_token(bs, a2 as int);
    }
    let ghost t2 = bs.subrange(a2 as int, b2 as int);
    proof {
        assert(tokens_from(bs, a2 as int) == seq![t2] + tokens_from(bs, b2 as int));
    }
    let a3 = skip_spaces_exec(body, b2);
    proof {
        lemma_skip_spaces(bs, b2 as int);
        lemma_tokens_skip_spaces(bs, b2 as int);
    }
    if a3 == h {
        proof {
            assert(tokens_from(bs, a3 as int) =~= Seq::<Seq<char>>::empty());
            assert(tokens_from(bs, 0) =~= seq![t1, t2]);
        }
        let t = body.substring_char(a2, b2);
        return Some(String::from_str(t));
    }
    proof {
        assert(tokens_from(bs, a3 as int).len() >= 1);
        assert(tokens_from(bs, 0).len() >= 3);
    }
    None
}

/// Parses list text into its set of domains; fails exactly when no
/// line contributes a domain.
pub fn parse_list(content: &str) -> (r: Result<DomainSet, DomainListError>)
    ensures
        match r {
            Ok(ds) => ds.inv() && ds@ == parse_domains(content@) && ds@ != Set::<
                Seq<char>,
            >::empty(),
            Err(e) => e == DomainListError::EmptyList && parse_domains(content@) == Set::<
                Seq<char>,
            >::empty(),
        },
{
    let n = content.unicode_len();
    let mut ds = DomainSet::new();
    let mut i: usize = 0;
    let mut last = false;
    proof {
        assert(content@.subrange(0, content@.len() as int) =~= content@);
    }
    while !last
        invariant
            i <= n,
            n == content@.len(),
            ds.inv(),
            !last ==> parse_domains(content@) == ds@.union(domains_from(content@, i as int)),
            last ==> parse_domains(content@) == ds@,
        decreases (if last { 0int } else { 1int }), n - i,
    {
        let e = line_end_exec(content, i);
        proof {
            lemma_line_end(content@, i as int);
            lemma_domains_from_unfold(content@, i as int);
        }
        let line = content.substring_char(i, e);
        let ghost before = ds@;
        let dom = line_domain_exec(line);
        match dom {
            Some(d) => {
                proof {
                    assert(line_domains(line@) == set![d@]);
                }
                ds.insert(d);
            },
            None => {
                proof {
                    assert(line_domains(line@) =~= Set::<Seq<char>>::empty());
                }
            },
        }
        proof {
            assert(ds@ =~= before.union(line_domains(line@)));
        }
        if e == n {
            last = true;
            proof {
                assert(parse_domains(content@) =~= ds@);
            }
        } else {
            proof {
                assert(parse_domains(content@) =~= ds@.union(
                    domains_from(content@, e + 1 as int),
                ));
            }
            i = e + 1;
        }
    }
    if ds.is_empty() {
        Err(DomainListError::EmptyList)
    } else {
        Ok(ds)
    }
}

/// A domain as parsing alone can produce it: nonempty, with no
/// whitespace, comment or line-feed character.
pub open spec fn is_domain_token(d: Seq<char>) -> bool {
    d.len() > 0 && forall|k: int|
        0 <= k < d.len() ==> !is_space(#[trigger] d[k]) && d[k] != '\n' && d[k] != '#'
}

/// A maximal whitespace-free run of `s`.
pub open spec fn token_in(s: Seq<char>, t: Seq<char>) -> bool {
    exists|a: int, b: int|
        0 <= a < b <= s.len() && t == s.subrange(a, b) && (forall|k: int|
            a <= k < b ==> !is_space(#[trigger] s[k]))
}

proof fn lemma_tokens_chars(s: Seq<char>, i: int)
    requires
        0 <= i <= s.len(),
    ensures
        forall|t: Seq<char>| #[trigger] tokens_from(s, i).contains(t) ==> token_in(s, t),
    decreases s.len() - i,
{
    if i >= s.len() {
    } else if is_space(s[i]) {
        lemma_tokens_chars(s, i + 1);
        assert forall|t: Seq<char>| #[trigger] tokens_from(s, i).contains(t) implies token_in(
            s,
            t,
        ) by {
            assert(tokens_from(s, i) == tokens_from(s, i + 1));
            assert(tokens_from(s, i + 1).contains(t));
        }
    } else {
        let b = skip_token(s, i + 1);
        lemma_skip_token(s, i + 1);
        lemma_tokens_chars(s, b);
        let head = s.subrange(i, b);
        assert forall|t: Seq<char>| #[trigger] tokens_from(s, i).contains(t) implies token_in(
            s,
            t,
        ) by {
            assert(tokens_from(s, i) == seq![head] + tokens_from(s, b));
            let idx = choose|idx: int|
                0 <= idx < tokens_from(s, i).len() && tokens_from(s, i)[idx] == t;
            if idx == 0 {
                assert(t == head);
                assert(0 <= i < b <= s.len());
                assert forall|k: int| i <= k < b implies !is_space(#[trigger] s[k]) by {
                    if k > i {
                        assert(!is_space(s[k]));
                    }
                }
                assert(t == s.subrange(i, b) && (forall|k: int|
                    i <= k < b ==> !is_space(#[trigger] s[k])));
                assert(token_in(s, t));
            } else {
                assert(tokens_from(s, b)[idx - 1] == t);
                assert(tokens_from(s, b).contains(t));
            }
        }
    }
}

/// A line free of line feeds contributes a domain only of this
/// restricted shape.
proof fn lemma_line_domain_token(line: Seq<char>)
    requires
        forall|k: int| 0 <= k < line.len() ==> #[trigger] line[k] != '\n',
    ensures
        match line_domain(line) {
            Some(d) => is_domain_token(d),
            None => true,
        },
{
    let h = until_hash(line, 0);
    lemma_until_hash(line, 0);
    let body = line_body(line);
    lemma_tokens_chars(body, 0);
    let ts = tokens_from(body, 0);
    match line_domain(line) {
        Some(d) => {
            assert(ts.contains(d));
            let (a, b) = choose|a: int, b: int|
                0 <= a < b <= body.len() && d == body.subrange(a, b) && (forall|k: int|
                    a <= k < b ==> !is_space(#[trigger] body[k]));
            assert forall|k: int| 0 <= k < d.len() implies !is_space(#[trigger] d[k]) && d[k]
                != '\n' && d[k] != '#' by {
                assert(d[k] == body[a + k]);
                assert(body[a + k] == line[a + k]);
            }
        },
        None => {},
    }
}

/// Whatever text is parsed, every domain of the result is a bare
/// token.
pub proof fn lemma_parse_domains_tokens(s: Seq<char>)
    ensures
        forall|d: Seq<char>| #[trigger] parse_domains(s).contains(d) ==> is_domain_token(d),
    decreases s.len(),
{
    let e = line_end(s, 0);
    lemma_line_end(s, 0);
    if e >= s.len() {
        lemma_line_domain_token(s);
        assert forall|d: Seq<char>| #[trigger] parse_domains(s).contains(d) implies is_domain_token(
            d,
        ) by {
            assert(parse_domains(s) == line_domains(s));
        }
    } else {
        let line = s.subrange(0, e);
        let rest = s.subrange(e + 1, s.len() as int);
        assert forall|k: int| 0 <= k < line.len() implies #[trigger] line[k] != '\n' by {
            assert(line[k] == s[k]);
        }
        lemma_line_domain_token(line);
        lemma_parse_domains_tokens(rest);
        assert forall|d: Seq<char>| #[trigger] parse_domains(s).contains(d) implies is_domain_token(
            d,
        ) by {
            assert(parse_domains(s) == line_domains(line).union(parse_domains(rest)));
            if !parse_domains(rest).contains(d) {
                assert(line_domains(line).contains(d));
            }
        }
    }
}

/// A domain set written back out, one bare domain per line.
pub open spec fn encode_lines(ds: Seq<Seq<char>>) -> Seq<char>
    decreases ds.len(),
{
    if ds.len() == 0 {
        Seq::empty()
    } else {
        ds[0] + seq!['\n'] + encode_lines(ds.drop_first())
    }
}

/// The position scanned for a line end is pinned by the characters.
proof fn lemma_line_end_value(s: Seq<char>, e: int)
    requires
        0 <= e <= s.len(),
        forall|k: int| 0 <= k < e ==> #[trigger] s[k] != '\n',
        e == s.len() || s[e] == '\n',
    ensures
        line_end(s, 0) == e,
{
    lemma_line_end(s, 0);
    let r = line_end(s, 0);
    if r < e {
        assert(s[r] == '\n');
    }
    if e < r {
        assert(s[e] != '\n');
    }
}

/// A line that is exactly one bare token parses to that token.
proof fn lemma_token_line(t: Seq<char>)
    requires
        is_domain_token(t),
    ensures
        line_domain(t) == Some(t),
{
    lemma_until_hash(t, 0);
    let h = until_hash(t, 0);
    assert(h == t.len());
    let body = line_body(t);
    assert(body =~= t);
    lemma_skip_token(t, 1);
    let b = skip_token(t, 1);
    assert(b == t.len());
    assert(tokens_from(t, 0) == seq![t.subrange(0, b)] + tokens_from(t, b));
    assert(t.subrange(0, b) =~= t);
    assert(tokens_from(t, b) =~= Seq::<Seq<char>>::empty());
    assert(tokens_from(t, 0) =~= seq![t]);
}

/// Re-encoded bare tokens parse back to exactly their set.
pub proof fn lemma_parse_encode(ds: Seq<Seq<char>>)
    requires
        forall|k: int| 0 <= k < ds.len() ==> is_domain_token(#[trigger] ds[k]),
    ensures
        parse_domains(encode_lines(ds)) == ds.to_set(),
    decreases ds.len(),
{
    if ds.len() == 0 {
        let s = encode_lines(ds);
        assert(s.len() == 0);
        assert(line_body(s) =~= Seq::<char>::empty());
        assert(parse_domains(s) =~= Set::<Seq<char>>::empty());
        assert(ds.to_set() =~= Set::<Seq<char>>::empty());
    } else {
        let t = ds[0];
        let s = encode_lines(ds);
        let rest = encode_lines(ds.drop_first());
        assert(s == t + seq!['\n'] + rest);
        assert forall|k: int| 0 <= k < t.len() implies #[trigger] s[k] != '\n' by {
            assert(s[k] == t[k]);
        }
        assert(s[t.len() as int] == '\n');
        lemma_line_end_value(s, t.len() as int);
        assert(s.subrange(0, t.len() as int) =~= t);
        lemma_token_line(t);
        assert(line_domains(t) =~= set![t]);
        assert(s.subrange(t.len() as int + 1, s.len() as int) =~= rest);
        lemma_parse_encode(ds.drop_first());
        assert(parse_domains(s) == set![t].union(ds.drop_first().to_set()));
        assert forall|x: Seq<char>| ds.to_set().contains(x) implies set![t].union(
            ds.drop_first().to_set(),
        ).contains(x) by {
            let idx = choose|idx: int| 0 <= idx < ds.len() && ds[idx] == x;
            if idx > 0 {
                assert(ds.drop_first()[idx - 1] == x);
                assert(ds.drop_first().contains(x));
            }
        }
        assert forall|x: Seq<char>| set![t].union(ds.drop_first().to_set()).contains(x) implies ds.to_set().contains(
            x,
        ) by {
            if x == t {
                assert(ds.contains(x));
            } else {
                let idx = choose|idx: int|
                    0 <= idx < ds.drop_first().len() && ds.drop_first()[idx] == x;
                assert(ds[idx + 1] == x);
                assert(ds.contains(x));
            }
        }
        assert(parse_domains(s) =~= ds.to_set());
    }
}

/// Parsing is idempotent: re-encoding a parsed domain set one bare
/// domain per line and parsing again yields the same set, for any
/// enumeration of that set.
pub proof fn lemma_parse_idempotent(content: Seq<char>, ds: Seq<Seq<char>>)
    requires
        ds.to_set() == parse_domains(content),
    ensures
        parse_domains(encode_lines(ds)) == parse_domains(content),
{
    lemma_parse_domains_tokens(content);
    assert forall|k: int| 0 <= k < ds.len() implies is_domain_token(#[trigger] ds[k]) by {
        assert(ds.contains(ds[k]));
        assert(ds.to_set().contains(ds[k]));
    }
    lemma_parse_encode(ds);
}

/// A line contributing no domain because nothing but whitespace
/// precedes its comment, if it has one.
pub open spec fn blank_or_comment(line: Seq<char>) -> bool {
    forall|k: int| 0 <= k < until_hash(line, 0) ==> is_space(#[trigger] line[k])
}

/// Whether every line of the text is blank or comment-only.
pub open spec fn all_lines_blank_or_comment(s: Seq<char>) -> bool
    decreases s.len(),
    via all_lines_decreases
{
    let e = line_end(s, 0);
    if e >= s.len() {
        blank_or_comment(s)
    } else {
        blank_or_comment(s.subrange(0, e)) && all_lines_blank_or_comment(
            s.subrange(e + 1, s.len() as int),
        )
    }
}

#[via_fn]
proof fn all_lines_decreases(s: Seq<char>) {
    lemma_line_end(s, 0);
}

proof fn lemma_blank_line(line: Seq<char>)
    requires
        blank_or_comment(line),
    ensures
        line_domain(line) is None,
{
    let h = until_hash(line, 0);
    lemma_until_hash(line, 0);
    let body = line_body(line);
    lemma_skip_spaces(body, 0);
    assert forall|k: int| 0 <= k < body.len() implies is_space(#[trigger] body[k]) by {
        assert(body[k] == line[k]);
    }
    assert(skip_spaces(body, 0) == body.len());
    lemma_tokens_skip_spaces(body, 0);
    assert(tokens_from(body, body.len() as int) =~= Seq::<Seq<char>>::empty());
}

/// Content made of blank and comment-only lines alone parses to no
/// domain at all, so parsing it fails with the empty-list error.
pub proof fn lemma_blank_content_parses_empty(s: Seq<char>)
    requires
        all_lines_blank_or_comment(s),
    ensures
        parse_domains(s) == Set::<Seq<char>>::empty(),
    decreases s.len(),
{
    let e = line_end(s, 0);
    lemma_line_end(s, 0);
    if e >= s.len() {
        lemma_blank_line(s);
    } else {
        lemma_blank_line(s.subrange(0, e));
        lemma_blank_content_parses_empty(s.subrange(e + 1, s.len() as int));
        assert(parse_domains(s) =~= Set::<Seq<char>>::empty());
    }
}

/// Writes a domain list back out, one bare domain per line.
pub fn encode_lines_exec(ds: &Vec<String>) -> (r: String)
    ensures
        r@ == encode_lines(ds.deep_view()),
{
    let ghost dv = ds.deep_view();
    let mut r = String::new();
    let n = ds.len();
    let mut k: usize = 0;
    proof {
        assert(dv.skip(0) =~= dv);
        reveal_strlit("\n");
    }
    while k < n
        invariant
            k <= n,
            n == ds@.len(),
            dv == ds.deep_view(),
            encode_lines(dv) == r@ + encode_lines(dv.skip(k as int)),
        decreases n - k,
    {
        let ghost before = r@;
        r.append(ds[k].as_str());
        r.append("\n");
        proof {
            reveal_strlit("\n");
            assert("\n"@ =~= seq!['\n']);
            assert(dv.skip(k as int)[0] == dv[k as int]);
            assert(dv.skip(k as int).drop_first() =~= dv.skip(k + 1 as int));
            assert(encode_lines(dv.skip(k as int)) == dv[k as int] + seq!['\n'] + encode_lines(
                dv.skip(k + 1 as int),
            ));
            assert(dv[k as int] == ds@[k as int]@);
            assert(r@ =~= before + dv[k as int] + seq!['\n']);
            assert(r@ + encode_lines(dv.skip(k + 1 as int)) =~= encode_lines(dv));
        }
        k = k + 1;
    }
    proof {
        assert(encode_lines(dv.skip(n as int)) =~= Seq::<char>::empty());
        assert(r@ =~= encode_lines(dv));
    }
    r
}

} // verus!
