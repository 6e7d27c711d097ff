//! Matching one line of text against a query, with or without regard to case.
use vstd::prelude::*;

verus! {

/// ASCII lower-casing of one byte: `A`..`Z` become `a`..`z`, all else stays.
pub open spec fn lower_byte(b: u8) -> u8 {
    if 65 <= b <= 90 {
        (b + 32) as u8
    } else {
        b
    }
}

/// ASCII lower-casing of a whole byte string.
pub open spec fn lower_seq(s: Seq<u8>) -> Seq<u8> {
    s.map_values(|b: u8| lower_byte(b))
}

/// `needle` occurs in `hay` starting at position `i`.
pub open spec fn occurs_at(hay: Seq<u8>, needle: Seq<u8>, i: int) -> bool {
    0 <= i && i + needle.len() <= hay.len() && hay.subrange(i, i + needle.len()) == needle
}

/// `needle` is a substring of `hay`.
pub open spec fn contains_seq(hay: Seq<u8>, needle: Seq<u8>) -> bool {
    exists|i: int| occurs_at(hay, needle, i)
}

/// A text as it is compared: itself when case matters, lower-cased otherwise.
pub open spec fn normalize(s: Seq<u8>, match_case: bool) -> Seq<u8> {
    if match_case {
        s
    } else {
        lower_seq(s)
    }
}

/// A line matches a query that was already normalized under the same policy.
pub open spec fn line_matches_spec(line: Seq<u8>, query: Seq<u8>, match_case: bool) -> bool {
    contains_seq(normalize(line, match_case), query)
}

/// Some line of a file matches the query.
pub open spec fn any_line_matches_spec(lines: Seq<Vec<u8>>, query: Seq<u8>, match_case: bool) -> bool {
    exists|i: int| 0 <= i < lines.len() && line_matches_spec(#[trigger] lines[i]@, query, match_case)
}

fn ascii_lower_byte(b: u8) -> (r: u8)
    ensures
        r == lower_byte(b),
{
    if 65 <= b && b <= 90 {
        b + 32
    } else {
        b
    }
}

/// The ASCII lower-case form of `s`; bytes outside `A`..`Z` are kept.
pub fn to_ascii_lower(s: &[u8]) -> (r: Vec<u8>)
    ensures
        r@ == lower_seq(s@),
{
    let mut r: Vec<u8> = Vec::with_capacity(s.len());
    let mut i: usize = 0;
    while i < s.len()
        invariant
            i <= s@.len(),
            r@ == lower_seq(s@.subrange(0, i as int)),
        decreases s@.len() - i,
    {
        r.push(ascii_lower_byte(s[i]));
        i += 1;
        assert(s@.subrange(0, i as int) == s@.subrange(0, i - 1).push(s@[i - 1]));
    }
    assert(s@.subrange(0, s@.len() as int) == s@);
    r
}

/// Whether `needle` occurs at position `i` of `hay`.
fn occurs_at_exec(hay: &[u8], needle: &[u8], i: usize) -> (r: bool)
    requires
        i + needle@.len() <= hay@.len(),
    ensures
        r == occurs_at(hay@, needle@, i as int),
{
    let hay_len: usize = hay.len();
    let mut j: usize = 0;
    while j < needle.len()
        invariant
            i + needle@.len() <= hay@.len(),
            hay_len == hay@.len(),
            j <= needle@.len(),
            forall|k: int| 0 <= k < j ==> hay@[i + k] == needle@[k],
        decreases needle@.len() - j,
    {
        if hay[i + j] != needle[j] {
            assert(hay@.subrange(i as int, i + needle@.len())[j as int] != needle@[j as int]);
            return false;
        }
        j += 1;
    }
    assert(hay@.subrange(i as int, i + needle@.len()) =~= needle@);
    true
}

/// Whether `needle` is a substring of `hay`; the empty needle occurs in every text.
pub fn contains_bytes(hay: &[u8], needle: &[u8]) -> (r: bool)
    ensures
        r == contains_seq(hay@, needle@),
{
    if needle.len() == 0 {
        assert(hay@.subrange(0, 0) =~= needle@);
        assert(occurs_at(hay@, needle@, 0));
        return true;
    }
    let mut i: usize = 0;
    while i <= hay.len() && needle.len() <= hay.len() - i
        invariant
            i <= hay@.len(),
            needle@.len() >= 1,
            forall|k: int| 0 <= k < i ==> !occurs_at(hay@, needle@, k),
        decreases hay@.len() - i,
    {
        if occurs_at_exec(hay, needle, i) {
            return true;
        }
        i += 1;
    }
    assert forall|k: int| !occurs_at(hay@, needle@, k) by {
        if 0 <= k && k + needle@.len() <= hay@.len() {
            assert(k < i);
        }
    }
    false
}

fn copy_bytes(s: &[u8]) -> (r: Vec<u8>)
    ensures
        r@ == s@,
{
    let mut r: Vec<u8> = Vec::with_capacity(s.len());
    let mut i: usize = 0;
    while i < s.len()
        invariant
            i <= s@.len(),
            r@ == s@.subrange(0, i as int),
        decreases s@.len() - i,
    {
        r.push(s[i]);
        i += 1;
    }
    r
}

/// The query as lines are compared against it: lower-cased unless case matters.
pub fn prepare_query(query: &[u8], match_case: bool) -> (r: Vec<u8>)
    ensures
        r@ == normalize(query@, match_case),
{
    if match_case {
        copy_bytes(query)
    } else {
        to_ascii_lower(query)
    }
}

/// Whether one line contains the query, where `query` was prepared under the
/// same case policy (see [`prepare_query`]).
pub fn line_matches(line: &[u8], query: &[u8], match_case: bool) -> (r: bool)
    ensures
        r == line_matches_spec(line@, query@, match_case),
{
    if match_case {
        contains_bytes(line, query)
    } else {
        let lowered = to_ascii_lower(line);
        contains_bytes(lowered.as_slice(), query)
    }
}

/// Whether any of the lines of a file contains the prepared query; stops at
/// the first line that does.
pub fn any_line_matches(lines: &Vec<Vec<u8>>, query: &[u8], match_case: bool) -> (r: bool)
    ensures
        r == any_line_matches_spec(lines@, query@, match_case),
{
    let mut i: usize = 0;
    while i < lines.len()
        invariant
            i <= lines@.len(),
            forall|k: int| 0 <= k < i ==> !line_matches_spec(#[trigger] lines@[k]@, query@, match_case),
        decreases lines@.len() - i,
    {
        if line_matches(lines[i].as_slice(), query, match_case) {
            return true;
        }
        i += 1;
    }
    false
}

/// Case-insensitive search finds a line that holds the query in any mix of
/// case: if the line contains some text that equals the query up to ASCII case
/// (`"Query"` for `"query"`, or the other way round), the line matches.
pub proof fn lemma_case_insensitive_match(line: Seq<u8>, written: Seq<u8>, query: Seq<u8>)
    requires
        contains_seq(line, written),
        lower_seq(written) == lower_seq(query),
    ensures
        line_matches_spec(line, normalize(query, false), false),
{
    let i = choose|i: int| occurs_at(line, written, i);
    let n = written.len() as int;
    assert(lower_seq(line).subrange(i, i + n) =~= lower_seq(line.subrange(i, i + n)));
    assert(occurs_at(lower_seq(line), lower_seq(query), i));
}

/// Case-sensitive search is plain substring containment: a line matches exactly
/// when it contains the query byte for byte.
pub proof fn lemma_case_sensitive_exact(line: Seq<u8>, query: Seq<u8>)
    ensures
        line_matches_spec(line, normalize(query, true), true) == contains_seq(line, query),
{
}

/// Case-insensitive search cannot tell apart lines, nor queries, that differ
/// only in ASCII case.
pub proof fn lemma_case_insensitive_ignores_case(
    line_a: Seq<u8>,
    line_b: Seq<u8>,
    query_a: Seq<u8>,
    query_b: Seq<u8>,
)
    requires
        lower_seq(line_a) == lower_seq(line_b),
        lower_seq(query_a) == lower_seq(query_b),
    ensures
        line_matches_spec(line_a, normalize(query_a, false), false) == line_matches_spec(
            line_b,
            normalize(query_b, false),
            false,
        ),
{
}

} // verus!
