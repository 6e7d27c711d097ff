//! The options of one search, checked before any work starts.
use vstd::prelude::*;
use crate::matcher::{lower_byte, lower_seq, normalize, prepare_query};

verus! {

/// A configuration that makes a search impossible.
#[derive(Debug, Clone, Copy, PartialEq, Eq, Structural)]
pub enum ConfigError {
    /// The number of jobs is not a positive integer.
    InvalidJobs,
    /// The root of the search is not a directory.
    NotADirectory,
}

pub open spec fn is_digit(b: u8) -> bool {
    48 <= b <= 57
}

/// The value of a string of decimal digits, most significant first.
pub open spec fn digits_value(s: Seq<u8>) -> nat
    decreases s.len(),
{
    if s.len() == 0 {
        0
    } else {
        digits_value(s.drop_last()) * 10 + (s.last() - 48) as nat
    }
}

/// The digits of a number as written, without its optional leading `+`.
pub open spec fn unsigned_part(text: Seq<u8>) -> Seq<u8> {
    if text.len() > 0 && text[0] == 43 {
        text.drop_first()
    } else {
        text
    }
}

/// The text is a number: an optional `+` and one or more decimal digits.
pub open spec fn is_number(text: Seq<u8>) -> bool {
    let d = unsigned_part(text);
    d.len() > 0 && forall|i: int| 0 <= i < d.len() ==> is_digit(#[trigger] d[i])
}

/// The value of a number as written.
pub open spec fn number_value(text: Seq<u8>) -> nat {
    digits_value(unsigned_part(text))
}

/// The text names a usable number of jobs: a positive integer that fits a `usize`.
pub open spec fn valid_jobs(text: Seq<u8>) -> bool {
    is_number(text) && 1 <= number_value(text) <= usize::MAX
}

/// The number of jobs written in `text`.
pub fn parse_jobs(text: &[u8]) -> (r: Result<usize, ConfigError>)
    ensures
        valid_jobs(text@) ==> r == Ok::<usize, ConfigError>(number_value(text@) as usize),
        !valid_jobs(text@) ==> r == Err::<usize, ConfigError>(ConfigError::InvalidJobs),
{
    let ghost d = unsigned_part(text@);
    let mut i: usize = 0;
    if text.len() > 0 && text[0] == 43 {
        i = 1;
    }
    let start: usize = i;
    if start == text.len() {
        return Err(ConfigError::InvalidJobs);
    }
    let mut value: usize = 0;
    let mut overflow: bool = false;
    while i < text.len()
        invariant
            start <= i <= text@.len(),
            d == text@.subrange(start as int, text@.len() as int),
            d == unsigned_part(text@),
            forall|k: int| 0 <= k < i - start ==> is_digit(#[trigger] d[k]),
            !overflow ==> value == digits_value(d.subrange(0, i - start)),
            overflow ==> digits_value(d.subrange(0, i - start)) > usize::MAX,
        decreases text@.len() - i,
    {
        let b = text[i];
        if b < 48 || b > 57 {
            assert(!is_digit(d[i - start]));
            assert(!is_number(text@));
            return Err(ConfigError::InvalidJobs);
        }
        let digit: usize = (b - 48) as usize;
        let ghost prev = d.subrange(0, i - start);
        let ghost next = d.subrange(0, i + 1 - start);
        assert(next.drop_last() =~= prev);
        assert(digits_value(next) == digits_value(prev) * 10 + digit);
        if !overflow {
            if value > (usize::MAX - digit) / 10 {
                assert(value * 10 + digit > usize::MAX) by (nonlinear_arith)
                    requires
                        value > (usize::MAX - digit) / 10,
                        digit <= 9,
                ;
                overflow = true;
            } else {
                assert(value * 10 + digit <= usize::MAX) by (nonlinear_arith)
                    requires
                        value <= (usize::MAX - digit) / 10,
                        digit <= 9,
                ;
                value = value * 10 + digit;
            }
        } else {
            assert(digits_value(prev) * 10 + digit >= digits_value(prev)) by (nonlinear_arith);
        }
        i += 1;
    }
    assert(d.subrange(0, i - start) =~= d);
    if overflow || value == 0 {
        Err(ConfigError::InvalidJobs)
    } else {
        Ok(value)
    }
}

/// What a search needs to know, fixed before it starts.
#[derive(Debug)]
pub struct SearchOptions {
    /// The text looked for, lower-cased already when case does not matter.
    pub query: Vec<u8>,
    /// Whether lines are compared with regard to case.
    pub match_case: bool,
    /// Whether directories below the root's own entries are entered.
    pub recursive: bool,
    /// The most traversal tasks that may run at once, the first one included.
    pub max_workers: usize,
}

proof fn lemma_lower_idempotent(s: Seq<u8>)
    ensures
        lower_seq(lower_seq(s)) == lower_seq(s),
{
    assert forall|i: int| 0 <= i < s.len() implies lower_byte(lower_byte(s[i])) == lower_byte(
        s[i],
    ) by {}
    assert(lower_seq(lower_seq(s)) =~= lower_seq(s));
}

impl SearchOptions {
    /// At least one task may run, and the query is in the form that lines are
    /// compared against.
    pub open spec fn wf(&self) -> bool {
        &&& self.max_workers >= 1
        &&& self.query@ == normalize(self.query@, self.match_case)
    }

    /// The options of a search for `query` from a root that is a directory or
    /// not, with the number of jobs as written by the user.
    pub fn new(query: &[u8], match_case: bool, recursive: bool, jobs: &[u8], root_is_dir: bool) -> (r:
        Result<SearchOptions, ConfigError>)
        ensures
            !root_is_dir ==> r == Err::<SearchOptions, ConfigError>(ConfigError::NotADirectory),
            root_is_dir && !valid_jobs(jobs@) ==> r == Err::<SearchOptions, ConfigError>(
                ConfigError::InvalidJobs,
            ),
            root_is_dir && valid_jobs(jobs@) ==> r is Ok,
            r is Ok ==> {
                let o = r->Ok_0;
                &&& o.wf()
                &&& o.query@ == normalize(query@, match_case)
                &&& o.match_case == match_case
                &&& o.recursive == recursive
                &&& o.max_workers == number_value(jobs@)
            },
    {
        if !root_is_dir {
            return Err(ConfigError::NotADirectory);
        }
        let max_workers = match parse_jobs(jobs) {
            Ok(n) => n,
            Err(e) => {
                return Err(e);
            },
        };
        let prepared = prepare_query(query, match_case);
        proof {
            lemma_lower_idempotent(query@);
        }
        Ok(SearchOptions { query: prepared, match_case, recursive, max_workers })
    }
}

} // verus!
