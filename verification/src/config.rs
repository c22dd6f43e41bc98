//! Runtime configuration.
//!
//! The analysis is configured by a strategy name, a named subset rule set
//! (fee-tier flags and input/output count rules), and a run duration
//! expressed as a target number of discovered blocks. Parsing the process
//! command line into these values is the caller's concern; this module owns
//! the values themselves and the grammar of a count rule.

use vstd::prelude::*;
use vstd::string::StrSliceExecFns;
use vstd::string::StringExecFns;
use crate::block_data::{digits_value, is_u32_numeral, numeral_digits, parse_u32_numeral};
use crate::runner::AnalyzerError;

verus! {

/// How a count rule compares a record's input or output count against its
/// threshold.
#[derive(Clone, Copy, Debug, PartialEq, Eq, Structural)]
pub enum Comparison {
    LessThan,
    GreaterThan,
    Equals,
}

/// The subset-sampling command: which predicate rules make up the tracked
/// subset.
#[derive(Clone, Copy, Debug)]
pub enum Commands {
    SubsetSample {
        low_fee_txns: bool,
        high_fee_txns: bool,
        inputs: Option<(Comparison, u32)>,
        outputs: Option<(Comparison, u32)>,
    },
}

/// The full runtime configuration: the estimation strategy, the subset rule
/// set, and how many discovered blocks end the run.
#[derive(Debug)]
pub struct Config {
    pub strategy_name: String,
    pub commands: Commands,
    pub duration: usize,
}

impl Clone for Config {
    fn clone(&self) -> (r: Self)
        ensures
            r.strategy_name@ == self.strategy_name@,
            r.commands == self.commands,
            r.duration == self.duration,
    {
        Config {
            strategy_name: self.strategy_name.clone(),
            commands: self.commands,
            duration: self.duration,
        }
    }
}

/// Position `p` holds the only space of `s`.
pub open spec fn single_space_at(s: Seq<char>, p: int) -> bool {
    &&& 0 <= p < s.len()
    &&& s[p] == ' '
    &&& forall|q: int| 0 <= q < s.len() && q != p ==> (#[trigger] s[q]) != ' '
}

/// `a` reads as `b` after folding an ASCII capital to its small form.
pub open spec fn char_eq_folded(a: char, b: char) -> bool {
    a == b || ('A' <= a && a <= 'Z' && a as u32 + 32 == b as u32)
}

/// `part` spells `kw` up to ASCII case.
pub open spec fn matches_keyword(part: Seq<char>, kw: Seq<char>) -> bool {
    part.len() == kw.len() && forall|i: int|
        0 <= i < part.len() ==> char_eq_folded(#[trigger] part[i], kw[i])
}

/// The comparison a rule word names, if any.
pub open spec fn comparison_of(part: Seq<char>) -> Option<Comparison> {
    if matches_keyword(part, "less-than"@) {
        Some(Comparison::LessThan)
    } else if matches_keyword(part, "greater-than"@) {
        Some(Comparison::GreaterThan)
    } else if matches_keyword(part, "equals"@) {
        Some(Comparison::Equals)
    } else {
        None
    }
}

/// `s` is a well-formed count rule: one space separating a comparison word
/// from a count that fits a `u32`.
pub open spec fn is_count_rule(s: Seq<char>) -> bool {
    exists|p: int|
        #[trigger] single_space_at(s, p) && comparison_of(s.take(p)) is Some && is_u32_numeral(
            s.skip(p + 1),
        )
}

fn keyword_matches(part: &str, kw: &str) -> (r: bool)
    ensures
        r == matches_keyword(part@, kw@),
{
    let np = part.unicode_len();
    let nk = kw.unicode_len();
    if np != nk {
        return false;
    }
    let mut i: usize = 0;
    while i < np
        invariant
            0 <= i <= np,
            np == part@.len(),
            nk == kw@.len(),
            np == nk,
            forall|j: int| 0 <= j < i ==> char_eq_folded(#[trigger] part@[j], kw@[j]),
        decreases np - i,
    {
        let a = part.get_char(i);
        let b = kw.get_char(i);
        if !(a == b || ('A' <= a && a <= 'Z' && (a as u32) + 32 == (b as u32))) {
            return false;
        }
        i += 1;
    }
    true
}

/// Parses a `<comparison> <count>` rule: a comparison word (ASCII case
/// ignored), one space, and a count that fits a `u32`. Each malformed shape
/// reports its own error text, exactly once per rule.
pub fn parse_comparison_and_count(s: &str) -> (r: Result<(Comparison, u32), String>)
    ensures
        r is Ok <==> is_count_rule(s@),
        r is Ok ==> exists|p: int|
            #[trigger] single_space_at(s@, p) && r->Ok_0.0 == comparison_of(s@.take(p))->Some_0
                && r->Ok_0.1 == digits_value(numeral_digits(s@.skip(p + 1))),
        !(exists|p: int| #[trigger] single_space_at(s@, p)) ==> r is Err && r->Err_0@
            == "Invalid format. Use '<comparison> <count>' (e.g., less-than 5)"@,
        forall|p: int|
            #[trigger] single_space_at(s@, p) && comparison_of(s@.take(p)) is None ==> r is Err
                && r->Err_0@ == "Invalid comparison. Use less-than, greater-than, or equals."@,
        forall|p: int|
            #[trigger] single_space_at(s@, p) && comparison_of(s@.take(p)) is Some
                && !is_u32_numeral(s@.skip(p + 1)) ==> r is Err && r->Err_0@
                == "Invalid count. Must be a positive integer."@,
{
    let n = s.unicode_len();
    let mut p1: usize = n;
    let mut p2: usize = n;
    let mut i: usize = 0;
    while i < n
        invariant
            0 <= i <= n,
            n == s@.len(),
            p1 <= n,
            p2 <= n,
            p2 < n ==> p1 < n,
            p1 == n ==> forall|j: int| 0 <= j < i ==> (#[trigger] s@[j]) != ' ',
            p1 < n ==> p1 < i && s@[p1 as int] == ' ' && forall|j: int|
                0 <= j < p1 ==> (#[trigger] s@[j]) != ' ',
            p2 == n ==> forall|j: int| 0 <= j < i && j != p1 ==> (#[trigger] s@[j]) != ' ',
            p2 < n ==> p1 < p2 < i && s@[p2 as int] == ' ',
        decreases n - i,
    {
        if s.get_char(i) == ' ' {
            if p1 == n {
                p1 = i;
            } else if p2 == n {
                p2 = i;
            }
        }
        i += 1;
    }
    if p1 == n || p2 < n {
        proof {
            assert forall|p: int| !single_space_at(s@, p) by {
                if single_space_at(s@, p) {
                    if p1 == n {
                        assert(s@[p] != ' ');
                    } else {
                        if p != p1 {
                            assert(s@[p1 as int] != ' ');
                        } else {
                            assert(s@[p2 as int] != ' ');
                        }
                    }
                }
            }
        }
        return Err(String::from_str("Invalid format. Use '<comparison> <count>' (e.g., less-than 5)"));
    }
    proof {
        assert(single_space_at(s@, p1 as int));
    }
    let part1 = s.substring_char(0, p1);
    let part2 = s.substring_char(p1 + 1, n);
    proof {
        assert(part1@ =~= s@.take(p1 as int));
        assert(part2@ =~= s@.skip(p1 as int + 1));
        assert forall|p: int| #[trigger] single_space_at(s@, p) implies p == p1 as int by {
            if p != p1 as int {
                assert(s@[p1 as int] != ' ');
            }
        }
    }
    let comparison = if keyword_matches(part1, "less-than") {
        Comparison::LessThan
    } else if keyword_matches(part1, "greater-than") {
        Comparison::GreaterThan
    } else if keyword_matches(part1, "equals") {
        Comparison::Equals
    } else {
        return Err(String::from_str("Invalid comparison. Use less-than, greater-than, or equals."));
    };
    match parse_u32_numeral(part2) {
        Ok(count) => Ok((comparison, count)),
        Err(_) => Err(String::from_str("Invalid count. Must be a positive integer.")),
    }
}

} // verus!
