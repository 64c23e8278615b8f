//! The classification function: scores one listener record against a
//! rule set. A record is classified as development when its score
//! reaches the rule set's threshold.

use vstd::prelude::*;
use crate::records::RuleSetView;
use crate::records::RuleSet;
use crate::text::contains_ci;
use crate::text::contains_ci_spec;
use crate::text::str_eq;

verus! {

/// Ports conventionally used by development servers, as five inclusive
/// ranges.
pub open spec fn is_dev_port(port: u16) -> bool {
    ||| 3000 <= port <= 3999
    ||| 4000 <= port <= 4999
    ||| 5000 <= port <= 5999
    ||| 8000 <= port <= 8999
    ||| 9000 <= port <= 9999
}

/// Whether `port` lies in one of the development port ranges.
pub fn port_in_dev_range(port: u16) -> (r: bool)
    ensures
        r == is_dev_port(port),
{
    (3000 <= port && port <= 3999) || (4000 <= port && port <= 4999) || (5000 <= port && port
        <= 5999) || (8000 <= port && port <= 8999) || (9000 <= port && port <= 9999)
}

/// The recognized loopback and wildcard bind-address forms.
pub open spec fn is_local_addr(addr: Seq<char>) -> bool {
    ||| addr == "127.0.0.1"@
    ||| addr == "localhost"@
    ||| addr == "0.0.0.0"@
    ||| addr == "*"@
    ||| addr == "[::1]"@
    ||| addr == "[::]"@
}

/// Whether `addr` is one of the recognized local-address forms.
pub fn is_local_address(addr: &str) -> (r: bool)
    ensures
        r == is_local_addr(addr@),
{
    str_eq(addr, "127.0.0.1") || str_eq(addr, "localhost") || str_eq(addr, "0.0.0.0") || str_eq(
        addr,
        "*",
    ) || str_eq(addr, "[::1]") || str_eq(addr, "[::]")
}

/// `hay` contains at least one of the patterns, case-insensitively.
pub open spec fn any_ci(hay: Seq<char>, pats: Seq<Seq<char>>) -> bool {
    exists|i: int| 0 <= i < pats.len() && contains_ci_spec(hay, pats[i])
}

/// Whether `hay` contains any of `pats` as a case-insensitive substring.
pub fn matches_any_ci(hay: &str, pats: &Vec<String>) -> (r: bool)
    ensures
        r == any_ci(hay@, pats.deep_view()),
{
    let mut i: usize = 0;
    while i < pats.len()
        invariant
            i <= pats@.len(),
            forall|k: int| 0 <= k < i ==> !contains_ci_spec(hay@, pats.deep_view()[k]),
        decreases pats@.len() - i,
    {
        if contains_ci(hay, pats[i].as_str()) {
            proof {
                assert(contains_ci_spec(hay@, pats.deep_view()[i as int]));
            }
            return true;
        }
        i += 1;
    }
    false
}

/// The record is excluded outright: its process name or command line
/// contains an exclusion pattern.
pub open spec fn is_excluded(name: Seq<char>, cmd: Seq<char>, rs: RuleSetView) -> bool {
    any_ci(name, rs.exclude_process_names) || any_ci(cmd, rs.exclude_process_names)
}

/// The score of a record: `0` when excluded, otherwise the sum of the
/// weights of the matched signals (`+30` process name, `+25` command
/// keyword, `+10` local address, `+15` development port range).
pub open spec fn score_spec(
    name: Seq<char>,
    cmd: Seq<char>,
    port: u16,
    addr: Seq<char>,
    rs: RuleSetView,
) -> int {
    if is_excluded(name, cmd, rs) {
        0
    } else {
        (if any_ci(name, rs.dev_process_names) {
            30int
        } else {
            0int
        }) + (if any_ci(cmd, rs.dev_keywords) {
            25int
        } else {
            0int
        }) + (if is_local_addr(addr) {
            10int
        } else {
            0int
        }) + (if is_dev_port(port) {
            15int
        } else {
            0int
        })
    }
}

/// Scores one listener record against the rule set. Pure: the result is
/// a function of the arguments alone, so two calls on equal inputs
/// return equal values.
pub fn score(
    process_name: &str,
    command_line: &str,
    port: u16,
    address: &str,
    rule_set: &RuleSet,
) -> (s: u32)
    ensures
        s == score_spec(process_name@, command_line@, port, address@, rule_set@),
        s <= 80,
{
    if matches_any_ci(process_name, &rule_set.exclude_process_names) || matches_any_ci(
        command_line,
        &rule_set.exclude_process_names,
    ) {
        return 0;
    }
    let mut total: u32 = 0;
    if matches_any_ci(process_name, &rule_set.dev_process_names) {
        total = total + 30;
    }
    if matches_any_ci(command_line, &rule_set.dev_keywords) {
        total = total + 25;
    }
    if is_local_address(address) {
        total = total + 10;
    }
    if port_in_dev_range(port) {
        total = total + 15;
    }
    total
}

/// Exclusion dominance: a record whose process name or command line
/// matches an exclusion pattern scores `0`, whatever the other signals
/// say.
pub proof fn lemma_exclusion_dominates(
    name: Seq<char>,
    cmd: Seq<char>,
    port: u16,
    addr: Seq<char>,
    rs: RuleSetView,
)
    requires
        is_excluded(name, cmd, rs),
    ensures
        score_spec(name, cmd, port, addr, rs) == 0,
{
}

/// Determinism: the score is a function of the inputs, so any two
/// results computed from equal inputs are equal.
pub proof fn lemma_score_deterministic(
    s1: int,
    s2: int,
    name: Seq<char>,
    cmd: Seq<char>,
    port: u16,
    addr: Seq<char>,
    rs: RuleSetView,
)
    requires
        s1 == score_spec(name, cmd, port, addr, rs),
        s2 == score_spec(name, cmd, port, addr, rs),
    ensures
        s1 == s2,
{
}

} // verus!
