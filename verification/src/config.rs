//! Monitored-port configuration: a list of port patterns, each a
//! comma-separated mix of single ports (`3000`) and inclusive ranges
//! (`3000-3100`), with optional whitespace around every piece.

use vstd::prelude::*;
use crate::text::parse_u16;
use crate::text::parse_u16_spec;
use crate::text::trim_spec;
use crate::text::trim_str;

verus! {

/// One entry of the configuration: a port pattern and an optional label.
pub struct PortEntry {
    pub ports: String,
    pub name: Option<String>,
}

/// The persisted configuration: the list of monitored port patterns.
pub struct Config {
    pub ports: Vec<PortEntry>,
}

/// The comma-separated pieces of `s` (empty pieces kept), after the
/// piece `cur` has already been read.
pub open spec fn comma_parts_from(s: Seq<char>, cur: Seq<char>) -> Seq<Seq<char>>
    decreases s.len(),
{
    if s.len() == 0 {
        seq![cur]
    } else if s[0] == ',' {
        seq![cur] + comma_parts_from(s.drop_first(), Seq::empty())
    } else {
        comma_parts_from(s.drop_first(), cur.push(s[0]))
    }
}

/// The comma-separated pieces of `s`.
pub open spec fn comma_parts(s: Seq<char>) -> Seq<Seq<char>> {
    comma_parts_from(s, Seq::empty())
}

/// Splits `p` at its first dash into the text before and after it, if
/// there is one; `left` is the text already passed.
pub open spec fn dash_split_from(p: Seq<char>, left: Seq<char>) -> Option<(Seq<char>, Seq<char>)>
    decreases p.len(),
{
    if p.len() == 0 {
        None
    } else if p[0] == '-' {
        Some((left, p.drop_first()))
    } else {
        dash_split_from(p.drop_first(), left.push(p[0]))
    }
}

/// One comma-separated piece matches `target`: trimmed, it is either a
/// range `lo-hi` whose two trimmed sides parse and enclose `target`, or
/// a single port that parses to exactly `target`. A piece that fails to
/// parse matches nothing.
pub open spec fn part_matches(raw: Seq<char>, target: u16) -> bool {
    let p = trim_spec(raw);
    match dash_split_from(p, Seq::empty()) {
        Some((l, r)) => match (parse_u16_spec(trim_spec(l)), parse_u16_spec(trim_spec(r))) {
            (Some(lo), Some(hi)) => lo <= target && target <= hi,
            _ => false,
        },
        None => parse_u16_spec(p) == Some(target),
    }
}

/// The pattern `ports` matches `target`: some comma-separated piece does.
pub open spec fn entry_matches(ports: Seq<char>, target: u16) -> bool {
    exists|k: int| 0 <= k < comma_parts(ports).len() && part_matches(comma_parts(ports)[k], target)
}

/// Some entry of `entries` matches `port`.
pub open spec fn monitored_spec(entries: Seq<PortEntry>, port: u16) -> bool {
    exists|k: int| 0 <= k < entries.len() && entry_matches(entries[k].ports@, port)
}

/// Whether one comma-separated piece matches `target`.
fn piece_matches(raw: &str, target: u16) -> (r: bool)
    ensures
        r == part_matches(raw@, target),
{
    let p = trim_str(raw);
    let n = p.unicode_len();
    let mut i: usize = 0;
    proof {
        assert(p@.skip(0) =~= p@);
        assert(p@.take(0) =~= Seq::<char>::empty());
    }
    while i < n
        invariant
            i <= n,
            n == p@.len(),
            p@ == trim_spec(raw@),
            dash_split_from(p@, Seq::empty()) == dash_split_from(
                p@.skip(i as int),
                p@.take(i as int),
            ),
        decreases n - i,
    {
        let c = p.get_char(i);
        proof {
            assert(p@.skip(i as int)[0] == p@[i as int]);
            assert(p@.skip(i as int).drop_first() =~= p@.skip(i as int + 1));
            assert(p@.take(i as int).push(p@[i as int]) =~= p@.take(i as int + 1));
        }
        if c == '-' {
            proof {
                assert(dash_split_from(p@, Seq::empty()) == Some(
                    (p@.take(i as int), p@.skip(i as int + 1)),
                ));
            }
            let left = p.substring_char(0, i);
            let right = p.substring_char(i + 1, n);
            proof {
                assert(left@ =~= p@.take(i as int));
                assert(right@ =~= p@.skip(i as int + 1));
            }
            let lo = parse_u16(trim_str(left));
            let hi = parse_u16(trim_str(right));
            return match (lo, hi) {
                (Some(a), Some(b)) => a <= target && target <= b,
                _ => false,
            };
        }
        i += 1;
    }
    proof {
        assert(p@.skip(n as int).len() == 0);
        assert(dash_split_from(p@, Seq::empty()) is None);
    }
    match parse_u16(p) {
        Some(v) => v == target,
        None => false,
    }
}

impl PortEntry {
    /// Whether this entry's pattern matches `target`. Supported forms:
    /// `3000`, `3000-3100`, `3000,3001,3002`, and mixtures such as
    /// `3000-3010, 4000, 5000-5100`.
    pub fn matches(&self, target: u16) -> (r: bool)
        ensures
            r == entry_matches(self.ports@, target),
    {
        let s = self.ports.as_str();
        let n = s.unicode_len();
        let ghost sv = s@;
        let ghost parts = comma_parts(sv);
        let mut i: usize = 0;
        let mut seg_start: usize = 0;
        let ghost mut done: Seq<Seq<char>> = Seq::empty();
        proof {
            assert(sv.skip(0) =~= sv);
            assert(sv.subrange(0, 0) =~= Seq::<char>::empty());
            assert(done + comma_parts_from(sv.skip(0), sv.subrange(0, 0)) =~= comma_parts(sv));
        }
        while i < n
            invariant
                seg_start <= i <= n,
                n == sv.len(),
                s@ == sv,
                sv == self.ports@,
                parts == comma_parts(sv),
                parts == done + comma_parts_from(
                    sv.skip(i as int),
                    sv.subrange(seg_start as int, i as int),
                ),
                forall|k: int| 0 <= k < done.len() ==> !part_matches(#[trigger] done[k], target),
            decreases n - i,
        {
            let c = s.get_char(i);
            proof {
                assert(sv.skip(i as int)[0] == sv[i as int]);
                assert(sv.skip(i as int).drop_first() =~= sv.skip(i as int + 1));
            }
            if c == ',' {
                let ghost cur = sv.subrange(seg_start as int, i as int);
                let part = s.substring_char(seg_start, i);
                proof {
                    assert(part@ == cur);
                    assert(comma_parts_from(sv.skip(i as int), cur) == seq![cur]
                        + comma_parts_from(sv.skip(i as int + 1), Seq::empty()));
                    assert(parts[done.len() as int] == cur);
                }
                if piece_matches(part, target) {
                    proof {
                        assert(0 <= done.len() < parts.len());
                        assert(part_matches(parts[done.len() as int], target));
                    }
                    return true;
                }
                proof {
                    done = done + seq![cur];
                    assert(sv.subrange(i as int + 1, i as int + 1) =~= Seq::<char>::empty());
                    assert(parts =~= done + comma_parts_from(
                        sv.skip(i as int + 1),
                        sv.subrange(i as int + 1, i as int + 1),
                    ));
                }
                seg_start = i + 1;
            } else {
                proof {
                    assert(sv.subrange(seg_start as int, i as int + 1) =~= sv.subrange(
                        seg_start as int,
                        i as int,
                    ).push(sv[i as int]));
                }
            }
            i += 1;
        }
        let ghost last = sv.subrange(seg_start as int, n as int);
        let part = s.substring_char(seg_start, n);
        proof {
            assert(part@ == last);
            assert(sv.skip(n as int).len() == 0);
            assert(comma_parts_from(sv.skip(n as int), last) == seq![last]);
            assert(parts =~= done + seq![last]);
            assert(parts[done.len() as int] == last);
        }
        if piece_matches(part, target) {
            proof {
                assert(part_matches(parts[done.len() as int], target));
            }
            return true;
        }
        proof {
            assert forall|k: int| 0 <= k < parts.len() implies !part_matches(
                #[trigger] parts[k],
                target,
            ) by {
                if k < done.len() {
                    assert(parts[k] == done[k]);
                } else {
                    assert(parts[k] == last);
                }
            }
        }
        false
    }
}

impl Config {
    /// Whether `port_num` matches any configured pattern.
    pub fn is_monitored(&self, port_num: u16) -> (r: bool)
        ensures
            r == monitored_spec(self.ports@, port_num),
    {
        let mut k: usize = 0;
        while k < self.ports.len()
            invariant
                k <= self.ports@.len(),
                forall|j: int|
                    0 <= j < k ==> !entry_matches(#[trigger] self.ports@[j].ports@, port_num),
            decreases self.ports@.len() - k,
        {
            if self.ports[k].matches(port_num) {
                return true;
            }
            k += 1;
        }
        false
    }
}

} // verus!
