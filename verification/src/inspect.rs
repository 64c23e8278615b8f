//! Parsing of socket-table output lines: whitespace-separated fields,
//! with the port read from the text after the last colon of the name
//! field. The surrounding subprocess work lives outside the library;
//! only the pure parsing is here.

use vstd::prelude::*;
use crate::text::is_space;
use crate::text::is_space_char;
use crate::text::parse_u16;
use crate::text::parse_u16_spec;
use vstd::string::StringExecFns;

verus! {

/// The characters after the last colon of `s`; all of `s` when it has
/// no colon.
pub open spec fn after_last_colon(s: Seq<char>) -> Seq<char>
    decreases s.len(),
{
    if s.len() == 0 {
        s
    } else if s.last() == ':' {
        Seq::empty()
    } else {
        after_last_colon(s.drop_last()).push(s.last())
    }
}

/// The characters before the last colon of `s`; all of `s` when it has
/// no colon.
pub open spec fn before_last_colon(s: Seq<char>) -> Seq<char> {
    if after_last_colon(s).len() == s.len() {
        s
    } else {
        s.take(s.len() - after_last_colon(s).len() - 1)
    }
}

/// The index where the text after the last colon starts; zero when
/// there is no colon at all.
fn suffix_start(name_field: &str) -> (j: usize)
    ensures
        j <= name_field@.len(),
        after_last_colon(name_field@) == name_field@.skip(j as int),
        j > 0 ==> name_field@[j as int - 1] == ':',
{
    let n = name_field.unicode_len();
    let ghost sv = name_field@;
    let mut j: usize = n;
    proof {
        assert(sv.take(n as int) =~= sv);
        assert(after_last_colon(sv) =~= after_last_colon(sv.take(n as int)) + sv.skip(n as int));
    }
    while j > 0 && name_field.get_char(j - 1) != ':'
        invariant
            j <= n,
            n == sv.len(),
            name_field@ == sv,
            after_last_colon(sv) == after_last_colon(sv.take(j as int)) + sv.skip(j as int),
        decreases j,
    {
        proof {
            assert(sv.take(j as int).last() == sv[j as int - 1]);
            assert(sv.take(j as int).drop_last() =~= sv.take(j as int - 1));
            assert(after_last_colon(sv.take(j as int - 1)) + sv.skip(j as int - 1)
                =~= after_last_colon(sv.take(j as int)) + sv.skip(j as int));
        }
        j -= 1;
    }
    proof {
        if j > 0 {
            assert(sv.take(j as int).last() == sv[j as int - 1]);
            assert(after_last_colon(sv.take(j as int)) == Seq::<char>::empty());
        } else {
            assert(sv.take(0).len() == 0);
        }
        assert(after_last_colon(sv) =~= sv.skip(j as int));
    }
    j
}

/// The text after the last `:` of the socket name field — the port
/// number in forms such as `*:3000` or `127.0.0.1:8080`. There is
/// always such a suffix, so the result is always present.
pub fn extract_port(name_field: &str) -> (r: Option<&str>)
    ensures
        r is Some,
        match r {
            Some(t) => t@ == after_last_colon(name_field@),
            None => false,
        },
{
    let n = name_field.unicode_len();
    let j = suffix_start(name_field);
    proof {
        assert(name_field@.subrange(j as int, n as int) =~= name_field@.skip(j as int));
    }
    Some(name_field.substring_char(j, n))
}

/// The text before the last `:` of the socket name field — the bind
/// address in forms such as `*:3000` or `[::1]:443`; the whole field
/// when it has no colon.
pub fn extract_address<'a>(name_field: &'a str) -> (r: &'a str)
    ensures
        r@ == before_last_colon(name_field@),
{
    let n = name_field.unicode_len();
    let j = suffix_start(name_field);
    if j == 0 {
        proof {
            assert(name_field@.skip(0) =~= name_field@);
        }
        name_field
    } else {
        proof {
            assert(after_last_colon(name_field@).len() == n - j);
        }
        name_field.substring_char(0, j - 1)
    }
}

/// The whitespace-separated fields of `s` (no empty fields), with `cur`
/// the partial field already read.
pub open spec fn ws_fields_from(s: Seq<char>, cur: Seq<char>) -> Seq<Seq<char>>
    decreases s.len(),
{
    if s.len() == 0 {
        if cur.len() > 0 {
            seq![cur]
        } else {
            Seq::empty()
        }
    } else if is_space(s[0]) {
        (if cur.len() > 0 {
            seq![cur]
        } else {
            Seq::empty()
        }) + ws_fields_from(s.drop_first(), Seq::empty())
    } else {
        ws_fields_from(s.drop_first(), cur.push(s[0]))
    }
}

/// The whitespace-separated fields of `s`.
pub open spec fn ws_fields(s: Seq<char>) -> Seq<Seq<char>> {
    ws_fields_from(s, Seq::empty())
}

/// Splits a line into its whitespace-separated fields.
pub fn split_fields(line: &str) -> (fields: Vec<String>)
    ensures
        fields.deep_view() == ws_fields(line@),
{
    let n = line.unicode_len();
    let ghost sv = line@;
    let mut fields: Vec<String> = Vec::new();
    let mut i: usize = 0;
    let mut seg_start: usize = 0;
    proof {
        assert(sv.skip(0) =~= sv);
        assert(sv.subrange(0, 0) =~= Seq::<char>::empty());
        assert(fields.deep_view() =~= Seq::<Seq<char>>::empty());
        assert(ws_fields(sv) =~= fields.deep_view() + ws_fields_from(
            sv.skip(0),
            sv.subrange(0, 0),
        ));
    }
    while i < n
        invariant
            seg_start <= i <= n,
            n == sv.len(),
            line@ == sv,
            ws_fields(sv) == fields.deep_view() + ws_fields_from(
                sv.skip(i as int),
                sv.subrange(seg_start as int, i as int),
            ),
        decreases n - i,
    {
        let c = line.get_char(i);
        proof {
            assert(sv.skip(i as int)[0] == sv[i as int]);
            assert(sv.skip(i as int).drop_first() =~= sv.skip(i as int + 1));
        }
        if is_space_char(c) {
            let ghost cur = sv.subrange(seg_start as int, i as int);
            let ghost before = fields.deep_view();
            if seg_start < i {
                let part = line.substring_char(seg_start, i);
                fields.push(String::from_str(part));
                proof {
                    assert(cur.len() > 0);
                    assert(fields.deep_view() =~= before.push(cur));
                    assert(before.push(cur) =~= before + seq![cur]);
                }
            } else {
                proof {
                    assert(cur.len() == 0);
                    assert(before + Seq::<Seq<char>>::empty() =~= before);
                }
            }
            proof {
                assert(sv.subrange(i as int + 1, i as int + 1) =~= Seq::<char>::empty());
                assert(ws_fields(sv) =~= fields.deep_view() + ws_fields_from(
                    sv.skip(i as int + 1),
                    sv.subrange(i as int + 1, i as int + 1),
                ));
            }
            seg_start = i + 1;
        } else {
            proof {
                assert(sv.subrange(seg_start as int, i as int + 1) =~= sv.subrange(
                    seg_start as int,
                    i as int,
                ).push(sv[i as int]));
            }
        }
        i += 1;
    }
    let ghost last = sv.subrange(seg_start as int, n as int);
    proof {
        assert(sv.skip(n as int).len() == 0);
    }
    if seg_start < n {
        let part = line.substring_char(seg_start, n);
        let ghost before = fields.deep_view();
        fields.push(String::from_str(part));
        proof {
            assert(last.len() > 0);
            assert(ws_fields_from(sv.skip(n as int), last) == seq![last]);
            assert(fields.deep_view() =~= before.push(last));
            assert(before.push(last) =~= before + seq![last]);
            assert(ws_fields(sv) =~= fields.deep_view());
        }
    } else {
        proof {
            assert(last.len() == 0);
            assert(ws_fields_from(sv.skip(n as int), last) =~= Seq::<Seq<char>>::empty());
            assert(ws_fields(sv) =~= fields.deep_view());
        }
    }
    fields
}

/// What one socket-table line denotes: the process name, the pid, the
/// port parsed from the ninth field, and that field's bind address —
/// or nothing when the line is too short or the port does not parse.
pub open spec fn parsed_line(line: Seq<char>) -> Option<(Seq<char>, Seq<char>, u16, Seq<char>)> {
    let fs = ws_fields(line);
    if fs.len() < 9 {
        None
    } else {
        match parse_u16_spec(after_last_colon(fs[8])) {
            Some(p) => Some((fs[0], fs[1], p, before_last_colon(fs[8]))),
            None => None,
        }
    }
}

/// Parses one socket-table line into `(process name, pid, port, bind
/// address)`. A line with fewer than nine fields, or whose name field
/// carries no parsable port, yields nothing.
pub fn parse_socket_line(line: &str) -> (r: Option<(String, String, u16, String)>)
    ensures
        match r {
            Some(t) => parsed_line(line@) == Some((t.0@, t.1@, t.2, t.3@)),
            None => parsed_line(line@) is None,
        },
{
    let fields = split_fields(line);
    if fields.len() < 9 {
        return None;
    }
    let suffix = match extract_port(fields[8].as_str()) {
        Some(t) => t,
        None => {
            return None;
        },
    };
    proof {
        assert(fields.deep_view()[8] == fields@[8]@);
    }
    match parse_u16(suffix) {
        Some(p) => {
            let address = String::from_str(extract_address(fields[8].as_str()));
            proof {
                assert(fields.deep_view()[0] == fields@[0]@);
                assert(fields.deep_view()[1] == fields@[1]@);
            }
            Some((fields[0].clone(), fields[1].clone(), p, address))
        },
        None => None,
    }
}

} // verus!
