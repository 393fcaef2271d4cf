//! A small verified JSON emitter for the two artifact shapes the
//! traversal produces: a pretty-printed array of URL strings and a
//! pretty-printed array of `{url, status}` records, with standard JSON
//! string escaping.

use vstd::prelude::*;

use crate::walker::URLs;

verus! {

/// The character for one hexadecimal digit.
pub open spec fn hex_char(d: nat) -> char {
    if d == 0 {
        '0'
    } else if d == 1 {
        '1'
    } else if d == 2 {
        '2'
    } else if d == 3 {
        '3'
    } else if d == 4 {
        '4'
    } else if d == 5 {
        '5'
    } else if d == 6 {
        '6'
    } else if d == 7 {
        '7'
    } else if d == 8 {
        '8'
    } else if d == 9 {
        '9'
    } else if d == 10 {
        'a'
    } else if d == 11 {
        'b'
    } else if d == 12 {
        'c'
    } else if d == 13 {
        'd'
    } else if d == 14 {
        'e'
    } else {
        'f'
    }
}

/// How one character is written inside a JSON string: quote, backslash
/// and the named control characters get a two-character escape, other
/// control characters a `\u00..` escape, everything else stands as is.
pub open spec fn esc_char(c: char) -> Seq<char> {
    if c == '"' {
        "\\\""@
    } else if c == '\\' {
        "\\\\"@
    } else if c == '\n' {
        "\\n"@
    } else if c == '\r' {
        "\\r"@
    } else if c == '\t' {
        "\\t"@
    } else if c == '\u{0008}' {
        "\\b"@
    } else if c == '\u{000c}' {
        "\\f"@
    } else if (c as u32) < 32 {
        "\\u00"@ + seq![hex_char((c as u32 / 16) as nat), hex_char((c as u32 % 16) as nat)]
    } else {
        seq![c]
    }
}

/// The body of a JSON string: every character escaped.
pub open spec fn json_escape(s: Seq<char>) -> Seq<char>
    decreases s.len(),
{
    if s.len() == 0 {
        Seq::empty()
    } else {
        esc_char(s[0]) + json_escape(s.skip(1))
    }
}

/// A JSON string: the escaped body in double quotes.
pub open spec fn json_string(s: Seq<char>) -> Seq<char> {
    "\""@ + json_escape(s) + "\""@
}

/// The lines of a pretty-printed JSON array of strings, two-space
/// indented, one item per line, comma-separated.
pub open spec fn array_items(items: Seq<Seq<char>>) -> Seq<char>
    decreases items.len(),
{
    if items.len() == 0 {
        Seq::empty()
    } else if items.len() == 1 {
        "  "@ + json_string(items[0])
    } else {
        "  "@ + json_string(items[0]) + ",\n"@ + array_items(items.skip(1))
    }
}

/// A pretty-printed JSON array of strings.
pub open spec fn json_array_pretty(items: Seq<Seq<char>>) -> Seq<char> {
    if items.len() == 0 {
        "[]"@
    } else {
        "[\n"@ + array_items(items) + "\n]"@
    }
}

/// One pretty-printed `{url, status}` object as an array element.
pub open spec fn record_entry(url: Seq<char>, status: Seq<char>) -> Seq<char> {
    "  {\n    \"url\": "@ + json_string(url) + ",\n    \"status\": "@ + json_string(status)
        + "\n  }"@
}

/// The lines of a pretty-printed JSON array of `{url, status}` records.
pub open spec fn record_items(rs: Seq<(Seq<char>, Seq<char>)>) -> Seq<char>
    decreases rs.len(),
{
    if rs.len() == 0 {
        Seq::empty()
    } else if rs.len() == 1 {
        record_entry(rs[0].0, rs[0].1)
    } else {
        record_entry(rs[0].0, rs[0].1) + ",\n"@ + record_items(rs.skip(1))
    }
}

/// The view of a list of `(url, status)` string pairs.
pub open spec fn pairs_view(pairs: Seq<(String, String)>) -> Seq<(Seq<char>, Seq<char>)> {
    pairs.map_values(|p: (String, String)| (p.0@, p.1@))
}

/// A pretty-printed JSON array of `{url, status}` records.
pub open spec fn json_records_pretty(rs: Seq<(Seq<char>, Seq<char>)>) -> Seq<char> {
    if rs.len() == 0 {
        "[]"@
    } else {
        "[\n"@ + record_items(rs) + "\n]"@
    }
}

fn hex_str(d: u32) -> (r: &'static str)
    requires
        d < 16,
    ensures
        r@ == seq![hex_char(d as nat)],
{
    proof {
        reveal_strlit("0");
        reveal_strlit("1");
        reveal_strlit("2");
        reveal_strlit("3");
        reveal_strlit("4");
        reveal_strlit("5");
        reveal_strlit("6");
        reveal_strlit("7");
        reveal_strlit("8");
        reveal_strlit("9");
        reveal_strlit("a");
        reveal_strlit("b");
        reveal_strlit("c");
        reveal_strlit("d");
        reveal_strlit("e");
        reveal_strlit("f");
    }
    let r = if d == 0 {
        "0"
    } else if d == 1 {
        "1"
    } else if d == 2 {
        "2"
    } else if d == 3 {
        "3"
    } else if d == 4 {
        "4"
    } else if d == 5 {
        "5"
    } else if d == 6 {
        "6"
    } else if d == 7 {
        "7"
    } else if d == 8 {
        "8"
    } else if d == 9 {
        "9"
    } else if d == 10 {
        "a"
    } else if d == 11 {
        "b"
    } else if d == 12 {
        "c"
    } else if d == 13 {
        "d"
    } else if d == 14 {
        "e"
    } else {
        "f"
    };
    proof {
        assert(r@ =~= seq![hex_char(d as nat)]);
    }
    r
}

/// Escape the body of a JSON string.
pub fn escape_json(s: &str) -> (r: String)
    ensures
        r@ == json_escape(s@),
{
    let n = s.unicode_len();
    let mut out = String::new();
    let mut i: usize = 0;
    proof {
        assert(s@.skip(0) =~= s@);
    }
    while i < n
        invariant
            i <= n,
            n == s@.len(),
            out@ + json_escape(s@.skip(i as int)) == json_escape(s@),
        decreases n - i,
    {
        proof {
            assert(s@.skip(i as int)[0] == s@[i as int]);
            assert(s@.skip(i as int).skip(1) =~= s@.skip(i as int + 1));
        }
        let ghost pre = out@;
        let c = s.get_char(i);
        if c == '"' {
            out.append("\\\"");
        } else if c == '\\' {
            out.append("\\\\");
        } else if c == '\n' {
            out.append("\\n");
        } else if c == '\r' {
            out.append("\\r");
        } else if c == '\t' {
            out.append("\\t");
        } else if c == '\u{0008}' {
            out.append("\\b");
        } else if c == '\u{000c}' {
            out.append("\\f");
        } else if (c as u32) < 32 {
            out.append("\\u00");
            out.append(hex_str(c as u32 / 16));
            out.append(hex_str(c as u32 % 16));
        } else {
            let piece = s.substring_char(i, i + 1);
            proof {
                assert(piece@ =~= seq![s@[i as int]]);
            }
            out.append(piece);
        }
        proof {
            assert(out@ =~= pre + esc_char(s@[i as int]));
            assert(pre + esc_char(s@[i as int]) + json_escape(s@.skip(i as int + 1)) =~= pre
                + (esc_char(s@[i as int]) + json_escape(s@.skip(i as int + 1))));
        }
        i += 1;
    }
    proof {
        assert(json_escape(s@.skip(n as int)) =~= Seq::<char>::empty());
        assert(out@ =~= json_escape(s@));
    }
    out
}

fn append_json_string(out: &mut String, s: &str)
    ensures
        final(out)@ == old(out)@ + json_string(s@),
{
    let ghost pre = out@;
    out.append("\"");
    let body = escape_json(s);
    out.append(body.as_str());
    out.append("\"");
    proof {
        assert(out@ =~= pre + json_string(s@));
    }
}

/// Serialize a URL set as a pretty-printed JSON array of strings.
pub fn urls_to_json_pretty(items: &URLs) -> (r: String)
    ensures
        r@ == json_array_pretty(items.seq_view()),
{
    let n = items.len();
    if n == 0 {
        return String::from_str("[]");
    }
    let mut out = String::from_str("[\n");
    let mut i: usize = 0;
    proof {
        assert(items.seq_view().skip(0) =~= items.seq_view());
    }
    while i < n
        invariant
            i <= n,
            n == items.seq_view().len(),
            out@ + array_items(items.seq_view().skip(i as int)) + "\n]"@ == json_array_pretty(
                items.seq_view(),
            ),
            n > 0,
        decreases n - i,
    {
        proof {
            assert(items.seq_view().skip(i as int)[0] == items.seq_view()[i as int]);
            assert(items.seq_view().skip(i as int).skip(1) =~= items.seq_view().skip(
                i as int + 1,
            ));
        }
        let ghost pre = out@;
        let ghost rest = items.seq_view().skip(i as int);
        out.append("  ");
        append_json_string(&mut out, items.get(i).as_str());
        if i + 1 < n {
            out.append(",\n");
            proof {
                assert(out@ =~= pre + ("  "@ + json_string(rest[0]) + ",\n"@));
                assert(pre + ("  "@ + json_string(rest[0]) + ",\n"@) + array_items(rest.skip(1))
                    =~= pre + array_items(rest));
            }
        } else {
            proof {
                assert(rest.len() == 1);
                assert(out@ =~= pre + ("  "@ + json_string(rest[0])));
                assert(array_items(rest.skip(1)) =~= Seq::<char>::empty());
                assert(pre + ("  "@ + json_string(rest[0])) + array_items(rest.skip(1)) =~= pre
                    + array_items(rest));
            }
        }
        i += 1;
    }
    out.append("\n]");
    proof {
        assert(array_items(items.seq_view().skip(n as int)) =~= Seq::<char>::empty());
        assert(out@ =~= json_array_pretty(items.seq_view()));
    }
    out
}

/// Serialize `{url, status}` pairs as a pretty-printed JSON array of
/// objects.
pub fn pairs_to_json_pretty(pairs: &Vec<(String, String)>) -> (r: String)
    ensures
        r@ == json_records_pretty(pairs_view(pairs@)),
{
    let ghost rs = pairs_view(pairs@);
    let n = pairs.len();
    if n == 0 {
        return String::from_str("[]");
    }
    let mut out = String::from_str("[\n");
    let mut i: usize = 0;
    proof {
        assert(rs.skip(0) =~= rs);
    }
    while i < n
        invariant
            i <= n,
            n == rs.len(),
            rs == pairs_view(pairs@),
            out@ + record_items(rs.skip(i as int)) + "\n]"@ == json_records_pretty(rs),
            n > 0,
        decreases n - i,
    {
        proof {
            assert(rs.skip(i as int)[0] == rs[i as int]);
            assert(rs.skip(i as int).skip(1) =~= rs.skip(i as int + 1));
        }
        let ghost pre = out@;
        let ghost rest = rs.skip(i as int);
        out.append("  {\n    \"url\": ");
        append_json_string(&mut out, pairs[i].0.as_str());
        out.append(",\n    \"status\": ");
        append_json_string(&mut out, pairs[i].1.as_str());
        out.append("\n  }");
        proof {
            assert(out@ =~= pre + record_entry(rest[0].0, rest[0].1));
        }
        if i + 1 < n {
            out.append(",\n");
            proof {
                assert(out@ + record_items(rest.skip(1)) =~= pre + record_items(rest));
            }
        } else {
            proof {
                assert(rest.len() == 1);
                assert(record_items(rest.skip(1)) =~= Seq::<char>::empty());
                assert(out@ + record_items(rest.skip(1)) =~= pre + record_items(rest));
            }
        }
        i += 1;
    }
    out.append("\n]");
    proof {
        assert(record_items(rs.skip(n as int)) =~= Seq::<char>::empty());
        assert(out@ =~= json_records_pretty(rs));
    }
    out
}

} // verus!
