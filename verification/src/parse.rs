//! Turning the line-oriented status report (`url: status` per line)
//! into the JSON status artifact.

use vstd::prelude::*;

use crate::json::json_records_pretty;
use crate::json::pairs_view;
use crate::json::pairs_to_json_pretty;
use crate::strutil::split_char_spec;
use crate::strutil::split_on_char;
use crate::strutil::split_on_two;
use crate::strutil::split_two_spec;

verus! {

/// One URL with the status text reported for it.
pub struct FinalStatus {
    pub url: String,
    pub status: String,
}

/// The view of a list of records.
pub open spec fn records_view(v: Seq<FinalStatus>) -> Seq<(Seq<char>, Seq<char>)> {
    v.map_values(|fs: FinalStatus| (fs.url@, fs.status@))
}

/// The non-empty fields of a report line, split at `": "`.
pub open spec fn nonempty_parts(ps: Seq<Seq<char>>) -> Seq<Seq<char>>
    decreases ps.len(),
{
    if ps.len() == 0 {
        Seq::empty()
    } else if ps[0].len() > 0 {
        seq![ps[0]] + nonempty_parts(ps.skip(1))
    } else {
        nonempty_parts(ps.skip(1))
    }
}

/// The record a report line denotes: its first two non-empty `": "`
/// separated fields, or nothing when it has fewer than two.
pub open spec fn line_record(line: Seq<char>) -> Option<(Seq<char>, Seq<char>)> {
    let ps = nonempty_parts(split_two_spec(line, ':', ' '));
    if ps.len() >= 2 {
        Some((ps[0], ps[1]))
    } else {
        None
    }
}

/// The records of a sequence of report lines.
pub open spec fn records_of_lines(lines: Seq<Seq<char>>) -> Seq<(Seq<char>, Seq<char>)>
    decreases lines.len(),
{
    if lines.len() == 0 {
        Seq::empty()
    } else {
        match line_record(lines[0]) {
            Some(r) => seq![r] + records_of_lines(lines.skip(1)),
            None => records_of_lines(lines.skip(1)),
        }
    }
}

/// The records of a whole report: one candidate per line.
pub open spec fn records_of(s: Seq<char>) -> Seq<(Seq<char>, Seq<char>)> {
    records_of_lines(split_char_spec(s, '\n'))
}

fn keep_nonempty(parts: &Vec<String>) -> (r: Vec<String>)
    ensures
        r.deep_view() == nonempty_parts(parts.deep_view()),
{
    let mut out: Vec<String> = Vec::new();
    let mut i: usize = 0;
    proof {
        assert(parts.deep_view().skip(0) =~= parts.deep_view());
    }
    while i < parts.len()
        invariant
            i <= parts.len(),
            out.deep_view() + nonempty_parts(parts.deep_view().skip(i as int))
                == nonempty_parts(parts.deep_view()),
        decreases parts.len() - i,
    {
        proof {
            assert(parts.deep_view().skip(i as int)[0] == parts.deep_view()[i as int]);
            assert(parts.deep_view().skip(i as int).skip(1) =~= parts.deep_view().skip(
                i as int + 1,
            ));
        }
        let ghost pre = out.deep_view();
        let ghost rest = parts.deep_view().skip(i as int);
        if !parts[i].as_str().is_empty() {
            out.push(parts[i].clone());
            proof {
                assert(out.deep_view() =~= pre.push(rest[0]));
                assert(pre.push(rest[0]) + nonempty_parts(rest.skip(1)) =~= pre + (seq![
                    rest[0],
                ] + nonempty_parts(rest.skip(1))));
            }
        }
        i += 1;
    }
    proof {
        assert(nonempty_parts(parts.deep_view().skip(parts@.len() as int)) =~= Seq::<
            Seq<char>,
        >::empty());
        assert(out.deep_view() =~= nonempty_parts(parts.deep_view()));
    }
    out
}

/// Parse the line-oriented status report into `{url, status}` records
/// and serialize them as pretty-printed JSON. A line with fewer than two
/// non-empty `": "` separated fields contributes no record.
pub fn parse(status: String) -> (r: String)
    ensures
        r@ == json_records_pretty(records_of(status@)),
{
    let lines = split_on_char(status.as_str(), '\n');
    let mut pairs: Vec<(String, String)> = Vec::new();
    let mut i: usize = 0;
    proof {
        assert(lines.deep_view().skip(0) =~= lines.deep_view());
    }
    while i < lines.len()
        invariant
            i <= lines.len(),
            lines.deep_view() == split_char_spec(status@, '\n'),
            pairs_view(pairs@) + records_of_lines(lines.deep_view().skip(i as int))
                == records_of(status@),
        decreases lines.len() - i,
    {
        proof {
            assert(lines.deep_view().skip(i as int)[0] == lines.deep_view()[i as int]);
            assert(lines.deep_view().skip(i as int).skip(1) =~= lines.deep_view().skip(
                i as int + 1,
            ));
        }
        let ghost pre = pairs_view(pairs@);
        let ghost rest = lines.deep_view().skip(i as int);
        let parts = split_on_two(lines[i].as_str(), ':', ' ');
        let kept = keep_nonempty(&parts);
        if kept.len() >= 2 {
            let record = (kept[0].clone(), kept[1].clone());
            pairs.push(record);
            proof {
                assert(kept.deep_view()[0] == kept@[0]@);
                assert(kept.deep_view()[1] == kept@[1]@);
                assert(line_record(rest[0]) == Some((kept@[0]@, kept@[1]@)));
                assert(pairs_view(pairs@) =~= pre.push((kept@[0]@, kept@[1]@)));
                assert(pre.push((kept@[0]@, kept@[1]@)) + records_of_lines(rest.skip(1)) =~= pre
                    + (seq![(kept@[0]@, kept@[1]@)] + records_of_lines(rest.skip(1))));
            }
        } else {
            proof {
                assert(line_record(rest[0]) is None);
            }
        }
        i += 1;
    }
    proof {
        assert(records_of_lines(lines.deep_view().skip(lines@.len() as int)) =~= Seq::<
            (Seq<char>, Seq<char>),
        >::empty());
        assert(pairs_view(pairs@) =~= records_of(status@));
    }
    pairs_to_json_pretty(&pairs)
}

/// Serialize already-built records as pretty-printed JSON.
pub fn records_to_json(v: &Vec<FinalStatus>) -> (r: String)
    ensures
        r@ == json_records_pretty(records_view(v@)),
{
    let mut pairs: Vec<(String, String)> = Vec::new();
    let mut i: usize = 0;
    while i < v.len()
        invariant
            i <= v.len(),
            pairs@.len() == i,
            pairs_view(pairs@) =~= records_view(v@).take(i as int),
        decreases v.len() - i,
    {
        let url_copy = v[i].url.clone();
        let status_copy = v[i].status.clone();
        let pair = (url_copy, status_copy);
        pairs.push(pair);
        proof {
            assert(pairs@.len() == i + 1);
            assert(pairs@[i as int].0@ == v@[i as int].url@);
            assert(pairs@[i as int].1@ == v@[i as int].status@);
            assert forall|k: int| 0 <= k < i + 1 implies pairs_view(pairs@)[k] == records_view(
                v@,
            ).take(i as int + 1)[k] by {
                if k < i {
                    assert(pairs@[k] == pairs@.drop_last()[k]);
                    assert(pairs_view(pairs@.drop_last())[k] == records_view(v@).take(
                        i as int,
                    )[k]);
                }
            }
            assert(pairs_view(pairs@) =~= records_view(v@).take(i as int + 1));
        }
        i += 1;
    }
    proof {
        assert(records_view(v@).take(v@.len() as int) =~= records_view(v@));
    }
    pairs_to_json_pretty(&pairs)
}

} // verus!
