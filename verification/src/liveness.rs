//! The liveness checking plan and report: which discovered URLs get a
//! probe, which are skipped, and how the probe results are merged back
//! into one outcome per URL.
//!
//! The probes themselves are HTTP head requests issued by the caller;
//! this module only decides and merges, so a probe failure always
//! becomes a failure record and never a fault of the whole batch.

use vstd::prelude::*;

use crate::walker::URLs;

verus! {

/// The outcome recorded for one URL: the status code a probe returned,
/// the reason it failed, or that the URL was skipped as non-HTTP.
#[derive(Debug)]
pub enum LinkOutcome {
    Status(u16),
    Failed(String),
    Skipped,
}

/// One URL with its outcome.
pub struct UrlReport {
    pub url: String,
    pub outcome: LinkOutcome,
}

/// Whether `u` is an HTTP or HTTPS URL — the only URLs worth probing.
pub open spec fn is_http_url(u: Seq<char>) -> bool {
    (u.len() >= 7 && u.subrange(0, 7) == "http://"@) || (u.len() >= 8 && u.subrange(0, 8)
        == "https://"@)
}

/// The URLs of `us` that get a probe.
pub open spec fn http_urls(us: Seq<Seq<char>>) -> Seq<Seq<char>>
    decreases us.len(),
{
    if us.len() == 0 {
        Seq::empty()
    } else if is_http_url(us[0]) {
        seq![us[0]] + http_urls(us.skip(1))
    } else {
        http_urls(us.skip(1))
    }
}

/// The URLs of `us` that are skipped.
pub open spec fn non_http_urls(us: Seq<Seq<char>>) -> Seq<Seq<char>>
    decreases us.len(),
{
    if us.len() == 0 {
        Seq::empty()
    } else if is_http_url(us[0]) {
        non_http_urls(us.skip(1))
    } else {
        seq![us[0]] + non_http_urls(us.skip(1))
    }
}

/// Whether the URL starts with `http://` or `https://`.
pub fn is_probe_url(u: &String) -> (r: bool)
    ensures
        r == is_http_url(u@),
{
    let s = u.as_str();
    let n = s.unicode_len();
    proof {
        reveal_strlit("http://");
        reveal_strlit("https://");
    }
    if n >= 7 && s.get_char(0) == 'h' && s.get_char(1) == 't' && s.get_char(2) == 't'
        && s.get_char(3) == 'p' {
        if s.get_char(4) == ':' && s.get_char(5) == '/' && s.get_char(6) == '/' {
            proof {
                assert(u@.subrange(0, 7) =~= "http://"@);
            }
            return true;
        }
        if n >= 8 && s.get_char(4) == 's' && s.get_char(5) == ':' && s.get_char(6) == '/'
            && s.get_char(7) == '/' {
            proof {
                assert(u@.subrange(0, 8) =~= "https://"@);
            }
            return true;
        }
        proof {
            reveal_strlit("http://");
            reveal_strlit("https://");
            if u@.len() >= 7 && u@.subrange(0, 7) == "http://"@ {
                assert(u@[4] == "http://"@[4]);
                assert(u@[5] == "http://"@[5]);
                assert(u@[6] == "http://"@[6]);
                assert(false);
            }
            if u@.len() >= 8 && u@.subrange(0, 8) == "https://"@ {
                assert(u@[4] == "https://"@[4]);
                assert(u@[5] == "https://"@[5]);
                assert(u@[6] == "https://"@[6]);
                assert(u@[7] == "https://"@[7]);
                assert(false);
            }
        }
        return false;
    }
    proof {
        reveal_strlit("http://");
        reveal_strlit("https://");
        if u@.len() >= 7 && u@.subrange(0, 7) == "http://"@ {
            assert(u@[0] == "http://"@[0]);
            assert(u@[1] == "http://"@[1]);
            assert(u@[2] == "http://"@[2]);
            assert(u@[3] == "http://"@[3]);
            assert(false);
        }
        if u@.len() >= 8 && u@.subrange(0, 8) == "https://"@ {
            assert(u@[0] == "https://"@[0]);
            assert(u@[1] == "https://"@[1]);
            assert(u@[2] == "https://"@[2]);
            assert(u@[3] == "https://"@[3]);
            assert(false);
        }
    }
    false
}

/// Which of the discovered URLs to probe and which to skip.
pub struct ProbePlan {
    pub to_probe: Vec<String>,
    pub skipped: Vec<String>,
}

/// Partition the discovered URLs: HTTP and HTTPS URLs are probed, all
/// others (`mailto:`, `file:` and the like) are skipped, never probed.
pub fn plan_probes(urls: &URLs) -> (r: ProbePlan)
    ensures
        r.to_probe.deep_view() == http_urls(urls.seq_view()),
        r.skipped.deep_view() == non_http_urls(urls.seq_view()),
{
    let mut to_probe: Vec<String> = Vec::new();
    let mut skipped: Vec<String> = Vec::new();
    let n = urls.len();
    let mut i: usize = 0;
    proof {
        assert(urls.seq_view().skip(0) =~= urls.seq_view());
    }
    while i < n
        invariant
            i <= n,
            n == urls.seq_view().len(),
            to_probe.deep_view() + http_urls(urls.seq_view().skip(i as int)) == http_urls(
                urls.seq_view(),
            ),
            skipped.deep_view() + non_http_urls(urls.seq_view().skip(i as int))
                == non_http_urls(urls.seq_view()),
        decreases n - i,
    {
        proof {
            assert(urls.seq_view().skip(i as int)[0] == urls.seq_view()[i as int]);
            assert(urls.seq_view().skip(i as int).skip(1) =~= urls.seq_view().skip(
                i as int + 1,
            ));
        }
        let ghost rest = urls.seq_view().skip(i as int);
        let u = urls.get(i);
        if is_probe_url(u) {
            let ghost pre = to_probe.deep_view();
            to_probe.push(u.clone());
            proof {
                assert(to_probe.deep_view() =~= pre.push(rest[0]));
                assert(pre.push(rest[0]) + http_urls(rest.skip(1)) =~= pre + (seq![rest[0]]
                    + http_urls(rest.skip(1))));
            }
        } else {
            let ghost pre = skipped.deep_view();
            skipped.push(u.clone());
            proof {
                assert(skipped.deep_view() =~= pre.push(rest[0]));
                assert(pre.push(rest[0]) + non_http_urls(rest.skip(1)) =~= pre + (seq![rest[0]]
                    + non_http_urls(rest.skip(1))));
            }
        }
        i += 1;
    }
    proof {
        assert(http_urls(urls.seq_view().skip(n as int)) =~= Seq::<Seq<char>>::empty());
        assert(non_http_urls(urls.seq_view().skip(n as int)) =~= Seq::<Seq<char>>::empty());
        assert(to_probe.deep_view() =~= http_urls(urls.seq_view()));
        assert(skipped.deep_view() =~= non_http_urls(urls.seq_view()));
    }
    ProbePlan { to_probe, skipped }
}

/// Merge the probe results with the skipped URLs into one report entry
/// per URL: a returned status code becomes a success outcome, a probe
/// error becomes a failure record naming the URL — never a fault of the
/// batch — and each skipped URL is reported as skipped, not probed.
pub fn merge_outcomes(probed: &Vec<(String, Result<u16, String>)>, skipped: &Vec<String>) -> (r:
    Vec<UrlReport>)
    ensures
        r@.len() == probed@.len() + skipped@.len(),
        forall|i: int|
            0 <= i < probed@.len() ==> #[trigger] r@[i].url@ == probed@[i].0@ && (
            match probed@[i].1 {
                Ok(code) => r@[i].outcome == LinkOutcome::Status(code),
                Err(e) => r@[i].outcome matches LinkOutcome::Failed(m) && m@ == e@,
            }),
        forall|m: int|
            probed@.len() <= m < r@.len() ==> (#[trigger] r@[m]).url@ == skipped@[m
                - probed@.len()]@ && r@[m].outcome is Skipped,
{
    let mut out: Vec<UrlReport> = Vec::new();
    let mut i: usize = 0;
    while i < probed.len()
        invariant
            i <= probed.len(),
            out@.len() == i,
            forall|k: int|
                0 <= k < i ==> #[trigger] out@[k].url@ == probed@[k].0@ && (match probed@[k].1 {
                    Ok(code) => out@[k].outcome == LinkOutcome::Status(code),
                    Err(e) => out@[k].outcome matches LinkOutcome::Failed(m) && m@ == e@,
                }),
        decreases probed.len() - i,
    {
        let url = probed[i].0.clone();
        let outcome = match &probed[i].1 {
            Ok(code) => LinkOutcome::Status(*code),
            Err(e) => LinkOutcome::Failed(e.clone()),
        };
        proof {
            assert(url@ == probed@[i as int].0@);
            assert(match probed@[i as int].1 {
                Ok(code) => outcome == LinkOutcome::Status(code),
                Err(e) => outcome matches LinkOutcome::Failed(m) && m@ == e@,
            });
        }
        let ghost pre = out@;
        out.push(UrlReport { url, outcome });
        proof {
            assert forall|k: int|
                0 <= k < i + 1 implies #[trigger] out@[k].url@ == probed@[k].0@ && (
            match probed@[k].1 {
                Ok(code) => out@[k].outcome == LinkOutcome::Status(code),
                Err(e) => out@[k].outcome matches LinkOutcome::Failed(m) && m@ == e@,
            }) by {
                if k < i {
                    assert(out@[k] == pre[k]);
                    assert(pre[k].url@ == probed@[k].0@ && (match probed@[k].1 {
                        Ok(code) => pre[k].outcome == LinkOutcome::Status(code),
                        Err(e) => pre[k].outcome matches LinkOutcome::Failed(m) && m@ == e@,
                    }));
                } else {
                    assert(out@[k].url@ == url@);
                }
            }
        }
        i += 1;
    }
    let mut j: usize = 0;
    while j < skipped.len()
        invariant
            j <= skipped.len(),
            out@.len() == probed@.len() + j,
            forall|k: int|
                0 <= k < probed@.len() ==> #[trigger] out@[k].url@ == probed@[k].0@ && (
                match probed@[k].1 {
                    Ok(code) => out@[k].outcome == LinkOutcome::Status(code),
                    Err(e) => out@[k].outcome matches LinkOutcome::Failed(m) && m@ == e@,
                }),
            forall|m: int|
                probed@.len() <= m < out@.len() ==> (#[trigger] out@[m]).url@ == skipped@[m
                    - probed@.len()]@ && out@[m].outcome is Skipped,
        decreases skipped.len() - j,
    {
        let ghost pre = out@;
        let surl = skipped[j].clone();
        out.push(UrlReport { url: surl, outcome: LinkOutcome::Skipped });
        proof {
            assert(out@.len() == probed@.len() + j + 1);
            assert(out@[probed@.len() + j].url@ == skipped@[j as int]@);
            assert(out@[probed@.len() + j].outcome is Skipped);
            assert forall|k: int|
                0 <= k < probed@.len() implies #[trigger] out@[k].url@ == probed@[k].0@ && (
            match probed@[k].1 {
                Ok(code) => out@[k].outcome == LinkOutcome::Status(code),
                Err(e) => out@[k].outcome matches LinkOutcome::Failed(m) && m@ == e@,
            }) by {
                assert(out@[k] == pre[k]);
                assert(pre[k].url@ == probed@[k].0@ && (match probed@[k].1 {
                    Ok(code) => pre[k].outcome == LinkOutcome::Status(code),
                    Err(e) => pre[k].outcome matches LinkOutcome::Failed(m) && m@ == e@,
                }));
            }
            assert forall|m: int|
                probed@.len() <= m < out@.len() implies (#[trigger] out@[m]).url@ == skipped@[m
                    - probed@.len()]@ && out@[m].outcome is Skipped by {
                if m < out@.len() - 1 {
                    assert(out@[m] == pre[m]);
                    assert(pre[m].url@ == skipped@[m - probed@.len()]@ && pre[m].outcome
                        is Skipped);
                } else {
                    assert(m == probed@.len() + j);
                    assert(out@[m].url@ == skipped@[j as int]@);
                }
            }
        }
        j += 1;
    }
    out
}

} // verus!
