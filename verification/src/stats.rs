//! Timing statistics of one run: how long discovery and verification of
//! the links took, rendered as markdown or plain text.

use vstd::prelude::*;

use crate::strutil::dec_digits;
use crate::strutil::usize_to_string;

verus! {

/// Elapsed times (as already-formatted strings) and the number of links
/// they refer to.
pub struct Stats {
    get_elapsed: String,
    loop_elapsed: String,
    link_count: usize,
}

/// The markdown report for the given times and link count.
pub open spec fn markdown_spec(g: Seq<char>, l: Seq<char>, n: nat) -> Seq<char> {
    "## Stats \nTime to get "@ + dec_digits(n) + " links: **"@ + g
        + "** seconds\n\nTime to verify "@ + dec_digits(n) + " links: **"@ + l + "** seconds"@
}

/// The plain-text report for the given times and link count.
pub open spec fn text_spec(g: Seq<char>, l: Seq<char>, n: nat) -> Seq<char> {
    "Stats:\nTime to get "@ + dec_digits(n) + " links: "@ + g + " seconds\nTime to verify "@
        + dec_digits(n) + " links: "@ + l + " seconds"@
}

impl Stats {
    /// The elapsed time of the crawl phase.
    pub closed spec fn get_elapsed_view(&self) -> Seq<char> {
        self.get_elapsed@
    }

    /// The elapsed time of the verification phase.
    pub closed spec fn loop_elapsed_view(&self) -> Seq<char> {
        self.loop_elapsed@
    }

    /// The number of links.
    pub closed spec fn link_count_view(&self) -> nat {
        self.link_count as nat
    }

    /// Bundle the two elapsed times and the link count.
    pub fn new(get_elapsed: String, loop_elapsed: String, link_count: usize) -> (r: Stats)
        ensures
            r.get_elapsed_view() == get_elapsed@,
            r.loop_elapsed_view() == loop_elapsed@,
            r.link_count_view() == link_count as nat,
    {
        Stats { get_elapsed, loop_elapsed, link_count }
    }

    /// The statistics as a markdown document.
    pub fn to_markdown(&self) -> (r: String)
        ensures
            r@ == markdown_spec(
                self.get_elapsed_view(),
                self.loop_elapsed_view(),
                self.link_count_view(),
            ),
    {
        let n = usize_to_string(self.link_count);
        let mut out = String::from_str("## Stats \nTime to get ");
        out.append(n.as_str());
        out.append(" links: **");
        out.append(self.get_elapsed.as_str());
        out.append("** seconds\n\nTime to verify ");
        out.append(n.as_str());
        out.append(" links: **");
        out.append(self.loop_elapsed.as_str());
        out.append("** seconds");
        proof {
            assert(out@ =~= markdown_spec(
                self.get_elapsed_view(),
                self.loop_elapsed_view(),
                self.link_count_view(),
            ));
        }
        out
    }

    /// The statistics as console text.
    pub fn to_text(&self) -> (r: String)
        ensures
            r@ == text_spec(
                self.get_elapsed_view(),
                self.loop_elapsed_view(),
                self.link_count_view(),
            ),
    {
        let n = usize_to_string(self.link_count);
        let mut out = String::from_str("Stats:\nTime to get ");
        out.append(n.as_str());
        out.append(" links: ");
        out.append(self.get_elapsed.as_str());
        out.append(" seconds\nTime to verify ");
        out.append(n.as_str());
        out.append(" links: ");
        out.append(self.loop_elapsed.as_str());
        out.append(" seconds");
        proof {
            assert(out@ =~= text_spec(
                self.get_elapsed_view(),
                self.loop_elapsed_view(),
                self.link_count_view(),
            ));
        }
        out
    }
}

} // verus!
