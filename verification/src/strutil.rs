//! Small verified string helpers shared by the canonicalizer and the
//! reporting code: trailing-slash stripping, prefix tests, and decimal
//! rendering of counters.

use vstd::prelude::*;

verus! {

/// `s` with every trailing `'/'` character removed.
pub open spec fn strip_slashes_spec(s: Seq<char>) -> Seq<char>
    decreases s.len(),
{
    if s.len() > 0 && s.last() == '/' {
        strip_slashes_spec(s.drop_last())
    } else {
        s
    }
}

/// If everything from position `k` on is a slash and the character just
/// before `k` (if any) is not, then stripping trailing slashes keeps
/// exactly the first `k` characters.
proof fn lemma_strip_at(s: Seq<char>, k: int)
    requires
        0 <= k <= s.len(),
        forall|i: int| k <= i < s.len() ==> s[i] == '/',
        k == 0 || s[k - 1] != '/',
    ensures
        strip_slashes_spec(s) == s.subrange(0, k),
    decreases s.len(),
{
    if k == s.len() {
        if s.len() == 0 {
            assert(strip_slashes_spec(s) == s);
            assert(s.subrange(0, 0) =~= s);
        } else {
            assert(s.last() == s[k - 1]);
            assert(s.subrange(0, k) =~= s);
        }
    } else {
        assert(s.last() == '/');
        lemma_strip_at(s.drop_last(), k);
        assert(s.drop_last().subrange(0, k) =~= s.subrange(0, k));
    }
}

/// Stripping is idempotent: a string with no trailing slash is left alone.
pub proof fn lemma_strip_idempotent(s: Seq<char>)
    ensures
        strip_slashes_spec(strip_slashes_spec(s)) == strip_slashes_spec(s),
    decreases s.len(),
{
    if s.len() > 0 && s.last() == '/' {
        lemma_strip_idempotent(s.drop_last());
    }
}

/// The stripped string is a prefix of the original, and everything the
/// strip removed was a slash.
pub proof fn lemma_strip_prefix(s: Seq<char>)
    ensures
        strip_slashes_spec(s).len() <= s.len(),
        strip_slashes_spec(s) == s.subrange(0, strip_slashes_spec(s).len() as int),
        forall|i: int| 0 <= i < strip_slashes_spec(s).len() ==> strip_slashes_spec(s)[i] == s[i],
        forall|i: int| strip_slashes_spec(s).len() <= i < s.len() ==> s[i] == '/',
    decreases s.len(),
{
    if s.len() > 0 && s.last() == '/' {
        lemma_strip_prefix(s.drop_last());
        assert(s.drop_last().subrange(0, strip_slashes_spec(s).len() as int) =~= s.subrange(
            0,
            strip_slashes_spec(s).len() as int,
        ));
        assert forall|i: int| strip_slashes_spec(s).len() <= i < s.len() implies s[i] == '/' by {
            if i < s.len() - 1 {
                assert(s.drop_last()[i] == '/');
            }
        }
    } else {
        assert(s.subrange(0, s.len() as int) =~= s);
    }
}

/// Remove every `'/'` at the end of `url`.
pub fn strip_trailing_slashes(url: &String) -> (r: String)
    ensures
        r@ == strip_slashes_spec(url@),
{
    let n = url.as_str().unicode_len();
    let mut k: usize = n;
    while k > 0 && url.as_str().get_char(k - 1) == '/'
        invariant
            k <= n,
            n == url@.len(),
            forall|i: int| k <= i < url@.len() ==> url@[i] == '/',
        decreases k,
    {
        k = k - 1;
    }
    proof {
        lemma_strip_at(url@, k as int);
    }
    let stripped = url.as_str().substring_char(0, k);
    stripped.to_owned()
}

// ------------------------------------------------------------------
// Decimal rendering
// ------------------------------------------------------------------
/// The character for one decimal digit.
pub open spec fn digit_char(d: nat) -> char {
    if d == 0 {
        '0'
    } else if d == 1 {
        '1'
    } else if d == 2 {
        '2'
    } else if d == 3 {
        '3'
    } else if d == 4 {
        '4'
    } else if d == 5 {
        '5'
    } else if d == 6 {
        '6'
    } else if d == 7 {
        '7'
    } else if d == 8 {
        '8'
    } else {
        '9'
    }
}

/// The decimal digits of `n`, most significant first.
pub open spec fn dec_digits(n: nat) -> Seq<char>
    decreases n,
{
    if n < 10 {
        seq![digit_char(n)]
    } else {
        dec_digits(n / 10).push(digit_char(n % 10))
    }
}

fn digit_str(d: usize) -> (r: &'static str)
    requires
        d < 10,
    ensures
        r@ == seq![digit_char(d as nat)],
{
    proof {
        reveal_strlit("0");
        reveal_strlit("1");
        reveal_strlit("2");
        reveal_strlit("3");
        reveal_strlit("4");
        reveal_strlit("5");
        reveal_strlit("6");
        reveal_strlit("7");
        reveal_strlit("8");
        reveal_strlit("9");
    }
    let r = if d == 0 {
        "0"
    } else if d == 1 {
        "1"
    } else if d == 2 {
        "2"
    } else if d == 3 {
        "3"
    } else if d == 4 {
        "4"
    } else if d == 5 {
        "5"
    } else if d == 6 {
        "6"
    } else if d == 7 {
        "7"
    } else if d == 8 {
        "8"
    } else {
        "9"
    };
    proof {
        assert(r@ =~= seq![digit_char(d as nat)]);
    }
    r
}

/// Render `n` in decimal.
pub fn usize_to_string(n: usize) -> (r: String)
    ensures
        r@ == dec_digits(n as nat),
    decreases n,
{
    if n < 10 {
        let r = digit_str(n).to_owned();
        proof {
            assert(r@ =~= dec_digits(n as nat));
        }
        r
    } else {
        let mut s = usize_to_string(n / 10);
        s.append(digit_str(n % 10));
        proof {
            assert(s@ =~= dec_digits(n as nat));
        }
        s
    }
}

// ------------------------------------------------------------------
// Splitting
// ------------------------------------------------------------------
/// Split on a one-character separator, the current token being `cur`.
pub open spec fn split_acc1(s: Seq<char>, sep: char, cur: Seq<char>) -> Seq<Seq<char>>
    decreases s.len(),
{
    if s.len() == 0 {
        seq![cur]
    } else if s[0] == sep {
        seq![cur] + split_acc1(s.skip(1), sep, Seq::empty())
    } else {
        split_acc1(s.skip(1), sep, cur.push(s[0]))
    }
}

/// The pieces of `s` between occurrences of `sep`.
pub open spec fn split_char_spec(s: Seq<char>, sep: char) -> Seq<Seq<char>> {
    split_acc1(s, sep, Seq::empty())
}

/// Split on a two-character separator, the current token being `cur`.
pub open spec fn split_acc2(s: Seq<char>, c1: char, c2: char, cur: Seq<char>) -> Seq<Seq<char>>
    decreases s.len(),
{
    if s.len() >= 2 && s[0] == c1 && s[1] == c2 {
        seq![cur] + split_acc2(s.skip(2), c1, c2, Seq::empty())
    } else if s.len() == 0 {
        seq![cur]
    } else {
        split_acc2(s.skip(1), c1, c2, cur.push(s[0]))
    }
}

/// The pieces of `s` between occurrences of the two-character separator.
pub open spec fn split_two_spec(s: Seq<char>, c1: char, c2: char) -> Seq<Seq<char>> {
    split_acc2(s, c1, c2, Seq::empty())
}

/// Split `s` at every occurrence of the character `sep`.
pub fn split_on_char(s: &str, sep: char) -> (r: Vec<String>)
    ensures
        r.deep_view() == split_char_spec(s@, sep),
{
    let n = s.unicode_len();
    let mut out: Vec<String> = Vec::new();
    let mut start: usize = 0;
    let mut i: usize = 0;
    proof {
        assert(s@.skip(0) =~= s@);
        assert(s@.subrange(0, 0) =~= Seq::<char>::empty());
    }
    while i < n
        invariant
            start <= i <= n,
            n == s@.len(),
            out.deep_view() + split_acc1(s@.skip(i as int), sep, s@.subrange(
                start as int,
                i as int,
            )) == split_char_spec(s@, sep),
        decreases n - i,
    {
        let ghost cur = s@.subrange(start as int, i as int);
        proof {
            assert(s@.skip(i as int)[0] == s@[i as int]);
        }
        let c = s.get_char(i);
        if c == sep {
            let token = s.substring_char(start, i).to_owned();
            proof {
                assert(s@.skip(i as int).skip(1) =~= s@.skip(i as int + 1));
                assert(out.deep_view().push(token@) + split_acc1(s@.skip(i as int + 1), sep,
                Seq::empty()) =~= out.deep_view() + (seq![cur] + split_acc1(s@.skip(
                    i as int + 1,
                ), sep, Seq::empty())));
            }
            out.push(token);
            proof {
                assert(s@.subrange(i as int + 1, i as int + 1) =~= Seq::<char>::empty());
            }
            start = i + 1;
        } else {
            proof {
                assert(s@.skip(i as int).skip(1) =~= s@.skip(i as int + 1));
                assert(cur.push(s@[i as int]) =~= s@.subrange(start as int, i as int + 1));
            }
        }
        i += 1;
    }
    proof {
        assert(s@.skip(n as int).len() == 0);
    }
    let token = s.substring_char(start, n).to_owned();
    proof {
        assert(out.deep_view().push(token@) =~= out.deep_view() + seq![
            s@.subrange(start as int, n as int),
        ]);
    }
    out.push(token);
    out
}

/// Split `s` at every occurrence of the two-character separator
/// `c1` `c2`.
pub fn split_on_two(s: &str, c1: char, c2: char) -> (r: Vec<String>)
    ensures
        r.deep_view() == split_two_spec(s@, c1, c2),
{
    let n = s.unicode_len();
    let mut out: Vec<String> = Vec::new();
    let mut start: usize = 0;
    let mut i: usize = 0;
    proof {
        assert(s@.skip(0) =~= s@);
        assert(s@.subrange(0, 0) =~= Seq::<char>::empty());
    }
    while i < n
        invariant
            start <= i <= n,
            n == s@.len(),
            out.deep_view() + split_acc2(s@.skip(i as int), c1, c2, s@.subrange(
                start as int,
                i as int,
            )) == split_two_spec(s@, c1, c2),
        decreases n - i,
    {
        let ghost cur = s@.subrange(start as int, i as int);
        proof {
            assert(s@.skip(i as int)[0] == s@[i as int]);
            if i + 1 < n {
                assert(s@.skip(i as int)[1] == s@[i as int + 1]);
            }
        }
        if i + 1 < n && s.get_char(i) == c1 && s.get_char(i + 1) == c2 {
            let token = s.substring_char(start, i).to_owned();
            proof {
                assert(s@.skip(i as int).skip(2) =~= s@.skip(i as int + 2));
                assert(out.deep_view().push(token@) + split_acc2(s@.skip(i as int + 2), c1, c2,
                Seq::empty()) =~= out.deep_view() + (seq![cur] + split_acc2(s@.skip(
                    i as int + 2,
                ), c1, c2, Seq::empty())));
            }
            out.push(token);
            proof {
                assert(s@.subrange(i as int + 2, i as int + 2) =~= Seq::<char>::empty());
            }
            start = i + 2;
            i += 2;
        } else {
            proof {
                assert(s@.skip(i as int).skip(1) =~= s@.skip(i as int + 1));
                assert(cur.push(s@[i as int]) =~= s@.subrange(start as int, i as int + 1));
            }
            i += 1;
        }
    }
    proof {
        assert(s@.skip(n as int).len() == 0);
    }
    let token = s.substring_char(start, n).to_owned();
    proof {
        assert(out.deep_view().push(token@) =~= out.deep_view() + seq![
            s@.subrange(start as int, n as int),
        ]);
    }
    out.push(token);
    out
}

} // verus!
