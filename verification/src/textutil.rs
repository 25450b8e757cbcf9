//! Small verified text helpers: character-exact equality, trimming,
//! newline stripping, decimal rendering, and escaping for table cells.
use vstd::prelude::*;

verus! {

broadcast use vstd::seq::group_seq_axioms;

/// Whether two texts hold the same characters.
pub fn str_eq(a: &str, b: &str) -> (r: bool)
    ensures
        r == (a@ == b@),
{
    let na = a.unicode_len();
    let nb = b.unicode_len();
    if na != nb {
        proof {
            if a@ == b@ {
                assert(a@.len() == b@.len());
            }
        }
        return false;
    }
    let mut i: usize = 0;
    while i < na
        invariant
            0 <= i <= na,
            na == a@.len(),
            na == b@.len(),
            forall|k: int| 0 <= k < i ==> a@[k] == b@[k],
        decreases na - i,
    {
        if a.get_char(i) != b.get_char(i) {
            return false;
        }
        i += 1;
    }
    proof {
        assert(a@ =~= b@);
    }
    true
}

/// The length of the run of `c` at the front of `s`.
pub open spec fn lead_run(s: Seq<char>, c: char) -> int
    decreases s.len(),
{
    if s.len() == 0 || s[0] != c {
        0
    } else {
        1 + lead_run(s.drop_first(), c)
    }
}

/// The length of the run of `c` at the back of `s`.
pub open spec fn trail_run(s: Seq<char>, c: char) -> int
    decreases s.len(),
{
    if s.len() == 0 || s[s.len() - 1] != c {
        0
    } else {
        1 + trail_run(s.drop_last(), c)
    }
}

/// `s` with every leading and trailing `c` removed.
pub open spec fn spec_trim(s: Seq<char>, c: char) -> Seq<char> {
    if lead_run(s, c) + trail_run(s, c) >= s.len() {
        Seq::empty()
    } else {
        s.subrange(lead_run(s, c), s.len() - trail_run(s, c))
    }
}

proof fn lemma_lead_run(s: Seq<char>, c: char)
    ensures
        0 <= lead_run(s, c) <= s.len(),
        forall|k: int| 0 <= k < lead_run(s, c) ==> s[k] == c,
        lead_run(s, c) < s.len() ==> s[lead_run(s, c)] != c,
    decreases s.len(),
{
    if s.len() == 0 || s[0] != c {
    } else {
        lemma_lead_run(s.drop_first(), c);
        assert forall|k: int| 0 <= k < lead_run(s, c) implies s[k] == c by {
            if k > 0 {
                assert(s.drop_first()[k - 1] == c);
            }
        }
    }
}

proof fn lemma_trail_run(s: Seq<char>, c: char)
    ensures
        0 <= trail_run(s, c) <= s.len(),
        forall|k: int| s.len() - trail_run(s, c) <= k < s.len() ==> s[k] == c,
        trail_run(s, c) < s.len() ==> s[s.len() - trail_run(s, c) - 1] != c,
    decreases s.len(),
{
    if s.len() == 0 || s[s.len() - 1] != c {
    } else {
        lemma_trail_run(s.drop_last(), c);
        assert forall|k: int| s.len() - trail_run(s, c) <= k < s.len() implies s[k] == c by {
            if k < s.len() - 1 {
                assert(s.drop_last()[k] == c);
            }
        }
    }
}

/// Remove every leading and trailing occurrence of `c` from `s`.
pub fn trim_matches(s: &str, c: char) -> (r: String)
    ensures
        r@ == spec_trim(s@, c),
{
    proof {
        lemma_lead_run(s@, c);
        lemma_trail_run(s@, c);
    }
    let n = s.unicode_len();
    let mut lo: usize = 0;
    while lo < n && s.get_char(lo) == c
        invariant
            0 <= lo <= n,
            n == s@.len(),
            forall|k: int| 0 <= k < lo ==> s@[k] == c,
            lo <= lead_run(s@, c),
        decreases n - lo,
    {
        proof {
            lemma_lead_run(s@, c);
            if lo + 1 > lead_run(s@, c) {
                assert(s@[lead_run(s@, c)] == c);
            }
        }
        lo += 1;
    }
    proof {
        lemma_lead_run(s@, c);
        if lo < lead_run(s@, c) {
            assert(s@[lo as int] == c);
        }
        assert(lo == lead_run(s@, c));
    }
    let mut hi: usize = n;
    while hi > lo && s.get_char(hi - 1) == c
        invariant
            lo <= hi <= n,
            n == s@.len(),
            lo == lead_run(s@, c),
            forall|k: int| hi <= k < n ==> s@[k] == c,
            n - hi <= trail_run(s@, c) || hi <= lo,
        decreases hi,
    {
        proof {
            lemma_trail_run(s@, c);
            if n - (hi - 1) > trail_run(s@, c) && hi - 1 > lo {
                assert(s@[n - trail_run(s@, c) - 1] == c);
            }
        }
        hi -= 1;
    }
    proof {
        lemma_trail_run(s@, c);
        lemma_lead_run(s@, c);
        if hi > lo {
            if n - hi < trail_run(s@, c) {
                assert(s@[n - trail_run(s@, c)] == c);
                assert(hi <= n - trail_run(s@, c));
                assert(s@[hi - 1] == c);
            }
            assert(n - hi == trail_run(s@, c));
            assert(spec_trim(s@, c) == s@.subrange(lo as int, hi as int));
        } else {
            assert(lead_run(s@, c) + trail_run(s@, c) >= n);
        }
    }
    let r = String::from_str(s.substring_char(lo, hi));
    r
}

/// `s` without its line-feed characters.
pub open spec fn strip_newlines(s: Seq<char>) -> Seq<char>
    decreases s.len(),
{
    if s.len() == 0 {
        Seq::empty()
    } else if s[0] == '\n' {
        strip_newlines(s.drop_first())
    } else {
        seq![s[0]] + strip_newlines(s.drop_first())
    }
}

proof fn lemma_strip_newlines_concat(a: Seq<char>, b: Seq<char>)
    ensures
        strip_newlines(a + b) == strip_newlines(a) + strip_newlines(b),
    decreases a.len(),
{
    if a.len() == 0 {
        assert(a + b =~= b);
        assert(strip_newlines(a) + strip_newlines(b) =~= strip_newlines(b));
    } else {
        assert((a + b).drop_first() =~= a.drop_first() + b);
        lemma_strip_newlines_concat(a.drop_first(), b);
        assert((a + b)[0] == a[0]);
        if a[0] == '\n' {
        } else {
            assert(seq![a[0]] + (strip_newlines(a.drop_first()) + strip_newlines(b)) =~= (
            seq![a[0]] + strip_newlines(a.drop_first())) + strip_newlines(b));
        }
    }
}

/// Remove every line feed from `s`.
pub fn remove_newlines(s: &str) -> (r: String)
    ensures
        r@ == strip_newlines(s@),
{
    let n = s.unicode_len();
    let mut r = String::new();
    let mut i: usize = 0;
    proof {
        assert(s@.subrange(0, 0) =~= Seq::<char>::empty());
    }
    while i < n
        invariant
            0 <= i <= n,
            n == s@.len(),
            r@ == strip_newlines(s@.subrange(0, i as int)),
        decreases n - i,
    {
        let c = s.get_char(i);
        proof {
            assert(s@.subrange(0, i as int + 1) =~= s@.subrange(0, i as int) + seq![s@[i as int]]);
            lemma_strip_newlines_concat(s@.subrange(0, i as int), seq![s@[i as int]]);
            assert(seq![s@[i as int]].drop_first() =~= Seq::<char>::empty());
            assert(strip_newlines(Seq::<char>::empty()) == Seq::<char>::empty());
            if s@[i as int] != '\n' {
                assert(strip_newlines(seq![s@[i as int]]) =~= seq![s@[i as int]]);
            } else {
                assert(strip_newlines(seq![s@[i as int]]) =~= Seq::<char>::empty());
            }
        }
        if c != '\n' {
            r.append(s.substring_char(i, i + 1));
            proof {
                assert(s@.subrange(i as int, i as int + 1) =~= seq![s@[i as int]]);
            }
        }
        proof {
            assert(r@ =~= strip_newlines(s@.subrange(0, i as int + 1)));
        }
        i += 1;
    }
    proof {
        assert(s@.subrange(0, n as int) =~= s@);
    }
    r
}

/// The character for one decimal digit.
pub open spec fn digit_char(d: int) -> char {
    if d == 0 {
        '0'
    } else if d == 1 {
        '1'
    } else if d == 2 {
        '2'
    } else if d == 3 {
        '3'
    } else if d == 4 {
        '4'
    } else if d == 5 {
        '5'
    } else if d == 6 {
        '6'
    } else if d == 7 {
        '7'
    } else if d == 8 {
        '8'
    } else {
        '9'
    }
}

/// The decimal rendering of a non-negative number.
pub open spec fn spec_dec(n: int) -> Seq<char>
    decreases n,
{
    if n < 10 {
        seq![digit_char(n)]
    } else {
        spec_dec(n / 10).push(digit_char(n % 10))
    }
}

fn digit_str(d: usize) -> (r: &'static str)
    requires
        d < 10,
    ensures
        r@ == seq![digit_char(d as int)],
{
    proof {
        reveal_strlit("0");
        reveal_strlit("1");
        reveal_strlit("2");
        reveal_strlit("3");
        reveal_strlit("4");
        reveal_strlit("5");
        reveal_strlit("6");
        reveal_strlit("7");
        reveal_strlit("8");
        reveal_strlit("9");
    }
    let r = if d == 0 {
        "0"
    } else if d == 1 {
        "1"
    } else if d == 2 {
        "2"
    } else if d == 3 {
        "3"
    } else if d == 4 {
        "4"
    } else if d == 5 {
        "5"
    } else if d == 6 {
        "6"
    } else if d == 7 {
        "7"
    } else if d == 8 {
        "8"
    } else {
        "9"
    };
    proof {
        assert(r@ =~= seq![digit_char(d as int)]);
    }
    r
}

/// Render a number in decimal.
pub fn dec_string(n: usize) -> (r: String)
    ensures
        r@ == spec_dec(n as int),
    decreases n,
{
    if n < 10 {
        String::from_str(digit_str(n))
    } else {
        let mut r = dec_string(n / 10);
        r.append(digit_str(n % 10));
        proof {
            assert(spec_dec(n as int) == spec_dec(n as int / 10).push(digit_char(n as int % 10)));
            assert(spec_dec(n as int / 10).push(digit_char(n as int % 10)) =~= spec_dec(
                n as int / 10,
            ) + seq![digit_char(n as int % 10)]);
        }
        r
    }
}

} // verus!
