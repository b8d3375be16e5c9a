use vstd::prelude::*;

verus! {

/// The whitespace characters recognised when trimming and splitting
/// variable tokens (the Unicode white-space set).
pub open spec fn is_space(c: char) -> bool {
    c == ' ' || c == '\t' || c == '\n' || c == '\u{b}' || c == '\u{c}' || c == '\r' || c == '\u{85}'
        || c == '\u{a0}' || c == '\u{1680}' || c == '\u{2000}' || c == '\u{2001}' || c == '\u{2002}'
        || c == '\u{2003}' || c == '\u{2004}' || c == '\u{2005}' || c == '\u{2006}'
        || c == '\u{2007}' || c == '\u{2008}' || c == '\u{2009}' || c == '\u{200a}'
        || c == '\u{2028}' || c == '\u{2029}' || c == '\u{202f}' || c == '\u{205f}'
        || c == '\u{3000}'
}

pub fn is_space_char(c: char) -> (r: bool)
    ensures
        r == is_space(c),
{
    c == ' ' || c == '\t' || c == '\n' || c == '\u{b}' || c == '\u{c}' || c == '\r' || c == '\u{85}'
        || c == '\u{a0}' || c == '\u{1680}' || c == '\u{2000}' || c == '\u{2001}' || c == '\u{2002}'
        || c == '\u{2003}' || c == '\u{2004}' || c == '\u{2005}' || c == '\u{2006}'
        || c == '\u{2007}' || c == '\u{2008}' || c == '\u{2009}' || c == '\u{200a}'
        || c == '\u{2028}' || c == '\u{2029}' || c == '\u{202f}' || c == '\u{205f}'
        || c == '\u{3000}'
}

/// The first position at or after `k` whose character satisfies `p`, or the
/// length when there is none.
pub open spec fn first_idx(s: Seq<char>, p: spec_fn(char) -> bool, k: int) -> int
    decreases s.len() - k,
{
    if k < 0 || k >= s.len() {
        s.len() as int
    } else if p(s[k]) {
        k
    } else {
        first_idx(s, p, k + 1)
    }
}

pub proof fn lemma_first_idx(s: Seq<char>, p: spec_fn(char) -> bool, k: int, i: int)
    requires
        0 <= k <= i <= s.len(),
        forall|j: int| k <= j < i ==> !p(s[j]),
        i == s.len() || p(s[i]),
    ensures
        first_idx(s, p, k) == i,
    decreases i - k,
{
    if k < i {
        lemma_first_idx(s, p, k + 1, i);
    }
}

/// The last position before `k` whose character satisfies `p`, plus one; or
/// zero when there is none.
pub open spec fn last_idx_before(s: Seq<char>, p: spec_fn(char) -> bool, k: int) -> int
    decreases k,
{
    if k <= 0 || k > s.len() {
        0
    } else if p(s[k - 1]) {
        k
    } else {
        last_idx_before(s, p, k - 1)
    }
}

pub proof fn lemma_last_idx_before_bounds(s: Seq<char>, p: spec_fn(char) -> bool, k: int)
    requires
        0 <= k <= s.len(),
    ensures
        0 <= last_idx_before(s, p, k) <= k,
        last_idx_before(s, p, k) > 0 ==> p(s[last_idx_before(s, p, k) - 1]),
        forall|j: int| last_idx_before(s, p, k) <= j < k ==> !p(s[j]),
    decreases k,
{
    if k > 0 && !p(s[k - 1]) {
        lemma_last_idx_before_bounds(s, p, k - 1);
    }
}

/// The view of a string with leading and trailing whitespace removed.
pub open spec fn trim_view(s: Seq<char>) -> Seq<char> {
    let fi = first_idx(s, |c: char| !is_space(c), 0);
    let li = last_idx_before(s, |c: char| !is_space(c), s.len() as int);
    if fi >= li {
        Seq::<char>::empty()
    } else {
        s.subrange(fi, li)
    }
}

/// Removes leading and trailing whitespace.
pub fn trim_str<'a>(s: &'a str) -> (r: &'a str)
    ensures
        r@ == trim_view(s@),
{
    let n = s.unicode_len();
    let ghost p = |c: char| !is_space(c);
    let mut fi: usize = 0;
    while fi < n
        invariant
            0 <= fi <= n,
            n == s@.len(),
            forall|j: int| 0 <= j < fi ==> is_space(s@[j]),
        ensures
            0 <= fi <= n,
            forall|j: int| 0 <= j < fi ==> is_space(s@[j]),
            fi < n ==> !is_space(s@[fi as int]),
        decreases n - fi,
    {
        let c = s.get_char(fi);
        if !is_space_char(c) {
            break ;
        }
        fi = fi + 1;
    }
    proof {
        lemma_first_idx(s@, p, 0, fi as int);
    }
    let mut li: usize = n;
    while li > fi
        invariant
            fi <= li <= n,
            n == s@.len(),
            fi < n ==> !is_space(s@[fi as int]),
            forall|j: int| li <= j < n ==> is_space(s@[j]),
        ensures
            fi <= li <= n,
            forall|j: int| li <= j < n ==> is_space(s@[j]),
            li > fi ==> !is_space(s@[li - 1]),
        decreases li,
    {
        let c = s.get_char(li - 1);
        if !is_space_char(c) {
            break ;
        }
        li = li - 1;
    }
    proof {
        if li == fi {
            if fi == n {
                lemma_last_idx_before_bounds(s@, p, n as int);
                assert(last_idx_before(s@, p, n as int) <= fi);
            } else {
                assert(is_space(s@[fi as int]) || li > fi);
            }
        }
        if li > fi {
            assert(!is_space(s@[li - 1]));
            lemma_last_idx_before_bounds(s@, p, n as int);
            let lv = last_idx_before(s@, p, n as int);
            assert(lv <= li);
            if lv < li {
                assert(!p(s@[li - 1]));
                assert(false);
            }
        } else {
            // the whole string is whitespace
            let lv = last_idx_before(s@, p, n as int);
            assert(forall|j: int| 0 <= j < n ==> is_space(s@[j]));
            if lv > 0 {
                assert(p(s@[lv - 1]));
                assert(false);
            }
            assert(trim_view(s@) =~= Seq::<char>::empty());
        }
    }
    let r = s.substring_char(fi, li);
    proof {
        assert(r@ =~= trim_view(s@));
    }
    r
}

/// Character-for-character equality of two strings.
pub fn str_eq(a: &str, b: &str) -> (r: bool)
    ensures
        r == (a@ == b@),
{
    let na = a.unicode_len();
    let nb = b.unicode_len();
    if na != nb {
        proof {
            assert(a@ != b@);
        }
        return false;
    }
    let mut i: usize = 0;
    while i < na
        invariant
            0 <= i <= na,
            na == a@.len(),
            na == b@.len(),
            forall|j: int| 0 <= j < i ==> a@[j] == b@[j],
        decreases na - i,
    {
        if a.get_char(i) != b.get_char(i) {
            proof {
                assert(a@[i as int] != b@[i as int]);
            }
            return false;
        }
        i = i + 1;
    }
    proof {
        assert(a@ =~= b@);
    }
    true
}

/// The decimal digit character for `d`.
pub open spec fn digit_char(d: int) -> char {
    if d == 0 {
        '0'
    } else if d == 1 {
        '1'
    } else if d == 2 {
        '2'
    } else if d == 3 {
        '3'
    } else if d == 4 {
        '4'
    } else if d == 5 {
        '5'
    } else if d == 6 {
        '6'
    } else if d == 7 {
        '7'
    } else if d == 8 {
        '8'
    } else {
        '9'
    }
}

/// The decimal rendering of a non-negative number.
pub open spec fn dec_str(n: int) -> Seq<char>
    decreases n,
{
    if n < 10 {
        seq![digit_char(n)]
    } else {
        dec_str(n / 10) + seq![digit_char(n % 10)]
    }
}

fn digit_str(d: u128) -> (r: &'static str)
    requires
        d < 10,
    ensures
        r@ == seq![digit_char(d as int)],
{
    let r: &'static str = if d == 0 {
        "0"
    } else if d == 1 {
        "1"
    } else if d == 2 {
        "2"
    } else if d == 3 {
        "3"
    } else if d == 4 {
        "4"
    } else if d == 5 {
        "5"
    } else if d == 6 {
        "6"
    } else if d == 7 {
        "7"
    } else if d == 8 {
        "8"
    } else {
        "9"
    };
    proof {
        reveal_strlit("0");
        reveal_strlit("1");
        reveal_strlit("2");
        reveal_strlit("3");
        reveal_strlit("4");
        reveal_strlit("5");
        reveal_strlit("6");
        reveal_strlit("7");
        reveal_strlit("8");
        reveal_strlit("9");
        assert(r@ =~= seq![digit_char(d as int)]);
    }
    r
}

/// Appends the decimal rendering of `n`.
pub fn append_dec(s: &mut String, n: u128)
    ensures
        final(s)@ == old(s)@ + dec_str(n as int),
    decreases n,
{
    if n < 10 {
        s.append(digit_str(n));
    } else {
        append_dec(s, n / 10);
        s.append(digit_str(n % 10));
        proof {
            assert(old(s)@ + dec_str((n / 10) as int) + seq![digit_char((n % 10) as int)] =~= old(
                s,
            )@ + dec_str(n as int));
        }
    }
}

} // verus!
