//! Verified helpers on strings: prefix tests, segment extraction around the
//! `/` separators of qualified palette names, space trimming, and decimal
//! formatting of stop numbers.

use vstd::prelude::*;

verus! {

/// The index of the last `/` in `s`, or `-1` if there is none.
pub open spec fn last_slash(s: Seq<char>) -> int
    decreases s.len(),
{
    if s.len() == 0 {
        -1
    } else if s[s.len() - 1] == '/' {
        s.len() - 1
    } else {
        last_slash(s.drop_last())
    }
}

pub proof fn lemma_last_slash_range(s: Seq<char>)
    ensures
        -1 <= last_slash(s) < s.len(),
        last_slash(s) >= 0 ==> s[last_slash(s)] == '/',
        forall|i: int| last_slash(s) < i < s.len() ==> s[i] != '/',
    decreases s.len(),
{
    if s.len() > 0 && s[s.len() - 1] != '/' {
        lemma_last_slash_range(s.drop_last());
        assert forall|i: int| last_slash(s) < i < s.len() implies s[i] != '/' by {
            if i < s.len() - 1 {
                assert(s.drop_last()[i] == s[i]);
            }
        }
    }
}

/// Number of leading spaces of `s`.
pub open spec fn leading_spaces(s: Seq<char>) -> int
    decreases s.len(),
{
    if s.len() == 0 || s[0] != ' ' {
        0
    } else {
        1 + leading_spaces(s.skip(1))
    }
}

/// Number of trailing spaces of `s`.
pub open spec fn trailing_spaces(s: Seq<char>) -> int
    decreases s.len(),
{
    if s.len() == 0 || s[s.len() - 1] != ' ' {
        0
    } else {
        1 + trailing_spaces(s.drop_last())
    }
}

proof fn lemma_leading_spaces(s: Seq<char>)
    ensures
        0 <= leading_spaces(s) <= s.len(),
        forall|i: int| 0 <= i < leading_spaces(s) ==> s[i] == ' ',
        leading_spaces(s) < s.len() ==> s[leading_spaces(s)] != ' ',
    decreases s.len(),
{
    if s.len() > 0 && s[0] == ' ' {
        lemma_leading_spaces(s.skip(1));
        assert forall|i: int| 0 <= i < leading_spaces(s) implies s[i] == ' ' by {
            if i > 0 {
                assert(s.skip(1)[i - 1] == s[i]);
            }
        }
        if leading_spaces(s) < s.len() {
            assert(s.skip(1)[leading_spaces(s) - 1] == s[leading_spaces(s)]);
        }
    }
}

proof fn lemma_trailing_spaces(s: Seq<char>)
    ensures
        0 <= trailing_spaces(s) <= s.len(),
        forall|i: int| s.len() - trailing_spaces(s) <= i < s.len() ==> s[i] == ' ',
        trailing_spaces(s) < s.len() ==> s[s.len() - trailing_spaces(s) - 1] != ' ',
    decreases s.len(),
{
    if s.len() > 0 && s[s.len() - 1] == ' ' {
        lemma_trailing_spaces(s.drop_last());
        assert forall|i: int| s.len() - trailing_spaces(s) <= i < s.len() implies s[i]
            == ' ' by {
            if i < s.len() - 1 {
                assert(s.drop_last()[i] == s[i]);
            }
        }
        if trailing_spaces(s) < s.len() {
            assert(s.drop_last()[s.len() - trailing_spaces(s) - 1] == s[s.len() - trailing_spaces(
                s,
            ) - 1]);
        }
    }
}

/// `s` with surrounding spaces removed.
pub open spec fn trim_spaces(s: Seq<char>) -> Seq<char> {
    if leading_spaces(s) == s.len() {
        Seq::empty()
    } else {
        s.subrange(leading_spaces(s), s.len() - trailing_spaces(s))
    }
}

/// The part of `s` after its last `/`, trimmed of surrounding spaces.
/// A name without `/` is its own trailing segment.
pub open spec fn trailing_segment(s: Seq<char>) -> Seq<char> {
    trim_spaces(s.skip(last_slash(s) + 1))
}

/// The part of `s` before its first `/` (all of `s` if there is none),
/// trimmed of surrounding spaces.
pub open spec fn first_segment(s: Seq<char>) -> Seq<char>
    decreases s.len(),
{
    if s.len() == 0 {
        Seq::empty()
    } else if s[0] == '/' {
        trim_spaces(Seq::empty())
    } else {
        trim_spaces(prefix_before_slash(s))
    }
}

/// The longest prefix of `s` that holds no `/`.
pub open spec fn prefix_before_slash(s: Seq<char>) -> Seq<char>
    decreases s.len(),
{
    if s.len() == 0 || s[0] == '/' {
        Seq::empty()
    } else {
        seq![s[0]] + prefix_before_slash(s.skip(1))
    }
}

/// Whether `s` starts with `p`, over views.
pub fn starts_with(s: &str, p: &str) -> (r: bool)
    ensures
        r == p@.is_prefix_of(s@),
{
    let sl = s.unicode_len();
    let pl = p.unicode_len();
    if pl > sl {
        assert(!p@.is_prefix_of(s@));
        return false;
    }
    let mut i: usize = 0;
    while i < pl
        invariant
            0 <= i <= pl <= sl,
            sl == s@.len(),
            pl == p@.len(),
            forall|j: int| 0 <= j < i ==> s@[j] == p@[j],
        decreases pl - i,
    {
        if s.get_char(i) != p.get_char(i) {
            assert(!p@.is_prefix_of(s@));
            return false;
        }
        i += 1;
    }
    assert(p@.is_prefix_of(s@)) by {
        assert(s@.subrange(0, pl as int) =~= p@);
    }
    true
}

/// Whether the views of two strings are equal.
pub fn str_eq(a: &str, b: &str) -> (r: bool)
    ensures
        r == (a@ == b@),
{
    let al = a.unicode_len();
    let bl = b.unicode_len();
    if al != bl {
        return false;
    }
    let mut i: usize = 0;
    while i < al
        invariant
            0 <= i <= al,
            al == a@.len(),
            al == b@.len(),
            forall|j: int| 0 <= j < i ==> a@[j] == b@[j],
        decreases al - i,
    {
        if a.get_char(i) != b.get_char(i) {
            return false;
        }
        i += 1;
    }
    assert(a@ =~= b@);
    true
}

/// The trailing segment of `s`: the text after the last `/`, trimmed of
/// surrounding spaces.
pub fn trailing_segment_of(s: &str) -> (r: String)
    ensures
        r@ == trailing_segment(s@),
{
    let n = s.unicode_len();
    let mut cut: usize = 0;
    let mut i: usize = 0;
    // Find the position after the last '/'.
    while i < n
        invariant
            0 <= i <= n,
            n == s@.len(),
            0 <= cut <= i,
            cut == last_slash(s@.subrange(0, i as int)) + 1,
        decreases n - i,
    {
        let ghost pre = s@.subrange(0, i as int);
        if s.get_char(i) == '/' {
            cut = i + 1;
        }
        i += 1;
        proof {
            let cur = s@.subrange(0, i as int);
            assert(cur.drop_last() =~= pre);
        }
    }
    proof {
        assert(s@.subrange(0, n as int) =~= s@);
    }
    let tail = s.substring_char(cut, n);
    proof {
        assert(tail@ =~= s@.skip(last_slash(s@) + 1));
    }
    trim_spaces_of(tail)
}

/// The first segment of `s`: the text before the first `/` (all of `s` if
/// there is none), trimmed of surrounding spaces.
pub fn first_segment_of(s: &str) -> (r: String)
    ensures
        r@ == first_segment(s@),
{
    let n = s.unicode_len();
    let mut i: usize = 0;
    while i < n && s.get_char(i) != '/'
        invariant
            0 <= i <= n,
            n == s@.len(),
            forall|j: int| 0 <= j < i ==> s@[j] != '/',
        decreases n - i,
    {
        i += 1;
    }
    let head = s.substring_char(0, i);
    proof {
        lemma_prefix_before_slash(s@, i as int);
        assert(head@ =~= prefix_before_slash(s@));
        if s@.len() > 0 && s@[0] == '/' {
            assert(prefix_before_slash(s@) =~= Seq::<char>::empty());
        }
    }
    trim_spaces_of(head)
}

proof fn lemma_prefix_before_slash(s: Seq<char>, i: int)
    requires
        0 <= i <= s.len(),
        forall|j: int| 0 <= j < i ==> s[j] != '/',
        i < s.len() ==> s[i] == '/',
    ensures
        prefix_before_slash(s) == s.subrange(0, i),
    decreases s.len(),
{
    if s.len() == 0 || s[0] == '/' {
        assert(s.subrange(0, i) =~= Seq::<char>::empty());
    } else {
        assert(i >= 1);
        lemma_prefix_before_slash(s.skip(1), i - 1);
        assert(s.skip(1).subrange(0, i - 1) =~= s.subrange(1, i));
        assert(prefix_before_slash(s) =~= s.subrange(0, i));
    }
}

/// `s` trimmed of surrounding spaces.
pub fn trim_spaces_of(s: &str) -> (r: String)
    ensures
        r@ == trim_spaces(s@),
{
    let n = s.unicode_len();
    let mut lo: usize = 0;
    while lo < n && s.get_char(lo) == ' '
        invariant
            0 <= lo <= n,
            n == s@.len(),
            forall|j: int| 0 <= j < lo ==> s@[j] == ' ',
        decreases n - lo,
    {
        lo += 1;
    }
    proof {
        lemma_leading_spaces_agree(s@, lo as int);
    }
    if lo == n {
        proof {
            lemma_leading_spaces(s@);
        }
        return String::new();
    }
    let mut hi: usize = n;
    while hi > lo && s.get_char(hi - 1) == ' '
        invariant
            lo <= hi <= n,
            n == s@.len(),
            forall|j: int| hi <= j < n ==> s@[j] == ' ',
            lo < n,
            s@[lo as int] != ' ',
        decreases hi,
    {
        hi -= 1;
    }
    assert(hi > lo);
    proof {
        lemma_trailing_spaces_agree(s@, hi as int);
        lemma_leading_spaces(s@);
        lemma_trailing_spaces(s@);
    }
    let out = s.substring_char(lo, hi);
    proof {
        assert(out@ =~= trim_spaces(s@));
    }
    out.to_owned()
}

pub proof fn lemma_leading_spaces_agree(s: Seq<char>, lo: int)
    requires
        0 <= lo <= s.len(),
        forall|j: int| 0 <= j < lo ==> s[j] == ' ',
        lo < s.len() ==> s[lo] != ' ',
    ensures
        leading_spaces(s) == lo,
    decreases s.len(),
{
    if s.len() > 0 && s[0] == ' ' {
        assert(lo >= 1);
        lemma_leading_spaces_agree(s.skip(1), lo - 1);
    }
}

pub proof fn lemma_trailing_spaces_agree(s: Seq<char>, hi: int)
    requires
        0 <= hi <= s.len(),
        forall|j: int| hi <= j < s.len() ==> s[j] == ' ',
        hi > 0 ==> s[hi - 1] != ' ',
    ensures
        trailing_spaces(s) == s.len() - hi,
    decreases s.len(),
{
    if s.len() > 0 && s[s.len() - 1] == ' ' {
        assert(hi < s.len());
        lemma_trailing_spaces_agree(s.drop_last(), hi);
    }
}

/// No `/` anywhere in `s`.
pub open spec fn no_slash(s: Seq<char>) -> bool {
    forall|i: int| 0 <= i < s.len() ==> s[i] != '/'
}

/// `s` neither starts nor ends with a space.
pub open spec fn trimmed(s: Seq<char>) -> bool {
    s.len() == 0 || (s[0] != ' ' && s[s.len() - 1] != ' ')
}

/// The last slash is the unique position with no slash after it.
pub proof fn lemma_last_slash_unique(s: Seq<char>, k: int)
    requires
        0 <= k < s.len(),
        s[k] == '/',
        forall|i: int| k < i < s.len() ==> s[i] != '/',
    ensures
        last_slash(s) == k,
    decreases s.len(),
{
    if s[s.len() - 1] == '/' {
        assert(k == s.len() - 1);
    } else {
        assert(k < s.len() - 1);
        lemma_last_slash_unique(s.drop_last(), k);
    }
}

/// A trailing segment never holds a slash and never starts or ends with a
/// space.
pub proof fn lemma_trailing_segment_clean(s: Seq<char>)
    ensures
        no_slash(trailing_segment(s)),
        trimmed(trailing_segment(s)),
{
    lemma_last_slash_range(s);
    let tail = s.skip(last_slash(s) + 1);
    assert(forall|i: int| 0 <= i < tail.len() ==> tail[i] != '/');
    lemma_trim_properties(tail);
    assert forall|i: int| 0 <= i < trailing_segment(s).len() implies trailing_segment(s)[i]
        != '/' by {
        lemma_leading_spaces(tail);
        lemma_trailing_spaces(tail);
        assert(leading_spaces(tail) < tail.len());
        assert(trim_spaces(tail)[i] == tail[leading_spaces(tail) + i]);
    }
}

/// Trimming yields trimmed text made of the middle of the input.
pub proof fn lemma_trim_properties(s: Seq<char>)
    ensures
        trimmed(trim_spaces(s)),
        forall|i: int| 0 <= i < trim_spaces(s).len() ==> trim_spaces(s)[i] == s[leading_spaces(s)
            + i],
{
    lemma_leading_spaces(s);
    lemma_trailing_spaces(s);
    let t = trim_spaces(s);
    if leading_spaces(s) < s.len() && t.len() > 0 {
        assert(s.len() - trailing_spaces(s) >= leading_spaces(s));
        assert(t[0] == s[leading_spaces(s)]);
        assert(t[t.len() - 1] == s[s.len() - trailing_spaces(s) - 1]);
    }
}

/// The character for one decimal digit.
pub open spec fn digit_char(d: int) -> char {
    if d == 0 {
        '0'
    } else if d == 1 {
        '1'
    } else if d == 2 {
        '2'
    } else if d == 3 {
        '3'
    } else if d == 4 {
        '4'
    } else if d == 5 {
        '5'
    } else if d == 6 {
        '6'
    } else if d == 7 {
        '7'
    } else if d == 8 {
        '8'
    } else {
        '9'
    }
}

/// The decimal text of a natural number, no sign, no leading zeros.
pub open spec fn dec_str(n: nat) -> Seq<char>
    decreases n,
{
    if n < 10 {
        seq![digit_char(n as int)]
    } else {
        dec_str(n / 10) + seq![digit_char((n % 10) as int)]
    }
}

/// Decimal text is nonempty and made of digit characters only, so it holds
/// neither spaces nor slashes.
pub proof fn lemma_dec_str_digits(n: nat)
    ensures
        dec_str(n).len() >= 1,
        forall|i: int| 0 <= i < dec_str(n).len() ==> '0' <= #[trigger] dec_str(n)[i]
            && dec_str(n)[i] <= '9',
    decreases n,
{
    if n >= 10 {
        lemma_dec_str_digits(n / 10);
    }
}

/// One decimal digit as text.
fn digit_str(d: u32) -> (r: &'static str)
    requires
        d < 10,
    ensures
        r@ == seq![digit_char(d as int)],
{
    let r: &'static str = match d {
        0 => "0",
        1 => "1",
        2 => "2",
        3 => "3",
        4 => "4",
        5 => "5",
        6 => "6",
        7 => "7",
        8 => "8",
        _ => "9",
    };
    proof {
        reveal_strlit("0");
        reveal_strlit("1");
        reveal_strlit("2");
        reveal_strlit("3");
        reveal_strlit("4");
        reveal_strlit("5");
        reveal_strlit("6");
        reveal_strlit("7");
        reveal_strlit("8");
        reveal_strlit("9");
        assert(r@ =~= seq![digit_char(d as int)]);
    }
    r
}

/// The decimal text of `n`.
pub fn u32_to_dec(n: u32) -> (r: String)
    ensures
        r@ == dec_str(n as nat),
    decreases n,
{
    if n < 10 {
        digit_str(n).to_owned()
    } else {
        let mut s = u32_to_dec(n / 10);
        s.append(digit_str(n % 10));
        s
    }
}

} // verus!
