//! Character-level text building blocks: reading the characters of a string,
//! appending to strings, decimal numbers and substring replacement.

use vstd::prelude::*;

verus! {

broadcast use vstd::string::group_string_axioms;

/// The characters of `s`, in order.
pub fn chars_of(s: &str) -> (v: Vec<char>)
    ensures
        v@ == s@,
{
    let mut v: Vec<char> = Vec::new();
    for c in it: s.chars()
        invariant
            v@ == it.seq().take(it.index() as int),
    {
        v.push(c);
    }
    assert(v@ =~= s@);
    v
}


/// Appends `c` to `s`: `String::push` of the standard library, which adds
/// the character at the end of the string.
#[verifier::external_body]
pub(crate) fn push_char(s: &mut String, c: char)
    ensures
        final(s)@ == old(s)@.push(c),
{
    s.push(c);
}

/// The ASCII digit for `v` (`0 <= v <= 9`).
pub open spec fn digit_char(v: int) -> char {
    (48 + v) as char
}

/// Decimal notation of `n`, without leading zeros.
pub open spec fn decimal(n: nat) -> Seq<char>
    decreases n,
{
    if n < 10 {
        seq![digit_char(n as int)]
    } else {
        decimal(n / 10).push(digit_char((n % 10) as int))
    }
}

/// Decimal notation of `n`, left-padded with `'0'` to at least `width`
/// characters.
pub open spec fn zero_padded(n: nat, width: nat) -> Seq<char> {
    let d = decimal(n);
    if d.len() < width {
        Seq::new((width - d.len()) as nat, |i: int| '0') + d
    } else {
        d
    }
}

/// `10` to the power `k`.
pub open spec fn pow10(k: nat) -> nat
    decreases k,
{
    if k == 0 {
        1
    } else {
        10 * pow10((k - 1) as nat)
    }
}

/// A number below `10^k` (`k >= 1`) has at most `k` decimal digits.
proof fn lemma_decimal_len_bound(n: nat, k: nat)
    requires
        k >= 1,
        n < pow10(k),
    ensures
        decimal(n).len() <= k,
    decreases k,
{
    if n >= 10 {
        assert(k >= 2) by {
            reveal_with_fuel(pow10, 2);
        }
        assert(n / 10 < pow10((k - 1) as nat)) by (nonlinear_arith)
            requires
                n < pow10(k),
                pow10(k) == 10 * pow10((k - 1) as nat),
        ;
        lemma_decimal_len_bound(n / 10, (k - 1) as nat);
    }
}

/// Number of characters in the decimal notation of `n`.
pub fn decimal_len(n: u64) -> (len: usize)
    ensures
        len == decimal(n as nat).len(),
    decreases n,
{
    proof {
        assert(pow10(20) == 100_000_000_000_000_000_000) by {
            reveal_with_fuel(pow10, 21);
        }
        lemma_decimal_len_bound(n as nat, 20);
    }
    if n < 10 {
        1
    } else {
        decimal_len(n / 10) + 1
    }
}

/// Appends the decimal notation of `n` to `out`.
pub fn push_decimal(out: &mut String, n: u64)
    ensures
        final(out)@ == old(out)@ + decimal(n as nat),
    decreases n,
{
    if n >= 10 {
        push_decimal(out, n / 10);
    }
    let c = ((n % 10) as u8 + 48) as char;
    push_char(out, c);
    assert(final(out)@ =~= old(out)@ + decimal(n as nat)) by {
        assert(c == digit_char((n % 10) as int));
    }
}

/// Appends the decimal notation of `n`, left-padded with zeros to `width`.
pub fn push_decimal_padded(out: &mut String, n: u64, width: usize)
    ensures
        final(out)@ == old(out)@ + zero_padded(n as nat, width as nat),
{
    let len = decimal_len(n);
    let ghost start = out@;
    if len < width {
        let mut i: usize = len;
        while i < width
            invariant
                len <= i <= width,
                out@ == start + Seq::new((i - len) as nat, |k: int| '0'),
            decreases width - i,
        {
            push_char(out, '0');
            i = i + 1;
            assert(out@ =~= start + Seq::new((i - len) as nat, |k: int| '0'));
        }
    }
    push_decimal(out, n);
    assert(out@ =~= start + zero_padded(n as nat, width as nat));
}


/// `s` holds `pat` at position `i`.
pub open spec fn occurs_at(s: Seq<char>, i: int, pat: Seq<char>) -> bool {
    0 <= i && i + pat.len() <= s.len() && s.subrange(i, i + pat.len()) == pat
}

/// `s` with the first `n` non-overlapping occurrences of `pat`, scanning from
/// the left, replaced by `rep` (for a non-empty `pat`).
pub open spec fn replace_first(s: Seq<char>, pat: Seq<char>, rep: Seq<char>, n: nat) -> Seq<char>
    decreases s.len(),
{
    if n == 0 || pat.len() == 0 || s.len() == 0 {
        s
    } else if occurs_at(s, 0, pat) {
        rep + replace_first(s.skip(pat.len() as int), pat, rep, (n - 1) as nat)
    } else {
        seq![s[0]] + replace_first(s.skip(1), pat, rep, n)
    }
}

/// `s` with every non-overlapping occurrence of `pat`, scanning from the
/// left, replaced by `rep` (for a non-empty `pat`).
pub open spec fn replace_all(s: Seq<char>, pat: Seq<char>, rep: Seq<char>) -> Seq<char>
    decreases s.len(),
{
    if pat.len() == 0 || s.len() == 0 {
        s
    } else if occurs_at(s, 0, pat) {
        rep + replace_all(s.skip(pat.len() as int), pat, rep)
    } else {
        seq![s[0]] + replace_all(s.skip(1), pat, rep)
    }
}

/// Whether `pat` occurs in `s` at position `i`.
pub fn matches_at(s: &Vec<char>, i: usize, pat: &Vec<char>) -> (b: bool)
    requires
        i <= s.len(),
    ensures
        b == occurs_at(s@, i as int, pat@),
{
    if pat.len() > s.len() - i {
        return false;
    }
    let mut k: usize = 0;
    while k < pat.len()
        invariant
            i + pat.len() <= s.len(),
            k <= pat.len(),
            forall|j: int| 0 <= j < k ==> s@[i + j] == pat@[j],
        decreases pat.len() - k,
    {
        if s[i + k] != pat[k] {
            assert(s@.subrange(i as int, i + pat.len())[k as int] != pat@[k as int]);
            return false;
        }
        k = k + 1;
    }
    assert(s@.subrange(i as int, i + pat.len()) =~= pat@);
    true
}

/// Core of `replacen`: with `limit == None` every occurrence is replaced.
fn replace_impl(s: &str, pat: &str, rep: &str, limit: Option<usize>) -> (out: String)
    requires
        pat@.len() > 0,
    ensures
        limit matches Some(n) ==> out@ == replace_first(s@, pat@, rep@, n as nat),
        limit is None ==> out@ == replace_all(s@, pat@, rep@),
{
    let cs = chars_of(s);
    let ps = chars_of(pat);
    let mut out = String::new();
    let mut i: usize = 0;
    let mut left: usize = match limit {
        Some(n) => n,
        None => 0,
    };
    assert(cs@.skip(0) =~= s@);
    assert(out@ + replace_all(s@, pat@, rep@) =~= replace_all(s@, pat@, rep@));
    assert(out@ + replace_first(s@, pat@, rep@, left as nat) =~= replace_first(s@, pat@, rep@, left as nat));
    while i < cs.len()
        invariant
            i <= cs.len(),
            cs@ == s@,
            ps@ == pat@,
            ps@.len() > 0,
            limit matches Some(n) ==> out@ + replace_first(cs@.skip(i as int), ps@, rep@, left as nat)
                == replace_first(s@, pat@, rep@, n as nat),
            limit is None ==> out@ + replace_all(cs@.skip(i as int), ps@, rep@) == replace_all(
                s@,
                pat@,
                rep@,
            ),
        decreases cs.len() - i,
    {
        let ghost rest = cs@.skip(i as int);
        let done = match limit {
            Some(_) => left == 0,
            None => false,
        };
        assert(occurs_at(rest, 0, ps@) == occurs_at(cs@, i as int, ps@)) by {
            if i + ps@.len() <= cs@.len() {
                assert(rest.subrange(0, ps@.len() as int) =~= cs@.subrange(
                    i as int,
                    i + ps@.len(),
                ));
            }
        }
        if !done && matches_at(&cs, i, &ps) {
            out.append(rep);
            i = i + ps.len();
            if limit.is_some() {
                left = left - 1;
            }
            assert(rest.skip(ps@.len() as int) =~= cs@.skip(i as int));
        } else {
            push_char(&mut out, cs[i]);
            i = i + 1;
            assert(rest.skip(1) =~= cs@.skip(i as int));
            assert(rest =~= seq![rest[0]] + rest.skip(1));
        }
    }
    assert(cs@.skip(i as int) =~= Seq::<char>::empty());
    out
}


/// `s` with the first `n` occurrences of `pat` replaced by `rep`, as
/// `str::replacen` does (for a non-empty `pat`).
pub fn replacen(s: &str, pat: &str, rep: &str, n: usize) -> (out: String)
    requires
        pat@.len() > 0,
    ensures
        out@ == replace_first(s@, pat@, rep@, n as nat),
{
    replace_impl(s, pat, rep, Some(n))
}

/// `s` with every occurrence of `pat` replaced by `rep`, as `str::replace`
/// does (for a non-empty `pat`).
pub fn replace(s: &str, pat: &str, rep: &str) -> (out: String)
    requires
        pat@.len() > 0,
    ensures
        out@ == replace_all(s@, pat@, rep@),
{
    replace_impl(s, pat, rep, None)
}


/// `s` ends with `suffix`.
pub open spec fn ends_with(s: Seq<char>, suffix: Seq<char>) -> bool {
    suffix.len() <= s.len() && s.skip(s.len() - suffix.len()) == suffix
}

/// `s` starts with `prefix`.
pub open spec fn starts_with(s: Seq<char>, prefix: Seq<char>) -> bool {
    occurs_at(s, 0, prefix)
}

/// `pat` occurs somewhere in `s`.
pub open spec fn contains_seq(s: Seq<char>, pat: Seq<char>) -> bool {
    exists|i: int| occurs_at(s, i, pat)
}

/// ASCII lower-case of `c`; other characters unchanged.
pub open spec fn ascii_lower(c: char) -> char {
    if 'A' <= c <= 'Z' {
        ((c as u32) + 32) as char
    } else {
        c
    }
}

/// `a` and `b` are equal up to ASCII case.
pub open spec fn eq_ignore_ascii_case(a: Seq<char>, b: Seq<char>) -> bool {
    a.len() == b.len() && forall|i: int| 0 <= i < a.len() ==> ascii_lower(a[i]) == ascii_lower(b[i])
}

fn lower(c: char) -> (r: char)
    ensures
        r == ascii_lower(c),
{
    if 'A' <= c && c <= 'Z' {
        ((c as u8) + 32) as char
    } else {
        c
    }
}

/// Whether `s[from..to]` equals `pat` up to ASCII case.
pub fn range_eq_ignore_ascii_case(s: &Vec<char>, from: usize, to: usize, pat: &str) -> (b: bool)
    requires
        from <= to <= s.len(),
    ensures
        b == eq_ignore_ascii_case(s@.subrange(from as int, to as int), pat@),
{
    let p = chars_of(pat);
    if to - from != p.len() {
        return false;
    }
    let mut k: usize = 0;
    while k < p.len()
        invariant
            from <= to <= s.len(),
            to - from == p.len(),
            p@ == pat@,
            k <= p.len(),
            forall|j: int| 0 <= j < k ==> ascii_lower(s@[from + j]) == ascii_lower(p@[j]),
        decreases p.len() - k,
    {
        if lower(s[from + k]) != lower(p[k]) {
            return false;
        }
        k = k + 1;
    }
    true
}

/// Whether `pat` occurs in `s`.
pub fn contains_chars(s: &Vec<char>, pat: &str) -> (b: bool)
    ensures
        b == contains_seq(s@, pat@),
{
    let p = chars_of(pat);
    let mut i: usize = 0;
    while i < s.len()
        invariant
            i <= s.len(),
            p@ == pat@,
            forall|j: int| 0 <= j < i ==> !occurs_at(s@, j, pat@),
        decreases s.len() - i,
    {
        if matches_at(s, i, &p) {
            return true;
        }
        i = i + 1;
    }
    if matches_at(s, i, &p) {
        return true;
    }
    assert forall|j: int| !occurs_at(s@, j, pat@) by {
        if 0 <= j && j + pat@.len() <= s@.len() {
            assert(j <= i);
        }
    }
    false
}

} // verus!
