//! Directory listing pages: escaping and percent-encoding of names, human
//! readable sizes and dates, the order of entries and the rendered page.

use vstd::prelude::*;

use crate::calendar::{civil_date, dir_days_to_ymd};
use crate::text::{
    chars_of, decimal, digit_char, occurs_at, push_char, push_decimal, push_decimal_padded, replace, replace_all,
    replace_first, replacen, zero_padded,
};

verus! {

broadcast use vstd::string::group_string_axioms;

/// How one character is written in HTML text and attribute values.
pub open spec fn html_escaped_char(c: char) -> Seq<char> {
    if c == '&' {
        seq!['&', 'a', 'm', 'p', ';']
    } else if c == '<' {
        seq!['&', 'l', 't', ';']
    } else if c == '>' {
        seq!['&', 'g', 't', ';']
    } else if c == '"' {
        seq!['&', 'q', 'u', 'o', 't', ';']
    } else {
        seq![c]
    }
}

/// `s` with `&`, `<`, `>` and `"` replaced by their HTML entities.
pub open spec fn html_escaped(s: Seq<char>) -> Seq<char>
    decreases s.len(),
{
    if s.len() == 0 {
        seq![]
    } else {
        html_escaped(s.drop_last()) + html_escaped_char(s.last())
    }
}

/// Appends `s` to `out`, escaped for HTML.
pub fn dir_html_escape(s: &str, out: &mut String)
    ensures
        final(out)@ == old(out)@ + html_escaped(s@),
{
    let cs = chars_of(s);
    let ghost start = out@;
    let mut i: usize = 0;
    assert(cs@.take(0) =~= Seq::<char>::empty());
    while i < cs.len()
        invariant
            i <= cs.len(),
            cs@ == s@,
            out@ == start + html_escaped(cs@.take(i as int)),
        decreases cs.len() - i,
    {
        let c = cs[i];
        if c == '&' {
            out.append("&amp;");
        } else if c == '<' {
            out.append("&lt;");
        } else if c == '>' {
            out.append("&gt;");
        } else if c == '"' {
            out.append("&quot;");
        } else {
            push_char(out, c);
        }
        proof {
            reveal_strlit("&amp;");
            reveal_strlit("&lt;");
            reveal_strlit("&gt;");
            reveal_strlit("&quot;");
            assert(cs@.take(i + 1).drop_last() =~= cs@.take(i as int));
        }
        i = i + 1;
        assert(out@ =~= start + html_escaped(cs@.take(i as int)));
    }
    assert(cs@.take(i as int) =~= s@);
}

/// Bytes that stay as they are in a percent-encoded URL path segment.
pub open spec fn is_unreserved(b: u8) -> bool {
    (65 <= b <= 90) || (97 <= b <= 122) || (48 <= b <= 57) || b == 45 || b == 95 || b == 46
        || b == 126
}

/// Upper-case hexadecimal digit for `v` (`0 <= v < 16`).
pub open spec fn hex_upper(v: int) -> char {
    if v < 10 {
        (48 + v) as char
    } else {
        (55 + v) as char
    }
}

/// How one byte is written in a percent-encoded URL path segment.
pub open spec fn url_encoded_byte(b: u8) -> Seq<char> {
    if is_unreserved(b) {
        seq![b as char]
    } else {
        seq!['%', hex_upper((b / 16) as int), hex_upper((b % 16) as int)]
    }
}

/// Percent-encoding of a byte string.
pub open spec fn url_encoded(bytes: Seq<u8>) -> Seq<char>
    decreases bytes.len(),
{
    if bytes.len() == 0 {
        seq![]
    } else {
        url_encoded(bytes.drop_last()) + url_encoded_byte(bytes.last())
    }
}

/// A percent-encoded string only holds unreserved characters, `%` and
/// upper-case hexadecimal digits.
pub proof fn lemma_url_encoded_safe(bytes: Seq<u8>)
    ensures
        forall|i: int|
            0 <= i < url_encoded(bytes).len() ==> {
                let c = #[trigger] url_encoded(bytes)[i];
                ('A' <= c <= 'Z') || ('a' <= c <= 'z') || ('0' <= c <= '9') || c == '-' || c == '_'
                    || c == '.' || c == '~' || c == '%'
            },
    decreases bytes.len(),
{
    if bytes.len() > 0 {
        lemma_url_encoded_safe(bytes.drop_last());
        let a = url_encoded(bytes.drop_last());
        let b = url_encoded_byte(bytes.last());
        assert forall|i: int| 0 <= i < (a + b).len() implies {
            let c = #[trigger] (a + b)[i];
            ('A' <= c <= 'Z') || ('a' <= c <= 'z') || ('0' <= c <= '9') || c == '-' || c == '_'
                || c == '.' || c == '~' || c == '%'
        } by {
            if i >= a.len() {
                assert((a + b)[i] == b[i - a.len()]);
            } else {
                assert((a + b)[i] == a[i]);
            }
        }
    }
}

/// Whether `c` is a hexadecimal digit (either case).
pub open spec fn is_hex_digit(c: char) -> bool {
    ('0' <= c <= '9') || ('A' <= c <= 'F') || ('a' <= c <= 'f')
}

/// The value of the hexadecimal digit `c`.
pub open spec fn hex_value(c: char) -> int {
    if '0' <= c <= '9' {
        c as int - 48
    } else if 'A' <= c <= 'F' {
        c as int - 55
    } else {
        c as int - 87
    }
}

/// Percent-decoding, left to right: `%` and two hexadecimal digits give the
/// byte they spell; any other character gives its code truncated to a byte.
pub open spec fn percent_decode(s: Seq<char>) -> Seq<u8>
    decreases s.len(),
{
    if s.len() == 0 {
        seq![]
    } else if s.len() >= 3 && s[0] == '%' && is_hex_digit(s[1]) && is_hex_digit(s[2]) {
        seq![(16 * hex_value(s[1]) + hex_value(s[2])) as u8] + percent_decode(s.skip(3))
    } else {
        seq![s[0] as u8] + percent_decode(s.skip(1))
    }
}

/// How many bytes of `bytes` are not unreserved, so are written as `%XX`.
pub open spec fn reserved_count(bytes: Seq<u8>) -> nat
    decreases bytes.len(),
{
    if bytes.len() == 0 {
        0
    } else {
        reserved_count(bytes.drop_last()) + if is_unreserved(bytes.last()) {
            0nat
        } else {
            1nat
        }
    }
}

proof fn lemma_url_encoded_front(b: u8, rest: Seq<u8>)
    ensures
        url_encoded(seq![b] + rest) == url_encoded_byte(b) + url_encoded(rest),
    decreases rest.len(),
{
    let x = seq![b] + rest;
    if rest.len() == 0 {
        assert(x.drop_last() =~= Seq::<u8>::empty());
        assert(x.last() == b);
        assert(url_encoded(x.drop_last()) =~= Seq::<char>::empty());
        assert(url_encoded(x) =~= url_encoded_byte(b));
    } else {
        assert(x.drop_last() =~= seq![b] + rest.drop_last());
        lemma_url_encoded_front(b, rest.drop_last());
        assert(url_encoded(x) =~= url_encoded_byte(b) + url_encoded(rest));
    }
}

proof fn lemma_hex_round_trip(v: int)
    requires
        0 <= v < 16,
    ensures
        is_hex_digit(hex_upper(v)),
        hex_value(hex_upper(v)) == v,
        hex_upper(v) != '%',
{
}

/// Percent-encoding writes each unreserved byte as one character and every
/// other byte as three, and percent-decoding its output gives back exactly
/// the bytes that were encoded (for `dir_url_encode(s)`, the UTF-8 bytes of
/// `s`).
pub proof fn lemma_url_encoded_round_trip(bytes: Seq<u8>)
    ensures
        url_encoded(bytes).len() == bytes.len() + 2 * reserved_count(bytes),
        percent_decode(url_encoded(bytes)) == bytes,
    decreases bytes.len(),
{
    if bytes.len() > 0 {
        lemma_url_encoded_round_trip(bytes.drop_last());
        let b = bytes[0];
        let rest = bytes.drop_first();
        assert(bytes =~= seq![b] + rest);
        lemma_url_encoded_front(b, rest);
        lemma_url_encoded_round_trip(rest);
        let enc = url_encoded_byte(b);
        let s = enc + url_encoded(rest);
        if is_unreserved(b) {
            assert(s[0] == b as char);
            assert((b as char) as u8 == b);
            assert(s.skip(1) =~= url_encoded(rest));
        } else {
            lemma_hex_round_trip((b / 16) as int);
            lemma_hex_round_trip((b % 16) as int);
            assert(s[0] == '%' && s[1] == hex_upper((b / 16) as int) && s[2] == hex_upper(
                (b % 16) as int,
            ));
            assert(s.skip(3) =~= url_encoded(rest));
            assert((16 * ((b / 16) as int) + (b % 16) as int) as u8 == b);
        }
        assert(percent_decode(s) =~= bytes);
    }
}

fn hex_digit(v: u8) -> (c: char)
    requires
        v < 16,
    ensures
        c == hex_upper(v as int),
{
    if v < 10 {
        (v + 48) as char
    } else {
        (v + 55) as char
    }
}

/// Percent-encodes the UTF-8 bytes of `s` for use in a URL path.
pub fn dir_url_encode(s: &str) -> (out: String)
    ensures
        out@ == url_encoded(vstd::utf8::encode_utf8(s@)),
{
    let bytes = s.as_bytes();
    let mut out = String::new();
    let mut i: usize = 0;
    assert(bytes@.take(0) =~= Seq::<u8>::empty());
    while i < bytes.len()
        invariant
            i <= bytes@.len(),
            bytes@ == vstd::utf8::encode_utf8(s@),
            out@ == url_encoded(bytes@.take(i as int)),
        decreases bytes.len() - i,
    {
        let b = bytes[i];
        // A-Z, a-z, 0-9, '-', '_', '.', '~'
        if (65 <= b && b <= 90) || (97 <= b && b <= 122) || (48 <= b && b <= 57) || b == 45 || b
            == 95 || b == 46 || b == 126 {
            push_char(&mut out, b as char);
        } else {
            push_char(&mut out, '%');
            push_char(&mut out, hex_digit(b / 16));
            push_char(&mut out, hex_digit(b % 16));
        }
        assert(bytes@.take(i + 1).drop_last() =~= bytes@.take(i as int));
        i = i + 1;
        assert(out@ =~= url_encoded(bytes@.take(i as int)));
    }
    assert(bytes@.take(i as int) =~= bytes@);
    out
}


/// `n / d` rounded to the nearest integer, ties to even.
pub open spec fn round_half_even_div(n: nat, d: nat) -> nat {
    let q = n / d;
    let r = n % d;
    if 2 * r > d || (2 * r == d && q % 2 == 1) {
        q + 1
    } else {
        q
    }
}

/// `2` to the power `k`.
pub open spec fn pow_two(k: nat) -> nat
    decreases k,
{
    if k == 0 {
        1
    } else {
        2 * pow_two((k - 1) as nat)
    }
}

/// How many low bits of `b` do not fit in a 53-bit significand.
pub open spec fn dropped_bits(b: nat) -> nat
    decreases b,
{
    if b < 0x20_0000_0000_0000 {
        0
    } else {
        1 + dropped_bits(b / 2)
    }
}

/// The integer value of `b as f64`: `b` rounded to 53 significant bits,
/// ties to even.
pub open spec fn nearest_f64(b: nat) -> nat {
    let d = pow_two(dropped_bits(b));
    round_half_even_div(b, d) * d
}

/// `tenths / 10` written with one decimal.
pub open spec fn one_decimal(tenths: nat) -> Seq<char> {
    decimal(tenths / 10) + seq!['.', crate::text::digit_char((tenths % 10) as int)]
}

/// A file size as `N B` below one KiB, else in KiB or MiB with one decimal
/// (the decimal rounded half to even, from the size as an `f64`).
pub open spec fn size_text(bytes: nat) -> Seq<char> {
    if bytes < 1024 {
        decimal(bytes) + seq![' ', 'B']
    } else if bytes < 1048576 {
        one_decimal(round_half_even_div(bytes * 10, 1024)) + seq![' ', 'K', 'B']
    } else {
        one_decimal(round_half_even_div(nearest_f64(bytes) * 10, 1048576)) + seq![' ', 'M', 'B']
    }
}

fn round_half_even(n: u128, d: u128) -> (q: u128)
    requires
        d > 0,
        d <= 0xffff_ffff_ffff_ffff_ffff,
        n <= 0xffff_ffff_ffff_ffff_ffff,
    ensures
        q == round_half_even_div(n as nat, d as nat),
        q <= n / d + 1,
{
    let q = n / d;
    let r = n % d;
    if 2 * r > d || (2 * r == d && q % 2 == 1) {
        q + 1
    } else {
        q
    }
}

fn nearest_f64_value(b: u64) -> (v: u128)
    ensures
        v == nearest_f64(b as nat),
        v <= 0x2_0000_0000_0000_0000,
{
    let mut t: u64 = b;
    let mut d: u128 = 1;
    let ghost mut k: nat = 0;
    while t >= 0x20_0000_0000_0000
        invariant
            d == pow_two(k),
            t as nat == (b as nat) / (d as nat),
            1 <= d <= b as nat + 1,
            dropped_bits(b as nat) == k + dropped_bits(t as nat),
        decreases t,
    {
        proof {
            vstd::arithmetic::div_mod::lemma_div_denominator(b as int, d as int, 2);
            assert(d * t <= b) by (nonlinear_arith)
                requires
                    t as nat == (b as nat) / (d as nat),
                    d >= 1,
            ;
            assert(2 * d <= b) by (nonlinear_arith)
                requires
                    d * t <= b,
                    t >= 2,
                    d >= 1,
            ;
        }
        t = t / 2;
        d = d * 2;
        proof {
            k = k + 1;
        }
    }
    let q = round_half_even(b as u128, d);
    assert(q * d <= 0x2_0000_0000_0000_0000) by (nonlinear_arith)
        requires
            q <= (b as nat) / (d as nat) + 1,
            d >= 1,
            d <= b + 1,
            b <= 0xffff_ffff_ffff_ffff,
    {
        assert(((b as nat) / (d as nat)) * d <= b);
        assert(q * d <= ((b as nat) / (d as nat)) * d + d);
    }
    q * d
}

/// Appends `tenths / 10` with one decimal.
fn push_one_decimal(out: &mut String, tenths: u128)
    requires
        tenths <= 0xffff_ffff_ffff_ffff,
    ensures
        final(out)@ == old(out)@ + one_decimal(tenths as nat),
{
    push_decimal(out, (tenths / 10) as u64);
    push_char(out, '.');
    let c = ((tenths % 10) as u8 + 48) as char;
    push_char(out, c);
    assert(final(out)@ =~= old(out)@ + one_decimal(tenths as nat));
}

/// Human-readable size of a file of `bytes` bytes.
pub fn dir_format_size(bytes: u64) -> (out: String)
    ensures
        out@ == size_text(bytes as nat),
{
    let mut out = String::new();
    if bytes < 1024 {
        push_decimal(&mut out, bytes);
        push_char(&mut out, ' ');
        push_char(&mut out, 'B');
    } else if bytes < 1048576 {
        let tenths = round_half_even(bytes as u128 * 10, 1024);
        push_one_decimal(&mut out, tenths);
        push_char(&mut out, ' ');
        push_char(&mut out, 'K');
        push_char(&mut out, 'B');
    } else {
        let v = nearest_f64_value(bytes);
        let tenths = round_half_even(v * 10, 1048576);
        push_one_decimal(&mut out, tenths);
        push_char(&mut out, ' ');
        push_char(&mut out, 'M');
        push_char(&mut out, 'B');
    }
    assert(out@ =~= size_text(bytes as nat));
    out
}


/// `secs` seconds after the epoch as `YYYY-MM-DD hh:mm` (UTC), the year
/// reduced modulo 2^32 and zero-padded to four digits.
pub open spec fn date_text(secs: nat) -> Seq<char> {
    let date = civil_date(secs / 86400);
    zero_padded((date.0 % 0x1_0000_0000) as nat, 4) + seq!['-'] + zero_padded(date.1 as nat, 2)
        + seq!['-'] + zero_padded(date.2 as nat, 2) + seq![' '] + zero_padded(
        (secs / 3600) % 24,
        2,
    ) + seq![':'] + zero_padded((secs / 60) % 60, 2)
}

/// Modification date of a listed file: empty when the time lies before the
/// epoch (`since_epoch` is `None`), else the date and time to the minute.
pub fn dir_format_date(since_epoch: Option<u64>) -> (out: String)
    ensures
        since_epoch is None ==> out@ == Seq::<char>::empty(),
        since_epoch matches Some(secs) ==> out@ == date_text(secs as nat),
{
    let mut out = String::new();
    let secs = match since_epoch {
        Some(s) => s,
        None => {
            return out;
        },
    };
    let min = (secs / 60) % 60;
    let hour = (secs / 3600) % 24;
    let (y, m, d) = dir_days_to_ymd(secs / 86400);
    push_decimal_padded(&mut out, y as u64, 4);
    push_char(&mut out, '-');
    push_decimal_padded(&mut out, m as u64, 2);
    push_char(&mut out, '-');
    push_decimal_padded(&mut out, d as u64, 2);
    push_char(&mut out, ' ');
    push_decimal_padded(&mut out, hour, 2);
    push_char(&mut out, ':');
    push_decimal_padded(&mut out, min, 2);
    assert(out@ =~= date_text(secs as nat));
    out
}


/// Metadata of a listed entry (symbolic links not followed).
pub struct EntryMeta {
    /// The entry is a directory.
    pub is_dir: bool,
    /// Size in bytes.
    pub len: u64,
    /// Modification time in whole seconds since the epoch; `None` when it is
    /// unknown or lies before the epoch.
    pub modified: Option<u64>,
}

/// What the listing reads of one directory entry.
pub struct ListingEntry {
    /// The file name as raw bytes; entries are ordered by it.
    pub name_bytes: Vec<u8>,
    /// The file name as text (invalid UTF-8 replaced); this is displayed.
    pub name: String,
    /// The entry's own file type is a directory; directories come first.
    pub sorts_as_dir: bool,
    /// Metadata, when it could be read.
    pub meta: Option<EntryMeta>,
}

/// Entry index `a` comes before entry index `b` in the listing.
pub open spec fn index_listed_before(es: Seq<ListingEntry>, a: usize, b: usize) -> bool {
    listed_before(es[a as int], es[b as int]) || (same_rank(es[a as int], es[b as int]) && a < b)
}

proof fn lemma_order_positions(es: Seq<ListingEntry>, p: Seq<usize>, i: int, j: int)
    requires
        is_listing_order(es, p),
        0 <= i < j < p.len(),
    ensures
        index_listed_before(es, p[i], p[j]),
        !index_listed_before(es, p[j], p[i]),
{
    let a = es[p[i] as int];
    let b = es[p[j] as int];
    lemma_rank_order(a, b, a);
    lemma_rank_order(b, a, b);
}

/// There is only one listing order: directories first, then by name, ties
/// in their original order, each entry exactly once.
pub proof fn lemma_listing_order_unique(es: Seq<ListingEntry>, p: Seq<usize>, q: Seq<usize>)
    requires
        is_listing_order(es, p),
        is_listing_order(es, q),
    ensures
        p == q,
{
    assert forall|i: int| 0 <= i < p.len() implies p[i] == q[i] by {
        lemma_listing_order_prefix(es, p, q, i);
    }
    assert(p =~= q);
}

proof fn lemma_listing_order_prefix(es: Seq<ListingEntry>, p: Seq<usize>, q: Seq<usize>, i: int)
    requires
        is_listing_order(es, p),
        is_listing_order(es, q),
        0 <= i < p.len(),
    ensures
        p[i] == q[i],
    decreases i,
{
    if i > 0 {
        lemma_listing_order_prefix(es, p, q, i - 1);
    }
    assert forall|t: int| 0 <= t < i implies p[t] == q[t] by {
        lemma_listing_order_prefix(es, p, q, t);
    }
    let a = p[i];
    let b = q[i];
    assert(a < es.len() && b < es.len());
    if a != b {
        assert(p.contains(b));
        let j = choose|j: int| 0 <= j < p.len() && p[j] == b;
        assert(q.contains(a));
        let k = choose|k: int| 0 <= k < q.len() && q[k] == a;
        if j < i {
            assert(q[j] == b);
        }
        if k < i {
            assert(p[k] == a);
        }
        lemma_order_positions(es, p, i, j);
        lemma_order_positions(es, q, i, k);
    }
}

/// Lexicographic order of byte strings (a proper prefix comes first).
pub open spec fn bytes_lt(a: Seq<u8>, b: Seq<u8>) -> bool
    decreases a.len(),
{
    if b.len() == 0 {
        false
    } else if a.len() == 0 {
        true
    } else if a[0] != b[0] {
        a[0] < b[0]
    } else {
        bytes_lt(a.drop_first(), b.drop_first())
    }
}

proof fn lemma_bytes_lt_irreflexive(a: Seq<u8>)
    ensures
        !bytes_lt(a, a),
    decreases a.len(),
{
    if a.len() > 0 {
        lemma_bytes_lt_irreflexive(a.drop_first());
    }
}

proof fn lemma_bytes_lt_total(a: Seq<u8>, b: Seq<u8>)
    ensures
        bytes_lt(a, b) || bytes_lt(b, a) || a == b,
    decreases a.len(),
{
    if a.len() > 0 && b.len() > 0 && a[0] == b[0] {
        lemma_bytes_lt_total(a.drop_first(), b.drop_first());
        if a.drop_first() == b.drop_first() {
            assert(a =~= seq![a[0]] + a.drop_first());
            assert(b =~= seq![b[0]] + b.drop_first());
        }
    } else if a.len() == 0 && b.len() == 0 {
        assert(a =~= b);
    }
}

proof fn lemma_bytes_lt_transitive(a: Seq<u8>, b: Seq<u8>, c: Seq<u8>)
    requires
        bytes_lt(a, b),
        bytes_lt(b, c),
    ensures
        bytes_lt(a, c),
    decreases a.len(),
{
    if a.len() > 0 && a[0] == b[0] && b[0] == c[0] {
        lemma_bytes_lt_transitive(a.drop_first(), b.drop_first(), c.drop_first());
    }
}

/// Entry `a` is listed before entry `b`: directories first, then by name.
pub open spec fn listed_before(a: ListingEntry, b: ListingEntry) -> bool {
    (a.sorts_as_dir && !b.sorts_as_dir) || (a.sorts_as_dir == b.sorts_as_dir && bytes_lt(
        a.name_bytes@,
        b.name_bytes@,
    ))
}

/// Neither entry is listed before the other.
pub open spec fn same_rank(a: ListingEntry, b: ListingEntry) -> bool {
    a.sorts_as_dir == b.sorts_as_dir && a.name_bytes@ == b.name_bytes@
}

proof fn lemma_rank_order(a: ListingEntry, b: ListingEntry, c: ListingEntry)
    ensures
        !listed_before(a, a),
        listed_before(a, b) || listed_before(b, a) || same_rank(a, b),
        same_rank(a, b) ==> !listed_before(a, b),
        listed_before(a, b) && listed_before(b, c) ==> listed_before(a, c),
        listed_before(a, b) && same_rank(b, c) ==> listed_before(a, c),
        same_rank(a, b) && listed_before(b, c) ==> listed_before(a, c),
{
    lemma_bytes_lt_irreflexive(a.name_bytes@);
    lemma_bytes_lt_total(a.name_bytes@, b.name_bytes@);
    if listed_before(a, b) && listed_before(b, c) && a.sorts_as_dir == c.sorts_as_dir {
        lemma_bytes_lt_transitive(a.name_bytes@, b.name_bytes@, c.name_bytes@);
    }
}

/// `p` lists the indices of `es` in listing order: every index once,
/// directories first, then by name, entries of the same rank in their
/// original order.
pub open spec fn is_listing_order(es: Seq<ListingEntry>, p: Seq<usize>) -> bool {
    &&& p.len() == es.len()
    &&& forall|i: int| 0 <= i < p.len() ==> #[trigger] p[i] < es.len()
    &&& forall|i: int, j: int| 0 <= i < j < p.len() ==> #[trigger] p[i] != #[trigger] p[j]
    &&& forall|m: usize| m < es.len() ==> #[trigger] p.contains(m)
    &&& forall|i: int, j: int|
        0 <= i < j < p.len() ==> !listed_before(#[trigger] es[p[j] as int], #[trigger] es[p[i] as int])
            && (same_rank(es[p[i] as int], es[p[j] as int]) ==> p[i] < p[j])
}

fn bytes_less(a: &Vec<u8>, b: &Vec<u8>) -> (r: bool)
    ensures
        r == bytes_lt(a@, b@),
{
    let mut i: usize = 0;
    assert(a@.skip(0) =~= a@ && b@.skip(0) =~= b@);
    while i < a.len() && i < b.len() && a[i] == b[i]
        invariant
            i <= a.len(),
            i <= b.len(),
            bytes_lt(a@, b@) == bytes_lt(a@.skip(i as int), b@.skip(i as int)),
        decreases a.len() - i,
    {
        assert(a@.skip(i as int).drop_first() =~= a@.skip(i + 1));
        assert(b@.skip(i as int).drop_first() =~= b@.skip(i + 1));
        i = i + 1;
    }
    if i == b.len() {
        false
    } else if i == a.len() {
        true
    } else {
        a[i] < b[i]
    }
}

fn is_listed_before(a: &ListingEntry, b: &ListingEntry) -> (r: bool)
    ensures
        r == listed_before(*a, *b),
{
    (a.sorts_as_dir && !b.sorts_as_dir) || (a.sorts_as_dir == b.sorts_as_dir && bytes_less(
        &a.name_bytes,
        &b.name_bytes,
    ))
}

/// The order in which the entries are listed, as indices into `entries`.
pub fn listing_order(entries: &Vec<ListingEntry>) -> (p: Vec<usize>)
    ensures
        is_listing_order(entries@, p@),
{
    let ghost es = entries@;
    let mut p: Vec<usize> = Vec::new();
    let mut k: usize = 0;
    while k < entries.len()
        invariant
            es == entries@,
            k <= entries.len(),
            p.len() == k,
            forall|i: int| 0 <= i < p.len() ==> #[trigger] p@[i] < k,
            forall|i: int, j: int| 0 <= i < j < p.len() ==> #[trigger] p@[i] != #[trigger] p@[j],
            forall|m: usize| m < k ==> #[trigger] p@.contains(m),
            forall|i: int, j: int|
                0 <= i < j < p.len() ==> !listed_before(
                    #[trigger] es[p@[j] as int],
                    #[trigger] es[p@[i] as int],
                ) && (same_rank(es[p@[i] as int], es[p@[j] as int]) ==> p@[i] < p@[j]),
        decreases entries.len() - k,
    {
        // first position whose entry comes after entry k
        let mut pos: usize = 0;
        while pos < p.len() && !is_listed_before(&entries[k], &entries[p[pos]])
            invariant
                es == entries@,
                k < entries.len(),
                pos <= p.len(),
                p.len() == k,
                forall|i: int| 0 <= i < p.len() ==> #[trigger] p@[i] < k,
                forall|i: int|
                    0 <= i < pos ==> !listed_before(es[k as int], #[trigger] es[p@[i] as int]),
            decreases p.len() - pos,
        {
            pos = pos + 1;
        }
        let ghost old_p = p@;
        let ghost x = es[k as int];
        proof {
            if pos < old_p.len() {
                assert(listed_before(x, es[old_p[pos as int] as int]));
            }
        }
        p.insert(pos, k);
        proof {
            assert forall|i: int| 0 <= i < p@.len() implies #[trigger] p@[i] < k + 1 by {
                if i > pos {
                    assert(p@[i] == old_p[i - 1]);
                }
            }
            assert forall|i: int, j: int| 0 <= i < j < p@.len() implies #[trigger] p@[i]
                != #[trigger] p@[j] by {
                if i < pos && j > pos {
                    assert(p@[j] == old_p[j - 1]);
                } else if i > pos {
                    assert(p@[i] == old_p[i - 1] && p@[j] == old_p[j - 1]);
                } else if j > pos {
                    assert(p@[j] == old_p[j - 1]);
                }
            }
            assert forall|m: usize| m < k + 1 implies #[trigger] p@.contains(m) by {
                if m == k {
                    assert(p@[pos as int] == k);
                } else {
                    assert(old_p.contains(m));
                    let t = choose|t: int| 0 <= t < old_p.len() && old_p[t] == m;
                    if t < pos {
                        assert(p@[t] == m);
                    } else {
                        assert(p@[t + 1] == m);
                    }
                }
            }
            assert forall|i: int, j: int| 0 <= i < j < p@.len() implies !listed_before(
                #[trigger] es[p@[j] as int],
                #[trigger] es[p@[i] as int],
            ) && (same_rank(es[p@[i] as int], es[p@[j] as int]) ==> p@[i] < p@[j]) by {
                if i == pos {
                    // x comes before old_p[pos], which is not after old_p[j - 1]
                    let f = es[old_p[pos as int] as int];
                    let b = es[old_p[j - 1] as int];
                    assert(p@[j] == old_p[j - 1]);
                    if j - 1 > pos {
                        assert(!listed_before(b, f));
                    }
                    lemma_rank_order(f, b, x);
                    lemma_rank_order(x, f, b);
                    lemma_rank_order(x, b, x);
                    lemma_rank_order(b, x, b);
                } else if j == pos {
                    let a = es[old_p[i] as int];
                    assert(!listed_before(x, a));
                } else if i > pos {
                    assert(p@[i] == old_p[i - 1] && p@[j] == old_p[j - 1]);
                } else if j > pos {
                    assert(p@[j] == old_p[j - 1]);
                }
            }
        }
        k = k + 1;
    }
    p
}


/// Page template of a directory listing.
pub const DIR_LISTING_HTML: &'static str = "<!DOCTYPE html>\n<html>\n<head>\n<meta charset=\"utf-8\">\n<meta name=\"viewport\" content=\"width=device-width, initial-scale=1\">\n<title>Index of PLACEHOLDER_PATH</title>\n<style>\nbody { font-family: system-ui, sans-serif; margin: 2em; }\ntable { border-collapse: collapse; }\ntd { padding: 0.2em 1.5em 0.2em 0; }\na { text-decoration: none; }\na.d { font-weight: bold; }\n.col-size, .col-date { color: #666; white-space: nowrap; }\n.col-size { text-align: right; }\n</style>\n</head>\n<body>\n<h1>Index of PLACEHOLDER_PATH</h1>\n<table>\nPLACEHOLDER_ROWS</table>\n</body>\n</html>\n";

/// Row that links to the parent directory.
pub const UP_ROW: &'static str = "<tr><td><a href=\"../\" class=\"up\">../</a></td><td class=\"col-size\"></td><td class=\"col-date\"></td></tr>\n";

/// Opening of an entry row, up to the link target.
pub const ROW_LINK: &'static str = "<tr><td><a href=\"";

/// Between the link target and its class.
pub const ROW_CLASS: &'static str = "\" class=\"";

/// Between the link class and the displayed name.
pub const ROW_NAME: &'static str = "\">";

/// Between the displayed name and the size.
pub const ROW_SIZE: &'static str = "</a></td><td class=\"col-size\">";

/// Between the size and the date.
pub const ROW_DATE: &'static str = "</td><td class=\"col-date\">";

/// Closing of an entry row.
pub const ROW_END: &'static str = "</td></tr>\n";

/// The entry is shown as a directory (by its metadata).
pub open spec fn shown_as_dir(e: ListingEntry) -> bool {
    e.meta matches Some(m) && m.is_dir
}

/// `"/"` for directories, nothing otherwise.
pub open spec fn dir_suffix(is_dir: bool) -> Seq<char> {
    if is_dir {
        seq!['/']
    } else {
        seq![]
    }
}

/// The size column: the size of a file whose metadata is known.
pub open spec fn size_cell(e: ListingEntry) -> Seq<char> {
    match e.meta {
        Some(m) => if m.is_dir {
            seq![]
        } else {
            size_text(m.len as nat)
        },
        None => seq![],
    }
}

/// The date column: the modification time, when known.
pub open spec fn date_cell(e: ListingEntry) -> Seq<char> {
    match e.meta {
        Some(m) => match m.modified {
            Some(secs) => date_text(secs as nat),
            None => seq![],
        },
        None => seq![],
    }
}

/// The table row of one entry.
pub open spec fn entry_row(e: ListingEntry) -> Seq<char> {
    let d = shown_as_dir(e);
    ROW_LINK@ + url_encoded(vstd::utf8::encode_utf8(e.name@)) + dir_suffix(d) + ROW_CLASS@ + (
    if d {
        seq!['d']
    } else {
        seq!['f']
    }) + ROW_NAME@ + html_escaped(e.name@) + dir_suffix(d) + ROW_SIZE@ + size_cell(e) + ROW_DATE@
        + date_cell(e) + ROW_END@
}

/// The rows of the entries `es[p[0]], es[p[1]], ...`.
pub open spec fn entry_rows(es: Seq<ListingEntry>, p: Seq<usize>) -> Seq<char>
    decreases p.len(),
{
    if p.len() == 0 {
        seq![]
    } else {
        entry_rows(es, p.drop_last()) + entry_row(es[p.last() as int])
    }
}

/// The link target and class part of an entry's row.
pub open spec fn row_head(e: ListingEntry) -> Seq<char> {
    let d = shown_as_dir(e);
    ROW_LINK@ + url_encoded(vstd::utf8::encode_utf8(e.name@)) + dir_suffix(d) + ROW_CLASS@ + (
    if d {
        seq!['d']
    } else {
        seq!['f']
    })
}

/// The name, size and date part of an entry's row.
pub open spec fn row_tail(e: ListingEntry) -> Seq<char> {
    let d = shown_as_dir(e);
    ROW_NAME@ + html_escaped(e.name@) + dir_suffix(d) + ROW_SIZE@ + size_cell(e) + ROW_DATE@
        + date_cell(e) + ROW_END@
}

fn push_row_head(rows: &mut String, e: &ListingEntry, is_dir: bool)
    requires
        is_dir == shown_as_dir(*e),
    ensures
        final(rows)@ == old(rows)@ + row_head(*e),
{
    rows.append(ROW_LINK);
    let encoded = dir_url_encode(e.name.as_str());
    rows.append(encoded.as_str());
    if is_dir {
        push_char(rows, '/');
    }
    rows.append(ROW_CLASS);
    push_char(rows, if is_dir { 'd' } else { 'f' });
    assert(final(rows)@ =~= old(rows)@ + row_head(*e));
}

fn push_row_tail(rows: &mut String, e: &ListingEntry, is_dir: bool)
    requires
        is_dir == shown_as_dir(*e),
    ensures
        final(rows)@ == old(rows)@ + row_tail(*e),
{
    rows.append(ROW_NAME);
    dir_html_escape(e.name.as_str(), rows);
    if is_dir {
        push_char(rows, '/');
    }
    rows.append(ROW_SIZE);
    let ghost mid = rows@;
    if let Some(m) = &e.meta {
        if !is_dir {
            let size = dir_format_size(m.len);
            rows.append(size.as_str());
        }
    }
    assert(rows@ =~= mid + size_cell(*e));
    rows.append(ROW_DATE);
    let ghost mid2 = rows@;
    if let Some(m) = &e.meta {
        let date = dir_format_date(m.modified);
        rows.append(date.as_str());
    }
    assert(rows@ =~= mid2 + date_cell(*e));
    rows.append(ROW_END);
    assert(final(rows)@ =~= old(rows)@ + row_tail(*e));
}

/// Appends the table row of `e`.
fn push_entry_row(rows: &mut String, e: &ListingEntry)
    ensures
        final(rows)@ == old(rows)@ + entry_row(*e),
{
    let is_dir = match &e.meta {
        Some(m) => m.is_dir,
        None => false,
    };
    push_row_head(rows, e, is_dir);
    push_row_tail(rows, e, is_dir);
    assert(entry_row(*e) =~= row_head(*e) + row_tail(*e));
    assert(final(rows)@ =~= old(rows)@ + entry_row(*e));
}

/// Marks where the page shows the directory's URL path.
pub const PLACEHOLDER_PATH: &'static str = "PLACEHOLDER_PATH";

/// Marks where the page holds the table rows.
pub const PLACEHOLDER_ROWS: &'static str = "PLACEHOLDER_ROWS";

/// The URL path of the listed directory, ending in `/`.
pub open spec fn directory_url(url_path: Seq<char>) -> Seq<char> {
    if url_path.len() > 0 && url_path.last() == '/' {
        url_path
    } else {
        url_path.push('/')
    }
}

/// All table rows: a link to the parent unless the directory is the root,
/// then the entries `es[p[0]], es[p[1]], ...`.
pub open spec fn listing_rows(es: Seq<ListingEntry>, p: Seq<usize>, dir_url: Seq<char>) -> Seq<
    char,
> {
    (if dir_url != seq!['/'] {
        UP_ROW@
    } else {
        seq![]
    }) + entry_rows(es, p)
}

/// The listing page: the template with every path placeholder replaced by
/// the escaped directory URL, then the first rows placeholder replaced by
/// the rows.
pub open spec fn listing_page(es: Seq<ListingEntry>, p: Seq<usize>, url_path: Seq<char>) -> Seq<
    char,
> {
    let dir_url = directory_url(url_path);
    replace_first(
        replace_all(DIR_LISTING_HTML@, PLACEHOLDER_PATH@, html_escaped(dir_url)),
        PLACEHOLDER_ROWS@,
        listing_rows(es, p, dir_url),
        1,
    )
}

/// The HTML page listing `entries` of the directory at `url_path`.
pub fn directory_listing(entries: &Vec<ListingEntry>, url_path: &str) -> (out: String)
    ensures
        exists|p: Seq<usize>|
            is_listing_order(entries@, p) && out@ == listing_page(entries@, p, url_path@),
{
    let order = listing_order(entries);
    let url_chars = chars_of(url_path);
    let mut dir_url = String::from_str(url_path);
    if !(url_chars.len() > 0 && url_chars[url_chars.len() - 1] == '/') {
        push_char(&mut dir_url, '/');
    }
    assert(dir_url@ == directory_url(url_path@));
    let dir_chars = chars_of(dir_url.as_str());
    let mut rows = String::new();
    let is_root = dir_chars.len() == 1 && dir_chars[0] == '/';
    if !is_root {
        rows.append(UP_ROW);
    }
    proof {
        if is_root {
            assert(dir_url@ =~= seq!['/']);
        } else {
            assert(dir_url@ != seq!['/']);
        }
    }
    let ghost rows_start = rows@;
    let mut i: usize = 0;
    assert(order@.take(0) =~= Seq::<usize>::empty());
    while i < order.len()
        invariant
            i <= order.len(),
            order@.len() == entries@.len(),
            forall|j: int| 0 <= j < order@.len() ==> #[trigger] order@[j] < entries@.len(),
            rows@ == rows_start + entry_rows(entries@, order@.take(i as int)),
        decreases order.len() - i,
    {
        push_entry_row(&mut rows, &entries[order[i]]);
        assert(order@.take(i + 1).drop_last() =~= order@.take(i as int));
        i = i + 1;
    }
    assert(order@.take(i as int) =~= order@);
    let mut path_escaped = String::new();
    dir_html_escape(dir_url.as_str(), &mut path_escaped);
    proof {
        reveal_strlit("PLACEHOLDER_PATH");
        reveal_strlit("PLACEHOLDER_ROWS");
    }
    let page = replace(DIR_LISTING_HTML, PLACEHOLDER_PATH, path_escaped.as_str());
    let out = replacen(page.as_str(), PLACEHOLDER_ROWS, rows.as_str(), 1);
    assert(out@ == listing_page(entries@, order@, url_path@));
    out
}


/// The character references that escaping writes.
pub open spec fn is_entity(pat: Seq<char>) -> bool {
    pat == seq!['&', 'a', 'm', 'p', ';'] || pat == seq!['&', 'l', 't', ';'] || pat == seq![
        '&',
        'g',
        't',
        ';',
    ] || pat == seq!['&', 'q', 'u', 'o', 't', ';']
}

/// HTML text that can neither open or close a tag nor end a quoted
/// attribute value: it holds no `<`, `>` or `"`, and every `&` in it begins
/// one of the entities `&amp;`, `&lt;`, `&gt;`, `&quot;`.
pub open spec fn is_inert_text(s: Seq<char>) -> bool {
    forall|i: int|
        #![trigger s[i]]
        0 <= i < s.len() ==> s[i] != '<' && s[i] != '>' && s[i] != '"' && (s[i] == '&'
            ==> exists|pat: Seq<char>| is_entity(pat) && #[trigger] occurs_at(s, i, pat))
}

/// Characters of a link target: unreserved characters, `%` and `/`.
pub open spec fn is_url_char(c: char) -> bool {
    ('A' <= c <= 'Z') || ('a' <= c <= 'z') || ('0' <= c <= '9') || c == '-' || c == '_' || c
        == '.' || c == '~' || c == '%' || c == '/'
}

/// Text made only of link-target characters.
pub open spec fn is_url_text(s: Seq<char>) -> bool {
    forall|i: int| #![trigger s[i]] 0 <= i < s.len() ==> is_url_char(s[i])
}

/// Characters of the size and date cells: digits, space, `.`, `-`, `:`,
/// `B`, `K` and `M`.
pub open spec fn is_plain_char(c: char) -> bool {
    ('0' <= c <= '9') || c == ' ' || c == '.' || c == '-' || c == ':' || c == 'B' || c == 'K'
        || c == 'M'
}

/// Text made only of size and date characters.
pub open spec fn is_plain_text(s: Seq<char>) -> bool {
    forall|i: int| #![trigger s[i]] 0 <= i < s.len() ==> is_plain_char(s[i])
}

/// The link target of an entry's row.
pub open spec fn entry_href(e: ListingEntry) -> Seq<char> {
    url_encoded(vstd::utf8::encode_utf8(e.name@)) + dir_suffix(shown_as_dir(e))
}

/// The class of an entry's link: `d` for directories, `f` otherwise.
pub open spec fn entry_class(e: ListingEntry) -> Seq<char> {
    if shown_as_dir(e) {
        seq!['d']
    } else {
        seq!['f']
    }
}

/// The link text of an entry's row.
pub open spec fn entry_text(e: ListingEntry) -> Seq<char> {
    html_escaped(e.name@) + dir_suffix(shown_as_dir(e))
}

/// The row of `e` is the fixed row markup around its link target, class,
/// link text, size and date, and none of these can act as markup.
pub open spec fn entry_row_is_inert(e: ListingEntry) -> bool {
    &&& entry_row(e) == ROW_LINK@ + entry_href(e) + ROW_CLASS@ + entry_class(e) + ROW_NAME@
        + entry_text(e) + ROW_SIZE@ + size_cell(e) + ROW_DATE@ + date_cell(e) + ROW_END@
    &&& is_url_text(entry_href(e))
    &&& entry_class(e) == seq!['d'] || entry_class(e) == seq!['f']
    &&& is_inert_text(entry_text(e))
    &&& is_plain_text(size_cell(e))
    &&& is_plain_text(date_cell(e))
}

proof fn lemma_occurs_in_concat(a: Seq<char>, b: Seq<char>, i: int, pat: Seq<char>)
    ensures
        occurs_at(a, i, pat) ==> occurs_at(a + b, i, pat),
        occurs_at(b, i, pat) ==> occurs_at(a + b, a.len() + i, pat),
{
    if occurs_at(a, i, pat) {
        assert((a + b).subrange(i, i + pat.len()) =~= a.subrange(i, i + pat.len()));
    }
    if occurs_at(b, i, pat) {
        assert((a + b).subrange(a.len() + i, a.len() + i + pat.len()) =~= b.subrange(
            i,
            i + pat.len(),
        ));
    }
}

proof fn lemma_inert_concat(a: Seq<char>, b: Seq<char>)
    requires
        is_inert_text(a),
        is_inert_text(b),
    ensures
        is_inert_text(a + b),
{
    let s = a + b;
    assert forall|i: int| #![trigger s[i]] 0 <= i < s.len() implies s[i] != '<' && s[i] != '>'
        && s[i] != '"' && (s[i] == '&' ==> exists|pat: Seq<char>|
        is_entity(pat) && #[trigger] occurs_at(s, i, pat)) by {
        if i < a.len() {
            assert(s[i] == a[i]);
            if a[i] == '&' {
                let pat = choose|pat: Seq<char>| is_entity(pat) && #[trigger] occurs_at(a, i, pat);
                lemma_occurs_in_concat(a, b, i, pat);
            }
        } else {
            let j = i - a.len();
            assert(s[i] == b[j]);
            if b[j] == '&' {
                let pat = choose|pat: Seq<char>| is_entity(pat) && #[trigger] occurs_at(b, j, pat);
                lemma_occurs_in_concat(a, b, j, pat);
            }
        }
    }
}

proof fn lemma_escaped_char_inert(c: char)
    ensures
        is_inert_text(html_escaped_char(c)),
{
    let b = html_escaped_char(c);
    if c == '&' || c == '<' || c == '>' || c == '"' {
        assert(b.subrange(0, b.len() as int) =~= b);
        assert(occurs_at(b, 0, b));
        assert(is_entity(b));
    }
}

/// Escaped text is inert: it holds no `<`, `>` or `"`, and each `&` in it
/// begins an entity.
pub proof fn lemma_html_escaped_inert(s: Seq<char>)
    ensures
        is_inert_text(html_escaped(s)),
    decreases s.len(),
{
    if s.len() > 0 {
        lemma_html_escaped_inert(s.drop_last());
        lemma_escaped_char_inert(s.last());
        lemma_inert_concat(html_escaped(s.drop_last()), html_escaped_char(s.last()));
    }
}

proof fn lemma_plain_concat(a: Seq<char>, b: Seq<char>)
    requires
        is_plain_text(a),
        is_plain_text(b),
    ensures
        is_plain_text(a + b),
{
    assert forall|i: int| #![trigger (a + b)[i]] 0 <= i < (a + b).len() implies is_plain_char(
        (a + b)[i],
    ) by {
        if i < a.len() {
            assert((a + b)[i] == a[i]);
        } else {
            assert((a + b)[i] == b[i - a.len()]);
        }
    }
}

proof fn lemma_decimal_plain(n: nat)
    ensures
        is_plain_text(decimal(n)),
    decreases n,
{
    if n >= 10 {
        lemma_decimal_plain(n / 10);
        let d = decimal(n / 10);
        assert(decimal(n) =~= d + seq![digit_char((n % 10) as int)]);
        lemma_plain_concat(d, seq![digit_char((n % 10) as int)]);
    }
}

proof fn lemma_zero_padded_plain(n: nat, width: nat)
    ensures
        is_plain_text(zero_padded(n, width)),
{
    lemma_decimal_plain(n);
    let d = decimal(n);
    if d.len() < width {
        let z = Seq::new((width - d.len()) as nat, |i: int| '0');
        lemma_plain_concat(z, d);
    }
}

proof fn lemma_size_text_plain(bytes: nat)
    ensures
        is_plain_text(size_text(bytes)),
{
    let t = if bytes < 1024 {
        bytes
    } else if bytes < 1048576 {
        round_half_even_div(bytes * 10, 1024)
    } else {
        round_half_even_div(nearest_f64(bytes) * 10, 1048576)
    };
    if bytes < 1024 {
        lemma_decimal_plain(bytes);
        lemma_plain_concat(decimal(bytes), seq![' ', 'B']);
    } else {
        lemma_decimal_plain(t / 10);
        let tail = seq!['.', digit_char((t % 10) as int)];
        lemma_plain_concat(decimal(t / 10), tail);
        let unit = if bytes < 1048576 {
            seq![' ', 'K', 'B']
        } else {
            seq![' ', 'M', 'B']
        };
        lemma_plain_concat(one_decimal(t), unit);
    }
}

proof fn lemma_date_text_plain(secs: nat)
    ensures
        is_plain_text(date_text(secs)),
{
    let date = civil_date(secs / 86400);
    let y = zero_padded((date.0 % 0x1_0000_0000) as nat, 4);
    let m = zero_padded(date.1 as nat, 2);
    let d = zero_padded(date.2 as nat, 2);
    let hh = zero_padded((secs / 3600) % 24, 2);
    let mm = zero_padded((secs / 60) % 60, 2);
    lemma_zero_padded_plain((date.0 % 0x1_0000_0000) as nat, 4);
    lemma_zero_padded_plain(date.1 as nat, 2);
    lemma_zero_padded_plain(date.2 as nat, 2);
    lemma_zero_padded_plain((secs / 3600) % 24, 2);
    lemma_zero_padded_plain((secs / 60) % 60, 2);
    lemma_plain_concat(y, seq!['-']);
    lemma_plain_concat(y + seq!['-'], m);
    lemma_plain_concat(y + seq!['-'] + m, seq!['-']);
    lemma_plain_concat(y + seq!['-'] + m + seq!['-'], d);
    lemma_plain_concat(y + seq!['-'] + m + seq!['-'] + d, seq![' ']);
    lemma_plain_concat(y + seq!['-'] + m + seq!['-'] + d + seq![' '], hh);
    lemma_plain_concat(y + seq!['-'] + m + seq!['-'] + d + seq![' '] + hh, seq![':']);
    lemma_plain_concat(y + seq!['-'] + m + seq!['-'] + d + seq![' '] + hh + seq![':'], mm);
}

proof fn lemma_entry_row_inert(e: ListingEntry)
    ensures
        entry_row_is_inert(e),
{
    let d = shown_as_dir(e);
    let enc = url_encoded(vstd::utf8::encode_utf8(e.name@));
    lemma_url_encoded_safe(vstd::utf8::encode_utf8(e.name@));
    let href = entry_href(e);
    assert forall|i: int| #![trigger href[i]] 0 <= i < href.len() implies is_url_char(href[i]) by {
        if i < enc.len() {
            assert(href[i] == enc[i]);
        } else {
            assert(href[i] == '/');
        }
    }
    lemma_html_escaped_inert(e.name@);
    lemma_inert_concat(html_escaped(e.name@), dir_suffix(d));
    match e.meta {
        Some(m) => {
            if !m.is_dir {
                lemma_size_text_plain(m.len as nat);
            }
            if let Some(secs) = m.modified {
                lemma_date_text_plain(secs as nat);
            }
        },
        None => {},
    }
    assert(entry_row(e) =~= ROW_LINK@ + entry_href(e) + ROW_CLASS@ + entry_class(e) + ROW_NAME@
        + entry_text(e) + ROW_SIZE@ + size_cell(e) + ROW_DATE@ + date_cell(e) + ROW_END@);
}

/// Nothing taken from a file name or from the URL path can act as markup on
/// a listing page: the page is the template with the HTML-escaped directory
/// path and the rows put in; and each entry's row is the fixed row markup
/// around a link target made only of unreserved characters, `%` and `/`, a
/// class `d` or `f`, the escaped name, and size and date cells made only of
/// digits, spaces and `.`, `-`, `:`, `B`, `K`, `M`.
pub proof fn lemma_listing_page_inert(es: Seq<ListingEntry>, p: Seq<usize>, url_path: Seq<char>)
    ensures
        listing_page(es, p, url_path) == replace_first(
            replace_all(DIR_LISTING_HTML@, PLACEHOLDER_PATH@, html_escaped(directory_url(url_path))),
            PLACEHOLDER_ROWS@,
            listing_rows(es, p, directory_url(url_path)),
            1,
        ),
        is_inert_text(html_escaped(directory_url(url_path))),
        forall|k: int| 0 <= k < p.len() ==> entry_row_is_inert(#[trigger] es[p[k] as int]),
{
    lemma_html_escaped_inert(directory_url(url_path));
    assert forall|k: int| 0 <= k < p.len() implies entry_row_is_inert(#[trigger] es[p[k] as int]) by {
        lemma_entry_row_inert(es[p[k] as int]);
    }
}

/// Names are ordered byte by byte: at the first position where two names
/// differ, the smaller byte comes first; and a name comes before every
/// longer name that starts with it (`app.js` before `app.js.map`).
pub proof fn lemma_name_order_lexicographic(a: Seq<u8>, b: Seq<u8>, k: int)
    ensures
        0 <= k < a.len() && k < b.len() && a.take(k) == b.take(k) && a[k] != b[k] ==> (bytes_lt(
            a,
            b,
        ) <==> a[k] < b[k]),
        a.len() < b.len() && b.take(a.len() as int) == a ==> bytes_lt(a, b) && !bytes_lt(b, a),
        !bytes_lt(a, a),
    decreases a.len(),
{
    lemma_bytes_lt_irreflexive(a);
    if 0 <= k < a.len() && k < b.len() && a.take(k) == b.take(k) && a[k] != b[k] {
        if k > 0 {
            assert(a[0] == a.take(k)[0] && b[0] == b.take(k)[0]);
            assert(a.drop_first().take(k - 1) =~= a.take(k).drop_first());
            assert(b.drop_first().take(k - 1) =~= b.take(k).drop_first());
            lemma_name_order_lexicographic(a.drop_first(), b.drop_first(), k - 1);
        }
    }
    if a.len() < b.len() && b.take(a.len() as int) == a {
        if a.len() > 0 {
            assert(b[0] == b.take(a.len() as int)[0]);
            assert(b.drop_first().take(a.len() - 1) =~= a.drop_first());
            lemma_name_order_lexicographic(a.drop_first(), b.drop_first(), k);
        }
    }
}

/// The listed directory's URL ends in exactly one added slash: a path that
/// already ends in `/` is kept as it is, any other gets one `/` appended; and
/// for such a path the page shows the escaped path itself.
pub proof fn lemma_directory_url_one_slash(es: Seq<ListingEntry>, p: Seq<usize>, url_path: Seq<char>)
    ensures
        url_path.len() > 0 && url_path.last() == '/' ==> directory_url(url_path) == url_path,
        !(url_path.len() > 0 && url_path.last() == '/') ==> directory_url(url_path)
            == url_path.push('/'),
        directory_url(url_path).len() > 0 && directory_url(url_path).last() == '/',
        url_path.len() > 0 && url_path.last() == '/' ==> listing_page(es, p, url_path)
            == replace_first(
            replace_all(DIR_LISTING_HTML@, PLACEHOLDER_PATH@, html_escaped(url_path)),
            PLACEHOLDER_ROWS@,
            listing_rows(es, p, url_path),
            1,
        ),
{
}

/// In listing order directories come before files, and entries of the same
/// kind come in byte order of their names, equal names in their original
/// order.
pub proof fn lemma_listing_order_dirs_first(es: Seq<ListingEntry>, p: Seq<usize>, i: int, j: int)
    requires
        is_listing_order(es, p),
        0 <= i < j < p.len(),
    ensures
        es[p[j] as int].sorts_as_dir ==> es[p[i] as int].sorts_as_dir,
        es[p[i] as int].sorts_as_dir == es[p[j] as int].sorts_as_dir ==> !bytes_lt(
            es[p[j] as int].name_bytes@,
            es[p[i] as int].name_bytes@,
        ),
        es[p[i] as int].sorts_as_dir == es[p[j] as int].sorts_as_dir && es[p[i] as int].name_bytes@
            == es[p[j] as int].name_bytes@ ==> p[i] < p[j],
{
    assert(!listed_before(es[p[j] as int], es[p[i] as int]));
}

} // verus!
