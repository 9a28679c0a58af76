use shwoop::calendar::dir_days_to_ymd;
use shwoop::listing::{
    directory_listing, dir_format_date, dir_format_size, dir_html_escape, dir_url_encode,
    listing_order, EntryMeta, ListingEntry, DIR_LISTING_HTML, UP_ROW,
};

#[test]
fn days_to_dates() {
    assert_eq!(dir_days_to_ymd(0), (1970, 1, 1));
    assert_eq!(dir_days_to_ymd(59), (1970, 3, 1));
    assert_eq!(dir_days_to_ymd(11016), (2000, 2, 29));
    assert_eq!(dir_days_to_ymd(19782), (2024, 2, 29));
    assert_eq!(dir_days_to_ymd(47482), (2100, 1, 1));
    assert_eq!(dir_days_to_ymd(2932896), (9999, 12, 31));
}

#[test]
fn days_to_dates_agree_with_a_day_by_day_count() {
    let mut y: u32 = 1970;
    let mut m: u32 = 1;
    let mut d: u32 = 1;
    for days in 0..200_000u64 {
        assert_eq!(dir_days_to_ymd(days), (y, m, d), "day {days}");
        let leap = y % 4 == 0 && (y % 100 != 0 || y % 400 == 0);
        let len = match m {
            2 => if leap { 29 } else { 28 },
            4 | 6 | 9 | 11 => 30,
            _ => 31,
        };
        d += 1;
        if d > len {
            d = 1;
            m += 1;
            if m > 12 {
                m = 1;
                y += 1;
            }
        }
    }
}

#[test]
fn dates() {
    assert_eq!(dir_format_date(Some(0)), "1970-01-01 00:00");
    assert_eq!(dir_format_date(Some(951825599)), "2000-02-29 11:59");
    assert_eq!(dir_format_date(Some(1234567890)), "2009-02-13 23:31");
    assert_eq!(dir_format_date(Some(253402300799)), "9999-12-31 23:59");
    assert_eq!(dir_format_date(None), "");
}

#[test]
fn small_sizes_in_bytes() {
    assert_eq!(dir_format_size(0), "0 B");
    assert_eq!(dir_format_size(1023), "1023 B");
    assert_eq!(dir_format_size(1024), "1.0 KB");
    assert_eq!(dir_format_size(1536), "1.5 KB");
    assert_eq!(dir_format_size(1048575), "1024.0 KB");
    assert_eq!(dir_format_size(1048576), "1.0 MB");
}

fn float_size(bytes: u64) -> String {
    if bytes < 1024 {
        format!("{bytes} B")
    } else if bytes < 1024 * 1024 {
        format!("{:.1} KB", bytes as f64 / 1024.0)
    } else {
        format!("{:.1} MB", bytes as f64 / (1024.0 * 1024.0))
    }
}

#[test]
fn sizes_match_float_formatting() {
    let mut samples: Vec<u64> = (0..5000u64).collect();
    // every tie of the KiB range, and values around them
    for k in 0..1024u64 {
        let tie = k * 1024 + 51;
        samples.extend([tie, tie + 1, k * 1024 + 512, k * 1024 + 563]);
    }
    let mut x: u64 = 0x9e37_79b9_7f4a_7c15;
    for _ in 0..20000 {
        x ^= x << 13;
        x ^= x >> 7;
        x ^= x << 17;
        samples.push(x);
        samples.push(x >> (x % 64));
    }
    for shift in 0..64u32 {
        let p = 1u64 << shift;
        samples.extend([p, p - 1, p + 1, p.wrapping_mul(3) / 2]);
    }
    samples.extend([u64::MAX, u64::MAX - 1, (1u64 << 53) + 1, (1u64 << 54) + 2, 104_857, 1_153_433]);
    for b in samples {
        assert_eq!(dir_format_size(b), float_size(b), "size {b}");
    }
}

#[test]
fn escaping() {
    let mut out = String::from(">");
    dir_html_escape("a&b<c>\"d'", &mut out);
    assert_eq!(out, ">a&amp;b&lt;c&gt;&quot;d'");
}

/// Percent-decoding, as a browser does it for a link target.
fn percent_decode(s: &str) -> Vec<u8> {
    let b = s.as_bytes();
    let mut out = Vec::new();
    let mut i = 0;
    while i < b.len() {
        if b[i] == b'%' && i + 2 < b.len() {
            let hex = std::str::from_utf8(&b[i + 1..i + 3]).unwrap();
            out.push(u8::from_str_radix(hex, 16).unwrap());
            i += 3;
        } else {
            out.push(b[i]);
            i += 1;
        }
    }
    out
}

#[test]
fn url_encoding_round_trips() {
    for name in ["plain.txt", "a b&c", "x<y>\"z'", "é/ü?#%", "%41", ""] {
        let encoded = dir_url_encode(name);
        assert_eq!(percent_decode(&encoded), name.as_bytes());
        let reserved = name
            .bytes()
            .filter(|b| !(b.is_ascii_alphanumeric() || b"-_.~".contains(b)))
            .count();
        assert_eq!(encoded.len(), name.len() + 2 * reserved);
    }
}

#[test]
fn listing_names_cannot_act_as_markup() {
    let name = "<script>\"&amp;'</script>";
    let entries = vec![entry(name, false, 5, Some(0))];
    let page = directory_listing(&entries, "/a\"<b>&/");
    assert!(!page.contains("<script>"));
    assert!(page.contains("<a href=\"%3Cscript%3E%22%26amp%3B%27%3C%2Fscript%3E\" class=\"f\">&lt;script&gt;&quot;&amp;amp;'&lt;/script&gt;</a>"));
    assert!(page.contains("Index of /a&quot;&lt;b&gt;&amp;/"));
}

#[test]
fn url_encoding() {
    assert_eq!(dir_url_encode("Az09-_.~"), "Az09-_.~");
    assert_eq!(dir_url_encode("a b"), "a%20b");
    assert_eq!(dir_url_encode("é/"), "%C3%A9%2F");
    assert_eq!(dir_url_encode(""), "");
}

fn entry(name: &str, dir: bool, len: u64, modified: Option<u64>) -> ListingEntry {
    ListingEntry {
        name_bytes: name.as_bytes().to_vec(),
        name: name.to_string(),
        sorts_as_dir: dir,
        meta: Some(EntryMeta { is_dir: dir, len, modified }),
    }
}

#[test]
fn directories_first_then_by_name() {
    let entries = vec![
        entry("b.txt", false, 1, None),
        entry("zdir", true, 0, None),
        entry("a.txt", false, 1, None),
        entry("Adir", true, 0, None),
        entry("B", false, 1, None),
    ];
    let order = listing_order(&entries);
    assert_eq!(order, vec![3, 1, 4, 2, 0]);
}

#[test]
fn listing_page() {
    let entries = vec![
        entry("b c.txt", false, 2048, Some(0)),
        entry("sub", true, 4096, Some(86400)),
        ListingEntry {
            name_bytes: b"x<y".to_vec(),
            name: "x<y".to_string(),
            sorts_as_dir: false,
            meta: None,
        },
    ];
    let page = directory_listing(&entries, "/docs");
    let rows = String::new()
        + UP_ROW
        + "<tr><td><a href=\"sub/\" class=\"d\">sub/</a></td><td class=\"col-size\"></td><td class=\"col-date\">1970-01-02 00:00</td></tr>\n"
        + "<tr><td><a href=\"b%20c.txt\" class=\"f\">b c.txt</a></td><td class=\"col-size\">2.0 KB</td><td class=\"col-date\">1970-01-01 00:00</td></tr>\n"
        + "<tr><td><a href=\"x%3Cy\" class=\"f\">x&lt;y</a></td><td class=\"col-size\"></td><td class=\"col-date\"></td></tr>\n";
    let expected = DIR_LISTING_HTML
        .replace("PLACEHOLDER_PATH", "/docs/")
        .replacen("PLACEHOLDER_ROWS", &rows, 1);
    assert_eq!(page, expected);
}

#[test]
fn root_listing_has_no_parent_link() {
    let page = directory_listing(&vec![], "/");
    assert!(!page.contains("class=\"up\""));
    assert!(page.contains("Index of /<"));
}
