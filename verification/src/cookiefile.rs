//! The Netscape cookie file: one tab-separated line per cookie, as curl and wget
//! read it.
use vstd::prelude::*;
use crate::text::{split_on, lemma_split_concat, lemma_split_no_sep};

verus! {

/// A cookie as the Netscape file needs it; the expiry is in whole seconds.
#[derive(Debug)]
pub struct NetscapeCookie {
    pub domain: String,
    pub name: String,
    pub value: String,
    pub path: Option<String>,
    pub secure: Option<bool>,
    pub http_only: Option<bool>,
    /// Seconds since the epoch; `None` for a session cookie.
    pub expires: Option<u64>,
}

/// The decimal digit for `d < 10`.
pub open spec fn digit_char(d: int) -> char {
    (48 + d) as char
}

/// The decimal text of `n`.
pub open spec fn decimal(n: nat) -> Seq<char>
    decreases n,
{
    if n < 10 {
        seq![digit_char(n as int)]
    } else {
        decimal(n / 10).push(digit_char((n % 10) as int))
    }
}

/// `TRUE` or `FALSE`.
pub open spec fn flag_text(b: bool) -> Seq<char> {
    if b {
        "TRUE"@
    } else {
        "FALSE"@
    }
}

/// The line of a cookie: `#HttpOnly_` before the domain of an HTTP-only cookie,
/// then domain, whether subdomains match (the domain starts with a dot), path
/// (`/` by default), secure, expiry (0 for a session cookie), name and value,
/// separated by tabs.
pub open spec fn netscape_line(c: NetscapeCookie) -> Seq<char> {
    let d = c.domain@;
    (if c.http_only == Some(true) {
        "#HttpOnly_"@
    } else {
        Seq::empty()
    }) + d + "\t"@ + flag_text(d.len() > 0 && d[0] == '.') + "\t"@ + (match c.path {
        Some(p) => p@,
        None => "/"@,
    }) + "\t"@ + flag_text(c.secure == Some(true)) + "\t"@ + decimal(
        match c.expires {
            Some(e) => e as nat,
            None => 0,
        },
    ) + "\t"@ + c.name@ + "\t"@ + c.value@ + "\n"@
}

/// Whether `s` holds no tab.
pub open spec fn tab_free(s: Seq<char>) -> bool {
    forall|i: int| 0 <= i < s.len() ==> s[i] != '\t'
}

/// The fourth tab-separated piece of four tab-free columns and a rest.
proof fn lemma_fourth_column(a: Seq<char>, b: Seq<char>, p: Seq<char>, sf: Seq<char>, r: Seq<char>)
    requires
        tab_free(a),
        tab_free(b),
        tab_free(p),
        tab_free(sf),
    ensures
        split_on(a + seq!['\t'] + (b + seq!['\t'] + (p + seq!['\t'] + (sf + seq!['\t'] + r))), '\t').len() > 3,
        split_on(a + seq!['\t'] + (b + seq!['\t'] + (p + seq!['\t'] + (sf + seq!['\t'] + r))), '\t')[3]
            == sf,
{
    let t: Seq<char> = seq!['\t'];
    let r3 = sf + t + r;
    let r2 = p + t + r3;
    let r1 = b + t + r2;
    lemma_split_no_sep(a, '\t');
    lemma_split_no_sep(b, '\t');
    lemma_split_no_sep(p, '\t');
    lemma_split_no_sep(sf, '\t');
    lemma_split_concat(a, r1, '\t');
    lemma_split_concat(b, r2, '\t');
    lemma_split_concat(p, r3, '\t');
    lemma_split_concat(sf, r, '\t');
    crate::text::lemma_split_nonempty(r, '\t');
    assert(split_on(a + t + r1, '\t') =~= seq![a, b, p, sf] + split_on(r, '\t'));
}

/// A line's columns regrouped: the first four, each followed by a tab, then the
/// rest.
proof fn lemma_line_shape(
    a: Seq<char>,
    b: Seq<char>,
    p: Seq<char>,
    sf: Seq<char>,
    r: Seq<char>,
)
    ensures
        a + "\t"@ + b + "\t"@ + p + "\t"@ + sf + "\t"@ + r == a + seq!['\t'] + (b + seq!['\t'] + (p
            + seq!['\t'] + (sf + seq!['\t'] + r))),
{
    reveal_strlit("\t");
    let t: Seq<char> = seq!['\t'];
    assert("\t"@ =~= t);
    assert(a + t + b + t + p + t + sf + t + r =~= a + t + (b + t + (p + t + (sf + t + r))));
}

/// The tab-separated columns of a cookie's line: where the domain and the path
/// hold no tab, the fourth column, the secure flag, is `TRUE` exactly when the
/// cookie is marked secure and `FALSE` otherwise (a cookie marked not secure,
/// or not marked).
pub proof fn lemma_secure_column(c: NetscapeCookie)
    requires
        tab_free(c.domain@),
        c.path matches Some(p) ==> tab_free(p@),
    ensures
        split_on(netscape_line(c), '\t').len() > 3,
        split_on(netscape_line(c), '\t')[3] == (if c.secure == Some(true) {
            seq!['T', 'R', 'U', 'E']
        } else {
            seq!['F', 'A', 'L', 'S', 'E']
        }),
{
    reveal_strlit("#HttpOnly_");
    reveal_strlit("\t");
    reveal_strlit("TRUE");
    reveal_strlit("FALSE");
    reveal_strlit("/");
    let d = c.domain@;
    let a = (if c.http_only == Some(true) {
        "#HttpOnly_"@
    } else {
        Seq::empty()
    }) + d;
    let b = flag_text(d.len() > 0 && d[0] == '.');
    let p = match c.path {
        Some(p) => p@,
        None => "/"@,
    };
    let sf = flag_text(c.secure == Some(true));
    let r = decimal(
        match c.expires {
            Some(e) => e as nat,
            None => 0,
        },
    ) + "\t"@ + c.name@ + "\t"@ + c.value@ + "\n"@;
    let t: Seq<char> = seq!['\t'];
    let r3 = sf + t + r;
    let r2 = p + t + r3;
    let r1 = b + t + r2;
    lemma_line_shape(a, b, p, sf, r);
    assert(netscape_line(c) == a + "\t"@ + b + "\t"@ + p + "\t"@ + sf + "\t"@ + r);
    assert(netscape_line(c) == a + t + r1);
    assert(tab_free(a)) by {
        let h: Seq<char> = if c.http_only == Some(true) {
            "#HttpOnly_"@
        } else {
            Seq::empty()
        };
        assert forall|i: int| 0 <= i < a.len() implies a[i] != '\t' by {
            if i < h.len() {
                assert(a[i] == h[i]);
            } else {
                assert(a[i] == d[i - h.len()]);
            }
        }
    }
    assert(tab_free(b));
    assert(tab_free(p));
    assert(tab_free(sf));
    lemma_fourth_column(a, b, p, sf, r);
    assert(sf =~= (if c.secure == Some(true) {
        seq!['T', 'R', 'U', 'E']
    } else {
        seq!['F', 'A', 'L', 'S', 'E']
    }));
}

/// The lines of `cookies`, one after the other.
pub open spec fn netscape_lines(cookies: Seq<NetscapeCookie>) -> Seq<char>
    decreases cookies.len(),
{
    if cookies.len() == 0 {
        Seq::empty()
    } else {
        netscape_lines(cookies.drop_last()) + netscape_line(cookies.last())
    }
}

/// The text of a Netscape cookie file: its header line, then the cookie lines.
pub open spec fn netscape_text(cookies: Seq<NetscapeCookie>) -> Seq<char> {
    "# Netscape HTTP Cookie File\n"@ + netscape_lines(cookies)
}

/// The decimal digit for `d`.
fn digit(d: u64) -> (res: char)
    requires
        d < 10,
    ensures
        res == digit_char(d as int),
{
    ((48 + d) as u8) as char
}

/// The decimal text of `n`.
fn decimal_chars(n: u64) -> (res: Vec<char>)
    ensures
        res@ == decimal(n as nat),
    decreases n,
{
    if n < 10 {
        let mut v: Vec<char> = Vec::new();
        v.push(digit(n));
        assert(v@ =~= seq![digit_char(n as int)]);
        v
    } else {
        let mut v = decimal_chars(n / 10);
        v.push(digit(n % 10));
        v
    }
}

/// The line of one cookie.
pub fn cookie_line(c: &NetscapeCookie) -> (res: String)
    ensures
        res@ == netscape_line(*c),
{
    let mut res = String::new();
    if c.http_only == Some(true) {
        res.append("#HttpOnly_");
    }
    res.append(c.domain.as_str());
    res.append("\t");
    let d = crate::text::chars_of(c.domain.as_str());
    if d.len() > 0 && d[0] == '.' {
        res.append("TRUE");
    } else {
        res.append("FALSE");
    }
    res.append("\t");
    match &c.path {
        Some(p) => res.append(p.as_str()),
        None => res.append("/"),
    }
    res.append("\t");
    if c.secure == Some(true) {
        res.append("TRUE");
    } else {
        res.append("FALSE");
    }
    res.append("\t");
    let e: u64 = match c.expires {
        Some(e) => e,
        None => 0,
    };
    let digits = crate::text::string_of(&decimal_chars(e));
    res.append(digits.as_str());
    res.append("\t");
    res.append(c.name.as_str());
    res.append("\t");
    res.append(c.value.as_str());
    res.append("\n");
    assert(res@ =~= netscape_line(*c));
    res
}

/// The text of the Netscape cookie file of `cookies`.
pub fn netscape_document(cookies: &Vec<NetscapeCookie>) -> (res: String)
    ensures
        res@ == netscape_text(cookies@),
{
    let mut res = String::from_str("# Netscape HTTP Cookie File\n");
    let mut i: usize = 0;
    assert(cookies@.take(0) =~= Seq::<NetscapeCookie>::empty());
    while i < cookies.len()
        invariant
            i <= cookies.len(),
            res@ == "# Netscape HTTP Cookie File\n"@ + netscape_lines(cookies@.take(i as int)),
        decreases cookies.len() - i,
    {
        let line = cookie_line(&cookies[i]);
        res.append(line.as_str());
        proof {
            assert(cookies@.take(i + 1).drop_last() =~= cookies@.take(i as int));
            assert(cookies@.take(i + 1).last() == cookies@[i as int]);
        }
        i = i + 1;
        assert(res@ =~= "# Netscape HTTP Cookie File\n"@ + netscape_lines(cookies@.take(i as int)));
    }
    assert(cookies@.take(cookies.len() as int) =~= cookies@);
    res
}

} // verus!
