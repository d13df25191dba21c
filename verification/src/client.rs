//! What the fetch from the server decides: the URL of a user's record, whether
//! a status is a success, the text kept of a failed response, and whether the
//! record holds a payload.
use vstd::prelude::*;
use vstd::utf8::{encode_utf8, encode_scalar, char_is_scalar};
use crate::text::{chars_of, string_of};

verus! {

/// The record the server returns for a user.
#[derive(Debug)]
pub struct EncryptedResponse {
    /// The base64 payload.
    pub encrypted: String,
    /// The crypto type the server reports, if any.
    pub crypto_type: Option<String>,
}

/// `s` without the trailing occurrences of `c`, as `str::trim_end_matches` gives it.
pub open spec fn trim_trailing(s: Seq<char>, c: char) -> Seq<char>
    decreases s.len(),
{
    if s.len() > 0 && s.last() == c {
        trim_trailing(s.drop_last(), c)
    } else {
        s
    }
}

/// The URL of a user's record: the base URL without trailing slashes, then
/// `/get/` and the UUID.
pub open spec fn record_url(base_url: Seq<char>, uuid: Seq<char>) -> Seq<char> {
    trim_trailing(base_url, '/') + "/get/"@ + uuid
}

/// The URL of the record of `uuid` on the server at `base_url`.
pub fn fetch_url(base_url: &str, uuid: &str) -> (res: String)
    ensures
        res@ == record_url(base_url@, uuid@),
{
    let v = chars_of(base_url);
    let mut n = v.len();
    assert(v@.take(v.len() as int) =~= v@);
    while n > 0 && v[n - 1] == '/'
        invariant
            n <= v.len(),
            trim_trailing(v@.take(n as int), '/') == trim_trailing(v@, '/'),
        decreases n,
    {
        assert(v@.take(n as int).drop_last() =~= v@.take(n - 1));
        n = n - 1;
    }
    assert(trim_trailing(v@.take(n as int), '/') == v@.take(n as int));
    let base = crate::text::sub_chars(&v, 0, n);
    let mut res = string_of(&base);
    res.append("/get/");
    res.append(uuid);
    assert(v@.take(v.len() as int) =~= v@);
    res
}

/// Whether an HTTP status is a success, as `StatusCode::is_success` decides: 200
/// to 299.
pub fn is_success_status(status: u16) -> (res: bool)
    ensures
        res == (200 <= status <= 299),
{
    200 <= status && status <= 299
}

/// Whether the record holds a payload.
pub fn has_payload(resp: &EncryptedResponse) -> (res: bool)
    ensures
        res == (resp.encrypted@.len() > 0),
{
    !resp.encrypted.as_str().is_empty()
}

/// The most bytes of a failed response's body that are kept.
pub const MAX_ERROR_BODY: usize = 500;

/// Whether `n` bytes of the UTF-8 text of `s` end at a character boundary.
pub open spec fn ends_at_char(s: Seq<char>, n: int) -> bool {
    exists|k: int| 0 <= k <= s.len() && #[trigger] encode_utf8(s.take(k)).len() == n
}

/// The first `n` bytes of the UTF-8 text of `s`, as characters, where they end at
/// a character boundary.
pub open spec fn chars_of_bytes(s: Seq<char>, n: int) -> Seq<char> {
    s.take(choose|k: int| 0 <= k <= s.len() && #[trigger] encode_utf8(s.take(k)).len() == n)
}

/// The text kept of a failed response's body: at most 500 bytes, and where it
/// was longer, a note that it was cut.
pub open spec fn kept_error_body(body: Seq<char>) -> Seq<char> {
    if encode_utf8(body).len() > MAX_ERROR_BODY {
        chars_of_bytes(body, MAX_ERROR_BODY as int) + "... (truncated)"@
    } else {
        body
    }
}

/// The number of bytes in the UTF-8 encoding of `c`.
pub open spec fn utf8_width(c: char) -> int {
    let u = c as u32;
    if u <= 0x7F {
        1
    } else if u <= 0x7FF {
        2
    } else if u <= 0xFFFF {
        3
    } else {
        4
    }
}

proof fn lemma_encode_concat(a: Seq<char>, b: Seq<char>)
    ensures
        encode_utf8(a + b) == encode_utf8(a) + encode_utf8(b),
    decreases a.len(),
{
    if a.len() == 0 {
        assert(a + b =~= b);
        assert(encode_utf8(a) =~= Seq::<u8>::empty());
        assert(encode_utf8(a) + encode_utf8(b) =~= encode_utf8(b));
    } else {
        lemma_encode_concat(a.drop_first(), b);
        assert((a + b).drop_first() =~= a.drop_first() + b);
        assert(encode_utf8(a + b) =~= encode_utf8(a) + encode_utf8(b));
    }
}

proof fn lemma_encode_push(s: Seq<char>, c: char)
    ensures
        encode_utf8(s.push(c)).len() == encode_utf8(s).len() + utf8_width(c),
{
    lemma_encode_concat(s, seq![c]);
    assert(s.push(c) =~= s + seq![c]);
    assert(seq![c].drop_first() =~= Seq::<char>::empty());
    char_is_scalar(c);
    assert(encode_utf8(seq![c].drop_first()) =~= Seq::<u8>::empty());
    assert(seq![c][0] == c);
    assert(encode_utf8(seq![c]) =~= encode_scalar(c as u32));
}

proof fn lemma_encode_prefix_monotone(s: Seq<char>, j: int, k: int)
    requires
        0 <= j <= k <= s.len(),
    ensures
        encode_utf8(s.take(j)).len() <= encode_utf8(s.take(k)).len(),
        j < k ==> encode_utf8(s.take(j)).len() < encode_utf8(s.take(k)).len(),
    decreases k - j,
{
    if j < k {
        lemma_encode_prefix_monotone(s, j, k - 1);
        assert(s.take(k) =~= s.take(k - 1).push(s[k - 1]));
        lemma_encode_push(s.take(k - 1), s[k - 1]);
    }
}

/// The byte width of `c` in UTF-8.
fn char_width(c: char) -> (res: usize)
    ensures
        res as int == utf8_width(c),
{
    let u = c as u32;
    if u <= 0x7F {
        1
    } else if u <= 0x7FF {
        2
    } else if u <= 0xFFFF {
        3
    } else {
        4
    }
}

/// Cuts a failed response's body to 500 bytes, noting the cut. The cut must fall
/// between characters, as `String::truncate` demands.
pub fn truncate_error_body(body: String) -> (res: String)
    requires
        encode_utf8(body@).len() > MAX_ERROR_BODY ==> ends_at_char(body@, MAX_ERROR_BODY as int),
    ensures
        res@ == kept_error_body(body@),
{
    let v = chars_of(body.as_str());
    let mut i: usize = 0;
    let mut total: usize = 0;
    assert(v@.take(0) =~= Seq::<char>::empty());
    assert(encode_utf8(v@.take(0)) =~= Seq::<u8>::empty());
    while i < v.len() && total < MAX_ERROR_BODY
        invariant
            v@ == body@,
            encode_utf8(v@).len() > MAX_ERROR_BODY ==> ends_at_char(v@, MAX_ERROR_BODY as int),
            i <= v.len(),
            total as int == encode_utf8(v@.take(i as int)).len(),
            total <= MAX_ERROR_BODY,
        decreases v.len() - i,
    {
        let w = char_width(v[i]);
        proof {
            assert(v@.take(i + 1) =~= v@.take(i as int).push(v@[i as int]));
            lemma_encode_push(v@.take(i as int), v@[i as int]);
            if total + w > MAX_ERROR_BODY {
                assert(v@.take(v.len() as int) =~= v@);
                lemma_encode_prefix_monotone(v@, i + 1, v.len() as int);
                let k = choose|k: int|
                    0 <= k <= v@.len() && #[trigger] encode_utf8(v@.take(k)).len()
                        == MAX_ERROR_BODY as int;
                if k <= i {
                    lemma_encode_prefix_monotone(v@, k, i as int);
                } else {
                    lemma_encode_prefix_monotone(v@, i + 1, k);
                }
            }
        }
        total = total + w;
        i = i + 1;
    }
    if i == v.len() {
        assert(v@.take(v.len() as int) =~= v@);
        return body;
    }
    proof {
        assert(v@.take(v.len() as int) =~= v@);
        lemma_encode_prefix_monotone(v@, i as int, v.len() as int);
    }
    let kept = crate::text::sub_chars(&v, 0, i);
    let mut res = string_of(&kept);
    res.append("... (truncated)");
    proof {
        let c = choose|c: int|
            0 <= c <= body@.len() && #[trigger] encode_utf8(body@.take(c)).len() == MAX_ERROR_BODY as int;
        if c < i {
            lemma_encode_prefix_monotone(v@, c, i as int);
        } else if c > i {
            lemma_encode_prefix_monotone(v@, i as int, c);
        }
        assert(kept@ =~= body@.take(i as int));
    }
    res
}

} // verus!
