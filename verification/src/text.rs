//! Character-level helpers: splitting, trimming and case folding.
use vstd::prelude::*;

verus! {

/// The pieces of `s` between occurrences of `sep`, as `str::split` yields them.
pub open spec fn split_on(s: Seq<char>, sep: char) -> Seq<Seq<char>>
    decreases s.len(),
{
    if s.len() == 0 {
        seq![Seq::<char>::empty()]
    } else {
        let init = split_on(s.drop_last(), sep);
        if s.last() == sep {
            init.push(Seq::<char>::empty())
        } else {
            init.update(init.len() - 1, init.last().push(s.last()))
        }
    }
}

/// Splitting always yields at least one piece.
pub proof fn lemma_split_nonempty(s: Seq<char>, sep: char)
    ensures
        split_on(s, sep).len() >= 1,
    decreases s.len(),
{
    if s.len() > 0 {
        lemma_split_nonempty(s.drop_last(), sep);
    }
}

/// A sequence without the separator splits into itself.
pub proof fn lemma_split_no_sep(s: Seq<char>, sep: char)
    requires
        forall|i: int| 0 <= i < s.len() ==> s[i] != sep,
    ensures
        split_on(s, sep) == seq![s],
    decreases s.len(),
{
    if s.len() > 0 {
        lemma_split_no_sep(s.drop_last(), sep);
        assert(s.drop_last().push(s.last()) =~= s);
    } else {
        assert(s =~= Seq::<char>::empty());
    }
}

/// Splitting at one occurrence of the separator splits both sides independently.
pub proof fn lemma_split_concat(x: Seq<char>, y: Seq<char>, sep: char)
    ensures
        split_on(x + seq![sep] + y, sep) == split_on(x, sep) + split_on(y, sep),
    decreases y.len(),
{
    let s = x + seq![sep] + y;
    lemma_split_nonempty(y, sep);
    if y.len() == 0 {
        assert(s.drop_last() =~= x);
        assert(split_on(y, sep) =~= seq![Seq::<char>::empty()]);
        assert(split_on(s, sep) =~= split_on(x, sep) + split_on(y, sep));
    } else {
        let y2 = y.drop_last();
        lemma_split_concat(x, y2, sep);
        lemma_split_nonempty(y2, sep);
        lemma_split_nonempty(x, sep);
        assert(s.drop_last() =~= x + seq![sep] + y2);
        assert(s.last() == y.last());
        assert(split_on(s, sep) =~= split_on(x, sep) + split_on(y, sep));
    }
}


/// A sequence that splits into a single piece holds no separator.
pub proof fn lemma_split_single(s: Seq<char>, sep: char)
    requires
        split_on(s, sep).len() == 1,
    ensures
        split_on(s, sep) == seq![s],
{
    if exists|i: int| 0 <= i < s.len() && s[i] == sep {
        let i = choose|i: int| 0 <= i < s.len() && s[i] == sep;
        let x = s.take(i);
        let y = s.skip(i + 1);
        assert(s =~= x + seq![sep] + y);
        lemma_split_concat(x, y, sep);
        lemma_split_nonempty(x, sep);
        lemma_split_nonempty(y, sep);
    } else {
        lemma_split_no_sep(s, sep);
    }
}

/// The non-empty entries of `ps`, in order.
pub open spec fn keep_nonempty(ps: Seq<Seq<char>>) -> Seq<Seq<char>>
    decreases ps.len(),
{
    if ps.len() == 0 {
        Seq::empty()
    } else {
        let init = keep_nonempty(ps.drop_last());
        if ps.last().len() > 0 {
            init.push(ps.last())
        } else {
            init
        }
    }
}

/// How `keep_nonempty` extends by one entry.
pub proof fn lemma_keep_nonempty_push(ps: Seq<Seq<char>>, x: Seq<char>)
    ensures
        keep_nonempty(ps.push(x)) == if x.len() > 0 {
            keep_nonempty(ps).push(x)
        } else {
            keep_nonempty(ps)
        },
{
    assert(ps.push(x).drop_last() =~= ps);
}

/// The characters that `char::is_whitespace` accepts: the Unicode White_Space property.
pub open spec fn is_white_space(c: char) -> bool {
    let u = c as u32;
    ||| 0x9 <= u <= 0xD
    ||| u == 0x20
    ||| u == 0x85
    ||| u == 0xA0
    ||| u == 0x1680
    ||| 0x2000 <= u <= 0x200A
    ||| u == 0x2028
    ||| u == 0x2029
    ||| u == 0x202F
    ||| u == 0x205F
    ||| u == 0x3000
}

/// `s` without its leading white space.
pub open spec fn trim_start(s: Seq<char>) -> Seq<char>
    decreases s.len(),
{
    if s.len() > 0 && is_white_space(s[0]) {
        trim_start(s.drop_first())
    } else {
        s
    }
}

/// `s` without its trailing white space.
pub open spec fn trim_end(s: Seq<char>) -> Seq<char>
    decreases s.len(),
{
    if s.len() > 0 && is_white_space(s.last()) {
        trim_end(s.drop_last())
    } else {
        s
    }
}

/// `s` without leading and trailing white space, as `str::trim` gives it.
pub open spec fn trim(s: Seq<char>) -> Seq<char> {
    trim_end(trim_start(s))
}

proof fn lemma_trim_start_at(s: Seq<char>, i: int)
    requires
        0 <= i <= s.len(),
        forall|k: int| 0 <= k < i ==> is_white_space(#[trigger] s[k]),
        i == s.len() || !is_white_space(s[i]),
    ensures
        trim_start(s) == s.skip(i),
    decreases i,
{
    if i == 0 {
        assert(s.skip(0) =~= s);
    } else {
        let t = s.drop_first();
        assert forall|k: int| 0 <= k < i - 1 implies is_white_space(#[trigger] t[k]) by {
            assert(t[k] == s[k + 1]);
        }
        lemma_trim_start_at(t, i - 1);
        assert(t.skip(i - 1) =~= s.skip(i));
    }
}

proof fn lemma_trim_end_at(s: Seq<char>, j: int)
    requires
        0 <= j <= s.len(),
        forall|k: int| j <= k < s.len() ==> is_white_space(#[trigger] s[k]),
        j == 0 || !is_white_space(s[j - 1]),
    ensures
        trim_end(s) == s.take(j),
    decreases s.len() - j,
{
    if j == s.len() {
        assert(s.take(j) =~= s);
    } else {
        let t = s.drop_last();
        assert forall|k: int| j <= k < t.len() implies is_white_space(#[trigger] t[k]) by {
            assert(t[k] == s[k]);
        }
        lemma_trim_end_at(t, j);
        assert(t.take(j) =~= s.take(j));
    }
}

/// Whether `c` is white space, as `char::is_whitespace` decides it.
pub fn is_white_space_char(c: char) -> (res: bool)
    ensures
        res == is_white_space(c),
{
    let u = c as u32;
    (0x9 <= u && u <= 0xD) || u == 0x20 || u == 0x85 || u == 0xA0 || u == 0x1680 || (0x2000 <= u
        && u <= 0x200A) || u == 0x2028 || u == 0x2029 || u == 0x202F || u == 0x205F || u == 0x3000
}

/// The characters of `v` from `start` up to `end`.
pub fn sub_chars(v: &Vec<char>, start: usize, end: usize) -> (res: Vec<char>)
    requires
        start <= end <= v.len(),
    ensures
        res@ == v@.subrange(start as int, end as int),
{
    let mut res: Vec<char> = Vec::new();
    let mut i: usize = start;
    while i < end
        invariant
            start <= i <= end <= v.len(),
            res@ == v@.subrange(start as int, i as int),
        decreases end - i,
    {
        res.push(v[i]);
        i = i + 1;
    }
    res
}

/// `v` without leading and trailing white space.
pub fn trim_chars(v: &Vec<char>) -> (res: Vec<char>)
    ensures
        res@ == trim(v@),
{
    let n = v.len();
    let mut i: usize = 0;
    while i < n && is_white_space_char(v[i])
        invariant
            i <= n == v.len(),
            forall|k: int| 0 <= k < i ==> is_white_space(#[trigger] v@[k]),
        decreases n - i,
    {
        i = i + 1;
    }
    proof {
        lemma_trim_start_at(v@, i as int);
    }
    let ghost t = v@.skip(i as int);
    let mut j: usize = n;
    while j > i && is_white_space_char(v[j - 1])
        invariant
            i <= j <= n == v.len(),
            t == v@.skip(i as int),
            forall|k: int| j <= k < n ==> is_white_space(#[trigger] v@[k]),
        decreases j - i,
    {
        j = j - 1;
    }
    proof {
        assert forall|k: int| j - i <= k < t.len() implies is_white_space(#[trigger] t[k]) by {
            assert(t[k] == v@[k + i]);
        }
        if j > i {
            assert(t[j - i - 1] == v@[j - 1]);
        }
        lemma_trim_end_at(t, j - i);
        assert(t.take(j - i) =~= v@.subrange(i as int, j as int));
    }
    sub_chars(v, i, j)
}

/// The characters of `s`.
pub fn chars_of(s: &str) -> (res: Vec<char>)
    ensures
        res@ == s@,
{
    let mut res: Vec<char> = Vec::new();
    for c in it: s.chars()
        invariant
            res@ == it.seq().take(it.index() as int),
    {
        res.push(c);
    }
    res
}

/// `String::push`: appends one character at the end of the string, as std documents it.
pub assume_specification[ String::push ](s: &mut String, ch: char)
    ensures
        final(s)@ == old(s)@.push(ch),
;

/// The string made of the characters of `v`.
pub fn string_of(v: &Vec<char>) -> (res: String)
    ensures
        res@ == v@,
{
    let mut res = String::new();
    let mut i: usize = 0;
    while i < v.len()
        invariant
            i <= v.len(),
            res@ == v@.take(i as int),
        decreases v.len() - i,
    {
        res.push(v[i]);
        i = i + 1;
        assert(v@.take(i as int) =~= v@.take(i - 1).push(v@[i - 1]));
    }
    assert(v@.take(v.len() as int) =~= v@);
    res
}

/// Whether the characters of `v` are those of `s`.
pub fn chars_eq_str(v: &Vec<char>, s: &str) -> (res: bool)
    ensures
        res == (v@ == s@),
{
    let n = s.unicode_len();
    if n != v.len() {
        return false;
    }
    let mut i: usize = 0;
    while i < n
        invariant
            i <= n == v.len() == s@.len(),
            forall|k: int| 0 <= k < i ==> v@[k] == s@[k],
        decreases n - i,
    {
        if v[i] != s.get_char(i) {
            return false;
        }
        i = i + 1;
    }
    assert(v@ =~= s@);
    true
}


/// The character sequences held by a vector of character vectors.
pub open spec fn seqs_of(v: Seq<Vec<char>>) -> Seq<Seq<char>> {
    v.map_values(|x: Vec<char>| x@)
}

/// The pieces of `v` between occurrences of `sep`.
pub fn split_chars(v: &Vec<char>, sep: char) -> (res: Vec<Vec<char>>)
    ensures
        seqs_of(res@) == split_on(v@, sep),
{
    let mut parts: Vec<Vec<char>> = Vec::new();
    let mut cur: Vec<char> = Vec::new();
    let mut i: usize = 0;
    assert(v@.take(0) =~= Seq::<char>::empty());
    assert(seqs_of(parts@).push(cur@) =~= seq![Seq::<char>::empty()]);
    while i < v.len()
        invariant
            i <= v.len(),
            seqs_of(parts@).push(cur@) == split_on(v@.take(i as int), sep),
        decreases v.len() - i,
    {
        let ghost prev = v@.take(i as int);
        let ghost old_parts = seqs_of(parts@);
        let ghost old_cur = cur@;
        let c = v[i];
        i = i + 1;
        assert(v@.take(i as int).drop_last() =~= prev);
        assert(v@.take(i as int).last() == c);
        if c == sep {
            let done = cur;
            parts.push(done);
            cur = Vec::new();
            assert(seqs_of(parts@) =~= old_parts.push(old_cur));
            assert(seqs_of(parts@).push(cur@) =~= split_on(v@.take(i as int), sep));
        } else {
            cur.push(c);
            assert(seqs_of(parts@).push(cur@) =~= split_on(v@.take(i as int), sep));
        }
    }
    let ghost old_parts = seqs_of(parts@);
    let ghost old_cur = cur@;
    parts.push(cur);
    assert(v@.take(v.len() as int) =~= v@);
    assert(seqs_of(parts@) =~= old_parts.push(old_cur));
    parts
}

/// `c` with an ASCII upper-case letter mapped to its lower-case form.
pub open spec fn ascii_lower(c: char) -> char {
    if 'A' <= c <= 'Z' {
        ((c as u32) + 32) as char
    } else {
        c
    }
}

/// `s` with ASCII upper-case letters mapped to lower case, as `str::to_ascii_lowercase` does.
pub open spec fn ascii_lowercase(s: Seq<char>) -> Seq<char> {
    s.map_values(|c: char| ascii_lower(c))
}

/// `c` in ASCII lower case.
pub fn ascii_lower_char(c: char) -> (res: char)
    ensures
        res == ascii_lower(c),
{
    if 'A' <= c && c <= 'Z' {
        ((c as u8) + 32) as char
    } else {
        c
    }
}

/// The characters of `s` in ASCII lower case.
pub fn ascii_lowercase_chars(s: &str) -> (res: Vec<char>)
    ensures
        res@ == ascii_lowercase(s@),
{
    let v = chars_of(s);
    let mut res: Vec<char> = Vec::new();
    let mut i: usize = 0;
    while i < v.len()
        invariant
            i <= v.len(),
            v@ == s@,
            res@ == ascii_lowercase(v@.take(i as int)),
        decreases v.len() - i,
    {
        res.push(ascii_lower_char(v[i]));
        i = i + 1;
        assert(ascii_lowercase(v@.take(i as int)) =~= ascii_lowercase(v@.take(i - 1)).push(
            ascii_lower(v@[i - 1]),
        ));
    }
    assert(v@.take(v.len() as int) =~= v@);
    res
}

/// Whether `s` equals `lit` when ASCII letters are compared without regard to case.
pub fn eq_ignore_ascii_case(s: &str, lit: &str) -> (res: bool)
    ensures
        res == (ascii_lowercase(s@) == ascii_lowercase(lit@)),
{
    let n = s.unicode_len();
    let m = lit.unicode_len();
    if n != m {
        assert(ascii_lowercase(s@).len() != ascii_lowercase(lit@).len());
        return false;
    }
    let mut i: usize = 0;
    while i < n
        invariant
            i <= n == m == s@.len() == lit@.len(),
            forall|k: int| 0 <= k < i ==> ascii_lower(s@[k]) == ascii_lower(lit@[k]),
        decreases n - i,
    {
        if ascii_lower_char(s.get_char(i)) != ascii_lower_char(lit.get_char(i)) {
            assert(ascii_lowercase(s@)[i as int] != ascii_lowercase(lit@)[i as int]);
            return false;
        }
        i = i + 1;
    }
    assert(ascii_lowercase(s@) =~= ascii_lowercase(lit@));
    true
}

/// Whether every character of `s` is ASCII.
pub open spec fn is_ascii_text(s: Seq<char>) -> bool {
    forall|i: int| 0 <= i < s.len() ==> (#[trigger] s[i] as u32) < 128
}

/// Every piece of a split of ASCII text is ASCII.
pub proof fn lemma_split_ascii(s: Seq<char>, sep: char)
    requires
        is_ascii_text(s),
    ensures
        forall|j: int| 0 <= j < split_on(s, sep).len() ==> is_ascii_text(#[trigger] split_on(s, sep)[j]),
    decreases s.len(),
{
    lemma_split_nonempty(s, sep);
    if s.len() > 0 {
        let t = s.drop_last();
        assert(is_ascii_text(t)) by {
            assert forall|i: int| 0 <= i < t.len() implies (#[trigger] t[i] as u32) < 128 by {
                assert(t[i] == s[i]);
            }
        }
        lemma_split_ascii(t, sep);
        lemma_split_nonempty(t, sep);
        let init = split_on(t, sep);
        let ps = split_on(s, sep);
        assert forall|j: int| 0 <= j < ps.len() implies is_ascii_text(#[trigger] ps[j]) by {
            if j < init.len() - 1 {
                assert(ps[j] == init[j]);
            } else if j == init.len() - 1 {
                if s.last() != sep {
                    let q = init.last().push(s.last());
                    assert(ps[j] == q);
                    assert(is_ascii_text(init[j]));
                    assert forall|i: int| 0 <= i < q.len() implies (#[trigger] q[i] as u32) < 128 by {
                        if i < q.len() - 1 {
                            assert(q[i] == init[j][i]);
                        } else {
                            assert(s[s.len() - 1] == s.last());
                        }
                    }
                } else {
                    assert(ps[j] == init[j]);
                }
            } else {
                assert(ps[j] =~= Seq::<char>::empty());
            }
        }
    }
}

proof fn lemma_trim_start_ascii(s: Seq<char>)
    requires
        is_ascii_text(s),
    ensures
        is_ascii_text(trim_start(s)),
    decreases s.len(),
{
    if s.len() > 0 && is_white_space(s[0]) {
        let t = s.drop_first();
        assert forall|i: int| 0 <= i < t.len() implies (#[trigger] t[i] as u32) < 128 by {
            assert(t[i] == s[i + 1]);
        }
        lemma_trim_start_ascii(t);
    }
}

proof fn lemma_trim_end_ascii(s: Seq<char>)
    requires
        is_ascii_text(s),
    ensures
        is_ascii_text(trim_end(s)),
    decreases s.len(),
{
    if s.len() > 0 && is_white_space(s.last()) {
        let t = s.drop_last();
        assert forall|i: int| 0 <= i < t.len() implies (#[trigger] t[i] as u32) < 128 by {
            assert(t[i] == s[i]);
        }
        lemma_trim_end_ascii(t);
    }
}

/// Trimming ASCII text leaves ASCII text.
pub proof fn lemma_trim_ascii(s: Seq<char>)
    requires
        is_ascii_text(s),
    ensures
        is_ascii_text(trim(s)),
{
    lemma_trim_start_ascii(s);
    lemma_trim_end_ascii(trim_start(s));
}

/// The lower-case form of a string as `str::to_lowercase` computes it from the
/// Unicode case tables.
pub uninterp spec fn unicode_lowercase(s: Seq<char>) -> Seq<char>;

/// Calls `str::to_lowercase`. The result is named by `unicode_lowercase` of the
/// characters given. From std's documentation: each character maps to one or
/// more characters, so the result is empty exactly when `s` is; and the ASCII
/// letters `A`–`Z` map to `a`–`z` while other ASCII characters stay, so ASCII
/// text maps to its ASCII lower case. Nothing more is claimed of the Unicode
/// case mapping.
#[verifier::external_body]
pub(crate) fn to_lowercase(s: &str) -> (res: String)
    ensures
        res@ == unicode_lowercase(s@),
        res@.len() == 0 <==> s@.len() == 0,
        is_ascii_text(s@) ==> res@ == ascii_lowercase(s@),
{
    s.to_lowercase()
}

} // verus!
