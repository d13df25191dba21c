//! Paths as Unix `std::path::Path` sees them: their components, the equality and
//! order that follow from the components, and joining.
use vstd::prelude::*;
use crate::text::{
    split_on, seqs_of, split_chars, lemma_split_nonempty, lemma_split_no_sep, lemma_split_concat,
    sub_chars,
};

verus! {

/// Whether a piece between separators names a component: `""` and `"."` do not.
pub open spec fn is_real_piece(p: Seq<char>) -> bool {
    p.len() > 0 && p != seq!['.']
}

/// The pieces that name components, in order.
pub open spec fn real_pieces(ps: Seq<Seq<char>>) -> Seq<Seq<char>>
    decreases ps.len(),
{
    if ps.len() == 0 {
        Seq::empty()
    } else {
        let init = real_pieces(ps.drop_last());
        if is_real_piece(ps.last()) {
            init.push(ps.last())
        } else {
            init
        }
    }
}

/// Whether the path starts at the root.
pub open spec fn has_root(s: Seq<char>) -> bool {
    s.len() > 0 && s[0] == '/'
}

/// Whether the path starts with a `.` component, which `Path::components` keeps.
pub open spec fn has_cur_dir_head(s: Seq<char>) -> bool {
    !has_root(s) && s.len() > 0 && s[0] == '.' && (s.len() == 1 || s[1] == '/')
}

/// The root component, written `/`, or the leading current-directory component,
/// written `.`; no name can be written so.
pub open spec fn path_head(s: Seq<char>) -> Seq<Seq<char>> {
    if has_root(s) {
        seq![seq!['/']]
    } else if has_cur_dir_head(s) {
        seq![seq!['.']]
    } else {
        Seq::empty()
    }
}

/// The components of the path `s`, as `Path::components` yields them on Unix.
#[verifier::opaque]
pub open spec fn path_components(s: Seq<char>) -> Seq<Seq<char>> {
    path_head(s) + real_pieces(split_on(s, '/'))
}

/// Whether two paths are equal as `Path` compares them: component by component.
pub open spec fn same_path(a: Seq<char>, b: Seq<char>) -> bool {
    path_components(a) == path_components(b)
}

/// The rank of a component in the order of `std::path::Component`: root, current
/// directory, parent directory, then names.
pub open spec fn component_rank(c: Seq<char>) -> int {
    if c == seq!['/'] {
        0
    } else if c == seq!['.'] {
        1
    } else if c == seq!['.', '.'] {
        2
    } else {
        3
    }
}

/// Lexicographic order on characters by code point, which is the byte order of
/// their UTF-8 encodings.
pub open spec fn chars_lt(a: Seq<char>, b: Seq<char>) -> bool
    decreases a.len(),
{
    if b.len() == 0 {
        false
    } else if a.len() == 0 {
        true
    } else if a[0] == b[0] {
        chars_lt(a.drop_first(), b.drop_first())
    } else {
        (a[0] as u32) < (b[0] as u32)
    }
}

/// The order of two components.
pub open spec fn component_lt(a: Seq<char>, b: Seq<char>) -> bool {
    component_rank(a) < component_rank(b) || (component_rank(a) == 3 && component_rank(b) == 3
        && chars_lt(a, b))
}

/// Lexicographic order on component sequences.
pub open spec fn components_lt(a: Seq<Seq<char>>, b: Seq<Seq<char>>) -> bool
    decreases a.len(),
{
    if b.len() == 0 {
        false
    } else if a.len() == 0 {
        true
    } else if a[0] == b[0] {
        components_lt(a.drop_first(), b.drop_first())
    } else {
        component_lt(a[0], b[0])
    }
}

/// The order of paths, as `Path::cmp` gives it.
#[verifier::opaque]
pub open spec fn path_lt(a: Seq<char>, b: Seq<char>) -> bool {
    components_lt(path_components(a), path_components(b))
}

/// The character order is a strict total order.
pub proof fn lemma_chars_lt_order(a: Seq<char>, b: Seq<char>, c: Seq<char>)
    ensures
        !chars_lt(a, a),
        a != b ==> chars_lt(a, b) || chars_lt(b, a),
        chars_lt(a, b) ==> !chars_lt(b, a),
        chars_lt(a, b) && chars_lt(b, c) ==> chars_lt(a, c),
    decreases a.len(),
{
    if a.len() > 0 {
        vstd::utf8::char_u32_cast(a[0], a[0] as u32);
        if b.len() > 0 {
            vstd::utf8::char_u32_cast(b[0], b[0] as u32);
        }
        if b.len() > 0 && c.len() > 0 {
            lemma_chars_lt_order(a.drop_first(), b.drop_first(), c.drop_first());
        } else if b.len() > 0 {
            lemma_chars_lt_order(a.drop_first(), b.drop_first(), b.drop_first());
        } else {
            lemma_chars_lt_order(a.drop_first(), a.drop_first(), a.drop_first());
        }
        if a != b && a.len() > 0 && b.len() > 0 && a[0] == b[0] {
            assert(a.drop_first() != b.drop_first()) by {
                if a.drop_first() == b.drop_first() {
                    assert(a =~= seq![a[0]] + a.drop_first());
                    assert(b =~= seq![b[0]] + b.drop_first());
                }
            }
        }
    } else {
        if b.len() == 0 {
            assert(a =~= b);
        }
    }
}

/// The component order is a strict total order.
pub proof fn lemma_component_lt_order(a: Seq<char>, b: Seq<char>, c: Seq<char>)
    ensures
        !component_lt(a, a),
        a != b ==> component_lt(a, b) || component_lt(b, a),
        component_lt(a, b) ==> !component_lt(b, a),
        component_lt(a, b) && component_lt(b, c) ==> component_lt(a, c),
{
    lemma_chars_lt_order(a, b, c);
    lemma_chars_lt_order(a, a, a);
}

/// The order on component sequences is a strict total order.
pub proof fn lemma_components_lt_order(a: Seq<Seq<char>>, b: Seq<Seq<char>>, c: Seq<Seq<char>>)
    ensures
        !components_lt(a, a),
        a != b ==> components_lt(a, b) || components_lt(b, a),
        components_lt(a, b) ==> !components_lt(b, a),
        components_lt(a, b) && components_lt(b, c) ==> components_lt(a, c),
    decreases a.len(),
{
    if a.len() > 0 {
        lemma_component_lt_order(a[0], a[0], a[0]);
        if b.len() > 0 {
            lemma_component_lt_order(a[0], b[0], a[0]);
            if c.len() > 0 {
                lemma_component_lt_order(a[0], b[0], c[0]);
                lemma_components_lt_order(a.drop_first(), b.drop_first(), c.drop_first());
            } else {
                lemma_components_lt_order(a.drop_first(), b.drop_first(), b.drop_first());
            }
            if a != b && a[0] == b[0] {
                assert(a.drop_first() != b.drop_first()) by {
                    if a.drop_first() == b.drop_first() {
                        assert(a =~= seq![a[0]] + a.drop_first());
                        assert(b =~= seq![b[0]] + b.drop_first());
                    }
                }
            }
        } else {
            lemma_components_lt_order(a.drop_first(), a.drop_first(), a.drop_first());
        }
    } else {
        if b.len() == 0 {
            assert(a =~= b);
        }
    }
}

/// Paths are totally ordered by `path_lt` up to `same_path`.
pub proof fn lemma_path_lt_order(a: Seq<char>, b: Seq<char>, c: Seq<char>)
    ensures
        !path_lt(a, a),
        !same_path(a, b) ==> path_lt(a, b) || path_lt(b, a),
        path_lt(a, b) ==> !path_lt(b, a) && !same_path(a, b),
        path_lt(a, b) && path_lt(b, c) ==> path_lt(a, c),
{
    reveal(path_lt);
    lemma_components_lt_order(path_components(a), path_components(b), path_components(c));
    lemma_components_lt_order(path_components(a), path_components(a), path_components(a));
}

/// The order of paths depends only on their components.
pub proof fn lemma_path_lt_same(a: Seq<char>, b: Seq<char>, c: Seq<char>, d: Seq<char>)
    requires
        same_path(a, c),
        same_path(b, d),
    ensures
        path_lt(a, b) == path_lt(c, d),
{
    reveal(path_lt);
}

/// The order of paths is the order of their components.
pub proof fn lemma_path_lt_components(a: Seq<char>, b: Seq<char>)
    ensures
        path_lt(a, b) == components_lt(path_components(a), path_components(b)),
{
    reveal(path_lt);
}


proof fn lemma_chars_lt_skip(a: Seq<char>, b: Seq<char>, i: int)
    requires
        0 <= i <= a.len(),
        i <= b.len(),
        forall|k: int| 0 <= k < i ==> a[k] == b[k],
    ensures
        chars_lt(a, b) == chars_lt(a.skip(i), b.skip(i)),
    decreases i,
{
    if i > 0 {
        lemma_chars_lt_skip(a.drop_first(), b.drop_first(), i - 1);
        assert(a.drop_first().skip(i - 1) =~= a.skip(i));
        assert(b.drop_first().skip(i - 1) =~= b.skip(i));
    } else {
        assert(a.skip(0) =~= a);
        assert(b.skip(0) =~= b);
    }
}

proof fn lemma_components_lt_skip(a: Seq<Seq<char>>, b: Seq<Seq<char>>, i: int)
    requires
        0 <= i <= a.len(),
        i <= b.len(),
        forall|k: int| 0 <= k < i ==> a[k] == b[k],
    ensures
        components_lt(a, b) == components_lt(a.skip(i), b.skip(i)),
    decreases i,
{
    if i > 0 {
        lemma_components_lt_skip(a.drop_first(), b.drop_first(), i - 1);
        assert(a.drop_first().skip(i - 1) =~= a.skip(i));
        assert(b.drop_first().skip(i - 1) =~= b.skip(i));
    } else {
        assert(a.skip(0) =~= a);
        assert(b.skip(0) =~= b);
    }
}

/// Whether two character vectors hold the same characters.
pub fn chars_equal(a: &Vec<char>, b: &Vec<char>) -> (res: bool)
    ensures
        res == (a@ == b@),
{
    if a.len() != b.len() {
        return false;
    }
    let mut i: usize = 0;
    while i < a.len()
        invariant
            i <= a.len() == b.len(),
            forall|k: int| 0 <= k < i ==> a@[k] == b@[k],
        decreases a.len() - i,
    {
        if a[i] != b[i] {
            return false;
        }
        i = i + 1;
    }
    assert(a@ =~= b@);
    true
}

/// Whether `a` comes before `b` in code-point order.
pub fn chars_less(a: &Vec<char>, b: &Vec<char>) -> (res: bool)
    ensures
        res == chars_lt(a@, b@),
{
    let mut i: usize = 0;
    while i < a.len() && i < b.len() && a[i] == b[i]
        invariant
            i <= a.len(),
            i <= b.len(),
            forall|k: int| 0 <= k < i ==> a@[k] == b@[k],
        decreases a.len() - i,
    {
        i = i + 1;
    }
    proof {
        lemma_chars_lt_skip(a@, b@, i as int);
    }
    if i == b.len() {
        false
    } else if i == a.len() {
        true
    } else {
        (a[i] as u32) < (b[i] as u32)
    }
}

/// Whether two component vectors hold the same components.
pub fn components_equal(a: &Vec<Vec<char>>, b: &Vec<Vec<char>>) -> (res: bool)
    ensures
        res == (seqs_of(a@) == seqs_of(b@)),
{
    if a.len() != b.len() {
        assert(seqs_of(a@).len() != seqs_of(b@).len());
        return false;
    }
    let mut i: usize = 0;
    while i < a.len()
        invariant
            i <= a.len() == b.len(),
            forall|k: int| 0 <= k < i ==> seqs_of(a@)[k] == seqs_of(b@)[k],
        decreases a.len() - i,
    {
        if !chars_equal(&a[i], &b[i]) {
            assert(seqs_of(a@)[i as int] != seqs_of(b@)[i as int]);
            return false;
        }
        i = i + 1;
    }
    assert(seqs_of(a@) =~= seqs_of(b@));
    true
}

/// The rank of a component in the component order.
fn rank_of(c: &Vec<char>) -> (res: u8)
    ensures
        res as int == component_rank(c@),
{
    if c.len() == 1 && c[0] == '/' {
        assert(c@ =~= seq!['/']);
        0
    } else if c.len() == 1 && c[0] == '.' {
        assert(c@ =~= seq!['.']);
        1
    } else if c.len() == 2 && c[0] == '.' && c[1] == '.' {
        assert(c@ =~= seq!['.', '.']);
        2
    } else {
        assert(c@ != seq!['/']);
        assert(c@ != seq!['.']);
        assert(c@ != seq!['.', '.']);
        3
    }
}

/// Whether component sequence `a` comes before `b`.
pub fn components_less(a: &Vec<Vec<char>>, b: &Vec<Vec<char>>) -> (res: bool)
    ensures
        res == components_lt(seqs_of(a@), seqs_of(b@)),
{
    let mut i: usize = 0;
    while i < a.len() && i < b.len() && chars_equal(&a[i], &b[i])
        invariant
            i <= a.len(),
            i <= b.len(),
            forall|k: int| 0 <= k < i ==> seqs_of(a@)[k] == seqs_of(b@)[k],
        decreases a.len() - i,
    {
        i = i + 1;
    }
    proof {
        lemma_components_lt_skip(seqs_of(a@), seqs_of(b@), i as int);
    }
    if i == b.len() {
        false
    } else if i == a.len() {
        true
    } else {
        let ra = rank_of(&a[i]);
        let rb = rank_of(&b[i]);
        ra < rb || (ra == 3 && rb == 3 && chars_less(&a[i], &b[i]))
    }
}

/// The components of the path `p`.
pub fn components_of(p: &Vec<char>) -> (res: Vec<Vec<char>>)
    ensures
        seqs_of(res@) == path_components(p@),
{
    let pieces = split_chars(p, '/');
    let mut res: Vec<Vec<char>> = Vec::new();
    if p.len() > 0 && p[0] == '/' {
        let mut root: Vec<char> = Vec::new();
        root.push('/');
        res.push(root);
        assert(seqs_of(res@) =~= seq![seq!['/']]);
    } else if p.len() > 0 && p[0] == '.' && (p.len() == 1 || p[1] == '/') {
        let mut cur: Vec<char> = Vec::new();
        cur.push('.');
        res.push(cur);
        assert(seqs_of(res@) =~= seq![seq!['.']]);
    }
    let ghost head = seqs_of(res@);
    assert(head =~= path_head(p@));
    proof {
        reveal(path_components);
    }
    assert(seqs_of(pieces@).take(0) =~= Seq::<Seq<char>>::empty());
    let mut i: usize = 0;
    while i < pieces.len()
        invariant
            i <= pieces.len(),
            head == path_head(p@),
            seqs_of(res@) == head + real_pieces(seqs_of(pieces@).take(i as int)),
        decreases pieces.len() - i,
    {
        let ghost prev = seqs_of(res@);
        let ghost ps = seqs_of(pieces@);
        assert(ps.take(i + 1).drop_last() =~= ps.take(i as int));
        assert(ps.take(i + 1).last() == pieces@[i as int]@);
        let piece = &pieces[i];
        if piece.len() > 0 && !(piece.len() == 1 && piece[0] == '.') {
            assert(piece@ != seq!['.']);
            res.push(piece.clone());
            assert(seqs_of(res@) =~= prev.push(piece@));
        } else {
            assert(piece.len() == 1 ==> piece@ =~= seq!['.']);
        }
        i = i + 1;
    }
    assert(seqs_of(pieces@).take(pieces.len() as int) =~= seqs_of(pieces@));
    res
}

/// Whether `a` and `b` name the same path.
pub fn paths_equal(a: &Vec<char>, b: &Vec<char>) -> (res: bool)
    ensures
        res == same_path(a@, b@),
{
    let ca = components_of(a);
    let cb = components_of(b);
    components_equal(&ca, &cb)
}

/// Whether path `a` comes before path `b`.
pub fn path_less(a: &Vec<char>, b: &Vec<char>) -> (res: bool)
    ensures
        res == path_lt(a@, b@),
{
    let ca = components_of(a);
    let cb = components_of(b);
    proof {
        reveal(path_lt);
    }
    components_less(&ca, &cb)
}

/// `base` joined with `p`, as `PathBuf::push` does it on Unix: an absolute `p`
/// replaces `base`, and a separator is put between them where `base` does not
/// end in one.
pub open spec fn join_path(base: Seq<char>, p: Seq<char>) -> Seq<char> {
    if has_root(p) {
        p
    } else if base.len() > 0 && base.last() != '/' {
        base + seq!['/'] + p
    } else {
        base + p
    }
}

/// Computes `join_path`.
pub fn join(base: &Vec<char>, p: &Vec<char>) -> (res: Vec<char>)
    ensures
        res@ == join_path(base@, p@),
{
    if p.len() > 0 && p[0] == '/' {
        return p.clone();
    }
    let mut res = base.clone();
    if base.len() > 0 && base[base.len() - 1] != '/' {
        res.push('/');
    }
    let mut i: usize = 0;
    let ghost start = res@;
    while i < p.len()
        invariant
            i <= p.len(),
            res@ == start + p@.take(i as int),
        decreases p.len() - i,
    {
        res.push(p[i]);
        i = i + 1;
        assert(start + p@.take(i as int) =~= (start + p@.take(i - 1)).push(p@[i - 1]));
    }
    assert(p@.take(p.len() as int) =~= p@);
    res
}


/// The index of the last piece that names a component, or -1.
pub open spec fn last_real(ps: Seq<Seq<char>>) -> int
    decreases ps.len(),
{
    if ps.len() == 0 {
        -1
    } else if is_real_piece(ps.last()) {
        ps.len() - 1
    } else {
        last_real(ps.drop_last())
    }
}

/// The length of the pieces joined with separators.
pub open spec fn joined_len(ps: Seq<Seq<char>>) -> int
    decreases ps.len(),
{
    if ps.len() == 0 {
        0
    } else if ps.len() == 1 {
        ps[0].len() as int
    } else {
        joined_len(ps.drop_last()) + 1 + ps.last().len()
    }
}

/// The last component of `s` where it is a name, as `Path::file_name` gives it.
pub open spec fn file_name(s: Seq<char>) -> Option<Seq<char>> {
    let ps = split_on(s, '/');
    let k = last_real(ps);
    if k >= 0 && ps[k] != seq!['.', '.'] {
        Some(ps[k])
    } else {
        None
    }
}

/// The index of the last `.` in `name`, or -1.
pub open spec fn last_dot(name: Seq<char>) -> int
    decreases name.len(),
{
    if name.len() == 0 {
        -1
    } else if name.last() == '.' {
        name.len() - 1
    } else {
        last_dot(name.drop_last())
    }
}

/// The stem of a file name, as `Path::file_stem` gives it: the part before the
/// last `.`, unless that part is empty or there is no `.`.
pub open spec fn file_stem_of(name: Seq<char>) -> Seq<char> {
    let d = last_dot(name);
    if d <= 0 {
        name
    } else {
        name.take(d)
    }
}

/// The length of the text of `s` that `Path::parent` keeps where `s` has a file
/// name: up to the end of the previous component, else the root or the leading
/// `.`, else nothing.
pub open spec fn parent_len(s: Seq<char>) -> int {
    let ps = split_on(s, '/');
    let m = last_real(ps.take(last_real(ps)));
    if m >= 0 {
        joined_len(ps.take(m + 1))
    } else if has_root(s) || has_cur_dir_head(s) {
        1
    } else {
        0
    }
}

/// `s` with its file name replaced by `name`, or `name` appended where it has
/// none, as `PathBuf::set_file_name` does it.
pub open spec fn with_file_name(s: Seq<char>, name: Seq<char>) -> Seq<char> {
    if file_name(s) is Some {
        join_path(s.take(parent_len(s)), name)
    } else {
        join_path(s, name)
    }
}

/// The name of the JSON file written beside `s` in the `both` format: the file
/// name's stem with `.json`; where that is the file name itself, the whole file
/// name with `.json` added, so that the two files differ.
pub open spec fn json_name(s: Seq<char>) -> Seq<char> {
    match file_name(s) {
        Some(f) => if file_stem_of(f) + ".json"@ == f {
            f + ".json"@
        } else {
            file_stem_of(f) + ".json"@
        },
        None => ".json"@,
    }
}

/// The path of the JSON file written beside `s` in the `both` format.
pub open spec fn json_sibling(s: Seq<char>) -> Seq<char> {
    with_file_name(s, json_name(s))
}

proof fn lemma_last_dot_bound(name: Seq<char>)
    ensures
        -1 <= last_dot(name) < name.len(),
    decreases name.len(),
{
    if name.len() > 0 && name.last() != '.' {
        lemma_last_dot_bound(name.drop_last());
    }
}

/// No piece of a split holds the separator.
proof fn lemma_split_pieces_no_sep(s: Seq<char>, sep: char)
    ensures
        forall|j: int, i: int|
            0 <= j < split_on(s, sep).len() && 0 <= i < split_on(s, sep)[j].len()
                ==> #[trigger] split_on(s, sep)[j][i] != sep,
    decreases s.len(),
{
    lemma_split_nonempty(s, sep);
    if s.len() > 0 {
        lemma_split_pieces_no_sep(s.drop_last(), sep);
        lemma_split_nonempty(s.drop_last(), sep);
        let init = split_on(s.drop_last(), sep);
        let ps = split_on(s, sep);
        if s.last() != sep {
            assert forall|j: int, i: int| 0 <= j < ps.len() && 0 <= i < ps[j].len() implies #[trigger] ps[j][i]
                != sep by {
                if j == init.len() - 1 {
                    if i < init.last().len() {
                        assert(ps[j][i] == init[j][i]);
                    }
                } else {
                    assert(ps[j] == init[j]);
                }
            }
        } else {
            assert forall|j: int, i: int| 0 <= j < ps.len() && 0 <= i < ps[j].len() implies #[trigger] ps[j][i]
                != sep by {
                if j < init.len() {
                    assert(ps[j] == init[j]);
                }
            }
        }
    }
}

/// The last component piece is the last piece that names one.
proof fn lemma_real_pieces_last(ps: Seq<Seq<char>>)
    ensures
        last_real(ps) < 0 ==> real_pieces(ps).len() == 0,
        last_real(ps) >= 0 ==> real_pieces(ps).len() > 0 && real_pieces(ps).last() == ps[last_real(ps)],
    decreases ps.len(),
{
    if ps.len() > 0 {
        lemma_real_pieces_last(ps.drop_last());
        lemma_last_real_bounds(ps.drop_last());
    }
}

/// The last component of a path is its file name where it has one, and else the
/// root, the current directory or the parent directory, or there is none.
proof fn lemma_last_component(s: Seq<char>)
    ensures
        file_name(s) matches Some(f) ==> path_components(s).len() > 0 && path_components(s).last() == f,
        file_name(s) is None ==> path_components(s).len() == 0 || path_components(s).last() == seq!['/']
            || path_components(s).last() == seq!['.'] || path_components(s).last() == seq!['.', '.'],
{
    reveal(path_components);
    let ps = split_on(s, '/');
    lemma_real_pieces_last(ps);
    lemma_last_real_bounds(ps);
    let rp = real_pieces(ps);
    let h = path_head(s);
    if rp.len() > 0 {
        assert((h + rp).last() == rp.last());
    } else {
        assert(h + rp =~= h);
    }
}

/// A name without separators joined to any base is the last component.
proof fn lemma_join_last_component(base: Seq<char>, n: Seq<char>)
    requires
        is_real_piece(n),
        forall|i: int| 0 <= i < n.len() ==> n[i] != '/',
    ensures
        path_components(join_path(base, n)).len() > 0,
        path_components(join_path(base, n)).last() == n,
{
    reveal(path_components);
    lemma_split_no_sep(n, '/');
    let s = join_path(base, n);
    assert(!has_root(n));
    let x: Seq<char> = if base.len() > 0 && base.last() != '/' {
        base
    } else if base.len() == 0 {
        base
    } else {
        base.drop_last()
    };
    let xs = split_on(x, '/');
    if base.len() > 0 && base.last() != '/' {
        lemma_split_concat(base, n, '/');
    } else if base.len() == 0 {
        assert(s =~= n);
    } else {
        assert(s =~= x + seq!['/'] + n);
        lemma_split_concat(x, n, '/');
    }
    let ps = split_on(s, '/');
    if base.len() == 0 {
        assert(ps == seq![n]);
        assert(ps.drop_last() =~= Seq::<Seq<char>>::empty());
    } else {
        assert(ps =~= xs.push(n));
        assert(ps.drop_last() =~= xs);
    }
    assert(ps.last() == n);
    let rp = real_pieces(ps);
    assert(rp.last() == n);
    assert((path_head(s) + rp).last() == n);
}

/// The JSON file of the `both` format is never the primary file itself.
pub proof fn lemma_json_sibling_distinct(s: Seq<char>)
    ensures
        !same_path(json_sibling(s), s),
{
    reveal_strlit(".json");
    let n = json_name(s);
    lemma_last_component(s);
    let ps = split_on(s, '/');
    lemma_split_pieces_no_sep(s, '/');
    lemma_last_real_bounds(ps);
    let ext: Seq<char> = ".json"@;
    assert(forall|i: int| 0 <= i < ext.len() ==> ext[i] != '/');
    match file_name(s) {
        Some(f) => {
            let k = last_real(ps);
            assert(f == ps[k]);
            assert(forall|i: int| 0 <= i < f.len() ==> f[i] != '/') by {
                assert forall|i: int| 0 <= i < f.len() implies f[i] != '/' by {
                    assert(ps[k][i] != '/');
                }
            }
            let stem = file_stem_of(f);
            lemma_last_dot_bound(f);
            assert(forall|i: int| 0 <= i < stem.len() ==> stem[i] != '/') by {
                assert forall|i: int| 0 <= i < stem.len() implies stem[i] != '/' by {
                    assert(stem[i] == f[i]);
                }
            }
            let base: Seq<char> = if stem + ext == f { f } else { stem };
            assert(n =~= base + ext);
            assert forall|i: int| 0 <= i < n.len() implies n[i] != '/' by {
                if i < base.len() {
                    assert(n[i] == base[i]);
                } else {
                    assert(n[i] == ext[i - base.len()]);
                }
            }
            assert(n != f) by {
                if stem + ext == f {
                    assert(n.len() > f.len());
                }
            }
        },
        None => {
            assert(n == ext);
            assert(n.len() == 5);
        },
    }
    assert(n.len() >= 5);
    assert(n != seq!['.']) by {
        assert(seq!['.'].len() == 1);
    }
    let base = if file_name(s) is Some {
        s.take(parent_len(s))
    } else {
        s
    };
    assert(json_sibling(s) == join_path(base, n));
    lemma_join_last_component(base, n);
    if file_name(s) is None {
        assert(seq!['/'].len() == 1);
        assert(seq!['.', '.'].len() == 2);
    }
}

proof fn lemma_last_real_bounds(ps: Seq<Seq<char>>)
    ensures
        -1 <= last_real(ps) < ps.len(),
        last_real(ps) >= 0 ==> is_real_piece(ps[last_real(ps)]),
        forall|j: int| last_real(ps) < j < ps.len() ==> !is_real_piece(#[trigger] ps[j]),
    decreases ps.len(),
{
    if ps.len() > 0 && !is_real_piece(ps.last()) {
        lemma_last_real_bounds(ps.drop_last());
        assert forall|j: int| last_real(ps) < j < ps.len() implies !is_real_piece(#[trigger] ps[j]) by {
            if j < ps.len() - 1 {
                assert(ps[j] == ps.drop_last()[j]);
            }
        }
    }
}

proof fn lemma_last_real_take(ps: Seq<Seq<char>>, j: int)
    requires
        0 <= j <= ps.len(),
        forall|i: int| j <= i < ps.len() ==> !is_real_piece(#[trigger] ps[i]),
    ensures
        last_real(ps) == last_real(ps.take(j)),
    decreases ps.len() - j,
{
    if j < ps.len() {
        lemma_last_real_take(ps.drop_last(), j);
        assert(ps.drop_last().take(j) =~= ps.take(j));
    } else {
        assert(ps.take(j) =~= ps);
    }
}

proof fn lemma_joined_len_split(s: Seq<char>, sep: char)
    ensures
        joined_len(split_on(s, sep)) == s.len(),
    decreases s.len(),
{
    if s.len() > 0 {
        let init = split_on(s.drop_last(), sep);
        lemma_joined_len_split(s.drop_last(), sep);
        lemma_split_nonempty(s.drop_last(), sep);
        let ps = split_on(s, sep);
        if s.last() == sep {
            assert(ps.drop_last() =~= init);
        } else {
            if init.len() > 1 {
                assert(ps.drop_last() =~= init.drop_last());
            }
        }
    }
}

proof fn lemma_joined_len_monotone(ps: Seq<Seq<char>>, a: int, b: int)
    requires
        0 <= a <= b <= ps.len(),
    ensures
        joined_len(ps.take(a)) <= joined_len(ps.take(b)),
    decreases b - a,
{
    if a < b {
        lemma_joined_len_monotone(ps, a, b - 1);
        assert(ps.take(b).drop_last() =~= ps.take(b - 1));
    }
}

/// The index of the last piece that names a component, or -1.
fn last_real_index(ps: &Vec<Vec<char>>, upto: usize) -> (res: Option<usize>)
    requires
        upto <= ps.len(),
    ensures
        match res {
            Some(k) => k as int == last_real(seqs_of(ps@).take(upto as int)),
            None => last_real(seqs_of(ps@).take(upto as int)) == -1,
        },
{
    let ghost all = seqs_of(ps@).take(upto as int);
    let mut j: usize = upto;
    proof {
        assert(all.take(upto as int) =~= all);
    }
    while j > 0 && !(ps[j - 1].len() > 0 && !(ps[j - 1].len() == 1 && ps[j - 1][0] == '.'))
        invariant
            j <= upto <= ps.len(),
            all == seqs_of(ps@).take(upto as int),
            last_real(all) == last_real(all.take(j as int)),
        decreases j,
    {
        proof {
            let t = all.take(j as int);
            assert(t.last() == ps@[j - 1]@);
            if ps@[j - 1]@.len() == 1 {
                assert(ps@[j - 1]@ =~= seq!['.']);
            }
            assert(t.drop_last() =~= all.take(j - 1));
        }
        j = j - 1;
    }
    proof {
        let t = all.take(j as int);
        if j > 0 {
            assert(t.last() == ps@[j - 1]@);
            assert(ps@[j - 1]@ != seq!['.']) by {
                if ps@[j - 1]@ == seq!['.'] {
                    assert(ps@[j - 1]@.len() == 1);
                }
            }
        } else {
            assert(t =~= Seq::<Seq<char>>::empty());
        }
    }
    if j == 0 {
        None
    } else {
        Some(j - 1)
    }
}

/// The length of the first `n` pieces joined with separators.
fn joined_length(ps: &Vec<Vec<char>>, n: usize, Ghost(s): Ghost<Seq<char>>) -> (res: usize)
    requires
        n <= ps.len(),
        seqs_of(ps@) == split_on(s, '/'),
        s.len() <= usize::MAX,
    ensures
        res as int == joined_len(seqs_of(ps@).take(n as int)),
        res <= s.len(),
{
    let ghost all = seqs_of(ps@);
    proof {
        lemma_joined_len_split(s, '/');
        assert(all.take(all.len() as int) =~= all);
    }
    let mut total: usize = 0;
    let mut i: usize = 0;
    assert(all.take(0) =~= Seq::<Seq<char>>::empty());
    while i < n
        invariant
            i <= n <= ps.len(),
            all == seqs_of(ps@),
            joined_len(all) == s.len() <= usize::MAX,
            all.take(all.len() as int) == all,
            total as int == joined_len(all.take(i as int)),
        decreases n - i,
    {
        proof {
            assert(all.take(i + 1).drop_last() =~= all.take(i as int));
            assert(all.take(i + 1).last() == ps@[i as int]@);
            if i == 0 {
                assert(all.take(1).len() == 1);
            }
            lemma_joined_len_monotone(all, i + 1, all.len() as int);
        }
        if i == 0 {
            total = ps[0].len();
        } else {
            total = total + 1 + ps[i].len();
        }
        i = i + 1;
    }
    proof {
        lemma_joined_len_monotone(all, n as int, all.len() as int);
    }
    total
}

/// The stem of a file name.
fn file_stem(name: &Vec<char>) -> (res: Vec<char>)
    ensures
        res@ == file_stem_of(name@),
{
    let mut d: usize = name.len();
    proof {
        assert(name@.take(name.len() as int) =~= name@);
    }
    while d > 0 && name[d - 1] != '.'
        invariant
            d <= name.len(),
            last_dot(name@) == last_dot(name@.take(d as int)),
        decreases d,
    {
        assert(name@.take(d as int).drop_last() =~= name@.take(d - 1));
        d = d - 1;
    }
    if d <= 1 {
        proof {
            if d == 1 {
                assert(last_dot(name@.take(1)) == 0);
            } else {
                assert(name@.take(0).len() == 0);
            }
        }
        name.clone()
    } else {
        assert(last_dot(name@.take(d as int)) == d - 1);
        sub_chars(name, 0, d - 1)
    }
}

/// The path of the JSON file written beside `p` in the `both` format.
pub fn json_sibling_path(p: &Vec<char>) -> (res: Vec<char>)
    ensures
        res@ == json_sibling(p@),
{
    let pieces = split_chars(p, '/');
    let ghost ps = seqs_of(pieces@);
    proof {
        lemma_joined_len_split(p@, '/');
        assert(ps.take(ps.len() as int) =~= ps);
    }
    let found = last_real_index(&pieces, pieces.len());
    proof {
        lemma_last_real_bounds(ps);
    }
    let k: usize = match found {
        Some(k) => k,
        None => 0,
    };
    let has_name = found.is_some() && !(pieces[k].len() == 2 && pieces[k][0] == '.'
        && pieces[k][1] == '.');
    proof {
        if found.is_some() {
            let piece = ps[k as int];
            if piece.len() == 2 && piece[0] == '.' && piece[1] == '.' {
                assert(piece =~= seq!['.', '.']);
            }
        }
    }
    let mut name: Vec<char> = Vec::new();
    if has_name {
        let stem = file_stem(&pieces[k]);
        name = stem;
    }
    name.push('.');
    name.push('j');
    name.push('s');
    name.push('o');
    name.push('n');
    let ghost stem_view = if has_name { file_stem_of(ps[k as int]) } else { Seq::<char>::empty() };
    proof {
        reveal_strlit(".json");
        assert(name@ =~= stem_view + ".json"@);
    }
    if has_name && chars_equal(&name, &pieces[k]) {
        name = pieces[k].clone();
        name.push('.');
        name.push('j');
        name.push('s');
        name.push('o');
        name.push('n');
        proof {
            assert(name@ =~= ps[k as int] + ".json"@);
        }
    }
    proof {
        assert(name@ == json_name(p@));
    }
    if has_name {
        let prev = last_real_index(&pieces, k);
        proof {
            assert(ps.take(k as int) == seqs_of(pieces@).take(k as int));
        }
        let end = if let Some(m) = prev {
            proof {
                lemma_last_real_bounds(ps.take(k as int));
                assert(p@.len() == p.len());
            }
            joined_length(&pieces, m + 1, Ghost(p@))
        } else if p.len() > 0 && (p[0] == '/' || (p[0] == '.' && (p.len() == 1 || p[1] == '/'))) {
            1
        } else {
            0
        };
        proof {
            lemma_last_real_bounds(ps.take(k as int));
        }
        let parent = sub_chars(p, 0, end);
        join(&parent, &name)
    } else {
        join(p, &name)
    }
}

} // verus!
