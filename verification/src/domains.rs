//! Sets of domain names: parsed from a comma-separated list, and matched against
//! the domain keys of the stored cookies.
use vstd::prelude::*;
use crate::text::{
    split_on, seqs_of, split_chars, trim, trim_chars, unicode_lowercase, to_lowercase, string_of,
    keep_nonempty, lemma_keep_nonempty_push, is_ascii_text, ascii_lowercase, lemma_split_ascii,
    lemma_trim_ascii,
};

verus! {

/// The character sequences of a sequence of strings.
pub open spec fn strings_view(v: Seq<String>) -> Seq<Seq<char>> {
    v.map_values(|s: String| s@)
}

/// A domain as the user wrote it, trimmed and in lower case.
pub open spec fn normalize_domain(p: Seq<char>) -> Seq<char> {
    unicode_lowercase(trim(p))
}

/// The domains of a comma-separated list: each entry trimmed and lower-cased,
/// empty entries left out.
pub open spec fn domain_names(s: Seq<char>) -> Seq<Seq<char>> {
    keep_nonempty(split_on(s, ',').map_values(|p: Seq<char>| normalize_domain(p)))
}

/// The domains of a comma-separated list of ASCII text: each entry trimmed and
/// in ASCII lower case, empty entries left out.
pub open spec fn ascii_domain_names(s: Seq<char>) -> Seq<Seq<char>> {
    keep_nonempty(split_on(s, ',').map_values(|p: Seq<char>| ascii_lowercase(trim(p))))
}

/// Whether every entry of a comma-separated list is blank.
pub open spec fn all_blank(s: Seq<char>) -> bool {
    forall|j: int| 0 <= j < split_on(s, ',').len() ==> trim(#[trigger] split_on(s, ',')[j]).len() == 0
}

/// A set of domain names.
#[derive(Debug)]
pub struct DomainSet {
    names: Vec<String>,
}

impl View for DomainSet {
    type V = Set<Seq<char>>;

    closed spec fn view(&self) -> Set<Seq<char>> {
        strings_view(self.names@).to_set()
    }
}

proof fn lemma_push_to_set(s: Seq<Seq<char>>, x: Seq<char>)
    ensures
        s.push(x).to_set() == s.to_set().insert(x),
{
    s.lemma_push_to_set_commute(x);
}

impl DomainSet {
    /// No name occurs twice.
    pub closed spec fn wf(&self) -> bool {
        strings_view(self.names@).no_duplicates()
    }

    /// The empty set.
    pub fn new() -> (res: DomainSet)
        ensures
            res@ == Set::<Seq<char>>::empty(),
            res.wf(),
    {
        let res = DomainSet { names: Vec::new() };
        assert(strings_view(res.names@) =~= Seq::<Seq<char>>::empty());
        assert(res@ =~= Set::<Seq<char>>::empty());
        res
    }

    /// Whether `d` is in the set.
    pub fn contains(&self, d: &str) -> (res: bool)
        ensures
            res == self@.contains(d@),
    {
        let mut i: usize = 0;
        while i < self.names.len()
            invariant
                i <= self.names.len(),
                forall|k: int| 0 <= k < i ==> strings_view(self.names@)[k] != d@,
            decreases self.names.len() - i,
        {
            if self.names[i] == String::from_str(d) {
                assert(strings_view(self.names@)[i as int] == d@);
                return true;
            }
            i = i + 1;
        }
        false
    }

    /// Adds `d` to the set.
    pub fn insert(&mut self, d: String)
        requires
            old(self).wf(),
        ensures
            final(self).wf(),
            final(self)@ == old(self)@.insert(d@),
    {
        if !self.contains(d.as_str()) {
            let ghost before = strings_view(self.names@);
            self.names.push(d);
            proof {
                assert(strings_view(self.names@) =~= before.push(d@));
                lemma_push_to_set(before, d@);
            }
        } else {
            assert(self@.insert(d@) =~= self@);
        }
    }

    /// The set of the names in `v`.
    pub fn from_names(v: Vec<String>) -> (res: DomainSet)
        ensures
            res.wf(),
            res@ == strings_view(v@).to_set(),
    {
        let mut res = DomainSet::new();
        let mut i: usize = 0;
        assert(strings_view(v@).take(0).to_set() =~= Set::<Seq<char>>::empty());
        while i < v.len()
            invariant
                i <= v.len(),
                res.wf(),
                res@ == strings_view(v@).take(i as int).to_set(),
            decreases v.len() - i,
        {
            res.insert(v[i].clone());
            proof {
                assert(strings_view(v@).take(i + 1) =~= strings_view(v@).take(i as int).push(
                    v@[i as int]@,
                ));
                lemma_push_to_set(strings_view(v@).take(i as int), v@[i as int]@);
            }
            i = i + 1;
        }
        assert(strings_view(v@).take(v.len() as int) =~= strings_view(v@));
        res
    }

    /// The names of the set, each once.
    pub fn to_vec(&self) -> (res: Vec<String>)
        requires
            self.wf(),
        ensures
            strings_view(res@).to_set() == self@,
            strings_view(res@).no_duplicates(),
    {
        self.names.clone()
    }

    /// Whether the set is empty.
    pub fn is_empty(&self) -> (res: bool)
        ensures
            res == (self@ == Set::<Seq<char>>::empty()),
    {
        if self.names.len() == 0 {
            assert(strings_view(self.names@) =~= Seq::<Seq<char>>::empty());
            assert(self@ =~= Set::<Seq<char>>::empty());
            true
        } else {
            assert(self@.contains(strings_view(self.names@)[0]));
            false
        }
    }

    /// Whether the set holds `d` and nothing else.
    pub fn is_only(&self, d: &str) -> (res: bool)
        requires
            self.wf(),
        ensures
            res == (self@ == set![d@]),
    {
        let ghost sv = strings_view(self.names@);
        if self.names.len() == 1 && self.names[0] == String::from_str(d) {
            assert(sv =~= seq![d@]);
            assert forall|a: Seq<char>| self@.contains(a) <==> a == d@ by {
                if a == d@ {
                    assert(sv[0] == a);
                }
            }
            assert(self@ =~= set![d@]);
            true
        } else {
            proof {
                if self@ == set![d@] {
                    assert(self@.contains(d@));
                    let i = choose|i: int| 0 <= i < sv.len() && sv[i] == d@;
                    if sv.len() > 1 {
                        let j: int = if i == 0 { 1 } else { 0 };
                        assert(self@.contains(sv[j]));
                        assert(sv[j] == d@);
                    }
                    assert(sv.len() == 1);
                    assert(sv[0] == d@);
                    assert(false);
                }
            }
            false
        }
    }
}

/// The set of domains of a comma-separated list.
pub fn parse_domain_list(s: &Vec<char>) -> (res: DomainSet)
    ensures
        res.wf(),
        res@ == domain_names(s@).to_set(),
        res@ == Set::<Seq<char>>::empty() <==> all_blank(s@),
        is_ascii_text(s@) ==> domain_names(s@) == ascii_domain_names(s@),
{
    let pieces = split_chars(s, ',');
    let ghost ps = seqs_of(pieces@);
    let ghost normalized = ps.map_values(|p: Seq<char>| normalize_domain(p));
    let ghost lowered = ps.map_values(|p: Seq<char>| ascii_lowercase(trim(p)));
    proof {
        if is_ascii_text(s@) {
            lemma_split_ascii(s@, ',');
        }
    }
    let mut res = DomainSet::new();
    let mut i: usize = 0;
    assert(normalized.take(0) =~= Seq::<Seq<char>>::empty());
    assert(keep_nonempty(normalized.take(0)).to_set() =~= Set::<Seq<char>>::empty());
    while i < pieces.len()
        invariant
            i <= pieces.len(),
            ps == seqs_of(pieces@),
            normalized == ps.map_values(|p: Seq<char>| normalize_domain(p)),
            res.wf(),
            res@ == keep_nonempty(normalized.take(i as int)).to_set(),
            ps == split_on(s@, ','),
            lowered == ps.map_values(|p: Seq<char>| ascii_lowercase(trim(p))),
            (res@ == Set::<Seq<char>>::empty()) <==> (forall|j: int| 0 <= j < i ==> trim(#[trigger] ps[j]).len() == 0),
            is_ascii_text(s@) ==> forall|j: int| 0 <= j < ps.len() ==> is_ascii_text(#[trigger] ps[j]),
            is_ascii_text(s@) ==> forall|j: int| 0 <= j < i ==> #[trigger] normalized[j] == lowered[j],
        decreases pieces.len() - i,
    {
        let t = trim_chars(&pieces[i]);
        let ts = string_of(&t);
        let d = to_lowercase(ts.as_str());
        let ghost before = res@;
        proof {
            assert(t@ == trim(ps[i as int]));
            if is_ascii_text(s@) {
                lemma_trim_ascii(ps[i as int]);
            }
            assert(normalized.take(i + 1) =~= normalized.take(i as int).push(normalized[i as int]));
            assert(normalized[i as int] == d@);
            lemma_keep_nonempty_push(normalized.take(i as int), d@);
        }
        if !d.as_str().is_empty() {
            proof {
                lemma_push_to_set(keep_nonempty(normalized.take(i as int)), d@);
            }
            let ghost dv = d@;
            res.insert(d);
            proof {
                assert(res@.contains(dv));
            }
        }
        proof {
            if d@.len() > 0 {
                assert(res@ != Set::<Seq<char>>::empty()) by {
                    assert(res@.contains(d@));
                }
            } else {
                assert(res@ == before);
            }
        }
        i = i + 1;
    }
    assert(normalized.take(pieces.len() as int) =~= normalized);
    proof {
        if is_ascii_text(s@) {
            assert(normalized =~= lowered);
        }
    }
    res
}


/// `d` without one leading dot.
pub open spec fn strip_leading_dot(d: Seq<char>) -> Seq<char> {
    if d.len() > 0 && d[0] == '.' {
        d.drop_first()
    } else {
        d
    }
}

/// Whether a requested domain matches a stored domain key: they are equal once a
/// leading dot is taken off each.
pub open spec fn domain_matches(requested: Seq<char>, key: Seq<char>) -> bool {
    strip_leading_dot(requested) == strip_leading_dot(key)
}

/// Whether `d` is the domain `core` written with or without one leading dot:
/// `.core`, or `core` itself where it does not start with a dot.
pub open spec fn written_as(d: Seq<char>, core: Seq<char>) -> bool {
    d == seq!['.'] + core || (d == core && !(core.len() > 0 && core[0] == '.'))
}

/// A requested domain matches a stored key exactly when both are written for
/// the same domain, each with or without one leading dot; a key of which the
/// requested domain is only a part (`github.community` for `github.com`) does
/// not match.
pub proof fn lemma_domain_matches_same_domain(requested: Seq<char>, key: Seq<char>)
    ensures
        domain_matches(requested, key) <==> exists|core: Seq<char>|
            written_as(requested, core) && #[trigger] written_as(key, core),
{
    lemma_written_as_unique(requested);
    lemma_written_as_unique(key);
    if domain_matches(requested, key) {
        assert(written_as(requested, strip_leading_dot(requested)));
        assert(written_as(key, strip_leading_dot(requested)));
    }
}

/// The one domain that `d` is written for is `d` without its leading dot.
proof fn lemma_written_as_unique(d: Seq<char>)
    ensures
        written_as(d, strip_leading_dot(d)),
        forall|core: Seq<char>| #[trigger] written_as(d, core) ==> core == strip_leading_dot(d),
{
    if d.len() > 0 && d[0] == '.' {
        assert(d =~= seq!['.'] + d.drop_first());
        assert forall|core: Seq<char>| #[trigger] written_as(d, core) implies core == strip_leading_dot(d) by {
            if d == seq!['.'] + core {
                assert(core =~= d.drop_first());
            }
        }
    } else {
        assert forall|core: Seq<char>| #[trigger] written_as(d, core) implies core == strip_leading_dot(d) by {
            if d == seq!['.'] + core {
                assert(d[0] == '.');
            }
        }
    }
}

/// Whether some domain of `set` matches `key`.
pub open spec fn set_matches_key(set: Set<Seq<char>>, key: Seq<char>) -> bool {
    exists|d: Seq<char>| set.contains(d) && #[trigger] domain_matches(d, key)
}

/// A stored key is selected by a set of domains exactly when some domain of the
/// set and the key are written for the same domain, each with or without one
/// leading dot.
pub proof fn lemma_set_matches_same_domain(set: Set<Seq<char>>, key: Seq<char>)
    ensures
        set_matches_key(set, key) <==> exists|d: Seq<char>, core: Seq<char>|
            set.contains(d) && #[trigger] written_as(d, core) && #[trigger] written_as(key, core),
{
    if set_matches_key(set, key) {
        let d = choose|d: Seq<char>| set.contains(d) && #[trigger] domain_matches(d, key);
        lemma_domain_matches_same_domain(d, key);
        let core = choose|core: Seq<char>| written_as(d, core) && #[trigger] written_as(key, core);
        assert(set.contains(d) && written_as(d, core) && written_as(key, core));
    }
    if exists|d: Seq<char>, core: Seq<char>|
        set.contains(d) && #[trigger] written_as(d, core) && #[trigger] written_as(key, core) {
        let (d, core) = choose|d: Seq<char>, core: Seq<char>|
            set.contains(d) && #[trigger] written_as(d, core) && #[trigger] written_as(key, core);
        lemma_domain_matches_same_domain(d, key);
        assert(domain_matches(d, key));
    }
}

/// `v` without one leading dot.
fn strip_dot_chars(v: &Vec<char>) -> (res: Vec<char>)
    ensures
        res@ == strip_leading_dot(v@),
{
    if v.len() > 0 && v[0] == '.' {
        let r = crate::text::sub_chars(v, 1, v.len());
        assert(r@ =~= v@.drop_first());
        r
    } else {
        v.clone()
    }
}

impl DomainSet {
    /// Whether some domain of the set matches the stored domain key `key`.
    pub fn matches_key(&self, key: &str) -> (res: bool)
        ensures
            res == set_matches_key(self@, key@),
    {
        let k = strip_dot_chars(&crate::text::chars_of(key));
        let mut i: usize = 0;
        while i < self.names.len()
            invariant
                i <= self.names.len(),
                k@ == strip_leading_dot(key@),
                forall|j: int| 0 <= j < i ==> !domain_matches(strings_view(self.names@)[j], key@),
            decreases self.names.len() - i,
        {
            let d = strip_dot_chars(&crate::text::chars_of(self.names[i].as_str()));
            if crate::paths::chars_equal(&d, &k) {
                assert(self@.contains(strings_view(self.names@)[i as int]));
                assert(domain_matches(strings_view(self.names@)[i as int], key@));
                return true;
            }
            i = i + 1;
        }
        proof {
            if set_matches_key(self@, key@) {
                let d = choose|d: Seq<char>| self@.contains(d) && #[trigger] domain_matches(d, key@);
                let j = choose|j: int| 0 <= j < strings_view(self.names@).len() && strings_view(self.names@)[j] == d;
                assert(!domain_matches(strings_view(self.names@)[j], key@));
            }
        }
        false
    }
}

/// Whether the cookies stored under `key` are exported by a spec with these
/// domains: all are where no domains are given.
pub open spec fn key_selected(domains: Option<Set<Seq<char>>>, key: Seq<char>) -> bool {
    match domains {
        None => true,
        Some(set) => set_matches_key(set, key),
    }
}

/// Whether the cookies stored under `key` are exported by a spec with these
/// domains.
pub fn select_key(domains: &Option<DomainSet>, key: &str) -> (res: bool)
    ensures
        res == key_selected(
            match domains {
                Some(d) => Some(d@),
                None => None,
            },
            key@,
        ),
{
    match domains {
        None => true,
        Some(d) => d.matches_key(key),
    }
}


/// A leading dot on the requested domain or on the stored key does not change
/// whether they match.
pub proof fn lemma_leading_dot_ignored(d: Seq<char>, k: Seq<char>)
    requires
        !(d.len() > 0 && d[0] == '.'),
        !(k.len() > 0 && k[0] == '.'),
    ensures
        domain_matches(seq!['.'] + d, k) == domain_matches(d, k),
        domain_matches(d, seq!['.'] + k) == domain_matches(d, k),
        domain_matches(seq!['.'] + d, seq!['.'] + k) == domain_matches(d, k),
{
    assert((seq!['.'] + d).drop_first() =~= d);
    assert((seq!['.'] + k).drop_first() =~= k);
}

} // verus!
