//! The configuration: output formats, export specs and their parsing, merging
//! and resolution, and the assembled `Config`.
use vstd::prelude::*;
use crate::text::{
    chars_of, chars_eq_str, split_on, sub_chars, string_of, lemma_split_no_sep, lemma_split_concat,
    lemma_split_single, lemma_split_nonempty, keep_nonempty, lemma_keep_nonempty_push, trim, seqs_of,
    split_chars, trim_chars,
};
use crate::domains::{
    DomainSet, domain_names, parse_domain_list, strings_view, all_blank, ascii_domain_names,
};
use crate::paths::{
    same_path, path_components, components_of, components_equal, components_less, path_lt,
    components_lt, lemma_components_lt_order, has_root, join_path, join,
};
use crate::text::{ascii_lowercase, eq_ignore_ascii_case, is_ascii_text};

verus! {

/// Seconds between two sync rounds unless configured otherwise.
pub const DEFAULT_INTERVAL: u64 = 300;

/// The output format unless configured otherwise.
pub const DEFAULT_FORMAT: &'static str = "netscape";

/// The format in which a cookie file is written.
#[derive(Debug, Clone, Copy, PartialEq, Eq, Structural)]
pub enum OutputFormat {
    Netscape,
    Json,
    Both,
}

/// The format that a name denotes, if any.
pub open spec fn format_named(s: Seq<char>) -> Option<OutputFormat> {
    if s == "netscape"@ {
        Some(OutputFormat::Netscape)
    } else if s == "json"@ {
        Some(OutputFormat::Json)
    } else if s == "both"@ {
        Some(OutputFormat::Both)
    } else {
        None
    }
}

/// A configuration error, with its text as a character sequence.
pub enum ConfigErrorView {
    InvalidFormat(Seq<char>),
    ExportSpec(Seq<char>),
    DuplicateExport(Seq<char>),
    DuplicateEnvExport(Seq<char>),
    EmptyEnvExport,
    NoExports,
}

/// Why a configuration was refused.
#[derive(Debug)]
pub enum ConfigError {
    /// A format name other than `netscape`, `json` or `both`.
    InvalidFormat(String),
    /// A malformed export spec; the text says how.
    ExportSpec(String),
    /// Two `--export` specs name the same output path.
    DuplicateExport(String),
    /// Two `EXPORT_SPECS` entries name the same output path.
    DuplicateEnvExport(String),
    /// `EXPORT_SPECS` holds no spec.
    EmptyEnvExport,
    /// Neither `--export` nor `EXPORT_SPECS` gave a spec.
    NoExports,
}

impl View for ConfigError {
    type V = ConfigErrorView;

    open spec fn view(&self) -> ConfigErrorView {
        match self {
            ConfigError::InvalidFormat(s) => ConfigErrorView::InvalidFormat(s@),
            ConfigError::ExportSpec(s) => ConfigErrorView::ExportSpec(s@),
            ConfigError::DuplicateExport(s) => ConfigErrorView::DuplicateExport(s@),
            ConfigError::DuplicateEnvExport(s) => ConfigErrorView::DuplicateEnvExport(s@),
            ConfigError::EmptyEnvExport => ConfigErrorView::EmptyEnvExport,
            ConfigError::NoExports => ConfigErrorView::NoExports,
        }
    }
}

/// The text shown for a configuration error.
pub open spec fn config_error_message(e: ConfigErrorView) -> Seq<char> {
    match e {
        ConfigErrorView::InvalidFormat(s) => "invalid format '"@ + s
            + "'; use netscape, json, or both"@,
        ConfigErrorView::ExportSpec(s) => s,
        ConfigErrorView::DuplicateExport(s) => "duplicate output path in --export: "@ + s,
        ConfigErrorView::DuplicateEnvExport(s) => "duplicate output path in EXPORT_SPECS: "@ + s,
        ConfigErrorView::EmptyEnvExport => "EXPORT_SPECS is empty or contains no valid specs"@,
        ConfigErrorView::NoExports => "no export specs provided; use --export or set EXPORT_SPECS"@,
    }
}

impl ConfigError {
    /// The text shown for this error.
    pub fn message(&self) -> (res: String)
        ensures
            res@ == config_error_message(self@),
    {
        match self {
            ConfigError::InvalidFormat(s) => {
                let mut m = String::from_str("invalid format '");
                m.append(s.as_str());
                m.append("'; use netscape, json, or both");
                m
            },
            ConfigError::ExportSpec(s) => s.clone(),
            ConfigError::DuplicateExport(s) => {
                let mut m = String::from_str("duplicate output path in --export: ");
                m.append(s.as_str());
                m
            },
            ConfigError::DuplicateEnvExport(s) => {
                let mut m = String::from_str("duplicate output path in EXPORT_SPECS: ");
                m.append(s.as_str());
                m
            },
            ConfigError::EmptyEnvExport => String::from_str(
                "EXPORT_SPECS is empty or contains no valid specs",
            ),
            ConfigError::NoExports => String::from_str(
                "no export specs provided; use --export or set EXPORT_SPECS",
            ),
        }
    }
}

impl OutputFormat {
    /// The format named `s`; other names are refused.
    pub fn parse(s: &str) -> (res: Result<OutputFormat, ConfigError>)
        ensures
            match format_named(s@) {
                Some(f) => res == Ok::<OutputFormat, ConfigError>(f),
                None => res matches Err(e) && e@ == ConfigErrorView::InvalidFormat(s@),
            },
    {
        let v = chars_of(s);
        if chars_eq_str(&v, "netscape") {
            Ok(OutputFormat::Netscape)
        } else if chars_eq_str(&v, "json") {
            Ok(OutputFormat::Json)
        } else if chars_eq_str(&v, "both") {
            Ok(OutputFormat::Both)
        } else {
            Err(ConfigError::InvalidFormat(String::from_str(s)))
        }
    }
}


/// An export spec as a mathematical value.
pub struct ExportSpecView {
    pub domains: Option<Set<Seq<char>>>,
    pub path: Seq<char>,
    pub format_override: Option<OutputFormat>,
}

/// One export: which domains go to which file, in which format.
#[derive(Debug)]
pub struct ExportSpec {
    /// The domains to export; `None` for all of them.
    pub domains: Option<DomainSet>,
    /// The output file.
    pub path: String,
    /// The format of this file, where it differs from the configured one.
    pub format_override: Option<OutputFormat>,
}

impl View for ExportSpec {
    type V = ExportSpecView;

    open spec fn view(&self) -> ExportSpecView {
        ExportSpecView {
            domains: match self.domains {
                Some(d) => Some(d@),
                None => None,
            },
            path: self.path@,
            format_override: self.format_override,
        }
    }
}

/// The fields of `s` as `s.splitn(3, ':')` yields them: the pieces before the
/// first and the second colon, then the rest.
pub open spec fn colon_fields(s: Seq<char>) -> Seq<Seq<char>> {
    let p = split_on(s, ':');
    if p.len() <= 3 {
        p
    } else {
        seq![p[0], p[1], s.skip((p[0].len() + p[1].len() + 2) as int)]
    }
}

/// The domains field of an export spec: none when it is empty or names only
/// `all`, else the set of its domains.
pub open spec fn domains_field(d: Seq<char>) -> Option<Set<Seq<char>>> {
    if d.len() == 0 || domain_names(d).to_set() == set!["all"@] {
        None
    } else {
        Some(domain_names(d).to_set())
    }
}

/// The text of the error for an unknown format field.
pub open spec fn unknown_format_message(f: Seq<char>) -> Seq<char> {
    "unknown format '"@ + f + "' in --export; use netscape, json, or both"@
}

/// The result of parsing `[domains:]<path>[:format]`.
pub open spec fn export_spec_of(s: Seq<char>) -> Result<ExportSpecView, ConfigErrorView> {
    let f = colon_fields(s);
    if f.len() < 2 {
        Err(ConfigErrorView::ExportSpec("invalid --export value, missing ':' separator"@))
    } else if f.len() == 3 && format_named(f[2]) is None {
        Err(ConfigErrorView::ExportSpec(unknown_format_message(f[2])))
    } else if f[0].len() > 0 && domain_names(f[0]).to_set() == Set::<Seq<char>>::empty() {
        Err(ConfigErrorView::ExportSpec("empty domain list in --export"@))
    } else if f[1].len() == 0 {
        Err(ConfigErrorView::ExportSpec("empty output path in --export"@))
    } else {
        Ok(
            ExportSpecView {
                domains: domains_field(f[0]),
                path: f[1],
                format_override: if f.len() == 3 {
                    format_named(f[2])
                } else {
                    None
                },
            },
        )
    }
}

/// The view of a parse result.
pub open spec fn spec_result_view(r: Result<ExportSpec, ConfigError>) -> Result<
    ExportSpecView,
    ConfigErrorView,
> {
    match r {
        Ok(s) => Ok(s@),
        Err(e) => Err(e@),
    }
}

/// The first position at or after `start` that holds `c`.
fn find_char(v: &Vec<char>, start: usize, c: char) -> (res: Option<usize>)
    requires
        start <= v.len(),
    ensures
        match res {
            Some(i) => start <= i < v.len() && v@[i as int] == c && forall|k: int|
                start <= k < i ==> v@[k] != c,
            None => forall|k: int| start <= k < v.len() ==> v@[k] != c,
        },
{
    let mut i = start;
    while i < v.len()
        invariant
            start <= i <= v.len(),
            forall|k: int| start <= k < i ==> v@[k] != c,
        decreases v.len() - i,
    {
        if v[i] == c {
            return Some(i);
        }
        i = i + 1;
    }
    None
}

/// The format named by `f`, if any.
fn format_of_chars(f: &Vec<char>) -> (res: Option<OutputFormat>)
    ensures
        res == format_named(f@),
{
    if chars_eq_str(f, "netscape") {
        Some(OutputFormat::Netscape)
    } else if chars_eq_str(f, "json") {
        Some(OutputFormat::Json)
    } else if chars_eq_str(f, "both") {
        Some(OutputFormat::Both)
    } else {
        None
    }
}

/// Parses one export spec, `[domains:]<path>[:format]`.
pub fn parse_export_spec(input: &str) -> (res: Result<ExportSpec, ConfigError>)
    ensures
        spec_result_view(res) == export_spec_of(input@),
        res matches Ok(s) ==> s.domains matches Some(d) ==> d.wf(),
        colon_fields(input@).len() >= 2 && colon_fields(input@)[0].len() > 0 ==> {
            &&& (domain_names(colon_fields(input@)[0]).to_set() == Set::<Seq<char>>::empty()
                <==> all_blank(colon_fields(input@)[0]))
            &&& (is_ascii_text(colon_fields(input@)[0]) ==> domain_names(colon_fields(input@)[0])
                == ascii_domain_names(colon_fields(input@)[0]))
        },
{
    let v = chars_of(input);
    let n = v.len();
    let first = find_char(&v, 0, ':');
    let a = match first {
        None => {
            proof {
                lemma_split_no_sep(v@, ':');
            }
            return Err(
                ConfigError::ExportSpec(
                    String::from_str("invalid --export value, missing ':' separator"),
                ),
            );
        },
        Some(a) => a,
    };
    let x = sub_chars(&v, 0, a);
    let second = find_char(&v, a + 1, ':');
    let y: Vec<char>;
    let fmt: Option<Vec<char>>;
    match second {
        None => {
            y = sub_chars(&v, a + 1, n);
            fmt = None;
            proof {
                assert(v@ =~= x@ + seq![':'] + y@);
                lemma_split_concat(x@, y@, ':');
                lemma_split_no_sep(x@, ':');
                lemma_split_no_sep(y@, ':');
                assert(colon_fields(v@) =~= seq![x@, y@]);
            }
        },
        Some(b) => {
            y = sub_chars(&v, a + 1, b);
            let z = sub_chars(&v, b + 1, n);
            proof {
                let rest = v@.skip(a + 1);
                assert(rest =~= y@ + seq![':'] + z@);
                assert(v@ =~= x@ + seq![':'] + rest);
                lemma_split_concat(x@, rest, ':');
                lemma_split_concat(y@, z@, ':');
                lemma_split_no_sep(x@, ':');
                lemma_split_no_sep(y@, ':');
                lemma_split_nonempty(z@, ':');
                let p = split_on(v@, ':');
                assert(p =~= seq![x@, y@] + split_on(z@, ':'));
                if split_on(z@, ':').len() == 1 {
                    lemma_split_single(z@, ':');
                } else {
                    assert(v@.skip((x@.len() + y@.len() + 2) as int) =~= z@);
                }
                assert(colon_fields(v@) =~= seq![x@, y@, z@]);
            }
            fmt = Some(z);
        },
    }
    let parsed_domains = if x.len() == 0 {
        None
    } else {
        Some(parse_domain_list(&x))
    };
    let format_override = match &fmt {
        None => None,
        Some(z) => {
            let f = format_of_chars(z);
            if f.is_none() {
                let mut m = String::from_str("unknown format '");
                let zs = string_of(z);
                m.append(zs.as_str());
                m.append("' in --export; use netscape, json, or both");
                return Err(ConfigError::ExportSpec(m));
            }
            f
        },
    };
    let domains = match parsed_domains {
        None => None,
        Some(ds) => {
            if ds.is_empty() {
                return Err(ConfigError::ExportSpec(String::from_str("empty domain list in --export")));
            }
            if ds.is_only("all") {
                None
            } else {
                Some(ds)
            }
        },
    };
    if y.len() == 0 {
        return Err(ConfigError::ExportSpec(String::from_str("empty output path in --export")));
    }
    Ok(ExportSpec { domains, path: string_of(&y), format_override })
}


/// The views of a sequence of export specs.
pub open spec fn specs_view(v: Seq<ExportSpec>) -> Seq<ExportSpecView> {
    v.map_values(|s: ExportSpec| s@)
}

/// Whether every domain set of the specs is well formed.
pub open spec fn domains_ok(v: Seq<ExportSpec>) -> bool {
    forall|i: int| 0 <= i < v.len() ==> domains_wf(#[trigger] v[i])
}

/// Whether the domain set of a spec, if any, is well formed.
pub open spec fn domains_wf(s: ExportSpec) -> bool {
    match s.domains {
        Some(d) => d.wf(),
        None => true,
    }
}

/// The view of the result of parsing a list of export specs.
pub open spec fn specs_result_view(r: Result<Vec<ExportSpec>, ConfigError>) -> Result<
    Seq<ExportSpecView>,
    ConfigErrorView,
> {
    match r {
        Ok(v) => Ok(specs_view(v@)),
        Err(e) => Err(e@),
    }
}

/// The error for a path given twice: `DuplicateEnvExport` among the entries of
/// `EXPORT_SPECS`, `DuplicateExport` among the `--export` values.
pub open spec fn duplicate_error(env: bool, p: Seq<char>) -> ConfigErrorView {
    if env {
        ConfigErrorView::DuplicateEnvExport(p)
    } else {
        ConfigErrorView::DuplicateExport(p)
    }
}

/// Whether one of `done` writes to the path `p`.
pub open spec fn path_taken(done: Seq<ExportSpecView>, p: Seq<char>) -> bool {
    exists|j: int| 0 <= j < done.len() && same_path(#[trigger] done[j].path, p)
}

/// The specs of `entries`, parsed in order; the first malformed entry, or the first
/// one whose path an earlier entry has, gives the error.
pub open spec fn export_specs_of(entries: Seq<Seq<char>>, env: bool) -> Result<
    Seq<ExportSpecView>,
    ConfigErrorView,
>
    decreases entries.len(),
{
    if entries.len() == 0 {
        Ok(Seq::empty())
    } else {
        match export_specs_of(entries.drop_last(), env) {
            Err(e) => Err(e),
            Ok(done) => match export_spec_of(entries.last()) {
                Err(e) => Err(e),
                Ok(spec) => if path_taken(done, spec.path) {
                    Err(duplicate_error(env, spec.path))
                } else {
                    Ok(done.push(spec))
                },
            },
        }
    }
}

/// An error on a prefix of the entries is the error of all of them.
pub proof fn lemma_export_specs_error_stays(entries: Seq<Seq<char>>, env: bool, k: int)
    requires
        0 <= k <= entries.len(),
        export_specs_of(entries.take(k), env) is Err,
    ensures
        export_specs_of(entries, env) == export_specs_of(entries.take(k), env),
    decreases entries.len() - k,
{
    if k < entries.len() {
        assert(entries.take(k + 1).drop_last() =~= entries.take(k));
        lemma_export_specs_error_stays(entries, env, k + 1);
    } else {
        assert(entries.take(k) =~= entries);
    }
}

/// The entries of `EXPORT_SPECS`: its `;`-separated pieces, trimmed, empty ones
/// left out.
pub open spec fn env_entries(s: Seq<char>) -> Seq<Seq<char>> {
    keep_nonempty(split_on(s, ';').map_values(|p: Seq<char>| trim(p)))
}

/// The result of parsing `EXPORT_SPECS`.
pub open spec fn export_env_of(s: Seq<char>) -> Result<Seq<ExportSpecView>, ConfigErrorView> {
    if env_entries(s).len() == 0 {
        Err(ConfigErrorView::EmptyEnvExport)
    } else {
        export_specs_of(env_entries(s), true)
    }
}

/// The components of each path.
pub open spec fn keys_view(keys: Seq<Vec<Vec<char>>>) -> Seq<Seq<Seq<char>>> {
    keys.map_values(|k: Vec<Vec<char>>| seqs_of(k@))
}

/// The position of a component sequence among `keys`.
pub fn key_position(keys: &Vec<Vec<Vec<char>>>, key: &Vec<Vec<char>>) -> (res: Option<usize>)
    ensures
        match res {
            Some(i) => i < keys.len() && keys_view(keys@)[i as int] == seqs_of(key@),
            None => forall|j: int| 0 <= j < keys.len() ==> keys_view(keys@)[j] != seqs_of(key@),
        },
{
    let mut i: usize = 0;
    while i < keys.len()
        invariant
            i <= keys.len(),
            forall|j: int| 0 <= j < i ==> keys_view(keys@)[j] != seqs_of(key@),
        decreases keys.len() - i,
    {
        if components_equal(&keys[i], key) {
            return Some(i);
        }
        i = i + 1;
    }
    None
}

/// Parses export specs in order, refusing a path given twice.
fn parse_spec_list(entries: &Vec<String>, env: bool) -> (res: Result<Vec<ExportSpec>, ConfigError>)
    ensures
        specs_result_view(res) == export_specs_of(strings_view(entries@), env),
        res matches Ok(v) ==> domains_ok(v@),
{
    let ghost es = strings_view(entries@);
    let mut out: Vec<ExportSpec> = Vec::new();
    let mut keys: Vec<Vec<Vec<char>>> = Vec::new();
    let mut i: usize = 0;
    assert(es.take(0) =~= Seq::<Seq<char>>::empty());
    assert(specs_view(out@) =~= Seq::<ExportSpecView>::empty());
    while i < entries.len()
        invariant
            i <= entries.len(),
            es == strings_view(entries@),
            export_specs_of(es.take(i as int), env) == Ok::<
                Seq<ExportSpecView>,
                ConfigErrorView,
            >(specs_view(out@)),
            keys.len() == out.len(),
            forall|j: int|
                0 <= j < keys.len() ==> #[trigger] keys_view(keys@)[j] == path_components(
                    out@[j].path@,
                ),
            domains_ok(out@),
        decreases entries.len() - i,
    {
        let ghost done = specs_view(out@);
        assert(es.take(i + 1).drop_last() =~= es.take(i as int));
        assert(es.take(i + 1).last() == entries@[i as int]@);
        let parsed = parse_export_spec(entries[i].as_str());
        let spec = match parsed {
            Err(e) => {
                proof {
                    lemma_export_specs_error_stays(es, env, i + 1);
                    assert(es.take(entries.len() as int) =~= es);
                }
                return Err(e);
            },
            Ok(spec) => spec,
        };
        let path_chars = crate::text::chars_of(spec.path.as_str());
        let key = components_of(&path_chars);
        match key_position(&keys, &key) {
            Some(j) => {
                proof {
                    assert(same_path(done[j as int].path, spec@.path));
                    lemma_export_specs_error_stays(es, env, i + 1);
                }
                if env {
                    return Err(ConfigError::DuplicateEnvExport(spec.path));
                } else {
                    return Err(ConfigError::DuplicateExport(spec.path));
                }
            },
            None => {
                proof {
                    assert(!path_taken(done, spec@.path)) by {
                        if path_taken(done, spec@.path) {
                            let j = choose|j: int|
                                0 <= j < done.len() && same_path(#[trigger] done[j].path, spec@.path);
                            assert(keys_view(keys@)[j] == path_components(out@[j].path@));
                        }
                    }
                }
                let ghost sv = spec@;
                let ghost old_keys = keys@;
                let ghost old_out = out@;
                let ghost kv = seqs_of(key@);
                assert(kv == path_components(sv.path));
                out.push(spec);
                keys.push(key);
                proof {
                    assert(specs_view(out@) =~= done.push(sv));
                    assert(keys@ == old_keys.push(key));
                    assert forall|j: int| 0 <= j < out@.len() implies domains_wf(#[trigger] out@[j]) by {
                        if j < out@.len() - 1 {
                            assert(out@[j] == old_out[j]);
                        }
                    }
                    assert forall|j: int| 0 <= j < keys.len() implies #[trigger] keys_view(keys@)[j]
                        == path_components(out@[j].path@) by {
                        if j < keys.len() - 1 {
                            assert(keys@[j] == old_keys[j]);
                            assert(out@[j] == old_out[j]);
                            assert(keys_view(old_keys)[j] == path_components(old_out[j].path@));
                        } else {
                            assert(keys@[j] == key);
                            assert(out@[j].path@ == sv.path);
                        }
                    }
                }
            },
        }
        i = i + 1;
    }
    assert(es.take(entries.len() as int) =~= es);
    Ok(out)
}

/// Parses `EXPORT_SPECS`: specs separated by `;`, each trimmed, empty ones left
/// out; no two may name the same path.
pub fn parse_export_env(raw: &str) -> (res: Result<Vec<ExportSpec>, ConfigError>)
    ensures
        specs_result_view(res) == export_env_of(raw@),
        res matches Ok(v) ==> domains_ok(v@),
{
    let v = chars_of(raw);
    let pieces = split_chars(&v, ';');
    let ghost ps = seqs_of(pieces@);
    let ghost trimmed = ps.map_values(|p: Seq<char>| trim(p));
    let mut entries: Vec<String> = Vec::new();
    let mut i: usize = 0;
    assert(trimmed.take(0) =~= Seq::<Seq<char>>::empty());
    assert(strings_view(entries@) =~= Seq::<Seq<char>>::empty());
    while i < pieces.len()
        invariant
            i <= pieces.len(),
            ps == seqs_of(pieces@),
            ps == split_on(v@, ';'),
            trimmed == ps.map_values(|p: Seq<char>| trim(p)),
            strings_view(entries@) == keep_nonempty(trimmed.take(i as int)),
        decreases pieces.len() - i,
    {
        let t = trim_chars(&pieces[i]);
        proof {
            assert(trimmed.take(i + 1) =~= trimmed.take(i as int).push(trimmed[i as int]));
            assert(trimmed[i as int] == t@);
            lemma_keep_nonempty_push(trimmed.take(i as int), t@);
        }
        if t.len() > 0 {
            let ghost before = strings_view(entries@);
            let ts = string_of(&t);
            entries.push(ts);
            assert(strings_view(entries@) =~= before.push(t@));
        }
        i = i + 1;
    }
    assert(trimmed.take(pieces.len() as int) =~= trimmed);
    assert(strings_view(entries@) == env_entries(raw@));
    if entries.len() == 0 {
        return Err(ConfigError::EmptyEnvExport);
    }
    parse_spec_list(&entries, true)
}


/// The last of `s` that writes to the path `p`.
pub open spec fn last_with_path(s: Seq<ExportSpecView>, p: Seq<char>) -> ExportSpecView
    decreases s.len(),
{
    if s.len() == 0 {
        arbitrary()
    } else if same_path(s.last().path, p) {
        s.last()
    } else {
        last_with_path(s.drop_last(), p)
    }
}

/// Whether `r` holds, sorted by path, for each path of `all` the last spec of
/// `all` with that path, and nothing else.
pub open spec fn is_merge_of(r: Seq<ExportSpecView>, all: Seq<ExportSpecView>) -> bool {
    &&& forall|i: int, j: int| 0 <= i < j < r.len() ==> path_lt(#[trigger] r[i].path, #[trigger] r[j].path)
    &&& forall|i: int|
        0 <= i < r.len() ==> path_taken(all, #[trigger] r[i].path) && r[i] == last_with_path(
            all,
            r[i].path,
        )
    &&& forall|k: int| 0 <= k < all.len() ==> path_taken(r, #[trigger] all[k].path)
}

proof fn lemma_last_with_path_push(s: Seq<ExportSpecView>, x: ExportSpecView, p: Seq<char>)
    ensures
        last_with_path(s.push(x), p) == if same_path(x.path, p) {
            x
        } else {
            last_with_path(s, p)
        },
        path_taken(s.push(x), p) == (same_path(x.path, p) || path_taken(s, p)),
{
    assert(s.push(x).drop_last() =~= s);
    if path_taken(s.push(x), p) && !same_path(x.path, p) {
        let j = choose|j: int| 0 <= j < s.push(x).len() && same_path(#[trigger] s.push(x)[j].path, p);
        assert(s[j] == s.push(x)[j]);
    }
    if path_taken(s, p) {
        let j = choose|j: int| 0 <= j < s.len() && same_path(#[trigger] s[j].path, p);
        assert(s.push(x)[j] == s[j]);
    }
    if same_path(x.path, p) {
        assert(s.push(x)[s.len() as int] == x);
    }
}

proof fn lemma_merge_replace(
    rv: Seq<ExportSpecView>,
    prefix: Seq<ExportSpecView>,
    x: ExportSpecView,
    q: int,
)
    requires
        is_merge_of(rv, prefix),
        0 <= q < rv.len(),
        same_path(rv[q].path, x.path),
    ensures
        is_merge_of(rv.update(q, x), prefix.push(x)),
{
    let nv = rv.update(q, x);
    let all = prefix.push(x);
    assert forall|m: int| 0 <= m < rv.len() && m != q implies !same_path(
        #[trigger] rv[m].path,
        x.path,
    ) by {
        crate::paths::lemma_path_lt_order(rv[m].path, rv[q].path, rv[m].path);
        crate::paths::lemma_path_lt_order(rv[q].path, rv[m].path, rv[q].path);
        if m < q {
            assert(path_lt(rv[m].path, rv[q].path));
        } else {
            assert(path_lt(rv[q].path, rv[m].path));
        }
    }
    assert forall|i: int, j: int| 0 <= i < j < nv.len() implies path_lt(
        #[trigger] nv[i].path,
        #[trigger] nv[j].path,
    ) by {
        assert(path_lt(rv[i].path, rv[j].path));
        assert(same_path(rv[i].path, nv[i].path));
        assert(same_path(rv[j].path, nv[j].path));
        crate::paths::lemma_path_lt_same(rv[i].path, rv[j].path, nv[i].path, nv[j].path);
    }
    assert forall|i: int| 0 <= i < nv.len() implies path_taken(all, #[trigger] nv[i].path)
        && nv[i] == last_with_path(all, nv[i].path) by {
        lemma_last_with_path_push(prefix, x, nv[i].path);
        if i == q {
            assert(same_path(x.path, x.path));
        } else {
            assert(nv[i] == rv[i]);
        }
    }
    assert forall|k: int| 0 <= k < all.len() implies path_taken(nv, #[trigger] all[k].path) by {
        if k < prefix.len() {
            assert(all[k] == prefix[k]);
            assert(path_taken(rv, prefix[k].path));
            let m = choose|m: int| 0 <= m < rv.len() && same_path(#[trigger] rv[m].path, prefix[k].path);
            assert(same_path(nv[m].path, all[k].path));
        } else {
            assert(all[k] == x);
            assert(same_path(nv[q].path, all[k].path));
        }
    }
}

proof fn lemma_insert_keeps_sorted(rv: Seq<ExportSpecView>, x: ExportSpecView, q: int)
    requires
        forall|i: int, j: int| 0 <= i < j < rv.len() ==> path_lt(#[trigger] rv[i].path, #[trigger] rv[j].path),
        0 <= q <= rv.len(),
        forall|m: int| 0 <= m < q ==> path_lt(#[trigger] rv[m].path, x.path),
        q < rv.len() ==> path_lt(x.path, rv[q].path),
    ensures
        forall|i: int, j: int|
            0 <= i < j < rv.len() + 1 ==> path_lt(
                #[trigger] rv.insert(q, x)[i].path,
                #[trigger] rv.insert(q, x)[j].path,
            ),
{
    let nv = rv.insert(q, x);
    assert forall|i: int, j: int| 0 <= i < j < nv.len() implies path_lt(
        #[trigger] nv[i].path,
        #[trigger] nv[j].path,
    ) by {
        if j < q {
            assert(path_lt(rv[i].path, rv[j].path));
        } else if j == q {
            assert(path_lt(rv[i].path, x.path));
        } else if i == q {
            if j - 1 > q {
                assert(path_lt(rv[q].path, rv[j - 1].path));
                crate::paths::lemma_path_lt_order(x.path, rv[q].path, rv[j - 1].path);
            }
        } else if i < q {
            assert(path_lt(rv[i].path, x.path));
            assert(path_lt(x.path, rv[q].path));
            if j - 1 > q {
                assert(path_lt(rv[q].path, rv[j - 1].path));
                crate::paths::lemma_path_lt_order(x.path, rv[q].path, rv[j - 1].path);
            }
            crate::paths::lemma_path_lt_order(rv[i].path, x.path, rv[j - 1].path);
        } else {
            assert(path_lt(rv[i - 1].path, rv[j - 1].path));
        }
    }
}

proof fn lemma_merge_insert(
    rv: Seq<ExportSpecView>,
    prefix: Seq<ExportSpecView>,
    x: ExportSpecView,
    q: int,
)
    requires
        is_merge_of(rv, prefix),
        0 <= q <= rv.len(),
        forall|m: int| 0 <= m < q ==> path_lt(#[trigger] rv[m].path, x.path),
        q < rv.len() ==> path_lt(x.path, rv[q].path),
    ensures
        is_merge_of(rv.insert(q, x), prefix.push(x)),
{
    let nv = rv.insert(q, x);
    let all = prefix.push(x);
    lemma_insert_keeps_sorted(rv, x, q);
    assert forall|m: int| 0 <= m < rv.len() implies !same_path(#[trigger] rv[m].path, x.path) by {
        if m < q {
            crate::paths::lemma_path_lt_order(rv[m].path, x.path, x.path);
        } else {
            if m > q {
                assert(path_lt(rv[q].path, rv[m].path));
                crate::paths::lemma_path_lt_order(x.path, rv[q].path, rv[m].path);
            }
            crate::paths::lemma_path_lt_order(x.path, rv[m].path, x.path);
        }
    }
    assert forall|i: int| 0 <= i < nv.len() implies path_taken(all, #[trigger] nv[i].path)
        && nv[i] == last_with_path(all, nv[i].path) by {
        lemma_last_with_path_push(prefix, x, nv[i].path);
        if i == q {
            assert(same_path(x.path, x.path));
        } else if i < q {
            assert(nv[i] == rv[i]);
        } else {
            assert(nv[i] == rv[i - 1]);
        }
    }
    assert forall|k: int| 0 <= k < all.len() implies path_taken(nv, #[trigger] all[k].path) by {
        if k < prefix.len() {
            assert(all[k] == prefix[k]);
            assert(path_taken(rv, prefix[k].path));
            let m = choose|m: int| 0 <= m < rv.len() && same_path(#[trigger] rv[m].path, prefix[k].path);
            if m < q {
                assert(nv[m] == rv[m]);
                assert(same_path(nv[m].path, all[k].path));
            } else {
                assert(nv[m + 1] == rv[m]);
                assert(same_path(nv[m + 1].path, all[k].path));
            }
        } else {
            assert(all[k] == x);
            assert(same_path(nv[q].path, all[k].path));
        }
    }
}

/// The components of the path of `spec`.
fn path_key(spec: &ExportSpec) -> (res: Vec<Vec<char>>)
    ensures
        seqs_of(res@) == path_components(spec.path@),
{
    let v = chars_of(spec.path.as_str());
    components_of(&v)
}

/// Adds one spec to a merge: it replaces the spec with the same path, or goes in
/// at its place in the path order.
fn merge_one(r: &mut Vec<ExportSpec>, spec: ExportSpec, Ghost(prefix): Ghost<Seq<ExportSpecView>>)
    requires
        is_merge_of(specs_view(old(r)@), prefix),
    ensures
        is_merge_of(specs_view(final(r)@), prefix.push(spec@)),
        domains_ok(old(r)@) && domains_wf(spec) ==> domains_ok(final(r)@),
{
    let ghost rv = specs_view(r@);
    let ghost x = spec@;
    let key = path_key(&spec);
    let ghost kv = seqs_of(key@);
    let mut q: usize = 0;
    loop
        invariant
            q <= r.len(),
            rv == specs_view(r@),
            kv == path_components(x.path),
            kv == seqs_of(key@),
            forall|m: int| 0 <= m < q ==> path_lt(#[trigger] rv[m].path, x.path),
        ensures
            q <= r.len(),
            forall|m: int| 0 <= m < q ==> path_lt(#[trigger] rv[m].path, x.path),
            q < r.len() ==> !path_lt(rv[q as int].path, x.path),
        decreases r.len() - q,
    {
        if q >= r.len() {
            break;
        }
        let kq = path_key(&r[q]);
        assert(rv[q as int] == r@[q as int]@);
        let less = components_less(&kq, &key);
        proof {
            crate::paths::lemma_path_lt_components(rv[q as int].path, x.path);
        }
        if !less {
            break;
        }
        q = q + 1;
    }
    if q < r.len() && components_equal(&path_key(&r[q]), &key) {
        assert(rv[q as int] == r@[q as int]@);
        let ghost before_set = r@;
        let ghost sp = spec;
        r.set(q, spec);
        proof {
            assert(r@ == before_set.update(q as int, sp));
            if domains_ok(before_set) && domains_wf(sp) {
                assert forall|j: int| 0 <= j < r@.len() implies domains_wf(#[trigger] r@[j]) by {
                    if j != q {
                        assert(r@[j] == before_set[j]);
                    }
                }
            }
            lemma_merge_replace(rv, prefix, x, q as int);
            assert(specs_view(r@) =~= rv.update(q as int, x));
        }
    } else {
        proof {
            if q < r.len() {
                assert(rv[q as int] == r@[q as int]@);
                crate::paths::lemma_path_lt_order(x.path, rv[q as int].path, x.path);
            }
        }
        let ghost before_ins = r@;
        let ghost sp = spec;
        r.insert(q, spec);
        proof {
            assert(r@ == before_ins.insert(q as int, sp));
            if domains_ok(before_ins) && domains_wf(sp) {
                assert forall|j: int| 0 <= j < r@.len() implies domains_wf(#[trigger] r@[j]) by {
                    if j < q {
                        assert(r@[j] == before_ins[j]);
                    } else if j > q {
                        assert(r@[j] == before_ins[j - 1]);
                    }
                }
            }
            lemma_merge_insert(rv, prefix, x, q as int);
            assert(specs_view(r@) =~= rv.insert(q as int, x));
        }
    }
}

/// Merges two lists of specs: for each path the last spec wins, and a spec of
/// `higher` wins over one of `lower`; the result is sorted by path.
#[verifier::spinoff_prover]
#[verifier::rlimit(50)]
pub fn merge_exports(lower: Vec<ExportSpec>, higher: Vec<ExportSpec>) -> (res: Vec<ExportSpec>)
    ensures
        is_merge_of(specs_view(res@), specs_view(lower@) + specs_view(higher@)),
        domains_ok(lower@) && domains_ok(higher@) ==> domains_ok(res@),
{
    let ghost ok = domains_ok(lower@) && domains_ok(higher@);
    let ghost lv = lower@;
    let ghost hv = higher@;
    let ghost all = specs_view(lower@) + specs_view(higher@);
    let mut pending = lower;
    let mut higher = higher;
    pending.append(&mut higher);
    assert(specs_view(pending@) =~= all);
    proof {
        assert(pending@ =~= lv + hv);
        if ok {
            assert forall|j: int| 0 <= j < pending@.len() implies domains_wf(#[trigger] pending@[j]) by {
                if j < lv.len() {
                    assert(pending@[j] == lv[j]);
                } else {
                    assert(pending@[j] == hv[j - lv.len()]);
                }
            }
        }
    }
    let n = pending.len();
    let mut r: Vec<ExportSpec> = Vec::new();
    let mut k: usize = 0;
    assert(specs_view(r@) =~= Seq::<ExportSpecView>::empty());
    assert(is_merge_of(specs_view(r@), all.take(0)));
    assert(all.skip(0) =~= all);
    while pending.len() > 0
        invariant
            all.len() == n,
            k + pending.len() == n,
            specs_view(pending@) == all.skip(k as int),
            is_merge_of(specs_view(r@), all.take(k as int)),
            ok ==> domains_ok(pending@) && domains_ok(r@),
            ok == (domains_ok(lv) && domains_ok(hv)),
        decreases pending.len(),
    {
        let ghost before_vec = pending@;
        let spec = pending.remove(0);
        assert(pending@ =~= before_vec.drop_first());
        assert(specs_view(pending@) =~= specs_view(before_vec).drop_first());
        assert(specs_view(before_vec)[0] == before_vec[0]@);
        assert(spec@ == all[k as int]);
        proof {
            if ok {
                assert(before_vec[0] == spec);
                assert forall|j: int| 0 <= j < pending@.len() implies domains_wf(#[trigger] pending@[j]) by {
                    assert(pending@[j] == before_vec[j + 1]);
                }
            }
        }
        assert(all.take(k + 1) =~= all.take(k as int).push(spec@));
        merge_one(&mut r, spec, Ghost(all.take(k as int)));
        k = k + 1;
        assert(specs_view(pending@) =~= all.skip(k as int));
    }
    assert(all.take(n as int) =~= all);
    r
}


/// A spec with its path resolved against `base`: a relative path is joined
/// onto `base`, an absolute one kept.
pub open spec fn resolve_spec(s: ExportSpecView, base: Option<Seq<char>>) -> ExportSpecView {
    match base {
        Some(b) => if has_root(s.path) {
            s
        } else {
            ExportSpecView { path: join_path(b, s.path), ..s }
        },
        None => s,
    }
}

/// Every spec of `v` resolved against `base`.
pub open spec fn resolve_all(v: Seq<ExportSpecView>, base: Option<Seq<char>>) -> Seq<ExportSpecView> {
    v.map_values(|s: ExportSpecView| resolve_spec(s, base))
}

/// The view of an optional string.
pub open spec fn opt_view(o: Option<String>) -> Option<Seq<char>> {
    match o {
        Some(s) => Some(s@),
        None => None,
    }
}

/// Resolves the relative paths of `exports` against `base`, when there is one.
pub fn resolve_export_paths(exports: Vec<ExportSpec>, base: Option<String>) -> (res: Vec<ExportSpec>)
    ensures
        specs_view(res@) == resolve_all(specs_view(exports@), opt_view(base)),
        domains_ok(exports@) ==> domains_ok(res@),
{
    let ghost ok = domains_ok(exports@);
    let ghost input = specs_view(exports@);
    let ghost b = opt_view(base);
    let base_chars: Option<Vec<char>> = match &base {
        Some(bs) => Some(chars_of(bs.as_str())),
        None => None,
    };
    let n = exports.len();
    let mut pending = exports;
    let mut out: Vec<ExportSpec> = Vec::new();
    let mut k: usize = 0;
    assert(input.skip(0) =~= input);
    assert(specs_view(out@) =~= resolve_all(input.take(0), b));
    while pending.len() > 0
        invariant
            input.len() == n,
            k + pending.len() == n,
            specs_view(pending@) == input.skip(k as int),
            specs_view(out@) == resolve_all(input.take(k as int), b),
            ok ==> domains_ok(pending@) && domains_ok(out@),
            b == opt_view(base),
            match base_chars {
                Some(bc) => b == Some(bc@),
                None => b is None,
            },
        decreases pending.len(),
    {
        let ghost before_vec = pending@;
        let ghost old_out = specs_view(out@);
        let spec = pending.remove(0);
        assert(pending@ =~= before_vec.drop_first());
        assert(specs_view(pending@) =~= specs_view(before_vec).drop_first());
        assert(specs_view(before_vec)[0] == before_vec[0]@);
        assert(spec@ == input[k as int]);
        let resolved = match &base_chars {
            Some(bc) => {
                let p = chars_of(spec.path.as_str());
                if p.len() > 0 && p[0] == '/' {
                    spec
                } else {
                    let joined = join(bc, &p);
                    ExportSpec {
                        domains: spec.domains,
                        path: string_of(&joined),
                        format_override: spec.format_override,
                    }
                }
            },
            None => spec,
        };
        assert(resolved@ == resolve_spec(input[k as int], b));
        let ghost rs = resolved;
        let ghost out_before = out@;
        out.push(resolved);
        proof {
            if ok {
                assert(before_vec[0].domains == rs.domains);
                assert forall|j: int| 0 <= j < pending@.len() implies domains_wf(#[trigger] pending@[j]) by {
                    assert(pending@[j] == before_vec[j + 1]);
                }
                assert forall|j: int| 0 <= j < out@.len() implies domains_wf(#[trigger] out@[j]) by {
                    if j < out@.len() - 1 {
                        assert(out@[j] == out_before[j]);
                    }
                }
            }
            assert(input.take(k + 1) =~= input.take(k as int).push(input[k as int]));
            assert(specs_view(out@) =~= old_out.push(resolved@));
            assert(resolve_all(input.take(k + 1), b) =~= resolve_all(input.take(k as int), b).push(
                resolve_spec(input[k as int], b),
            ));
        }
        k = k + 1;
        assert(specs_view(pending@) =~= input.skip(k as int));
    }
    assert(input.take(n as int) =~= input);
    out
}

/// The settings of a sync run.
#[derive(Debug)]
pub struct Config {
    pub server_url: String,
    pub uuid: String,
    pub password: String,
    pub exports: Vec<ExportSpec>,
    pub global_format: OutputFormat,
    /// The configured crypto type; `None` leaves the choice to the server.
    pub crypto_type: Option<String>,
    /// Seconds between two sync rounds.
    pub interval_secs: u64,
    pub once: bool,
    pub dry_run: bool,
}

/// The format in which `spec` is written: its own, else the configured one.
pub open spec fn format_for(global: OutputFormat, spec: ExportSpecView) -> OutputFormat {
    match spec.format_override {
        Some(f) => f,
        None => global,
    }
}

impl Config {
    /// The format in which `spec` is written.
    pub fn resolve_format(&self, spec: &ExportSpec) -> (res: OutputFormat)
        ensures
            res == format_for(self.global_format, spec@),
    {
        match spec.format_override {
            Some(f) => f,
            None => self.global_format,
        }
    }
}

/// The crypto type kept from the configuration: `auto`, in any ASCII case, means
/// none.
pub open spec fn configured_crypto_type(c: Option<Seq<char>>) -> Option<Seq<char>> {
    match c {
        Some(v) => if ascii_lowercase(v) == ascii_lowercase("auto"@) {
            None
        } else {
            Some(v)
        },
        None => None,
    }
}

/// The specs given on the command line, if any were.
pub open spec fn cli_specs_of(cli: Seq<Seq<char>>) -> Option<Result<Seq<ExportSpecView>, ConfigErrorView>> {
    if cli.len() == 0 {
        None
    } else {
        Some(export_specs_of(cli, false))
    }
}

/// The specs given by `EXPORT_SPECS`, if it is set and not empty.
pub open spec fn env_specs_of(env: Option<Seq<char>>) -> Option<Result<Seq<ExportSpecView>, ConfigErrorView>> {
    match env {
        Some(e) => if e.len() > 0 {
            Some(export_env_of(e))
        } else {
            None
        },
        None => None,
    }
}

/// The error that refuses a configuration, if one does: the format first, then
/// the command-line specs, then `EXPORT_SPECS`, then the lack of any spec.
pub open spec fn config_error_of(
    format: Seq<char>,
    cli: Seq<Seq<char>>,
    env: Option<Seq<char>>,
) -> Option<ConfigErrorView> {
    if format_named(format) is None {
        Some(ConfigErrorView::InvalidFormat(format))
    } else if cli_specs_of(cli) matches Some(Err(_)) {
        Some(cli_specs_of(cli)->0->Err_0)
    } else if env_specs_of(env) matches Some(Err(_)) {
        Some(env_specs_of(env)->0->Err_0)
    } else if cli_specs_of(cli) is None && env_specs_of(env) is None {
        Some(ConfigErrorView::NoExports)
    } else {
        None
    }
}

/// Whether `exports` are the specs of an accepted configuration: those of the
/// command line, or of `EXPORT_SPECS`, or both merged with the command line
/// winning; then resolved against the output directory.
pub open spec fn config_exports_ok(
    exports: Seq<ExportSpecView>,
    cli: Seq<Seq<char>>,
    env: Option<Seq<char>>,
    output_dir: Option<Seq<char>>,
) -> bool {
    match (cli_specs_of(cli), env_specs_of(env)) {
        (Some(Ok(c)), Some(Ok(e))) => exists|m: Seq<ExportSpecView>|
            is_merge_of(m, e + c) && exports == resolve_all(m, output_dir),
        (Some(Ok(c)), None) => exports == resolve_all(c, output_dir),
        (None, Some(Ok(e))) => exports == resolve_all(e, output_dir),
        _ => false,
    }
}

/// Assembles the configuration from the command line and the environment.
#[allow(clippy::too_many_arguments)]
pub fn build_config(
    server_url: String,
    uuid: String,
    password: String,
    output_format_str: String,
    interval_secs: u64,
    once: bool,
    dry_run: bool,
    export_cli: Vec<String>,
    export_env: Option<String>,
    crypto_type: Option<String>,
    output_dir: Option<String>,
) -> (res: Result<Config, ConfigError>)
    ensures
        match res {
            Err(e) => config_error_of(
                output_format_str@,
                strings_view(export_cli@),
                opt_view(export_env),
            ) == Some(e@),
            Ok(c) => {
                &&& config_error_of(
                    output_format_str@,
                    strings_view(export_cli@),
                    opt_view(export_env),
                ) is None
                &&& c.server_url == server_url
                &&& c.uuid == uuid
                &&& c.password == password
                &&& Some(c.global_format) == format_named(output_format_str@)
                &&& opt_view(c.crypto_type) == configured_crypto_type(opt_view(crypto_type))
                &&& c.interval_secs == interval_secs
                &&& c.once == once
                &&& c.dry_run == dry_run
                &&& config_exports_ok(
                    specs_view(c.exports@),
                    strings_view(export_cli@),
                    opt_view(export_env),
                    opt_view(output_dir),
                )
                &&& domains_ok(c.exports@)
            },
        },
{
    let global_format = match OutputFormat::parse(output_format_str.as_str()) {
        Ok(f) => f,
        Err(e) => {
            return Err(e);
        },
    };
    let cli_specs: Option<Vec<ExportSpec>> = if export_cli.len() > 0 {
        match parse_spec_list(&export_cli, false) {
            Ok(v) => Some(v),
            Err(e) => {
                return Err(e);
            },
        }
    } else {
        None
    };
    let env_specs: Option<Vec<ExportSpec>> = match &export_env {
        Some(val) => {
            if val.as_str().is_empty() {
                None
            } else {
                match parse_export_env(val.as_str()) {
                    Ok(v) => Some(v),
                    Err(e) => {
                        return Err(e);
                    },
                }
            }
        },
        None => None,
    };
    let ghost cli_view = match &cli_specs {
        Some(v) => specs_view(v@),
        None => Seq::empty(),
    };
    let ghost env_view = match &env_specs {
        Some(v) => specs_view(v@),
        None => Seq::empty(),
    };
    let ghost both = cli_specs is Some && env_specs is Some;
    let ghost merged = Seq::<ExportSpecView>::empty();
    let exports = match (cli_specs, env_specs) {
        (Some(cli), Some(env)) => {
            let m = merge_exports(env, cli);
            proof {
                merged = specs_view(m@);
            }
            m
        },
        (Some(cli), None) => cli,
        (None, Some(env)) => env,
        (None, None) => {
            return Err(ConfigError::NoExports);
        },
    };
    let crypto_type = match crypto_type {
        Some(v) => if eq_ignore_ascii_case(v.as_str(), "auto") {
            None
        } else {
            Some(v)
        },
        None => None,
    };
    let ghost unresolved = specs_view(exports@);
    let exports = resolve_export_paths(exports, output_dir);
    proof {
        if both {
            assert(is_merge_of(merged, env_view + cli_view));
            assert(specs_view(exports@) == resolve_all(merged, opt_view(output_dir)));
        }
    }
    Ok(
        Config {
            server_url,
            uuid,
            password,
            exports,
            global_format,
            crypto_type,
            interval_secs,
            once,
            dry_run,
        },
    )
}


/// A spec of `higher` wins over every spec of `lower` with the same path: the
/// command line overrides `EXPORT_SPECS`.
pub proof fn lemma_higher_wins(lower: Seq<ExportSpecView>, higher: Seq<ExportSpecView>, p: Seq<char>)
    requires
        path_taken(higher, p),
    ensures
        last_with_path(lower + higher, p) == last_with_path(higher, p),
    decreases higher.len(),
{
    assert((lower + higher).drop_last() =~= lower + higher.drop_last());
    assert((lower + higher).last() == higher.last());
    if !same_path(higher.last().path, p) {
        let j = choose|j: int| 0 <= j < higher.len() && same_path(#[trigger] higher[j].path, p);
        assert(higher.drop_last()[j] == higher[j]);
        lemma_higher_wins(lower, higher.drop_last(), p);
    }
}

/// Paths with the same components have the same last spec.
proof fn lemma_last_with_same_path(s: Seq<ExportSpecView>, p: Seq<char>, q: Seq<char>)
    requires
        same_path(p, q),
    ensures
        last_with_path(s, p) == last_with_path(s, q),
    decreases s.len(),
{
    if s.len() > 0 {
        lemma_last_with_same_path(s.drop_last(), p, q);
    }
}

/// Whether every path of `a` is one of `b`.
pub open spec fn paths_covered(a: Seq<ExportSpecView>, b: Seq<ExportSpecView>) -> bool {
    forall|i: int| 0 <= i < a.len() ==> path_taken(b, #[trigger] a[i].path)
}

/// Whether `r` is strictly sorted by path.
pub open spec fn sorted_by_path(r: Seq<ExportSpecView>) -> bool {
    forall|i: int, j: int| 0 <= i < j < r.len() ==> path_lt(#[trigger] r[i].path, #[trigger] r[j].path)
}

proof fn lemma_cover_tail(r1: Seq<ExportSpecView>, r2: Seq<ExportSpecView>)
    requires
        r1.len() > 0,
        r2.len() > 0,
        sorted_by_path(r1),
        paths_covered(r1, r2),
        same_path(r1[0].path, r2[0].path),
    ensures
        paths_covered(r1.drop_first(), r2.drop_first()),
{
    let t1 = r1.drop_first();
    let t2 = r2.drop_first();
    assert forall|a: int| 0 <= a < t1.len() implies path_taken(t2, #[trigger] t1[a].path) by {
        assert(t1[a] == r1[a + 1]);
        assert(path_lt(r1[0].path, r1[a + 1].path));
        assert(path_taken(r2, r1[a + 1].path));
        let b = choose|b: int| 0 <= b < r2.len() && same_path(#[trigger] r2[b].path, r1[a + 1].path);
        crate::paths::lemma_path_lt_order(r1[0].path, r1[a + 1].path, r1[0].path);
        assert(b != 0);
        assert(t2[b - 1] == r2[b]);
    }
}

proof fn lemma_sorted_tail(r: Seq<ExportSpecView>)
    requires
        r.len() > 0,
        sorted_by_path(r),
    ensures
        sorted_by_path(r.drop_first()),
{
    let t = r.drop_first();
    assert forall|a: int, b: int| 0 <= a < b < t.len() implies path_lt(
        #[trigger] t[a].path,
        #[trigger] t[b].path,
    ) by {
        assert(path_lt(r[a + 1].path, r[b + 1].path));
    }
}

proof fn lemma_sorted_same_head(r1: Seq<ExportSpecView>, r2: Seq<ExportSpecView>)
    requires
        r1.len() > 0,
        r2.len() > 0,
        sorted_by_path(r1),
        sorted_by_path(r2),
        paths_covered(r1, r2),
        paths_covered(r2, r1),
    ensures
        same_path(r1[0].path, r2[0].path),
{
    assert(path_taken(r2, r1[0].path));
    let j = choose|j: int| 0 <= j < r2.len() && same_path(#[trigger] r2[j].path, r1[0].path);
    assert(path_taken(r1, r2[0].path));
    let i = choose|i: int| 0 <= i < r1.len() && same_path(#[trigger] r1[i].path, r2[0].path);
    if j > 0 {
        assert(path_lt(r2[0].path, r2[j].path));
        crate::paths::lemma_path_lt_same(r2[0].path, r2[j].path, r1[i].path, r1[0].path);
        crate::paths::lemma_path_lt_order(r1[i].path, r1[0].path, r1[i].path);
        if i > 0 {
            assert(path_lt(r1[0].path, r1[i].path));
        }
    }
}

proof fn lemma_sorted_same_paths(r1: Seq<ExportSpecView>, r2: Seq<ExportSpecView>)
    requires
        sorted_by_path(r1),
        sorted_by_path(r2),
        paths_covered(r1, r2),
        paths_covered(r2, r1),
    ensures
        r1.len() == r2.len(),
        forall|i: int| 0 <= i < r1.len() ==> same_path(#[trigger] r1[i].path, r2[i].path),
    decreases r1.len(),
{
    if r1.len() == 0 {
        if r2.len() > 0 {
            assert(path_taken(r1, r2[0].path));
        }
    } else if r2.len() == 0 {
        assert(path_taken(r2, r1[0].path));
    } else {
        lemma_sorted_same_head(r1, r2);
        lemma_cover_tail(r1, r2);
        lemma_cover_tail(r2, r1);
        lemma_sorted_tail(r1);
        lemma_sorted_tail(r2);
        let t1 = r1.drop_first();
        let t2 = r2.drop_first();
        lemma_sorted_same_paths(t1, t2);
        assert forall|a: int| 0 <= a < r1.len() implies same_path(#[trigger] r1[a].path, r2[a].path) by {
            if a > 0 {
                assert(t1[a - 1] == r1[a]);
                assert(t2[a - 1] == r2[a]);
            }
        }
    }
}

proof fn lemma_merge_covers(r1: Seq<ExportSpecView>, r2: Seq<ExportSpecView>, all: Seq<ExportSpecView>)
    requires
        forall|i: int| 0 <= i < r1.len() ==> path_taken(all, #[trigger] r1[i].path),
        forall|k: int| 0 <= k < all.len() ==> path_taken(r2, #[trigger] all[k].path),
    ensures
        paths_covered(r1, r2),
{
    assert forall|i: int| 0 <= i < r1.len() implies path_taken(r2, #[trigger] r1[i].path) by {
        let k = choose|k: int| 0 <= k < all.len() && same_path(#[trigger] all[k].path, r1[i].path);
        assert(path_taken(r2, all[k].path));
        let m = choose|m: int| 0 <= m < r2.len() && same_path(#[trigger] r2[m].path, all[k].path);
        assert(same_path(r2[m].path, r1[i].path));
    }
}

proof fn lemma_equal_by_winner(r1: Seq<ExportSpecView>, r2: Seq<ExportSpecView>, all: Seq<ExportSpecView>)
    requires
        r1.len() == r2.len(),
        forall|i: int| 0 <= i < r1.len() ==> same_path(#[trigger] r1[i].path, r2[i].path),
        forall|i: int| 0 <= i < r1.len() ==> #[trigger] r1[i] == last_with_path(all, r1[i].path),
        forall|i: int| 0 <= i < r2.len() ==> #[trigger] r2[i] == last_with_path(all, r2[i].path),
    ensures
        r1 == r2,
{
    assert forall|i: int| 0 <= i < r1.len() implies r1[i] == r2[i] by {
        assert(same_path(r1[i].path, r2[i].path));
        lemma_last_with_same_path(all, r1[i].path, r2[i].path);
    }
    assert(r1 =~= r2);
}

/// A merge is determined by what it merges: two merges of the same specs are
/// equal.
pub proof fn lemma_merge_unique(r1: Seq<ExportSpecView>, r2: Seq<ExportSpecView>, all: Seq<ExportSpecView>)
    requires
        is_merge_of(r1, all),
        is_merge_of(r2, all),
    ensures
        r1 == r2,
{
    lemma_merge_covers(r1, r2, all);
    lemma_merge_covers(r2, r1, all);
    lemma_sorted_same_paths(r1, r2);
    lemma_equal_by_winner(r1, r2, all);
}

/// Specs parsed from one list never share a path.
pub proof fn lemma_parsed_paths_distinct(entries: Seq<Seq<char>>, env: bool)
    ensures
        export_specs_of(entries, env) matches Ok(v) ==> forall|i: int, j: int|
            0 <= i < j < v.len() ==> !same_path(#[trigger] v[i].path, #[trigger] v[j].path),
    decreases entries.len(),
{
    if entries.len() > 0 {
        lemma_parsed_paths_distinct(entries.drop_last(), env);
        if export_specs_of(entries, env) is Ok {
            let v = export_specs_of(entries, env)->Ok_0;
            let done = v.drop_last();
            assert forall|i: int, j: int| 0 <= i < j < v.len() implies !same_path(
                #[trigger] v[i].path,
                #[trigger] v[j].path,
            ) by {
                if j == v.len() - 1 {
                    assert(v[i] == done[i]);
                    if same_path(v[i].path, v[j].path) {
                        assert(path_taken(done, v[j].path));
                    }
                } else {
                    assert(v[i] == done[i]);
                    assert(v[j] == done[j]);
                }
            }
        }
    }
}

/// Specs parsed from a list follow its entries one to one and in order: each is
/// what its entry parses to.
pub proof fn lemma_parsed_specs_in_order(entries: Seq<Seq<char>>, env: bool)
    ensures
        export_specs_of(entries, env) matches Ok(v) ==> v.len() == entries.len() && forall|i: int|
            0 <= i < v.len() ==> export_spec_of(#[trigger] entries[i]) == Ok::<
                ExportSpecView,
                ConfigErrorView,
            >(v[i]),
    decreases entries.len(),
{
    if entries.len() > 0 {
        lemma_parsed_specs_in_order(entries.drop_last(), env);
        if export_specs_of(entries, env) is Ok {
            let v = export_specs_of(entries, env)->Ok_0;
            let done = v.drop_last();
            assert forall|i: int| 0 <= i < v.len() implies export_spec_of(#[trigger] entries[i])
                == Ok::<ExportSpecView, ConfigErrorView>(v[i]) by {
                if i < v.len() - 1 {
                    assert(v[i] == done[i]);
                    assert(entries[i] == entries.drop_last()[i]);
                }
            }
        }
    }
}

/// The specs of `EXPORT_SPECS` are those of its trimmed, non-empty `;`-separated
/// entries, one to one and in order, and no two share a path.
pub proof fn lemma_env_specs(raw: Seq<char>)
    ensures
        export_env_of(raw) matches Ok(v) ==> {
            &&& v.len() == env_entries(raw).len()
            &&& forall|i: int|
                0 <= i < v.len() ==> export_spec_of(#[trigger] env_entries(raw)[i]) == Ok::<
                    ExportSpecView,
                    ConfigErrorView,
                >(v[i])
            &&& forall|i: int, j: int|
                0 <= i < j < v.len() ==> !same_path(#[trigger] v[i].path, #[trigger] v[j].path)
        },
{
    lemma_parsed_specs_in_order(env_entries(raw), true);
    lemma_parsed_paths_distinct(env_entries(raw), true);
}

/// The specs the command line gives, none where it gives none or is refused.
pub open spec fn cli_given(cli: Seq<Seq<char>>) -> Seq<ExportSpecView> {
    match cli_specs_of(cli) {
        Some(Ok(c)) => c,
        _ => Seq::empty(),
    }
}

/// The specs `EXPORT_SPECS` gives, none where it gives none or is refused.
pub open spec fn env_given(env: Option<Seq<char>>) -> Seq<ExportSpecView> {
    match env_specs_of(env) {
        Some(Ok(e)) => e,
        _ => Seq::empty(),
    }
}

/// In a list whose paths are distinct, the last spec with a path is the one
/// spec with it.
proof fn lemma_last_with_path_unique(s: Seq<ExportSpecView>, k: int, p: Seq<char>)
    requires
        forall|i: int, j: int| 0 <= i < j < s.len() ==> !same_path(#[trigger] s[i].path, #[trigger] s[j].path),
        0 <= k < s.len(),
        same_path(s[k].path, p),
    ensures
        last_with_path(s, p) == s[k],
    decreases s.len(),
{
    if k < s.len() - 1 {
        assert(!same_path(s[k].path, s.last().path));
        let t = s.drop_last();
        assert forall|i: int, j: int| 0 <= i < j < t.len() implies !same_path(
            #[trigger] t[i].path,
            #[trigger] t[j].path,
        ) by {
            assert(t[i] == s[i] && t[j] == s[j]);
        }
        assert(t[k] == s[k]);
        lemma_last_with_path_unique(t, k, p);
    }
}

/// Without an output directory, the exports of an accepted configuration name
/// distinct paths, and exactly the paths of the specs given on the command line
/// and in `EXPORT_SPECS`; where the command line names a path, its spec is the
/// one kept.
pub proof fn lemma_config_exports(
    exports: Seq<ExportSpecView>,
    cli: Seq<Seq<char>>,
    env: Option<Seq<char>>,
)
    requires
        config_exports_ok(exports, cli, env, None),
    ensures
        forall|i: int, j: int|
            0 <= i < j < exports.len() ==> !same_path(#[trigger] exports[i].path, #[trigger] exports[j].path),
        forall|i: int|
            0 <= i < exports.len() ==> path_taken(env_given(env) + cli_given(cli), #[trigger] exports[i].path),
        forall|k: int|
            0 <= k < (env_given(env) + cli_given(cli)).len() ==> path_taken(
                exports,
                #[trigger] (env_given(env) + cli_given(cli))[k].path,
            ),
        forall|i: int, k: int|
            0 <= i < exports.len() && 0 <= k < cli_given(cli).len() && same_path(
                #[trigger] exports[i].path,
                #[trigger] cli_given(cli)[k].path,
            ) ==> exports[i] == cli_given(cli)[k],
{
    let c = cli_given(cli);
    let e = env_given(env);
    let g = e + c;
    lemma_parsed_paths_distinct(cli, false);
    if let Some(ev) = env {
        if ev.len() > 0 && env_entries(ev).len() > 0 {
            lemma_parsed_paths_distinct(env_entries(ev), true);
        }
    }
    match (cli_specs_of(cli), env_specs_of(env)) {
        (Some(Ok(cs)), Some(Ok(es))) => {
            let m = choose|m: Seq<ExportSpecView>| is_merge_of(m, es + cs) && exports == resolve_all(m, None);
            lemma_resolve_without_base(m);
            assert(exports == m);
            assert forall|i: int, j: int| 0 <= i < j < exports.len() implies !same_path(
                #[trigger] exports[i].path,
                #[trigger] exports[j].path,
            ) by {
                crate::paths::lemma_path_lt_order(exports[i].path, exports[j].path, exports[j].path);
            }
            assert forall|i: int, k: int|
                0 <= i < exports.len() && 0 <= k < c.len() && same_path(
                    #[trigger] exports[i].path,
                    #[trigger] c[k].path,
                ) implies exports[i] == c[k] by {
                let p = exports[i].path;
                assert(path_taken(c, p));
                lemma_higher_wins(e, c, p);
                lemma_last_with_path_unique(c, k, p);
            }
        },
        _ => {
            lemma_resolve_without_base(g);
            assert(g =~= c || g =~= e);
            assert(exports == g);
            assert forall|i: int| 0 <= i < exports.len() implies path_taken(g, #[trigger] exports[i].path) by {
                assert(same_path(g[i].path, exports[i].path));
            }
            assert forall|k: int| 0 <= k < g.len() implies path_taken(exports, #[trigger] g[k].path) by {
                assert(same_path(exports[k].path, g[k].path));
            }
            assert forall|i: int, k: int|
                0 <= i < exports.len() && 0 <= k < c.len() && same_path(
                    #[trigger] exports[i].path,
                    #[trigger] c[k].path,
                ) implies exports[i] == c[k] by {
                if c.len() > 0 {
                    assert(g == c);
                    if i != k {
                        if i < k {
                            assert(!same_path(c[i].path, c[k].path));
                        } else {
                            assert(!same_path(c[k].path, c[i].path));
                        }
                    }
                }
            }
        },
    }
}

/// Without an output directory no path changes.
pub proof fn lemma_resolve_without_base(v: Seq<ExportSpecView>)
    ensures
        resolve_all(v, None) == v,
{
    assert(resolve_all(v, None) =~= v);
}

/// An output directory leaves absolute paths as they are and puts relative ones
/// under it.
pub proof fn lemma_resolve_with_base(s: ExportSpecView, base: Seq<char>)
    ensures
        has_root(s.path) ==> resolve_spec(s, Some(base)) == s,
        !has_root(s.path) ==> resolve_spec(s, Some(base)).path == join_path(base, s.path)
            && resolve_spec(s, Some(base)).domains == s.domains
            && resolve_spec(s, Some(base)).format_override == s.format_override,
{
}

} // verus!
