use cookiecloud_sync::client::{
    fetch_url, has_payload, is_success_status, truncate_error_body, MAX_ERROR_BODY,
};
use cookiecloud_sync::cookiefile::{netscape_document, NetscapeCookie};
use cookiecloud_sync::decrypt::{
    decrypt, decrypt_bytes, decrypt_legacy, encrypt, encrypt_legacy_with_salt, evp_bytes_to_key,
    md5_hex_prefix, DecryptError, EncryptError,
};
use cookiecloud_sync::domains::select_key;
use cookiecloud_sync::sync::{
    after_round, after_write, choose_crypto_type, plan_exports, round_result, write_targets, FileKind,
    LoopStep, WriteStep,
};
use cookiecloud_sync::{
    build_config, merge_exports, parse_export_env, parse_export_spec, resolve_export_paths,
    ConfigError, DomainSet, EncryptedResponse, ExportSpec, OutputFormat,
};
use std::path::PathBuf;
use base64::Engine;

fn spec(path: &str) -> ExportSpec {
    ExportSpec {
        domains: None,
        path: path.to_string(),
        format_override: None,
    }
}

fn cli_config(exports: Vec<&str>, env: Option<&str>, crypto: Option<&str>, dir: Option<&str>) -> Result<cookiecloud_sync::Config, ConfigError> {
    build_config(
        "http://localhost".into(),
        "uuid".into(),
        "pwd".into(),
        "netscape".into(),
        300,
        true,
        false,
        exports.into_iter().map(String::from).collect(),
        env.map(String::from),
        crypto.map(String::from),
        dir.map(String::from),
    )
}

#[test]
fn output_format_names() {
    assert_eq!(OutputFormat::parse("netscape").unwrap(), OutputFormat::Netscape);
    assert_eq!(OutputFormat::parse("json").unwrap(), OutputFormat::Json);
    assert_eq!(OutputFormat::parse("both").unwrap(), OutputFormat::Both);
    match OutputFormat::parse("JSON") {
        Err(ConfigError::InvalidFormat(s)) => assert_eq!(s, "JSON"),
        other => panic!("unexpected {other:?}"),
    }
}

#[test]
fn config_error_messages() {
    assert_eq!(
        ConfigError::InvalidFormat("xml".into()).message(),
        "invalid format 'xml'; use netscape, json, or both"
    );
    assert_eq!(ConfigError::ExportSpec("bad".into()).message(), "bad");
    assert_eq!(
        ConfigError::DuplicateExport("a.txt".into()).message(),
        "duplicate output path in --export: a.txt"
    );
    assert_eq!(
        ConfigError::DuplicateEnvExport("a.txt".into()).message(),
        "duplicate output path in EXPORT_SPECS: a.txt"
    );
    assert_eq!(
        ConfigError::EmptyEnvExport.message(),
        "EXPORT_SPECS is empty or contains no valid specs"
    );
    assert_eq!(
        ConfigError::NoExports.message(),
        "no export specs provided; use --export or set EXPORT_SPECS"
    );
}

#[test]
fn export_spec_error_texts() {
    assert_eq!(
        parse_export_spec("youtube.com").unwrap_err().message(),
        "invalid --export value, missing ':' separator"
    );
    assert_eq!(
        parse_export_spec("a:b:xml").unwrap_err().message(),
        "unknown format 'xml' in --export; use netscape, json, or both"
    );
    assert_eq!(
        parse_export_spec(" , ,:x.txt").unwrap_err().message(),
        "empty domain list in --export"
    );
    assert_eq!(
        parse_export_spec(":").unwrap_err().message(),
        "empty output path in --export"
    );
}

#[test]
fn export_spec_format_checked_before_path() {
    assert_eq!(
        parse_export_spec("a::nope").unwrap_err().message(),
        "unknown format 'nope' in --export; use netscape, json, or both"
    );
}

#[test]
fn export_spec_rest_after_second_colon_is_format() {
    assert_eq!(
        parse_export_spec("a:b:json:x").unwrap_err().message(),
        "unknown format 'json:x' in --export; use netscape, json, or both"
    );
}

#[test]
fn export_spec_domains_trimmed_and_deduplicated() {
    let spec = parse_export_spec(" YouTube.com ,youtube.com,\u{3000}GitHub.com\t:out.txt:both").unwrap();
    let domains = spec.domains.unwrap();
    assert!(domains.contains("youtube.com"));
    assert!(domains.contains("github.com"));
    assert!(!domains.contains(" youtube.com"));
    let names = domains.to_vec();
    assert_eq!(names.len(), 2);
    assert_eq!(spec.format_override, Some(OutputFormat::Both));
    assert_eq!(spec.path, "out.txt");
}

#[test]
fn export_spec_path_kept_verbatim() {
    let spec = parse_export_spec("a: dir/x.txt ").unwrap();
    assert_eq!(spec.path, " dir/x.txt ");
}

#[test]
fn export_spec_all_means_every_domain() {
    assert!(parse_export_spec("all:/output/cookies.txt").unwrap().domains.is_none());
    assert!(parse_export_spec(" ALL :c.txt").unwrap().domains.is_none());
    let some = parse_export_spec("all,github.com:c.txt").unwrap().domains.unwrap();
    assert!(some.contains("all"));
    assert!(some.contains("github.com"));
}

#[test]
fn env_entries_trimmed_and_empty_skipped() {
    let specs = parse_export_env("  ;  a.com:1.txt ; ;b.com:2.txt:json;").unwrap();
    assert_eq!(specs.len(), 2);
    assert_eq!(specs[0].path, "1.txt");
    assert_eq!(specs[1].path, "2.txt");
    assert_eq!(specs[1].format_override, Some(OutputFormat::Json));
    assert!(matches!(parse_export_env(" ; ; "), Err(ConfigError::EmptyEnvExport)));
}

#[test]
fn env_first_error_wins() {
    match parse_export_env("a:1.txt;bad;a:1.txt") {
        Err(ConfigError::ExportSpec(m)) => assert!(m.contains("missing ':'")),
        other => panic!("unexpected {other:?}"),
    }
    match parse_export_env("a:1.txt;b:./x/../1.txt;c:1.txt") {
        Err(ConfigError::DuplicateEnvExport(p)) => assert_eq!(p, "1.txt"),
        other => panic!("unexpected {other:?}"),
    }
}

#[test]
fn duplicate_paths_compared_by_components() {
    assert!(matches!(
        parse_export_env("a:dir//x.txt;b:dir/x.txt"),
        Err(ConfigError::DuplicateEnvExport(_))
    ));
    assert!(matches!(
        parse_export_env("a:dir/x/;b:dir/./x"),
        Err(ConfigError::DuplicateEnvExport(_))
    ));
    assert_eq!(parse_export_env("a:./x.txt;b:x.txt").unwrap().len(), 2);
    assert_eq!(parse_export_env("a:/x.txt;b:x.txt").unwrap().len(), 2);
}

#[test]
fn merge_sorted_like_std_paths() {
    let paths = ["b.txt", "a/b", "a.txt", "/z", "./q", "../p", "a", "A", "a-b", "a/"];
    let lower: Vec<ExportSpec> = paths[..5].iter().map(|p| spec(p)).collect();
    let higher: Vec<ExportSpec> = paths[5..].iter().map(|p| spec(p)).collect();
    let merged = merge_exports(lower, higher);
    let got: Vec<PathBuf> = merged.iter().map(|s| PathBuf::from(&s.path)).collect();
    let mut expected: Vec<PathBuf> = paths.iter().map(PathBuf::from).collect();
    expected.sort();
    expected.dedup();
    assert_eq!(got, expected);
    assert_eq!(merged.len(), 9);
}

#[test]
fn merge_later_spec_wins_within_a_list() {
    let mut first = spec("x.txt");
    first.format_override = Some(OutputFormat::Json);
    let mut second = spec("x.txt");
    second.format_override = Some(OutputFormat::Both);
    let merged = merge_exports(vec![first, second], vec![]);
    assert_eq!(merged.len(), 1);
    assert_eq!(merged[0].format_override, Some(OutputFormat::Both));
}

#[test]
fn merge_higher_wins_with_equivalent_path() {
    let mut low = spec("out//x.txt");
    low.format_override = Some(OutputFormat::Json);
    let high = spec("out/x.txt");
    let merged = merge_exports(vec![low], vec![high]);
    assert_eq!(merged.len(), 1);
    assert_eq!(merged[0].path, "out/x.txt");
    assert_eq!(merged[0].format_override, None);
}

#[test]
fn resolve_paths_against_base() {
    let out = resolve_export_paths(
        vec![spec("a.txt"), spec("/abs.txt"), spec("d/b.txt")],
        Some("/output/".to_string()),
    );
    assert_eq!(out[0].path, "/output/a.txt");
    assert_eq!(out[1].path, "/abs.txt");
    assert_eq!(out[2].path, "/output/d/b.txt");
    let out = resolve_export_paths(vec![spec("a.txt")], Some(String::new()));
    assert_eq!(out[0].path, "a.txt");
    let out = resolve_export_paths(vec![spec("a.txt")], None);
    assert_eq!(out[0].path, "a.txt");
    let joined = PathBuf::from("out").join("a.txt");
    let out = resolve_export_paths(vec![spec("a.txt")], Some("out".to_string()));
    assert_eq!(PathBuf::from(&out[0].path), joined);
}

#[test]
fn build_config_keeps_fields_and_filters_auto() {
    let c = cli_config(vec![":a.txt"], None, Some("AuTo"), None).unwrap();
    assert!(c.crypto_type.is_none());
    assert_eq!(c.server_url, "http://localhost");
    assert_eq!(c.uuid, "uuid");
    assert_eq!(c.password, "pwd");
    assert_eq!(c.interval_secs, 300);
    assert!(c.once);
    assert!(!c.dry_run);
    let c = cli_config(vec![":a.txt"], None, Some("Legacy"), None).unwrap();
    assert_eq!(c.crypto_type.as_deref(), Some("Legacy"));
}

#[test]
fn build_config_error_order() {
    let r = build_config(
        "h".into(),
        "u".into(),
        "p".into(),
        "xml".into(),
        1,
        false,
        false,
        vec!["bad".into()],
        None,
        None,
        None,
    );
    assert!(matches!(r, Err(ConfigError::InvalidFormat(_))));
    assert!(matches!(
        cli_config(vec!["bad"], Some(""), None, None),
        Err(ConfigError::ExportSpec(_))
    ));
    assert!(matches!(
        cli_config(vec![], Some(""), None, None),
        Err(ConfigError::NoExports)
    ));
    assert!(matches!(
        cli_config(vec![":a.txt"], Some("x:1;x:1"), None, None),
        Err(ConfigError::DuplicateEnvExport(_))
    ));
}

#[test]
fn build_config_merged_exports_are_sorted() {
    let c = cli_config(vec!["z.com:z.txt"], Some("a.com:a.txt;m.com:m.txt"), None, Some("/o")).unwrap();
    let paths: Vec<&str> = c.exports.iter().map(|e| e.path.as_str()).collect();
    assert_eq!(paths, vec!["/o/a.txt", "/o/m.txt", "/o/z.txt"]);
}

#[test]
fn decrypt_error_texts() {
    assert_eq!(
        DecryptError::InvalidCiphertext("x".into()).message(),
        "invalid ciphertext: x"
    );
    assert_eq!(
        DecryptError::UnsupportedCryptoType("y".into()).message(),
        "unsupported crypto type: y"
    );
    assert_eq!(DecryptError::DecryptionFailed.message(), "decryption failed");
    assert_eq!(EncryptError::EncryptionFailed.message(), "encryption failed");
    assert_eq!(EncryptError::RngError("z".into()).message(), "RNG error: z");
}

#[test]
fn md5_hex_prefix_known_answer() {
    let key = md5_hex_prefix("test-uuid", "test-password");
    assert_eq!(key, b"ec6247276ab112e3".to_vec());
}

#[test]
fn evp_bytes_to_key_known_answer() {
    let (key, iv) = evp_bytes_to_key(b"password", b"12345678");
    assert_eq!(
        key,
        vec![
            187, 176, 221, 255, 27, 148, 75, 60, 198, 142, 170, 235, 122, 194, 0, 153, 229, 21,
            91, 174, 110, 210, 143, 102, 139, 96, 203, 196, 21, 125, 225, 189
        ]
    );
    assert_eq!(
        iv,
        vec![250, 29, 217, 171, 93, 98, 215, 135, 37, 110, 184, 174, 200, 45, 228, 66]
    );
}

#[test]
fn decrypt_legacy_requires_salted_header() {
    let mut data = b"NotSalt_12345678".to_vec();
    data.extend_from_slice(&[0u8; 16]);
    match decrypt_legacy(&data, b"pass") {
        Err(DecryptError::InvalidCiphertext(m)) => assert_eq!(m, "missing Salted__ prefix"),
        other => panic!("unexpected {other:?}"),
    }
    match decrypt_legacy(b"short", b"pass") {
        Err(DecryptError::InvalidCiphertext(m)) => assert_eq!(m, "data too short"),
        other => panic!("unexpected {other:?}"),
    }
}

#[test]
fn decrypt_reports_unsupported_type_verbatim() {
    match decrypt_bytes("u", b"", "p", Some("Foo-Bar")) {
        Err(DecryptError::UnsupportedCryptoType(t)) => assert_eq!(t, "Foo-Bar"),
        other => panic!("unexpected {other:?}"),
    }
}

#[test]
fn crypto_type_matched_without_case() {
    let ct = encrypt("u", "{\"cookie_data\":{}}", "p", Some("AES-128-CBC-FIXED")).unwrap();
    let pt = decrypt("u", &ct, "p", Some("aes-128-cbc-fixed")).unwrap();
    assert_eq!(pt, b"{\"cookie_data\":{}}".to_vec());
    let ct = encrypt("u", "{}", "p", Some("legacy")).unwrap();
    assert_eq!(decrypt("u", &ct, "p", None).unwrap(), b"{}".to_vec());
    assert_eq!(decrypt("u", &ct, "p", Some("LeGaCy")).unwrap(), b"{}".to_vec());
}

#[test]
fn encrypt_unknown_type_fails() {
    assert!(matches!(
        encrypt("u", "x", "p", Some("rot13")),
        Err(EncryptError::EncryptionFailed)
    ));
}

#[test]
fn legacy_salt_is_random_and_framed() {
    let a = encrypt("u", "same", "p", Some("legacy")).unwrap();
    let b = encrypt("u", "same", "p", Some("legacy")).unwrap();
    assert_ne!(a, b);
    let raw = base64::engine::general_purpose::STANDARD.decode(&a).unwrap();
    assert_eq!(&raw[..8], b"Salted__");
    assert_eq!(raw.len(), 32);
}

#[test]
fn legacy_with_given_salt_matches_openssl_layout() {
    let pass = md5_hex_prefix("u", "p");
    let ct = encrypt_legacy_with_salt(b"hello", &pass, b"ABCDEFGH").unwrap();
    assert_eq!(&ct[..8], b"Salted__");
    assert_eq!(&ct[8..16], b"ABCDEFGH");
    assert_eq!(ct.len(), 32);
    assert_eq!(decrypt_legacy(&ct, &pass).unwrap(), b"hello".to_vec());
    let again = encrypt_legacy_with_salt(b"hello", &pass, b"ABCDEFGH").unwrap();
    assert_eq!(ct, again);
}

#[test]
fn fixed_iv_ciphertext_is_whole_blocks() {
    for (text, blocks) in [("", 1usize), ("0123456789abcde", 1), ("0123456789abcdef", 2)] {
        let ct = encrypt("u", text, "p", Some("aes-128-cbc-fixed")).unwrap();
        let raw = base64::engine::general_purpose::STANDARD.decode(&ct).unwrap();
        assert_eq!(raw.len(), 16 * blocks);
        assert_ne!(raw, text.as_bytes().to_vec());
    }
}

#[test]
fn record_url_trims_trailing_slashes() {
    assert_eq!(fetch_url("http://h:8088///", "id"), "http://h:8088/get/id");
    assert_eq!(fetch_url("http://h", "id"), "http://h/get/id");
}

#[test]
fn error_body_cut_to_limit() {
    let long = "x".repeat(1000);
    let kept = truncate_error_body(long);
    assert!(kept.ends_with("... (truncated)"));
    assert!(kept.len() < 600);
    assert_eq!(kept.len(), MAX_ERROR_BODY + "... (truncated)".len());
    let exact = "y".repeat(500);
    assert_eq!(truncate_error_body(exact.clone()), exact);
    let wide = "é".repeat(300);
    let kept = truncate_error_body(wide);
    assert_eq!(kept, format!("{}... (truncated)", "é".repeat(250)));
}

#[test]
fn success_statuses() {
    assert!(is_success_status(200));
    assert!(is_success_status(299));
    assert!(!is_success_status(300));
    assert!(!is_success_status(199));
    assert!(!is_success_status(404));
}

#[test]
fn payload_presence() {
    let empty = EncryptedResponse { encrypted: String::new(), crypto_type: None };
    let full = EncryptedResponse { encrypted: "abc".into(), crypto_type: Some("legacy".into()) };
    assert!(!has_payload(&empty));
    assert!(has_payload(&full));
}

#[test]
fn configured_crypto_type_wins() {
    assert_eq!(
        choose_crypto_type(&Some("legacy".into()), &Some("aes-128-cbc-fixed".into())),
        Some("legacy".to_string())
    );
    assert_eq!(
        choose_crypto_type(&None, &Some("aes-128-cbc-fixed".into())),
        Some("aes-128-cbc-fixed".to_string())
    );
    assert_eq!(choose_crypto_type(&None, &None), None);
}

fn std_json_sibling(p: &str) -> PathBuf {
    let path = PathBuf::from(p);
    let stem = path
        .file_stem()
        .unwrap_or_default()
        .to_str()
        .unwrap_or("cookies")
        .to_string();
    let mut json = path.clone();
    json.set_file_name(format!("{stem}.json"));
    json
}

#[test]
fn both_format_writes_json_beside() {
    for p in [
        "out/cookies.txt",
        "cookies.txt",
        "/cookies.txt",
        "./c.txt",
        "a/b/",
        "a//b/./c.tar.gz",
        ".bashrc",
        "x.",
        "/",
        "..",
        "a/..",
        "./",
        "d/.hidden",
    ] {
        let targets = write_targets(p, OutputFormat::Both);
        assert_eq!(targets.len(), 2);
        assert_eq!(targets[0].path, p);
        assert_eq!(targets[0].kind, FileKind::Netscape);
        assert_eq!(targets[1].kind, FileKind::Json);
        assert_eq!(PathBuf::from(&targets[1].path), std_json_sibling(p), "path {p}");
        assert_eq!(targets[1].path, std_json_sibling(p).to_str().unwrap(), "path {p}");
    }
    let one = write_targets("x.txt", OutputFormat::Json);
    assert_eq!(one.len(), 1);
    assert_eq!(one[0].kind, FileKind::Json);
}

#[test]
fn dry_run_plans_no_writes() {
    let mut c = cli_config(vec![":a.txt:both", "b.com:b.txt"], None, None, None).unwrap();
    let plans = plan_exports(&c);
    assert_eq!(plans.len(), 2);
    assert_eq!(plans[0].format, OutputFormat::Both);
    assert_eq!(plans[0].targets.len(), 2);
    assert_eq!(plans[1].format, OutputFormat::Netscape);
    c.dry_run = true;
    let plans = plan_exports(&c);
    assert!(plans.iter().all(|p| p.targets.is_empty()));
}

#[test]
fn loop_steps() {
    assert_eq!(after_round(true, true, 5), (LoopStep::Finish, 0));
    assert_eq!(after_round(false, true, 5), (LoopStep::Wait, 0));
    assert_eq!(after_round(true, false, 5), (LoopStep::Fail, 6));
    assert_eq!(after_round(false, false, 0), (LoopStep::Retry(1), 1));
}

#[test]
fn leading_dots_ignored_in_domain_match() {
    let yt = Some(DomainSet::from_names(vec!["youtube.com".into()]));
    let dot_yt = Some(DomainSet::from_names(vec![".youtube.com".into()]));
    assert!(select_key(&yt, "youtube.com"));
    assert!(select_key(&yt, ".youtube.com"));
    assert!(select_key(&dot_yt, "youtube.com"));
    assert!(select_key(&dot_yt, ".youtube.com"));
    assert!(!select_key(&yt, "music.youtube.com"));
    assert!(select_key(&None, "anything"));
}

#[test]
fn netscape_text() {
    let cookies = vec![
        NetscapeCookie {
            domain: ".example.com".into(),
            name: "session".into(),
            value: "abc".into(),
            path: Some("/app".into()),
            secure: Some(true),
            http_only: Some(true),
            expires: Some(1777777777),
        },
        NetscapeCookie {
            domain: "host.dev".into(),
            name: "t".into(),
            value: "x".into(),
            path: None,
            secure: None,
            http_only: Some(false),
            expires: None,
        },
    ];
    assert_eq!(
        netscape_document(&cookies),
        "# Netscape HTTP Cookie File\n\
         #HttpOnly_.example.com\tTRUE\t/app\tTRUE\t1777777777\tsession\tabc\n\
         host.dev\tFALSE\t/\tFALSE\t0\tt\tx\n"
    );
    assert_eq!(netscape_document(&vec![]), "# Netscape HTTP Cookie File\n");
}

#[test]
fn both_never_overwrites_primary_file() {
    let t = write_targets("/o/cookies.json", OutputFormat::Both);
    assert_eq!(t[0].path, "/o/cookies.json");
    assert_eq!(t[1].path, "/o/cookies.json.json");
    let t = write_targets("a.b.json", OutputFormat::Both);
    assert_eq!(t[1].path, "a.b.json.json");
    let t = write_targets("x.JSON", OutputFormat::Both);
    assert_eq!(t[1].path, "x.json");
    let t = write_targets("/o/c.txt", OutputFormat::Both);
    assert_eq!(t[1].path, "/o/c.json");
}

#[test]
fn failed_write_ends_export() {
    assert_eq!(after_write(0, 2, true), WriteStep::Write(1));
    assert_eq!(after_write(1, 2, true), WriteStep::Done);
    assert_eq!(after_write(0, 2, false), WriteStep::Stop);
    assert_eq!(after_write(0, 1, true), WriteStep::Done);
}

#[test]
fn round_collects_every_failure_in_order() {
    let ok: Result<(), Vec<&str>> = round_result(vec![None, None]);
    assert_eq!(ok, Ok(()));
    let empty: Result<(), Vec<&str>> = round_result(vec![]);
    assert_eq!(empty, Ok(()));
    assert_eq!(round_result(vec![Some("a"), None, Some("c")]), Err(vec!["a", "c"]));
}

#[test]
fn payload_lengths_follow_padding() {
    let text = "01234567890123456789";
    let ct = encrypt("u", text, "p", Some("aes-128-cbc-fixed")).unwrap();
    let raw = base64::engine::general_purpose::STANDARD.decode(&ct).unwrap();
    assert_eq!(raw.len(), 32);
    let ct = encrypt("u", text, "p", Some("LEGACY")).unwrap();
    let raw = base64::engine::general_purpose::STANDARD.decode(&ct).unwrap();
    assert_eq!(raw.len(), 48);
    assert_eq!(&raw[..8], b"Salted__");
}

#[test]
fn domains_lowercased_and_blank_lists_refused() {
    let s = parse_export_spec("YouTube.com, GitHub.COM :a.txt").unwrap();
    let d = s.domains.unwrap();
    assert!(d.contains("youtube.com"));
    assert!(d.contains("github.com"));
    assert!(!d.contains("YouTube.com"));
    assert!(matches!(
        parse_export_spec(" , :a.txt"),
        Err(ConfigError::ExportSpec(_))
    ));
}
