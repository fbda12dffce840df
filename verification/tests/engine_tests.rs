use sprout::actions::init_note;
use sprout::actions::promote_note;
use sprout::actions::review_note;
use sprout::actions::show_note;
use sprout::config::Config;
use sprout::date::Date;
use sprout::error::SproutError;
use sprout::frontmatter::Maturity;
use sprout::notes::compute_stats;
use sprout::notes::filter_due;
use sprout::notes::filter_listed;
use sprout::notes::sort_by_next_review;
use sprout::notes::sort_by_relative_path;
use sprout::notes::NoteMetaInfo;
use sprout::srs::Rating;
use sprout::template::expand;
use sprout::template::split_template_commands;
use sprout::template::validate_title;
use sprout::vault::dedup_by_path;
use sprout::vault::ensure_in_vault;
use sprout::vault::is_md_path_exec;
use sprout::vault::NotePath;

fn day(y: u32, m: u32, d: u32) -> Date {
    Date { year: y, month: m, day: d }
}

fn utf8(v: Vec<u8>) -> String {
    String::from_utf8(v).unwrap()
}

#[test]
fn test_error_codes() {
    assert_eq!(SproutError::FileNotFound("x".into()).error_code(), "file_not_found");
    assert_eq!(SproutError::OutsideVault("x".into()).error_code(), "outside_vault");
    assert_eq!(SproutError::NoFrontmatter("x".into()).error_code(), "no_frontmatter");
    assert_eq!(SproutError::VaultNotFound("x".into()).error_code(), "vault_not_found");
    assert_eq!(SproutError::AlreadyInitialized("x".into()).error_code(), "already_initialized");
    assert_eq!(SproutError::ParseError("x".into()).error_code(), "parse_error");
    assert_eq!(SproutError::InvalidTitle("x".into()).error_code(), "invalid_title");
}

#[test]
fn test_error_display() {
    let e = SproutError::FileNotFound("/foo.md".into());
    assert_eq!(e.message(), "/foo.md: file not found");

    let e = SproutError::OutsideVault("/outside.md".into());
    assert_eq!(e.message(), "/outside.md: file is outside vault");

    let e = SproutError::NoFrontmatter("note.md".into());
    assert_eq!(e.message(), "note.md: missing required sprout frontmatter fields");

    let e = SproutError::AlreadyInitialized("note.md".into());
    assert_eq!(e.message(), "note.md: already initialized with all sprout fields");
}

#[test]
fn test_config_defaults() {
    let config = Config::default();
    assert_eq!(config.max_interval(), 90);
    assert_eq!(config.default_ease(), 250);
    assert_eq!(config.link_weight(), 100_000);
    assert!(config.load_balance());
    assert_eq!(
        config.exclude_dirs(),
        vec![b".git".to_vec(), b".obsidian".to_vec(), b".trash".to_vec()]
    );
    assert!(config.auto_init());
    assert_eq!(config.default_template(), b"default".to_vec());
    assert!(!config.allow_template_exec());
}

#[test]
fn test_config_custom_values() {
    let config = Config {
        vault_path: Some(b"/notes".to_vec()),
        max_interval: Some(180),
        default_ease: Some(300),
        link_weight: Some(200_000),
        load_balance: Some(false),
        exclude_dirs: Some(vec![b"node_modules".to_vec()]),
        auto_init: Some(false),
        template_dir: Some(b"/templates".to_vec()),
        default_template: Some(b"custom".to_vec()),
        allow_template_exec: Some(true),
    };
    assert_eq!(config.max_interval(), 180);
    assert_eq!(config.default_ease(), 300);
    assert_eq!(config.link_weight(), 200_000);
    assert!(!config.load_balance());
    assert_eq!(config.exclude_dirs(), vec![b"node_modules".to_vec()]);
    assert!(!config.auto_init());
    assert_eq!(config.template_dir, Some(b"/templates".to_vec()));
    assert_eq!(config.default_template(), b"custom".to_vec());
    assert!(config.allow_template_exec());
}

#[test]
fn test_expand_builtin_variables() {
    let template = "# {{title}}\n\nCreated: {{date}}\n";
    let result = expand(template.as_bytes(), b"My Note", b"2026-02-27");
    assert_eq!(utf8(result), "# My Note\n\nCreated: 2026-02-27\n");
}

#[test]
fn test_expand_preserves_exec_when_disabled() {
    let template = "# {{title}}\nYear: {{$(date +%Y)}}\n";
    let result = expand(template.as_bytes(), b"Test", b"2026-02-27");
    assert!(utf8(result).contains("{{$(date +%Y)}}"));
}

#[test]
fn test_split_template_commands() {
    let (pairs, last) = split_template_commands(b"a {{$(echo hi)}} b {{$(pwd)}} c").unwrap();
    assert_eq!(pairs.len(), 2);
    assert_eq!(utf8(pairs[0].0.clone()), "a ");
    assert_eq!(utf8(pairs[0].1.clone()), "echo hi");
    assert_eq!(utf8(pairs[1].0.clone()), " b ");
    assert_eq!(utf8(pairs[1].1.clone()), "pwd");
    assert_eq!(utf8(last), " c");
    let err = split_template_commands(b"x {{$(oops").unwrap_err();
    assert_eq!(err.message(), "parse error: unclosed {{$(...)}} in template");
}

#[test]
fn test_validate_title_valid() {
    assert!(validate_title("My Note").is_ok());
    assert!(validate_title("日本語ノート").is_ok());
    assert!(validate_title("note-with-dashes").is_ok());
    assert!(validate_title("note.md").is_ok());
}

#[test]
fn test_validate_title_empty() {
    assert!(validate_title("").is_err());
}

#[test]
fn test_validate_title_slash() {
    assert!(validate_title("sub/note").is_err());
    assert!(validate_title("sub\\note").is_err());
}

#[test]
fn test_validate_title_traversal() {
    assert!(validate_title("../escape").is_err());
    assert!(validate_title("a..b").is_err());
}

#[test]
fn test_validate_title_null_byte() {
    assert!(validate_title("note\0bad").is_err());
}

#[test]
fn test_vault_containment() {
    assert!(ensure_in_vault("/vault/note.md".to_string(), "/vault").is_ok());
    assert!(ensure_in_vault("/vault/sub/deep.md".to_string(), "/vault").is_ok());
    assert!(ensure_in_vault("/vault".to_string(), "/vault").is_ok());
    assert!(ensure_in_vault("/anything".to_string(), "/").is_ok());
    // escapes resolve to canonical paths outside the root and are rejected
    let outside = ensure_in_vault("/elsewhere/note.md".to_string(), "/vault");
    match outside.unwrap_err() {
        SproutError::OutsideVault(p) => assert_eq!(p, "/elsewhere/note.md"),
        other => panic!("expected OutsideVault, got {other:?}"),
    }
    // a sibling whose name merely extends the root is outside
    let sibling = ensure_in_vault("/vaulted/note.md".to_string(), "/vault");
    assert!(matches!(sibling.unwrap_err(), SproutError::OutsideVault(_)));
}

#[test]
fn test_md_path_rules() {
    assert!(is_md_path_exec(b"/v/a.md"));
    assert!(is_md_path_exec(b"/v/a.b.md"));
    assert!(!is_md_path_exec(b"/v/a.txt"));
    assert!(!is_md_path_exec(b"/v/.md"));
    assert!(!is_md_path_exec(b"/v/md"));
}

#[test]
fn test_dedup_by_path() {
    let entries = vec![
        NotePath { path: b"/v/a.md".to_vec(), relative_path: b"a.md".to_vec() },
        NotePath { path: b"/v/b.md".to_vec(), relative_path: b"b.md".to_vec() },
        NotePath { path: b"/v/a.md".to_vec(), relative_path: b"a-again.md".to_vec() },
    ];
    let unique = dedup_by_path(&entries);
    assert_eq!(unique.len(), 2);
    assert_eq!(unique[0].path, b"/v/a.md".to_vec());
    assert_eq!(unique[0].relative_path, b"a.md".to_vec());
    assert_eq!(unique[1].path, b"/v/b.md".to_vec());
}

#[test]
fn test_init_note_no_frontmatter() {
    let content = b"Plain body\n";
    let (text, res) = init_note(content, "/v/n.md".to_string(), day(2026, 2, 26), 250).unwrap();
    let out = utf8(text);
    assert!(out.starts_with("---\n"));
    assert!(out.contains("maturity: seedling"));
    assert!(out.contains("created: 2026-02-26"));
    assert!(out.contains("last_review: 2026-02-26"));
    assert!(out.contains("review_interval: 1"));
    assert!(out.contains("next_review: 2026-02-27"));
    assert!(out.contains("ease: 2.50"));
    assert!(out.ends_with("---\nPlain body\n"));
    assert_eq!(res.maturity, Maturity::Seedling);
    assert_eq!(res.review_interval, 1);
    assert_eq!(res.next_review, day(2026, 2, 27));
    assert_eq!(res.ease, 250);
    assert_eq!(res.created, day(2026, 2, 26));
    assert!(res.fields_added.is_none());
}

#[test]
fn test_init_note_partial_fields() {
    let content = b"---\nmaturity: budding\ntags: [x]\n---\nBody\n";
    let (text, res) = init_note(content, "/v/n.md".to_string(), day(2026, 2, 26), 250).unwrap();
    let out = utf8(text);
    assert!(out.contains("maturity: budding"));
    assert!(out.contains("tags: [x]"));
    assert!(out.contains("created: 2026-02-26"));
    assert!(out.contains("ease: 2.50"));
    assert_eq!(res.maturity, Maturity::Budding);
    let added = res.fields_added.unwrap();
    let names: Vec<String> = added.into_iter().map(utf8).collect();
    assert_eq!(names, vec!["created", "last_review", "review_interval", "next_review", "ease"]);
}

#[test]
fn test_init_note_already_initialized() {
    let content = b"---\nmaturity: seedling\ncreated: 2026-01-01\nlast_review: 2026-01-01\nreview_interval: 1\nnext_review: 2026-01-02\nease: 2.50\n---\nBody\n";
    let err = init_note(content, "/v/n.md".to_string(), day(2026, 2, 26), 250).unwrap_err();
    match err {
        SproutError::AlreadyInitialized(p) => assert_eq!(p, "/v/n.md"),
        other => panic!("expected AlreadyInitialized, got {other:?}"),
    }
}

#[test]
fn test_review_note_updates_frontmatter() {
    let content = b"---\nmaturity: seedling\ncreated: 2026-01-01\nlast_review: 2026-02-16\nreview_interval: 10\nnext_review: 2026-02-20\nease: 2.50\ntags: [rust]\n---\nBody\n";
    let (text, out) = review_note(
        content,
        "/v/n.md".to_string(),
        day(2026, 2, 26),
        Rating::Hard,
        0,
        100_000,
        90,
        None,
    )
    .unwrap();
    // delayed = 6: raw = (10 + 1.5) * 0.5 = 5.75 -> 6; ease 2.50 - 0.15 = 2.35
    assert_eq!(out.new_interval, 6);
    assert_eq!(out.new_ease, 235);
    assert_eq!(out.next_review, day(2026, 3, 4));
    assert_eq!(out.maturity, Maturity::Seedling);
    let s = utf8(text);
    assert!(s.contains("last_review: 2026-02-26"));
    assert!(s.contains("review_interval: 6"));
    assert!(s.contains("next_review: 2026-03-04"));
    assert!(s.contains("ease: 2.35"));
    assert!(s.contains("tags: [rust]"));
    assert!(s.contains("created: 2026-01-01"));
}

#[test]
fn test_review_note_missing_fields() {
    let content = b"---\nmaturity: seedling\n---\nBody\n";
    let err = review_note(
        content,
        "/v/n.md".to_string(),
        day(2026, 2, 26),
        Rating::Good,
        0,
        100_000,
        90,
        None,
    )
    .unwrap_err();
    assert!(matches!(err, SproutError::NoFrontmatter(_)));
}

#[test]
fn test_promote_note() {
    let content = b"---\nmaturity: seedling\nease: 2.50\n---\nBody\n";
    let (text, previous) = promote_note(content, "/v/n.md".to_string(), Maturity::Evergreen)
        .unwrap();
    assert_eq!(previous, Maturity::Seedling);
    let s = utf8(text);
    assert!(s.contains("maturity: evergreen"));
    assert!(s.contains("ease: 2.50"));
}

#[test]
fn test_promote_note_untracked() {
    let err = promote_note(b"Body only\n", "/v/n.md".to_string(), Maturity::Budding).unwrap_err();
    assert!(matches!(err, SproutError::NoFrontmatter(_)));
}

#[test]
fn test_show_note() {
    let content = b"---\nmaturity: budding\ncreated: 2026-01-01\nreview_interval: 10\nnext_review: 2026-02-20\nease: 2.65\n---\nSee [[a]] and [[b]].\n";
    let info = show_note(content, day(2026, 2, 26));
    assert_eq!(info.maturity, Some(Maturity::Budding));
    assert_eq!(info.review_interval, Some(10));
    assert_eq!(info.ease, Some(265));
    assert!(info.is_due);
    assert_eq!(info.days_until_review, -6);
    assert_eq!(info.link_count, 2);
}

fn meta(rel: &str, maturity: Option<Maturity>, next: Option<Date>) -> NoteMetaInfo {
    NoteMetaInfo {
        path: format!("/v/{rel}").into_bytes(),
        relative_path: rel.as_bytes().to_vec(),
        sprout: sprout::frontmatter::SproutFrontmatter {
            maturity,
            created: None,
            last_review: None,
            review_interval: if next.is_some() { Some(1) } else { None },
            next_review: next,
            ease: if next.is_some() { Some(250) } else { None },
        },
    }
}

#[test]
fn test_filter_and_sort_due_notes() {
    let today = day(2026, 2, 26);
    let notes = vec![
        meta("late.md", Some(Maturity::Seedling), Some(day(2026, 2, 20))),
        meta("future.md", Some(Maturity::Seedling), Some(day(2026, 3, 1))),
        meta("today.md", Some(Maturity::Budding), Some(day(2026, 2, 26))),
        meta("untracked.md", None, Some(day(2026, 2, 1))),
        meta("incomplete.md", Some(Maturity::Seedling), None),
    ];
    let due = filter_due(&notes, today);
    assert_eq!(due.len(), 2);
    let sorted = sort_by_next_review(due);
    assert_eq!(sorted[0].relative_path, b"late.md".to_vec());
    assert_eq!(sorted[1].relative_path, b"today.md".to_vec());
}

#[test]
fn test_filter_and_sort_listed_notes() {
    let notes = vec![
        meta("b.md", Some(Maturity::Seedling), None),
        meta("a.md", Some(Maturity::Budding), None),
        meta("c.md", None, None),
    ];
    let all = filter_listed(&notes, None);
    assert_eq!(all.len(), 2);
    let sorted = sort_by_relative_path(all);
    assert_eq!(sorted[0].relative_path, b"a.md".to_vec());
    assert_eq!(sorted[1].relative_path, b"b.md".to_vec());
    let only_budding = filter_listed(&notes, Some(Maturity::Budding));
    assert_eq!(only_budding.len(), 1);
    assert_eq!(only_budding[0].relative_path, b"a.md".to_vec());
}

#[test]
fn test_compute_stats() {
    let today = day(2026, 2, 26);
    let notes = vec![
        meta("a.md", Some(Maturity::Seedling), Some(day(2026, 2, 20))),
        meta("b.md", Some(Maturity::Seedling), Some(day(2026, 2, 26))),
        meta("c.md", Some(Maturity::Budding), Some(day(2026, 3, 1))),
        meta("d.md", Some(Maturity::Evergreen), None),
        meta("e.md", None, None),
    ];
    let stats = compute_stats(&notes, today);
    assert_eq!(stats.total, 4);
    assert_eq!(stats.seedling, 2);
    assert_eq!(stats.budding, 1);
    assert_eq!(stats.evergreen, 1);
    assert_eq!(stats.due_today, 1);
    assert_eq!(stats.overdue, 1);
}

#[test]
fn test_number_forms() {
    assert_eq!(sprout::num::parse_u32(b"14"), Some(14));
    assert_eq!(sprout::num::parse_u32(b"x4"), None);
    assert_eq!(sprout::num::parse_centi(b"2.5"), Some(250));
    assert_eq!(sprout::num::parse_centi(b"2.50"), Some(250));
    assert_eq!(sprout::num::parse_centi(b"3"), Some(300));
    assert_eq!(sprout::num::parse_centi(b"2.505"), None);
    assert_eq!(String::from_utf8(sprout::num::format_centi(235)).unwrap(), "2.35");
    assert_eq!(String::from_utf8(sprout::num::format_u32(1205)).unwrap(), "1205");
}

#[test]
fn test_review_then_parse_recovers_fields() {
    let content = b"---\ntitle: graph theory   # keep me\nmaturity: budding\ncreated: 2026-01-01\nlast_review: 2026-02-16\nreview_interval: 10\nnext_review: 2026-02-20\nease: 2.50\n---\nBody with [[link]]\n";
    let (text, out) = review_note(
        content,
        "/v/n.md".to_string(),
        day(2026, 2, 26),
        Rating::Good,
        0,
        100_000,
        90,
        None,
    )
    .unwrap();
    // delayed 6: (10 + 3) * 2.5 * 0.8 = 26 days
    assert_eq!(out.new_interval, 26);
    let reparsed = sprout::frontmatter::parse_note(&text);
    assert_eq!(reparsed.sprout.maturity, Some(Maturity::Budding));
    assert_eq!(reparsed.sprout.created, Some(day(2026, 1, 1)));
    assert_eq!(reparsed.sprout.last_review, Some(day(2026, 2, 26)));
    assert_eq!(reparsed.sprout.review_interval, Some(out.new_interval));
    assert_eq!(reparsed.sprout.next_review, Some(out.next_review));
    assert_eq!(reparsed.sprout.ease, Some(out.new_ease));
    let raw = utf8(reparsed.frontmatter_raw.unwrap());
    assert!(raw.contains("title: graph theory   # keep me"));
    assert_eq!(utf8(reparsed.body), "Body with [[link]]\n");
}

#[test]
fn test_init_then_parse_recovers_fields() {
    let (text, res) = init_note(b"Just a body\n", "/v/n.md".to_string(), day(2026, 2, 26), 250)
        .unwrap();
    let reparsed = sprout::frontmatter::parse_note(&text);
    assert_eq!(reparsed.sprout.maturity, Some(res.maturity));
    assert_eq!(reparsed.sprout.created, Some(res.created));
    assert_eq!(reparsed.sprout.review_interval, Some(res.review_interval));
    assert_eq!(reparsed.sprout.next_review, Some(res.next_review));
    assert_eq!(reparsed.sprout.ease, Some(res.ease));
    assert_eq!(utf8(reparsed.body), "Just a body\n");
}
