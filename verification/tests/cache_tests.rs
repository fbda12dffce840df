use sprout::cache::CacheRecord;
use sprout::cache::FrontmatterCache;
use sprout::date::Date;
use sprout::frontmatter::Maturity;
use sprout::frontmatter::SproutFrontmatter;

fn sample_frontmatter() -> SproutFrontmatter {
    SproutFrontmatter {
        maturity: Some(Maturity::Seedling),
        created: Some(Date { year: 2026, month: 1, day: 1 }),
        last_review: None,
        review_interval: Some(1),
        next_review: Some(Date { year: 2026, month: 1, day: 2 }),
        ease: Some(250),
    }
}

#[test]
fn test_cache_get_hit() {
    let mut cache = FrontmatterCache::new();
    let path = b"/test/note.md".to_vec();
    cache.insert(path.clone(), 1000, 500, 200, sample_frontmatter());
    assert!(cache.is_dirty());
    let result = cache.get(b"/test/note.md", 1000, 500, 200);
    assert!(result.is_some());
    assert_eq!(result.unwrap().maturity, Some(Maturity::Seedling));
}

#[test]
fn test_cache_get_miss_mtime() {
    let mut cache = FrontmatterCache::new();
    let path = b"/test/note.md".to_vec();
    cache.insert(path.clone(), 1000, 500, 200, sample_frontmatter());
    // Different mtime_secs
    assert!(cache.get(b"/test/note.md", 1001, 500, 200).is_none());
    // Different mtime_nanos
    assert!(cache.get(b"/test/note.md", 1000, 501, 200).is_none());
    // Different size
    assert!(cache.get(b"/test/note.md", 1000, 500, 201).is_none());
}

#[test]
fn test_cache_get_missing_path() {
    let cache = FrontmatterCache::new();
    assert!(cache.get(b"/nonexistent", 0, 0, 0).is_none());
}

#[test]
fn test_cache_load_wrong_version() {
    // Any version tag other than the current one reads as an empty cache.
    let rec = CacheRecord {
        path: b"/test/note.md".to_vec(),
        mtime_secs: 1000,
        mtime_nanos: 500,
        size: 200,
        frontmatter: sample_frontmatter(),
    };
    assert_ne!(999, sprout::cache::CACHE_VERSION);
    let cache = FrontmatterCache::from_records(999, vec![rec]);
    assert!(cache.get(b"/test/note.md", 1000, 500, 200).is_none());
    assert!(!cache.is_dirty());
}

#[test]
fn test_cache_from_records_roundtrip() {
    let mut cache = FrontmatterCache::new();
    cache.insert(b"/test/a.md".to_vec(), 1000, 500, 200, sample_frontmatter());
    cache.insert(b"/test/b.md".to_vec(), 2000, 0, 99, sample_frontmatter());
    let records: Vec<CacheRecord> = cache
        .records()
        .iter()
        .map(|r| CacheRecord {
            path: r.path.clone(),
            mtime_secs: r.mtime_secs,
            mtime_nanos: r.mtime_nanos,
            size: r.size,
            frontmatter: r.frontmatter,
        })
        .collect();
    let loaded = FrontmatterCache::from_records(sprout::cache::CACHE_VERSION, records);
    assert!(!loaded.is_dirty());
    assert!(loaded.get(b"/test/a.md", 1000, 500, 200).is_some());
    assert!(loaded.get(b"/test/b.md", 2000, 0, 99).is_some());
    assert!(loaded.get(b"/test/b.md", 2000, 1, 99).is_none());
}

#[test]
fn test_cache_insert_replaces_entry() {
    let mut cache = FrontmatterCache::new();
    cache.insert(b"/n.md".to_vec(), 1, 2, 3, sample_frontmatter());
    let mut newer = sample_frontmatter();
    newer.maturity = Some(Maturity::Evergreen);
    cache.insert(b"/n.md".to_vec(), 9, 8, 7, newer);
    assert!(cache.get(b"/n.md", 1, 2, 3).is_none());
    let hit = cache.get(b"/n.md", 9, 8, 7).unwrap();
    assert_eq!(hit.maturity, Some(Maturity::Evergreen));
}
