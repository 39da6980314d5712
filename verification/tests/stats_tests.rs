use repo_stats::model::{LanguageId, LanguageStat};
use repo_stats::repo::{is_eligible, plan_clone_order, RepositoryDescriptor};
use repo_stats::stats::LanguageStatSet;
use repo_stats::{RUST_CODE_ADJUSTMENT, TYPESCRIPT_CODE_ADJUSTMENT};

fn stat(name: LanguageId, code: u64, comments: u64, blanks: u64) -> LanguageStat {
    LanguageStat { name, code, comments, blanks }
}

fn set_of(entries: &[LanguageStat]) -> LanguageStatSet {
    let mut s = LanguageStatSet::new();
    for e in entries {
        assert!(s.try_merge_stat(*e));
    }
    s
}

#[test]
fn merge_commutative_concrete() {
    let a = set_of(&[stat(LanguageId::Rust, 10, 2, 3), stat(LanguageId::Python, 7, 0, 1)]);
    let b = set_of(&[stat(LanguageId::Rust, 5, 5, 5), stat(LanguageId::Go, 9, 9, 9)]);
    let mut ab = LanguageStatSet::new();
    assert!(ab.try_merge_set(&a));
    assert!(ab.try_merge_set(&b));
    let mut ba = LanguageStatSet::new();
    assert!(ba.try_merge_set(&b));
    assert!(ba.try_merge_set(&a));
    for id in [LanguageId::Rust, LanguageId::Python, LanguageId::Go, LanguageId::C] {
        assert_eq!(ab.lookup(id), ba.lookup(id));
    }
    let rust = ab.lookup(LanguageId::Rust).unwrap();
    assert_eq!(rust.code, 15);
    assert_eq!(rust.comments, 7);
    assert_eq!(rust.blanks, 8);
}

#[test]
fn merge_keeps_keys_unique() {
    let mut s = LanguageStatSet::new();
    assert!(s.try_merge_stat(stat(LanguageId::Rust, 1, 1, 1)));
    assert!(s.try_merge_stat(stat(LanguageId::Rust, 2, 2, 2)));
    assert!(s.try_merge_stat(stat(LanguageId::Python, 3, 3, 3)));
    assert!(s.try_merge_stat(stat(LanguageId::Rust, 4, 4, 4)));
    assert_eq!(s.len(), 2);
    for i in 0..s.len() {
        for j in 0..s.len() {
            if i != j {
                assert_ne!(s.entry_at(i).name, s.entry_at(j).name);
            }
        }
    }
    assert_eq!(s.lookup(LanguageId::Rust).unwrap().code, 7);
}

#[test]
fn merge_overflow_is_refused() {
    let mut s = LanguageStatSet::new();
    assert!(s.try_merge_stat(stat(LanguageId::Rust, u64::MAX, 0, 0)));
    assert!(!s.try_merge_stat(stat(LanguageId::Rust, 1, 0, 0)));
    assert_eq!(s.lookup(LanguageId::Rust).unwrap().code, u64::MAX);
}

#[test]
fn normalize_merges_tsx_into_typescript() {
    let mut s = set_of(&[
        stat(LanguageId::TypeScript, 100, 10, 1),
        stat(LanguageId::Tsx, 50, 5, 2),
    ]);
    assert!(s.normalize());
    let ts = s.lookup(LanguageId::TypeScript).unwrap();
    assert_eq!(ts.code, 150);
    assert_eq!(ts.comments, 15);
    assert_eq!(ts.blanks, 3);
    assert!(s.lookup(LanguageId::Tsx).is_none());
}

#[test]
fn normalize_tsx_alone_becomes_typescript() {
    let mut s = set_of(&[stat(LanguageId::Tsx, 50, 4, 3)]);
    assert!(s.normalize());
    let ts = s.lookup(LanguageId::TypeScript).unwrap();
    assert_eq!(ts.code, 50);
    assert_eq!(ts.comments, 4);
    assert_eq!(ts.blanks, 3);
    assert!(s.lookup(LanguageId::Tsx).is_none());
    assert_eq!(s.len(), 1);
}

#[test]
fn normalize_without_tsx_changes_nothing() {
    let mut s = set_of(&[stat(LanguageId::Rust, 9, 9, 9)]);
    assert!(s.normalize());
    assert_eq!(s.len(), 1);
    assert_eq!(s.lookup(LanguageId::Rust).unwrap().code, 9);
}

#[test]
fn manual_adjustment_adds_fixed_counts_once() {
    let mut s = set_of(&[stat(LanguageId::Rust, 100, 0, 0)]);
    assert!(s.apply_manual_adjustment());
    assert_eq!(s.lookup(LanguageId::Rust).unwrap().code, 100 + RUST_CODE_ADJUSTMENT);
    let ts = s.lookup(LanguageId::TypeScript).unwrap();
    assert_eq!(ts.code, TYPESCRIPT_CODE_ADJUSTMENT);
    assert_eq!(ts.comments, 0);
}

#[test]
fn sort_orders_by_descending_code() {
    let mut s = set_of(&[
        stat(LanguageId::Rust, 300, 0, 0),
        stat(LanguageId::Python, 50, 0, 0),
        stat(LanguageId::Go, 700, 0, 0),
    ]);
    s.sort_by_code_desc();
    assert_eq!(s.entry_at(0).code, 700);
    assert_eq!(s.entry_at(0).name, LanguageId::Go);
    assert_eq!(s.entry_at(1).code, 300);
    assert_eq!(s.entry_at(1).name, LanguageId::Rust);
    assert_eq!(s.entry_at(2).code, 50);
    assert_eq!(s.entry_at(2).name, LanguageId::Python);
}

#[test]
fn total_code_sums_entries() {
    let s = set_of(&[
        stat(LanguageId::Rust, 300, 1, 1),
        stat(LanguageId::Python, 50, 2, 2),
    ]);
    assert_eq!(s.total_code(), 350u128);
}

fn repo(name: &str, size: u64, private: bool, fork: bool) -> RepositoryDescriptor {
    RepositoryDescriptor {
        name: name.to_string(),
        clone_url: format!("https://example.invalid/{name}.git"),
        html_url: format!("https://example.invalid/{name}"),
        description: None,
        size,
        private,
        fork,
    }
}

#[test]
fn eligibility_filters_forks_private_and_excluded() {
    let exclude = vec!["secret".to_string()];
    assert!(!is_eligible(&repo("a", 1, false, true), &exclude));
    assert!(!is_eligible(&repo("b", 1, true, false), &exclude));
    assert!(!is_eligible(&repo("secret", 1, false, false), &exclude));
    assert!(is_eligible(&repo("open", 1, false, false), &exclude));
}

#[test]
fn clone_order_drops_forks_and_sorts_large_first() {
    let repos = vec![
        repo("small", 10, false, false),
        repo("forked", 9999, false, true),
        repo("big", 1000, false, false),
        repo("mid", 500, true, false),
    ];
    let planned = plan_clone_order(repos);
    assert_eq!(planned.len(), 3);
    assert_eq!(planned[0].name, "big");
    assert_eq!(planned[1].name, "mid");
    assert_eq!(planned[2].name, "small");
    assert!(planned.iter().all(|r| !r.fork));
}

#[test]
fn duplicate_copies_all_entries() {
    let s = set_of(&[stat(LanguageId::Rust, 1, 2, 3)]);
    let d = s.duplicate();
    assert_eq!(d.len(), 1);
    assert_eq!(d.lookup(LanguageId::Rust), s.lookup(LanguageId::Rust));
}
