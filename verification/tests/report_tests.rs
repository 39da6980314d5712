use repo_stats::model::{LanguageId, LanguageStat};
use repo_stats::repo::RepositoryDescriptor;
use repo_stats::report::{
    collect_report, normalize_reports, sort_reports_by_total_code, step_outcome, RepoReport,
};
use repo_stats::stats::LanguageStatSet;
use repo_stats::{RUST_CODE_ADJUSTMENT, TYPESCRIPT_CODE_ADJUSTMENT};

fn stat(name: LanguageId, code: u64) -> LanguageStat {
    LanguageStat { name, code, comments: 0, blanks: 0 }
}

fn set_of(entries: &[LanguageStat]) -> LanguageStatSet {
    let mut s = LanguageStatSet::new();
    for e in entries {
        assert!(s.try_merge_stat(*e));
    }
    s
}

fn repo(name: &str, private: bool, fork: bool) -> RepositoryDescriptor {
    RepositoryDescriptor {
        name: name.to_string(),
        clone_url: format!("https://example.invalid/{name}.git"),
        html_url: format!("https://example.invalid/{name}"),
        description: Some(format!("the {name} repository")),
        size: 1,
        private,
        fork,
    }
}

fn report_of(name: &str, codes: &[(LanguageId, u64)]) -> RepoReport {
    let entries: Vec<LanguageStat> = codes.iter().map(|(l, c)| stat(*l, *c)).collect();
    RepoReport {
        name: name.to_string(),
        href: format!("https://example.invalid/{name}"),
        description: None,
        languages: set_of(&entries),
    }
}

#[test]
fn ineligible_repo_counts_globally_but_has_no_entry() {
    let exclude = vec!["hidden".to_string()];
    let mut global = LanguageStatSet::new();
    let mut reports: Vec<RepoReport> = Vec::new();

    // Private, forked and excluded repositories all merge into the global
    // total yet never appear in the per-repo list.
    for r in [repo("priv", true, false), repo("fork", false, true), repo("hidden", false, false)] {
        let stats = set_of(&[stat(LanguageId::Python, 10)]);
        assert!(step_outcome(&mut global, &mut reports, &r, Some(stats), &exclude));
    }
    assert!(reports.is_empty());
    assert_eq!(global.lookup(LanguageId::Python).unwrap().code, 30);
}

#[test]
fn collect_report_only_for_eligible() {
    let exclude = vec!["hidden".to_string()];
    let stats = set_of(&[stat(LanguageId::Rust, 5)]);
    let rep = collect_report(&repo("open", false, false), stats, &exclude).unwrap();
    assert_eq!(rep.name, "open");
    assert_eq!(rep.href, "https://example.invalid/open");
    assert_eq!(rep.description.as_deref(), Some("the open repository"));
    assert_eq!(rep.languages.lookup(LanguageId::Rust).unwrap().code, 5);

    let stats = set_of(&[stat(LanguageId::Rust, 5)]);
    assert!(collect_report(&repo("hidden", false, false), stats, &exclude).is_none());
    let stats = set_of(&[stat(LanguageId::Rust, 5)]);
    assert!(collect_report(&repo("priv", true, false), stats, &exclude).is_none());
    let stats = set_of(&[stat(LanguageId::Rust, 5)]);
    assert!(collect_report(&repo("fork", false, true), stats, &exclude).is_none());
}

#[test]
fn sort_reports_orders_by_total_code() {
    let mut reports = vec![
        report_of("tiny", &[(LanguageId::Python, 10)]),
        report_of("huge", &[(LanguageId::Rust, 600), (LanguageId::C, 400)]),
        report_of("mid", &[(LanguageId::Go, 500)]),
    ];
    sort_reports_by_total_code(&mut reports);
    assert_eq!(reports[0].name, "huge");
    assert_eq!(reports[0].languages.total_code(), 1000u128);
    assert_eq!(reports[1].name, "mid");
    assert_eq!(reports[1].languages.total_code(), 500u128);
    assert_eq!(reports[2].name, "tiny");
    assert_eq!(reports[2].languages.total_code(), 10u128);
}

#[test]
fn normalize_reports_folds_tsx_per_entry() {
    let reports = vec![
        report_of("web", &[(LanguageId::TypeScript, 100), (LanguageId::Tsx, 50)]),
        report_of("plain", &[(LanguageId::Rust, 7)]),
    ];
    let out = normalize_reports(&reports).unwrap();
    assert_eq!(out.len(), 2);
    assert_eq!(out[0].name, "web");
    assert_eq!(out[0].languages.lookup(LanguageId::TypeScript).unwrap().code, 150);
    assert!(out[0].languages.lookup(LanguageId::Tsx).is_none());
    assert_eq!(out[1].languages.lookup(LanguageId::Rust).unwrap().code, 7);
}

#[test]
fn end_to_end_two_repositories() {
    // Repo A public with Python 200; repo B private with Python 50.
    let exclude: Vec<String> = Vec::new();
    let mut global = LanguageStatSet::new();
    let mut reports: Vec<RepoReport> = Vec::new();

    let a = repo("A", false, false);
    let b = repo("B", true, false);
    assert!(step_outcome(
        &mut global,
        &mut reports,
        &a,
        Some(set_of(&[stat(LanguageId::Python, 200)])),
        &exclude,
    ));
    assert!(step_outcome(
        &mut global,
        &mut reports,
        &b,
        Some(set_of(&[stat(LanguageId::Python, 50)])),
        &exclude,
    ));

    // Pre-adjustment global total: Python 250.
    assert_eq!(global.lookup(LanguageId::Python).unwrap().code, 250);

    // Per-repo list: only A, with its own unmerged counts.
    let mut reports = normalize_reports(&reports).unwrap();
    sort_reports_by_total_code(&mut reports);
    assert_eq!(reports.len(), 1);
    assert_eq!(reports[0].name, "A");
    assert_eq!(reports[0].languages.len(), 1);
    assert_eq!(reports[0].languages.lookup(LanguageId::Python).unwrap().code, 200);

    // The manual adjustment lands on the global report only.
    assert!(global.normalize());
    assert!(global.apply_manual_adjustment());
    global.sort_by_code_desc();
    assert_eq!(global.lookup(LanguageId::Rust).unwrap().code, RUST_CODE_ADJUSTMENT);
    assert_eq!(
        global.lookup(LanguageId::TypeScript).unwrap().code,
        TYPESCRIPT_CODE_ADJUSTMENT
    );
    assert_eq!(global.lookup(LanguageId::Python).unwrap().code, 250);
    assert_eq!(reports[0].languages.lookup(LanguageId::Rust), None);
    assert_eq!(reports[0].languages.lookup(LanguageId::TypeScript), None);
}

#[test]
fn failed_clone_contributes_nothing_and_run_continues() {
    let exclude: Vec<String> = Vec::new();
    let mut global = LanguageStatSet::new();
    let mut reports: Vec<RepoReport> = Vec::new();

    let a = repo("A", false, false);
    let c = repo("C", false, false);
    let b = repo("B", false, false);
    assert!(step_outcome(
        &mut global,
        &mut reports,
        &a,
        Some(set_of(&[stat(LanguageId::Rust, 11)])),
        &exclude,
    ));
    // C's clone failed: no statistics, nothing changes, the run goes on.
    assert!(step_outcome(&mut global, &mut reports, &c, None, &exclude));
    assert!(step_outcome(
        &mut global,
        &mut reports,
        &b,
        Some(set_of(&[stat(LanguageId::Go, 22)])),
        &exclude,
    ));

    assert_eq!(global.lookup(LanguageId::Rust).unwrap().code, 11);
    assert_eq!(global.lookup(LanguageId::Go).unwrap().code, 22);
    assert_eq!(reports.len(), 2);
    assert!(reports.iter().all(|r| r.name != "C"));
}

#[test]
fn normalize_without_tsx_is_identity_and_idempotent() {
    let mut s = set_of(&[stat(LanguageId::Rust, 3), stat(LanguageId::TypeScript, 4)]);
    assert!(s.normalize());
    let before: Vec<LanguageStat> = (0..s.len()).map(|i| s.entry_at(i)).collect();
    // No TSX entry survives the first pass, so a second pass changes nothing.
    assert!(s.normalize());
    let after: Vec<LanguageStat> = (0..s.len()).map(|i| s.entry_at(i)).collect();
    assert_eq!(before, after);
}

#[test]
fn excluded_globs_match_the_fixed_configuration() {
    let globs = repo_stats::excluded_globs();
    assert_eq!(globs, vec!["build", "package-lock.json", "pnpm-lock.yaml"]);
}
