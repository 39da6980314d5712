//! The per-repository side of the pipeline: collect a public report entry
//! per eligible repository, fold each repository's statistics into the
//! global total one step at a time (a failed repository contributes
//! nothing), normalize every entry's language list, and order the report
//! list by descending total code lines.

use vstd::prelude::*;

use crate::model::{
    cplus, fits_u64, has_lang, lang_counts, lemma_move_element, sorted_desc, spec_total_code,
    LanguageId,
};
use crate::repo::{is_eligible, spec_eligible, RepositoryDescriptor};
use crate::stats::{norm_counts, norm_has, LanguageStatSet};

verus! {

/// One entry of the published per-repository report: created once the
/// repository's statistics are complete, immutable after normalization and
/// sorting, discarded after serialization.
pub struct RepoReport {
    pub name: String,
    pub href: String,
    pub description: Option<String>,
    pub languages: LanguageStatSet,
}

/// `rep` carries exactly the public-facing fields of repository `r`.
pub open spec fn report_describes(rep: RepoReport, r: RepositoryDescriptor) -> bool {
    &&& rep.name@ == r.name@
    &&& rep.href@ == r.html_url@
    &&& (match (rep.description, r.description) {
        (Some(a), Some(b)) => a@ == b@,
        (None, None) => true,
        _ => false,
    })
}

/// `out` is `orig` with its language list normalized and sorted: the
/// public-facing fields are untouched, every language's totals follow the
/// markup-variant merge, and no adjustment constant appears.
pub open spec fn normalized_entry(out: RepoReport, orig: RepoReport) -> bool {
    &&& out.name@ == orig.name@
    &&& out.href@ == orig.href@
    &&& (match (out.description, orig.description) {
        (Some(a), Some(b)) => a@ == b@,
        (None, None) => true,
        _ => false,
    })
    &&& out.languages.wf()
    &&& sorted_desc(out.languages@)
    &&& (forall|id: LanguageId|
        lang_counts(out.languages@, id) == norm_counts(orig.languages@, id))
    &&& (forall|id: LanguageId| has_lang(out.languages@, id) == norm_has(orig.languages@, id))
}

/// The report list ordered by descending total code lines.
pub open spec fn reports_sorted_desc(s: Seq<RepoReport>) -> bool {
    forall|i: int, j: int|
        0 <= i <= j < s.len() ==> spec_total_code(s[i].languages@)
            >= spec_total_code(s[j].languages@)
}

/// Per-repo collector: build a report entry for `r` holding its own
/// statistics, if and only if `r` is public, not a fork, and not excluded.
/// An ineligible repository yields no entry; its statistics still reach the
/// global total through the accumulator.
pub fn collect_report(
    r: &RepositoryDescriptor,
    stats: LanguageStatSet,
    exclude: &Vec<String>,
) -> (out: Option<RepoReport>)
    requires
        stats.wf(),
    ensures
        (out is Some) == spec_eligible(*r, exclude@),
        (out matches Some(rep) ==> report_describes(rep, *r) && rep.languages@ == stats@),
{
    if !is_eligible(r, exclude) {
        return None;
    }
    let description = match &r.description {
        Some(d) => Some(d.clone()),
        None => None,
    };
    Some(RepoReport { name: r.name.clone(), href: r.html_url.clone(), description, languages: stats })
}

/// One fan-in step, for one repository: merge its statistics into the
/// shared global set and append a report entry if and only if it is
/// eligible. A failed repository (`stats` is `None`) leaves both
/// accumulators exactly as they were, and the run continues. Fails only
/// when a merged global counter would exceed the machine limit; the report
/// list is then unchanged.
pub fn step_outcome(
    global: &mut LanguageStatSet,
    reports: &mut Vec<RepoReport>,
    repo: &RepositoryDescriptor,
    stats: Option<LanguageStatSet>,
    exclude: &Vec<String>,
) -> (ok: bool)
    requires
        old(global).wf(),
        (stats matches Some(s) ==> s.wf()),
    ensures
        final(global).wf(),
        stats is None ==> ok && final(global)@ == old(global)@ && final(reports)@ == old(
            reports,
        )@,
        (stats matches Some(s) ==> ok == (forall|id: LanguageId|
            fits_u64(cplus(lang_counts(old(global)@, id), lang_counts(s@, id))))),
        !ok ==> final(reports)@ == old(reports)@,
        (stats matches Some(s) ==> ok ==> {
            &&& (forall|id: LanguageId|
                lang_counts(final(global)@, id)
                    == cplus(lang_counts(old(global)@, id), lang_counts(s@, id)))
            &&& (forall|id: LanguageId|
                has_lang(final(global)@, id)
                    == (has_lang(old(global)@, id) || has_lang(s@, id)))
            &&& (!spec_eligible(*repo, exclude@) ==> final(reports)@ == old(reports)@)
            &&& (spec_eligible(*repo, exclude@) ==> {
                &&& final(reports)@.len() == old(reports)@.len() + 1
                &&& final(reports)@.drop_last() == old(reports)@
                &&& report_describes(final(reports)@.last(), *repo)
                &&& final(reports)@.last().languages@ == s@
            })
        }),
{
    match stats {
        Some(s) => {
            let ghost sview = s@;
            let ok = global.try_merge_set(&s);
            if !ok {
                return false;
            }
            proof {
                assert(forall|id: LanguageId|
                    has_lang(global@, id) == (has_lang(old(global)@, id) || has_lang(s@, id)));
                assert(forall|id: LanguageId|
                    lang_counts(global@, id) == cplus(lang_counts(old(global)@, id), lang_counts(
                        s@,
                        id,
                    )));
            }
            match collect_report(repo, s, exclude) {
                Some(rep) => {
                    let ghost grep = rep;
                    reports.push(rep);
                    proof {
                        assert(reports@.drop_last() =~= old(reports)@);
                        assert(reports@.last() == grep);
                        assert(report_describes(reports@.last(), *repo));
                        assert(reports@.last().languages@ == sview);
                    }
                },
                None => {
                    proof {
                        assert(!spec_eligible(*repo, exclude@));
                    }
                },
            }
            true
        },
        None => true,
    }
}

/// Normalizer post-pass over the report list: merge each entry's markup
/// variant into its base language and sort its languages by descending code
/// count. The public-facing fields are untouched and no manual adjustment
/// is applied. Fails exactly when some entry's combined TypeScript counters
/// would exceed the machine limit.
pub fn normalize_reports(reports: &Vec<RepoReport>) -> (r: Option<Vec<RepoReport>>)
    requires
        forall|t: int| 0 <= t < reports@.len() ==> (#[trigger] reports@[t]).languages.wf(),
    ensures
        (r is Some) == (forall|t: int|
            0 <= t < reports@.len() ==> fits_u64(cplus(
                lang_counts((#[trigger] reports@[t]).languages@, LanguageId::TypeScript),
                lang_counts(reports@[t].languages@, LanguageId::Tsx),
            ))),
        (r matches Some(out) ==> {
            &&& out@.len() == reports@.len()
            &&& (forall|t: int|
                0 <= t < out@.len() ==> normalized_entry(#[trigger] out@[t], reports@[t]))
        }),
{
    let n = reports.len();
    let mut out: Vec<RepoReport> = Vec::new();
    let mut k: usize = 0;
    while k < n
        invariant
            n == reports@.len(),
            k <= n,
            forall|t: int| 0 <= t < reports@.len() ==> (#[trigger] reports@[t]).languages.wf(),
            out@.len() == k,
            forall|t: int| 0 <= t < k ==> normalized_entry(#[trigger] out@[t], reports@[t]),
            forall|t: int|
                0 <= t < k ==> fits_u64(cplus(
                    lang_counts((#[trigger] reports@[t]).languages@, LanguageId::TypeScript),
                    lang_counts(reports@[t].languages@, LanguageId::Tsx),
                )),
        decreases n - k,
    {
        let name = reports[k].name.clone();
        let href = reports[k].href.clone();
        let description = match &reports[k].description {
            Some(d) => Some(d.clone()),
            None => None,
        };
        let mut languages = reports[k].languages.duplicate();
        let ok = languages.normalize();
        if !ok {
            proof {
                assert(!fits_u64(cplus(
                    lang_counts(reports@[k as int].languages@, LanguageId::TypeScript),
                    lang_counts(reports@[k as int].languages@, LanguageId::Tsx),
                )));
            }
            return None;
        }
        languages.sort_by_code_desc();
        out.push(RepoReport { name, href, description, languages });
        k += 1;
    }
    Some(out)
}

/// Report-sorter, outer half: order the report list by descending total
/// code lines. The entries themselves are unchanged: a permutation.
pub fn sort_reports_by_total_code(reports: &mut Vec<RepoReport>)
    ensures
        final(reports)@.len() == old(reports)@.len(),
        final(reports)@.to_multiset() == old(reports)@.to_multiset(),
        reports_sorted_desc(final(reports)@),
{
    let m = reports.len();
    if m <= 1 {
        return;
    }
    let mut i: usize = 1;
    while i < m
        invariant
            m == reports@.len(),
            1 <= i <= m,
            reports_sorted_desc(reports@.take(i as int)),
            reports@.to_multiset() == old(reports)@.to_multiset(),
        decreases m - i,
    {
        let key = reports[i].languages.total_code();
        let mut p: usize = 0;
        while p < i && reports[p].languages.total_code() >= key
            invariant
                m == reports@.len(),
                i < m,
                p <= i,
                key == spec_total_code(reports@[i as int].languages@),
                forall|q: int|
                    0 <= q < p ==> spec_total_code((#[trigger] reports@[q]).languages@) >= key,
            decreases i - p,
        {
            p += 1;
        }
        if p < i {
            let ghost s = reports@;
            let moved = reports.remove(i);
            reports.insert(p, moved);
            proof {
                lemma_move_element(s, i as int, p as int);
                let mm = s.remove(i as int).insert(p as int, s[i as int]);
                assert(reports@ =~= mm);
                assert(reports_sorted_desc(reports@.take(i as int + 1))) by {
                    assert forall|a: int, b: int|
                        0 <= a <= b <= i as int
                        implies spec_total_code(reports@[a].languages@)
                            >= spec_total_code(reports@[b].languages@) by {
                        let pi = p as int;
                        let ii = i as int;
                        if a < pi {
                            if b < pi {
                                assert(spec_total_code(s.take(ii)[a].languages@)
                                    >= spec_total_code(s.take(ii)[b].languages@));
                            } else if b == pi {
                                assert(reports@[b] == s[ii]);
                            } else {
                                assert(reports@[b] == s[b - 1]);
                                assert(spec_total_code(s.take(ii)[a].languages@)
                                    >= spec_total_code(s.take(ii)[b - 1].languages@));
                            }
                        } else if a == pi {
                            if b > pi {
                                assert(reports@[b] == s[b - 1]);
                                assert(spec_total_code(s[pi].languages@) < key);
                                assert(spec_total_code(s.take(ii)[pi].languages@)
                                    >= spec_total_code(s.take(ii)[b - 1].languages@));
                            }
                        } else {
                            assert(reports@[a] == s[a - 1]);
                            assert(reports@[b] == s[b - 1]);
                            assert(spec_total_code(s.take(ii)[a - 1].languages@)
                                >= spec_total_code(s.take(ii)[b - 1].languages@));
                        }
                    }
                }
            }
        } else {
            proof {
                assert(reports_sorted_desc(reports@.take(i as int + 1))) by {
                    assert forall|a: int, b: int|
                        0 <= a <= b <= i as int
                        implies spec_total_code(reports@[a].languages@)
                            >= spec_total_code(reports@[b].languages@) by {
                        if b < i as int {
                            assert(spec_total_code(reports@.take(i as int)[a].languages@)
                                >= spec_total_code(reports@.take(i as int)[b].languages@));
                        } else if a < i as int {
                            assert(spec_total_code(reports@[a].languages@) >= key);
                        }
                    }
                }
            }
        }
        i += 1;
    }
    proof {
        assert(reports@.take(m as int) =~= reports@);
    }
}

} // verus!
