//! The statistics accumulator: a collection of per-language counters with at
//! most one entry per language, merged by field-wise addition, normalized
//! (the typed-markup dialect folded into its base language), adjusted and
//! sorted by descending code count.

use vstd::prelude::*;

use crate::model::{
    share, cplus, fits_u64, has_lang, lang_counts, lemma_absent_zero, lemma_lang_counts_push,
    lemma_lang_counts_take_step, lemma_lang_counts_prefix_le, lemma_lang_counts_update,
    lemma_move_entry, lemma_same_names, lemma_unique_at, sorted_desc, spec_total_code,
    stat_counts, unique_names, zero_counts, Counts, LanguageId, LanguageStat,
};
use crate::{RUST_CODE_ADJUSTMENT, TYPESCRIPT_CODE_ADJUSTMENT};

verus! {

/// The totals of language `id` after the typed-markup dialect has been folded
/// into its base language: TSX counts move into TypeScript, everything else
/// is unchanged.
pub open spec fn norm_counts(s: Seq<LanguageStat>, id: LanguageId) -> Counts {
    if id == LanguageId::Tsx {
        zero_counts()
    } else if id == LanguageId::TypeScript {
        cplus(lang_counts(s, LanguageId::TypeScript), lang_counts(s, LanguageId::Tsx))
    } else {
        lang_counts(s, id)
    }
}

/// Which languages remain present after normalization.
pub open spec fn norm_has(s: Seq<LanguageStat>, id: LanguageId) -> bool {
    if id == LanguageId::Tsx {
        false
    } else if id == LanguageId::TypeScript {
        has_lang(s, LanguageId::TypeScript) || has_lang(s, LanguageId::Tsx)
    } else {
        has_lang(s, id)
    }
}

/// What the manual correction adds to language `id`.
pub open spec fn adjustment_counts(id: LanguageId) -> Counts {
    if id == LanguageId::Rust {
        Counts { code: RUST_CODE_ADJUSTMENT as int, comments: 0, blanks: 0 }
    } else if id == LanguageId::TypeScript {
        Counts { code: TYPESCRIPT_CODE_ADJUSTMENT as int, comments: 0, blanks: 0 }
    } else {
        zero_counts()
    }
}

/// A set of per-language counters with at most one entry per language.
pub struct LanguageStatSet {
    stats: Vec<LanguageStat>,
}

impl View for LanguageStatSet {
    type V = Seq<LanguageStat>;

    closed spec fn view(&self) -> Seq<LanguageStat> {
        self.stats@
    }
}

impl LanguageStatSet {
    /// No duplicate language keys: the invariant every operation preserves.
    pub open spec fn wf(&self) -> bool {
        unique_names(self@)
    }

    pub fn new() -> (r: Self)
        ensures
            r@ =~= Seq::<LanguageStat>::empty(),
            r.wf(),
    {
        LanguageStatSet { stats: Vec::new() }
    }

    pub fn len(&self) -> (n: usize)
        ensures
            n == self@.len(),
    {
        self.stats.len()
    }

    pub fn entry_at(&self, i: usize) -> (r: LanguageStat)
        requires
            i < self@.len(),
        ensures
            r == self@[i as int],
    {
        self.stats[i]
    }

    /// An identical copy of this set.
    pub fn duplicate(&self) -> (r: Self)
        ensures
            r@ =~= self@,
    {
        let n = self.stats.len();
        let mut out: Vec<LanguageStat> = Vec::new();
        let mut k: usize = 0;
        while k < n
            invariant
                n == self@.len(),
                k <= n,
                out@ =~= self@.take(k as int),
            decreases n - k,
        {
            out.push(self.stats[k]);
            proof {
                assert(out@ =~= self@.take(k + 1));
            }
            k += 1;
        }
        proof {
            assert(self@.take(n as int) =~= self@);
        }
        LanguageStatSet { stats: out }
    }

    fn find_lang(&self, id: LanguageId) -> (r: Option<usize>)
        ensures
            match r {
                Some(i) => i < self@.len() && self@[i as int].name == id,
                None => !has_lang(self@, id),
            },
    {
        let n = self.stats.len();
        let mut k: usize = 0;
        while k < n
            invariant
                n == self@.len(),
                k <= n,
                forall|q: int| 0 <= q < k ==> self@[q].name != id,
            decreases n - k,
        {
            if self.stats[k].name == id {
                return Some(k);
            }
            k += 1;
        }
        None
    }

    /// The entry recorded for `id`, if any. In a well-formed set the entry
    /// carries exactly the language's totals.
    pub fn lookup(&self, id: LanguageId) -> (r: Option<LanguageStat>)
        requires
            self.wf(),
        ensures
            match r {
                Some(st) => {
                    &&& has_lang(self@, id)
                    &&& st.name == id
                    &&& stat_counts(st) == lang_counts(self@, id)
                },
                None => {
                    &&& !has_lang(self@, id)
                    &&& lang_counts(self@, id) == zero_counts()
                },
            },
    {
        match self.find_lang(id) {
            Some(i) => {
                let st = self.stats[i];
                proof {
                    lemma_unique_at(self@, i as int, id);
                }
                Some(st)
            },
            None => {
                proof {
                    lemma_absent_zero(self@, id);
                }
                None
            },
        }
    }

    /// Accumulator step: field-wise-add `s` into the entry for its language,
    /// or insert a new entry. Fails, leaving the set unchanged, exactly when
    /// a counter would exceed the machine limit.
    pub fn try_merge_stat(&mut self, s: LanguageStat) -> (ok: bool)
        requires
            old(self).wf(),
        ensures
            final(self).wf(),
            ok == fits_u64(cplus(lang_counts(old(self)@, s.name), stat_counts(s))),
            ok ==> forall|id: LanguageId|
                lang_counts(final(self)@, id) == cplus(lang_counts(old(self)@, id), share(s, id)),
            ok ==> forall|id: LanguageId|
                has_lang(final(self)@, id) == (has_lang(old(self)@, id) || id == s.name),
            !ok ==> final(self)@ == old(self)@,
    {
        match self.find_lang(s.name) {
            Some(i) => {
                let cur = self.stats[i];
                proof {
                    lemma_unique_at(self@, i as int, s.name);
                }
                let code = match cur.code.checked_add(s.code) {
                    Some(v) => v,
                    None => {
                        return false;
                    },
                };
                let comments = match cur.comments.checked_add(s.comments) {
                    Some(v) => v,
                    None => {
                        return false;
                    },
                };
                let blanks = match cur.blanks.checked_add(s.blanks) {
                    Some(v) => v,
                    None => {
                        return false;
                    },
                };
                let merged = LanguageStat { name: s.name, code, comments, blanks };
                self.stats.set(i, merged);
                proof {
                    assert(forall|q: int|
                        0 <= q < self@.len() ==> self@[q].name == old(self)@[q].name);
                    lemma_same_names(old(self)@, self@);
                    assert forall|id: LanguageId|
                        lang_counts(self@, id)
                            == cplus(lang_counts(old(self)@, id), share(s, id)) by {
                        lemma_lang_counts_update(old(self)@, i as int, merged, id);
                    }
                    assert forall|id: LanguageId|
                        has_lang(self@, id) == (has_lang(old(self)@, id) || id == s.name) by {
                        if id == s.name {
                            assert(has_lang(old(self)@, id));
                        }
                    }
                }
                true
            },
            None => {
                proof {
                    lemma_absent_zero(self@, s.name);
                }
                self.stats.push(s);
                proof {
                    assert forall|id: LanguageId|
                        lang_counts(self@, id)
                            == cplus(lang_counts(old(self)@, id), share(s, id)) by {
                        lemma_lang_counts_push(old(self)@, s, id);
                    }
                    assert forall|id: LanguageId|
                        has_lang(self@, id) == (has_lang(old(self)@, id) || id == s.name) by {
                        if has_lang(self@, id) {
                            let w = choose|w: int|
                                0 <= w < self@.len() && self@[w].name == id;
                            if w < old(self)@.len() {
                                assert(old(self)@[w].name == id);
                            }
                        }
                        if has_lang(old(self)@, id) {
                            let w = choose|w: int|
                                0 <= w < old(self)@.len() && old(self)@[w].name == id;
                            assert(self@[w].name == id);
                        }
                        if id == s.name {
                            assert(self@[old(self)@.len() as int].name == id);
                        }
                    }
                    assert forall|p: int, q: int|
                        0 <= p < self@.len() && 0 <= q < self@.len() && p != q
                        implies self@[p].name != self@[q].name by {
                        if p < old(self)@.len() && q < old(self)@.len() {
                            assert(old(self)@[p].name != old(self)@[q].name);
                        } else if p < old(self)@.len() {
                            assert(!has_lang(old(self)@, s.name));
                            assert(old(self)@[p].name != s.name);
                        } else {
                            assert(!has_lang(old(self)@, s.name));
                            assert(old(self)@[q].name != s.name);
                        }
                    }
                }
                true
            },
        }
    }

    /// Thread-safe merge point, one repository at a time: fold every entry of
    /// `other` into this set. Fails exactly when some combined counter would
    /// exceed the machine limit.
    pub fn try_merge_set(&mut self, other: &LanguageStatSet) -> (ok: bool)
        requires
            old(self).wf(),
        ensures
            final(self).wf(),
            ok == (forall|id: LanguageId|
                fits_u64(cplus(lang_counts(old(self)@, id), lang_counts(other@, id)))),
            ok ==> forall|id: LanguageId|
                lang_counts(final(self)@, id)
                    == cplus(lang_counts(old(self)@, id), lang_counts(other@, id)),
            ok ==> forall|id: LanguageId| #![trigger has_lang(final(self)@, id)]
                has_lang(final(self)@, id) == (has_lang(old(self)@, id) || has_lang(other@, id)),
    {
        let n = other.stats.len();
        let mut k: usize = 0;
        while k < n
            invariant
                n == other@.len(),
                k <= n,
                self.wf(),
                forall|id: LanguageId|
                    lang_counts(self@, id)
                        == cplus(lang_counts(old(self)@, id),
                            lang_counts(other@.take(k as int), id)),
                forall|id: LanguageId|
                    has_lang(self@, id)
                        == (has_lang(old(self)@, id) || has_lang(other@.take(k as int), id)),
            decreases n - k,
        {
            let st = other.stats[k];
            let ghost pre = self@;
            let ok = self.try_merge_stat(st);
            if !ok {
                proof {
                    let id = st.name;
                    lemma_lang_counts_take_step(other@, k as int, id);
                    lemma_lang_counts_prefix_le(other@, k as int + 1, id);
                    assert(share(other@[k as int], id) == stat_counts(st));
                    assert(!fits_u64(cplus(lang_counts(pre, id), stat_counts(st))));
                    assert(!fits_u64(cplus(lang_counts(old(self)@, id),
                        lang_counts(other@.take(k as int + 1), id))));
                    assert(!fits_u64(cplus(lang_counts(old(self)@, id),
                        lang_counts(other@, id))));
                }
                return false;
            }
            proof {
                assert forall|id: LanguageId|
                    lang_counts(self@, id)
                        == cplus(lang_counts(old(self)@, id),
                            lang_counts(other@.take(k as int + 1), id)) by {
                    lemma_lang_counts_take_step(other@, k as int, id);
                }
                assert forall|id: LanguageId|
                    has_lang(self@, id)
                        == (has_lang(old(self)@, id)
                            || has_lang(other@.take(k as int + 1), id)) by {
                    let t1 = other@.take(k as int + 1);
                    let t0 = other@.take(k as int);
                    if has_lang(t1, id) {
                        let w = choose|w: int| 0 <= w < t1.len() && t1[w].name == id;
                        if w < k as int {
                            assert(t0[w].name == id);
                        } else {
                            assert(other@[k as int].name == id);
                        }
                    }
                    if has_lang(t0, id) {
                        let w = choose|w: int| 0 <= w < t0.len() && t0[w].name == id;
                        assert(t1[w].name == id);
                    }
                    if id == st.name {
                        assert(t1[k as int].name == id);
                    }
                }
            }
            k += 1;
        }
        proof {
            assert(other@.take(n as int) =~= other@);
            assert forall|id: LanguageId|
                fits_u64(cplus(lang_counts(old(self)@, id), lang_counts(other@, id))) by {
                if has_lang(self@, id) {
                    let w = choose|w: int| 0 <= w < self@.len() && self@[w].name == id;
                    lemma_unique_at(self@, w, id);
                } else {
                    lemma_absent_zero(self@, id);
                }
            }
        }
        true
    }

    /// Normalizer step: if a TSX entry exists, merge its counts into the
    /// TypeScript entry (creating one if absent) and remove the TSX entry.
    /// Fails, with the TSX entry still present, exactly when the combined
    /// TypeScript counters would exceed the machine limit.
    pub fn normalize(&mut self) -> (ok: bool)
        requires
            old(self).wf(),
        ensures
            final(self).wf(),
            ok == fits_u64(cplus(lang_counts(old(self)@, LanguageId::TypeScript),
                lang_counts(old(self)@, LanguageId::Tsx))),
            ok ==> forall|id: LanguageId| lang_counts(final(self)@, id) == norm_counts(old(self)@, id),
            ok ==> forall|id: LanguageId| has_lang(final(self)@, id) == norm_has(old(self)@, id),
            !ok ==> final(self)@ == old(self)@,
            !has_lang(old(self)@, LanguageId::Tsx) ==> final(self)@ == old(self)@,
    {
        let ti = match self.find_lang(LanguageId::Tsx) {
            Some(ti) => ti,
            None => {
                proof {
                    lemma_absent_zero(self@, LanguageId::Tsx);
                    if has_lang(self@, LanguageId::TypeScript) {
                        let w = choose|w: int|
                            0 <= w < self@.len() && self@[w].name == LanguageId::TypeScript;
                        lemma_unique_at(self@, w, LanguageId::TypeScript);
                    } else {
                        lemma_absent_zero(self@, LanguageId::TypeScript);
                    }
                }
                return true;
            },
        };
        let tsx = self.stats[ti];
        proof {
            lemma_unique_at(self@, ti as int, LanguageId::Tsx);
        }
        match self.find_lang(LanguageId::TypeScript) {
            Some(si) => {
                let ts = self.stats[si];
                proof {
                    lemma_unique_at(self@, si as int, LanguageId::TypeScript);
                    assert(si != ti);
                }
                let code = match ts.code.checked_add(tsx.code) {
                    Some(v) => v,
                    None => {
                        return false;
                    },
                };
                let comments = match ts.comments.checked_add(tsx.comments) {
                    Some(v) => v,
                    None => {
                        return false;
                    },
                };
                let blanks = match ts.blanks.checked_add(tsx.blanks) {
                    Some(v) => v,
                    None => {
                        return false;
                    },
                };
                let merged = LanguageStat { name: LanguageId::TypeScript, code, comments, blanks };
                self.stats.set(si, merged);
                let ghost mid = self@;
                proof {
                    assert(forall|q: int| 0 <= q < mid.len() ==> mid[q].name == old(self)@[q].name);
                    lemma_same_names(old(self)@, mid);
                }
                self.remove_at(ti);
                proof {
                    assert(mid[ti as int] == old(self)@[ti as int]);
                    assert(mid[ti as int].name == LanguageId::Tsx);
                    assert forall|id: LanguageId|
                        lang_counts(self@, id) == norm_counts(old(self)@, id) by {
                        lemma_lang_counts_update(old(self)@, si as int, merged, id);
                        if id != LanguageId::Tsx && id != LanguageId::TypeScript {
                            assert(share(merged, id) == zero_counts());
                            assert(share(old(self)@[si as int], id) == zero_counts());
                        }
                    }
                }
                true
            },
            None => {
                proof {
                    lemma_absent_zero(self@, LanguageId::TypeScript);
                }
                let renamed = LanguageStat {
                    name: LanguageId::TypeScript,
                    code: tsx.code,
                    comments: tsx.comments,
                    blanks: tsx.blanks,
                };
                self.stats.set(ti, renamed);
                proof {
                    assert forall|id: LanguageId|
                        lang_counts(self@, id) == norm_counts(old(self)@, id) by {
                        lemma_lang_counts_update(old(self)@, ti as int, renamed, id);
                        if id != LanguageId::Tsx && id != LanguageId::TypeScript {
                            assert(share(renamed, id) == zero_counts());
                            assert(share(old(self)@[ti as int], id) == zero_counts());
                        }
                    }
                    assert forall|id: LanguageId|
                        has_lang(self@, id) == norm_has(old(self)@, id) by {
                        if has_lang(self@, id) {
                            let w = choose|w: int| 0 <= w < self@.len() && self@[w].name == id;
                            if w != ti as int {
                                assert(old(self)@[w].name == id);
                            }
                        }
                        if has_lang(old(self)@, id) && id != LanguageId::Tsx {
                            let w = choose|w: int|
                                0 <= w < old(self)@.len() && old(self)@[w].name == id;
                            assert(w != ti as int);
                            assert(self@[w].name == id);
                        }
                        if id == LanguageId::TypeScript {
                            assert(self@[ti as int].name == id);
                        }
                        if id == LanguageId::Tsx && has_lang(self@, id) {
                            let w = choose|w: int| 0 <= w < self@.len() && self@[w].name == id;
                            assert(w != ti as int);
                            assert(old(self)@[w].name == LanguageId::Tsx);
                            assert(false);
                        }
                    }
                    assert forall|p: int, q: int|
                        0 <= p < self@.len() && 0 <= q < self@.len() && p != q
                        implies self@[p].name != self@[q].name by {
                        if p != ti as int && q != ti as int {
                            assert(old(self)@[p].name != old(self)@[q].name);
                        } else if p == ti as int {
                            assert(!has_lang(old(self)@, LanguageId::TypeScript));
                            assert(old(self)@[q].name != LanguageId::TypeScript);
                        } else {
                            assert(!has_lang(old(self)@, LanguageId::TypeScript));
                            assert(old(self)@[p].name != LanguageId::TypeScript);
                        }
                    }
                }
                true
            },
        }
    }

    /// Remove the entry at index `i` (order of the remaining entries may
    /// change).
    fn remove_at(&mut self, i: usize)
        requires
            old(self).wf(),
            i < old(self)@.len(),
        ensures
            final(self).wf(),
            final(self)@.len() == old(self)@.len() - 1,
            forall|id: LanguageId|
                lang_counts(final(self)@, id)
                    == if id == old(self)@[i as int].name {
                        zero_counts()
                    } else {
                        lang_counts(old(self)@, id)
                    },
            forall|id: LanguageId|
                has_lang(final(self)@, id)
                    == (has_lang(old(self)@, id) && id != old(self)@[i as int].name),
    {
        let ghost s = self@;
        let ghost victim = self@[i as int];
        self.stats.swap_remove(i);
        proof {
            let upd = s.update(i as int, s.last());
            assert(self@ =~= upd.drop_last());
            lemma_unique_at(s, i as int, victim.name);
            assert forall|id: LanguageId|
                lang_counts(self@, id)
                    == (if id == victim.name { zero_counts() } else { lang_counts(s, id) }) by {
                if i as int == s.len() - 1 {
                    assert(self@ =~= s.drop_last());
                    assert(lang_counts(s, id)
                        == cplus(lang_counts(s.drop_last(), id), share(victim, id)));
                    if id == victim.name {
                        assert(!has_lang(s.drop_last(), id)) by {
                            assert forall|q: int|
                                0 <= q < s.len() - 1 implies s.drop_last()[q].name != id by {
                                assert(s[q].name != s[i as int].name);
                            }
                        }
                        lemma_absent_zero(s.drop_last(), id);
                    }
                } else {
                    assert(upd.drop_last() =~= s.update(i as int, s.last()).drop_last());
                    lemma_lang_counts_update(s, i as int, s.last(), id);
                    assert(lang_counts(upd, id)
                        == cplus(lang_counts(upd.drop_last(), id), share(upd.last(), id)));
                    assert(upd.last() == s.last());
                    if id == victim.name {
                        lemma_remove_gone(s, i as int, self@, id);
                    }
                }
            }
            assert forall|id: LanguageId|
                has_lang(self@, id) == (has_lang(s, id) && id != victim.name) by {
                if has_lang(self@, id) {
                    let w = choose|w: int| 0 <= w < self@.len() && self@[w].name == id;
                    if w == i as int {
                        assert(s[s.len() - 1].name == id);
                    } else {
                        assert(s[w].name == id);
                    }
                    if id == victim.name {
                        if w == i as int {
                            assert(s[s.len() - 1].name != s[i as int].name);
                        } else {
                            assert(s[w].name != s[i as int].name);
                        }
                        assert(false);
                    }
                }
                if has_lang(s, id) && id != victim.name {
                    let w = choose|w: int| 0 <= w < s.len() && s[w].name == id;
                    assert(w != i as int);
                    if w == s.len() - 1 {
                        assert(i as int != s.len() - 1);
                        assert(self@[i as int].name == id);
                    } else {
                        assert(self@[w].name == id);
                    }
                }
            }
            assert forall|p: int, q: int|
                0 <= p < self@.len() && 0 <= q < self@.len() && p != q
                implies self@[p].name != self@[q].name by {
                let wp: int = if p == i as int { s.len() - 1 } else { p };
                let wq: int = if q == i as int { s.len() - 1 } else { q };
                assert(self@[p] == s[wp]);
                assert(self@[q] == s[wq]);
                assert(s[wp].name != s[wq].name);
            }
        }
    }

    /// Manual correction applied once to the global report: add the fixed
    /// code-count adjustments for Rust and TypeScript, creating the entries
    /// if absent. Fails exactly when a counter would exceed the machine
    /// limit.
    pub fn apply_manual_adjustment(&mut self) -> (ok: bool)
        requires
            old(self).wf(),
        ensures
            final(self).wf(),
            ok == (fits_u64(cplus(lang_counts(old(self)@, LanguageId::Rust),
                    adjustment_counts(LanguageId::Rust)))
                && fits_u64(cplus(lang_counts(old(self)@, LanguageId::TypeScript),
                    adjustment_counts(LanguageId::TypeScript)))),
            ok ==> forall|id: LanguageId|
                lang_counts(final(self)@, id)
                    == cplus(lang_counts(old(self)@, id), adjustment_counts(id)),
            ok ==> forall|id: LanguageId|
                has_lang(final(self)@, id)
                    == (has_lang(old(self)@, id) || id == LanguageId::Rust
                        || id == LanguageId::TypeScript),
    {
        let rust_fix = LanguageStat {
            name: LanguageId::Rust,
            code: RUST_CODE_ADJUSTMENT,
            comments: 0,
            blanks: 0,
        };
        let ts_fix = LanguageStat {
            name: LanguageId::TypeScript,
            code: TYPESCRIPT_CODE_ADJUSTMENT,
            comments: 0,
            blanks: 0,
        };
        let ghost pre = self@;
        let ok1 = self.try_merge_stat(rust_fix);
        if !ok1 {
            return false;
        }
        let ghost mid = self@;
        let ok2 = self.try_merge_stat(ts_fix);
        if !ok2 {
            proof {
                assert(lang_counts(mid, LanguageId::TypeScript)
                    == lang_counts(pre, LanguageId::TypeScript));
            }
            return false;
        }
        proof {
            assert(lang_counts(mid, LanguageId::TypeScript)
                == lang_counts(pre, LanguageId::TypeScript));
        }
        true
    }

    /// Total code lines across all entries (the repo-list sort key).
    pub fn total_code(&self) -> (t: u128)
        ensures
            t == spec_total_code(self@),
    {
        let n = self.stats.len();
        let mut t: u128 = 0;
        let mut k: usize = 0;
        while k < n
            invariant
                n == self@.len(),
                k <= n,
                t == spec_total_code(self@.take(k as int)),
                t <= k * (u64::MAX as int),
            decreases n - k,
        {
            let c = self.stats[k].code;
            proof {
                assert(self@.take(k as int + 1).drop_last() =~= self@.take(k as int));
                assert(self@.take(k as int + 1).last() == self@[k as int]);
                assert((k + 1) * (u64::MAX as int) == k * (u64::MAX as int) + u64::MAX as int)
                    by (nonlinear_arith);
                assert(k * (u64::MAX as int) <= (usize::MAX as int) * (u64::MAX as int))
                    by (nonlinear_arith)
                    requires
                        0 <= k <= usize::MAX as int,
                ;
            }
            t = t + c as u128;
            k += 1;
        }
        proof {
            assert(self@.take(n as int) =~= self@);
        }
        t
    }

    /// Report-sorter step: order the entries by descending code count. The
    /// totals, presence and uniqueness of every language are unchanged.
    pub fn sort_by_code_desc(&mut self)
        ensures
            final(self)@.len() == old(self)@.len(),
            sorted_desc(final(self)@),
            forall|id: LanguageId| lang_counts(final(self)@, id) == lang_counts(old(self)@, id),
            forall|id: LanguageId| has_lang(final(self)@, id) == has_lang(old(self)@, id),
            old(self).wf() ==> final(self).wf(),
    {
        let n = self.stats.len();
        if n <= 1 {
            return;
        }
        let mut i: usize = 1;
        while i < n
            invariant
                n == self@.len(),
                1 <= i <= n,
                sorted_desc(self@.take(i as int)),
                forall|id: LanguageId| lang_counts(self@, id) == lang_counts(old(self)@, id),
                forall|id: LanguageId| has_lang(self@, id) == has_lang(old(self)@, id),
                old(self).wf() ==> unique_names(self@),
            decreases n - i,
        {
            let x = self.stats[i];
            let mut p: usize = 0;
            while p < i && self.stats[p].code >= x.code
                invariant
                    n == self@.len(),
                    i < n,
                    p <= i,
                    x == self@[i as int],
                    forall|q: int| 0 <= q < p ==> self@[q].code >= x.code,
                decreases i - p,
            {
                p += 1;
            }
            if p < i {
                let ghost s = self@;
                let moved = self.stats.remove(i);
                self.stats.insert(p, moved);
                proof {
                    lemma_move_entry(s, i as int, p as int);
                    let m = s.remove(i as int).insert(p as int, s[i as int]);
                    assert(self@ =~= m);
                    assert(sorted_desc(self@.take(i as int + 1))) by {
                        assert forall|a: int, b: int|
                            0 <= a <= b <= i as int
                            implies self@[a].code >= self@[b].code by {
                            let pi = p as int;
                            let ii = i as int;
                            if a < pi {
                                if b < pi {
                                    assert(s.take(ii)[a].code >= s.take(ii)[b].code);
                                } else if b == pi {
                                    assert(self@[b] == x);
                                } else {
                                    assert(self@[b] == s[b - 1]);
                                    assert(s.take(ii)[a].code >= s.take(ii)[b - 1].code);
                                }
                            } else if a == pi {
                                if b == pi {
                                } else {
                                    assert(self@[b] == s[b - 1]);
                                    assert(s[pi].code < x.code);
                                    assert(s.take(ii)[pi].code >= s.take(ii)[b - 1].code);
                                }
                            } else {
                                assert(self@[a] == s[a - 1]);
                                assert(self@[b] == s[b - 1]);
                                assert(s.take(ii)[a - 1].code >= s.take(ii)[b - 1].code);
                            }
                        }
                    }
                }
            } else {
                proof {
                    assert(sorted_desc(self@.take(i as int + 1))) by {
                        assert forall|a: int, b: int|
                            0 <= a <= b <= i as int
                            implies self@[a].code >= self@[b].code by {
                            if b < i as int {
                                assert(self@.take(i as int)[a].code
                                    >= self@.take(i as int)[b].code);
                            } else if a < i as int {
                                assert(self@[a].code >= x.code);
                            }
                        }
                    }
                }
            }
            i += 1;
        }
        proof {
            assert(self@.take(n as int) =~= self@);
        }
    }
}

/// After merging at `i` and removing the old entry, nothing of the removed
/// language remains: helper for `remove_at`.
proof fn lemma_remove_gone(s: Seq<LanguageStat>, i: int, out: Seq<LanguageStat>, id: LanguageId)
    requires
        unique_names(s),
        0 <= i < s.len(),
        s[i].name == id,
        out =~= s.update(i, s.last()).drop_last(),
        i != s.len() - 1,
    ensures
        lang_counts(out, id) == zero_counts(),
{
    assert(!has_lang(out, id)) by {
        if has_lang(out, id) {
            let w = choose|w: int| 0 <= w < out.len() && out[w].name == id;
            if w == i {
                assert(s[s.len() - 1].name == id);
                assert(s[s.len() - 1].name != s[i].name);
            } else {
                assert(s[w].name == id);
                assert(s[w].name != s[i].name);
            }
            assert(false);
        }
    }
    lemma_absent_zero(out, id);
}

} // verus!
