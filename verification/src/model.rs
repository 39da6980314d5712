//! The mathematical model of language statistics: counter triples, the
//! per-language totals of a sequence of entries, and the lemmas that relate
//! those totals under the sequence operations the library performs.

use vstd::prelude::*;

verus! {

/// A language recognized by the statistics pipeline. The set is closed: every
/// counted line belongs to one of these identifiers.
#[derive(Clone, Copy, Debug, PartialEq, Eq, Structural)]
pub enum LanguageId {
    Rust,
    C,
    Cpp,
    JavaScript,
    TypeScript,
    Css,
    Html,
    Python,
    Java,
    Sh,
    Tsx,
    Jsx,
    Toml,
    Markdown,
    Svelte,
    Vue,
    Sass,
    CMake,
    CppHeader,
    Zig,
    Go,
    Dockerfile,
    Yaml,
    Json,
}

/// Per-language line counters: the atomic unit moved between components.
#[derive(Clone, Copy, Debug, PartialEq, Eq, Structural)]
pub struct LanguageStat {
    pub name: LanguageId,
    pub code: u64,
    pub comments: u64,
    pub blanks: u64,
}

/// Unbounded counter triple used by specifications.
pub ghost struct Counts {
    pub code: int,
    pub comments: int,
    pub blanks: int,
}

pub open spec fn zero_counts() -> Counts {
    Counts { code: 0, comments: 0, blanks: 0 }
}

pub open spec fn cplus(a: Counts, b: Counts) -> Counts {
    Counts {
        code: a.code + b.code,
        comments: a.comments + b.comments,
        blanks: a.blanks + b.blanks,
    }
}

pub open spec fn stat_counts(s: LanguageStat) -> Counts {
    Counts { code: s.code as int, comments: s.comments as int, blanks: s.blanks as int }
}

/// What one entry contributes to the totals of language `id`.
pub open spec fn share(s: LanguageStat, id: LanguageId) -> Counts {
    if s.name == id {
        stat_counts(s)
    } else {
        zero_counts()
    }
}

/// The totals recorded for language `id` in `s`, summing duplicate entries.
pub open spec fn lang_counts(s: Seq<LanguageStat>, id: LanguageId) -> Counts
    decreases s.len(),
{
    if s.len() == 0 {
        zero_counts()
    } else {
        cplus(lang_counts(s.drop_last(), id), share(s.last(), id))
    }
}

/// Whether `s` holds an entry for language `id`.
pub open spec fn has_lang(s: Seq<LanguageStat>, id: LanguageId) -> bool {
    exists|i: int| 0 <= i < s.len() && s[i].name == id
}

/// The key invariant of a statistics set: at most one entry per language.
pub open spec fn unique_names(s: Seq<LanguageStat>) -> bool {
    forall|i: int, j: int|
        0 <= i < s.len() && 0 <= j < s.len() && i != j ==> s[i].name != s[j].name
}

/// All three counters fit in the machine representation.
pub open spec fn fits_u64(c: Counts) -> bool {
    c.code <= u64::MAX && c.comments <= u64::MAX && c.blanks <= u64::MAX
}

/// Entries ordered by descending code-line count.
pub open spec fn sorted_desc(s: Seq<LanguageStat>) -> bool {
    forall|i: int, j: int| 0 <= i <= j < s.len() ==> s[i].code >= s[j].code
}

/// The sum of code lines over all entries.
pub open spec fn spec_total_code(s: Seq<LanguageStat>) -> int
    decreases s.len(),
{
    if s.len() == 0 {
        0
    } else {
        spec_total_code(s.drop_last()) + s.last().code
    }
}

pub proof fn lemma_lang_counts_nonneg(s: Seq<LanguageStat>, id: LanguageId)
    ensures
        lang_counts(s, id).code >= 0,
        lang_counts(s, id).comments >= 0,
        lang_counts(s, id).blanks >= 0,
    decreases s.len(),
{
    if s.len() > 0 {
        lemma_lang_counts_nonneg(s.drop_last(), id);
    }
}

pub proof fn lemma_lang_counts_push(s: Seq<LanguageStat>, x: LanguageStat, id: LanguageId)
    ensures
        lang_counts(s.push(x), id) == cplus(lang_counts(s, id), share(x, id)),
{
    assert(s.push(x).drop_last() =~= s);
    assert(s.push(x).last() == x);
}

pub proof fn lemma_lang_counts_take_step(s: Seq<LanguageStat>, i: int, id: LanguageId)
    requires
        0 <= i < s.len(),
    ensures
        lang_counts(s.take(i + 1), id) == cplus(lang_counts(s.take(i), id), share(s[i], id)),
{
    assert(s.take(i + 1).drop_last() =~= s.take(i));
    assert(s.take(i + 1).last() == s[i]);
    assert(s.take(i + 1).len() == i + 1);
}

pub proof fn lemma_lang_counts_prefix_le(s: Seq<LanguageStat>, i: int, id: LanguageId)
    requires
        0 <= i <= s.len(),
    ensures
        lang_counts(s.take(i), id).code <= lang_counts(s, id).code,
        lang_counts(s.take(i), id).comments <= lang_counts(s, id).comments,
        lang_counts(s.take(i), id).blanks <= lang_counts(s, id).blanks,
    decreases s.len() - i,
{
    if i == s.len() {
        assert(s.take(i) =~= s);
    } else {
        lemma_lang_counts_take_step(s, i, id);
        lemma_lang_counts_prefix_le(s, i + 1, id);
    }
}

pub proof fn lemma_lang_counts_update(s: Seq<LanguageStat>, i: int, x: LanguageStat, id: LanguageId)
    requires
        0 <= i < s.len(),
    ensures
        cplus(lang_counts(s.update(i, x), id), share(s[i], id))
            == cplus(lang_counts(s, id), share(x, id)),
    decreases s.len(),
{
    let t = s.update(i, x);
    if i == s.len() - 1 {
        assert(t.drop_last() =~= s.drop_last());
        assert(t.last() == x);
    } else {
        assert(t.drop_last() =~= s.drop_last().update(i, x));
        assert(t.last() == s.last());
        assert(s.drop_last()[i] == s[i]);
        lemma_lang_counts_update(s.drop_last(), i, x, id);
    }
}

pub proof fn lemma_lang_counts_remove(s: Seq<LanguageStat>, i: int, id: LanguageId)
    requires
        0 <= i < s.len(),
    ensures
        cplus(lang_counts(s.remove(i), id), share(s[i], id)) == lang_counts(s, id),
    decreases s.len(),
{
    if i == s.len() - 1 {
        assert(s.remove(i) =~= s.drop_last());
    } else {
        assert(s.remove(i).drop_last() =~= s.drop_last().remove(i));
        assert(s.remove(i).last() == s.last());
        assert(s.drop_last()[i] == s[i]);
        lemma_lang_counts_remove(s.drop_last(), i, id);
    }
}

pub proof fn lemma_lang_counts_insert(s: Seq<LanguageStat>, i: int, x: LanguageStat, id: LanguageId)
    requires
        0 <= i <= s.len(),
    ensures
        lang_counts(s.insert(i, x), id) == cplus(lang_counts(s, id), share(x, id)),
    decreases s.len(),
{
    let t = s.insert(i, x);
    if i == s.len() {
        assert(t =~= s.push(x));
        lemma_lang_counts_push(s, x, id);
    } else {
        assert(t.drop_last() =~= s.drop_last().insert(i, x));
        assert(t.last() == s.last());
        lemma_lang_counts_insert(s.drop_last(), i, x, id);
    }
}

pub proof fn lemma_absent_zero(s: Seq<LanguageStat>, id: LanguageId)
    requires
        !has_lang(s, id),
    ensures
        lang_counts(s, id) == zero_counts(),
    decreases s.len(),
{
    if s.len() > 0 {
        assert(forall|q: int| 0 <= q < s.len() ==> s[q].name != id);
        assert(forall|q: int| 0 <= q < s.len() - 1 ==> s.drop_last()[q].name != id);
        lemma_absent_zero(s.drop_last(), id);
        assert(s.last().name != id);
    }
}

/// In a set without duplicate names, the totals of a present language are
/// exactly the counters of its single entry.
pub proof fn lemma_unique_at(s: Seq<LanguageStat>, i: int, id: LanguageId)
    requires
        unique_names(s),
        0 <= i < s.len(),
        s[i].name == id,
    ensures
        lang_counts(s, id) == stat_counts(s[i]),
    decreases s.len(),
{
    if i == s.len() - 1 {
        assert(!has_lang(s.drop_last(), id)) by {
            assert forall|q: int| 0 <= q < s.len() - 1 implies s.drop_last()[q].name != id by {
                assert(s[q].name != s[i].name);
            }
        }
        lemma_absent_zero(s.drop_last(), id);
    } else {
        assert(s.last().name != id) by {
            assert(s[s.len() - 1].name != s[i].name);
        }
        assert(s.drop_last()[i] == s[i]);
        assert(unique_names(s.drop_last())) by {
            assert forall|p: int, q: int|
                0 <= p < s.len() - 1 && 0 <= q < s.len() - 1 && p != q
                implies s.drop_last()[p].name != s.drop_last()[q].name by {
                assert(s[p].name != s[q].name);
            }
        }
        lemma_unique_at(s.drop_last(), i, id);
    }
}

/// In a duplicate-free set every language's totals are the counters of one
/// entry (or zero), so they fit the machine representation.
pub proof fn lemma_wf_fits(s: Seq<LanguageStat>)
    requires
        unique_names(s),
    ensures
        forall|id: LanguageId| #![trigger lang_counts(s, id)] fits_u64(lang_counts(s, id)),
{
    assert forall|id: LanguageId| fits_u64(#[trigger] lang_counts(s, id)) by {
        if has_lang(s, id) {
            let w = choose|w: int| 0 <= w < s.len() && s[w].name == id;
            lemma_unique_at(s, w, id);
        } else {
            lemma_absent_zero(s, id);
        }
    }
}

/// Two sequences with pointwise equal names hold the same languages and are
/// equally duplicate-free.
pub proof fn lemma_same_names(a: Seq<LanguageStat>, b: Seq<LanguageStat>)
    requires
        a.len() == b.len(),
        forall|q: int| 0 <= q < a.len() ==> a[q].name == b[q].name,
    ensures
        forall|id: LanguageId| has_lang(a, id) == has_lang(b, id),
        unique_names(a) == unique_names(b),
{
    assert forall|id: LanguageId| has_lang(a, id) == has_lang(b, id) by {
        if has_lang(a, id) {
            let w = choose|w: int| 0 <= w < a.len() && a[w].name == id;
            assert(b[w].name == id);
        }
        if has_lang(b, id) {
            let w = choose|w: int| 0 <= w < b.len() && b[w].name == id;
            assert(a[w].name == id);
        }
    }
    if unique_names(a) {
        assert forall|i: int, j: int|
            0 <= i < b.len() && 0 <= j < b.len() && i != j implies b[i].name != b[j].name by {
            assert(a[i].name != a[j].name);
        }
    }
    if unique_names(b) {
        assert forall|i: int, j: int|
            0 <= i < a.len() && 0 <= j < a.len() && i != j implies a[i].name != a[j].name by {
            assert(b[i].name != b[j].name);
        }
    }
}

/// Moving the element at `i` to the earlier position `p` permutes the
/// sequence: the multiset of elements is unchanged, and every position maps
/// back to a position of the original.
pub proof fn lemma_move_element<T>(s: Seq<T>, i: int, p: int)
    requires
        0 <= p <= i < s.len(),
    ensures
        ({
            let m = s.remove(i).insert(p, s[i]);
            &&& m.len() == s.len()
            &&& forall|q: int| 0 <= q < p ==> m[q] == s[q]
            &&& m[p] == s[i]
            &&& forall|q: int| p < q <= i ==> m[q] == s[q - 1]
            &&& forall|q: int| i < q < s.len() ==> m[q] == s[q]
            &&& m.to_multiset() == s.to_multiset()
        }),
{
    broadcast use vstd::seq_lib::group_to_multiset_ensures;

    let r = s.remove(i);
    let m = r.insert(p, s[i]);
    assert(forall|q: int| 0 <= q < p ==> m[q] == s[q]);
    assert forall|q: int| p < q <= i implies m[q] == s[q - 1] by {
        assert(m[q] == r[q - 1]);
    }
    assert forall|q: int| i < q < s.len() implies m[q] == s[q] by {
        assert(m[q] == r[q - 1]);
    }
    assert(s.contains(s[i]));
    assert(s.to_multiset().count(s[i]) > 0);
    assert(m.to_multiset() =~= s.to_multiset());
}

/// Moving the entry at `i` to the earlier position `p` reorders the sequence
/// without changing any language's totals, presence, or uniqueness.
pub proof fn lemma_move_entry(s: Seq<LanguageStat>, i: int, p: int)
    requires
        0 <= p <= i < s.len(),
    ensures
        ({
            let m = s.remove(i).insert(p, s[i]);
            &&& m.len() == s.len()
            &&& forall|q: int| 0 <= q < p ==> m[q] == s[q]
            &&& m[p] == s[i]
            &&& forall|q: int| p < q <= i ==> m[q] == s[q - 1]
            &&& forall|q: int| i < q < s.len() ==> m[q] == s[q]
            &&& forall|id: LanguageId| lang_counts(m, id) == lang_counts(s, id)
            &&& forall|id: LanguageId| has_lang(m, id) == has_lang(s, id)
            &&& (unique_names(s) ==> unique_names(m))
        }),
{
    let r = s.remove(i);
    let m = r.insert(p, s[i]);
    assert(m.len() == s.len());
    assert(forall|q: int| 0 <= q < p ==> m[q] == s[q]);
    assert(m[p] == s[i]);
    assert forall|q: int| p < q <= i implies m[q] == s[q - 1] by {
        assert(m[q] == r[q - 1]);
    }
    assert forall|q: int| i < q < s.len() implies m[q] == s[q] by {
        assert(m[q] == r[q - 1]);
    }
    assert forall|id: LanguageId| lang_counts(m, id) == lang_counts(s, id) by {
        lemma_lang_counts_remove(s, i, id);
        lemma_lang_counts_insert(r, p, s[i], id);
    }
    assert forall|id: LanguageId| has_lang(m, id) == has_lang(s, id) by {
        if has_lang(s, id) {
            let w = choose|w: int| 0 <= w < s.len() && s[w].name == id;
            if w < p {
                assert(m[w].name == id);
            } else if w == i {
                assert(m[p].name == id);
            } else if w < i {
                assert(m[w + 1].name == id);
            } else {
                assert(m[w].name == id);
            }
        }
        if has_lang(m, id) {
            let w = choose|w: int| 0 <= w < m.len() && m[w].name == id;
            if w < p {
                assert(s[w].name == id);
            } else if w == p {
                assert(s[i].name == id);
            } else if w <= i {
                assert(s[w - 1].name == id);
            } else {
                assert(s[w].name == id);
            }
        }
    }
    if unique_names(s) {
        assert forall|q1: int, q2: int|
            0 <= q1 < m.len() && 0 <= q2 < m.len() && q1 != q2
            implies m[q1].name != m[q2].name by {
            let w1: int = if q1 < p { q1 } else if q1 == p { i } else if q1 <= i { q1 - 1 } else { q1 };
            let w2: int = if q2 < p { q2 } else if q2 == p { i } else if q2 <= i { q2 - 1 } else { q2 };
            assert(m[q1] == s[w1]);
            assert(m[q2] == s[w2]);
            assert(w1 != w2);
            assert(s[w1].name != s[w2].name);
        }
    }
}

} // verus!
