//! Library-wide laws stated and proved once, over the same model that the
//! executable operations' contracts use.

use vstd::prelude::*;

use crate::model::{cplus, has_lang, lang_counts, zero_counts, LanguageId, LanguageStat};

verus! {

/// Merge commutativity: folding the entries of `a` and then of `b` into an
/// empty accumulator yields the same per-language totals, and the same set
/// of present languages, as folding `b` and then `a`.
pub proof fn lemma_merge_commutative(a: Seq<LanguageStat>, b: Seq<LanguageStat>)
    ensures
        forall|id: LanguageId|
            cplus(cplus(zero_counts(), lang_counts(a, id)), lang_counts(b, id))
                == cplus(cplus(zero_counts(), lang_counts(b, id)), lang_counts(a, id)),
        forall|id: LanguageId|
            (has_lang(a, id) || has_lang(b, id)) == (has_lang(b, id) || has_lang(a, id)),
{
}

} // verus!
