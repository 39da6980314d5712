//! Repository descriptors, the publication eligibility rule, and the
//! clone-order plan: forks are discarded and the remaining repositories are
//! ordered by descending declared size so the largest are dispatched first.

use vstd::prelude::*;

use crate::model::lemma_move_element;

verus! {

/// Metadata about one repository, as the hosting service reports it.
/// Produced once by the lister; read-only thereafter.
pub struct RepositoryDescriptor {
    pub name: String,
    pub clone_url: String,
    pub html_url: String,
    pub description: Option<String>,
    /// Approximate size, used only to schedule large repositories first.
    pub size: u64,
    pub private: bool,
    pub fork: bool,
}

/// Whether `name` occurs in the configured exclusion list.
pub open spec fn spec_excluded(exclude: Seq<String>, name: Seq<char>) -> bool {
    exists|k: int| 0 <= k < exclude.len() && exclude[k]@ == name
}

/// The publication rule: only public, non-forked, non-excluded repositories
/// get an entry of their own in the per-repository report.
pub open spec fn spec_eligible(r: RepositoryDescriptor, exclude: Seq<String>) -> bool {
    !r.fork && !r.private && !spec_excluded(exclude, r.name@)
}

/// The non-fork repositories of `s`, in their original order.
pub open spec fn non_forks(s: Seq<RepositoryDescriptor>) -> Seq<RepositoryDescriptor>
    decreases s.len(),
{
    if s.len() == 0 {
        Seq::<RepositoryDescriptor>::empty()
    } else if s.last().fork {
        non_forks(s.drop_last())
    } else {
        non_forks(s.drop_last()).push(s.last())
    }
}

/// Repositories ordered by descending declared size.
pub open spec fn sorted_by_size_desc(s: Seq<RepositoryDescriptor>) -> bool {
    forall|i: int, j: int| 0 <= i <= j < s.len() ==> s[i].size >= s[j].size
}

/// Whether `name` is in the exclusion list.
pub fn name_excluded(exclude: &Vec<String>, name: &String) -> (r: bool)
    ensures
        r == spec_excluded(exclude@, name@),
{
    let n = exclude.len();
    let mut k: usize = 0;
    while k < n
        invariant
            n == exclude@.len(),
            k <= n,
            forall|q: int| 0 <= q < k ==> exclude@[q]@ != name@,
        decreases n - k,
    {
        if exclude[k] == *name {
            return true;
        }
        k += 1;
    }
    false
}

/// The eligibility filter of the per-repo collector.
pub fn is_eligible(r: &RepositoryDescriptor, exclude: &Vec<String>) -> (b: bool)
    ensures
        b == spec_eligible(*r, exclude@),
{
    if r.fork || r.private {
        return false;
    }
    !name_excluded(exclude, &r.name)
}

/// Lister post-pass: discard forks, then order what remains by descending
/// declared size, so the largest (slowest) repositories are dispatched to
/// workers first.
pub fn plan_clone_order(repos: Vec<RepositoryDescriptor>) -> (r: Vec<RepositoryDescriptor>)
    ensures
        r@.to_multiset() == non_forks(repos@).to_multiset(),
        forall|k: int| 0 <= k < r@.len() ==> !r@[k].fork,
        sorted_by_size_desc(r@),
{
    broadcast use vstd::seq_lib::group_to_multiset_ensures;

    let ghost orig = repos@;
    let n = repos.len();
    let mut repos = repos;
    let mut kept: Vec<RepositoryDescriptor> = Vec::new();
    let mut k: usize = 0;
    while k < n
        invariant
            n == orig.len(),
            k <= n,
            repos@ == orig.skip(k as int),
            kept@ == non_forks(orig.take(k as int)),
            forall|q: int| 0 <= q < kept@.len() ==> !kept@[q].fork,
        decreases n - k,
    {
        proof {
            assert(orig.take(k as int + 1).drop_last() =~= orig.take(k as int));
            assert(orig.take(k as int + 1).last() == orig[k as int]);
            assert(orig.skip(k as int)[0] == orig[k as int]);
        }
        let item = repos.remove(0);
        proof {
            assert(repos@ =~= orig.skip(k as int + 1));
        }
        if !item.fork {
            kept.push(item);
        }
        k += 1;
    }
    proof {
        assert(orig.take(n as int) =~= orig);
    }
    // Insertion sort by descending size.
    let m = kept.len();
    if m <= 1 {
        return kept;
    }
    let mut i: usize = 1;
    while i < m
        invariant
            m == kept@.len(),
            1 <= i <= m,
            sorted_by_size_desc(kept@.take(i as int)),
            kept@.to_multiset() == non_forks(orig).to_multiset(),
            forall|q: int| 0 <= q < kept@.len() ==> !kept@[q].fork,
        decreases m - i,
    {
        let key = kept[i].size;
        let mut p: usize = 0;
        while p < i && kept[p].size >= key
            invariant
                m == kept@.len(),
                i < m,
                p <= i,
                key == kept@[i as int].size,
                forall|q: int| 0 <= q < p ==> kept@[q].size >= key,
            decreases i - p,
        {
            p += 1;
        }
        if p < i {
            let ghost s = kept@;
            let moved = kept.remove(i);
            kept.insert(p, moved);
            proof {
                lemma_move_element(s, i as int, p as int);
                let mm = s.remove(i as int).insert(p as int, s[i as int]);
                assert(kept@ =~= mm);
                assert forall|q: int| 0 <= q < kept@.len() implies !kept@[q].fork by {
                    if q < p as int {
                    } else if q == p as int {
                        assert(kept@[q] == s[i as int]);
                    } else if q <= i as int {
                        assert(kept@[q] == s[q - 1]);
                    }
                }
                assert(sorted_by_size_desc(kept@.take(i as int + 1))) by {
                    assert forall|a: int, b: int|
                        0 <= a <= b <= i as int
                        implies kept@[a].size >= kept@[b].size by {
                        let pi = p as int;
                        let ii = i as int;
                        if a < pi {
                            if b < pi {
                                assert(s.take(ii)[a].size >= s.take(ii)[b].size);
                            } else if b == pi {
                                assert(kept@[b] == s[ii]);
                            } else {
                                assert(kept@[b] == s[b - 1]);
                                assert(s.take(ii)[a].size >= s.take(ii)[b - 1].size);
                            }
                        } else if a == pi {
                            if b > pi {
                                assert(kept@[b] == s[b - 1]);
                                assert(s[pi].size < key);
                                assert(s.take(ii)[pi].size >= s.take(ii)[b - 1].size);
                            }
                        } else {
                            assert(kept@[a] == s[a - 1]);
                            assert(kept@[b] == s[b - 1]);
                            assert(s.take(ii)[a - 1].size >= s.take(ii)[b - 1].size);
                        }
                    }
                }
            }
        } else {
            proof {
                assert(sorted_by_size_desc(kept@.take(i as int + 1))) by {
                    assert forall|a: int, b: int|
                        0 <= a <= b <= i as int
                        implies kept@[a].size >= kept@[b].size by {
                        if b < i as int {
                            assert(kept@.take(i as int)[a].size
                                >= kept@.take(i as int)[b].size);
                        } else if a < i as int {
                            assert(kept@[a].size >= key);
                        }
                    }
                }
            }
        }
        i += 1;
    }
    proof {
        assert(kept@.take(m as int) =~= kept@);
    }
    kept
}

} // verus!
