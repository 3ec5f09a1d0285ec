use vstd::prelude::*;
use crate::entry::DirEntry;
use crate::image_entry::ImageEntry;
use crate::order::{
    lemma_lex_flip, lemma_lex_trans, lemma_nat_cmp_flip, lemma_nat_cmp_trans, lex_cmp, nat_cmp,
    natural_sort, str_lex_cmp, Comparison,
};

verus! {

/// Image entries stand in natural order of their paths: no entry sorts after
/// one that follows it, however far apart.
pub open spec fn sorted_natural(s: Seq<ImageEntry>) -> bool {
    forall|i: int, j: int|
        0 <= i < j < s.len() ==> nat_cmp((#[trigger] s[i]).image_path@, (#[trigger] s[j]).image_path@)
            != Comparison::Greater
}

/// Folder records stand in lexicographic order of their directory paths.
pub open spec fn sorted_lex_dirs(s: Seq<DirEntry>) -> bool {
    forall|i: int, j: int|
        0 <= i < j < s.len() ==> lex_cmp((#[trigger] s[i]).dir_path@, (#[trigger] s[j]).dir_path@)
            != Comparison::Greater
}

proof fn lemma_nat_chain(s: Seq<ImageEntry>, i: int, j: int)
    requires
        forall|t: int|
            0 <= t < s.len() - 1 ==> nat_cmp((#[trigger] s[t]).image_path@, s[t + 1].image_path@)
                != Comparison::Greater,
        0 <= i < j < s.len(),
    ensures
        nat_cmp(s[i].image_path@, s[j].image_path@) != Comparison::Greater,
    decreases j - i,
{
    if i + 1 < j {
        lemma_nat_chain(s, i, j - 1);
        lemma_nat_cmp_trans(s[i].image_path@, s[j - 1].image_path@, s[j].image_path@);
    }
}

proof fn lemma_lex_chain(s: Seq<DirEntry>, i: int, j: int)
    requires
        forall|t: int|
            0 <= t < s.len() - 1 ==> lex_cmp((#[trigger] s[t]).dir_path@, s[t + 1].dir_path@)
                != Comparison::Greater,
        0 <= i < j < s.len(),
    ensures
        lex_cmp(s[i].dir_path@, s[j].dir_path@) != Comparison::Greater,
    decreases j - i,
{
    if i + 1 < j {
        lemma_lex_chain(s, i, j - 1);
        lemma_lex_trans(s[i].dir_path@, s[j - 1].dir_path@, s[j].dir_path@);
    }
}

#[verifier::rlimit(100)]
proof fn lemma_insert_step_images(before: Seq<ImageEntry>, after: Seq<ImageEntry>, k: int, idx: int)
    requires
        0 <= k < idx < before.len(),
        after == before.remove(idx).insert(k, before[idx]),
        forall|t: int|
            0 <= t < k ==> nat_cmp((#[trigger] before[t]).image_path@, before[idx].image_path@)
                != Comparison::Greater,
        nat_cmp(before[k].image_path@, before[idx].image_path@) == Comparison::Greater,
        forall|t: int|
            0 <= t < idx - 1 ==> nat_cmp((#[trigger] before[t]).image_path@, before[t
                + 1].image_path@) != Comparison::Greater,
    ensures
        after.to_multiset() == before.to_multiset(),
        after.len() == before.len(),
        forall|t: int|
            0 <= t < idx ==> nat_cmp((#[trigger] after[t]).image_path@, after[t + 1].image_path@)
                != Comparison::Greater,
{
    let x = before[idx];
    vstd::seq_lib::to_multiset_remove(before, idx);
    vstd::seq_lib::to_multiset_insert(before.remove(idx), k, x);
    vstd::seq_lib::to_multiset_contains(before, x);
    assert(before.contains(x));
    broadcast use vstd::multiset::group_multiset_axioms;

    assert(after.to_multiset() =~= before.to_multiset());
    lemma_nat_cmp_flip(x.image_path@, before[k].image_path@);
    assert forall|t: int| 0 <= t < idx implies nat_cmp(
        (#[trigger] after[t]).image_path@,
        after[t + 1].image_path@,
    ) != Comparison::Greater by {
        if t + 1 < k {
            assert(after[t] == before[t]);
            assert(after[t + 1] == before[t + 1]);
        } else if t + 1 == k {
            assert(after[t] == before[t]);
            assert(after[t + 1] == x);
        } else if t == k {
            assert(after[t] == x);
            assert(after[t + 1] == before[k]);
        } else {
            assert(after[t] == before[t - 1]);
            assert(after[t + 1] == before[t]);
        }
    }
}

#[verifier::rlimit(100)]
proof fn lemma_insert_step_dirs(before: Seq<DirEntry>, after: Seq<DirEntry>, k: int, idx: int)
    requires
        0 <= k < idx < before.len(),
        after == before.remove(idx).insert(k, before[idx]),
        forall|t: int|
            0 <= t < k ==> lex_cmp((#[trigger] before[t]).dir_path@, before[idx].dir_path@)
                != Comparison::Greater,
        lex_cmp(before[k].dir_path@, before[idx].dir_path@) == Comparison::Greater,
        forall|t: int|
            0 <= t < idx - 1 ==> lex_cmp((#[trigger] before[t]).dir_path@, before[t + 1].dir_path@)
                != Comparison::Greater,
    ensures
        after.to_multiset() == before.to_multiset(),
        after.len() == before.len(),
        forall|t: int|
            0 <= t < idx ==> lex_cmp((#[trigger] after[t]).dir_path@, after[t + 1].dir_path@)
                != Comparison::Greater,
{
    let x = before[idx];
    vstd::seq_lib::to_multiset_remove(before, idx);
    vstd::seq_lib::to_multiset_insert(before.remove(idx), k, x);
    vstd::seq_lib::to_multiset_contains(before, x);
    assert(before.contains(x));
    broadcast use vstd::multiset::group_multiset_axioms;

    assert(after.to_multiset() =~= before.to_multiset());
    lemma_lex_flip(x.dir_path@, before[k].dir_path@);
    assert forall|t: int| 0 <= t < idx implies lex_cmp(
        (#[trigger] after[t]).dir_path@,
        after[t + 1].dir_path@,
    ) != Comparison::Greater by {
        if t + 1 < k {
            assert(after[t] == before[t]);
            assert(after[t + 1] == before[t + 1]);
        } else if t + 1 == k {
            assert(after[t] == before[t]);
            assert(after[t + 1] == x);
        } else if t == k {
            assert(after[t] == x);
            assert(after[t + 1] == before[k]);
        } else {
            assert(after[t] == before[t - 1]);
            assert(after[t + 1] == before[t]);
        }
    }
}

/// Sort a folder's loaded entries into natural order of their image paths,
/// keeping exactly the same entries.
#[verifier::rlimit(100)]
pub fn sort_image_entries(entries: &mut Vec<ImageEntry>)
    ensures
        sorted_natural(final(entries)@),
        final(entries)@.to_multiset() == old(entries)@.to_multiset(),
        final(entries)@.len() == old(entries)@.len(),
{
    let n = entries.len();
    let mut idx: usize = 0;
    while idx < n
        invariant
            idx <= n,
            n == entries@.len(),
            entries@.to_multiset() == old(entries)@.to_multiset(),
            forall|t: int|
                0 <= t < idx - 1 ==> nat_cmp(
                    (#[trigger] entries@[t]).image_path@,
                    entries@[t + 1].image_path@,
                ) != Comparison::Greater,
        decreases n - idx,
    {
        let mut k: usize = 0;
        let mut stop: bool = false;
        while k < idx && !stop
            invariant
                k <= idx,
                idx < n,
                n == entries@.len(),
                forall|t: int|
                    0 <= t < k ==> nat_cmp(
                        (#[trigger] entries@[t]).image_path@,
                        entries@[idx as int].image_path@,
                    ) != Comparison::Greater,
                stop ==> k < idx && nat_cmp(
                    entries@[k as int].image_path@,
                    entries@[idx as int].image_path@,
                ) == Comparison::Greater,
            decreases idx - k + (if stop {
                0int
            } else {
                1int
            }),
        {
            let c = natural_sort(entries[k].image_path.as_str(), entries[idx].image_path.as_str());
            if matches!(c, Comparison::Greater) {
                stop = true;
            } else {
                k += 1;
            }
        }
        if stop {
            let ghost before = entries@;
            let x = entries.remove(idx);
            entries.insert(k, x);
            proof {
                lemma_insert_step_images(before, entries@, k as int, idx as int);
            }
        }
        idx += 1;
    }
    proof {
        assert forall|i: int, j: int| 0 <= i < j < entries@.len() implies nat_cmp(
            (#[trigger] entries@[i]).image_path@,
            (#[trigger] entries@[j]).image_path@,
        ) != Comparison::Greater by {
            lemma_nat_chain(entries@, i, j);
        }
    }
}

/// Sort the scan's folder records by directory path, keeping exactly the same
/// records.
#[verifier::rlimit(100)]
pub fn sort_dir_entries(entries: &mut Vec<DirEntry>)
    ensures
        sorted_lex_dirs(final(entries)@),
        final(entries)@.to_multiset() == old(entries)@.to_multiset(),
        final(entries)@.len() == old(entries)@.len(),
{
    let n = entries.len();
    let mut idx: usize = 0;
    while idx < n
        invariant
            idx <= n,
            n == entries@.len(),
            entries@.to_multiset() == old(entries)@.to_multiset(),
            forall|t: int|
                0 <= t < idx - 1 ==> lex_cmp(
                    (#[trigger] entries@[t]).dir_path@,
                    entries@[t + 1].dir_path@,
                ) != Comparison::Greater,
        decreases n - idx,
    {
        let mut k: usize = 0;
        let mut stop: bool = false;
        while k < idx && !stop
            invariant
                k <= idx,
                idx < n,
                n == entries@.len(),
                forall|t: int|
                    0 <= t < k ==> lex_cmp(
                        (#[trigger] entries@[t]).dir_path@,
                        entries@[idx as int].dir_path@,
                    ) != Comparison::Greater,
                stop ==> k < idx && lex_cmp(
                    entries@[k as int].dir_path@,
                    entries@[idx as int].dir_path@,
                ) == Comparison::Greater,
            decreases idx - k + (if stop {
                0int
            } else {
                1int
            }),
        {
            let c = str_lex_cmp(entries[k].dir_path.as_str(), entries[idx].dir_path.as_str());
            if matches!(c, Comparison::Greater) {
                stop = true;
            } else {
                k += 1;
            }
        }
        if stop {
            let ghost before = entries@;
            let x = entries.remove(idx);
            entries.insert(k, x);
            proof {
                lemma_insert_step_dirs(before, entries@, k as int, idx as int);
            }
        }
        idx += 1;
    }
    proof {
        assert forall|i: int, j: int| 0 <= i < j < entries@.len() implies lex_cmp(
            (#[trigger] entries@[i]).dir_path@,
            (#[trigger] entries@[j]).dir_path@,
        ) != Comparison::Greater by {
            lemma_lex_chain(entries@, i, j);
        }
    }
}

} // verus!
