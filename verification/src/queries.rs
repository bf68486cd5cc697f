//! Two questions about a file system: how much the small directories hold
//! together, and which directory is the smallest whose removal frees enough
//! space.

use vstd::prelude::*;
use crate::forest::{child_total, chosen, is_dir_at, subtree_dirs, Forest};
use crate::forest_lemmas::lemma_subtree_dirs_are_dirs;
use crate::fsobject::{answers, dir_handle, ids, lemma_dir_handle, FSDir, FSObject, FileSystem};

verus! {

/// The sizes of those of `dirs` that are no larger than `limit`, added up.
pub open spec fn small_total(m: Forest, dirs: Seq<int>, limit: nat) -> nat
    decreases dirs.len(),
{
    if dirs.len() == 0 {
        0
    } else if m[dirs.last()].size <= limit {
        small_total(m, dirs.drop_last(), limit) + m[dirs.last()].size
    } else {
        small_total(m, dirs.drop_last(), limit)
    }
}

/// How much space must be freed so that `required` is free on a device of
/// `capacity` of which `used` is taken.
pub open spec fn needed(used: nat, capacity: nat, required: nat) -> nat {
    if required + used > capacity {
        (required + used - capacity) as nat
    } else {
        0
    }
}

/// Whatever is chosen is one of the candidates, and marked.
pub proof fn lemma_chosen_marked(cands: Seq<int>, keep: Seq<bool>, j: int) -> (i: int)
    requires
        keep.len() == cands.len(),
        0 <= j < chosen(cands, keep).len(),
    ensures
        0 <= i < cands.len(),
        keep[i],
        cands[i] == chosen(cands, keep)[j],
    decreases cands.len(),
{
    let init = chosen(cands.drop_last(), keep.drop_last());
    if keep.last() && j == init.len() {
        cands.len() - 1
    } else {
        lemma_chosen_marked(cands.drop_last(), keep.drop_last(), j)
    }
}

/// Every marked candidate is chosen.
pub proof fn lemma_marked_chosen(cands: Seq<int>, keep: Seq<bool>, i: int) -> (j: int)
    requires
        keep.len() == cands.len(),
        0 <= i < cands.len(),
        keep[i],
    ensures
        0 <= j < chosen(cands, keep).len(),
        cands[i] == chosen(cands, keep)[j],
    decreases cands.len(),
{
    let init = chosen(cands.drop_last(), keep.drop_last());
    if i == cands.len() - 1 {
        init.len() as int
    } else {
        lemma_marked_chosen(cands.drop_last(), keep.drop_last(), i)
    }
}

/// Where the marked candidates are those no larger than `limit`, what is
/// chosen adds up to the total of the small ones.
pub proof fn lemma_chosen_small_total(m: Forest, cands: Seq<int>, keep: Seq<bool>, limit: nat)
    requires
        keep.len() == cands.len(),
        forall|i: int| 0 <= i < cands.len() ==> keep[i] == (m[#[trigger] cands[i]].size <= limit),
    ensures
        child_total(m, chosen(cands, keep)) == small_total(m, cands, limit),
    decreases cands.len(),
{
    if cands.len() > 0 {
        let init = cands.drop_last();
        lemma_chosen_small_total(m, init, keep.drop_last(), limit);
        if keep.last() {
            assert(chosen(cands, keep).drop_last() =~= chosen(init, keep.drop_last()));
        }
    }
}

/// The total size of the directories in the subtree of `root` that are no
/// larger than `limit`. A directory counts with all that it holds, so what
/// lies in a small directory within a small directory counts twice.
pub fn part_1(fs: &FileSystem, root: &FSDir, limit: usize) -> (total: u128)
    requires
        fs.wf(),
        root.valid_in(fs),
    ensures
        total == small_total(fs@, subtree_dirs(fs@, root@), limit as nat),
{
    let ghost m = fs@;
    let ghost cands = subtree_dirs(m, root@);
    proof {
        lemma_subtree_dirs_are_dirs(m, root@);
        assert forall|i: int| 0 <= i < cands.len() implies dir_handle(#[trigger] cands[i]).valid_in(fs) by {
            lemma_dir_handle(fs, cands[i]);
        }
    }
    let small = |d: &FSDir| -> (fits: bool)
        requires
            d.valid_in(fs),
        ensures
            fits == (fs@[d@].size <= limit),
        { d.size(fs) <= limit };
    let dirs = root.find_dirs_recurs_by(fs, &small);
    let ghost picked = ids(dirs@);
    proof {
        let keep = choose|keep: Seq<bool>| answers(&small, cands, keep) && picked == chosen(cands, keep);
        assert forall|i: int| 0 <= i < cands.len() implies keep[i] == (m[#[trigger] cands[i]].size <= limit) by {
            lemma_dir_handle(fs, cands[i]);
        }
        lemma_chosen_small_total(m, cands, keep, limit as nat);
        assert forall|j: int| 0 <= j < picked.len() implies is_dir_at(m, #[trigger] picked[j]) by {
            lemma_chosen_marked(cands, keep, j);
        }
    }
    let mut total: u128 = 0;
    let mut k: usize = 0;
    while k < dirs.len()
        invariant
            m == fs@,
            picked == ids(dirs@),
            k <= dirs.len(),
            forall|j: int| 0 <= j < picked.len() ==> is_dir_at(m, #[trigger] picked[j]),
            total == child_total(m, picked.take(k as int)),
            total <= k * usize::MAX,
        decreases dirs.len() - k,
    {
        let dir = dirs[k];
        assert(dir@ == picked[k as int]);
        let size = dir.size(fs);
        proof {
            assert(picked.take(k + 1).drop_last() =~= picked.take(k as int));
            assert((k + 1) * usize::MAX <= usize::MAX * usize::MAX) by (nonlinear_arith)
                requires
                    k + 1 <= usize::MAX,
            ;
            assert(usize::MAX * usize::MAX <= u128::MAX) by (nonlinear_arith)
                requires
                    usize::MAX <= 0xffff_ffff_ffff_ffff,
            ;
        }
        total = total + size as u128;
        k = k + 1;
    }
    assert(picked.take(k as int) =~= picked);
    total
}

/// The size of the smallest directory in the subtree of `root` whose
/// removal leaves `required` free on a device of `capacity`, all of whose
/// content lies under `root`. There is none if no directory is large
/// enough.
pub fn part_2(fs: &FileSystem, root: &FSDir, capacity: usize, required: usize) -> (least: Option<usize>)
    requires
        fs.wf(),
        root.valid_in(fs),
        fs@[root@].size <= capacity,
    ensures
        ({
            let dirs = subtree_dirs(fs@, root@);
            let need = needed(fs@[root@].size, capacity as nat, required as nat);
            match least {
                Some(size) => {
                    &&& size >= need
                    &&& exists|i: int| 0 <= i < dirs.len() && fs@[#[trigger] dirs[i]].size == size
                    &&& forall|i: int|
                        0 <= i < dirs.len() && fs@[#[trigger] dirs[i]].size >= need ==> size <= fs@[dirs[i]].size
                },
                None => forall|i: int| 0 <= i < dirs.len() ==> fs@[#[trigger] dirs[i]].size < need,
            }
        }),
        required <= capacity ==> least is Some,
{
    let ghost m = fs@;
    let ghost cands = subtree_dirs(m, root@);
    let taken = root.size(fs);
    let avail = capacity - taken;
    let need = if required > avail {
        required - avail
    } else {
        0
    };
    proof {
        lemma_subtree_dirs_are_dirs(m, root@);
        assert forall|i: int| 0 <= i < cands.len() implies dir_handle(#[trigger] cands[i]).valid_in(fs) by {
            lemma_dir_handle(fs, cands[i]);
        }
    }
    let large = |d: &FSDir| -> (fits: bool)
        requires
            d.valid_in(fs),
        ensures
            fits == (fs@[d@].size >= need),
        { d.size(fs) >= need };
    let dirs = root.find_dirs_recurs_by(fs, &large);
    let ghost picked = ids(dirs@);
    let ghost keep = choose|keep: Seq<bool>| answers(&large, cands, keep) && picked == chosen(cands, keep);
    proof {
        assert forall|i: int| 0 <= i < cands.len() implies keep[i] == (m[#[trigger] cands[i]].size >= need) by {
            lemma_dir_handle(fs, cands[i]);
        }
        assert forall|j: int| 0 <= j < picked.len() implies is_dir_at(m, #[trigger] picked[j]) && m[picked[j]].size
            >= need && cands.contains(picked[j]) by {
            lemma_chosen_marked(cands, keep, j);
        }
        assert(cands[0] == root@);
        if required <= capacity {
            lemma_marked_chosen(cands, keep, 0);
        }
    }
    let mut least: Option<usize> = None;
    let mut k: usize = 0;
    while k < dirs.len()
        invariant
            m == fs@,
            picked == ids(dirs@),
            k <= dirs.len(),
            forall|j: int|
                0 <= j < picked.len() ==> is_dir_at(m, #[trigger] picked[j]) && m[picked[j]].size >= need
                    && cands.contains(picked[j]),
            least is None ==> k == 0,
            least matches Some(size) ==> {
                &&& exists|j: int| 0 <= j < k && m[#[trigger] picked[j]].size == size
                &&& forall|j: int| 0 <= j < k ==> size <= m[#[trigger] picked[j]].size
            },
        decreases dirs.len() - k,
    {
        let dir = dirs[k];
        assert(dir@ == picked[k as int]);
        let size = dir.size(fs);
        let smaller = match least {
            Some(found) => size < found,
            None => true,
        };
        if smaller {
            least = Some(size);
        }
        k = k + 1;
    }
    proof {
        match least {
            Some(size) => {
                assert forall|i: int| 0 <= i < cands.len() && m[#[trigger] cands[i]].size >= need implies size
                    <= m[cands[i]].size by {
                    lemma_marked_chosen(cands, keep, i);
                }
            },
            None => {
                assert forall|i: int| 0 <= i < cands.len() implies m[#[trigger] cands[i]].size < need by {
                    if m[cands[i]].size >= need {
                        lemma_marked_chosen(cands, keep, i);
                    }
                }
            },
        }
    }
    least
}

} // verus!
