//! What holds of every file system and of every transcript.

use vstd::prelude::*;
use crate::builder::{
    cd_word, current, dir_word, lemma_run_ok, lemma_start_exact, lemma_start_ok, ls_word, prompt,
    replaces_nothing, root_word, run, start, state_ok, step, up_word, BuildError, BuildState,
};
use crate::forest::{
    attach, can_attach, child_dirs, child_total, chosen, dirs_among, dirs_beneath, exact, has, is_dir_at,
    linked, listed, listed_at, named_child, node_linked, reaches, room, size_ok, slot, sorted_by_name,
    subtree_dirs, Forest,
};
use crate::forest_lemmas::{
    lemma_attach_linked, lemma_child_toward, lemma_children_distinct, lemma_chosen_embeds,
    lemma_dirs_beneath_are_dirs, lemma_named_child, lemma_reaches_depth, lemma_reaches_transitive,
    lemma_reaches_unique, lemma_room_child, lemma_slot_parts,
};
use crate::names::{name_lt, lemma_name_lt_irreflexive, lemma_name_lt_transitive};
use crate::transcript::{fields, parse_size};

verus! {

/// The sizes of the files in and beneath the first `k` children of `d`,
/// added up.
pub open spec fn files_beneath(m: Forest, d: int, k: nat) -> nat
    decreases room(m, d), k,
{
    if k == 0 || k > m[d].children.len() {
        0
    } else {
        let c = m[d].children[k - 1];
        let before = files_beneath(m, d, (k - 1) as nat);
        if !m[c].is_dir {
            before + m[c].size
        } else if room(m, c) < room(m, d) {
            before + files_beneath(m, c, m[c].children.len())
        } else {
            before
        }
    }
}

/// The sizes of all files that lie anywhere beneath directory `d`, added
/// up.
pub open spec fn files_total(m: Forest, d: int) -> nat {
    files_beneath(m, d, m[d].children.len())
}

/// The files beneath the first `k` children of a directory add up to what
/// the sizes of those children add up to.
pub proof fn lemma_files_beneath(m: Forest, d: int, k: nat)
    requires
        exact(m),
        is_dir_at(m, d),
        k <= m[d].children.len(),
    ensures
        files_beneath(m, d, k) == child_total(m, m[d].children.take(k as int)),
    decreases room(m, d), k,
{
    let kids = m[d].children;
    if k > 0 {
        let c = kids[k - 1];
        lemma_files_beneath(m, d, (k - 1) as nat);
        lemma_room_child(m, d, k - 1);
        assert(kids.take(k as int).drop_last() =~= kids.take(k - 1));
        if m[c].is_dir {
            lemma_files_beneath(m, c, m[c].children.len());
            assert(m[c].children.take(m[c].children.len() as int) =~= m[c].children);
            assert(size_ok(m, c));
        }
    }
}

/// In an exact file system the size of every directory is the total
/// size of the files that lie anywhere beneath it.
pub proof fn lemma_size_is_files_total(m: Forest, d: int)
    requires
        exact(m),
        is_dir_at(m, d),
    ensures
        m[d].size == files_total(m, d),
{
    lemma_files_beneath(m, d, m[d].children.len());
    assert(m[d].children.take(m[d].children.len() as int) =~= m[d].children);
    assert(size_ok(m, d));
}

/// In the file system that a transcript describes, every directory is as
/// large as the files beneath it together, unless a line of the transcript
/// puts a new directory in the place of a file.
pub proof fn lemma_built_sizes(lines: Seq<Seq<char>>, d: int)
    requires
        run(start(), lines) is Ok,
        replaces_nothing(start(), lines),
        is_dir_at(run(start(), lines)->Ok_0.fs, d),
    ensures
        exact(run(start(), lines)->Ok_0.fs),
        run(start(), lines)->Ok_0.fs[d].size == files_total(run(start(), lines)->Ok_0.fs, d),
{
    lemma_start_ok();
    lemma_start_exact();
    lemma_run_ok(start(), lines);
    lemma_size_is_files_total(run(start(), lines)->Ok_0.fs, d);
}

/// Whatever the lines of a transcript are, the root of the file system
/// that it describes is the directory that was there before the first
/// line, and the directories that were entered lead from it to the current
/// one.
pub proof fn lemma_built_root(lines: Seq<Seq<char>>)
    requires
        run(start(), lines) is Ok,
    ensures
        state_ok(run(start(), lines)->Ok_0),
        run(start(), lines)->Ok_0.path[0] == 0,
{
    lemma_start_ok();
    lemma_run_ok(start(), lines);
}

/// The fields are those of a line of a listing that names an entry which
/// the current directory holds already.
pub open spec fn relists(s: BuildState, toks: Seq<Seq<char>>) -> bool {
    &&& toks.len() == 2
    &&& toks[0] != prompt()
    &&& toks[0] == dir_word() || (parse_size(toks[0]) matches Some(size) && size <= usize::MAX)
    &&& named_child(s.fs, current(s), toks[1]) is Some
}

/// Listing again what a directory already holds changes nothing: neither
/// the entries, nor any size, nor the current directory.
pub proof fn lemma_relisting_changes_nothing(s: BuildState, lines: Seq<Seq<char>>)
    requires
        s.listing,
        forall|i: int| 0 <= i < lines.len() ==> relists(s, fields(#[trigger] lines[i])),
    ensures
        run(s, lines) == Ok::<BuildState, BuildError>(s),
    decreases lines.len(),
{
    if lines.len() > 0 {
        lemma_relisting_changes_nothing(s, lines.drop_first());
    }
}

/// `ls` followed by a listing of what the current directory already holds
/// leaves the file system and the current directory as they were.
pub proof fn lemma_ls_again_changes_nothing(s: BuildState, lines: Seq<Seq<char>>)
    requires
        lines.len() > 0,
        fields(lines[0]) == seq![prompt(), ls_word()],
        forall|i: int| 0 < i < lines.len() ==> relists(s, fields(#[trigger] lines[i])),
    ensures
        run(s, lines) == Ok::<BuildState, BuildError>(
            BuildState { fs: s.fs, path: s.path, listing: true },
        ),
{
    let listing = BuildState { fs: s.fs, path: s.path, listing: true };
    lemma_relisting_changes_nothing(listing, lines.drop_first());
}

/// `cd /` leads to the root from wherever it is given, and changes nothing
/// else.
pub proof fn lemma_cd_root(s: BuildState)
    requires
        s.path.len() > 0,
    ensures
        step(s, seq![prompt(), cd_word(), root_word()]) == Ok::<BuildState, BuildError>(
            BuildState { fs: s.fs, path: seq![s.path[0]], listing: false },
        ),
{
    assert(s.path.take(1) =~= seq![s.path[0]]);
}

/// `cd ..` given at the root changes nothing.
pub proof fn lemma_cd_up_at_root(s: BuildState)
    requires
        s.path.len() == 1,
    ensures
        step(s, seq![prompt(), cd_word(), up_word()]) == Ok::<BuildState, BuildError>(
            BuildState { fs: s.fs, path: s.path, listing: false },
        ),
{
}

/// Each of `dirs` stands behind its parent, if its parent is among them.
pub open spec fn parent_first(m: Forest, dirs: Seq<int>) -> bool {
    forall|i: int, j: int|
        0 <= i < dirs.len() && 0 <= j < dirs.len() && m[#[trigger] dirs[j]].parent == Some(#[trigger] dirs[i])
            ==> i < j
}

/// Those of `dirs` that have the same parent stand in ascending order of
/// name.
pub open spec fn siblings_by_name(m: Forest, dirs: Seq<int>) -> bool {
    forall|i: int, j: int|
        0 <= i < dirs.len() && 0 <= j < dirs.len() && m[#[trigger] dirs[i]].parent is Some && m[dirs[i]].parent
            == m[#[trigger] dirs[j]].parent && name_lt(m[dirs[i]].name, m[dirs[j]].name) ==> i < j
}

/// Whatever is found beneath the first `k` children of `d` lies in or
/// beneath one of them.
pub proof fn lemma_beneath_under(m: Forest, d: int, k: nat, i: int) -> (t: int)
    requires
        linked(m),
        is_dir_at(m, d),
        k <= m[d].children.len(),
        0 <= i < dirs_beneath(m, d, k).len(),
    ensures
        0 <= t < k,
        has(m, dirs_beneath(m, d, k)[i]),
        reaches(m, dirs_beneath(m, d, k)[i], m[d].children[t]),
        m[dirs_beneath(m, d, k)[i]].depth > m[d].depth,
    decreases room(m, d), k,
{
    let kids = m[d].children;
    let c = kids[k - 1];
    let before = dirs_beneath(m, d, (k - 1) as nat);
    lemma_room_child(m, d, k - 1);
    assert(node_linked(m, c));
    if i < before.len() {
        lemma_beneath_under(m, d, (k - 1) as nat, i)
    } else {
        let below = dirs_beneath(m, c, m[c].children.len());
        if i > before.len() {
            let x = below[i - before.len() - 1];
            let u = lemma_beneath_under(m, c, m[c].children.len(), i - before.len() - 1);
            let cu = m[c].children[u];
            assert(node_linked(m, cu));
            assert(reaches(m, c, c));
            lemma_reaches_transitive(m, x, cu, c);
        }
        k - 1
    }
}

/// Of two directories, one in or beneath the child at place `k - 1` of `d`
/// and one beneath an earlier child, neither is the other's parent, and
/// they are no siblings.
proof fn lemma_apart(m: Forest, d: int, k: nat, x: int, y: int, t: int)
    requires
        linked(m),
        is_dir_at(m, d),
        0 < k <= m[d].children.len(),
        has(m, x),
        has(m, y),
        reaches(m, x, m[d].children[k - 1]),
        0 <= t < k - 1,
        reaches(m, y, m[d].children[t]),
    ensures
        m[y].parent != Some(x),
        !(m[x].parent == m[y].parent && name_lt(m[x].name, m[y].name)),
{
    let c = m[d].children[k - 1];
    let ct = m[d].children[t];
    assert(node_linked(m, d));
    assert(node_linked(m, c));
    assert(node_linked(m, ct));
    assert(node_linked(m, y));
    lemma_children_distinct(m, d, t, k - 1);
    lemma_reaches_depth(m, x, c);
    lemma_reaches_depth(m, y, ct);
    if m[y].parent == Some(x) {
        if y != ct {
            lemma_reaches_transitive(m, x, x, c);
            lemma_reaches_unique(m, x, c, ct);
        }
    }
    if m[x].parent == m[y].parent && name_lt(m[x].name, m[y].name) {
        if x == c {
            lemma_name_lt_transitive(m[ct].name, m[c].name, m[ct].name);
            lemma_name_lt_irreflexive(m[ct].name);
        } else {
            let p = m[x].parent->0;
            if y != ct {
                lemma_reaches_unique(m, p, c, ct);
            } else {
                lemma_reaches_depth(m, p, c);
            }
        }
    }
}

/// What is found beneath the first `k` children of a directory stands in
/// pre-order: parents before their children, siblings by name.
pub proof fn lemma_beneath_ordered(m: Forest, d: int, k: nat)
    requires
        linked(m),
        is_dir_at(m, d),
        k <= m[d].children.len(),
    ensures
        parent_first(m, dirs_beneath(m, d, k)),
        siblings_by_name(m, dirs_beneath(m, d, k)),
    decreases room(m, d), k,
{
    let kids = m[d].children;
    let all = dirs_beneath(m, d, k);
    if k > 0 {
        let c = kids[k - 1];
        let before = dirs_beneath(m, d, (k - 1) as nat);
        lemma_beneath_ordered(m, d, (k - 1) as nat);
        lemma_room_child(m, d, k - 1);
        assert(node_linked(m, c));
        if m[c].is_dir {
            lemma_beneath_ordered(m, c, m[c].children.len());
            let at = before.len() as int;
            assert forall|i: int, j: int|
                0 <= i < all.len() && 0 <= j < all.len() && (m[#[trigger] all[j]].parent == Some(
                    #[trigger] all[i],
                ) || (m[all[i]].parent is Some && m[all[i]].parent == m[all[j]].parent && name_lt(
                    m[all[i]].name,
                    m[all[j]].name,
                ))) implies i < j by {
                let x = all[i];
                let y = all[j];
                lemma_beneath_under(m, d, k, i);
                lemma_beneath_under(m, d, k, j);
                assert(reaches(m, c, c));
                if i >= at && j < at {
                    let t = lemma_beneath_under(m, d, (k - 1) as nat, j);
                    if i > at {
                        let u = lemma_beneath_under(m, c, m[c].children.len(), i - at - 1);
                        let cu = m[c].children[u];
                        assert(node_linked(m, cu));
                        lemma_reaches_transitive(m, x, cu, c);
                    }
                    lemma_apart(m, d, k, x, y, t);
                } else if i > at && j == at {
                    lemma_beneath_under(m, c, m[c].children.len(), i - at - 1);
                    assert(node_linked(m, x));
                } else if i == at && j == at {
                    lemma_name_lt_irreflexive(m[c].name);
                }
            }
        }
    }
}

/// `find_dirs_recurs_by` goes through the directories of a subtree in
/// pre-order: every directory stands before its child directories, and
/// the child directories of one directory stand in ascending order of
/// name.
pub proof fn lemma_subtree_dirs_ordered(m: Forest, d: int)
    requires
        linked(m),
        is_dir_at(m, d),
    ensures
        subtree_dirs(m, d)[0] == d,
        parent_first(m, subtree_dirs(m, d)),
        siblings_by_name(m, subtree_dirs(m, d)),
{
    let k = m[d].children.len();
    let all = subtree_dirs(m, d);
    lemma_beneath_ordered(m, d, k);
    assert(node_linked(m, d));
    assert forall|i: int, j: int|
        0 <= i < all.len() && 0 <= j < all.len() && (m[#[trigger] all[j]].parent == Some(#[trigger] all[i]) || (
        m[all[i]].parent is Some && m[all[i]].parent == m[all[j]].parent && name_lt(
            m[all[i]].name,
            m[all[j]].name,
        ))) implies i < j by {
        if i > 0 {
            lemma_beneath_under(m, d, k, i - 1);
            assert(node_linked(m, all[i]));
        }
        if j > 0 {
            lemma_beneath_under(m, d, k, j - 1);
        }
        if i == 0 && j == 0 {
            lemma_name_lt_irreflexive(m[d].name);
        }
    }
}

/// Choosing from directories that stand in pre-order leaves them in
/// pre-order.
pub proof fn lemma_chosen_ordered(m: Forest, cands: Seq<int>, keep: Seq<bool>)
    requires
        keep.len() == cands.len(),
        parent_first(m, cands),
        siblings_by_name(m, cands),
    ensures
        parent_first(m, chosen(cands, keep)),
        siblings_by_name(m, chosen(cands, keep)),
{
    let picked = chosen(cands, keep);
    let from = lemma_chosen_embeds(cands, keep);
    assert forall|i: int, j: int|
        0 <= i < picked.len() && 0 <= j < picked.len() && (m[#[trigger] picked[j]].parent == Some(
            #[trigger] picked[i],
        ) || (m[picked[i]].parent is Some && m[picked[i]].parent == m[picked[j]].parent && name_lt(
            m[picked[i]].name,
            m[picked[j]].name,
        ))) implies i < j by {
        assert(cands[from[i]] == picked[i] && cands[from[j]] == picked[j]);
        assert(from[i] < from[j]);
        if j < i {
            assert(from[j] < from[i]);
        }
    }
}

/// Whatever `find_dirs_recurs_by` keeps of a subtree, what it returns
/// stands in pre-order: a directory before its child directories, and the
/// child directories of one directory in ascending order of name.
pub proof fn lemma_selection_ordered(m: Forest, d: int, keep: Seq<bool>)
    requires
        linked(m),
        is_dir_at(m, d),
        keep.len() == subtree_dirs(m, d).len(),
    ensures
        parent_first(m, chosen(subtree_dirs(m, d), keep)),
        siblings_by_name(m, chosen(subtree_dirs(m, d), keep)),
{
    lemma_subtree_dirs_ordered(m, d);
    lemma_chosen_ordered(m, subtree_dirs(m, d), keep);
}

/// Every directory that lies in or beneath one of the first `k` children of
/// `d` is found beneath them.
pub proof fn lemma_beneath_complete(m: Forest, d: int, k: nat, x: int, t: int)
    requires
        linked(m),
        listed(m),
        is_dir_at(m, d),
        k <= m[d].children.len(),
        is_dir_at(m, x),
        0 <= t < k,
        reaches(m, x, m[d].children[t]),
    ensures
        dirs_beneath(m, d, k).contains(x),
    decreases room(m, d), k,
{
    let c = m[d].children[k - 1];
    let before = dirs_beneath(m, d, (k - 1) as nat);
    let all = dirs_beneath(m, d, k);
    lemma_room_child(m, d, k - 1);
    if t < k - 1 {
        lemma_beneath_complete(m, d, (k - 1) as nat, x, t);
        let i = choose|i: int| 0 <= i < before.len() && before[i] == x;
        assert(all[i] == x);
    } else if x == c {
        assert(all[before.len() as int] == x);
    } else {
        let y = lemma_child_toward(m, x, c);
        assert(node_linked(m, y));
        assert(listed_at(m, y));
        let u = choose|u: int| 0 <= u < m[c].children.len() && m[c].children[u] == y;
        let below = dirs_beneath(m, c, m[c].children.len());
        lemma_beneath_complete(m, c, m[c].children.len(), x, u);
        let i = choose|i: int| 0 <= i < below.len() && below[i] == x;
        assert(all[before.len() + 1 + i] == x);
    }
}

/// The pre-order of a directory's subtree holds the directory itself and
/// every directory beneath it, and nothing else.
pub proof fn lemma_subtree_dirs_members(m: Forest, d: int, x: int)
    requires
        linked(m),
        listed(m),
        is_dir_at(m, d),
    ensures
        subtree_dirs(m, d).contains(x) <==> is_dir_at(m, x) && reaches(m, x, d),
{
    let k = m[d].children.len();
    let all = subtree_dirs(m, d);
    assert(node_linked(m, d));
    if all.contains(x) {
        let i = choose|i: int| 0 <= i < all.len() && all[i] == x;
        if i > 0 {
            let t = lemma_beneath_under(m, d, k, i - 1);
            let c = m[d].children[t];
            lemma_dirs_beneath_are_dirs(m, d, k);
            assert(node_linked(m, c));
            assert(reaches(m, d, d));
            assert(reaches(m, c, d));
            lemma_reaches_transitive(m, x, c, d);
        }
    }
    if is_dir_at(m, x) && reaches(m, x, d) {
        if x == d {
            assert(all[0] == x);
        } else {
            let y = lemma_child_toward(m, x, d);
            assert(node_linked(m, y));
            assert(listed_at(m, y));
            let t = choose|t: int| 0 <= t < k && m[d].children[t] == y;
            lemma_beneath_complete(m, d, k, x, t);
            let i = choose|i: int| 0 <= i < dirs_beneath(m, d, k).len() && dirs_beneath(m, d, k)[i] == x;
            assert(all[i + 1] == x);
        }
    }
}

/// No directory is found twice beneath the first `k` children of a
/// directory.
pub proof fn lemma_beneath_distinct(m: Forest, d: int, k: nat)
    requires
        linked(m),
        is_dir_at(m, d),
        k <= m[d].children.len(),
    ensures
        forall|i: int, j: int|
            0 <= i < j < dirs_beneath(m, d, k).len() ==> dirs_beneath(m, d, k)[i] != dirs_beneath(m, d, k)[j],
    decreases room(m, d), k,
{
    let all = dirs_beneath(m, d, k);
    if k > 0 {
        let c = m[d].children[k - 1];
        let before = dirs_beneath(m, d, (k - 1) as nat);
        lemma_beneath_distinct(m, d, (k - 1) as nat);
        lemma_room_child(m, d, k - 1);
        assert(node_linked(m, d));
        assert(node_linked(m, c));
        if m[c].is_dir {
            let below = dirs_beneath(m, c, m[c].children.len());
            lemma_beneath_distinct(m, c, m[c].children.len());
            let at = before.len() as int;
            assert forall|i: int, j: int| 0 <= i < j < all.len() implies all[i] != all[j] by {
                if i < at && j >= at {
                    let t = lemma_beneath_under(m, d, (k - 1) as nat, i);
                    let ct = m[d].children[t];
                    assert(node_linked(m, ct));
                    lemma_children_distinct(m, d, t, k - 1);
                    if j > at {
                        let u = lemma_beneath_under(m, c, m[c].children.len(), j - at - 1);
                        let cu = m[c].children[u];
                        assert(node_linked(m, cu));
                        assert(reaches(m, c, c));
                        lemma_reaches_transitive(m, all[j], cu, c);
                    }
                    if all[i] == all[j] {
                        lemma_reaches_unique(m, all[i], ct, c);
                    }
                } else if i == at {
                    lemma_beneath_under(m, c, m[c].children.len(), j - at - 1);
                } else if i > at {
                    assert(all[i] == below[i - at - 1] && all[j] == below[j - at - 1]);
                }
            }
        }
    }
}

/// The pre-order of a directory's subtree names no directory twice.
pub proof fn lemma_subtree_dirs_distinct(m: Forest, d: int)
    requires
        linked(m),
        is_dir_at(m, d),
    ensures
        forall|i: int, j: int|
            0 <= i < j < subtree_dirs(m, d).len() ==> subtree_dirs(m, d)[i] != subtree_dirs(m, d)[j],
{
    let k = m[d].children.len();
    let all = subtree_dirs(m, d);
    lemma_beneath_distinct(m, d, k);
    assert forall|i: int, j: int| 0 <= i < j < all.len() implies all[i] != all[j] by {
        if i == 0 {
            lemma_beneath_under(m, d, k, j - 1);
        } else {
            assert(all[i] == dirs_beneath(m, d, k)[i - 1] && all[j] == dirs_beneath(m, d, k)[j - 1]);
        }
    }
}

/// The directories among entries that stand in ascending order of name
/// are those of the entries that are directories, in ascending order of
/// name.
pub proof fn lemma_dirs_among(m: Forest, kids: Seq<int>)
    requires
        sorted_by_name(m, kids),
    ensures
        sorted_by_name(m, dirs_among(m, kids)),
        forall|x: int| #[trigger] dirs_among(m, kids).contains(x) <==> kids.contains(x) && m[x].is_dir,
    decreases kids.len(),
{
    let dirs = dirs_among(m, kids);
    if kids.len() > 0 {
        let init = kids.drop_last();
        let first = dirs_among(m, init);
        lemma_dirs_among(m, init);
        assert forall|x: int| #[trigger] dirs.contains(x) <==> kids.contains(x) && m[x].is_dir by {
            if dirs.contains(x) {
                let i = choose|i: int| 0 <= i < dirs.len() && dirs[i] == x;
                if i < first.len() {
                    assert(first[i] == x);
                    assert(first.contains(x));
                    let h = choose|h: int| 0 <= h < init.len() && init[h] == x;
                    assert(kids[h] == x);
                } else {
                    assert(kids[kids.len() - 1] == x);
                }
            }
            if kids.contains(x) && m[x].is_dir {
                let h = choose|h: int| 0 <= h < kids.len() && kids[h] == x;
                if h < init.len() {
                    assert(init[h] == x);
                    assert(init.contains(x));
                    assert(first.contains(x));
                    let i = choose|i: int| 0 <= i < first.len() && first[i] == x;
                    assert(dirs[i] == x);
                } else {
                    assert(dirs[dirs.len() - 1] == x);
                }
            }
        }
        assert forall|j: int, k: int| 0 <= j < k < dirs.len() implies name_lt(
            m[#[trigger] dirs[j]].name,
            m[#[trigger] dirs[k]].name,
        ) by {
            if k == first.len() {
                assert(first[j] == dirs[j]);
                assert(first.contains(dirs[j]));
                let h = choose|h: int| 0 <= h < init.len() && init[h] == dirs[j];
                assert(kids[h] == dirs[j] && kids[kids.len() - 1] == dirs[k]);
            } else {
                assert(first[j] == dirs[j] && first[k] == dirs[k]);
            }
        }
    }
}

/// The directories that `find_dirs_by` chooses from are the child
/// directories of the directory, in ascending order of name.
pub proof fn lemma_child_dirs(m: Forest, d: int)
    requires
        linked(m),
        listed(m),
        is_dir_at(m, d),
    ensures
        sorted_by_name(m, child_dirs(m, d)),
        forall|x: int| #[trigger] child_dirs(m, d).contains(x) <==> is_dir_at(m, x) && m[x].parent == Some(d),
{
    let kids = m[d].children;
    assert(node_linked(m, d));
    lemma_dirs_among(m, kids);
    assert forall|x: int| #[trigger] child_dirs(m, d).contains(x) <==> is_dir_at(m, x) && m[x].parent == Some(
        d,
    ) by {
        if is_dir_at(m, x) && m[x].parent == Some(d) {
            assert(listed_at(m, x));
        }
    }
}

/// Choosing from entries that stand in ascending order of name leaves them
/// in ascending order of name.
pub proof fn lemma_chosen_sorted(m: Forest, cands: Seq<int>, keep: Seq<bool>)
    requires
        keep.len() == cands.len(),
        sorted_by_name(m, cands),
    ensures
        sorted_by_name(m, chosen(cands, keep)),
{
    let picked = chosen(cands, keep);
    let from = lemma_chosen_embeds(cands, keep);
    assert forall|j: int, k: int| 0 <= j < k < picked.len() implies name_lt(
        m[#[trigger] picked[j]].name,
        m[#[trigger] picked[k]].name,
    ) by {
        assert(from[j] < from[k]);
        assert(cands[from[j]] == picked[j] && cands[from[k]] == picked[k]);
    }
}

/// After an entry has been attached to a directory, the directory finds it
/// under its name, whatever it found under that name before. Every other
/// name, in that directory and in any other, finds what it found before.
pub proof fn lemma_attached_is_found(m: Forest, d: int, c: int, e: int, name: Seq<char>)
    requires
        linked(m),
        can_attach(m, d, c),
        has(m, e),
    ensures
        named_child(attach(m, d, c), e, name) == if e == d && name == m[c].name {
            Some(c)
        } else {
            named_child(m, e, name)
        },
{
    let m2 = attach(m, d, c);
    let kids = m[e].children;
    let next = m2[e].children;
    lemma_attach_linked(m, d, c);
    assert(node_linked(m, e));
    assert(node_linked(m2, e));
    assert(node_linked(m, d));
    let at = slot(m, m[d].children, m[c].name);
    lemma_slot_parts(m, m[d].children, m[c].name);
    if e == d && name == m[c].name {
        assert(next[at] == c);
        lemma_named_child(m2, d, name, at);
    } else if exists|k: int| 0 <= k < kids.len() && m[#[trigger] kids[k]].name == name {
        let k = choose|k: int| 0 <= k < kids.len() && m[#[trigger] kids[k]].name == name;
        let k2 = if e == d && next.len() > kids.len() && k >= at {
            k + 1
        } else {
            k
        };
        assert(next[k2] == kids[k]);
        lemma_named_child(m, e, name, k);
        lemma_named_child(m2, e, name, k2);
    } else {
        assert forall|k2: int| 0 <= k2 < next.len() implies m2[#[trigger] next[k2]].name != name by {
            if e == d && next.len() > kids.len() {
                if k2 < at {
                    assert(next[k2] == kids[k2]);
                } else if k2 > at {
                    assert(next[k2] == kids[k2 - 1]);
                }
            } else if !(e == d && k2 == at) {
                assert(next[k2] == kids[k2]);
            }
        }
    }
}

} // verus!
