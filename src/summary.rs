use vstd::prelude::*;
use crate::paths::{opt_view, parent_dir, parent_of};
use crate::scan::{total_size, FileInfo};

verus! {

/// The character views of (directory, size) entries.
pub open spec fn entry_views(v: Seq<(Option<String>, u64)>) -> Seq<(Option<Seq<char>>, u64)> {
    v.map_values(|e: (Option<String>, u64)| (opt_view(e.0), e.1))
}

/// The character views of (directory, total) pairs.
pub open spec fn pair_views(v: Seq<(String, u64)>) -> Seq<(Seq<char>, u64)> {
    v.map_values(|p: (String, u64)| (p.0@, p.1))
}

/// Each file as the directory that holds it, if any, and its size.
pub open spec fn folder_entries(files: Seq<FileInfo>) -> Seq<(Option<Seq<char>>, u64)> {
    files.map_values(|f: FileInfo| (parent_of(f.path@), f.size))
}

/// The sum of all sizes of `entries`.
pub open spec fn sum_sizes(entries: Seq<(Option<Seq<char>>, u64)>) -> nat
    decreases entries.len(),
{
    if entries.len() == 0 {
        0
    } else {
        (sum_sizes(entries.drop_last()) + entries.last().1) as nat
    }
}

/// The sum of the sizes of the entries that lie in `dir`.
pub open spec fn folder_total(entries: Seq<(Option<Seq<char>>, u64)>, dir: Seq<char>) -> nat
    decreases entries.len(),
{
    if entries.len() == 0 {
        0
    } else {
        let own: int = if entries.last().0 == Some(dir) { entries.last().1 as int } else { 0 };
        (folder_total(entries.drop_last(), dir) + own) as nat
    }
}

/// Some entry lies in `dir`.
pub open spec fn names_folder(entries: Seq<(Option<Seq<char>>, u64)>, dir: Seq<char>) -> bool {
    exists|j: int| 0 <= j < entries.len() && (#[trigger] entries[j]).0 == Some(dir)
}

/// `groups` holds each directory of `entries` once, with its total.
pub open spec fn is_grouping(entries: Seq<(Option<Seq<char>>, u64)>, groups: Seq<(Seq<char>, u64)>) -> bool {
    &&& forall|g: int|
        0 <= g < groups.len() ==> names_folder(entries, (#[trigger] groups[g]).0)
            && groups[g].1 == folder_total(entries, groups[g].0)
    &&& forall|g: int, h: int| 0 <= g < h < groups.len() ==> (#[trigger] groups[g]).0 != (#[trigger] groups[h]).0
    &&& forall|j: int|
        0 <= j < entries.len() && (#[trigger] entries[j]).0 is Some ==> exists|g: int|
            0 <= g < groups.len() && Some((#[trigger] groups[g]).0) == entries[j].0
}

/// `r` holds each directory of `entries` once, with its total, the largest
/// totals first.
pub open spec fn is_folder_summary(entries: Seq<(Option<Seq<char>>, u64)>, r: Seq<(Seq<char>, u64)>) -> bool {
    &&& is_grouping(entries, r)
    &&& forall|a: int, b: int| 0 <= a < b < r.len() ==> (#[trigger] r[a]).1 >= (#[trigger] r[b]).1
}

proof fn lemma_push_entry(entries: Seq<(Option<Seq<char>>, u64)>, e: (Option<Seq<char>>, u64))
    ensures
        sum_sizes(entries.push(e)) == sum_sizes(entries) + e.1,
        forall|dir: Seq<char>|
            #[trigger] folder_total(entries.push(e), dir) == folder_total(entries, dir) + (if e.0 == Some(dir) {
                e.1 as int
            } else {
                0
            }),
{
    assert(entries.push(e).drop_last() =~= entries);
}

proof fn lemma_folder_total_bounded(entries: Seq<(Option<Seq<char>>, u64)>, dir: Seq<char>)
    ensures
        folder_total(entries, dir) <= sum_sizes(entries),
    decreases entries.len(),
{
    if entries.len() > 0 {
        lemma_folder_total_bounded(entries.drop_last(), dir);
    }
}

proof fn lemma_folder_total_absent(entries: Seq<(Option<Seq<char>>, u64)>, dir: Seq<char>)
    requires
        !names_folder(entries, dir),
    ensures
        folder_total(entries, dir) == 0,
    decreases entries.len(),
{
    if entries.len() > 0 {
        let prefix = entries.drop_last();
        assert forall|j: int| 0 <= j < prefix.len() implies (#[trigger] prefix[j]).0 != Some(dir) by {
            assert(prefix[j] == entries[j]);
        }
        lemma_folder_total_absent(prefix, dir);
        assert(entries[entries.len() - 1].0 != Some(dir));
    }
}

proof fn lemma_sum_prefix(entries: Seq<(Option<Seq<char>>, u64)>, i: int)
    requires
        0 <= i <= entries.len(),
    ensures
        sum_sizes(entries.subrange(0, i)) <= sum_sizes(entries),
    decreases entries.len(),
{
    if i < entries.len() {
        assert(entries.drop_last().subrange(0, i) =~= entries.subrange(0, i));
        lemma_sum_prefix(entries.drop_last(), i);
    } else {
        assert(entries.subrange(0, i) =~= entries);
    }
}

/// The index of the group named `dir`, or the number of groups where none is.
fn find_folder(groups: &Vec<(String, u64)>, dir: &String) -> (k: usize)
    ensures
        k <= groups.len(),
        k < groups.len() ==> pair_views(groups@)[k as int].0 == dir@,
        forall|m: int| 0 <= m < k ==> (#[trigger] pair_views(groups@)[m]).0 != dir@,
{
    let mut k: usize = 0;
    while k < groups.len()
        invariant
            0 <= k <= groups.len(),
            forall|m: int| 0 <= m < k ==> (#[trigger] pair_views(groups@)[m]).0 != dir@,
        decreases groups.len() - k,
    {
        if groups[k].0 == *dir {
            return k;
        }
        k = k + 1;
    }
    k
}

/// Where a total of `size` goes in `out`, after every total that is not smaller.
fn insert_position(out: &Vec<(String, u64)>, size: u64) -> (pos: usize)
    ensures
        pos <= out.len(),
        forall|a: int| 0 <= a < pos ==> (#[trigger] pair_views(out@)[a]).1 >= size,
        pos < out.len() ==> pair_views(out@)[pos as int].1 < size,
{
    let mut pos: usize = 0;
    while pos < out.len() && out[pos].1 >= size
        invariant
            0 <= pos <= out.len(),
            forall|a: int| 0 <= a < pos ==> (#[trigger] pair_views(out@)[a]).1 >= size,
        decreases out.len() - pos,
    {
        pos = pos + 1;
    }
    pos
}

} // verus!

verus! {

/// Sums the sizes of `entries` per directory, the directories in the order
/// in which they first appear.
fn group_by_folder(entries: &Vec<(Option<String>, u64)>) -> (groups: Vec<(String, u64)>)
    requires
        sum_sizes(entry_views(entries@)) <= u64::MAX,
    ensures
        is_grouping(entry_views(entries@), pair_views(groups@)),
{
    let ghost all = entry_views(entries@);
    let mut groups: Vec<(String, u64)> = Vec::new();
    let mut i: usize = 0;
    while i < entries.len()
        invariant
            0 <= i <= entries.len(),
            all == entry_views(entries@),
            sum_sizes(all) <= u64::MAX,
            is_grouping(all.subrange(0, i as int), pair_views(groups@)),
        decreases entries.len() - i,
    {
        let ghost pre = all.subrange(0, i as int);
        let ghost post = all.subrange(0, i + 1);
        let ghost old_groups = pair_views(groups@);
        proof {
            assert(post =~= pre.push(all[i as int]));
            lemma_push_entry(pre, all[i as int]);
            lemma_sum_prefix(all, i + 1);
            assert forall|j: int| 0 <= j < pre.len() implies #[trigger] post[j] == pre[j] by {}
        }
        match &entries[i].0 {
            None => {
                assert(all[i as int].0 is None);
                assert forall|j: int| 0 <= j < post.len() && (#[trigger] post[j]).0 is Some implies exists|g: int|
                    0 <= g < old_groups.len() && Some((#[trigger] old_groups[g]).0) == post[j].0 by {
                    assert(post[j] == pre[j]);
                }
                assert forall|g: int| 0 <= g < old_groups.len() implies names_folder(post, (#[trigger] old_groups[g]).0) by {
                    let j = choose|j: int| 0 <= j < pre.len() && (#[trigger] pre[j]).0 == Some(old_groups[g].0);
                    assert(post[j] == pre[j]);
                }
            },
            Some(dir) => {
                assert(all[i as int].0 == Some(dir@));
                let k = find_folder(&groups, dir);
                let size = entries[i].1;
                if k < groups.len() {
                    proof {
                        lemma_folder_total_bounded(post, dir@);
                    }
                    let total = groups[k].1 + size;
                    let name = groups[k].0.clone();
                    groups.set(k, (name, total));
                    let ghost new_groups = pair_views(groups@);
                    assert(new_groups =~= old_groups.update(k as int, (dir@, total)));
                    assert forall|g: int| 0 <= g < new_groups.len() implies names_folder(post, (#[trigger] new_groups[g]).0)
                        && new_groups[g].1 == folder_total(post, new_groups[g].0) by {
                        if g != k {
                            let j = choose|j: int| 0 <= j < pre.len() && (#[trigger] pre[j]).0 == Some(old_groups[g].0);
                            assert(post[j] == pre[j]);
                        } else {
                            assert(post[i as int] == all[i as int]);
                        }
                    }
                    assert forall|j: int| 0 <= j < post.len() && (#[trigger] post[j]).0 is Some implies exists|g: int|
                        0 <= g < new_groups.len() && Some((#[trigger] new_groups[g]).0) == post[j].0 by {
                        if j < pre.len() {
                            assert(post[j] == pre[j]);
                            let g = choose|g: int| 0 <= g < old_groups.len() && Some((#[trigger] old_groups[g]).0) == pre[j].0;
                            assert(new_groups[g].0 == old_groups[g].0);
                        } else {
                            assert(new_groups[k as int].0 == dir@);
                        }
                    }
                } else {
                    proof {
                        assert(!names_folder(pre, dir@)) by {
                            if names_folder(pre, dir@) {
                                let j = choose|j: int| 0 <= j < pre.len() && (#[trigger] pre[j]).0 == Some(dir@);
                                let g = choose|g: int| 0 <= g < old_groups.len() && Some((#[trigger] old_groups[g]).0) == pre[j].0;
                                assert(old_groups[g].0 != dir@);
                            }
                        }
                        lemma_folder_total_absent(pre, dir@);
                    }
                    groups.push((dir.clone(), size));
                    let ghost new_groups = pair_views(groups@);
                    assert(new_groups =~= old_groups.push((dir@, size)));
                    assert forall|g: int| 0 <= g < new_groups.len() implies names_folder(post, (#[trigger] new_groups[g]).0)
                        && new_groups[g].1 == folder_total(post, new_groups[g].0) by {
                        if g < old_groups.len() {
                            let j = choose|j: int| 0 <= j < pre.len() && (#[trigger] pre[j]).0 == Some(old_groups[g].0);
                            assert(post[j] == pre[j]);
                        } else {
                            assert(post[i as int] == all[i as int]);
                        }
                    }
                    assert forall|j: int| 0 <= j < post.len() && (#[trigger] post[j]).0 is Some implies exists|g: int|
                        0 <= g < new_groups.len() && Some((#[trigger] new_groups[g]).0) == post[j].0 by {
                        if j < pre.len() {
                            assert(post[j] == pre[j]);
                            let g = choose|g: int| 0 <= g < old_groups.len() && Some((#[trigger] old_groups[g]).0) == pre[j].0;
                            assert(new_groups[g] == old_groups[g]);
                        } else {
                            assert(new_groups[old_groups.len() as int].0 == dir@);
                        }
                    }
                }
            },
        }
        i = i + 1;
    }
    assert(all.subrange(0, i as int) =~= all);
    groups
}

} // verus!

verus! {

/// The directories of `groups` are distinct.
pub open spec fn distinct_folders(groups: Seq<(Seq<char>, u64)>) -> bool {
    forall|g: int, h: int| 0 <= g < h < groups.len() ==> (#[trigger] groups[g]).0 != (#[trigger] groups[h]).0
}

/// `out` is ordered by descending total.
pub open spec fn by_descending_total(out: Seq<(Seq<char>, u64)>) -> bool {
    forall|a: int, b: int| 0 <= a < b < out.len() ==> (#[trigger] out[a]).1 >= (#[trigger] out[b]).1
}

/// Each pair of `out` is one of the first `n` of `groups`.
#[verifier::opaque]
pub open spec fn drawn_from(out: Seq<(Seq<char>, u64)>, groups: Seq<(Seq<char>, u64)>, n: int) -> bool {
    forall|a: int| 0 <= a < out.len() ==> exists|g: int| 0 <= g < n && #[trigger] out[a] == #[trigger] groups[g]
}

/// Each of the first `n` of `groups` is a pair of `out`.
#[verifier::opaque]
pub open spec fn holds_all(out: Seq<(Seq<char>, u64)>, groups: Seq<(Seq<char>, u64)>, n: int) -> bool {
    forall|g: int| 0 <= g < n ==> exists|a: int| 0 <= a < out.len() && #[trigger] out[a] == #[trigger] groups[g]
}

/// `out` holds the first `n` of `groups`, each once, by descending total.
pub open spec fn orders_prefix(out: Seq<(Seq<char>, u64)>, groups: Seq<(Seq<char>, u64)>, n: int) -> bool {
    &&& out.len() == n
    &&& distinct_folders(out)
    &&& drawn_from(out, groups, n)
    &&& holds_all(out, groups, n)
    &&& by_descending_total(out)
}

proof fn lemma_insert_sorted(ov: Seq<(Seq<char>, u64)>, x: (Seq<char>, u64), pos: int)
    requires
        distinct_folders(ov),
        by_descending_total(ov),
        forall|a: int| 0 <= a < ov.len() ==> (#[trigger] ov[a]).0 != x.0,
        0 <= pos <= ov.len(),
        forall|a: int| 0 <= a < pos ==> (#[trigger] ov[a]).1 >= x.1,
        pos < ov.len() ==> ov[pos].1 < x.1,
    ensures
        distinct_folders(ov.insert(pos, x)),
        by_descending_total(ov.insert(pos, x)),
{
    let nv = ov.insert(pos, x);
    assert forall|a: int, b: int| 0 <= a < b < nv.len() implies (#[trigger] nv[a]).0 != (#[trigger] nv[b]).0
        && nv[a].1 >= nv[b].1 by {
        if b < pos {
            assert(nv[a] == ov[a] && nv[b] == ov[b]);
        } else if b == pos {
            assert(nv[a] == ov[a]);
        } else if a < pos {
            assert(nv[a] == ov[a] && nv[b] == ov[b - 1]);
            assert(ov[pos].1 >= ov[b - 1].1 || pos == b - 1);
        } else if a == pos {
            assert(nv[b] == ov[b - 1]);
            assert(ov[pos].1 >= ov[b - 1].1 || pos == b - 1);
        } else {
            assert(nv[a] == ov[a - 1] && nv[b] == ov[b - 1]);
        }
    }
}

proof fn lemma_insert_drawn(ov: Seq<(Seq<char>, u64)>, gv: Seq<(Seq<char>, u64)>, i: int, pos: int)
    requires
        0 <= i < gv.len(),
        distinct_folders(gv),
        drawn_from(ov, gv, i),
        0 <= pos <= ov.len(),
    ensures
        drawn_from(ov.insert(pos, gv[i]), gv, i + 1),
        forall|a: int| 0 <= a < ov.len() ==> (#[trigger] ov[a]).0 != gv[i].0,
{
    reveal(drawn_from);
    let nv = ov.insert(pos, gv[i]);
    assert forall|a: int| 0 <= a < nv.len() implies exists|g: int| 0 <= g < i + 1 && #[trigger] nv[a] == #[trigger] gv[g] by {
        if a < pos {
            assert(nv[a] == ov[a]);
        } else if a == pos {
            assert(nv[a] == gv[i]);
        } else {
            assert(nv[a] == ov[a - 1]);
        }
    }
    assert forall|a: int| 0 <= a < ov.len() implies (#[trigger] ov[a]).0 != gv[i].0 by {
        let g = choose|g: int| 0 <= g < i && #[trigger] ov[a] == #[trigger] gv[g];
    }
}

proof fn lemma_insert_holds(ov: Seq<(Seq<char>, u64)>, gv: Seq<(Seq<char>, u64)>, i: int, pos: int)
    requires
        0 <= i < gv.len(),
        holds_all(ov, gv, i),
        0 <= pos <= ov.len(),
    ensures
        holds_all(ov.insert(pos, gv[i]), gv, i + 1),
{
    reveal(holds_all);
    let nv = ov.insert(pos, gv[i]);
    assert forall|g: int| 0 <= g < i + 1 implies exists|a: int| 0 <= a < nv.len() && #[trigger] nv[a] == #[trigger] gv[g] by {
        if g < i {
            let a = choose|a: int| 0 <= a < ov.len() && #[trigger] ov[a] == #[trigger] gv[g];
            if a < pos {
                assert(nv[a] == ov[a]);
            } else {
                assert(nv[a + 1] == ov[a]);
            }
        } else {
            assert(nv[pos] == gv[g]);
        }
    }
}

proof fn lemma_insert_in_order(ov: Seq<(Seq<char>, u64)>, gv: Seq<(Seq<char>, u64)>, i: int, pos: int)
    requires
        0 <= i < gv.len(),
        distinct_folders(gv),
        orders_prefix(ov, gv, i),
        0 <= pos <= ov.len(),
        forall|a: int| 0 <= a < pos ==> (#[trigger] ov[a]).1 >= gv[i].1,
        pos < ov.len() ==> ov[pos].1 < gv[i].1,
    ensures
        orders_prefix(ov.insert(pos, gv[i]), gv, i + 1),
{
    lemma_insert_drawn(ov, gv, i, pos);
    lemma_insert_holds(ov, gv, i, pos);
    lemma_insert_sorted(ov, gv[i], pos);
}

/// Orders `groups` by descending total; equal totals keep their order.
fn sort_by_total(groups: &Vec<(String, u64)>) -> (out: Vec<(String, u64)>)
    requires
        distinct_folders(pair_views(groups@)),
    ensures
        orders_prefix(pair_views(out@), pair_views(groups@), groups.len() as int),
{
    let ghost gv = pair_views(groups@);
    let mut out: Vec<(String, u64)> = Vec::new();
    let mut i: usize = 0;
    assert(pair_views(out@) =~= Seq::empty());
    proof {
        reveal(drawn_from);
        reveal(holds_all);
    }
    while i < groups.len()
        invariant
            0 <= i <= groups.len(),
            gv == pair_views(groups@),
            distinct_folders(gv),
            orders_prefix(pair_views(out@), gv, i as int),
        decreases groups.len() - i,
    {
        let ghost ov = pair_views(out@);
        let size = groups[i].1;
        let pos = insert_position(&out, size);
        out.insert(pos, (groups[i].0.clone(), size));
        assert(pair_views(out@) =~= ov.insert(pos as int, gv[i as int]));
        proof {
            lemma_insert_in_order(ov, gv, i as int, pos as int);
        }
        i = i + 1;
    }
    out
}

/// Totals the sizes of `entries` per directory, skipping entries without
/// one, the largest totals first; equal totals stay in the order in which
/// their directories first appear.
pub fn summarize_sizes(entries: &Vec<(Option<String>, u64)>) -> (r: Vec<(String, u64)>)
    requires
        sum_sizes(entry_views(entries@)) <= u64::MAX,
    ensures
        is_folder_summary(entry_views(entries@), pair_views(r@)),
{
    let groups = group_by_folder(entries);
    let out = sort_by_total(&groups);
    let ghost ev = entry_views(entries@);
    let ghost gv = pair_views(groups@);
    let ghost ov = pair_views(out@);
    assert forall|a: int| 0 <= a < ov.len() implies names_folder(ev, (#[trigger] ov[a]).0)
        && ov[a].1 == folder_total(ev, ov[a].0) by {
        reveal(drawn_from);
        let g = choose|g: int| 0 <= g < gv.len() && #[trigger] ov[a] == #[trigger] gv[g];
    }
    assert forall|j: int| 0 <= j < ev.len() && (#[trigger] ev[j]).0 is Some implies exists|a: int|
        0 <= a < ov.len() && Some((#[trigger] ov[a]).0) == ev[j].0 by {
        let g = choose|g: int| 0 <= g < gv.len() && Some((#[trigger] gv[g]).0) == ev[j].0;
        reveal(holds_all);
        let a = choose|a: int| 0 <= a < ov.len() && #[trigger] ov[a] == #[trigger] gv[g];
    }
    out
}

} // verus!

verus! {

proof fn lemma_sizes_agree(files: Seq<FileInfo>)
    ensures
        sum_sizes(folder_entries(files)) == total_size(files),
    decreases files.len(),
{
    if files.len() > 0 {
        assert(folder_entries(files).drop_last() =~= folder_entries(files.drop_last()));
        lemma_sizes_agree(files.drop_last());
    }
}

/// Totals the sizes of `files` per directory that holds them, the largest
/// totals first. Files whose path has no parent are left out; no files give
/// no totals.
pub fn summarize_by_folder(files: &[FileInfo]) -> (r: Vec<(String, u64)>)
    requires
        total_size(files@) <= u64::MAX,
    ensures
        is_folder_summary(folder_entries(files@), pair_views(r@)),
        files@.len() == 0 ==> r@.len() == 0,
{
    let mut entries: Vec<(Option<String>, u64)> = Vec::new();
    let mut i: usize = 0;
    while i < files.len()
        invariant
            0 <= i <= files@.len(),
            entry_views(entries@) == folder_entries(files@.subrange(0, i as int)),
        decreases files.len() - i,
    {
        let ghost before = entries@;
        let file = &files[i];
        let parent = parent_dir(file.path.as_str());
        entries.push((parent, file.size));
        assert(entries@ == before.push((parent, file.size)));
        assert(entry_views(entries@) =~= entry_views(before).push((opt_view(parent), file.size)));
        assert(files@.subrange(0, i + 1) =~= files@.subrange(0, i as int).push(*file));
        assert(folder_entries(files@.subrange(0, i + 1)) =~= folder_entries(files@.subrange(0, i as int)).push(
            (parent_of(file.path@), file.size),
        ));
        i = i + 1;
    }
    assert(files@.subrange(0, i as int) =~= files@);
    proof {
        lemma_sizes_agree(files@);
    }
    let r = summarize_sizes(&entries);
    if files.len() == 0 {
        if r.len() > 0 {
            assert(names_folder(folder_entries(files@), pair_views(r@)[0].0));
        }
    }
    r
}

} // verus!
