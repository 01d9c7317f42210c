use crate::record::{texts, views_of, Item, ItemView};
use std::collections::VecDeque;
use vstd::multiset::Multiset;
use vstd::prelude::*;

verus! {

/// The model of a whole batch of sources.
pub open spec fn stream_views(logs: Seq<VecDeque<Item>>) -> Seq<Seq<ItemView>> {
    logs.map_values(|q: VecDeque<Item>| views_of(q@))
}

/// The payload texts of a sequence of records, in order.
pub open spec fn payloads(s: Seq<ItemView>) -> Seq<Seq<char>> {
    s.map_values(|iv: ItemView| iv.data)
}

/// How many records the sources hold in total.
pub open spec fn total_len(srcs: Seq<Seq<ItemView>>) -> nat
    decreases srcs.len(),
{
    if srcs.len() == 0 {
        0
    } else {
        srcs[0].len() + total_len(srcs.drop_first())
    }
}

/// Non-decreasing by timestamp key.
pub open spec fn sorted_by_key(s: Seq<ItemView>) -> bool {
    forall|i: int, j: int| 0 <= i <= j < s.len() ==> s[i].key <= s[j].key
}

/// Every source has been drained.
pub open spec fn all_exhausted(srcs: Seq<Seq<ItemView>>) -> bool {
    forall|i: int| 0 <= i < srcs.len() ==> (#[trigger] srcs[i]).len() == 0
}

/// `i` is the source the merge must serve next: it is non-exhausted, its head
/// has the minimum key among all non-exhausted sources, and every
/// lower-numbered non-exhausted source has a strictly larger head key (so
/// that ties go to the lowest source index).
pub open spec fn is_next_source(srcs: Seq<Seq<ItemView>>, i: int) -> bool {
    &&& 0 <= i < srcs.len()
    &&& srcs[i].len() > 0
    &&& forall|j: int|
        0 <= j < srcs.len() && (#[trigger] srcs[j]).len() > 0 ==> srcs[i][0].key <= srcs[j][0].key
    &&& forall|j: int| 0 <= j < i && (#[trigger] srcs[j]).len() > 0 ==> srcs[i][0].key < srcs[j][0].key
}

/// The index that the merge serves next, found by scanning `srcs[from..]`:
/// the lowest-numbered non-exhausted source with the minimum head key.
/// Returns `srcs.len()` when all of `srcs[from..]` is exhausted.
pub open spec fn next_from(srcs: Seq<Seq<ItemView>>, from: int) -> int
    recommends
        0 <= from <= srcs.len(),
    decreases srcs.len() - from,
{
    if from < 0 || from >= srcs.len() {
        srcs.len() as int
    } else {
        let rest = next_from(srcs, from + 1);
        if srcs[from].len() == 0 {
            rest
        } else if rest == srcs.len() || srcs[from][0].key <= srcs[rest][0].key {
            from
        } else {
            rest
        }
    }
}

/// The source served next, or `srcs.len()` when all are exhausted.
pub open spec fn next_source(srcs: Seq<Seq<ItemView>>) -> int {
    next_from(srcs, 0)
}

/// Replacing one source changes the total record count by the difference of
/// that source's lengths.
pub proof fn lemma_total_len_update(srcs: Seq<Seq<ItemView>>, i: int, s: Seq<ItemView>)
    requires
        0 <= i < srcs.len(),
    ensures
        total_len(srcs.update(i, s)) + srcs[i].len() == total_len(srcs) + s.len(),
    decreases srcs.len(),
{
    if i == 0 {
        assert(srcs.update(0, s).drop_first() =~= srcs.drop_first());
    } else {
        assert(srcs.update(i, s).drop_first() =~= srcs.drop_first().update(i - 1, s));
        lemma_total_len_update(srcs.drop_first(), i - 1, s);
    }
}

/// An all-exhausted batch holds no records.
pub proof fn lemma_total_len_all_exhausted(srcs: Seq<Seq<ItemView>>)
    requires
        all_exhausted(srcs),
    ensures
        total_len(srcs) == 0,
    decreases srcs.len(),
{
    if srcs.len() > 0 {
        assert(all_exhausted(srcs.drop_first()));
        lemma_total_len_all_exhausted(srcs.drop_first());
    }
}

/// What the scan `next_from` guarantees: when it returns an index, that
/// source is non-exhausted, its head key is minimal over `srcs[from..]`, and
/// every lower-numbered non-exhausted source in that range has a strictly
/// larger head key; when it returns `srcs.len()`, all of `srcs[from..]` is
/// exhausted.
pub proof fn lemma_next_from_props(srcs: Seq<Seq<ItemView>>, from: int)
    requires
        0 <= from <= srcs.len(),
    ensures
        from <= next_from(srcs, from) <= srcs.len(),
        next_from(srcs, from) < srcs.len() ==> {
            let r = next_from(srcs, from);
            &&& srcs[r].len() > 0
            &&& forall|j: int|
                from <= j < srcs.len() && (#[trigger] srcs[j]).len() > 0 ==> srcs[r][0].key
                    <= srcs[j][0].key
            &&& forall|j: int|
                from <= j < r && (#[trigger] srcs[j]).len() > 0 ==> srcs[r][0].key < srcs[j][0].key
        },
        next_from(srcs, from) == srcs.len() ==> forall|j: int|
            from <= j < srcs.len() ==> (#[trigger] srcs[j]).len() == 0,
    decreases srcs.len() - from,
{
    if from < srcs.len() {
        lemma_next_from_props(srcs, from + 1);
    }
}

/// At most one index satisfies `is_next_source`, and it is the one the scan
/// finds.
pub proof fn lemma_next_source_agrees(srcs: Seq<Seq<ItemView>>, i: int)
    requires
        is_next_source(srcs, i),
    ensures
        next_source(srcs) == i,
{
    lemma_next_from_props(srcs, 0);
    let r = next_source(srcs);
    if r < i {
        assert(srcs[r][0].key < srcs[r][0].key);
    } else if i < r {
        assert(srcs[i][0].key < srcs[i][0].key);
    }
}

/// Ties go to the lowest source index: whenever source `i` is the one
/// `is_next_source` describes — non-exhausted, head key minimal, every
/// lower-numbered non-exhausted source strictly larger — the merged output
/// starts with source `i`'s head.
pub proof fn lemma_tie_break(srcs: Seq<Seq<ItemView>>, i: int)
    requires
        is_next_source(srcs, i),
    ensures
        merge_rec(srcs).len() > 0,
        merge_rec(srcs)[0] == srcs[i][0],
{
    lemma_next_source_agrees(srcs, i);
}

/// The fully merged output: repeatedly emit the head of the source chosen by
/// `next_source` until every source is exhausted.
pub open spec fn merge_rec(srcs: Seq<Seq<ItemView>>) -> Seq<ItemView>
    decreases total_len(srcs),
    via merge_rec_decreases
{
    let i = next_source(srcs);
    if 0 <= i < srcs.len() {
        seq![srcs[i][0]] + merge_rec(srcs.update(i, srcs[i].drop_first()))
    } else {
        Seq::empty()
    }
}

#[via_fn]
proof fn merge_rec_decreases(srcs: Seq<Seq<ItemView>>) {
    lemma_next_from_props(srcs, 0);
    let i = next_source(srcs);
    if 0 <= i < srcs.len() {
        lemma_total_len_update(srcs, i, srcs[i].drop_first());
    }
}

/// Merging conserves length: the output holds exactly as many records as all
/// sources together.
pub proof fn lemma_merge_len(srcs: Seq<Seq<ItemView>>)
    ensures
        merge_rec(srcs).len() == total_len(srcs),
    decreases total_len(srcs),
{
    lemma_next_from_props(srcs, 0);
    let i = next_source(srcs);
    if 0 <= i < srcs.len() {
        lemma_total_len_update(srcs, i, srcs[i].drop_first());
        lemma_merge_len(srcs.update(i, srcs[i].drop_first()));
    } else {
        assert(all_exhausted(srcs));
        lemma_total_len_all_exhausted(srcs);
    }
}

/// All records the sources hold, as a multiset.
pub open spec fn contents(srcs: Seq<Seq<ItemView>>) -> Multiset<ItemView>
    decreases srcs.len(),
{
    if srcs.len() == 0 {
        Multiset::<ItemView>::empty()
    } else {
        srcs[0].to_multiset().add(contents(srcs.drop_first()))
    }
}

/// Replacing one source exchanges exactly that source's records in the
/// overall contents.
proof fn lemma_contents_update(srcs: Seq<Seq<ItemView>>, i: int, s: Seq<ItemView>)
    requires
        0 <= i < srcs.len(),
    ensures
        contents(srcs.update(i, s)).add(srcs[i].to_multiset()) == contents(srcs).add(
            s.to_multiset(),
        ),
    decreases srcs.len(),
{
    if i == 0 {
        assert(srcs.update(0, s).drop_first() =~= srcs.drop_first());
        assert(contents(srcs.update(0, s)) == s.to_multiset().add(contents(srcs.drop_first())));
        assert(contents(srcs) == srcs[0].to_multiset().add(contents(srcs.drop_first())));
        assert(contents(srcs.update(0, s)).add(srcs[0].to_multiset()) =~= contents(srcs).add(
            s.to_multiset(),
        ));
    } else {
        assert(srcs.update(i, s).drop_first() =~= srcs.drop_first().update(i - 1, s));
        lemma_contents_update(srcs.drop_first(), i - 1, s);
        assert(srcs.update(i, s)[0] == srcs[0]);
        assert(contents(srcs.update(i, s)) == srcs[0].to_multiset().add(
            contents(srcs.drop_first().update(i - 1, s)),
        ));
        assert(contents(srcs) == srcs[0].to_multiset().add(contents(srcs.drop_first())));
        assert(srcs.drop_first()[i - 1] == srcs[i]);
        assert forall|x: ItemView|
            contents(srcs.update(i, s)).add(srcs[i].to_multiset()).count(x) == contents(srcs).add(
                s.to_multiset(),
            ).count(x) by {
            assert(contents(srcs.drop_first().update(i - 1, s)).add(srcs[i].to_multiset()).count(x)
                == contents(srcs.drop_first()).add(s.to_multiset()).count(x));
        }
        assert(contents(srcs.update(i, s)).add(srcs[i].to_multiset()) =~= contents(srcs).add(
            s.to_multiset(),
        ));
    }
}

/// Merging conserves content: the output holds every input record exactly as
/// often as the sources do together — nothing is lost, duplicated or
/// invented.
pub proof fn lemma_merge_content(srcs: Seq<Seq<ItemView>>)
    ensures
        merge_rec(srcs).to_multiset() == contents(srcs),
    decreases total_len(srcs),
{
    lemma_next_from_props(srcs, 0);
    let i = next_source(srcs);
    if 0 <= i < srcs.len() {
        let head = srcs[i][0];
        let rest = srcs.update(i, srcs[i].drop_first());
        lemma_total_len_update(srcs, i, srcs[i].drop_first());
        lemma_merge_content(rest);
        lemma_contents_update(srcs, i, srcs[i].drop_first());
        vstd::seq_lib::lemma_multiset_commutative(seq![head], merge_rec(rest));
        assert(merge_rec(srcs) == seq![head] + merge_rec(rest));
        seq![head].to_multiset_ensures();
        Seq::<ItemView>::empty().to_multiset_ensures();
        assert(seq![head] =~= Seq::<ItemView>::empty().push(head));
        assert(Seq::<ItemView>::empty().to_multiset() =~= Multiset::<ItemView>::empty());
        assert(seq![head].to_multiset() =~= Multiset::<ItemView>::empty().insert(head));
        srcs[i].to_multiset_ensures();
        assert(srcs[i].remove(0) =~= srcs[i].drop_first());
        assert(srcs[i].remove(0).to_multiset() =~= srcs[i].to_multiset().remove(head));
        assert(srcs[i].contains(head));
        assert(srcs[i].to_multiset().count(head) > 0);
        assert forall|x: ItemView|
            merge_rec(srcs).to_multiset().count(x) == contents(srcs).count(x) by {
            assert(merge_rec(srcs).to_multiset().count(x) == seq![head].to_multiset().count(x)
                + merge_rec(rest).to_multiset().count(x));
            assert(contents(rest).add(srcs[i].to_multiset()).count(x) == contents(srcs).add(
                srcs[i].drop_first().to_multiset(),
            ).count(x));
            assert(srcs[i].drop_first().to_multiset().count(x) == srcs[i].to_multiset().remove(
                head,
            ).count(x));
            assert(seq![head].to_multiset().count(x) == Multiset::<ItemView>::empty().insert(
                head,
            ).count(x));
        }
        assert(merge_rec(srcs).to_multiset() =~= contents(srcs));
    } else {
        lemma_total_len_all_exhausted(srcs);
        lemma_contents_all_exhausted(srcs);
        let e = Seq::<ItemView>::empty();
        e.to_multiset_ensures();
        assert(merge_rec(srcs) == e);
        assert forall|x: ItemView| merge_rec(srcs).to_multiset().count(x) == contents(
            srcs,
        ).count(x) by {
            assert(!e.contains(x));
        }
        assert(merge_rec(srcs).to_multiset() =~= contents(srcs));
    }
}

/// An all-exhausted batch holds nothing.
proof fn lemma_contents_all_exhausted(srcs: Seq<Seq<ItemView>>)
    requires
        all_exhausted(srcs),
    ensures
        contents(srcs) == Multiset::<ItemView>::empty(),
    decreases srcs.len(),
{
    if srcs.len() == 0 {
        assert(contents(srcs) =~= Multiset::<ItemView>::empty());
    } else {
        srcs[0].to_multiset_ensures();
        assert(srcs[0].to_multiset().len() == 0);
        assert(all_exhausted(srcs.drop_first()));
        lemma_contents_all_exhausted(srcs.drop_first());
        assert(contents(srcs) =~= Multiset::<ItemView>::empty());
    }
}

/// Every source is individually sorted ascending by key — the invariant the
/// caller owes the merge.
pub open spec fn sources_sorted(srcs: Seq<Seq<ItemView>>) -> bool {
    forall|i: int| 0 <= i < srcs.len() ==> sorted_by_key(#[trigger] srcs[i])
}

/// Every head key is at least `k` — then so is every key in the output.
proof fn lemma_merge_lower_bound(srcs: Seq<Seq<ItemView>>, k: u64)
    requires
        sources_sorted(srcs),
        forall|j: int|
            0 <= j < srcs.len() && (#[trigger] srcs[j]).len() > 0 ==> k <= srcs[j][0].key,
    ensures
        forall|t: int| 0 <= t < merge_rec(srcs).len() ==> k <= (#[trigger] merge_rec(srcs)[t]).key,
    decreases total_len(srcs),
{
    lemma_next_from_props(srcs, 0);
    let i = next_source(srcs);
    if 0 <= i < srcs.len() {
        let rest = srcs.update(i, srcs[i].drop_first());
        assert(sorted_by_key(srcs[i].drop_first()));
        assert(sources_sorted(rest));
        assert(forall|j: int|
            0 <= j < rest.len() && (#[trigger] rest[j]).len() > 0 ==> k <= rest[j][0].key);
        lemma_total_len_update(srcs, i, srcs[i].drop_first());
        lemma_merge_lower_bound(rest, k);
        assert(merge_rec(srcs) == seq![srcs[i][0]] + merge_rec(rest));
        assert(forall|t: int|
            0 <= t < merge_rec(srcs).len() ==> k <= (#[trigger] merge_rec(srcs)[t]).key) by {
            assert(k <= srcs[i][0].key);
            assert(forall|t: int|
                1 <= t < merge_rec(srcs).len() ==> merge_rec(srcs)[t] == (#[trigger] merge_rec(
                    rest,
                )[t - 1]));
        }
    }
}

/// Global order: when every source is sorted ascending by key, so is the
/// merged output.
pub proof fn lemma_merge_sorted(srcs: Seq<Seq<ItemView>>)
    requires
        sources_sorted(srcs),
    ensures
        sorted_by_key(merge_rec(srcs)),
    decreases total_len(srcs),
{
    lemma_next_from_props(srcs, 0);
    let i = next_source(srcs);
    if 0 <= i < srcs.len() {
        let head = srcs[i][0];
        let rest = srcs.update(i, srcs[i].drop_first());
        assert(sorted_by_key(srcs[i].drop_first()));
        assert(sources_sorted(rest));
        assert(forall|j: int|
            0 <= j < rest.len() && (#[trigger] rest[j]).len() > 0 ==> head.key <= rest[j][0].key);
        lemma_total_len_update(srcs, i, srcs[i].drop_first());
        lemma_merge_sorted(rest);
        lemma_merge_lower_bound(rest, head.key);
    }
}

/// Determinism: the merged output is a function of the source contents alone,
/// so two runs over equal inputs emit identical outputs, tie order included.
pub proof fn lemma_merge_deterministic(srcs1: Seq<Seq<ItemView>>, srcs2: Seq<Seq<ItemView>>)
    requires
        srcs1 == srcs2,
    ensures
        merge_rec(srcs1) == merge_rec(srcs2),
{
}

/// What is left of every source once the first `pos[i]` records of source `i`
/// have been emitted.
pub open spec fn suffixes(logs: Seq<VecDeque<Item>>, pos: Seq<usize>) -> Seq<Seq<ItemView>> {
    Seq::new(logs.len(), |i: int| views_of(logs[i]@).skip(pos[i] as int))
}

/// `k` occurs in the list `a`.
pub open spec fn in_list(a: Seq<usize>, k: int) -> bool {
    exists|s: int| 0 <= s < a.len() && a[s] == k
}

/// How the remaining part of source `j` relates to the vectors the merge
/// loop works on.
proof fn lemma_suffix_at(logs: Seq<VecDeque<Item>>, pos: Seq<usize>, j: int)
    requires
        logs.len() == pos.len(),
        0 <= j < logs.len(),
        pos[j] <= logs[j]@.len(),
    ensures
        suffixes(logs, pos)[j].len() == logs[j]@.len() - pos[j],
        pos[j] < logs[j]@.len() ==> suffixes(logs, pos)[j][0] == logs[j]@[pos[j] as int]@,
{
    assert(suffixes(logs, pos)[j] == views_of(logs[j]@).skip(pos[j] as int));
}

/// The head key of source `j`: the key of its next not-yet-emitted record.
pub open spec fn head_key(logs: Seq<VecDeque<Item>>, pos: Seq<usize>, j: int) -> u64 {
    logs[j]@[pos[j] as int]@.key
}

/// Merge the sorted sources into one globally ordered sequence of payload
/// lines.
///
/// Each element of `logs` is one source, individually non-decreasing by
/// timestamp key (the caller's obligation; when it is violated every line
/// still reaches the output, but the output is no longer globally sorted).
/// The output interleaves all sources ascending by key; when several sources
/// tie, the lowest source index is emitted first. Timestamps are dropped:
/// only the payload text is returned.
#[verifier::loop_isolation(false)]
pub fn merge(logs: Vec<VecDeque<Item>>) -> (result: VecDeque<String>)
    ensures
        texts(result@) == payloads(merge_rec(stream_views(logs@))),
{
    let ghost orig: Seq<Seq<ItemView>> = stream_views(logs@);
    let mut result: VecDeque<String> = VecDeque::new();
    let ghost mut emitted: Seq<ItemView> = Seq::<ItemView>::empty();
    let n: usize = logs.len();

    // Head positions: pos[i] records of source i have been emitted so far.
    let mut pos: Vec<usize> = Vec::new();
    // The non-exhausted source indices, ascending; an exhausted source is
    // removed for good and never rescanned.
    let mut active: Vec<usize> = Vec::new();
    let mut i: usize = 0;
    while i < n
        invariant
            i <= n,
            pos@.len() == i,
            forall|k: int| 0 <= k < i ==> pos@[k] == 0,
            forall|s: int, t: int| 0 <= s < t < active@.len() ==> active@[s] < active@[t],
            forall|s: int| 0 <= s < active@.len() ==> (#[trigger] active@[s]) < i,
            forall|s: int|
                0 <= s < active@.len() ==> logs@[(#[trigger] active@[s]) as int]@.len() > 0,
            forall|k: int| 0 <= k < i && logs@[k]@.len() > 0 ==> in_list(active@, k),
        decreases n - i,
    {
        pos.push(0);
        let nonempty: bool = logs[i].len() > 0;
        if nonempty {
            let ghost before = active@;
            active.push(i);
            assert forall|k: int| 0 <= k < i + 1 && logs@[k]@.len() > 0 implies in_list(
                active@,
                k,
            ) by {
                if k < i {
                    assert(in_list(before, k));
                    let s = choose|s: int| 0 <= s < before.len() && before[s] == k;
                    assert(active@[s] == k);
                } else {
                    assert(active@[active@.len() - 1] == k);
                }
            }
        }
        i += 1;
    }
    proof {
        assert forall|j: int| 0 <= j < n implies #[trigger] suffixes(logs@, pos@)[j] == orig[j] by {
            assert(views_of(logs@[j]@).skip(0) =~= views_of(logs@[j]@));
        }
        assert(suffixes(logs@, pos@) =~= orig);
        assert(Seq::<ItemView>::empty() + merge_rec(orig) =~= merge_rec(orig));
        assert(texts(result@) =~= payloads(emitted));
    }

    while active.len() > 0
        invariant
            pos@.len() == n,
            forall|k: int| 0 <= k < n ==> (#[trigger] pos@[k]) <= logs@[k]@.len(),
            forall|s: int, t: int| 0 <= s < t < active@.len() ==> active@[s] < active@[t],
            forall|s: int| 0 <= s < active@.len() ==> (#[trigger] active@[s]) < n,
            forall|s: int|
                0 <= s < active@.len() ==> pos@[(#[trigger] active@[s]) as int] < logs@[active@[
                    s
                ] as int]@.len(),
            forall|k: int| 0 <= k < n && pos@[k] < logs@[k]@.len() ==> in_list(active@, k),
            merge_rec(orig) == emitted + merge_rec(suffixes(logs@, pos@)),
            texts(result@) == payloads(emitted),
        decreases total_len(suffixes(logs@, pos@)),
    {
        let ghost srcs = suffixes(logs@, pos@);
        proof {
            assert forall|j: int| 0 <= j < n implies (#[trigger] srcs[j]).len() == logs@[j]@.len()
                - pos@[j] && (pos@[j] < logs@[j]@.len() ==> srcs[j][0] == logs@[j]@[pos@[
                j
            ] as int]@) by {
                lemma_suffix_at(logs@, pos@, j);
            }
        }

        // Scan the active sources for the minimum head key; strict `<` keeps
        // the lowest source index on ties.
        let mut bpos: usize = 0;
        let mut bi: usize = active[0];
        assert(active@[0] == bi && bi < n && pos@[bi as int] < logs@[bi as int]@.len());
        let pbi: usize = pos[bi];
        let mut bk: u64 = logs[bi][pbi].key();
        let mut t: usize = 1;
        while t < active.len()
            invariant
                1 <= t <= active@.len(),
                bpos < t,
                active@[bpos as int] == bi,
                bk == head_key(logs@, pos@, bi as int),
                forall|s: int|
                    0 <= s < t ==> bk <= head_key(logs@, pos@, (#[trigger] active@[s]) as int),
                forall|s: int|
                    0 <= s < bpos ==> bk < head_key(logs@, pos@, (#[trigger] active@[s]) as int),
            decreases active@.len() - t,
        {
            let j: usize = active[t];
            assert(active@[t as int] == j && j < n && pos@[j as int] < logs@[j as int]@.len());
            let pj: usize = pos[j];
            let k: u64 = logs[j][pj].key();
            if k < bk {
                bk = k;
                bi = j;
                bpos = t;
            }
            t += 1;
        }

        proof {
            assert(active@[bpos as int] == bi && bi < n);
            assert(pos@[bi as int] < logs@[bi as int]@.len());
            assert(srcs[bi as int][0].key == bk);
            assert forall|j: int|
                0 <= j < srcs.len() && (#[trigger] srcs[j]).len() > 0 implies srcs[bi as int][0].key
                <= srcs[j][0].key by {
                assert(pos@[j] < logs@[j]@.len());
                assert(in_list(active@, j));
                let s = choose|s: int| 0 <= s < active@.len() && active@[s] == j;
                assert(bk <= head_key(logs@, pos@, active@[s] as int));
            }
            assert forall|j: int|
                0 <= j < bi as int && (#[trigger] srcs[j]).len() > 0 implies srcs[bi as int][0].key
                < srcs[j][0].key by {
                assert(pos@[j] < logs@[j]@.len());
                assert(in_list(active@, j));
                let s = choose|s: int| 0 <= s < active@.len() && active@[s] == j;
                if s > bpos as int {
                    assert(active@[bpos as int] < active@[s]);
                }
                assert(s < bpos as int);
                assert(bk < head_key(logs@, pos@, active@[s] as int));
            }
            assert(is_next_source(srcs, bi as int));
            lemma_next_source_agrees(srcs, bi as int);
            lemma_total_len_update(srcs, bi as int, srcs[bi as int].drop_first());
        }

        // Emit the head of the chosen source.
        let pb: usize = pos[bi];
        let qlen: usize = logs[bi].len();
        assert(pb < qlen);
        let line: String = logs[bi][pb].data().clone();
        let ghost before_result = result@;
        result.push_back(line);
        let ghost head = srcs[bi as int][0];
        let ghost before_emitted = emitted;
        proof {
            emitted = emitted.push(head);
        }
        let ghost before_pos = pos@;
        pos[bi] = pb + 1;
        let ghost before = active@;
        let exhausted: bool = pb + 1 == qlen;
        if exhausted {
            // This source is drained: prune it permanently.
            active.remove(bpos);
        }

        proof {
            let srcs2 = suffixes(logs@, pos@);
            assert forall|j: int|
                0 <= j < n implies #[trigger] srcs2[j] == srcs.update(
                bi as int,
                srcs[bi as int].drop_first(),
            )[j] by {
                lemma_suffix_at(logs@, pos@, j);
                if j == bi as int {
                    assert(srcs2[j] =~= srcs[j].drop_first());
                } else {
                    assert(srcs2[j] =~= srcs[j]);
                }
            }
            assert(srcs2 =~= srcs.update(bi as int, srcs[bi as int].drop_first()));
            assert(merge_rec(srcs) == seq![head] + merge_rec(srcs2));
            assert(before_emitted + merge_rec(srcs) =~= emitted + merge_rec(srcs2));
            assert(merge_rec(orig) == emitted + merge_rec(srcs2));
            assert(line@ == head.data);
            assert(before_result.len() == before_emitted.len());
            assert forall|t2: int|
                0 <= t2 < result@.len() implies #[trigger] texts(result@)[t2] == payloads(
                emitted,
            )[t2] by {
                assert(result@ == before_result.push(line));
                assert(emitted == before_emitted.push(head));
                if t2 < before_result.len() {
                    assert(result@[t2] == before_result[t2]);
                    assert(texts(before_result)[t2] == payloads(before_emitted)[t2]);
                } else {
                    assert(result@[t2] == line);
                    assert(emitted[t2] == head);
                }
            }
            assert(texts(result@) =~= payloads(emitted));
            assert(total_len(srcs2) < total_len(srcs));

            // The active list still mirrors which sources are non-exhausted.
            if exhausted {
                before.remove_ensures(bpos as int);
                assert(active@ == before.remove(bpos as int));
                assert(active@.len() == before.len() - 1);
                assert forall|s: int, t2: int|
                    0 <= s < t2 < active@.len() implies active@[s] < active@[t2] by {
                    assert(active@[s] == if s < bpos as int {
                        before[s]
                    } else {
                        before[s + 1]
                    });
                    assert(active@[t2] == if t2 < bpos as int {
                        before[t2]
                    } else {
                        before[t2 + 1]
                    });
                }
                assert forall|s: int|
                    0 <= s < active@.len() implies (#[trigger] active@[s]) < n && pos@[active@[
                    s
                ] as int] < logs@[active@[s] as int]@.len() by {
                    let so: int = if s < bpos as int {
                        s
                    } else {
                        s + 1
                    };
                    assert(active@[s] == before[so]);
                    if so < bpos as int {
                        assert(before[so] < before[bpos as int]);
                    }
                    if so > bpos as int {
                        assert(before[bpos as int] < before[so]);
                    }
                    assert(before[so] != bi);
                    assert(pos@[before[so] as int] == before_pos[before[so] as int]);
                }
                assert forall|k: int|
                    0 <= k < n && pos@[k] < logs@[k]@.len() implies in_list(active@, k) by {
                    assert(pos@[bi as int] == qlen);
                    assert(k != bi as int);
                    assert(before_pos[k] < logs@[k]@.len());
                    assert(in_list(before, k));
                    let s = choose|s: int| 0 <= s < before.len() && before[s] == k;
                    assert(s != bpos as int);
                    if s < bpos as int {
                        assert(active@[s] == k);
                    } else {
                        assert(active@[s - 1] == before[s]);
                        assert(active@[s - 1] == k);
                    }
                }
            } else {
                assert forall|s: int|
                    0 <= s < active@.len() implies (#[trigger] active@[s]) < n && pos@[active@[
                    s
                ] as int] < logs@[active@[s] as int]@.len() by {
                    if active@[s] == bi {
                        assert(pos@[bi as int] == pb + 1 < qlen);
                    } else {
                        assert(pos@[active@[s] as int] == before_pos[active@[s] as int]);
                    }
                }
                assert forall|k: int|
                    0 <= k < n && pos@[k] < logs@[k]@.len() implies in_list(active@, k) by {
                    if k == bi as int {
                        assert(active@[bpos as int] == k);
                    } else {
                        assert(before_pos[k] < logs@[k]@.len());
                        assert(in_list(before, k));
                    }
                }
            }
        }
    }

    proof {
        let srcs = suffixes(logs@, pos@);
        assert forall|j: int| 0 <= j < srcs.len() implies (#[trigger] srcs[j]).len() == 0 by {
            lemma_suffix_at(logs@, pos@, j);
            if pos@[j] < logs@[j]@.len() {
                assert(in_list(active@, j));
                let s = choose|s: int| 0 <= s < active@.len() && active@[s] == j;
            }
        }
        lemma_next_from_props(srcs, 0);
        assert(merge_rec(srcs) =~= Seq::<ItemView>::empty());
        assert(emitted + merge_rec(srcs) =~= emitted);
        assert(payloads(merge_rec(orig)) == payloads(emitted));
    }
    result
}

} // verus!
