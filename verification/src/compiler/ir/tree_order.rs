//! Deciding whether the children lists of a dominator tree form no cycle,
//! which the renaming walk of SSA construction needs.
use vstd::prelude::*;

use crate::compiler::ir::ssa_construct::{
    acyclic, entry_index, entry_of, find_entry, label_index, lemma_label_index, lemma_label_index_at, ranked,
};
use crate::compiler::ir::types::IrLabel;

verus! {

/// Whether every child the first entry for `l` lists either has no entry
/// of its own or is among `done`.
pub open spec fn kids_settled(kids: Seq<(IrLabel, Vec<IrLabel>)>, done: Seq<IrLabel>, l: IrLabel) -> bool {
    forall|j: int|
        0 <= j < entry_of(kids, l).len() ==> entry_index(kids, #[trigger] entry_of(kids, l)[j]) < 0 || done.contains(
            entry_of(kids, l)[j],
        )
}

/// An order of labels in which each label has an entry, comes once, and
/// comes after every child of it that has an entry.
pub open spec fn settled_order(kids: Seq<(IrLabel, Vec<IrLabel>)>, done: Seq<IrLabel>) -> bool {
    forall|k: int|
        0 <= k < done.len() ==> entry_index(kids, #[trigger] done[k]) >= 0 && !done.take(k).contains(done[k])
            && kids_settled(kids, done.take(k), done[k])
}

/// The rank a settled order gives: one past a label's position in it, or
/// zero for a label not in it.
pub open spec fn order_rank(done: Seq<IrLabel>) -> spec_fn(IrLabel) -> nat {
    |l: IrLabel| (label_index(done, l) + 1) as nat
}

/// A label whose first entry is not yet settled.
pub open spec fn stuck(kids: Seq<(IrLabel, Vec<IrLabel>)>, done: Seq<IrLabel>, l: IrLabel) -> bool {
    entry_index(kids, l) >= 0 && !done.contains(l)
}

proof fn lemma_first_position(done: Seq<IrLabel>, k: int)
    requires
        0 <= k < done.len(),
        !done.take(k).contains(done[k]),
    ensures
        label_index(done, done[k]) == k,
{
    assert forall|j: int| 0 <= j < k implies done[j] != done[k] by {
        assert(done.take(k)[j] == done[j]);
    }
    lemma_label_index_at(done, done[k], k);
}

/// A settled order that holds every label with an entry ranks the children
/// lists.
proof fn lemma_settled_ranked(kids: Seq<(IrLabel, Vec<IrLabel>)>, done: Seq<IrLabel>)
    requires
        settled_order(kids, done),
        forall|l: IrLabel| entry_index(kids, l) >= 0 ==> done.contains(l),
    ensures
        ranked(kids, order_rank(done)),
{
    let rank = order_rank(done);
    assert forall|l: IrLabel, j: int| 0 <= j < entry_of(kids, l).len() implies rank(
        #[trigger] entry_of(kids, l)[j],
    ) < rank(l) by {
        assert(entry_index(kids, l) >= 0);
        assert(done.contains(l));
        lemma_label_index(done, l);
        let k = label_index(done, l);
        assert(done[k] == l);
        assert(kids_settled(kids, done.take(k), done[k]));
        let c = entry_of(kids, l)[j];
        lemma_label_index(done, c);
        if entry_index(kids, c) < 0 {
            if done.contains(c) {
                let m = choose|m: int| 0 <= m < done.len() && done[m] == c;
                assert(entry_index(kids, done[m]) >= 0);
            }
            assert(label_index(done, c) == -1);
        } else {
            assert(done.take(k).contains(c));
            let m = choose|m: int| 0 <= m < done.take(k).len() && done.take(k)[m] == c;
            assert(done[m] == c);
            assert(label_index(done, c) <= m);
        }
    }
}

/// Where every stuck label has a stuck child, no rank orders the lists: a
/// stuck label of least rank would have a stuck child of smaller rank.
proof fn lemma_stuck_unranked(kids: Seq<(IrLabel, Vec<IrLabel>)>, done: Seq<IrLabel>, l0: IrLabel, rank: spec_fn(IrLabel) -> nat)
    requires
        stuck(kids, done, l0),
        forall|l: IrLabel| #[trigger] stuck(kids, done, l) ==> !kids_settled(kids, done, l),
    ensures
        !ranked(kids, rank),
{
    if ranked(kids, rank) {
        lemma_stuck_rank_bound(kids, done, rank, rank(l0) + 1);
        assert(rank(l0) >= rank(l0) + 1);
    }
}

proof fn lemma_stuck_rank_bound(kids: Seq<(IrLabel, Vec<IrLabel>)>, done: Seq<IrLabel>, rank: spec_fn(IrLabel) -> nat, n: nat)
    requires
        ranked(kids, rank),
        forall|l: IrLabel| #[trigger] stuck(kids, done, l) ==> !kids_settled(kids, done, l),
    ensures
        forall|l: IrLabel| #[trigger] stuck(kids, done, l) ==> rank(l) >= n,
    decreases n,
{
    if n > 0 {
        lemma_stuck_rank_bound(kids, done, rank, (n - 1) as nat);
        assert forall|l: IrLabel| #[trigger] stuck(kids, done, l) implies rank(l) >= n by {
            assert(!kids_settled(kids, done, l));
            let j = choose|j: int|
                0 <= j < entry_of(kids, l).len() && !(entry_index(kids, #[trigger] entry_of(kids, l)[j]) < 0
                    || done.contains(entry_of(kids, l)[j]));
            let c = entry_of(kids, l)[j];
            assert(stuck(kids, done, c));
            assert(rank(c) < rank(l));
        }
    }
}

/// Whether `l` is among `done`.
fn listed(done: &Vec<IrLabel>, l: IrLabel) -> (r: bool)
    ensures
        r == done@.contains(l),
{
    let mut i: usize = 0;
    while i < done.len()
        invariant
            i <= done@.len(),
            forall|j: int| 0 <= j < i ==> done@[j] != l,
        decreases done@.len() - i,
    {
        if done[i] == l {
            assert(done@[i as int] == l);
            return true;
        }
        i = i + 1;
    }
    false
}

/// Whether every child the entry at `e` lists has no entry or is among
/// `done` (see `kids_settled`).
fn entry_settled(kids: &Vec<(IrLabel, Vec<IrLabel>)>, done: &Vec<IrLabel>, e: usize) -> (r: bool)
    requires
        e < kids@.len(),
        entry_index(kids@, kids@[e as int].0) == e,
    ensures
        r == kids_settled(kids@, done@, kids@[e as int].0),
{
    let ghost l = kids@[e as int].0;
    let cs = &kids[e].1;
    assert(entry_of(kids@, l) == cs@);
    let mut j: usize = 0;
    while j < cs.len()
        invariant
            j <= cs@.len(),
            e < kids@.len(),
            l == kids@[e as int].0,
            entry_of(kids@, l) == cs@,
            forall|q: int|
                0 <= q < j ==> entry_index(kids@, #[trigger] cs@[q]) < 0 || done@.contains(cs@[q]),
        decreases cs@.len() - j,
    {
        let c = cs[j];
        let own = find_entry(kids, c);
        if own.is_some() && !listed(done, c) {
            assert(entry_of(kids@, l)[j as int] == c);
            assert(entry_index(kids@, c) >= 0);
            assert(!done@.contains(c));
            assert(!kids_settled(kids@, done@, l));
            return false;
        }
        j = j + 1;
    }
    true
}

/// How many of the flags are still down.
pub open spec fn unmarked(m: Seq<bool>) -> nat
    decreases m.len(),
{
    if m.len() == 0 {
        0
    } else {
        unmarked(m.drop_last()) + if m.last() {
            0nat
        } else {
            1nat
        }
    }
}

proof fn lemma_unmarked_set(m: Seq<bool>, i: int)
    requires
        0 <= i < m.len(),
        !m[i],
    ensures
        unmarked(m.update(i, true)) + 1 == unmarked(m),
    decreases m.len(),
{
    if i < m.len() - 1 {
        assert(m.update(i, true).drop_last() =~= m.drop_last().update(i, true));
        lemma_unmarked_set(m.drop_last(), i);
    } else {
        assert(m.update(i, true).drop_last() =~= m.drop_last());
    }
}

/// Whether the children lists of a tree, given as (label, children) entries
/// of which the first for each label counts, form no cycle (see
/// `acyclic`): labels are settled, pass after pass, once every child with
/// an entry is settled, and the lists are acyclic exactly when every label
/// with an entry ends up settled.
pub fn children_acyclic(kids: &Vec<(IrLabel, Vec<IrLabel>)>) -> (r: bool)
    ensures
        r == acyclic(kids@),
{
    let n = kids.len();
    let mut done: Vec<IrLabel> = Vec::new();
    let mut marked: Vec<bool> = Vec::new();
    let mut z: usize = 0;
    while z < n
        invariant
            z <= n,
            n == kids@.len(),
            marked@.len() == z,
            forall|e: int| 0 <= e < z ==> !marked@[e],
        decreases n - z,
    {
        marked.push(false);
        z = z + 1;
    }
    let mut progress = true;
    while progress
        invariant
            n == kids@.len(),
            marked@.len() == n,
            settled_order(kids@, done@),
            forall|e: int|
                0 <= e < n ==> (#[trigger] marked@[e] <==> (entry_index(kids@, kids@[e].0) == e && done@.contains(
                    kids@[e].0,
                ))),
            !progress ==> forall|l: IrLabel| #[trigger] stuck(kids@, done@, l) ==> !kids_settled(kids@, done@, l),
        decreases 2 * unmarked(marked@) + if progress {
            1int
        } else {
            0int
        },
    {
        let ghost start = unmarked(marked@);
        progress = false;
        let mut e: usize = 0;
        while e < n
            invariant
                e <= n,
                n == kids@.len(),
                marked@.len() == n,
                settled_order(kids@, done@),
                forall|q: int|
                    0 <= q < n ==> (#[trigger] marked@[q] <==> (entry_index(kids@, kids@[q].0) == q
                        && done@.contains(kids@[q].0))),
                progress ==> unmarked(marked@) < start,
                !progress ==> unmarked(marked@) == start,
                !progress ==> forall|q: int|
                    0 <= q < e && entry_index(kids@, kids@[q].0) == q && !done@.contains(kids@[q].0) ==> !kids_settled(
                        kids@,
                        done@,
                        #[trigger] kids@[q].0,
                    ),
            decreases n - e,
        {
            let l = kids[e].0;
            let first = find_entry(kids, l);
            if first == Some(e) && !marked[e] {
                if entry_settled(kids, &done, e) {
                    let ghost old_done = done@;
                    let ghost old_marked = marked@;
                    assert(!old_done.contains(l));
                    done.push(l);
                    proof {
                        lemma_unmarked_set(old_marked, e as int);
                        assert(done@.take(old_done.len() as int) =~= old_done);
                        assert forall|k: int| 0 <= k < done@.len() implies entry_index(kids@, #[trigger] done@[k])
                            >= 0 && !done@.take(k).contains(done@[k]) && kids_settled(
                            kids@,
                            done@.take(k),
                            done@[k],
                        ) by {
                            if k < old_done.len() {
                                assert(done@.take(k) =~= old_done.take(k));
                            }
                        }
                    }
                    marked.set(e, true);
                    proof {
                        assert forall|q: int|
                            0 <= q < n implies (#[trigger] marked@[q] <==> (entry_index(kids@, kids@[q].0) == q
                            && done@.contains(kids@[q].0))) by {
                            if q != e {
                                assert(old_marked[q] == marked@[q]);
                                if kids@[q].0 == l {
                                    assert(entry_index(kids@, kids@[q].0) == e);
                                } else {
                                    assert(done@.contains(kids@[q].0) ==> old_done.contains(kids@[q].0)) by {
                                        if done@.contains(kids@[q].0) {
                                            let m = choose|m: int| 0 <= m < done@.len() && done@[m] == kids@[q].0;
                                            assert(m < old_done.len());
                                            assert(old_done[m] == kids@[q].0);
                                        }
                                    }
                                    assert(old_done.contains(kids@[q].0) ==> done@.contains(kids@[q].0)) by {
                                        if old_done.contains(kids@[q].0) {
                                            let m = choose|m: int| 0 <= m < old_done.len() && old_done[m] == kids@[q].0;
                                            assert(done@[m] == kids@[q].0);
                                        }
                                    }
                                }
                            } else {
                                assert(done@[old_done.len() as int] == l);
                            }
                        }
                        assert(marked@ =~= old_marked.update(e as int, true));
                    }
                    progress = true;
                }
            } else {
                proof {
                    if first == Some(e) {
                        assert(marked@[e as int]);
                    }
                }
            }
            e = e + 1;
        }
        proof {
            if !progress {
                assert forall|l: IrLabel| #[trigger] stuck(kids@, done@, l) implies !kids_settled(kids@, done@, l) by {
                    let keys = kids@.map_values(|x: (IrLabel, Vec<IrLabel>)| x.0);
                    lemma_label_index(keys, l);
                    let q = entry_index(kids@, l);
                    assert(keys[q] == kids@[q].0);
                }
            }
        }
    }
    let mut e: usize = 0;
    while e < n
        invariant
            e <= n,
            n == kids@.len(),
            settled_order(kids@, done@),
            forall|l: IrLabel| #[trigger] stuck(kids@, done@, l) ==> !kids_settled(kids@, done@, l),
            forall|q: int| 0 <= q < e && entry_index(kids@, kids@[q].0) == q ==> done@.contains(#[trigger] kids@[q].0),
        decreases n - e,
    {
        let l = kids[e].0;
        if find_entry(kids, l) == Some(e) && !listed(&done, l) {
            proof {
                assert(stuck(kids@, done@, l));
                assert forall|rank: spec_fn(IrLabel) -> nat| !ranked(kids@, rank) by {
                    lemma_stuck_unranked(kids@, done@, l, rank);
                }
            }
            return false;
        }
        e = e + 1;
    }
    proof {
        assert forall|l: IrLabel| entry_index(kids@, l) >= 0 implies done@.contains(l) by {
            let keys = kids@.map_values(|x: (IrLabel, Vec<IrLabel>)| x.0);
            lemma_label_index(keys, l);
            let q = entry_index(kids@, l);
            assert(keys[q] == kids@[q].0);
        }
        lemma_settled_ranked(kids@, done@);
    }
    true
}

} // verus!
