use crate::calc::{blocks_with_id, is_tree_of, next_todo, task_of_wish, tasks_of, wish_has_id};
use crate::models::{Task, Wish, WishBlock};
use vstd::prelude::*;

verus! {

/// Whether a wish has the id `id`.
pub open spec fn wish_id_is(id: i32) -> spec_fn(Wish) -> bool {
    |w: Wish| w.id == id
}

/// Picking the wish `id` out of the tree of `wishes` and `tasks` gives the tree
/// of the wishes with that id and the same tasks.
pub proof fn lemma_single_wish_of_tree(tree: Seq<WishBlock>, wishes: Seq<Wish>, tasks: Seq<Task>, id: i32)
    requires
        is_tree_of(tree, wishes, tasks),
    ensures
        is_tree_of(blocks_with_id(tree, id), wishes.filter(wish_id_is(id)), tasks),
    decreases tree.len(),
{
    if tree.len() == 0 {
        reveal(Seq::filter);
    } else {
        let n = tree.len() - 1;
        let t0 = tree.drop_last();
        let w0 = wishes.drop_last();
        assert(is_tree_of(t0, w0, tasks)) by {
            assert forall|i: int| 0 <= i < t0.len() implies #[trigger] t0[i].wish == w0[i] by {
                assert(tree[i].wish == wishes[i]);
            }
            assert forall|i: int| 0 <= i < t0.len() implies t0[i].tasks@ == tasks_of(tasks, w0[i].id) by {
                assert(tree[i].wish == wishes[i]);
            }
        }
        lemma_single_wish_of_tree(t0, w0, tasks, id);
        assert(tree == t0.push(tree[n]));
        assert(wishes == w0.push(wishes[n]));
        assert(tree[n].wish == wishes[n]);
        t0.lemma_filter_push(tree[n], wish_has_id(id));
        w0.lemma_filter_push(wishes[n], wish_id_is(id));
    }
}

/// Picking a wish out twice gives what picking it out once gives.
pub proof fn lemma_single_wish_idempotent(tree: Seq<WishBlock>, id: i32)
    ensures
        blocks_with_id(blocks_with_id(tree, id), id) == blocks_with_id(tree, id),
    decreases tree.len(),
{
    if tree.len() == 0 {
        reveal(Seq::filter);
    } else {
        let n = tree.len() - 1;
        let t0 = tree.drop_last();
        lemma_single_wish_idempotent(t0, id);
        assert(tree == t0.push(tree[n]));
        t0.lemma_filter_push(tree[n], wish_has_id(id));
        blocks_with_id(t0, id).lemma_filter_push(tree[n], wish_has_id(id));
    }
}

/// In the tree of `wishes` and `tasks`, the next task to do is the first task
/// that belongs to the first wish, and there is none when there is no wish or
/// the first wish has no task.
pub proof fn lemma_next_todo_of_tree(tree: Seq<WishBlock>, wishes: Seq<Wish>, tasks: Seq<Task>)
    requires
        is_tree_of(tree, wishes, tasks),
    ensures
        wishes.len() == 0 ==> next_todo(tree) is None,
        wishes.len() > 0 ==> next_todo(tree) == (if tasks_of(tasks, wishes[0].id).len() > 0 {
            Some(tasks_of(tasks, wishes[0].id)[0])
        } else {
            None
        }),
        next_todo(tree) matches Some(t) ==> wishes.len() > 0 && t.root_id == wishes[0].id
            && tasks.contains(t),
{
    if wishes.len() > 0 {
        assert(tree[0].wish == wishes[0]);
        let sel = tasks_of(tasks, wishes[0].id);
        if sel.len() > 0 {
            tasks.lemma_filter_pred(task_of_wish(wishes[0].id), 0);
            assert(sel.contains(sel[0]));
            tasks.lemma_filter_contains_rev(task_of_wish(wishes[0].id), sel[0]);
        }
    }
}

/// The tree of `wishes` and `tasks` holds every task whose wish is among
/// `wishes`, in that wish's block, and nothing else: each task of a block
/// comes from `tasks` and belongs to the block's wish.
pub proof fn lemma_tree_keeps_tasks(tree: Seq<WishBlock>, wishes: Seq<Wish>, tasks: Seq<Task>)
    requires
        is_tree_of(tree, wishes, tasks),
    ensures
        forall|i: int, t: Task|
            0 <= i < tree.len() && #[trigger] tasks.contains(t) && t.root_id == wishes[i].id
                ==> #[trigger] tree[i].tasks@.contains(t),
        forall|i: int, k: int|
            0 <= i < tree.len() && 0 <= k < tree[i].tasks@.len() ==> {
                &&& (#[trigger] tree[i].tasks@[k]).root_id == tree[i].wish.id
                &&& tasks.contains(tree[i].tasks@[k])
            },
{
    assert forall|i: int, t: Task|
        0 <= i < tree.len() && #[trigger] tasks.contains(t) && t.root_id == wishes[i].id
            implies #[trigger] tree[i].tasks@.contains(t) by {
        assert(tree[i].wish == wishes[i]);
        let j = choose|j: int| 0 <= j < tasks.len() && tasks[j] == t;
        tasks.lemma_filter_contains(task_of_wish(wishes[i].id), j);
    }
    assert forall|i: int, k: int| 0 <= i < tree.len() && 0 <= k < tree[i].tasks@.len() implies {
        &&& (#[trigger] tree[i].tasks@[k]).root_id == tree[i].wish.id
        &&& tasks.contains(tree[i].tasks@[k])
    } by {
        assert(tree[i].wish == wishes[i]);
        let sel = tasks_of(tasks, wishes[i].id);
        tasks.lemma_filter_pred(task_of_wish(wishes[i].id), k);
        assert(sel.contains(sel[k]));
        tasks.lemma_filter_contains_rev(task_of_wish(wishes[i].id), sel[k]);
    }
}

} // verus!

verus! {

/// Positions in `s` of the elements that `s.filter(keep)` holds: strictly
/// increasing, exactly the positions whose element satisfies `keep`, and the
/// filter holds at each place the element of `s` at that position.
proof fn lemma_filter_positions<A>(s: Seq<A>, keep: spec_fn(A) -> bool) -> (idx: Seq<int>)
    ensures
        idx.len() == s.filter(keep).len(),
        forall|k: int|
            0 <= k < idx.len() ==> 0 <= #[trigger] idx[k] < s.len() && s.filter(keep)[k] == s[idx[k]]
                && keep(s[idx[k]]),
        forall|k1: int, k2: int| 0 <= k1 < k2 < idx.len() ==> #[trigger] idx[k1] < #[trigger] idx[k2],
        forall|j: int| 0 <= j < s.len() && #[trigger] keep(s[j]) ==> exists|k: int| 0 <= k < idx.len() && idx[k] == j,
    decreases s.len(),
{
    if s.len() == 0 {
        reveal(Seq::filter);
        Seq::empty()
    } else {
        let n = s.len() - 1;
        let s0 = s.drop_last();
        let x = s[n];
        let idx0 = lemma_filter_positions(s0, keep);
        assert(s == s0.push(x));
        s0.lemma_filter_push(x, keep);
        let idx = if keep(x) { idx0.push(n) } else { idx0 };
        assert forall|j: int| 0 <= j < s.len() && #[trigger] keep(s[j]) implies exists|k: int|
            0 <= k < idx.len() && idx[k] == j by {
            if j < n {
                assert(s0[j] == s[j]);
                assert(keep(s0[j]));
                let k = choose|k: int| 0 <= k < idx0.len() && idx0[k] == j;
                assert(idx[k] == j);
            } else {
                assert(idx[idx0.len() as int] == j);
            }
        }
        assert forall|k: int| 0 <= k < idx.len() implies 0 <= #[trigger] idx[k] < s.len()
            && s.filter(keep)[k] == s[idx[k]] && keep(s[idx[k]]) by {
            if k < idx0.len() {
                assert(idx[k] == idx0[k]);
                assert(s0[idx0[k]] == s[idx0[k]]);
            }
        }
        idx
    }
}

/// Each block of the tree of `wishes` and `tasks` holds the wish at the same
/// place in `wishes`, and its tasks are the input tasks of that wish, each
/// once, in the order of `tasks`: they sit at strictly increasing positions
/// of `tasks`, and those positions are exactly the positions of the tasks
/// whose `root_id` is the wish's id.
pub proof fn lemma_tree_block_selects_tasks(
    tree: Seq<WishBlock>,
    wishes: Seq<Wish>,
    tasks: Seq<Task>,
    i: int,
) -> (idx: Seq<int>)
    requires
        is_tree_of(tree, wishes, tasks),
        0 <= i < tree.len(),
    ensures
        tree.len() == wishes.len(),
        tree[i].wish == wishes[i],
        idx.len() == tree[i].tasks@.len(),
        forall|k: int|
            0 <= k < idx.len() ==> 0 <= #[trigger] idx[k] < tasks.len() && tree[i].tasks@[k] == tasks[idx[k]],
        forall|k1: int, k2: int| 0 <= k1 < k2 < idx.len() ==> #[trigger] idx[k1] < #[trigger] idx[k2],
        forall|j: int|
            0 <= j < tasks.len() ==> ((#[trigger] tasks[j]).root_id == wishes[i].id <==> exists|k: int|
                0 <= k < idx.len() && idx[k] == j),
{
    let keep = task_of_wish(wishes[i].id);
    assert(tree[i].wish == wishes[i]);
    let idx = lemma_filter_positions(tasks, keep);
    assert forall|j: int| 0 <= j < tasks.len() implies ((#[trigger] tasks[j]).root_id == wishes[i].id <==> exists|k: int|
        0 <= k < idx.len() && idx[k] == j) by {
        if tasks[j].root_id == wishes[i].id {
            assert(keep(tasks[j]));
        }
        if exists|k: int| 0 <= k < idx.len() && idx[k] == j {
            let k = choose|k: int| 0 <= k < idx.len() && idx[k] == j;
            assert(keep(tasks[idx[k]]));
        }
    }
    idx
}

/// The blocks that picking the wish `id` out of `tree` gives are the blocks of
/// `tree` whose wish has that id, each once, in their order: they sit at
/// strictly increasing positions of `tree`, and those positions are exactly
/// the positions of the blocks whose wish has the id `id`.
pub proof fn lemma_single_wish_selects_blocks(tree: Seq<WishBlock>, id: i32) -> (idx: Seq<int>)
    ensures
        idx.len() == blocks_with_id(tree, id).len(),
        forall|k: int|
            0 <= k < idx.len() ==> 0 <= #[trigger] idx[k] < tree.len() && blocks_with_id(tree, id)[k] == tree[idx[k]],
        forall|k1: int, k2: int| 0 <= k1 < k2 < idx.len() ==> #[trigger] idx[k1] < #[trigger] idx[k2],
        forall|j: int|
            0 <= j < tree.len() ==> ((#[trigger] tree[j]).wish.id == id <==> exists|k: int|
                0 <= k < idx.len() && idx[k] == j),
{
    let keep = wish_has_id(id);
    let idx = lemma_filter_positions(tree, keep);
    assert forall|j: int| 0 <= j < tree.len() implies ((#[trigger] tree[j]).wish.id == id <==> exists|k: int|
        0 <= k < idx.len() && idx[k] == j) by {
        if tree[j].wish.id == id {
            assert(keep(tree[j]));
        }
        if exists|k: int| 0 <= k < idx.len() && idx[k] == j {
            let k = choose|k: int| 0 <= k < idx.len() && idx[k] == j;
            assert(keep(tree[idx[k]]));
        }
    }
    idx
}

/// In the tree of `wishes` and `tasks`, the first block's first task is the
/// earliest task of `tasks` that belongs to the first wish; the first block
/// has no task exactly when no task belongs to the first wish.
pub proof fn lemma_first_task_is_earliest(tree: Seq<WishBlock>, wishes: Seq<Wish>, tasks: Seq<Task>)
    requires
        is_tree_of(tree, wishes, tasks),
        wishes.len() > 0,
    ensures
        tree[0].tasks@.len() == 0 <==> forall|j: int| 0 <= j < tasks.len() ==> (#[trigger] tasks[j]).root_id != wishes[0].id,
        tree[0].tasks@.len() > 0 ==> exists|j: int| {
            &&& 0 <= j < tasks.len()
            &&& tasks[j] == tree[0].tasks@[0]
            &&& tasks[j].root_id == wishes[0].id
            &&& forall|j2: int| 0 <= j2 < j ==> (#[trigger] tasks[j2]).root_id != wishes[0].id
        },
{
    let idx = lemma_tree_block_selects_tasks(tree, wishes, tasks, 0);
    if tree[0].tasks@.len() == 0 {
        assert forall|j: int| 0 <= j < tasks.len() implies (#[trigger] tasks[j]).root_id != wishes[0].id by {
            if tasks[j].root_id == wishes[0].id {
                let k = choose|k: int| 0 <= k < idx.len() && idx[k] == j;
            }
        }
    } else {
        let j = idx[0];
        assert(0 <= j < tasks.len() && tasks[j] == tree[0].tasks@[0]);
        assert(exists|k: int| 0 <= k < idx.len() && idx[k] == j);
        assert forall|j2: int| 0 <= j2 < j implies (#[trigger] tasks[j2]).root_id != wishes[0].id by {
            if tasks[j2].root_id == wishes[0].id {
                let k = choose|k: int| 0 <= k < idx.len() && idx[k] == j2;
                if k > 0 {
                    assert(idx[0] < idx[k]);
                }
            }
        }
        assert(!(forall|j3: int| 0 <= j3 < tasks.len() ==> (#[trigger] tasks[j3]).root_id != wishes[0].id)) by {
            assert(tasks[j].root_id == wishes[0].id);
        }
    }
}

} // verus!
