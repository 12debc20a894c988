use crate::models::{Task, Wish, WishBlock};
use vstd::prelude::*;

verus! {

/// The tasks of `tasks` that belong to the wish with id `wish_id`, in their order.
pub open spec fn tasks_of(tasks: Seq<Task>, wish_id: i32) -> Seq<Task> {
    tasks.filter(task_of_wish(wish_id))
}

/// Whether a task belongs to the wish with id `wish_id`.
pub open spec fn task_of_wish(wish_id: i32) -> spec_fn(Task) -> bool {
    |t: Task| t.root_id == wish_id
}

/// Whether `tree` is the tree of `wishes` and `tasks`: one block per wish, in
/// the order of `wishes`, each holding the wish's tasks in the order of `tasks`.
pub open spec fn is_tree_of(tree: Seq<WishBlock>, wishes: Seq<Wish>, tasks: Seq<Task>) -> bool {
    &&& tree.len() == wishes.len()
    &&& forall|i: int|
        0 <= i < tree.len() ==> {
            &&& #[trigger] tree[i].wish == wishes[i]
            &&& tree[i].tasks@ == tasks_of(tasks, wishes[i].id)
        }
}

/// The blocks of `tree` whose wish has id `id`, in their order.
pub open spec fn blocks_with_id(tree: Seq<WishBlock>, id: i32) -> Seq<WishBlock> {
    tree.filter(wish_has_id(id))
}

/// Whether a block's wish has the id `id`.
pub open spec fn wish_has_id(id: i32) -> spec_fn(WishBlock) -> bool {
    |b: WishBlock| b.wish.id == id
}

/// The first task of the first block, if the tree has a first block and it has a task.
pub open spec fn next_todo(tree: Seq<WishBlock>) -> Option<Task> {
    if tree.len() > 0 && tree[0].tasks@.len() > 0 {
        Some(tree[0].tasks@[0])
    } else {
        None
    }
}

/// The next task to do: the first task of the first wish block. The blocks
/// are expected nearest deadline first, so this is the first task of the most
/// urgent wish; when that wish has no task there is none.
pub fn calc_next_todo(tree: Vec<WishBlock>) -> (r: Option<Task>)
    ensures
        r == next_todo(tree@),
        tree@.len() == 0 ==> r is None,
        tree@.len() > 0 && tree@[0].tasks@.len() == 0 ==> r is None,
        tree@.len() > 0 && tree@[0].tasks@.len() > 0 ==> r == Some(tree@[0].tasks@[0]),
{
    if tree.len() > 0 && tree[0].tasks.len() > 0 {
        Some(tree[0].tasks[0].clone())
    } else {
        None
    }
}

/// The blocks of `tree` whose wish has the id `id`, in their order.
pub fn get_single_wish(id: i32, tree: Vec<WishBlock>) -> (r: Vec<WishBlock>)
    ensures
        r@ == blocks_with_id(tree@, id),
{
    let ghost blocks = tree@;
    let ghost pred = wish_has_id(id);
    let mut r: Vec<WishBlock> = Vec::new();
    for b in it: tree.into_iter()
        invariant
            it.seq() == blocks,
            pred == wish_has_id(id),
            r@ == blocks.take(it.index() as int).filter(pred),
    {
        let ghost i = it.index();
        assert(b == blocks[i]);
        proof {
            assert(blocks.take(i + 1) == blocks.take(i as int).push(b));
            blocks.take(i as int).lemma_filter_push(b, pred);
        }
        if b.wish.id == id {
            r.push(b);
        }
    }
    assert(blocks.take(blocks.len() as int) == blocks);
    r
}

} // verus!

verus! {

/// The tasks of `tasks` that belong to the wish with id `wish_id`, cloned, in their order.
fn related_tasks(tasks: &Vec<Task>, wish_id: i32) -> (r: Vec<Task>)
    ensures
        r@ == tasks_of(tasks@, wish_id),
{
    let ghost pred = task_of_wish(wish_id);
    let mut r: Vec<Task> = Vec::new();
    for i in 0..tasks.len()
        invariant
            pred == task_of_wish(wish_id),
            r@ == tasks@.take(i as int).filter(pred),
    {
        let t = tasks[i].clone();
        proof {
            assert(tasks@.take(i + 1) == tasks@.take(i as int).push(t));
            tasks@.take(i as int).lemma_filter_push(t, pred);
        }
        if t.root_id == wish_id {
            r.push(t);
        }
    }
    assert(tasks@.take(tasks@.len() as int) == tasks@);
    r
}

/// Builds the tree: for each wish, in order, a block with the tasks whose
/// `root_id` is that wish's id, in the order of `tasks`.
pub fn make_tree(wishes: Vec<Wish>, tasks: Vec<Task>) -> (r: Vec<WishBlock>)
    ensures
        is_tree_of(r@, wishes@, tasks@),
        r@.len() == wishes@.len(),
        forall|i: int| 0 <= i < r@.len() ==> #[trigger] r@[i].wish == wishes@[i],
{
    let ghost ws = wishes@;
    let mut r: Vec<WishBlock> = Vec::new();
    for wish in it: wishes.into_iter()
        invariant
            it.seq() == ws,
            r@.len() == it.index(),
            forall|j: int|
                0 <= j < r@.len() ==> {
                    &&& #[trigger] r@[j].wish == ws[j]
                    &&& r@[j].tasks@ == tasks_of(tasks@, ws[j].id)
                },
    {
        let related = related_tasks(&tasks, wish.id);
        r.push(WishBlock { wish: wish, tasks: related });
    }
    r
}

} // verus!
