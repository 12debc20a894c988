use chrono::NaiveDate;
use nagarestar::calc::{calc_next_todo, get_single_wish, make_tree};
use nagarestar::models::{DoneTask, Task, UtcTime, Wish, WishBlock};

fn wish(id: i32, title: &str, day: u32) -> Wish {
    Wish {
        id,
        title: title.to_string(),
        deadline: NaiveDate::from_ymd_opt(2025, 1, day),
        priority: 1,
    }
}

fn task(id: i32, root_id: i32, title: &str) -> Task {
    Task {
        id,
        root_id,
        title: title.to_string(),
        input: Some(format!("input {}", id)),
        action: format!("action {}", id),
        output: format!("output {}", id),
        not_to_do: None,
        scheduled_at: Some("morning".to_string()),
        weight: 2,
    }
}

fn ids(tasks: &[Task]) -> Vec<i32> {
    tasks.iter().map(|t| t.id).collect()
}

fn wish_ids(tree: &[WishBlock]) -> Vec<i32> {
    tree.iter().map(|b| b.wish.id).collect()
}

fn sample_tree() -> Vec<WishBlock> {
    make_tree(
        vec![wish(1, "run", 3), wish(2, "read", 5), wish(3, "cook", 9)],
        vec![
            task(10, 2, "buy book"),
            task(11, 1, "buy shoes"),
            task(12, 1, "run 1km"),
            task(13, 7, "orphan"),
            task(14, 2, "read chapter"),
        ],
    )
}

#[test]
fn next_todo_of_empty_tree_is_none() {
    assert!(calc_next_todo(Vec::new()).is_none());
}

#[test]
fn next_todo_is_first_task_of_first_block() {
    let next = calc_next_todo(sample_tree()).unwrap();
    assert_eq!(next.id, 11);
    assert_eq!(next.title, "buy shoes");
    assert_eq!(next.input, Some("input 11".to_string()));
    assert_eq!(next.weight, 2);
}

#[test]
fn next_todo_is_none_when_first_block_has_no_task() {
    let tree = make_tree(
        vec![wish(1, "run", 3), wish(2, "read", 5)],
        vec![task(10, 2, "buy book")],
    );
    assert!(calc_next_todo(tree).is_none());
}

#[test]
fn make_tree_groups_tasks_by_wish_in_order() {
    let tree = sample_tree();
    assert_eq!(wish_ids(&tree), vec![1, 2, 3]);
    assert_eq!(tree[0].wish.title, "run");
    assert_eq!(tree[0].wish.deadline, NaiveDate::from_ymd_opt(2025, 1, 3));
    assert_eq!(ids(&tree[0].tasks), vec![11, 12]);
    assert_eq!(ids(&tree[1].tasks), vec![10, 14]);
    assert!(tree[2].tasks.is_empty());
}

#[test]
fn make_tree_drops_tasks_without_wish() {
    let tree = sample_tree();
    let all: Vec<i32> = tree.iter().flat_map(|b| ids(&b.tasks)).collect();
    assert!(!all.contains(&13));
    assert_eq!(all.len(), 4);
}

#[test]
fn make_tree_of_nothing_is_empty() {
    assert!(make_tree(Vec::new(), vec![task(1, 1, "x")]).is_empty());
}

#[test]
fn make_tree_gives_each_wish_of_one_id_the_same_tasks() {
    let tree = make_tree(
        vec![wish(4, "a", 1), wish(4, "b", 2)],
        vec![task(1, 4, "x"), task(2, 5, "y")],
    );
    assert_eq!(ids(&tree[0].tasks), vec![1]);
    assert_eq!(ids(&tree[1].tasks), vec![1]);
}

#[test]
fn single_wish_keeps_only_that_id() {
    let picked = get_single_wish(2, sample_tree());
    assert_eq!(wish_ids(&picked), vec![2]);
    assert_eq!(ids(&picked[0].tasks), vec![10, 14]);
}

#[test]
fn single_wish_of_unknown_id_is_empty() {
    assert!(get_single_wish(42, sample_tree()).is_empty());
}

#[test]
fn single_wish_keeps_all_matches_in_order() {
    let tree = make_tree(
        vec![wish(4, "a", 1), wish(5, "b", 2), wish(4, "c", 3)],
        Vec::new(),
    );
    let picked = get_single_wish(4, tree);
    let titles: Vec<String> = picked.iter().map(|b| b.wish.title.clone()).collect();
    assert_eq!(titles, vec!["a".to_string(), "c".to_string()]);
}

#[test]
fn single_wish_twice_is_single_wish_once() {
    let once = get_single_wish(1, sample_tree());
    let twice = get_single_wish(1, get_single_wish(1, sample_tree()));
    assert_eq!(wish_ids(&once), wish_ids(&twice));
    assert_eq!(ids(&once[0].tasks), ids(&twice[0].tasks));
}

#[test]
fn single_wish_of_tree_is_tree_of_that_wish() {
    let tasks = || {
        vec![task(10, 2, "buy book"), task(11, 1, "buy shoes"), task(14, 2, "read chapter")]
    };
    let picked = get_single_wish(2, make_tree(vec![wish(1, "run", 3), wish(2, "read", 5)], tasks()));
    let direct = make_tree(vec![wish(2, "read", 5)], tasks());
    assert_eq!(wish_ids(&picked), wish_ids(&direct));
    assert_eq!(ids(&picked[0].tasks), ids(&direct[0].tasks));
}

#[test]
fn next_todo_of_tree_is_first_task_of_first_wish() {
    let tree = make_tree(
        vec![wish(3, "cook", 1), wish(1, "run", 2)],
        vec![task(20, 1, "x"), task(21, 3, "y"), task(22, 3, "z")],
    );
    assert_eq!(calc_next_todo(tree).unwrap().id, 21);
}

#[test]
fn clones_keep_every_field() {
    let t = task(5, 6, "title");
    let c = t.clone();
    assert_eq!((c.id, c.root_id, c.title.clone()), (5, 6, "title".to_string()));
    assert_eq!((c.input, c.action, c.output), (t.input, t.action, t.output));
    assert_eq!((c.not_to_do, c.scheduled_at, c.weight), (t.not_to_do, t.scheduled_at, t.weight));
    let b = sample_tree().remove(1);
    let bc = b.clone();
    assert_eq!(bc.wish.id, 2);
    assert_eq!(bc.wish.deadline, b.wish.deadline);
    assert_eq!(ids(&bc.tasks), ids(&b.tasks));
    let w = wish(9, "w", 7).clone();
    assert_eq!((w.id, w.title, w.priority), (9, "w".to_string(), 1));
    let d = DoneTask { id: 1, root_id: 2, title: "t".to_string(), completed_at: UtcTime { secs: 100, nanos: 5 } };
    let dc = d.clone();
    assert_eq!((dc.id, dc.root_id, dc.title, dc.completed_at), (1, 2, "t".to_string(), UtcTime { secs: 100, nanos: 5 }));
}
