use chrono::NaiveDate;
use vstd::prelude::*;

verus! {

// A calendar date of chrono; the library only carries it.
#[verifier::external_type_specification]
#[verifier::external_body]
pub struct ExNaiveDate(NaiveDate);

/// An instant in UTC: whole seconds since the Unix epoch and the nanoseconds
/// past that second (above one billion only inside a leap second).
#[derive(Clone, Copy, Debug, PartialEq, Eq)]
pub struct UtcTime {
    pub secs: i64,
    pub nanos: u32,
}

/// Something one wants to reach by a deadline.
#[derive(Debug)]
pub struct Wish {
    pub id: i32,
    pub title: String,
    pub deadline: Option<NaiveDate>,
    /// How much it matters: whether it must be done or is only wanted.
    pub priority: i32,
}

/// A task that has been completed, and when.
#[derive(Debug)]
pub struct DoneTask {
    pub id: i32,
    pub root_id: i32,
    pub title: String,
    pub completed_at: UtcTime,
}

/// A small step towards a wish, described by what it takes, what to do and
/// when it is done.
#[derive(Debug)]
pub struct Task {
    pub id: i32,
    /// The id of the wish that the task belongs to.
    pub root_id: i32,
    pub title: String,
    /// What to prepare.
    pub input: Option<String>,
    /// The concrete steps, small enough for a minute or two.
    pub action: String,
    /// When the task counts as done.
    pub output: String,
    /// What not to do, or where the task may stop.
    pub not_to_do: Option<String>,
    /// When to do it.
    pub scheduled_at: Option<String>,
    /// Difficulty and score, from 1 to 3.
    pub weight: i32,
}

impl Clone for Wish {
    fn clone(&self) -> (r: Self)
        ensures r == *self,
    {
        Wish { id: self.id, title: self.title.clone(), deadline: self.deadline, priority: self.priority }
    }
}

impl Clone for DoneTask {
    fn clone(&self) -> (r: Self)
        ensures r == *self,
    {
        DoneTask {
            id: self.id,
            root_id: self.root_id,
            title: self.title.clone(),
            completed_at: self.completed_at,
        }
    }
}

/// A wish together with the tasks that lead to it.
#[derive(Debug)]
pub struct WishBlock {
    pub wish: Wish,
    pub tasks: Vec<Task>,
}

impl Clone for WishBlock {
    fn clone(&self) -> (r: Self)
        ensures
            r.wish == self.wish,
            r.tasks@ == self.tasks@,
    {
        let tasks = self.tasks.clone();
        assert forall|i: int| 0 <= i < tasks@.len() implies tasks@[i] == self.tasks@[i] by {
            assert(cloned::<Task>(self.tasks[i], tasks[i]));
        }
        WishBlock { wish: self.wish.clone(), tasks }
    }
}

fn clone_text(s: &Option<String>) -> (r: Option<String>)
    ensures r == *s,
{
    match s {
        Some(t) => Some(t.clone()),
        None => None,
    }
}

impl Clone for Task {
    fn clone(&self) -> (r: Self)
        ensures r == *self,
    {
        Task {
            id: self.id,
            root_id: self.root_id,
            title: self.title.clone(),
            input: clone_text(&self.input),
            action: self.action.clone(),
            output: self.output.clone(),
            not_to_do: clone_text(&self.not_to_do),
            scheduled_at: clone_text(&self.scheduled_at),
            weight: self.weight,
        }
    }
}

} // verus!
