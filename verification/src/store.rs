//! The task store: two ordered sequences of tasks, `pending` and `done`,
//! with the insert / complete / delete / list operations.

use vstd::prelude::*;
use vstd::string::StringExecFns;

verus! {

/// A single to-do entry: a title and a free-form status label.
pub struct TodoItem {
    pub title: String,
    pub status: String,
}

/// The mathematical value of a [`TodoItem`]: its two text fields as
/// character sequences.
#[verifier::ext_equal]
pub struct ItemView {
    pub title: Seq<char>,
    pub status: Seq<char>,
}

impl View for TodoItem {
    type V = ItemView;

    open spec fn view(&self) -> ItemView {
        ItemView { title: self.title@, status: self.status@ }
    }
}

/// The whole task list: tasks not yet completed (`pending`, in insertion
/// order) and completed tasks (`done`, in completion order). Tasks are
/// addressed by their position in the sequence they currently belong to.
pub struct TodoList {
    pub pending: Vec<TodoItem>,
    pub done: Vec<TodoItem>,
}

/// The mathematical value of a [`TodoList`]: the two task sequences.
#[verifier::ext_equal]
pub struct ListView {
    pub pending: Seq<ItemView>,
    pub done: Seq<ItemView>,
}

/// The views of the items of `s`, in order.
pub open spec fn items_view(s: Seq<TodoItem>) -> Seq<ItemView> {
    s.map_values(|it: TodoItem| it@)
}

impl View for TodoList {
    type V = ListView;

    open spec fn view(&self) -> ListView {
        ListView { pending: items_view(self.pending@), done: items_view(self.done@) }
    }
}

/// The status label that `complete` stamps on a task.
pub open spec fn done_marker() -> Seq<char> {
    seq!['D', 'O', 'N', 'E']
}

/// The message carried by the index-out-of-range failure.
pub open spec fn invalid_index_msg() -> Seq<char> {
    seq!['I', 'n', 'v', 'a', 'l', 'i', 'd', ' ', 'i', 'n', 'd', 'e', 'x']
}

/// The list after appending a task to `pending`; `done` is untouched.
pub open spec fn insert_spec(v: ListView, it: ItemView) -> ListView {
    ListView { pending: v.pending.push(it), done: v.done }
}

/// The list after completing the pending task at `i`: it leaves `pending`,
/// and joins the end of `done` with its status overwritten by the marker.
pub open spec fn complete_spec(v: ListView, i: int) -> ListView {
    ListView {
        pending: v.pending.remove(i),
        done: v.done.push(ItemView { title: v.pending[i].title, status: done_marker() }),
    }
}

/// The list after deleting the pending task at `i`; `done` is untouched.
pub open spec fn delete_spec(v: ListView, i: int) -> ListView {
    ListView { pending: v.pending.remove(i), done: v.done }
}

/// Completing a task at a valid pending index strictly shrinks `pending` by
/// one and strictly grows `done` by one; the moved task keeps its title, its
/// status becomes the `DONE` marker whatever it was before, and the tasks
/// already done stay as they were.
pub proof fn lemma_complete_moves_one(v: ListView, i: int)
    requires
        0 <= i < v.pending.len(),
    ensures
        complete_spec(v, i).pending.len() == v.pending.len() - 1,
        complete_spec(v, i).done.len() == v.done.len() + 1,
        complete_spec(v, i).done.last().title == v.pending[i].title,
        complete_spec(v, i).done.last().status == done_marker(),
        complete_spec(v, i).done.subrange(0, v.done.len() as int) == v.done,
{
    assert(complete_spec(v, i).done.subrange(0, v.done.len() as int) =~= v.done);
}

/// Deleting a task at a valid pending index shrinks `pending` by one and
/// leaves `done` exactly as it was.
pub proof fn lemma_delete_shrinks_pending(v: ListView, i: int)
    requires
        0 <= i < v.pending.len(),
    ensures
        delete_spec(v, i).pending.len() == v.pending.len() - 1,
        delete_spec(v, i).done == v.done,
{
}

/// An inserted task shows up as the last pending entry, with its status
/// exactly as supplied; the earlier pending tasks and all of `done` stay as
/// they were.
pub proof fn lemma_insert_appends(v: ListView, it: ItemView)
    ensures
        insert_spec(v, it).pending.len() == v.pending.len() + 1,
        insert_spec(v, it).pending.last() == it,
        insert_spec(v, it).pending.subrange(0, v.pending.len() as int) == v.pending,
        insert_spec(v, it).done == v.done,
{
    assert(insert_spec(v, it).pending.subrange(0, v.pending.len() as int) =~= v.pending);
}

impl TodoList {
    /// An empty task list.
    pub fn new() -> (r: TodoList)
        ensures
            r@.pending == Seq::<ItemView>::empty(),
            r@.done == Seq::<ItemView>::empty(),
    {
        let r = TodoList { pending: Vec::new(), done: Vec::new() };
        proof {
            assert(r@.pending =~= Seq::<ItemView>::empty());
            assert(r@.done =~= Seq::<ItemView>::empty());
        }
        r
    }

    /// Appends a new task to `pending`; `done` is untouched. The
    /// caller-supplied status is stored as given. Always succeeds.
    pub fn insert(&mut self, item: TodoItem)
        ensures
            final(self)@ == insert_spec(old(self)@, item@),
    {
        self.pending.push(item);
        proof {
            assert(final(self)@ =~= insert_spec(old(self)@, item@));
        }
    }

    /// Moves the pending task at `index` to the end of `done`, overwriting
    /// its status with the `DONE` marker; later pending tasks shift down by
    /// one. Fails, mutating nothing, exactly when `index` is out of range.
    pub fn complete(&mut self, index: usize) -> (r: Result<(), String>)
        ensures
            index < old(self)@.pending.len() ==> {
                &&& r is Ok
                &&& final(self)@ == complete_spec(old(self)@, index as int)
            },
            index >= old(self)@.pending.len() ==> {
                &&& r is Err
                &&& r matches Err(m) && m@ == invalid_index_msg()
                &&& final(self)@ == old(self)@
            },
    {
        if index >= self.pending.len() {
            let msg = String::from_str("Invalid index");
            proof {
                reveal_strlit("Invalid index");
                assert(msg@ =~= invalid_index_msg());
            }
            return Err(msg);
        }
        let mut item = self.pending.remove(index);
        item.status = String::from_str("DONE");
        proof {
            reveal_strlit("DONE");
            assert(item.status@ =~= done_marker());
        }
        self.done.push(item);
        proof {
            assert(final(self)@ =~= complete_spec(old(self)@, index as int));
        }
        Ok(())
    }

    /// Removes the pending task at `index`; later pending tasks shift down
    /// by one and `done` is untouched. Fails, mutating nothing, exactly when
    /// `index` is out of range.
    pub fn delete(&mut self, index: usize) -> (r: Result<(), String>)
        ensures
            index < old(self)@.pending.len() ==> {
                &&& r is Ok
                &&& final(self)@ == delete_spec(old(self)@, index as int)
            },
            index >= old(self)@.pending.len() ==> {
                &&& r is Err
                &&& r matches Err(m) && m@ == invalid_index_msg()
                &&& final(self)@ == old(self)@
            },
    {
        if index >= self.pending.len() {
            let msg = String::from_str("Invalid index");
            proof {
                reveal_strlit("Invalid index");
                assert(msg@ =~= invalid_index_msg());
            }
            return Err(msg);
        }
        self.pending.remove(index);
        proof {
            assert(final(self)@ =~= delete_spec(old(self)@, index as int));
        }
        Ok(())
    }

    /// Enumerates both sequences for display: each task with its current
    /// 0-based position, pending first, done second. No filtering or
    /// reordering.
    pub fn list(&self) -> (r: (Vec<(usize, TodoItem)>, Vec<(usize, TodoItem)>))
        ensures
            r.0@.len() == self@.pending.len(),
            forall|i: int|
                0 <= i < r.0@.len() ==> (#[trigger] r.0@[i]).0 == i && r.0@[i].1@
                    == self@.pending[i],
            r.1@.len() == self@.done.len(),
            forall|i: int|
                0 <= i < r.1@.len() ==> (#[trigger] r.1@[i]).0 == i && r.1@[i].1@
                    == self@.done[i],
    {
        let mut pending: Vec<(usize, TodoItem)> = Vec::new();
        let mut i: usize = 0;
        while i < self.pending.len()
            invariant
                i <= self.pending.len(),
                pending@.len() == i,
                forall|j: int|
                    0 <= j < i ==> (#[trigger] pending@[j]).0 == j && pending@[j].1@
                        == self@.pending[j],
            decreases self.pending.len() - i,
        {
            let it = &self.pending[i];
            pending.push((i, TodoItem { title: it.title.clone(), status: it.status.clone() }));
            proof {
                assert(pending@[i as int].1@ =~= self@.pending[i as int]);
            }
            i = i + 1;
        }
        let mut done: Vec<(usize, TodoItem)> = Vec::new();
        let mut k: usize = 0;
        while k < self.done.len()
            invariant
                k <= self.done.len(),
                done@.len() == k,
                forall|j: int|
                    0 <= j < k ==> (#[trigger] done@[j]).0 == j && done@[j].1@
                        == self@.done[j],
            decreases self.done.len() - k,
        {
            let it = &self.done[k];
            done.push((k, TodoItem { title: it.title.clone(), status: it.status.clone() }));
            proof {
                assert(done@[k as int].1@ =~= self@.done[k as int]);
            }
            k = k + 1;
        }
        (pending, done)
    }
}

} // verus!
