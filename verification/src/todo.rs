//! The to-do items and the list that owns them.
//!
//! A list keeps its items in display order. The id of an item is its 1-based
//! position in that order: after every mutation the ids form the contiguous
//! range `1..=len`, and `next_id` is always `len + 1`. That invariant is
//! [`TodoList::wf`], established by the constructor and preserved by every
//! operation.

use vstd::prelude::*;

verus! {

/// The mathematical content of one item: its id, its creation time in
/// seconds since the Unix epoch, and its text.
pub ghost struct ItemModel {
    pub id: int,
    pub date: int,
    pub content: Seq<char>,
}

/// The mathematical content of a whole list.
pub ghost struct ListModel {
    pub items: Seq<ItemModel>,
    pub next_id: int,
}

/// One to-do entry.
#[derive(Debug, PartialEq)]
pub struct Todo {
    /// 1-based position of the item in the list.
    pub item_id: usize,
    /// Creation time, in seconds since the Unix epoch.
    pub date_time: i64,
    /// The free text of the entry.
    pub item_content: String,
}

impl View for Todo {
    type V = ItemModel;

    open spec fn view(&self) -> ItemModel {
        ItemModel {
            id: self.item_id as int,
            date: self.date_time as int,
            content: self.item_content@,
        }
    }
}

/// The items of a sequence of entries, as their models.
pub open spec fn items_model(s: Seq<Todo>) -> Seq<ItemModel> {
    s.map_values(|t: Todo| t@)
}

/// The ordered to-do list plus the counter for the next fresh id.
#[derive(Debug, PartialEq)]
pub struct TodoList {
    pub list: Vec<Todo>,
    pub next_id: usize,
}

impl View for TodoList {
    type V = ListModel;

    open spec fn view(&self) -> ListModel {
        ListModel { items: items_model(self.list@), next_id: self.next_id as int }
    }
}

impl TodoList {
    /// Dense-id invariant: ids are the contiguous range `1..=len` in display
    /// order, and `next_id` is one past the count.
    pub open spec fn wf(&self) -> bool {
        &&& self.next_id == self.list@.len() + 1
        &&& forall|i: int|
            0 <= i < self.list@.len() ==> (#[trigger] self.list@[i]).item_id == i + 1
    }

    /// The empty list, as a fresh start or after loading an empty file.
    pub fn empty() -> (r: TodoList)
        ensures
            r.wf(),
            r@.items =~= Seq::<ItemModel>::empty(),
            r@.next_id == 1,
    {
        TodoList { list: Vec::new(), next_id: 1 }
    }

    /// Appends an item created at the given time: it gets the next fresh id
    /// and goes to the end of the list.
    pub fn add_item_at(&mut self, content: String, date_time: i64)
        requires
            old(self).wf(),
            old(self).list@.len() + 2 <= usize::MAX,
        ensures
            final(self).wf(),
            final(self)@.items =~= old(self)@.items.push(
                ItemModel {
                    id: old(self)@.next_id,
                    date: date_time as int,
                    content: content@,
                },
            ),
            final(self)@.next_id == old(self)@.next_id + 1,
    {
        let id = self.next_id;
        self.list.push(Todo { item_id: id, date_time, item_content: content });
        self.next_id = id + 1;
    }

    /// Appends an item with the given text, stamped with the current time.
    /// The new item gets the next fresh id and goes to the end of the list;
    /// its creation time is whatever the clock reported.
    pub fn add_item(&mut self, content: String)
        requires
            old(self).wf(),
            old(self).list@.len() + 2 <= usize::MAX,
        ensures
            final(self).wf(),
            final(self)@.items.len() == old(self)@.items.len() + 1,
            final(self)@.items.take(old(self)@.items.len() as int) =~= old(self)@.items,
            final(self)@.items.last().id == old(self)@.next_id,
            final(self)@.items.last().content == content@,
            final(self)@.next_id == old(self)@.next_id + 1,
    {
        let stamp = crate::now_timestamp();
        self.add_item_at(content, stamp);
    }

    /// The items in display order, for showing to the user. The list itself
    /// is untouched, so two calls without a mutation in between return the
    /// same items.
    pub fn list_items(&self) -> (r: Vec<Todo>)
        ensures
            r@ =~= self.list@,
    {
        let mut out: Vec<Todo> = Vec::new();
        let mut i: usize = 0;
        while i < self.list.len()
            invariant
                i <= self.list@.len(),
                out@ =~= self.list@.take(i as int),
            decreases self.list@.len() - i,
        {
            let t = &self.list[i];
            out.push(
                Todo {
                    item_id: t.item_id,
                    date_time: t.date_time,
                    item_content: t.item_content.clone(),
                },
            );
            i = i + 1;
        }
        out
    }

    /// Removes the items at the given 1-based positions, renumbers the rest
    /// to the contiguous range `1..=len`, and recomputes `next_id`. When any
    /// position is out of range the list is left untouched and the offending
    /// input is reported; positions may come in any order and a repeated
    /// position counts once.
    pub fn remove_items(&mut self, ids: &Vec<usize>) -> (r: Result<(), TodoError>)
        requires
            old(self).list@.len() < usize::MAX,
        ensures
            match r {
                Ok(()) => {
                    &&& forall|j: int|
                        0 <= j < ids@.len() ==> 1 <= #[trigger] ids@[j] <= old(self)@.items.len()
                    &&& final(self)@.items =~= renumber(
                        remove_positions(old(self)@.items, position_set(ids@)),
                    )
                    &&& final(self).wf()
                },
                Err(e) => {
                    &&& e == TodoError::IdOutOfRange
                    &&& *final(self) == *old(self)
                    &&& exists|j: int|
                        0 <= j < ids@.len() && !(1 <= #[trigger] ids@[j] <= old(
                            self,
                        )@.items.len())
                },
            },
    {
        let len = self.list.len();
        let mut j: usize = 0;
        while j < ids.len()
            invariant
                j <= ids@.len(),
                len == self.list@.len(),
                forall|k: int| 0 <= k < j ==> 1 <= #[trigger] ids@[k] <= len,
            decreases ids@.len() - j,
        {
            if ids[j] < 1 || ids[j] > len {
                return Err(TodoError::IdOutOfRange);
            }
            j = j + 1;
        }

        let mut kept: Vec<Todo> = Vec::new();
        let mut i: usize = 0;
        while i < self.list.len()
            invariant
                i <= self.list@.len(),
                self.list@.len() < usize::MAX,
                kept@.len() <= i,
                items_model(kept@) =~= renumber(
                    remove_positions(items_model(self.list@.take(i as int)), position_set(ids@)),
                ),
                forall|k: int| 0 <= k < kept@.len() ==> (#[trigger] kept@[k]).item_id == k + 1,
            decreases self.list@.len() - i,
        {
            proof {
                assert(items_model(self.list@.take(i + 1)).drop_last() =~= items_model(
                    self.list@.take(i as int),
                ));
                assert(items_model(self.list@.take(i + 1)).last() == self.list@[i as int]@);
            }
            let ghost rset = position_set(ids@);
            let ghost prev = remove_positions(
                items_model(self.list@.take(i as int)),
                rset,
            );
            let ghost e = self.list@[i as int]@;
            let pos = i + 1;
            if !contains_position(ids, pos) {
                let t = &self.list[i];
                let fresh_id = kept.len() + 1;
                let ghost prev_kept = kept@;
                kept.push(
                    Todo {
                        item_id: fresh_id,
                        date_time: t.date_time,
                        item_content: t.item_content.clone(),
                    },
                );
                proof {
                    assert(remove_positions(items_model(self.list@.take(i + 1)), rset) =~= prev.push(
                        e,
                    ));
                    assert(items_model(kept@) =~= items_model(prev_kept).push(
                        ItemModel { id: fresh_id as int, date: e.date, content: e.content },
                    ));
                    assert(renumber(prev.push(e)) =~= renumber(prev).push(
                        ItemModel { id: prev.len() as int + 1, date: e.date, content: e.content },
                    ));
                }
            } else {
                proof {
                    assert(remove_positions(items_model(self.list@.take(i + 1)), rset)
                        == remove_positions(items_model(self.list@.take(i as int)), rset));
                }
            }
            i = i + 1;
        }
        proof {
            assert(self.list@.take(self.list@.len() as int) =~= self.list@);
        }
        let count = kept.len();
        self.list = kept;
        self.next_id = count + 1;
        Ok(())
    }
}

/// The errors the library reports instead of aborting: a token that is not a
/// number, a position that no current item has, or persisted bytes that are
/// not a stored list.
#[derive(Debug, PartialEq, Eq, Structural, Clone, Copy)]
pub enum TodoError {
    InvalidNumber,
    IdOutOfRange,
    MalformedData,
}

/// The set of 1-based positions named by a batch of removal ids.
pub open spec fn position_set(ids: Seq<usize>) -> Set<int> {
    Set::new(|p: int| exists|j: int| 0 <= j < ids.len() && ids[j] == p)
}

/// The items left when every named 1-based position is dropped, in their
/// original relative order and with their original ids.
pub open spec fn remove_positions(items: Seq<ItemModel>, removed: Set<int>) -> Seq<ItemModel>
    decreases items.len(),
{
    if items.len() == 0 {
        Seq::empty()
    } else if removed.contains(items.len() as int) {
        remove_positions(items.drop_last(), removed)
    } else {
        remove_positions(items.drop_last(), removed).push(items.last())
    }
}

/// The same items with their ids reassigned densely: the item at 0-based
/// index `i` gets id `i + 1`.
pub open spec fn renumber(items: Seq<ItemModel>) -> Seq<ItemModel> {
    Seq::new(
        items.len(),
        |i: int| ItemModel { id: i + 1, date: items[i].date, content: items[i].content },
    )
}

/// Dense-id law: whatever was removed, the renumbered remainder carries
/// exactly the ids `1..=len` in display order, so every successful
/// removal leaves the contiguous range that [`TodoList::wf`] demands.
pub proof fn lemma_renumber_dense(items: Seq<ItemModel>)
    ensures
        renumber(items).len() == items.len(),
        forall|i: int| 0 <= i < items.len() ==> (#[trigger] renumber(items)[i]).id == i + 1,
{
}

/// Idempotence law for listing: any two results of `list_items`, taken
/// from the same list with no mutation in between, are the same items in
/// the same order.
pub proof fn lemma_list_items_idempotent(l: TodoList, r1: Seq<Todo>, r2: Seq<Todo>)
    requires
        r1 == l.list@,
        r2 == l.list@,
    ensures
        r1 == r2,
{
}

/// Whether some id in the batch names the 1-based position `pos`.
fn contains_position(ids: &Vec<usize>, pos: usize) -> (r: bool)
    ensures
        r == position_set(ids@).contains(pos as int),
{
    let mut j: usize = 0;
    while j < ids.len()
        invariant
            j <= ids@.len(),
            forall|k: int| 0 <= k < j ==> #[trigger] ids@[k] != pos,
        decreases ids@.len() - j,
    {
        if ids[j] == pos {
            assert(position_set(ids@).contains(pos as int));
            return true;
        }
        j = j + 1;
    }
    assert(!position_set(ids@).contains(pos as int));
    false
}

} // verus!
