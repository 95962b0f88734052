use vstd::prelude::*;

verus! {

/// The side a pane splits toward.
#[derive(Clone, Copy, Debug, PartialEq, Eq, Structural)]
pub enum SplitDirection {
    Up,
    Down,
    Left,
    Right,
}

/// What a pane tells its owner.
#[derive(Clone, Copy, Debug, PartialEq, Eq, Structural)]
pub enum Event {
    Activate,
    Remove,
    Split(SplitDirection),
}

/// A worktree entry: the worktree's id and the entry's.
#[derive(Clone, Copy, Debug, PartialEq, Eq, Structural)]
pub struct EntryId(pub usize, pub usize);

/// An item shown in a pane: its view id, and the worktree entry it shows, if
/// any.
#[derive(Clone, Copy, Debug, PartialEq, Eq, Structural)]
pub struct ItemHandle {
    pub id: usize,
    pub entry_id: Option<EntryId>,
}

/// The title of a tab and whether it is the active one.
#[derive(Clone, Debug, PartialEq, Eq)]
pub struct TabState {
    pub title: String,
    pub active: bool,
}

/// A row of tabs, one of them active.
pub struct Pane {
    items: Vec<ItemHandle>,
    active_item: usize,
}

impl Pane {
    pub closed spec fn items_spec(&self) -> Seq<ItemHandle> {
        self.items@
    }

    pub closed spec fn active_spec(&self) -> nat {
        self.active_item as nat
    }

    /// The active index is that of an item, or 0 when there is none.
    pub open spec fn wf(&self) -> bool {
        if self.items_spec().len() == 0 {
            self.active_spec() == 0
        } else {
            self.active_spec() < self.items_spec().len()
        }
    }

    pub fn new() -> (r: Pane)
        ensures
            r.wf(),
            r.items_spec().len() == 0,
            r.active_spec() == 0,
    {
        Pane { items: Vec::new(), active_item: 0 }
    }

    /// The event that asks the owner to make this pane active.
    pub fn activate(&self) -> (r: Event)
        ensures
            r == Event::Activate,
    {
        Event::Activate
    }

    /// Inserts `item` after the active one and returns its index.
    pub fn add_item(&mut self, item: ItemHandle) -> (r: usize)
        requires
            old(self).wf(),
        ensures
            final(self).wf(),
            r == if old(self).active_spec() + 1 < old(self).items_spec().len() {
                (old(self).active_spec() + 1) as int
            } else {
                old(self).items_spec().len() as int
            },
            final(self).items_spec() == old(self).items_spec().insert(r as int, item),
            final(self).active_spec() == old(self).active_spec(),
    {
        let len = self.items.len();
        let item_idx = if len > 0 && self.active_item < len - 1 {
            self.active_item + 1
        } else {
            self.items.len()
        };
        self.items.insert(item_idx, item);
        item_idx
    }

    pub fn items(&self) -> (r: &Vec<ItemHandle>)
        ensures
            r@ == self.items_spec(),
    {
        &self.items
    }

    pub fn active_item(&self) -> (r: Option<ItemHandle>)
        ensures
            self.active_spec() < self.items_spec().len() ==> r == Some(
                self.items_spec()[self.active_spec() as int],
            ),
            self.active_spec() >= self.items_spec().len() ==> r is None,
    {
        if self.active_item < self.items.len() {
            Some(self.items[self.active_item])
        } else {
            None
        }
    }

    /// Activates the first item that shows `entry_id`, if one does.
    pub fn activate_entry(&mut self, entry_id: EntryId) -> (r: bool)
        requires
            old(self).wf(),
        ensures
            final(self).wf(),
            final(self).items_spec() == old(self).items_spec(),
            r == exists|i: int|
                0 <= i < old(self).items_spec().len() && (#[trigger] old(self).items_spec()[i]).entry_id
                    == Some(entry_id),
            r ==> final(self).items_spec()[final(self).active_spec() as int].entry_id == Some(entry_id)
                && forall|i: int|
                0 <= i < final(self).active_spec() ==> (#[trigger] old(self).items_spec()[i]).entry_id
                    != Some(entry_id),
            !r ==> final(self).active_spec() == old(self).active_spec(),
    {
        let mut i: usize = 0;
        while i < self.items.len()
            invariant
                self.wf(),
                self.items_spec() == old(self).items_spec(),
                self.active_spec() == old(self).active_spec(),
                i <= self.items_spec().len(),
                forall|k: int|
                    0 <= k < i ==> (#[trigger] self.items_spec()[k]).entry_id != Some(entry_id),
            decreases self.items_spec().len() - i,
        {
            if self.items[i].entry_id == Some(entry_id) {
                proof {
                    assert(old(self).items_spec()[i as int].entry_id == Some(entry_id));
                }
                self.activate_item(i);
                return true;
            }
            i = i + 1;
        }
        false
    }

    /// The index of the item with the id of `item`.
    pub fn item_index(&self, item: &ItemHandle) -> (r: Option<usize>)
        ensures
            r is None <==> forall|i: int|
                0 <= i < self.items_spec().len() ==> (#[trigger] self.items_spec()[i]).id != item.id,
            r matches Some(i) ==> i < self.items_spec().len() && self.items_spec()[i as int].id
                == item.id && forall|k: int|
                0 <= k < i ==> (#[trigger] self.items_spec()[k]).id != item.id,
    {
        let mut i: usize = 0;
        while i < self.items.len()
            invariant
                i <= self.items_spec().len(),
                forall|k: int| 0 <= k < i ==> (#[trigger] self.items_spec()[k]).id != item.id,
            decreases self.items_spec().len() - i,
        {
            if self.items[i].id == item.id {
                return Some(i);
            }
            i = i + 1;
        }
        None
    }

    /// Activates item `index`, if there is one; returns the item to focus.
    pub fn activate_item(&mut self, index: usize) -> (r: Option<ItemHandle>)
        requires
            old(self).wf(),
        ensures
            final(self).wf(),
            final(self).items_spec() == old(self).items_spec(),
            final(self).active_spec() == if index < old(self).items_spec().len() {
                index as nat
            } else {
                old(self).active_spec()
            },
            index < old(self).items_spec().len() ==> r == Some(old(self).items_spec()[index as int]),
            index >= old(self).items_spec().len() ==> r is None,
    {
        if index < self.items.len() {
            self.active_item = index;
            self.focus_active_item()
        } else {
            None
        }
    }

    /// Activates the item before the active one, the last after the first.
    pub fn activate_prev_item(&mut self) -> (r: Option<ItemHandle>)
        requires
            old(self).wf(),
        ensures
            final(self).wf(),
            final(self).items_spec() == old(self).items_spec(),
            final(self).active_spec() == if old(self).active_spec() > 0 {
                (old(self).active_spec() - 1) as nat
            } else if old(self).items_spec().len() > 0 {
                (old(self).items_spec().len() - 1) as nat
            } else {
                0
            },
            r == if final(self).items_spec().len() > 0 {
                Some(final(self).items_spec()[final(self).active_spec() as int])
            } else {
                None::<ItemHandle>
            },
    {
        if self.active_item > 0 {
            self.active_item = self.active_item - 1;
        } else if self.items.len() > 0 {
            self.active_item = self.items.len() - 1;
        }
        self.focus_active_item()
    }

    /// Activates the item after the active one, the first after the last.
    pub fn activate_next_item(&mut self) -> (r: Option<ItemHandle>)
        requires
            old(self).wf(),
        ensures
            final(self).wf(),
            final(self).items_spec() == old(self).items_spec(),
            final(self).active_spec() == if old(self).active_spec() + 1 < old(
                self,
            ).items_spec().len() {
                old(self).active_spec() + 1
            } else {
                0
            },
            r == if final(self).items_spec().len() > 0 {
                Some(final(self).items_spec()[final(self).active_spec() as int])
            } else {
                None::<ItemHandle>
            },
    {
        let len = self.items.len();
        if len > 0 && self.active_item < len - 1 {
            self.active_item = self.active_item + 1;
        } else {
            self.active_item = 0;
        }
        self.focus_active_item()
    }

    /// Closes the active item; asks for the pane's removal when none is left.
    pub fn close_active_item(&mut self) -> (r: Option<Event>)
        requires
            old(self).wf(),
        ensures
            final(self).wf(),
            old(self).items_spec().len() > 0 ==> final(self).items_spec() == old(
                self,
            ).items_spec().remove(old(self).active_spec() as int),
            old(self).items_spec().len() == 0 ==> final(self).items_spec() == old(self).items_spec(),
            final(self).active_spec() == if old(self).active_spec() < final(self).items_spec().len() {
                old(self).active_spec()
            } else if final(self).items_spec().len() > 0 {
                (final(self).items_spec().len() - 1) as nat
            } else {
                0
            },
            r == if final(self).items_spec().len() == 0 {
                Some(Event::Remove)
            } else {
                None
            },
    {
        if self.items.len() > 0 {
            self.items.remove(self.active_item);
            if self.active_item >= self.items.len() {
                self.active_item = if self.items.len() > 0 {
                    self.items.len() - 1
                } else {
                    0
                };
            }
        }
        if self.items.len() == 0 {
            Some(Event::Remove)
        } else {
            None
        }
    }

    /// The item to give the focus to: the active one.
    fn focus_active_item(&self) -> (r: Option<ItemHandle>)
        requires
            self.wf(),
        ensures
            r == if self.items_spec().len() > 0 {
                Some(self.items_spec()[self.active_spec() as int])
            } else {
                None::<ItemHandle>
            },
    {
        self.active_item()
    }

    /// The event that asks the owner to split this pane.
    pub fn split(&self, direction: SplitDirection) -> (r: Event)
        ensures
            r == Event::Split(direction),
    {
        Event::Split(direction)
    }
}

} // verus!
