//! The manager: an ordered collection of to-do items together with the id
//! allocator (a monotonic counter plus a pool of reclaimed ids, reused
//! last-reclaimed-first).

use vstd::prelude::*;
use vstd::assert_by_contradiction;

use crate::json;
use crate::models::{ItemView, TodoItem, TodoStatus};

verus! {

/// Whether some item of the list carries this id.
pub open spec fn id_used(items: Seq<ItemView>, k: int) -> bool {
    exists|i: int| 0 <= i < items.len() && #[trigger] items[i].id == k
}

/// The largest id in the list, or zero for an empty list.
pub open spec fn max_id(items: Seq<ItemView>) -> int
    decreases items.len(),
{
    if items.len() == 0 {
        0
    } else {
        let m = max_id(items.drop_last());
        if items.last().id > m {
            items.last().id
        } else {
            m
        }
    }
}

/// The unused ids in `[1, k]`, largest first.
pub open spec fn gaps_desc(items: Seq<ItemView>, k: int) -> Seq<int>
    decreases k,
{
    if k <= 0 {
        Seq::empty()
    } else if id_used(items, k) {
        gaps_desc(items, k - 1)
    } else {
        seq![k] + gaps_desc(items, k - 1)
    }
}

/// What a loaded item list must satisfy for the allocator state to be
/// reconstructed: positive ids that leave room for a successor, no id used
/// twice. A list that fails this check falls back to the empty manager.
pub open spec fn items_loadable(items: Seq<ItemView>) -> bool {
    &&& forall|i: int| 0 <= i < items.len() ==> 1 <= #[trigger] items[i].id < usize::MAX as int
    &&& forall|i: int, j: int|
        0 <= i < j < items.len() ==> #[trigger] items[i].id != #[trigger] items[j].id
}

/// The manager reconstructed around a loaded item list: the counter sits
/// just above the largest id, and every unused id below it is reclaimable,
/// smallest gap handed out first (the pool is popped from its end).
pub open spec fn loaded_view(items: Seq<ItemView>) -> MgrView {
    MgrView { todos: items, next_id: max_id(items) + 1, free_ids: gaps_desc(items, max_id(items)) }
}

/// Whether a persisted text is accepted by `from_json`: it parses, and its
/// items pass the load check. Text that is not accepted loads as the empty
/// manager under the empty-on-error policy.
pub open spec fn load_accepted(s: Seq<char>) -> bool {
    match json::p_top(s) {
        Some(items) => items_loadable(items),
        None => false,
    }
}

/// The manager a persisted text loads to: the reconstruction around the
/// parsed items when the text parses and the items pass the load check, and
/// the empty manager otherwise (the empty-on-error policy: an unreadable
/// file silently starts a fresh session).
pub open spec fn load_view(s: Seq<char>) -> MgrView {
    match json::p_top(s) {
        Some(items) => if items_loadable(items) {
            loaded_view(items)
        } else {
            MgrView::initial()
        },
        None => MgrView::initial(),
    }
}

/// The mathematical value of a [`TodoManager`]: the items in collection
/// order, the counter the allocator takes fresh ids from, and the reclaimed
/// ids, newest last (the allocator pops from the end).
pub ghost struct MgrView {
    pub todos: Seq<ItemView>,
    pub next_id: int,
    pub free_ids: Seq<int>,
}

impl MgrView {
    /// The manager of a fresh session: no items, ids start at 1.
    pub open spec fn initial() -> MgrView {
        MgrView { todos: Seq::empty(), next_id: 1, free_ids: Seq::empty() }
    }

    /// Well-formedness: ids are positive and below the counter, live ids are
    /// unique, and the reclaimed pool holds distinct ids of no live item.
    pub open spec fn wf(self) -> bool {
        &&& 1 <= self.next_id
        &&& forall|i: int| 0 <= i < self.todos.len() ==> 1 <= #[trigger] self.todos[i].id < self.next_id
        &&& forall|i: int, j: int|
            0 <= i < j < self.todos.len() ==> #[trigger] self.todos[i].id != #[trigger] self.todos[j].id
        &&& forall|i: int| 0 <= i < self.free_ids.len() ==> 1 <= #[trigger] self.free_ids[i] < self.next_id
        &&& forall|i: int, j: int|
            0 <= i < j < self.free_ids.len() ==> #[trigger] self.free_ids[i] != #[trigger] self.free_ids[j]
        &&& forall|i: int, j: int|
            0 <= i < self.free_ids.len() && 0 <= j < self.todos.len()
                ==> #[trigger] self.free_ids[i] != #[trigger] self.todos[j].id
    }

    /// Whether some live item carries this id.
    pub open spec fn has_id(self, id: int) -> bool {
        exists|i: int| 0 <= i < self.todos.len() && #[trigger] self.todos[i].id == id
    }

    /// The id the allocator hands out next: the most recently reclaimed id
    /// if any is pending, else the counter.
    pub open spec fn next_alloc_id(self) -> int {
        if self.free_ids.len() > 0 {
            self.free_ids.last()
        } else {
            self.next_id
        }
    }

    /// The manager after `add_todo(title)`: a new pending item appended at
    /// the end, carrying the allocated id.
    pub open spec fn do_add(self, title: Seq<char>) -> MgrView {
        let item = ItemView { id: self.next_alloc_id(), title, status: TodoStatus::Pending };
        if self.free_ids.len() > 0 {
            MgrView { todos: self.todos.push(item), next_id: self.next_id, free_ids: self.free_ids.drop_last() }
        } else {
            MgrView { todos: self.todos.push(item), next_id: self.next_id + 1, free_ids: self.free_ids }
        }
    }

    /// The index of the first item with this id, or `todos.len()` if none.
    pub open spec fn first_idx_of(todos: Seq<ItemView>, id: int) -> int
        decreases todos.len(),
    {
        if todos.len() == 0 {
            0
        } else if todos[0].id == id {
            0
        } else {
            1 + Self::first_idx_of(todos.drop_first(), id)
        }
    }

    /// The manager after `delete_todo(id)`: the first item with this id is
    /// taken out, the rest keep their relative order, and the id joins the
    /// reclaimed pool; unchanged when no item has the id.
    pub open spec fn do_delete(self, id: int) -> MgrView {
        let k = Self::first_idx_of(self.todos, id);
        if k < self.todos.len() {
            MgrView { todos: self.todos.remove(k), next_id: self.next_id, free_ids: self.free_ids.push(id) }
        } else {
            self
        }
    }

    /// The manager after `complete_todo(id)`: the first item with this id
    /// has its status set to completed; unchanged when no item has the id.
    pub open spec fn do_complete(self, id: int) -> MgrView {
        let k = Self::first_idx_of(self.todos, id);
        if k < self.todos.len() {
            let it = self.todos[k];
            MgrView {
                todos: self.todos.update(k, ItemView { id: it.id, title: it.title, status: TodoStatus::Completed }),
                next_id: self.next_id,
                free_ids: self.free_ids,
            }
        } else {
            self
        }
    }
}

/// `first_idx_of` points at the first occurrence of `id`, and runs off the
/// end exactly when no item has the id.
pub proof fn lemma_first_idx_of(todos: Seq<ItemView>, id: int)
    ensures
        0 <= MgrView::first_idx_of(todos, id) <= todos.len(),
        MgrView::first_idx_of(todos, id) < todos.len() ==> todos[MgrView::first_idx_of(todos, id)].id == id,
        forall|j: int| 0 <= j < MgrView::first_idx_of(todos, id) ==> #[trigger] todos[j].id != id,
    decreases todos.len(),
{
    if todos.len() == 0 {
    } else if todos[0].id == id {
    } else {
        lemma_first_idx_of(todos.drop_first(), id);
        assert forall|j: int| 0 <= j < MgrView::first_idx_of(todos, id) implies #[trigger] todos[j].id != id by {
            if j > 0 {
                assert(todos.drop_first()[j - 1] == todos[j]);
            }
        }
    }
}

/// The in-memory to-do collection and its id allocator.
pub struct TodoManager {
    pub todos: Vec<TodoItem>,
    pub next_id: usize,
    pub free_ids: Vec<usize>,
}

impl View for TodoManager {
    type V = MgrView;

    open spec fn view(&self) -> MgrView {
        MgrView {
            todos: self.todos@.map_values(|t: TodoItem| t@),
            next_id: self.next_id as int,
            free_ids: self.free_ids@.map_values(|x: usize| x as int),
        }
    }
}

impl TodoManager {
    /// An empty manager: no items, no reclaimed ids, counter at 1.
    pub fn new() -> (r: TodoManager)
        ensures
            r@ == MgrView::initial(),
            r@.wf(),
    {
        let r = TodoManager { todos: Vec::new(), next_id: 1, free_ids: Vec::new() };
        proof {
            assert(r@.todos =~= Seq::<ItemView>::empty());
            assert(r@.free_ids =~= Seq::<int>::empty());
        }
        r
    }

    /// Appends a new pending item whose id is the most recently reclaimed id
    /// if one is pending, else the counter value (which then moves on).
    pub fn add_todo(&mut self, title: String)
        requires
            old(self)@.wf(),
            old(self).next_id < usize::MAX,
        ensures
            final(self)@ == old(self)@.do_add(title@),
            final(self)@.wf(),
    {
        let ghost pre = self@;
        let id = match self.free_ids.pop() {
            Some(id) => id,
            None => {
                let id = self.next_id;
                self.next_id = self.next_id + 1;
                id
            },
        };
        self.todos.push(TodoItem { id, title, status: TodoStatus::Pending });
        proof {
            let post = pre.do_add(title@);
            assert(self@.todos =~= post.todos);
            assert(self@.free_ids =~= post.free_ids);
            lemma_add_preserves_wf(pre, title@);
        }
    }

    /// Removes the item with the given id, keeping the relative order of the
    /// rest, and reclaims the id; returns whether an item was found. A miss
    /// changes nothing.
    pub fn delete_todo(&mut self, id: usize) -> (found: bool)
        requires
            old(self)@.wf(),
        ensures
            found == old(self)@.has_id(id as int),
            final(self)@ == old(self)@.do_delete(id as int),
            !old(self)@.has_id(id as int) ==> final(self)@ == old(self)@,
            final(self)@.wf(),
    {
        let ghost pre = self@;
        let n = self.todos.len();
        let mut i: usize = 0;
        while i < n
            invariant
                pre == old(self)@,
                pre.wf(),
                self@ == pre,
                n == self.todos.len(),
                i <= n,
                forall|j: int| 0 <= j < i ==> #[trigger] pre.todos[j].id != id as int,
            decreases n - i,
        {
            if self.todos[i].id == id {
                proof {
                    lemma_first_idx_of(pre.todos, id as int);
                    assert(pre.todos[i as int] == self.todos@[i as int]@);
                    assert(pre.todos[i as int].id == id as int);
                    assert(MgrView::first_idx_of(pre.todos, id as int) == i as int);
                }
                self.todos.remove(i);
                self.free_ids.push(id);
                proof {
                    let post = pre.do_delete(id as int);
                    assert(self@.todos =~= post.todos);
                    assert(self@.free_ids =~= post.free_ids);
                    lemma_delete_preserves_wf(pre, id as int);
                }
                return true;
            }
            proof {
                assert(pre.todos[i as int] == self.todos@[i as int]@);
            }
            i = i + 1;
        }
        proof {
            lemma_first_idx_of(pre.todos, id as int);
            assert(!pre.has_id(id as int));
            assert(MgrView::first_idx_of(pre.todos, id as int) == pre.todos.len());
        }
        false
    }

    /// Sets the status of the first item with the given id to completed;
    /// returns whether an item was found. Completing an already completed
    /// item is a no-op that still reports success; a miss changes nothing.
    pub fn complete_todo(&mut self, id: usize) -> (found: bool)
        requires
            old(self)@.wf(),
        ensures
            found == old(self)@.has_id(id as int),
            final(self)@ == old(self)@.do_complete(id as int),
            !old(self)@.has_id(id as int) ==> final(self)@ == old(self)@,
            final(self)@.wf(),
    {
        let ghost pre = self@;
        let n = self.todos.len();
        let mut i: usize = 0;
        while i < n
            invariant
                pre == old(self)@,
                pre.wf(),
                self@ == pre,
                n == self.todos.len(),
                i <= n,
                forall|j: int| 0 <= j < i ==> #[trigger] pre.todos[j].id != id as int,
            decreases n - i,
        {
            if self.todos[i].id == id {
                proof {
                    lemma_first_idx_of(pre.todos, id as int);
                    assert(pre.todos[i as int] == self.todos@[i as int]@);
                    assert(pre.todos[i as int].id == id as int);
                    assert(MgrView::first_idx_of(pre.todos, id as int) == i as int);
                }
                self.todos[i].status = TodoStatus::Completed;
                proof {
                    let post = pre.do_complete(id as int);
                    assert(self@.todos =~= post.todos);
                    lemma_complete_preserves_wf(pre, id as int);
                }
                return true;
            }
            proof {
                assert(pre.todos[i as int] == self.todos@[i as int]@);
            }
            i = i + 1;
        }
        proof {
            lemma_first_idx_of(pre.todos, id as int);
            assert(!pre.has_id(id as int));
            assert(MgrView::first_idx_of(pre.todos, id as int) == pre.todos.len());
        }
        false
    }
}

/// Every id in the list is at most `max_id`, which is never negative and,
/// when positive, is itself an id of the list.
pub proof fn lemma_max_id_bounds(items: Seq<ItemView>)
    ensures
        max_id(items) >= 0,
        forall|i: int| 0 <= i < items.len() ==> #[trigger] items[i].id <= max_id(items),
        max_id(items) == 0 || id_used(items, max_id(items)),
    decreases items.len(),
{
    if items.len() > 0 {
        lemma_max_id_bounds(items.drop_last());
        assert forall|i: int| 0 <= i < items.len() implies #[trigger] items[i].id <= max_id(items) by {
            if i < items.len() - 1 {
                assert(items.drop_last()[i] == items[i]);
            }
        }
        if max_id(items) > 0 {
            if items.last().id == max_id(items) {
                assert(id_used(items, max_id(items)));
            } else {
                assert(id_used(items.drop_last(), max_id(items)));
                let w = choose|i: int|
                    0 <= i < items.drop_last().len() && #[trigger] items.drop_last()[i].id == max_id(items);
                assert(items[w].id == max_id(items));
            }
        }
    }
}

/// The reclaimable-gap list holds exactly ids in `[1, k]` that no item
/// uses, in strictly descending order.
pub proof fn lemma_gaps_desc_props(items: Seq<ItemView>, k: int)
    requires
        k >= 0,
    ensures
        forall|t: int|
            0 <= t < gaps_desc(items, k).len() ==> 1 <= #[trigger] gaps_desc(items, k)[t] <= k
                && !id_used(items, gaps_desc(items, k)[t]),
        forall|t: int, u: int|
            0 <= t < u < gaps_desc(items, k).len() ==> #[trigger] gaps_desc(items, k)[t]
                > #[trigger] gaps_desc(items, k)[u],
    decreases k,
{
    if k > 0 {
        lemma_gaps_desc_props(items, k - 1);
        if id_used(items, k) {
            assert(gaps_desc(items, k) == gaps_desc(items, k - 1));
            assert forall|t: int|
                0 <= t < gaps_desc(items, k).len() implies 1 <= #[trigger] gaps_desc(items, k)[t] <= k
                && !id_used(items, gaps_desc(items, k)[t]) by {
                assert(gaps_desc(items, k)[t] == gaps_desc(items, k - 1)[t]);
            }
        } else {
            assert forall|t: int|
                0 <= t < gaps_desc(items, k).len() implies 1 <= #[trigger] gaps_desc(items, k)[t] <= k
                && !id_used(items, gaps_desc(items, k)[t]) by {
                if t > 0 {
                    assert(gaps_desc(items, k)[t] == gaps_desc(items, k - 1)[t - 1]);
                }
            }
            assert forall|t: int, u: int|
                0 <= t < u < gaps_desc(items, k).len() implies #[trigger] gaps_desc(items, k)[t]
                > #[trigger] gaps_desc(items, k)[u] by {
                if t > 0 {
                    assert(gaps_desc(items, k)[t] == gaps_desc(items, k - 1)[t - 1]);
                }
                assert(gaps_desc(items, k)[u] == gaps_desc(items, k - 1)[u - 1]);
            }
        }
    }
}


/// The reconstruction around a loadable item list is well formed.
pub proof fn lemma_loaded_wf(items: Seq<ItemView>)
    requires
        items_loadable(items),
    ensures
        loaded_view(items).wf(),
{
    lemma_max_id_bounds(items);
    lemma_gaps_desc_props(items, max_id(items));
}

impl MgrView {
    /// The manager after a whole sequence of `add_todo` calls, one per
    /// title, in order.
    pub open spec fn do_add_all(self, titles: Seq<Seq<char>>) -> MgrView
        decreases titles.len(),
    {
        if titles.len() == 0 {
            self
        } else {
            self.do_add_all(titles.drop_last()).do_add(titles.last())
        }
    }
}

/// Starting from an empty manager, a sequence of `add_todo` calls alone
/// assigns the strictly increasing ids 1, 2, 3, ... in call order, and
/// leaves no reclaimed id pending.
pub proof fn lemma_fresh_adds_assign_increasing_ids(titles: Seq<Seq<char>>)
    ensures
        MgrView::initial().do_add_all(titles).todos.len() == titles.len(),
        MgrView::initial().do_add_all(titles).next_id == titles.len() + 1,
        MgrView::initial().do_add_all(titles).free_ids.len() == 0,
        forall|k: int|
            0 <= k < titles.len() ==> #[trigger] MgrView::initial().do_add_all(titles).todos[k].id == k + 1,
        forall|k: int|
            0 <= k < titles.len() ==> #[trigger] MgrView::initial().do_add_all(titles).todos[k].title
                == titles[k],
    decreases titles.len(),
{
    if titles.len() > 0 {
        lemma_fresh_adds_assign_increasing_ids(titles.drop_last());
    }
}

/// Saving and then loading from the same text gives a collection with the
/// same ids, titles and statuses, in the same order: the rendered items
/// parse back to themselves, and the reconstruction keeps them untouched.
pub proof fn lemma_save_load_round_trip(m: MgrView)
    requires
        m.wf(),
        m.next_id <= usize::MAX as int,
    ensures
        load_view(json::render(m.todos)) == loaded_view(m.todos),
        load_view(json::render(m.todos)).todos == m.todos,
{
    json::lemma_parse_render_round_trip(m.todos);
    assert(items_loadable(m.todos));
}

/// Deleting an item and then adding a new one reuses the deleted id: the
/// id just reclaimed has priority over every other pending id.
pub proof fn lemma_delete_then_add_reuses_id(m: MgrView, id: int, title: Seq<char>)
    requires
        m.wf(),
        m.has_id(id),
    ensures
        m.do_delete(id).do_add(title).todos.last().id == id,
{
    lemma_first_idx_of(m.todos, id);
}

/// Whether some item of the vector carries this id.
fn contains_id(items: &Vec<TodoItem>, k: usize) -> (b: bool)
    ensures
        b == id_used(items@.map_values(|t: TodoItem| t@), k as int),
{
    let ghost iv = items@.map_values(|t: TodoItem| t@);
    let n = items.len();
    let mut i: usize = 0;
    while i < n
        invariant
            i <= n,
            n == iv.len(),
            iv == items@.map_values(|t: TodoItem| t@),
            forall|j: int| 0 <= j < i ==> #[trigger] iv[j].id != k as int,
        decreases n - i,
    {
        if items[i].id == k {
            proof {
                assert(iv[i as int] == items@[i as int]@);
                assert(iv[i as int].id == k as int);
                assert(id_used(iv, k as int));
            }
            return true;
        }
        proof {
            assert(iv[i as int] == items@[i as int]@);
        }
        i = i + 1;
    }
    false
}

/// Whether a parsed item list passes the load check: positive ids with room
/// for a successor, no id used twice.
fn check_loadable(items: &Vec<TodoItem>) -> (b: bool)
    ensures
        b == items_loadable(items@.map_values(|t: TodoItem| t@)),
{
    let ghost iv = items@.map_values(|t: TodoItem| t@);
    let n = items.len();
    let mut i: usize = 0;
    while i < n
        invariant
            i <= n,
            n == iv.len(),
            iv == items@.map_values(|t: TodoItem| t@),
            forall|j: int| 0 <= j < i ==> 1 <= #[trigger] iv[j].id < usize::MAX as int,
            forall|j: int, l: int| 0 <= j < l < i ==> #[trigger] iv[j].id != #[trigger] iv[l].id,
        decreases n - i,
    {
        proof {
            assert(iv[i as int] == items@[i as int]@);
        }
        let id = items[i].id;
        if id < 1 || id >= usize::MAX {
            proof {
                assert(!(1 <= iv[i as int].id < usize::MAX as int));
            }
            return false;
        }
        let mut j: usize = 0;
        while j < i
            invariant
                j <= i < n,
                n == iv.len(),
                iv == items@.map_values(|t: TodoItem| t@),
                id as int == iv[i as int].id,
                forall|l: int| 0 <= l < j ==> #[trigger] iv[l].id != id as int,
            decreases i - j,
        {
            proof {
                assert(iv[j as int] == items@[j as int]@);
            }
            if items[j].id == id {
                proof {
                    assert(iv[j as int].id == iv[i as int].id);
                    assert_by_contradiction!(!items_loadable(iv), {
                        assert(iv[j as int].id != iv[i as int].id);
                    });
                }
                return false;
            }
            j = j + 1;
        }
        i = i + 1;
    }
    true
}

/// Rebuilds the allocator state around a loadable item list: the counter
/// sits just above the largest id, and the unused ids below it become the
/// reclaimable pool, largest first.
fn reconstruct(items: Vec<TodoItem>) -> (r: TodoManager)
    requires
        items_loadable(items@.map_values(|t: TodoItem| t@)),
    ensures
        r@ == loaded_view(items@.map_values(|t: TodoItem| t@)),
        r@.wf(),
{
    let ghost iv = items@.map_values(|t: TodoItem| t@);
    proof {
        lemma_max_id_bounds(iv);
    }
    let n = items.len();
    let mut m: usize = 0;
    let mut i: usize = 0;
    proof {
        assert(iv.take(0) =~= Seq::<ItemView>::empty());
    }
    while i < n
        invariant
            i <= n,
            n == iv.len(),
            iv == items@.map_values(|t: TodoItem| t@),
            items_loadable(iv),
            m as int == max_id(iv.take(i as int)),
            m < usize::MAX,
        decreases n - i,
    {
        proof {
            assert(iv[i as int] == items@[i as int]@);
            assert(iv[i as int].id < usize::MAX as int);
            assert(iv.take(i + 1) =~= iv.take(i as int).push(iv[i as int]));
            assert(iv.take(i + 1).drop_last() =~= iv.take(i as int));
        }
        if items[i].id > m {
            m = items[i].id;
        }
        i = i + 1;
    }
    proof {
        assert(iv.take(n as int) =~= iv);
    }
    let mut free: Vec<usize> = Vec::new();
    let mut k: usize = m;
    proof {
        assert(free@.map_values(|x: usize| x as int) =~= Seq::<int>::empty());
        assert(free@.map_values(|x: usize| x as int) + gaps_desc(iv, k as int) =~= gaps_desc(
            iv,
            m as int,
        ));
    }
    while k >= 1
        invariant
            k <= m,
            iv == items@.map_values(|t: TodoItem| t@),
            gaps_desc(iv, m as int) == free@.map_values(|x: usize| x as int) + gaps_desc(
                iv,
                k as int,
            ),
        decreases k,
    {
        if !contains_id(&items, k) {
            let ghost fv = free@.map_values(|x: usize| x as int);
            free.push(k);
            proof {
                assert(free@.map_values(|x: usize| x as int) =~= fv.push(k as int));
                assert(gaps_desc(iv, k as int) == seq![k as int] + gaps_desc(iv, k - 1));
                assert(fv.push(k as int) + gaps_desc(iv, k - 1) =~= fv + gaps_desc(iv, k as int));
            }
        }
        k = k - 1;
    }
    proof {
        assert(gaps_desc(iv, 0) =~= Seq::<int>::empty());
        assert(free@.map_values(|x: usize| x as int) + gaps_desc(iv, 0) =~= free@.map_values(
            |x: usize| x as int,
        ));
    }
    let r = TodoManager { todos: items, next_id: m + 1, free_ids: free };
    proof {
        lemma_loaded_wf(iv);
    }
    r
}

impl TodoManager {
    /// Renders the item collection (not the allocator state) as the text of
    /// the persisted file.
    pub fn to_json(&self) -> (r: String)
        ensures
            r@ == json::render(self@.todos),
    {
        json::render_items(&self.todos)
    }

    /// Builds a manager from the text of a persisted file. Text that does
    /// not parse, or whose items fail the load check, yields the empty
    /// manager: the empty-on-error policy, under which a bad file silently
    /// starts a fresh session.
    pub fn from_json(s: &str) -> (r: TodoManager)
        ensures
            r@ == load_view(s@),
            r@.wf(),
    {
        let loaded = TodoManager::from_json_checked(s);
        loaded.0
    }

    /// Like [`TodoManager::from_json`], but also reports whether the text
    /// was accepted, so a caller can tell a loaded empty collection from a
    /// bad text that the empty-on-error policy replaced with one.
    pub fn from_json_checked(s: &str) -> (r: (TodoManager, bool))
        ensures
            r.0@ == load_view(s@),
            r.0@.wf(),
            r.1 == load_accepted(s@),
    {
        match json::parse_json(s) {
            None => (TodoManager::new(), false),
            Some(items) => {
                if check_loadable(&items) {
                    (reconstruct(items), true)
                } else {
                    (TodoManager::new(), false)
                }
            },
        }
    }
}

/// Adding keeps the manager well formed.
proof fn lemma_add_preserves_wf(m: MgrView, title: Seq<char>)
    requires
        m.wf(),
    ensures
        m.do_add(title).wf(),
{
    let post = m.do_add(title);
    if m.free_ids.len() > 0 {
        assert forall|i: int, j: int| 0 <= i < j < post.todos.len() implies #[trigger] post.todos[i].id
            != #[trigger] post.todos[j].id by {
            if j == post.todos.len() - 1 {
                assert(m.free_ids[m.free_ids.len() - 1] != m.todos[i].id);
            }
        }
        assert forall|i: int, j: int|
            0 <= i < post.free_ids.len() && 0 <= j < post.todos.len() implies #[trigger] post.free_ids[i]
            != #[trigger] post.todos[j].id by {
            if j == post.todos.len() - 1 {
                assert(m.free_ids[i] != m.free_ids[m.free_ids.len() - 1]);
            }
        }
    }
}

/// Deleting keeps the manager well formed.
proof fn lemma_delete_preserves_wf(m: MgrView, id: int)
    requires
        m.wf(),
    ensures
        m.do_delete(id).wf(),
{
    lemma_first_idx_of(m.todos, id);
    let k = MgrView::first_idx_of(m.todos, id);
    if k < m.todos.len() {
        let post = m.do_delete(id);
        assert forall|i: int, j: int|
            0 <= i < post.free_ids.len() && 0 <= j < post.todos.len() implies #[trigger] post.free_ids[i]
            != #[trigger] post.todos[j].id by {
            if i == post.free_ids.len() - 1 {
                // The reclaimed id is the deleted item's; every remaining item
                // sat at another index before the removal.
                if j < k {
                    assert(post.todos[j] == m.todos[j]);
                } else {
                    assert(post.todos[j] == m.todos[j + 1]);
                }
            }
        }
    }
}

/// Completing keeps the manager well formed.
proof fn lemma_complete_preserves_wf(m: MgrView, id: int)
    requires
        m.wf(),
    ensures
        m.do_complete(id).wf(),
{
    lemma_first_idx_of(m.todos, id);
}

} // verus!
