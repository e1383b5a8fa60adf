//! The chain of lists that holds the thread-local values.
//!
//! A chain is a sequence of lists, oldest first, and each list is at least twice
//! as long as the one before it. A slot holds a value together with the id of the
//! thread that it belongs to. The value of a thread is in at most one slot.

use vstd::prelude::*;

verus! {

/// A list of thread-local values.
pub struct List<T> {
    /// The thread-local values in this list, each with the id of its thread. A
    /// thread that has no slot here has its value in an earlier list, or has none.
    pub values: Vec<Option<(usize, T)>>,
}

impl<T> List<T> {
    /// A list of the given length without any value.
    pub fn empty(len: usize) -> (list: Self)
        requires
            len <= isize::MAX,
        ensures
            list.values@ == no_values::<T>(len as nat),
    {
        let mut values: Vec<Option<(usize, T)>> = Vec::with_capacity(len);
        let mut i: usize = 0;
        while i < len
            invariant
                i <= len,
                values@ == no_values::<T>(i as nat),
            decreases len - i,
        {
            values.push(None);
            i = i + 1;
            assert(values@ =~= no_values::<T>(i as nat));
        }
        Self { values }
    }

    /// Whether the value of the thread `id` is in the given slot.
    fn is_at(&self, slot: usize, id: usize) -> (found: bool)
        requires
            slot < self.values@.len(),
        ensures
            found == (self.values@[slot as int] matches Some(entry) && entry.0 == id),
    {
        match &self.values[slot] {
            Some(entry) => entry.0 == id,
            None => false,
        }
    }

    /// The slot that holds the value of the thread `id`, if there is one. The slot
    /// with the number of the id is looked at first.
    pub fn find(&self, id: usize) -> (slot: Option<usize>)
        ensures
            match slot {
                Some(slot) => {
                    &&& slot < self.values@.len()
                    &&& self.values@[slot as int] is Some
                    &&& (self.values@[slot as int]->0).0 == id
                },
                None => forall|i: int|
                    0 <= i < self.values@.len() && (#[trigger] self.values@[i]) is Some
                        ==> (self.values@[i]->0).0 != id,
            },
    {
        if id < self.values.len() && self.is_at(id, id) {
            return Some(id);
        }
        let mut slot: usize = 0;
        while slot < self.values.len()
            invariant
                slot <= self.values@.len(),
                forall|i: int|
                    0 <= i < slot && (#[trigger] self.values@[i]) is Some ==> (self.values@[i]->0).0
                        != id,
            decreases self.values@.len() - slot,
        {
            if self.is_at(slot, id) {
                return Some(slot);
            }
            slot = slot + 1;
        }
        None
    }

    /// An empty slot for the value of the thread `id`: the one with the number of
    /// the id if that is empty.
    pub fn vacancy(&self, id: usize) -> (slot: usize)
        requires
            exists|i: int| 0 <= i < self.values@.len() && (#[trigger] self.values@[i]) is None,
        ensures
            slot < self.values@.len(),
            self.values@[slot as int] is None,
            id < self.values@.len() && self.values@[id as int] is None ==> slot == id,
    {
        if id < self.values.len() && self.values[id].is_none() {
            return id;
        }
        let len: usize = self.values.len();
        let mut slot: usize = 0;
        while slot < len && self.values[slot].is_some()
            invariant
                slot <= len == self.values@.len(),
                forall|i: int| 0 <= i < slot ==> (#[trigger] self.values@[i]) is Some,
            decreases len - slot,
        {
            slot = slot + 1;
        }
        slot
    }
}

/// The slots of a list without any value.
pub open spec fn no_values<T>(len: nat) -> Seq<Option<(usize, T)>> {
    Seq::new(len, |i: int| None::<(usize, T)>)
}

/// Whether a slot of the list at `level` holds a value.
pub open spec fn occupied<T>(lists: Seq<List<T>>, level: int, slot: int) -> bool {
    &&& 0 <= level < lists.len()
    &&& 0 <= slot < lists[level].values@.len()
    &&& lists[level].values@[slot] is Some
}

/// Whether a slot of the list at `level` holds the value of the thread `id`.
pub open spec fn holds<T>(lists: Seq<List<T>>, level: int, slot: int, id: usize) -> bool {
    &&& occupied(lists, level, slot)
    &&& (lists[level].values@[slot]->0).0 == id
}

/// Whether a slot of the newest list holds the value of the thread `id`.
pub open spec fn newest_holds<T>(lists: Seq<List<T>>, slot: int, id: usize) -> bool {
    holds(lists, lists.len() - 1, slot, id)
}

/// The lengths of the lists in a chain: each list is at least twice as long as
/// an older one, and no list is longer than a vector can be.
pub open spec fn growing<T>(lists: Seq<List<T>>) -> bool {
    &&& forall|level: int|
        0 <= level < lists.len() ==> (#[trigger] lists[level]).values@.len() <= isize::MAX
    &&& forall|older: int, newer: int|
        0 <= older < newer < lists.len() ==> {
            &&& (#[trigger] lists[older]).values@.len() < (#[trigger] lists[newer]).values@.len()
            &&& 2 * lists[older].values@.len() <= lists[newer].values@.len()
        }
}

/// No thread has a value in two slots.
pub open spec fn unique<T>(lists: Seq<List<T>>) -> bool {
    forall|a: int, s: int, b: int, t: int, id: usize| #[trigger]
        holds(lists, a, s, id) && #[trigger] holds(lists, b, t, id) ==> a == b && s == t
}

/// Whether some slot holds the value of the thread `id`.
pub open spec fn present<T>(lists: Seq<List<T>>, id: usize) -> bool {
    exists|level: int, slot: int| holds(lists, level, slot, id)
}

/// The value of the thread `id`, in whichever slot it is.
pub open spec fn value_of<T>(lists: Seq<List<T>>, id: usize) -> T {
    let (level, slot) = choose|level: int, slot: int| holds(lists, level, slot, id);
    (lists[level].values@[slot]->0).1
}

/// The values in a chain, by id.
pub open spec fn contents<T>(lists: Seq<List<T>>) -> Map<usize, T> {
    Map::new(|id: usize| present(lists, id), |id: usize| value_of(lists, id))
}

/// The values in the list at `level` from `index` on and in all older lists, with
/// their ids, from the newest list to the oldest and by slot within a list.
pub open spec fn entries_from<T>(lists: Seq<List<T>>, level: int, index: int) -> Seq<(usize, T)>
    decreases level + 1, lists[level].values@.len() - index,
{
    if level < 0 {
        Seq::empty()
    } else if index >= lists[level].values@.len() {
        entries_from(lists, level - 1, 0)
    } else {
        match lists[level].values@[index] {
            Some(entry) => seq![entry] + entries_from(lists, level, index + 1),
            None => entries_from(lists, level, index + 1),
        }
    }
}

/// All values in a chain with their ids, in the order of [`entries_from`].
pub open spec fn entries<T>(lists: Seq<List<T>>) -> Seq<(usize, T)> {
    entries_from(lists, lists.len() - 1, 0)
}

/// Whether a slot of the list at `at` is among those that [`entries_from`] visits.
pub open spec fn ahead(level: int, index: int, at: int, slot: int) -> bool {
    at < level || (at == level && index <= slot)
}

/// Whether two chains differ at most in one slot.
pub open spec fn same_but<T>(a: Seq<List<T>>, b: Seq<List<T>>, at: int, slot: int) -> bool {
    &&& a.len() == b.len()
    &&& 0 <= at < a.len()
    &&& 0 <= slot < a[at].values@.len()
    &&& a[at].values@.len() == b[at].values@.len()
    &&& forall|i: int|
        0 <= i < a[at].values@.len() && i != slot ==> #[trigger] a[at].values@[i]
            == #[trigger] b[at].values@[i]
    &&& forall|l: int|
        0 <= l < a.len() && l != at ==> (#[trigger] a[l]).values@ == (#[trigger] b[l]).values@
}

/// The value of a thread is the one in the slot that holds it.
pub proof fn lemma_contents<T>(lists: Seq<List<T>>, level: int, slot: int, id: usize)
    requires
        unique(lists),
        holds(lists, level, slot, id),
    ensures
        contents(lists).contains_key(id),
        lists[level].values@[slot] == Some((id, contents(lists)[id])),
{
    let (l, s) = choose|l: int, s: int| holds(lists, l, s, id);
    assert(holds(lists, l, s, id));
    assert(l == level && s == slot);
}

/// Chains that agree on the slots ahead have the same entries there.
pub proof fn lemma_entries_agree<T>(a: Seq<List<T>>, b: Seq<List<T>>, level: int, index: int)
    requires
        level < a.len(),
        level < b.len(),
        index >= 0,
        forall|l: int|
            0 <= l < level ==> (#[trigger] a[l]).values@ == (#[trigger] b[l]).values@,
        0 <= level ==> a[level].values@.len() == b[level].values@.len(),
        0 <= level ==> forall|i: int|
            index <= i < a[level].values@.len() ==> #[trigger] a[level].values@[i]
                == #[trigger] b[level].values@[i],
    ensures
        entries_from(a, level, index) == entries_from(b, level, index),
    decreases level + 1, a[level].values@.len() - index,
{
    if level < 0 {
    } else if index >= a[level].values@.len() {
        if level > 0 {
            assert(a[level - 1].values@ == b[level - 1].values@);
        }
        lemma_entries_agree(a, b, level - 1, 0);
    } else {
        assert(a[level].values@[index] == b[level].values@[index]);
        lemma_entries_agree(a, b, level, index + 1);
    }
}

/// Filling an empty slot ahead adds one entry; filling another one adds none.
pub proof fn lemma_entries_fill<T>(
    a: Seq<List<T>>,
    b: Seq<List<T>>,
    at: int,
    slot: int,
    level: int,
    index: int,
)
    requires
        same_but(a, b, at, slot),
        level < a.len(),
        index >= 0,
        a[at].values@[slot] is None,
        b[at].values@[slot] is Some,
    ensures
        entries_from(b, level, index).len() == entries_from(a, level, index).len() + (if ahead(
            level,
            index,
            at,
            slot,
        ) {
            1int
        } else {
            0int
        }),
    decreases level + 1, a[level].values@.len() - index,
{
    if level < 0 {
    } else {
        if level != at {
            assert(a[level].values@ == b[level].values@);
        }
        if index >= a[level].values@.len() {
            lemma_entries_fill(a, b, at, slot, level - 1, 0);
        } else {
            if level == at && index != slot {
                assert(a[level].values@[index] == b[level].values@[index]);
            }
            lemma_entries_fill(a, b, at, slot, level, index + 1);
        }
    }
}

/// The number of entries depends only on which slots are occupied.
pub proof fn lemma_entries_same_shape<T>(a: Seq<List<T>>, b: Seq<List<T>>, level: int, index: int)
    requires
        a.len() == b.len(),
        level < a.len(),
        index >= 0,
        forall|l: int|
            0 <= l < a.len() ==> (#[trigger] a[l]).values@.len() == (
            #[trigger] b[l]).values@.len(),
        forall|l: int, i: int| #[trigger] occupied(a, l, i) <==> #[trigger] occupied(b, l, i),
    ensures
        entries_from(a, level, index).len() == entries_from(b, level, index).len(),
    decreases level + 1, a[level].values@.len() - index,
{
    if level < 0 {
    } else {
        assert(a[level].values@.len() == b[level].values@.len());
        if index >= a[level].values@.len() {
            lemma_entries_same_shape(a, b, level - 1, 0);
        } else {
            assert(occupied(a, level, index) <==> occupied(b, level, index));
            lemma_entries_same_shape(a, b, level, index + 1);
        }
    }
}

/// A list without values has no entries of its own.
pub proof fn lemma_entries_skip_empty<T>(lists: Seq<List<T>>, level: int, index: int)
    requires
        0 <= level < lists.len(),
        0 <= index,
        forall|i: int| 0 <= i < lists[level].values@.len() ==> lists[level].values@[i] is None,
    ensures
        entries_from(lists, level, index) == entries_from(lists, level - 1, 0),
    decreases lists[level].values@.len() - index,
{
    if index < lists[level].values@.len() {
        lemma_entries_skip_empty(lists, level, index + 1);
    }
}

/// A list of which every slot is occupied has an entry for each of them.
proof fn lemma_entries_of_full<T>(lists: Seq<List<T>>, level: int, index: int)
    requires
        0 <= level < lists.len(),
        0 <= index <= lists[level].values@.len(),
        forall|i: int| index <= i < lists[level].values@.len() ==> lists[level].values@[i] is Some,
    ensures
        entries_from(lists, level, index).len() >= lists[level].values@.len() - index,
    decreases lists[level].values@.len() - index,
{
    if index < lists[level].values@.len() {
        lemma_entries_of_full(lists, level, index + 1);
    }
}

/// If there are fewer values than slots in the newest list, one of these slots
/// is empty.
pub proof fn lemma_has_vacancy<T>(lists: Seq<List<T>>)
    requires
        lists.len() > 0,
        entries(lists).len() < lists.last().values@.len(),
    ensures
        exists|i: int|
            0 <= i < lists.last().values@.len() && (#[trigger] lists.last().values@[i]) is None,
{
    if forall|i: int|
        0 <= i < lists.last().values@.len() ==> (#[trigger] lists.last().values@[i]) is Some {
        lemma_entries_of_full(lists, lists.len() - 1, 0);
    }
}

/// The first entry is that of the first occupied slot ahead; the others are
/// those of the slots after it.
pub proof fn lemma_entries_step<T>(lists: Seq<List<T>>, level: int, index: int)
    requires
        0 <= level < lists.len(),
        0 <= index < lists[level].values@.len(),
    ensures
        match lists[level].values@[index] {
            Some(entry) => {
                &&& entries_from(lists, level, index).len() > 0
                &&& entries_from(lists, level, index)[0] == entry
                &&& entries_from(lists, level, index).drop_first() == entries_from(
                    lists,
                    level,
                    index + 1,
                )
            },
            None => entries_from(lists, level, index) == entries_from(lists, level, index + 1),
        },
{
    match lists[level].values@[index] {
        Some(entry) => {
            assert(entries_from(lists, level, index).drop_first() =~= entries_from(
                lists,
                level,
                index + 1,
            ));
        },
        None => {},
    }
}

/// Every entry is in a slot ahead.
pub proof fn lemma_entry_has_slot<T>(lists: Seq<List<T>>, level: int, index: int, k: int) -> (at: (
    int,
    int,
))
    requires
        level < lists.len(),
        index >= 0,
        0 <= k < entries_from(lists, level, index).len(),
    ensures
        occupied(lists, at.0, at.1),
        ahead(level, index, at.0, at.1),
        lists[at.0].values@[at.1] == Some(entries_from(lists, level, index)[k]),
    decreases level + 1, lists[level].values@.len() - index,
{
    if index >= lists[level].values@.len() {
        lemma_entry_has_slot(lists, level - 1, 0, k)
    } else {
        lemma_entries_step(lists, level, index);
        match lists[level].values@[index] {
            Some(entry) => {
                if k == 0 {
                    (level, index)
                } else {
                    assert(entries_from(lists, level, index)[k] == entries_from(
                        lists,
                        level,
                        index,
                    ).drop_first()[k - 1]);
                    lemma_entry_has_slot(lists, level, index + 1, k - 1)
                }
            },
            None => lemma_entry_has_slot(lists, level, index + 1, k),
        }
    }
}

/// Every occupied slot ahead has an entry.
pub proof fn lemma_slot_has_entry<T>(
    lists: Seq<List<T>>,
    level: int,
    index: int,
    at: int,
    slot: int,
) -> (k: int)
    requires
        level < lists.len(),
        index >= 0,
        occupied(lists, at, slot),
        ahead(level, index, at, slot),
    ensures
        0 <= k < entries_from(lists, level, index).len(),
        Some(entries_from(lists, level, index)[k]) == lists[at].values@[slot],
    decreases level + 1, lists[level].values@.len() - index,
{
    if index >= lists[level].values@.len() {
        lemma_slot_has_entry(lists, level - 1, 0, at, slot)
    } else {
        lemma_entries_step(lists, level, index);
        if at == level && slot == index {
            0
        } else {
            let rest = lemma_slot_has_entry(lists, level, index + 1, at, slot);
            match lists[level].values@[index] {
                Some(entry) => {
                    assert(entries_from(lists, level, index)[rest + 1] == entries_from(
                        lists,
                        level,
                        index,
                    ).drop_first()[rest]);
                    rest + 1
                },
                None => rest,
            }
        }
    }
}

/// No id has two entries.
pub proof fn lemma_entries_distinct<T>(lists: Seq<List<T>>, level: int, index: int)
    requires
        unique(lists),
        level < lists.len(),
        index >= 0,
    ensures
        forall|j: int, k: int|
            0 <= j < k < entries_from(lists, level, index).len() ==> (
            #[trigger] entries_from(lists, level, index)[j]).0 != (
            #[trigger] entries_from(lists, level, index)[k]).0,
    decreases level + 1, lists[level].values@.len() - index,
{
    if level < 0 {
    } else if index >= lists[level].values@.len() {
        lemma_entries_distinct(lists, level - 1, 0);
        assert(entries_from(lists, level, index) == entries_from(lists, level - 1, 0));
    } else {
        let all = entries_from(lists, level, index);
        let rest = entries_from(lists, level, index + 1);
        lemma_entries_step(lists, level, index);
        lemma_entries_distinct(lists, level, index + 1);
        if lists[level].values@[index] is Some {
            assert forall|j: int, k: int| 0 <= j < k < all.len() implies (#[trigger] all[j]).0 != (
            #[trigger] all[k]).0 by {
                assert(all[k] == all.drop_first()[k - 1]);
                if j == 0 {
                    let (at, slot) = lemma_entry_has_slot(lists, level, index + 1, k - 1);
                    if all[k].0 == all[0].0 {
                        assert(holds(lists, level, index, all[0].0));
                        assert(holds(lists, at, slot, all[0].0));
                    }
                } else {
                    assert(all[j] == all.drop_first()[j - 1]);
                    assert(rest[j - 1].0 != rest[k - 1].0);
                }
            }
        } else {
            assert(all == rest);
        }
    }
}

/// The entries of a chain are its contents: every id that has a value has it in
/// exactly one entry, and the number of entries is the number of values.
pub proof fn lemma_entries_are_contents<T>(lists: Seq<List<T>>)
    requires
        unique(lists),
    ensures
        forall|k: int|
            0 <= k < entries(lists).len() ==> {
                &&& contents(lists).contains_key((#[trigger] entries(lists)[k]).0)
                &&& contents(lists)[entries(lists)[k].0] == entries(lists)[k].1
            },
        forall|id: usize| #[trigger]
            contents(lists).contains_key(id) ==> entries(lists).contains((id, contents(lists)[id])),
        forall|j: int, k: int|
            0 <= j < k < entries(lists).len() ==> (#[trigger] entries(lists)[j]).0 != (
            #[trigger] entries(lists)[k]).0,
        contents(lists).dom().finite(),
        contents(lists).len() == entries(lists).len(),
{
    let all = entries(lists);
    let top = lists.len() - 1;
    lemma_entries_distinct(lists, top, 0);
    assert forall|k: int| 0 <= k < all.len() implies {
        &&& contents(lists).contains_key((#[trigger] all[k]).0)
        &&& contents(lists)[all[k].0] == all[k].1
    } by {
        let (at, slot) = lemma_entry_has_slot(lists, top, 0, k);
        assert(holds(lists, at, slot, all[k].0));
        lemma_contents(lists, at, slot, all[k].0);
    }
    assert forall|id: usize| #[trigger] contents(lists).contains_key(id) implies all.contains(
        (id, contents(lists)[id]),
    ) by {
        let (at, slot) = choose|level: int, slot: int| holds(lists, level, slot, id);
        assert(holds(lists, at, slot, id));
        lemma_contents(lists, at, slot, id);
        let k = lemma_slot_has_entry(lists, top, 0, at, slot);
        assert(all[k] == (id, contents(lists)[id]));
    }
    let ids = all.map_values(|entry: (usize, T)| entry.0);
    assert(ids.no_duplicates());
    ids.unique_seq_to_set();
    assert(ids.to_set() =~= contents(lists).dom()) by {
        assert forall|id: usize| contents(lists).contains_key(id) implies ids.contains(id) by {
            let k = choose|k: int| 0 <= k < all.len() && all[k] == (id, contents(lists)[id]);
            assert(ids[k] == id);
        }
        assert forall|id: usize| ids.contains(id) implies contents(lists).contains_key(id) by {
            let k = choose|k: int| 0 <= k < ids.len() && ids[k] == id;
            assert(contents(lists).contains_key(all[k].0));
        }
    }
    ids.lemma_cardinality_of_set();
}

/// Chains that differ in one slot have the same lengths, and the same slots
/// occupied but for that one.
proof fn lemma_same_but<T>(a: Seq<List<T>>, b: Seq<List<T>>, at: int, slot: int)
    requires
        same_but(a, b, at, slot),
        growing(a),
    ensures
        growing(b),
        forall|l: int, i: int|
            !(l == at && i == slot) && #[trigger] occupied(a, l, i) ==> {
                &&& occupied(b, l, i)
                &&& a[l].values@[i] == b[l].values@[i]
            },
        forall|l: int, i: int|
            !(l == at && i == slot) && #[trigger] occupied(b, l, i) ==> {
                &&& occupied(a, l, i)
                &&& a[l].values@[i] == b[l].values@[i]
            },
{
    assert forall|l: int| 0 <= l < a.len() implies (#[trigger] a[l]).values@.len() == (
    #[trigger] b[l]).values@.len() by {
        if l != at {
            assert(a[l].values@ == b[l].values@);
        }
    }
    assert forall|l: int, i: int|
        0 <= l < a.len() && 0 <= i < a[l].values@.len() && !(l == at && i
            == slot) implies #[trigger] a[l].values@[i] == #[trigger] b[l].values@[i] by {
        if l != at {
            assert(a[l].values@ == b[l].values@);
        }
    }
    assert forall|older: int, newer: int| 0 <= older < newer < b.len() implies {
        &&& (#[trigger] b[older]).values@.len() < (#[trigger] b[newer]).values@.len()
        &&& 2 * b[older].values@.len() <= b[newer].values@.len()
    } by {
        assert(a[older].values@.len() < a[newer].values@.len());
        assert(a[older].values@.len() == b[older].values@.len());
        assert(a[newer].values@.len() == b[newer].values@.len());
    }
    assert forall|l: int| 0 <= l < b.len() implies (#[trigger] b[l]).values@.len()
        <= isize::MAX by {
        assert(a[l].values@.len() == b[l].values@.len());
    }
    assert forall|l: int, i: int|
        !(l == at && i == slot) && #[trigger] occupied(a, l, i) implies {
        &&& occupied(b, l, i)
        &&& a[l].values@[i] == b[l].values@[i]
    } by {
        assert(a[l].values@.len() == b[l].values@.len());
        assert(a[l].values@[i] == b[l].values@[i]);
    }
    assert forall|l: int, i: int|
        !(l == at && i == slot) && #[trigger] occupied(b, l, i) implies {
        &&& occupied(a, l, i)
        &&& a[l].values@[i] == b[l].values@[i]
    } by {
        assert(a[l].values@.len() == b[l].values@.len());
        assert(a[l].values@[i] == b[l].values@[i]);
    }
}

/// Filling an empty slot with the value of a thread that has none adds that value
/// and nothing else.
pub proof fn lemma_fill<T>(a: Seq<List<T>>, b: Seq<List<T>>, at: int, slot: int, id: usize)
    requires
        same_but(a, b, at, slot),
        growing(a),
        unique(a),
        !present(a, id),
        a[at].values@[slot] is None,
        holds(b, at, slot, id),
    ensures
        growing(b),
        unique(b),
        contents(b) == contents(a).insert(id, (b[at].values@[slot]->0).1),
        entries(b).len() == entries(a).len() + 1,
{
    lemma_same_but(a, b, at, slot);
    lemma_entries_fill(a, b, at, slot, a.len() - 1, 0);
    assert forall|l: int, s: int, m: int, t: int, other: usize| #[trigger]
        holds(b, l, s, other) && #[trigger] holds(b, m, t, other) implies l == m && s == t by {
        if !(l == at && s == slot) {
            assert(occupied(b, l, s));
            assert(holds(a, l, s, other));
        }
        if !(m == at && t == slot) {
            assert(occupied(b, m, t));
            assert(holds(a, m, t, other));
        }
    }
    lemma_contents(b, at, slot, id);
    lemma_contents_elsewhere(a, b, at, slot, id);
    assert(contents(b) =~= contents(a).insert(id, (b[at].values@[slot]->0).1));
}

/// Emptying the slot that holds the value of a thread removes that value and
/// nothing else.
pub proof fn lemma_vacate<T>(a: Seq<List<T>>, b: Seq<List<T>>, at: int, slot: int, id: usize)
    requires
        same_but(a, b, at, slot),
        growing(a),
        unique(a),
        holds(a, at, slot, id),
        b[at].values@[slot] is None,
    ensures
        growing(b),
        unique(b),
        !present(b, id),
        contents(b) == contents(a).remove(id),
        entries(a).len() == entries(b).len() + 1,
{
    lemma_same_but(a, b, at, slot);
    assert(same_but(b, a, at, slot)) by {
        assert forall|l: int| 0 <= l < b.len() && l != at implies (#[trigger] b[l]).values@ == (
        #[trigger] a[l]).values@ by {}
    }
    lemma_entries_fill(b, a, at, slot, a.len() - 1, 0);
    assert forall|l: int, s: int, other: usize| #[trigger] holds(b, l, s, other) implies holds(
        a,
        l,
        s,
        other,
    ) && other != id by {
        assert(occupied(b, l, s));
        if other == id {
            assert(holds(a, l, s, id));
        }
    }
    lemma_contents_elsewhere(a, b, at, slot, id);
    assert(contents(b) =~= contents(a).remove(id));
}

/// Writing another value over that of a thread replaces that value and nothing
/// else.
pub proof fn lemma_overwrite<T>(a: Seq<List<T>>, b: Seq<List<T>>, at: int, slot: int, id: usize)
    requires
        same_but(a, b, at, slot),
        growing(a),
        unique(a),
        holds(a, at, slot, id),
        holds(b, at, slot, id),
    ensures
        growing(b),
        unique(b),
        contents(b) == contents(a).insert(id, (b[at].values@[slot]->0).1),
        entries(b).len() == entries(a).len(),
{
    lemma_same_but(a, b, at, slot);
    assert forall|l: int, i: int| #[trigger]
        occupied(a, l, i) <==> #[trigger] occupied(b, l, i) by {}
    assert forall|l: int| 0 <= l < a.len() implies (#[trigger] a[l]).values@.len() == (
    #[trigger] b[l]).values@.len() by {
        if l != at {
            assert(a[l].values@ == b[l].values@);
        }
    }
    lemma_entries_same_shape(a, b, a.len() - 1, 0);
    assert forall|l: int, s: int, other: usize| #[trigger] holds(b, l, s, other) implies holds(
        a,
        l,
        s,
        other,
    ) by {
        assert(occupied(b, l, s));
    }
    lemma_contents(b, at, slot, id);
    lemma_contents_elsewhere(a, b, at, slot, id);
    assert(contents(b) =~= contents(a).insert(id, (b[at].values@[slot]->0).1));
}

/// Chains that differ only in a slot for one thread have the same values for all
/// other threads.
proof fn lemma_contents_elsewhere<T>(
    a: Seq<List<T>>,
    b: Seq<List<T>>,
    at: int,
    slot: int,
    id: usize,
)
    requires
        same_but(a, b, at, slot),
        growing(a),
        unique(a),
        unique(b),
        occupied(a, at, slot) ==> holds(a, at, slot, id),
        occupied(b, at, slot) ==> holds(b, at, slot, id),
    ensures
        forall|other: usize|
            other != id ==> {
                &&& #[trigger] contents(a).contains_key(other) <==> contents(b).contains_key(other)
                &&& contents(a).contains_key(other) ==> contents(a)[other] == contents(b)[other]
            },
{
    lemma_same_but(a, b, at, slot);
    assert forall|other: usize| other != id implies {
        &&& #[trigger] contents(a).contains_key(other) <==> contents(b).contains_key(other)
        &&& contents(a).contains_key(other) ==> contents(a)[other] == contents(b)[other]
    } by {
        if contents(a).contains_key(other) {
            let (l, s) = choose|l: int, s: int| holds(a, l, s, other);
            assert(holds(a, l, s, other));
            assert(occupied(a, l, s));
            assert(holds(b, l, s, other));
            lemma_contents(a, l, s, other);
            lemma_contents(b, l, s, other);
        }
        if contents(b).contains_key(other) {
            let (l, s) = choose|l: int, s: int| holds(b, l, s, other);
            assert(holds(b, l, s, other));
            assert(occupied(b, l, s));
            assert(holds(a, l, s, other));
            lemma_contents(a, l, s, other);
        }
    }
}

/// Adding an empty list that is long enough changes no value.
pub proof fn lemma_extend<T>(a: Seq<List<T>>, list: List<T>)
    requires
        a.len() > 0,
        growing(a),
        unique(a),
        forall|i: int| 0 <= i < list.values@.len() ==> list.values@[i] is None,
        a.last().values@.len() < list.values@.len() <= isize::MAX,
        2 * a.last().values@.len() <= list.values@.len(),
    ensures
        growing(a.push(list)),
        unique(a.push(list)),
        contents(a.push(list)) == contents(a),
        entries(a.push(list)) == entries(a),
{
    let b = a.push(list);
    let top = a.len() - 1;
    assert(b[top + 1] == list);
    assert forall|l: int, s: int, id: usize| #[trigger] holds(b, l, s, id) implies holds(
        a,
        l,
        s,
        id,
    ) by {}
    assert forall|l: int, s: int, id: usize| #[trigger] holds(a, l, s, id) implies holds(
        b,
        l,
        s,
        id,
    ) by {}
    assert forall|older: int, newer: int| 0 <= older < newer < b.len() implies {
        &&& (#[trigger] b[older]).values@.len() < (#[trigger] b[newer]).values@.len()
        &&& 2 * b[older].values@.len() <= b[newer].values@.len()
    } by {
        if newer == top + 1 && older < top {
            assert(a[older].values@.len() < a[top].values@.len());
        }
    }
    lemma_entries_skip_empty(b, top + 1, 0);
    lemma_entries_agree(a, b, top, 0);
    assert forall|id: usize| #[trigger] contents(a).contains_key(id) implies contents(
        b,
    ).contains_key(id) && contents(a)[id] == contents(b)[id] by {
        let (l, s) = choose|l: int, s: int| holds(a, l, s, id);
        assert(holds(a, l, s, id));
        assert(holds(b, l, s, id));
        lemma_contents(a, l, s, id);
        lemma_contents(b, l, s, id);
    }
    assert forall|id: usize| #[trigger] contents(b).contains_key(id) implies contents(
        a,
    ).contains_key(id) by {
        let (l, s) = choose|l: int, s: int| holds(b, l, s, id);
        assert(holds(b, l, s, id));
        assert(holds(a, l, s, id));
    }
    assert(contents(b) =~= contents(a));
}

} // verus!
