//! The table of task queues, one per task type, keyed by the type's `TypeId`.
use vstd::prelude::*;

use std::any::TypeId;

verus! {

#[verifier::external_type_specification]
#[verifier::external_body]
pub struct ExTypeId(TypeId);

/// `==` on two `TypeId`s: true exactly when they identify the same type.
#[verifier::external_body]
fn same_type(a: &TypeId, b: &TypeId) -> (r: bool)
    ensures
        r == (*a == *b),
{
    a == b
}

/// The map that a list of (key, value) entries stands for.
pub open spec fn entries_map<V>(s: Seq<(TypeId, V)>) -> Map<TypeId, V>
    decreases s.len(),
{
    if s.len() == 0 {
        Map::empty()
    } else {
        entries_map(s.drop_last()).insert(s.last().0, s.last().1)
    }
}

/// No key occurs twice among the entries.
pub open spec fn keys_distinct<V>(s: Seq<(TypeId, V)>) -> bool {
    forall|i: int, j: int| 0 <= i < j < s.len() ==> (#[trigger] s[i]).0 != (#[trigger] s[j]).0
}

/// The table after making sure that `key` has a queue, `fresh` being the
/// queue made for it when it has none.
pub open spec fn created<V>(m: Map<TypeId, V>, key: TypeId, fresh: V) -> Map<TypeId, V> {
    if m.contains_key(key) {
        m
    } else {
        m.insert(key, fresh)
    }
}

/// The map of distinct entries holds exactly their keys, each with its value,
/// and has as many keys as there are entries.
proof fn lemma_entries_map<V>(s: Seq<(TypeId, V)>)
    requires
        keys_distinct(s),
    ensures
        entries_map(s).dom().finite(),
        entries_map(s).len() == s.len(),
        forall|i: int|
            0 <= i < s.len() ==> entries_map(s).contains_key(#[trigger] s[i].0) && entries_map(s)[s[i].0]
                == s[i].1,
        forall|k: TypeId|
            #[trigger] entries_map(s).contains_key(k) ==> exists|i: int| 0 <= i < s.len() && s[i].0 == k,
    decreases s.len(),
{
    if s.len() > 0 {
        let prev = s.drop_last();
        assert(keys_distinct(prev));
        lemma_entries_map(prev);
        assert(!entries_map(prev).contains_key(s.last().0)) by {
            if entries_map(prev).contains_key(s.last().0) {
                let i = choose|i: int| 0 <= i < prev.len() && prev[i].0 == s.last().0;
                assert(s[i].0 == s[s.len() - 1].0);
            }
        }
        assert forall|k: TypeId| #[trigger] entries_map(s).contains_key(k) implies exists|i: int|
            0 <= i < s.len() && s[i].0 == k by {
            if k != s.last().0 {
                let i = choose|i: int| 0 <= i < prev.len() && prev[i].0 == k;
                assert(s[i].0 == k);
            } else {
                assert(s[s.len() - 1].0 == k);
            }
        }
        assert forall|i: int| 0 <= i < s.len() implies entries_map(s).contains_key(#[trigger] s[i].0)
            && entries_map(s)[s[i].0] == s[i].1 by {
            if i < s.len() - 1 {
                assert(prev[i] == s[i]);
            }
        }
    }
}

/// Removing the entry of `key` from distinct entries removes `key` from their map.
proof fn lemma_entries_map_remove<V>(s: Seq<(TypeId, V)>, i: int)
    requires
        keys_distinct(s),
        0 <= i < s.len(),
    ensures
        keys_distinct(s.remove(i)),
        entries_map(s.remove(i)) == entries_map(s).remove(s[i].0),
{
    let t = s.remove(i);
    assert forall|a: int, b: int| 0 <= a < b < t.len() implies (#[trigger] t[a]).0 != (#[trigger] t[b]).0 by {
        let a2 = if a < i { a } else { a + 1 };
        let b2 = if b < i { b } else { b + 1 };
        assert(t[a] == s[a2] && t[b] == s[b2]);
    }
    lemma_entries_map(s);
    lemma_entries_map(t);
    let m = entries_map(s).remove(s[i].0);
    assert forall|k: TypeId| #[trigger] entries_map(t).contains_key(k) <==> m.contains_key(k) by {
        if entries_map(t).contains_key(k) {
            let j = choose|j: int| 0 <= j < t.len() && t[j].0 == k;
            let j2 = if j < i { j } else { j + 1 };
            assert(t[j] == s[j2]);
            assert(s[j2].0 != s[i].0);
        }
        if m.contains_key(k) {
            let j = choose|j: int| 0 <= j < s.len() && s[j].0 == k;
            assert(j != i);
            let j2 = if j < i { j } else { j - 1 };
            assert(t[j2] == s[j]);
        }
    }
    assert forall|k: TypeId| #[trigger] entries_map(t).contains_key(k) implies entries_map(t)[k] == m[k] by {
        let j = choose|j: int| 0 <= j < t.len() && t[j].0 == k;
        let j2 = if j < i { j } else { j + 1 };
        assert(t[j] == s[j2]);
    }
    assert(entries_map(t) =~= m);
}

/// The task queues of a program, at most one per task type, keyed by the
/// `TypeId` of the task type. The queues are values of type `V`.
pub struct TaskQueueManager<V> {
    entries: Vec<(TypeId, V)>,
}

impl<V> View for TaskQueueManager<V> {
    type V = Map<TypeId, V>;

    /// The queue of each task type that has one.
    closed spec fn view(&self) -> Map<TypeId, V> {
        entries_map(self.entries@)
    }
}

impl<V> TaskQueueManager<V> {
    #[verifier::type_invariant]
    spec fn wf(self) -> bool {
        keys_distinct(self.entries@)
    }

    /// An empty table.
    pub fn new() -> (r: Self)
        ensures
            r.view() == Map::<TypeId, V>::empty(),
            r.view().dom().finite(),
    {
        TaskQueueManager { entries: Vec::new() }
    }

    /// The position of the entry of `key`, if it has one.
    fn position(&self, key: &TypeId) -> (r: Option<usize>)
        ensures
            match r {
                Some(i) => i < self.entries@.len() && self.entries@[i as int].0 == *key,
                None => forall|i: int| 0 <= i < self.entries@.len() ==> (#[trigger] self.entries@[i]).0 != *key,
            },
    {
        let mut i: usize = 0;
        while i < self.entries.len()
            invariant
                i <= self.entries@.len(),
                forall|j: int| 0 <= j < i ==> (#[trigger] self.entries@[j]).0 != *key,
            decreases self.entries@.len() - i,
        {
            if same_type(&self.entries[i].0, key) {
                return Some(i);
            }
            i = i + 1;
        }
        None
    }

    /// The queue of the task type `key`, if it has one.
    pub fn get(&self, key: &TypeId) -> (r: Option<&V>)
        ensures
            self.view().contains_key(*key) ==> r == Some(&self.view()[*key]),
            !self.view().contains_key(*key) ==> r is None,
            self.view().dom().finite(),
    {
        proof {
            use_type_invariant(self);
            lemma_entries_map(self.entries@);
        }
        match self.position(key) {
            Some(i) => Some(&self.entries[i].1),
            None => None,
        }
    }

    /// Makes sure that the task type `key` has a queue: one that it has
    /// already is kept, otherwise `make` is called once for a new one.
    pub fn get_or_create<F: FnOnce() -> V>(&mut self, key: TypeId, make: F)
        requires
            make.requires(()),
        ensures
            old(self).view().contains_key(key) ==> final(self).view() == old(self).view(),
            !old(self).view().contains_key(key) ==> exists|fresh: V|
                make.ensures((), fresh) && final(self).view() == created(old(self).view(), key, fresh),
            final(self).view().contains_key(key),
            old(self).view().dom().finite(),
            final(self).view().dom().finite(),
            final(self).view().len() == if old(self).view().contains_key(key) {
                old(self).view().len()
            } else {
                old(self).view().len() + 1
            },
    {
        proof {
            use_type_invariant(&*self);
            lemma_entries_map(self.entries@);
        }
        match self.position(&key) {
            Some(_) => {},
            None => {
                let fresh = make();
                let mut entries: Vec<(TypeId, V)> = Vec::new();
                std::mem::swap(&mut entries, &mut self.entries);
                let ghost before = entries@;
                entries.push((key, fresh));
                proof {
                    assert(entries@.drop_last() =~= before);
                    assert(keys_distinct(entries@)) by {
                        assert forall|i: int, j: int| 0 <= i < j < entries@.len() implies (
                        #[trigger] entries@[i]).0 != (#[trigger] entries@[j]).0 by {
                            if j == entries@.len() - 1 {
                                assert(entries@[i] == before[i]);
                            } else {
                                assert(entries@[i] == before[i] && entries@[j] == before[j]);
                            }
                        }
                    }
                }
                self.entries = entries;
                proof {
                    assert(self.entries@.last() == (key, fresh));
                    assert(self.view() == old(self).view().insert(key, fresh));
                    assert(self.view() == created(old(self).view(), key, fresh));
                }
            },
        }
    }

    /// Removes the queue of the task type `key` and hands it back; `None`
    /// when the type has none, the table then staying as it was.
    pub fn remove(&mut self, key: &TypeId) -> (r: Option<V>)
        ensures
            old(self).view().contains_key(*key) ==> r == Some(old(self).view()[*key]),
            !old(self).view().contains_key(*key) ==> r is None,
            final(self).view() == old(self).view().remove(*key),
            old(self).view().dom().finite(),
            final(self).view().dom().finite(),
    {
        proof {
            use_type_invariant(&*self);
            lemma_entries_map(self.entries@);
        }
        match self.position(key) {
            Some(i) => {
                let mut entries: Vec<(TypeId, V)> = Vec::new();
                std::mem::swap(&mut entries, &mut self.entries);
                let ghost before = entries@;
                proof {
                    lemma_entries_map_remove(before, i as int);
                }
                let (_, v) = entries.remove(i);
                self.entries = entries;
                Some(v)
            },
            None => {
                proof {
                    assert(old(self).view().remove(*key) =~= old(self).view());
                }
                None
            },
        }
    }

    /// The number of task types that have a queue.
    pub fn queue_count(&self) -> (r: usize)
        ensures
            r == self.view().len(),
            self.view().dom().finite(),
    {
        proof {
            use_type_invariant(self);
            lemma_entries_map(self.entries@);
        }
        self.entries.len()
    }
}

impl<V> Default for TaskQueueManager<V> {
    fn default() -> (r: Self)
        ensures
            r.view() == Map::<TypeId, V>::empty(),
    {
        Self::new()
    }
}

/// Making sure twice that a task type has a queue keeps the first queue:
/// the second time changes nothing, whatever queue it would have made.
pub proof fn law_get_or_create_idempotent<V>(m: Map<TypeId, V>, key: TypeId, first: V, second: V)
    ensures
        created(m, key, first).contains_key(key),
        m.dom().finite() ==> created(m, key, first).len() == if m.contains_key(key) {
            m.len()
        } else {
            m.len() + 1
        },
        created(created(m, key, first), key, second) == created(m, key, first),
        created(m, key, first)[key] == if m.contains_key(key) {
            m[key]
        } else {
            first
        },
{
}

/// The queues of distinct task types are independent: making sure that one
/// type has a queue, or removing it, leaves the queue of every other type as
/// it was.
pub proof fn law_type_isolation<V>(m: Map<TypeId, V>, key: TypeId, other: TypeId, fresh: V)
    requires
        key != other,
    ensures
        created(m, key, fresh).contains_key(other) == m.contains_key(other),
        m.contains_key(other) ==> created(m, key, fresh)[other] == m[other],
        m.remove(key).contains_key(other) == m.contains_key(other),
        m.contains_key(other) ==> m.remove(key)[other] == m[other],
{
}

/// A removed queue is gone: its type has no queue afterwards, and the count
/// of queues drops by one when it had one.
pub proof fn law_remove_forgets<V>(m: Map<TypeId, V>, key: TypeId)
    requires
        m.dom().finite(),
    ensures
        !m.remove(key).contains_key(key),
        m.contains_key(key) ==> m.remove(key).len() == m.len() - 1,
        !m.contains_key(key) ==> m.remove(key).len() == m.len(),
{
    if !m.contains_key(key) {
        assert(m.remove(key) =~= m);
    }
}

} // verus!
