//! Map from field names to [`Value`]s: the result of parsing and the input
//! of serialization.

use vstd::prelude::*;
use vstd::string::{StringExecFns, StrSliceExecFns};

use crate::value::{Value, ValueModel};

verus! {

/// The map described by a list of entries, later entries overriding earlier
/// ones with the same name.
pub open spec fn entries_map(entries: Seq<(String, Value)>) -> Map<Seq<char>, ValueModel>
    decreases entries.len(),
{
    if entries.len() == 0 {
        Map::empty()
    } else {
        entries_map(entries.drop_last()).insert(entries.last().0@, entries.last().1@)
    }
}

/// No two entries share a name.
pub open spec fn distinct_names(entries: Seq<(String, Value)>) -> bool {
    forall|i: int, j: int| 0 <= i < j < entries.len() ==> entries[i].0@ != entries[j].0@
}

/// Each entry of a list with distinct names is in its map.
pub proof fn lemma_entries_map_has(entries: Seq<(String, Value)>, i: int)
    requires
        distinct_names(entries),
        0 <= i < entries.len(),
    ensures
        entries_map(entries).contains_key(entries[i].0@),
        entries_map(entries)[entries[i].0@] == entries[i].1@,
    decreases entries.len(),
{
    if i < entries.len() - 1 {
        let prefix = entries.drop_last();
        assert(prefix[i] == entries[i]);
        lemma_entries_map_has(prefix, i);
        assert(entries.last().0@ != entries[i].0@);
    }
}

/// A name that no entry has is not in the map.
pub proof fn lemma_entries_map_lacks(entries: Seq<(String, Value)>, k: Seq<char>)
    requires
        forall|i: int| 0 <= i < entries.len() ==> entries[i].0@ != k,
    ensures
        !entries_map(entries).contains_key(k),
    decreases entries.len(),
{
    if entries.len() > 0 {
        let prefix = entries.drop_last();
        assert forall|i: int| 0 <= i < prefix.len() implies prefix[i].0@ != k by {
            assert(prefix[i] == entries[i]);
        }
        lemma_entries_map_lacks(prefix, k);
        assert(entries[entries.len() - 1].0@ != k);
    }
}

/// Replacing the entry of a name replaces its value in the map.
pub proof fn lemma_entries_map_update(entries: Seq<(String, Value)>, i: int, e: (String, Value))
    requires
        distinct_names(entries),
        0 <= i < entries.len(),
        e.0@ == entries[i].0@,
    ensures
        entries_map(entries.update(i, e)) == entries_map(entries).insert(e.0@, e.1@),
    decreases entries.len(),
{
    let upd = entries.update(i, e);
    if i == entries.len() - 1 {
        assert(upd.drop_last() == entries.drop_last());
        assert(entries_map(entries).insert(e.0@, e.1@) =~= entries_map(entries.drop_last()).insert(e.0@, e.1@));
    } else {
        let prefix = entries.drop_last();
        assert(upd.drop_last() == prefix.update(i, e));
        assert(prefix[i] == entries[i]);
        lemma_entries_map_update(prefix, i, e);
        assert(entries.last().0@ != e.0@);
        assert(entries_map(upd) =~= entries_map(entries).insert(e.0@, e.1@));
    }
}

/// `a` comes before `b`: the first character where they differ is lower in
/// code-point order, or `a` is a proper prefix of `b`. This is the order
/// of the UTF-8 bytes of the names.
pub open spec fn name_less(a: Seq<char>, b: Seq<char>) -> bool
    decreases a.len(),
{
    if a.len() == 0 {
        b.len() > 0
    } else if b.len() == 0 {
        false
    } else if a[0] != b[0] {
        (a[0] as int) < (b[0] as int)
    } else {
        name_less(a.drop_first(), b.drop_first())
    }
}

/// The entries are sorted by name, each name strictly before the next.
pub open spec fn sorted_names(entries: Seq<(String, Value)>) -> bool {
    forall|i: int, j: int| 0 <= i < j < entries.len() ==> name_less(entries[i].0@, entries[j].0@)
}

/// No name comes before itself.
pub proof fn lemma_name_less_irreflexive(a: Seq<char>)
    ensures
        !name_less(a, a),
    decreases a.len(),
{
    if a.len() > 0 {
        lemma_name_less_irreflexive(a.drop_first());
    }
}

/// The order on names is transitive.
pub proof fn lemma_name_less_transitive(a: Seq<char>, b: Seq<char>, c: Seq<char>)
    requires
        name_less(a, b),
        name_less(b, c),
    ensures
        name_less(a, c),
    decreases a.len(),
{
    if a.len() > 0 && b.len() > 0 && c.len() > 0 && a[0] == b[0] && b[0] == c[0] {
        lemma_name_less_transitive(a.drop_first(), b.drop_first(), c.drop_first());
    }
}

/// Of two different names, one comes before the other.
pub proof fn lemma_name_less_total(a: Seq<char>, b: Seq<char>)
    requires
        a != b,
    ensures
        name_less(a, b) || name_less(b, a),
    decreases a.len(),
{
    if a.len() > 0 && b.len() > 0 {
        if a[0] == b[0] {
            if a.drop_first() == b.drop_first() {
                assert(a =~= seq![a[0]] + a.drop_first());
                assert(b =~= seq![b[0]] + b.drop_first());
            }
            lemma_name_less_total(a.drop_first(), b.drop_first());
        } else {
            assert((a[0] as int) != (b[0] as int));
        }
    } else if a.len() == 0 && b.len() == 0 {
        assert(a =~= b);
    }
}

/// Whether `a` comes before `b` (see [`name_less`]).
fn name_precedes(a: &str, b: &str) -> (r: bool)
    ensures
        r == name_less(a@, b@),
{
    let la = a.unicode_len();
    let lb = b.unicode_len();
    let mut i: usize = 0;
    assert(a@.skip(0) =~= a@);
    assert(b@.skip(0) =~= b@);
    while i < la && i < lb
        invariant
            i <= la == a@.len(),
            i <= lb == b@.len(),
            name_less(a@, b@) == name_less(a@.skip(i as int), b@.skip(i as int)),
        decreases la - i,
    {
        let ca = a.get_char(i);
        let cb = b.get_char(i);
        if (ca as u32) != (cb as u32) {
            assert(a@.skip(i as int)[0] == ca);
            assert(b@.skip(i as int)[0] == cb);
            return (ca as u32) < (cb as u32);
        }
        assert(a@.skip(i as int).drop_first() =~= a@.skip(i + 1));
        assert(b@.skip(i as int).drop_first() =~= b@.skip(i + 1));
        i += 1;
    }
    i == la && i < lb
}

/// Inserting an entry with a new name anywhere in a list with distinct
/// names adds it to the map.
pub proof fn lemma_entries_map_insert_at(entries: Seq<(String, Value)>, pos: int, e: (String, Value))
    requires
        0 <= pos <= entries.len(),
        forall|i: int| 0 <= i < entries.len() ==> entries[i].0@ != e.0@,
    ensures
        entries_map(entries.insert(pos, e)) == entries_map(entries).insert(e.0@, e.1@),
    decreases entries.len(),
{
    let t = entries.insert(pos, e);
    if pos == entries.len() {
        assert(t.drop_last() =~= entries);
    } else {
        let d = entries.drop_last();
        assert(t.drop_last() =~= d.insert(pos, e));
        assert(t.last() == entries.last());
        assert forall|i: int| 0 <= i < d.len() implies d[i].0@ != e.0@ by {
            assert(d[i] == entries[i]);
        }
        lemma_entries_map_insert_at(d, pos, e);
        let l = entries.last();
        assert(l.0@ != e.0@);
        assert(entries_map(t) =~= entries_map(entries).insert(e.0@, e.1@));
    }
}

/// Field names mapped to values. Inserting a name that is already present
/// replaces its value.
#[derive(Debug)]
pub struct ValueMap {
    entries: Vec<(String, Value)>,
}

impl ValueMap {
    #[verifier::type_invariant]
    spec fn names_sorted(self) -> bool {
        distinct_names(self.entries@) && sorted_names(self.entries@)
    }
}

impl View for ValueMap {
    type V = Map<Seq<char>, ValueModel>;

    closed spec fn view(&self) -> Map<Seq<char>, ValueModel> {
        entries_map(self.entries@)
    }
}

impl ValueMap {
    /// An empty map.
    pub fn new() -> (m: Self)
        ensures
            m@ == Map::<Seq<char>, ValueModel>::empty(),
    {
        ValueMap { entries: Vec::new() }
    }

    /// Position of the entry named `key`, if any.
    fn find(&self, key: &String) -> (r: Option<usize>)
        ensures
            match r {
                Some(i) => i < self.entries@.len() && self.entries@[i as int].0@ == key@,
                None => forall|i: int| 0 <= i < self.entries@.len() ==> self.entries@[i].0@ != key@,
            },
    {
        let mut i: usize = 0;
        while i < self.entries.len()
            invariant
                i <= self.entries@.len(),
                forall|j: int| 0 <= j < i ==> self.entries@[j].0@ != key@,
            decreases self.entries@.len() - i,
        {
            if self.entries[i].0 == *key {
                return Some(i);
            }
            i += 1;
        }
        None
    }

    /// Associates `value` with `name`, replacing any previous value.
    pub fn insert(&mut self, name: String, value: Value)
        ensures
            final(self)@ == old(self)@.insert(name@, value@),
    {
        proof {
            use_type_invariant(&*self);
        }
        let mut entries = Vec::new();
        std::mem::swap(&mut entries, &mut self.entries);
        let ghost old_entries = entries@;
        let ghost k = name@;
        let ghost vm = value@;

        let mut i: usize = 0;
        let mut found_place = false;
        while i < entries.len() && !found_place
            invariant
                i <= entries@.len(),
                entries@ == old_entries,
                k == name@,
                forall|j: int| 0 <= j < i ==> name_less(#[trigger] entries@[j].0@, k),
                found_place ==> i < entries@.len() && !name_less(entries@[i as int].0@, k),
            decreases entries@.len() - i + if found_place { 0int } else { 1int },
        {
            if name_precedes(entries[i].0.as_str(), name.as_str()) {
                i += 1;
            } else {
                found_place = true;
            }
        }
        proof {
            assert forall|j: int| 0 <= j < i implies #[trigger] entries@[j].0@ != k by {
                if entries@[j].0@ == k {
                    lemma_name_less_irreflexive(k);
                }
            }
        }
        if i < entries.len() && entries[i].0 == name {
            proof {
                lemma_entries_map_update(entries@, i as int, (name, value));
            }
            entries.set(i, (name, value));
            assert(entries_map(entries@) == entries_map(old_entries).insert(k, vm));
        } else {
            proof {
                if i < old_entries.len() {
                    lemma_name_less_total(old_entries[i as int].0@, k);
                }
                assert forall|j: int| i <= j < old_entries.len() implies name_less(k, #[trigger] old_entries[j].0@) by {
                    if j > i {
                        lemma_name_less_transitive(k, old_entries[i as int].0@, old_entries[j].0@);
                    }
                }
                assert forall|j: int| 0 <= j < old_entries.len() implies #[trigger] old_entries[j].0@ != k by {
                    if j >= i && old_entries[j].0@ == k {
                        lemma_name_less_irreflexive(k);
                    }
                }
                lemma_entries_map_insert_at(old_entries, i as int, (name, value));
            }
            entries.insert(i, (name, value));
            proof {
                let t = entries@;
                assert(t == old_entries.insert(i as int, (name, value)));
                assert forall|a: int, b: int| 0 <= a < b < t.len() implies name_less(t[a].0@, t[b].0@) by {
                    if b < i {
                        assert(t[a] == old_entries[a] && t[b] == old_entries[b]);
                    } else if b == i {
                        assert(t[a] == old_entries[a]);
                    } else if a < i {
                        assert(t[a] == old_entries[a] && t[b] == old_entries[b - 1]);
                    } else if a == i {
                        assert(t[b] == old_entries[b - 1]);
                    } else {
                        assert(t[a] == old_entries[a - 1] && t[b] == old_entries[b - 1]);
                    }
                }
                assert forall|a: int, b: int| 0 <= a < b < t.len() implies t[a].0@ != t[b].0@ by {
                    if t[a].0@ == t[b].0@ {
                        lemma_name_less_irreflexive(t[a].0@);
                    }
                }
            }
        }
        std::mem::swap(&mut entries, &mut self.entries);
    }

    /// The value associated with `name`, if any.
    pub fn get(&self, name: &str) -> (r: Option<&Value>)
        ensures
            match r {
                Some(v) => self@.contains_key(name@) && self@[name@] == v@,
                None => !self@.contains_key(name@),
            },
    {
        proof {
            use_type_invariant(self);
        }
        let key = String::from_str(name);
        match self.find(&key) {
            Some(i) => {
                proof {
                    lemma_entries_map_has(self.entries@, i as int);
                }
                Some(&self.entries[i].1)
            },
            None => {
                proof {
                    lemma_entries_map_lacks(self.entries@, key@);
                }
                None
            },
        }
    }

    /// The entries as names and values, sorted by name (see [`name_less`]).
    pub fn into_entries(self) -> (r: Vec<(String, Value)>)
        ensures
            distinct_names(r@),
            sorted_names(r@),
            entries_map(r@) == self@,
    {
        proof {
            use_type_invariant(&self);
        }
        self.entries
    }
}

} // verus!
