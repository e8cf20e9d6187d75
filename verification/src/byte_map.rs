//! A map from byte strings to byte strings, kept as a list of entries.

use crate::named_keys::{order_of, Order};
use vstd::prelude::*;
use vstd::slice::*;

verus! {

/// The map that a list of entries stands for: each entry gives its key its
/// value, and of two entries with one key the later counts.
pub open spec fn entries_map(entries: Seq<(Vec<u8>, Vec<u8>)>) -> Map<Seq<u8>, Seq<u8>>
    decreases entries.len(),
{
    if entries.len() == 0 {
        Map::empty()
    } else {
        entries_map(entries.drop_last()).insert(entries.last().0@, entries.last().1@)
    }
}

/// Whether `at` is the place of the last entry for `key`.
pub open spec fn last_entry_for(entries: Seq<(Vec<u8>, Vec<u8>)>, key: Seq<u8>, at: int) -> bool {
    &&& 0 <= at < entries.len()
    &&& entries[at].0@ == key
    &&& forall|j: int| at < j < entries.len() ==> (#[trigger] entries[j]).0@ != key
}

/// Whether no entry is for `key`.
pub open spec fn no_entry_for(entries: Seq<(Vec<u8>, Vec<u8>)>, key: Seq<u8>) -> bool {
    forall|j: int| 0 <= j < entries.len() ==> (#[trigger] entries[j]).0@ != key
}

/// A key without an entry is not in the map.
proof fn lemma_absent(entries: Seq<(Vec<u8>, Vec<u8>)>, key: Seq<u8>)
    requires
        no_entry_for(entries, key),
    ensures
        !entries_map(entries).contains_key(key),
    decreases entries.len(),
{
    if entries.len() > 0 {
        let front = entries.drop_last();
        assert forall|j: int| 0 <= j < front.len() implies (#[trigger] front[j]).0@ != key by {
            assert(front[j] == entries[j]);
        }
        lemma_absent(front, key);
        assert(entries.last() == entries[entries.len() - 1]);
    }
}

/// The map gives a key the value of its last entry.
proof fn lemma_present(entries: Seq<(Vec<u8>, Vec<u8>)>, key: Seq<u8>, at: int)
    requires
        last_entry_for(entries, key, at),
    ensures
        entries_map(entries).contains_key(key),
        entries_map(entries)[key] == entries[at].1@,
    decreases entries.len(),
{
    if at < entries.len() - 1 {
        let front = entries.drop_last();
        assert(front[at] == entries[at]);
        assert forall|j: int| at < j < front.len() implies (#[trigger] front[j]).0@ != key by {
            assert(front[j] == entries[j]);
        }
        lemma_present(front, key, at);
        assert(entries.last() == entries[entries.len() - 1]);
    }
}

/// Replacing the last entry for a key gives the key the new value and changes nothing else.
proof fn lemma_replaced(
    entries: Seq<(Vec<u8>, Vec<u8>)>,
    key: Seq<u8>,
    at: int,
    entry: (Vec<u8>, Vec<u8>),
)
    requires
        last_entry_for(entries, key, at),
        entry.0@ == key,
    ensures
        entries_map(entries.update(at, entry)) == entries_map(entries).insert(key, entry.1@),
    decreases entries.len(),
{
    let after = entries.update(at, entry);
    if at == entries.len() - 1 {
        assert(after.drop_last() =~= entries.drop_last());
        assert(entries_map(after) =~= entries_map(entries).insert(key, entry.1@));
    } else {
        let front = entries.drop_last();
        assert(front[at] == entries[at]);
        assert forall|j: int| at < j < front.len() implies (#[trigger] front[j]).0@ != key by {
            assert(front[j] == entries[j]);
        }
        lemma_replaced(front, key, at, entry);
        assert(after.drop_last() =~= front.update(at, entry));
        assert(after.last() == entries.last());
        assert(entries.last() == entries[entries.len() - 1]);
        assert(entries_map(after) =~= entries_map(entries).insert(key, entry.1@));
    }
}

/// A map from byte strings to byte strings.
#[derive(Debug)]
pub struct ByteMap {
    entries: Vec<(Vec<u8>, Vec<u8>)>,
}

impl View for ByteMap {
    type V = Map<Seq<u8>, Seq<u8>>;

    closed spec fn view(&self) -> Map<Seq<u8>, Seq<u8>> {
        entries_map(self.entries@)
    }
}

impl ByteMap {
    /// The map without entries.
    pub fn new() -> (r: ByteMap)
        ensures
            r@ == Map::<Seq<u8>, Seq<u8>>::empty(),
    {
        ByteMap { entries: Vec::new() }
    }

    /// The place of the last entry for `key`.
    fn find(&self, key: &[u8]) -> (r: Option<usize>)
        ensures
            match r {
                Some(at) => last_entry_for(self.entries@, key@, at as int),
                None => no_entry_for(self.entries@, key@),
            },
    {
        let mut i: usize = self.entries.len();
        while i > 0
            invariant
                i <= self.entries@.len(),
                forall|j: int| i <= j < self.entries@.len() ==> (#[trigger] self.entries@[j]).0@ != key@,
            decreases i,
        {
            i -= 1;
            if let Order::Same = order_of(self.entries[i].0.as_slice(), key) {
                return Some(i);
            }
        }
        None
    }

    /// The value that `key` has.
    pub fn get(&self, key: &[u8]) -> (r: Option<&Vec<u8>>)
        ensures
            match r {
                Some(value) => self@.contains_key(key@) && self@[key@] == value@,
                None => !self@.contains_key(key@),
            },
    {
        match self.find(key) {
            Some(at) => {
                proof {
                    lemma_present(self.entries@, key@, at as int);
                }
                Some(&self.entries[at].1)
            },
            None => {
                proof {
                    lemma_absent(self.entries@, key@);
                }
                None
            },
        }
    }

    /// Gives `key` the value `value`, in place of the value it had, if it had one.
    pub fn insert(&mut self, key: &[u8], value: &[u8])
        ensures
            final(self)@ == old(self)@.insert(key@, value@),
    {
        let entry = (slice_to_vec(key), slice_to_vec(value));
        match self.find(key) {
            Some(at) => {
                proof {
                    lemma_replaced(self.entries@, key@, at as int, entry);
                }
                self.entries[at] = entry;
            },
            None => {
                let ghost before = self.entries@;
                self.entries.push(entry);
                assert(self.entries@.drop_last() =~= before);
            },
        }
    }
}

} // verus!
