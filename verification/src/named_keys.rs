//! The directory of named keys that a contract or an account carries.
//!
//! A directory maps names to keys. It keeps its entries in the dictionary
//! order of the UTF-8 encodings of their names, each name once, so that one
//! mapping has one list of entries and one encoding.

use crate::bytesrepr::{
    decode_string, decode_u32, encode_string, encode_u32, fits_u32,
    lemma_decode_encode_string, lemma_decode_encode_u32, str_to_bytes, string_fits, Error,
    FromBytes, Parsed, ToBytes,
};
use crate::key::{decode_key, encode_key, lemma_decode_encode_key, Key, KeyView};
use vstd::bytes::*;
use vstd::prelude::*;
use vstd::utf8::*;

verus! {

/// How one byte string stands to another in dictionary order.
#[derive(Clone, Copy, Debug, PartialEq, Eq, Structural)]
pub enum Order {
    Before,
    Same,
    After,
}

/// Whether `a` comes strictly before `b` in dictionary order: at the first
/// place where they differ `a` has the smaller byte, or `a` ends there and `b` does not.
pub open spec fn precedes(a: Seq<u8>, b: Seq<u8>) -> bool
    decreases a.len(),
{
    if b.len() == 0 {
        false
    } else if a.len() == 0 {
        true
    } else if a[0] == b[0] {
        precedes(a.drop_first(), b.drop_first())
    } else {
        a[0] < b[0]
    }
}

/// Of two byte strings either one precedes the other or they are equal, and only one of the three.
pub proof fn lemma_precedes_trichotomy(a: Seq<u8>, b: Seq<u8>)
    ensures
        precedes(a, b) || a == b || precedes(b, a),
        !(precedes(a, b) && precedes(b, a)),
        !(precedes(a, b) && a == b),
    decreases a.len(),
{
    if a.len() == 0 || b.len() == 0 {
        if a.len() == 0 && b.len() == 0 {
            assert(a =~= b);
        }
    } else if a[0] == b[0] {
        lemma_precedes_trichotomy(a.drop_first(), b.drop_first());
        if a.drop_first() == b.drop_first() {
            assert(a =~= seq![a[0]] + a.drop_first());
            assert(b =~= seq![b[0]] + b.drop_first());
        }
    }
}

/// Dictionary order is transitive.
pub proof fn lemma_precedes_transitive(a: Seq<u8>, b: Seq<u8>, c: Seq<u8>)
    requires
        precedes(a, b),
        precedes(b, c),
    ensures
        precedes(a, c),
    decreases a.len(),
{
    if a.len() > 0 && a[0] == b[0] && b[0] == c[0] {
        lemma_precedes_transitive(a.drop_first(), b.drop_first(), c.drop_first());
    }
}

/// Compares two byte strings in dictionary order.
pub fn order_of(a: &[u8], b: &[u8]) -> (r: Order)
    ensures
        r is Before <==> precedes(a@, b@),
        r is Same <==> a@ == b@,
        r is After <==> precedes(b@, a@),
{
    let mut i: usize = 0;
    assert(a@.skip(0) =~= a@ && b@.skip(0) =~= b@);
    while i < a.len() && i < b.len() && a[i] == b[i]
        invariant
            i <= a@.len(),
            i <= b@.len(),
            precedes(a@, b@) == precedes(a@.skip(i as int), b@.skip(i as int)),
            precedes(b@, a@) == precedes(b@.skip(i as int), a@.skip(i as int)),
            (a@ == b@) == (a@.skip(i as int) == b@.skip(i as int)),
        decreases a@.len() - i,
    {
        proof {
            let x = a@.skip(i as int);
            let y = b@.skip(i as int);
            assert(x.drop_first() =~= a@.skip(i + 1));
            assert(y.drop_first() =~= b@.skip(i + 1));
            if x.drop_first() == y.drop_first() {
                assert(x =~= seq![x[0]] + x.drop_first());
                assert(y =~= seq![y[0]] + y.drop_first());
            }
        }
        i += 1;
    }
    proof {
        let x = a@.skip(i as int);
        let y = b@.skip(i as int);
        lemma_precedes_trichotomy(x, y);
        if i < a@.len() && i < b@.len() {
            assert(x[0] == a@[i as int] && y[0] == b@[i as int]);
        }
    }
    if i == a.len() {
        if i == b.len() {
            Order::Same
        } else {
            Order::Before
        }
    } else if i == b.len() {
        Order::After
    } else if a[i] < b[i] {
        Order::Before
    } else {
        Order::After
    }
}

/// Whether the name `a` comes before the name `b`: the order of their UTF-8 encodings.
pub open spec fn name_precedes(a: Seq<char>, b: Seq<char>) -> bool {
    precedes(encode_utf8(a), encode_utf8(b))
}

/// Texts with the same UTF-8 encoding are the same text.
pub proof fn lemma_encode_utf8_injective(a: Seq<char>, b: Seq<char>)
    requires
        encode_utf8(a) == encode_utf8(b),
    ensures
        a == b,
{
    encode_utf8_decode_utf8(a);
    encode_utf8_decode_utf8(b);
}

/// Compares two names.
pub fn name_order(a: &str, b: &str) -> (r: Order)
    ensures
        r is Before <==> name_precedes(a@, b@),
        r is Same <==> a@ == b@,
        r is After <==> name_precedes(b@, a@),
{
    proof {
        if encode_utf8(a@) == encode_utf8(b@) {
            lemma_encode_utf8_injective(a@, b@);
        }
    }
    order_of(a.as_bytes(), b.as_bytes())
}

/// The entries of a directory as mathematical values: names with their keys.
pub type Entries = Seq<(Seq<char>, KeyView)>;

/// Whether the names stand in strictly increasing order, hence each once.
pub open spec fn names_increasing(entries: Entries) -> bool {
    forall|i: int, j: int|
        0 <= i < j < entries.len() ==> name_precedes(#[trigger] entries[i].0, #[trigger] entries[j].0)
}

/// The entries after `name` has been given `key`: the entry replaces the one
/// with that name, or takes its place in the order.
pub open spec fn insert_entry(entries: Entries, name: Seq<char>, key: KeyView) -> Entries
    decreases entries.len(),
{
    if entries.len() == 0 {
        seq![(name, key)]
    } else if name_precedes(entries[0].0, name) {
        seq![entries[0]] + insert_entry(entries.drop_first(), name, key)
    } else if entries[0].0 == name {
        seq![(name, key)] + entries.drop_first()
    } else {
        seq![(name, key)] + entries
    }
}

/// The key that `name` has among the entries.
pub open spec fn lookup(entries: Entries, name: Seq<char>) -> Option<KeyView>
    decreases entries.len(),
{
    if entries.len() == 0 {
        None
    } else if entries[0].0 == name {
        Some(entries[0].1)
    } else {
        lookup(entries.drop_first(), name)
    }
}

/// Where `name` belongs among increasing entries: behind `at` smaller names.
proof fn lemma_insert_entry_at(entries: Entries, name: Seq<char>, key: KeyView, at: int)
    requires
        0 <= at <= entries.len(),
        forall|j: int| 0 <= j < at ==> name_precedes(#[trigger] entries[j].0, name),
        at < entries.len() ==> !name_precedes(entries[at].0, name),
    ensures
        insert_entry(entries, name, key) == if at < entries.len() && entries[at].0 == name {
            entries.update(at, (name, key))
        } else {
            entries.insert(at, (name, key))
        },
    decreases at,
{
    if at == 0 {
        if entries.len() == 0 {
            assert(entries.insert(0, (name, key)) =~= seq![(name, key)]);
        } else if entries[0].0 == name {
            assert(entries.update(0, (name, key)) =~= seq![(name, key)] + entries.drop_first());
        } else {
            assert(entries.insert(0, (name, key)) =~= seq![(name, key)] + entries);
        }
    } else {
        let tail = entries.drop_first();
        assert(name_precedes(entries[0].0, name));
        assert forall|j: int| 0 <= j < at - 1 implies name_precedes(#[trigger] tail[j].0, name) by {
            assert(tail[j] == entries[j + 1]);
        }
        lemma_insert_entry_at(tail, name, key, at - 1);
        if at < entries.len() && entries[at].0 == name {
            assert(entries.update(at, (name, key)) =~= seq![entries[0]] + tail.update(
                at - 1,
                (name, key),
            ));
        } else {
            assert(entries.insert(at, (name, key)) =~= seq![entries[0]] + tail.insert(
                at - 1,
                (name, key),
            ));
        }
    }
}

/// Giving a name a key keeps the order of the names.
pub proof fn lemma_insert_entry_increasing(entries: Entries, name: Seq<char>, key: KeyView)
    requires
        names_increasing(entries),
    ensures
        names_increasing(insert_entry(entries, name, key)),
    decreases entries.len(),
{
    let after = insert_entry(entries, name, key);
    if entries.len() == 0 {
    } else if name_precedes(entries[0].0, name) {
        let tail = entries.drop_first();
        assert forall|i: int, j: int| 0 <= i < j < tail.len() implies name_precedes(
            #[trigger] tail[i].0,
            #[trigger] tail[j].0,
        ) by {
            assert(tail[i] == entries[i + 1] && tail[j] == entries[j + 1]);
        }
        lemma_insert_entry_increasing(tail, name, key);
        let rest = insert_entry(tail, name, key);
        lemma_insert_entry_names(tail, name, key);
        assert forall|i: int, j: int| 0 <= i < j < after.len() implies name_precedes(
            #[trigger] after[i].0,
            #[trigger] after[j].0,
        ) by {
            if i == 0 {
                let n = rest[j - 1].0;
                if n != name {
                    let k = choose|k: int| 0 <= k < tail.len() && tail[k].0 == n;
                    assert(tail[k] == entries[k + 1]);
                }
            } else {
                assert(after[i] == rest[i - 1] && after[j] == rest[j - 1]);
            }
        }
    } else if entries[0].0 == name {
        assert forall|i: int, j: int| 0 <= i < j < after.len() implies name_precedes(
            #[trigger] after[i].0,
            #[trigger] after[j].0,
        ) by {
            assert(after[i].0 == entries[i].0 && after[j].0 == entries[j].0);
        }
    } else {
        lemma_precedes_trichotomy(encode_utf8(entries[0].0), encode_utf8(name));
        if encode_utf8(entries[0].0) == encode_utf8(name) {
            lemma_encode_utf8_injective(entries[0].0, name);
        }
        assert forall|i: int, j: int| 0 <= i < j < after.len() implies name_precedes(
            #[trigger] after[i].0,
            #[trigger] after[j].0,
        ) by {
            if i == 0 {
                if j > 1 {
                    assert(after[j] == entries[j - 1]);
                    lemma_precedes_transitive(
                        encode_utf8(name),
                        encode_utf8(entries[0].0),
                        encode_utf8(entries[j - 1].0),
                    );
                }
            } else {
                assert(after[i] == entries[i - 1] && after[j] == entries[j - 1]);
            }
        }
    }
}

/// Every name after an insertion is the inserted one or was there before.
proof fn lemma_insert_entry_names(entries: Entries, name: Seq<char>, key: KeyView)
    ensures
        forall|j: int|
            0 <= j < insert_entry(entries, name, key).len() ==> {
                let n = #[trigger] insert_entry(entries, name, key)[j].0;
                n == name || exists|k: int| 0 <= k < entries.len() && entries[k].0 == n
            },
    decreases entries.len(),
{
    let after = insert_entry(entries, name, key);
    if entries.len() == 0 {
    } else if name_precedes(entries[0].0, name) {
        let tail = entries.drop_first();
        let rest = insert_entry(tail, name, key);
        lemma_insert_entry_names(tail, name, key);
        assert forall|j: int| 0 <= j < after.len() implies {
            let n = #[trigger] after[j].0;
            n == name || exists|k: int| 0 <= k < entries.len() && entries[k].0 == n
        } by {
            let n = after[j].0;
            if j == 0 {
                assert(entries[0].0 == n);
            } else {
                assert(after[j] == rest[j - 1]);
                if n != name {
                    let k = choose|k: int| 0 <= k < tail.len() && tail[k].0 == n;
                    assert(entries[k + 1].0 == n);
                }
            }
        }
    } else if entries[0].0 == name {
        assert forall|j: int| 0 <= j < after.len() implies {
            let n = #[trigger] after[j].0;
            n == name || exists|k: int| 0 <= k < entries.len() && entries[k].0 == n
        } by {
            if j > 0 {
                assert(entries[j].0 == after[j].0);
            }
        }
    } else {
        assert forall|j: int| 0 <= j < after.len() implies {
            let n = #[trigger] after[j].0;
            n == name || exists|k: int| 0 <= k < entries.len() && entries[k].0 == n
        } by {
            if j > 0 {
                assert(entries[j - 1].0 == after[j].0);
            }
        }
    }
}

/// After `name` has been given `key`, looking `name` up finds `key`.
pub proof fn lemma_lookup_inserted(entries: Entries, name: Seq<char>, key: KeyView)
    ensures
        lookup(insert_entry(entries, name, key), name) == Some(key),
    decreases entries.len(),
{
    let after = insert_entry(entries, name, key);
    if entries.len() == 0 {
    } else if name_precedes(entries[0].0, name) {
        lemma_precedes_trichotomy(encode_utf8(entries[0].0), encode_utf8(name));
        lemma_lookup_inserted(entries.drop_first(), name, key);
        assert(after.drop_first() =~= insert_entry(entries.drop_first(), name, key));
    } else {
    }
}

// ---------------------------------------------------------------------------
// entries as a mapping
// ---------------------------------------------------------------------------

/// The mapping that the entries stand for: each name has the key of its entry.
pub open spec fn mapping_of(entries: Entries) -> Map<Seq<char>, KeyView>
    decreases entries.len(),
{
    if entries.len() == 0 {
        Map::empty()
    } else {
        mapping_of(entries.drop_first()).insert(entries[0].0, entries[0].1)
    }
}

/// The names of the mapping are the names of the entries.
pub proof fn lemma_mapping_names(entries: Entries, name: Seq<char>)
    ensures
        mapping_of(entries).contains_key(name) <==> exists|i: int|
            0 <= i < entries.len() && (#[trigger] entries[i]).0 == name,
    decreases entries.len(),
{
    if entries.len() > 0 {
        let tail = entries.drop_first();
        lemma_mapping_names(tail, name);
        if mapping_of(entries).contains_key(name) {
            if entries[0].0 != name {
                let i = choose|i: int| 0 <= i < tail.len() && (#[trigger] tail[i]).0 == name;
                assert(entries[i + 1].0 == name);
            }
        }
        if exists|i: int| 0 <= i < entries.len() && (#[trigger] entries[i]).0 == name {
            let i = choose|i: int| 0 <= i < entries.len() && (#[trigger] entries[i]).0 == name;
            if i > 0 {
                assert(tail[i - 1].0 == name);
            }
        }
    }
}

/// Looking a name up is asking the mapping.
pub proof fn lemma_lookup_is_mapping(entries: Entries, name: Seq<char>)
    ensures
        lookup(entries, name) == if mapping_of(entries).contains_key(name) {
            Some(mapping_of(entries)[name])
        } else {
            None
        },
    decreases entries.len(),
{
    if entries.len() > 0 {
        lemma_lookup_is_mapping(entries.drop_first(), name);
    }
}

/// Giving a name a key changes the mapping at that name and nowhere else.
pub proof fn lemma_insert_entry_mapping(entries: Entries, name: Seq<char>, key: KeyView)
    ensures
        mapping_of(insert_entry(entries, name, key)) == mapping_of(entries).insert(name, key),
    decreases entries.len(),
{
    let after = insert_entry(entries, name, key);
    if entries.len() == 0 {
        assert(after.drop_first() =~= entries);
        assert(mapping_of(after) =~= mapping_of(entries).insert(name, key));
    } else if name_precedes(entries[0].0, name) {
        let tail = entries.drop_first();
        lemma_insert_entry_mapping(tail, name, key);
        lemma_precedes_trichotomy(encode_utf8(entries[0].0), encode_utf8(name));
        assert(after.drop_first() =~= insert_entry(tail, name, key));
        assert(mapping_of(after) =~= mapping_of(entries).insert(name, key));
    } else if entries[0].0 == name {
        assert(after.drop_first() =~= entries.drop_first());
        assert(mapping_of(after) =~= mapping_of(entries).insert(name, key));
    } else {
        assert(after.drop_first() =~= entries);
    }
}

/// The first of increasing entries has the least name, and no other entry has it.
proof fn lemma_first_is_least(entries: Entries, name: Seq<char>)
    requires
        names_increasing(entries),
        entries.len() > 0,
        mapping_of(entries).contains_key(name),
    ensures
        name == entries[0].0 || name_precedes(entries[0].0, name),
        !mapping_of(entries.drop_first()).contains_key(entries[0].0),
        mapping_of(entries)[entries[0].0] == entries[0].1,
{
    lemma_mapping_names(entries, name);
    let i = choose|i: int| 0 <= i < entries.len() && (#[trigger] entries[i]).0 == name;
    if i > 0 {
        assert(name_precedes(entries[0].0, entries[i].0));
    }
    let tail = entries.drop_first();
    lemma_mapping_names(tail, entries[0].0);
    if mapping_of(tail).contains_key(entries[0].0) {
        let j = choose|j: int| 0 <= j < tail.len() && (#[trigger] tail[j]).0 == entries[0].0;
        assert(tail[j] == entries[j + 1]);
        assert(name_precedes(entries[0].0, entries[j + 1].0));
        lemma_precedes_trichotomy(encode_utf8(entries[0].0), encode_utf8(entries[0].0));
    }
}

/// One mapping has one list of entries: increasing entries that stand for
/// the same mapping are the same entries, and so have the same encoding.
pub proof fn lemma_entries_unique(a: Entries, b: Entries)
    requires
        names_increasing(a),
        names_increasing(b),
        mapping_of(a) == mapping_of(b),
    ensures
        a == b,
    decreases a.len(),
{
    if a.len() == 0 {
        if b.len() > 0 {
            assert(mapping_of(b).contains_key(b[0].0));
        }
        assert(a =~= b);
    } else if b.len() == 0 {
        assert(mapping_of(a).contains_key(a[0].0));
    } else {
        assert(mapping_of(a).contains_key(a[0].0));
        assert(mapping_of(b).contains_key(b[0].0));
        lemma_first_is_least(a, b[0].0);
        lemma_first_is_least(b, a[0].0);
        lemma_precedes_trichotomy(encode_utf8(a[0].0), encode_utf8(b[0].0));
        assert(a[0].0 == b[0].0);
        assert(a[0].1 == b[0].1);
        lemma_entries_tail(a);
        lemma_entries_tail(b);
        let name = a[0].0;
        assert(mapping_of(a.drop_first()) =~= mapping_of(a).remove(name));
        assert(mapping_of(b.drop_first()) =~= mapping_of(b).remove(name));
        lemma_entries_unique(a.drop_first(), b.drop_first());
        assert(a =~= seq![a[0]] + a.drop_first());
        assert(b =~= seq![b[0]] + b.drop_first());
    }
}

// ---------------------------------------------------------------------------
// the encoding of a directory
// ---------------------------------------------------------------------------

/// One entry is its name followed by its key.
pub open spec fn encode_entry(entry: (Seq<char>, KeyView)) -> Seq<u8> {
    encode_string(entry.0) + encode_key(entry.1)
}

/// The entries, one after the other.
pub open spec fn encode_entries(entries: Entries) -> Seq<u8>
    decreases entries.len(),
{
    if entries.len() == 0 {
        Seq::<u8>::empty()
    } else {
        encode_entry(entries[0]) + encode_entries(entries.drop_first())
    }
}

/// The count of the entries, then the entries.
pub open spec fn encode_named_keys(entries: Entries) -> Seq<u8> {
    encode_u32(entries.len() as u32) + encode_entries(entries)
}

/// Whether every name and key of the entries has an encoding.
pub open spec fn entries_fit(entries: Entries) -> bool {
    forall|i: int|
        0 <= i < entries.len() ==> string_fits((#[trigger] entries[i]).0)
            && entries[i].1.serializable()
}

/// Whether the entries have an encoding.
pub open spec fn named_keys_serializable(entries: Entries) -> bool {
    fits_u32(entries.len()) && entries_fit(entries)
}

/// Decodes `count` entries from the front of `bytes`. Each name must come
/// after the one before it, and the first after `floor` where there is one.
pub open spec fn decode_entries(bytes: Seq<u8>, count: nat, floor: Option<Seq<char>>) -> Parsed<
    Entries,
>
    decreases count,
{
    if count == 0 {
        Ok((Seq::<(Seq<char>, KeyView)>::empty(), bytes))
    } else {
        match decode_string(bytes) {
            Ok((name, rest)) => if floor is Some && !name_precedes(floor->0, name) {
                Err(Error::Formatting)
            } else {
                match decode_key(rest) {
                    Ok((key, rest)) => match decode_entries(
                        rest,
                        (count - 1) as nat,
                        Some(name),
                    ) {
                        Ok((entries, left)) => Ok((seq![(name, key)] + entries, left)),
                        Err(e) => Err(e),
                    },
                    Err(e) => Err(e),
                }
            },
            Err(e) => Err(e),
        }
    }
}

/// The directory at the front of `bytes`: as many entries as its count says,
/// with their names in strictly increasing order.
pub open spec fn decode_named_keys(bytes: Seq<u8>) -> Parsed<Entries> {
    match decode_u32(bytes) {
        Ok((count, rest)) => decode_entries(rest, count as nat, None),
        Err(e) => Err(e),
    }
}

/// Encoding one more entry appends its encoding.
proof fn lemma_encode_entries_push(entries: Entries, entry: (Seq<char>, KeyView))
    ensures
        encode_entries(entries.push(entry)) == encode_entries(entries) + encode_entry(entry),
    decreases entries.len(),
{
    if entries.len() == 0 {
        assert(entries.push(entry).drop_first() =~= Seq::<(Seq<char>, KeyView)>::empty());
        assert(encode_entries(Seq::<(Seq<char>, KeyView)>::empty()) =~= Seq::<u8>::empty());
        assert(encode_entries(entries.push(entry)) =~= encode_entry(entry));
        assert(encode_entries(entries) + encode_entry(entry) =~= encode_entry(entry));
    } else {
        lemma_encode_entries_push(entries.drop_first(), entry);
        assert(entries.push(entry).drop_first() =~= entries.drop_first().push(entry));
        assert(encode_entries(entries.push(entry)) =~= encode_entries(entries) + encode_entry(
            entry,
        ));
    }
}

/// Entries without the first are still in order, all after the first, and still fit.
proof fn lemma_entries_tail(entries: Entries)
    requires
        entries.len() > 0,
    ensures
        names_increasing(entries) ==> names_increasing(entries.drop_first()),
        names_increasing(entries) && entries.len() > 1 ==> name_precedes(
            entries[0].0,
            entries.drop_first()[0].0,
        ),
        entries_fit(entries) ==> entries_fit(entries.drop_first()),
{
    let tail = entries.drop_first();
    if names_increasing(entries) {
        assert forall|i: int, j: int| 0 <= i < j < tail.len() implies name_precedes(
            #[trigger] tail[i].0,
            #[trigger] tail[j].0,
        ) by {
            assert(tail[i] == entries[i + 1] && tail[j] == entries[j + 1]);
        }
        if entries.len() > 1 {
            assert(tail[0] == entries[1]);
        }
    }
    if entries_fit(entries) {
        assert forall|i: int| 0 <= i < tail.len() implies string_fits((#[trigger] tail[i]).0)
            && tail[i].1.serializable() by {
            assert(tail[i] == entries[i + 1]);
        }
    }
}

/// Decoding encoded entries gives them back, when their names increase from `floor` on.
pub proof fn lemma_decode_encode_entries(entries: Entries, rest: Seq<u8>, floor: Option<Seq<char>>)
    requires
        entries_fit(entries),
        names_increasing(entries),
        floor is Some && entries.len() > 0 ==> name_precedes(floor->0, entries[0].0),
    ensures
        decode_entries(encode_entries(entries) + rest, entries.len(), floor) == Ok::<_, Error>(
            (entries, rest),
        ),
    decreases entries.len(),
{
    if entries.len() == 0 {
        assert(encode_entries(entries) + rest =~= rest);
        assert(entries =~= Seq::<(Seq<char>, KeyView)>::empty());
    } else {
        let (name, key) = entries[0];
        let tail = entries.drop_first();
        let after_entry = encode_entries(tail) + rest;
        let after_name = encode_key(key) + after_entry;
        let all = encode_entries(entries) + rest;
        assert(all =~= encode_string(name) + after_name);
        assert(string_fits(name) && key.serializable());
        assert(decode_string(all) == Ok::<_, Error>((name, after_name))) by {
            lemma_decode_encode_string(name, after_name);
        }
        assert(decode_key(after_name) == Ok::<_, Error>((key, after_entry))) by {
            lemma_decode_encode_key(key, after_entry);
        }
        lemma_entries_tail(entries);
        assert(decode_entries(after_entry, tail.len(), Some(name)) == Ok::<_, Error>(
            (tail, rest),
        )) by {
            lemma_decode_encode_entries(tail, rest, Some(name));
        }
        assert(seq![(name, key)] + tail =~= entries);
        lemma_decode_entries_step(all, entries.len(), floor);
    }
}

/// Decoding an encoded directory gives it back and leaves the rest of the input.
pub proof fn lemma_decode_encode_named_keys(entries: Entries, rest: Seq<u8>)
    requires
        named_keys_serializable(entries),
        names_increasing(entries),
    ensures
        decode_named_keys(encode_named_keys(entries) + rest) == Ok::<_, Error>((entries, rest)),
{
    let after = encode_entries(entries) + rest;
    assert(encode_named_keys(entries) + rest =~= encode_u32(entries.len() as u32) + after);
    lemma_decode_encode_u32(entries.len() as u32, after);
    lemma_decode_encode_entries(entries, rest, None);
}

/// What was decoded has `count` entries, in increasing order, all after `floor`.
pub proof fn lemma_decoded_entries(bytes: Seq<u8>, count: nat, floor: Option<Seq<char>>)
    requires
        decode_entries(bytes, count, floor) is Ok,
    ensures
        ({
            let entries = decode_entries(bytes, count, floor)->Ok_0.0;
            &&& entries.len() == count
            &&& names_increasing(entries)
            &&& floor is Some ==> forall|i: int|
                0 <= i < entries.len() ==> name_precedes(floor->0, (#[trigger] entries[i]).0)
        }),
    decreases count,
{
    if count > 0 {
        let (name, rest) = decode_string(bytes)->Ok_0;
        let (key, rest) = decode_key(rest)->Ok_0;
        let tail = decode_entries(rest, (count - 1) as nat, Some(name))->Ok_0.0;
        let entries = decode_entries(bytes, count, floor)->Ok_0.0;
        lemma_decoded_entries(rest, (count - 1) as nat, Some(name));
        assert(entries =~= seq![(name, key)] + tail);
        assert forall|i: int, j: int| 0 <= i < j < entries.len() implies name_precedes(
            #[trigger] entries[i].0,
            #[trigger] entries[j].0,
        ) by {
            assert(entries[j] == tail[j - 1]);
            if i > 0 {
                assert(entries[i] == tail[i - 1]);
            }
        }
        if floor is Some {
            assert forall|i: int| 0 <= i < entries.len() implies name_precedes(
                floor->0,
                (#[trigger] entries[i]).0,
            ) by {
                if i > 0 {
                    assert(entries[i] == tail[i - 1]);
                    lemma_precedes_transitive(
                        encode_utf8(floor->0),
                        encode_utf8(name),
                        encode_utf8(entries[i].0),
                    );
                }
            }
        }
    }
}

proof fn lemma_decode_entries_step(bytes: Seq<u8>, count: nat, floor: Option<Seq<char>>)
    requires
        count > 0,
    ensures
        decode_entries(bytes, count, floor) == match decode_string(bytes) {
            Ok((name, rest)) => if floor is Some && !name_precedes(floor->0, name) {
                Err(Error::Formatting)
            } else {
                match decode_key(rest) {
                    Ok((key, rest)) => match decode_entries(
                        rest,
                        (count - 1) as nat,
                        Some(name),
                    ) {
                        Ok((entries, left)) => Ok::<_, Error>((seq![(name, key)] + entries, left)),
                        Err(e) => Err(e),
                    },
                    Err(e) => Err(e),
                }
            },
            Err(e) => Err(e),
        },
{
}

// ---------------------------------------------------------------------------
// the directory
// ---------------------------------------------------------------------------

/// A directory of named keys.
#[derive(Debug, PartialEq, Eq)]
pub struct NamedKeys {
    entries: Vec<(String, Key)>,
}

/// The entries held in `v`, as mathematical values.
pub open spec fn entries_view(v: Seq<(String, Key)>) -> Entries {
    Seq::new(v.len(), |i: int| (v[i].0@, v[i].1@))
}

impl View for NamedKeys {
    type V = Entries;

    closed spec fn view(&self) -> Entries {
        entries_view(self.entries@)
    }
}

impl NamedKeys {
    #[verifier::type_invariant]
    spec fn ordered(self) -> bool {
        names_increasing(entries_view(self.entries@))
    }

    /// The directory without entries.
    pub fn new() -> (r: NamedKeys)
        ensures
            r@ == Seq::<(Seq<char>, KeyView)>::empty(),
    {
        let r = NamedKeys { entries: Vec::new() };
        assert(r@ =~= Seq::<(Seq<char>, KeyView)>::empty());
        r
    }

    /// The number of entries.
    pub fn len(&self) -> (r: usize)
        ensures
            r == self@.len(),
    {
        self.entries.len()
    }

    /// The entry at place `i` of the order.
    pub fn entry(&self, i: usize) -> (r: (&String, &Key))
        requires
            i < self@.len(),
        ensures
            (r.0@, r.1@) == self@[i as int],
    {
        (&self.entries[i].0, &self.entries[i].1)
    }

    /// Establishes that the names of a directory increase, which holds of every directory.
    pub fn ordered_names(&self)
        ensures
            names_increasing(self@),
    {
        proof {
            use_type_invariant(self);
        }
    }

    /// The key that `name` has here.
    pub fn get(&self, name: &str) -> (r: Option<&Key>)
        ensures
            match r {
                Some(key) => lookup(self@, name@) == Some(key@) && mapping_of(self@).contains_key(
                    name@,
                ) && mapping_of(self@)[name@] == key@,
                None => lookup(self@, name@) is None && !mapping_of(self@).contains_key(name@),
            },
    {
        proof {
            lemma_lookup_is_mapping(self@, name@);
        }
        let mut i: usize = 0;
        assert(self@.skip(0) =~= self@);
        while i < self.entries.len()
            invariant
                i <= self.entries@.len(),
                lookup(self@, name@) == lookup(self@.skip(i as int), name@),
                lookup(self@, name@) == if mapping_of(self@).contains_key(name@) {
                    Some(mapping_of(self@)[name@])
                } else {
                    None
                },
            decreases self.entries@.len() - i,
        {
            assert(self@.skip(i as int).drop_first() =~= self@.skip(i + 1));
            if let Order::Same = name_order(self.entries[i].0.as_str(), name) {
                return Some(&self.entries[i].1);
            }
            i += 1;
        }
        None
    }

    /// Gives `name` the key `key`, in place of the key it had, if it had one.
    pub fn insert(self, name: String, key: Key) -> (r: NamedKeys)
        ensures
            r@ == insert_entry(self@, name@, key@),
            mapping_of(r@) == mapping_of(self@).insert(name@, key@),
    {
        proof {
            use_type_invariant(&self);
            lemma_insert_entry_increasing(self@, name@, key@);
            lemma_insert_entry_mapping(self@, name@, key@);
        }
        let ghost before = self@;
        let mut entries = self.entries;
        let mut at: usize = 0;
        let mut found = false;
        while at < entries.len()
            invariant_except_break
                !found,
            invariant
                at <= entries@.len(),
                entries_view(entries@) == before,
                forall|j: int| 0 <= j < at ==> name_precedes(#[trigger] before[j].0, name@),
            ensures
                at <= entries@.len(),
                entries_view(entries@) == before,
                forall|j: int| 0 <= j < at ==> name_precedes(#[trigger] before[j].0, name@),
                at < entries@.len() ==> !name_precedes(before[at as int].0, name@),
                found <==> at < entries@.len() && before[at as int].0 == name@,
            decreases entries@.len() - at,
        {
            match name_order(entries[at].0.as_str(), name.as_str()) {
                Order::Before => {
                    at += 1;
                },
                Order::Same => {
                    proof {
                        lemma_precedes_trichotomy(encode_utf8(name@), encode_utf8(name@));
                    }
                    found = true;
                    break ;
                },
                Order::After => {
                    proof {
                        lemma_precedes_trichotomy(
                            encode_utf8(before[at as int].0),
                            encode_utf8(name@),
                        );
                    }
                    break ;
                },
            }
        }
        proof {
            lemma_insert_entry_at(before, name@, key@, at as int);
        }
        if found {
            entries[at] = (name, key);
            assert(entries_view(entries@) =~= before.update(at as int, (name@, key@)));
        } else {
            entries.insert(at, (name, key));
            assert(entries_view(entries@) =~= before.insert(at as int, (name@, key@)));
        }
        NamedKeys { entries }
    }
}

impl Clone for NamedKeys {
    fn clone(&self) -> (r: NamedKeys)
        ensures
            r@ == self@,
    {
        proof {
            use_type_invariant(self);
        }
        let mut entries: Vec<(String, Key)> = Vec::new();
        let mut i: usize = 0;
        while i < self.entries.len()
            invariant
                i <= self.entries@.len(),
                entries@.len() == i,
                entries_view(entries@) == entries_view(self.entries@).take(i as int),
            decreases self.entries@.len() - i,
        {
            let name = self.entries[i].0.clone();
            let key = self.entries[i].1.clone();
            let ghost copied = entries@;
            entries.push((name, key));
            i += 1;
            assert forall|j: int| 0 <= j < i implies entries_view(entries@)[j] == entries_view(
                self.entries@,
            )[j] by {
                if j < i - 1 {
                    assert(entries@[j] == copied[j]);
                    assert(entries_view(copied)[j] == entries_view(self.entries@).take(i - 1)[j]);
                }
            }
            assert(entries_view(entries@) =~= entries_view(self.entries@).take(i as int));
        }
        assert(entries_view(self.entries@).take(i as int) =~= entries_view(self.entries@));
        NamedKeys { entries }
    }
}

impl ToBytes for NamedKeys {
    open spec fn encoding(&self) -> Result<Seq<u8>, Error> {
        if named_keys_serializable(self@) {
            Ok(encode_named_keys(self@))
        } else {
            Err(Error::OutOfMemory)
        }
    }

    fn to_bytes(&self) -> (r: Result<Vec<u8>, Error>) {
        if self.entries.len() > u32::MAX as usize {
            return Err(Error::OutOfMemory);
        }
        let mut out = u32_to_le_bytes(self.entries.len() as u32);
        let mut i: usize = 0;
        while i < self.entries.len()
            invariant
                i <= self.entries@.len(),
                entries_fit(self@.take(i as int)),
                out@ == encode_u32(self@.len() as u32) + encode_entries(self@.take(i as int)),
            decreases self.entries@.len() - i,
        {
            let ghost entry = self@[i as int];
            let name = match str_to_bytes(self.entries[i].0.as_str()) {
                Ok(bytes) => bytes,
                Err(e) => {
                    return Err(e);
                },
            };
            let key = match self.entries[i].1.to_bytes() {
                Ok(bytes) => bytes,
                Err(e) => {
                    return Err(e);
                },
            };
            proof {
                lemma_encode_entries_push(self@.take(i as int), entry);
                assert(self@.take(i + 1) =~= self@.take(i as int).push(entry));
            }
            out.extend_from_slice(name.as_slice());
            out.extend_from_slice(key.as_slice());
            i += 1;
            assert(out@ =~= encode_u32(self@.len() as u32) + encode_entries(self@.take(i as int)));
        }
        assert(self@.take(i as int) =~= self@);
        Ok(out)
    }
}

impl FromBytes for NamedKeys {
    open spec fn parse(bytes: Seq<u8>) -> Parsed<Entries> {
        decode_named_keys(bytes)
    }

    fn from_bytes<'a>(bytes: &'a [u8]) -> (r: Result<(Self, &'a [u8]), Error>) {
        let (count, start) = match u32::from_bytes(bytes) {
            Ok(pair) => pair,
            Err(e) => {
                return Err(e);
            },
        };
        let mut entries: Vec<(String, Key)> = Vec::new();
        let mut cur = start;
        let mut i: u32 = 0;
        while i < count
            invariant
                i <= count,
                entries@.len() == i,
                decode_u32(bytes@) == Ok::<_, Error>((count, start@)),
                decode_entries(start@, count as nat, None) == match decode_entries(
                    cur@,
                    (count - i) as nat,
                    if i == 0 {
                        None
                    } else {
                        Some(entries@[i - 1].0@)
                    },
                ) {
                    Ok((more, left)) => Ok::<_, Error>((entries_view(entries@) + more, left)),
                    Err(e) => Err(e),
                },
            decreases count - i,
        {
            let ghost floor = if i == 0 {
                None
            } else {
                Some(entries@[i - 1].0@)
            };
            proof {
                lemma_decode_entries_step(cur@, (count - i) as nat, floor);
            }
            let (name, rest) = match String::from_bytes(cur) {
                Ok(pair) => pair,
                Err(e) => {
                    return Err(e);
                },
            };
            if i > 0 {
                match name_order(entries[(i - 1) as usize].0.as_str(), name.as_str()) {
                    Order::Before => {},
                    _ => {
                        return Err(Error::Formatting);
                    },
                }
            }
            let (key, rest) = match Key::from_bytes(rest) {
                Ok(pair) => pair,
                Err(e) => {
                    return Err(e);
                },
            };
            proof {
                match decode_entries(rest@, (count - i - 1) as nat, Some(name@)) {
                    Ok((more, left)) => {
                        assert(entries_view(entries@.push((name, key))) + more =~= entries_view(
                            entries@,
                        ) + (seq![(name@, key@)] + more));
                    },
                    Err(e) => {},
                }
            }
            entries.push((name, key));
            cur = rest;
            i += 1;
        }
        proof {
            assert(entries_view(entries@) + Seq::<(Seq<char>, KeyView)>::empty() =~= entries_view(
                entries@,
            ));
            lemma_decoded_entries(start@, count as nat, None);
        }
        Ok((NamedKeys { entries }, cur))
    }
}

} // verus!
