//! The product map: an `IndexMap` from product id to product, which keeps the
//! order in which the ids were first inserted.

use vstd::prelude::*;
use indexmap::IndexMap;
use crate::api::models::{product_of, Product};

verus! {

/// `indexmap::IndexMap`, taken as it is: what a map holds is read through
/// `entries` alone.
#[verifier::external_type_specification]
#[verifier::external_body]
#[verifier::reject_recursive_types(K)]
#[verifier::reject_recursive_types(V)]
#[verifier::reject_recursive_types(S)]
pub struct ExIndexMap<K, V, S>(IndexMap<K, V, S>);

/// The product map as the library holds it.
pub type ProductMap = IndexMap<String, Product>;

/// One entry of a product map: the text of its key, and its product.
pub type Entry = (Seq<char>, Product);

/// The entries of a product map, in the map's order. Nothing is proved of
/// it: the functions below that call into the map say what each call does
/// to the entries, as the map's documentation has it.
pub uninterp spec fn entries(m: IndexMap<String, Product>) -> Seq<(Seq<char>, Product)>;

/// Index of the first entry with the given key; the number of entries where
/// no entry has it.
pub open spec fn position_of(es: Seq<Entry>, key: Seq<char>) -> int
    decreases es.len(),
{
    if es.len() == 0 {
        0
    } else if es[0].0 == key {
        0
    } else {
        1 + position_of(es.drop_first(), key)
    }
}

/// Whether an entry has the given key.
pub open spec fn has_key(es: Seq<Entry>, key: Seq<char>) -> bool {
    position_of(es, key) < es.len()
}

/// The product under the given key, if an entry has it.
pub open spec fn lookup(es: Seq<Entry>, key: Seq<char>) -> Option<Product> {
    if has_key(es, key) {
        Some(es[position_of(es, key)].1)
    } else {
        None
    }
}

/// The entries after an insertion: where the key is present its product is
/// replaced in place, else the new entry comes last.
pub open spec fn inserted(es: Seq<Entry>, key: Seq<char>, value: Product) -> Seq<Entry> {
    if has_key(es, key) {
        es.update(position_of(es, key), (key, value))
    } else {
        es.push((key, value))
    }
}

/// The entries after a list of pairs was inserted, one after the other.
pub open spec fn inserted_all(es: Seq<Entry>, pairs: Seq<(String, Product)>) -> Seq<Entry>
    decreases pairs.len(),
{
    if pairs.len() == 0 {
        es
    } else {
        inserted(inserted_all(es, pairs.drop_last()), pairs.last().0@, pairs.last().1)
    }
}

/// No two entries have the same key.
pub open spec fn distinct_keys(es: Seq<Entry>) -> bool {
    forall|i: int, j: int| 0 <= i < j < es.len() ==> (#[trigger] es[i]).0 != (#[trigger] es[j]).0
}

/// Where a key is found, it is found at an entry that has it, and no
/// earlier entry does.
pub proof fn lemma_position_of(es: Seq<Entry>, key: Seq<char>)
    ensures
        0 <= position_of(es, key) <= es.len(),
        has_key(es, key) ==> es[position_of(es, key)].0 == key,
        forall|i: int| 0 <= i < position_of(es, key) ==> (#[trigger] es[i]).0 != key,
    decreases es.len(),
{
    if es.len() > 0 && es[0].0 != key {
        let rest = es.drop_first();
        lemma_position_of(rest, key);
        assert forall|i: int| 0 <= i < position_of(es, key) implies (#[trigger] es[i]).0 != key by {
            if i > 0 {
                assert(es[i] == rest[i - 1]);
            }
        }
    }
}

/// An insertion keeps every key at its place and keeps the keys distinct.
pub proof fn lemma_inserted(es: Seq<Entry>, key: Seq<char>, value: Product)
    ensures
        inserted(es, key, value).len() >= es.len(),
        forall|i: int| 0 <= i < es.len() ==> (#[trigger] inserted(es, key, value)[i]).0 == es[i].0,
        lookup(inserted(es, key, value), key) == Some(value),
        distinct_keys(es) ==> distinct_keys(inserted(es, key, value)),
        forall|other: Seq<char>|
            other != key ==> #[trigger] lookup(inserted(es, key, value), other) == lookup(
                es,
                other,
            ),
{
    lemma_position_of(es, key);
    let after = inserted(es, key, value);
    let at = position_of(es, key);
    lemma_position_is(after, key, at);
    assert forall|other: Seq<char>| other != key implies #[trigger] lookup(after, other)
        == lookup(es, other) by {
        lemma_position_of(es, other);
        if has_key(es, other) {
            lemma_position_is(after, other, position_of(es, other));
        } else {
            assert forall|i: int| 0 <= i < after.len() implies (#[trigger] after[i]).0 != other by {
                if i < es.len() {
                    assert(es[i].0 != other);
                }
            }
            lemma_position_is(after, other, after.len() as int);
        }
    }
}

/// The first entry with a key is where the key is found.
pub proof fn lemma_position_is(es: Seq<Entry>, key: Seq<char>, at: int)
    requires
        0 <= at <= es.len(),
        forall|i: int| 0 <= i < at ==> (#[trigger] es[i]).0 != key,
        at < es.len() ==> es[at].0 == key,
    ensures
        position_of(es, key) == at,
    decreases at,
{
    if at > 0 {
        let rest = es.drop_first();
        assert forall|i: int| 0 <= i < at - 1 implies (#[trigger] rest[i]).0 != key by {
            assert(rest[i] == es[i + 1]);
        }
        lemma_position_is(rest, key, at - 1);
    }
}

/// A map filled from a list of pairs holds under each id the product that
/// stands for the id in the list.
pub proof fn lemma_inserted_all(pairs: Seq<(String, Product)>, id: Seq<char>)
    ensures
        lookup(inserted_all(Seq::empty(), pairs), id) == product_of(pairs, id),
        distinct_keys(inserted_all(Seq::empty(), pairs)),
    decreases pairs.len(),
{
    if pairs.len() > 0 {
        lemma_inserted_all(pairs.drop_last(), id);
        lemma_inserted(
            inserted_all(Seq::empty(), pairs.drop_last()),
            pairs.last().0@,
            pairs.last().1,
        );
    }
}

/// `IndexMap::new`: a map without entries.
#[verifier::external_body]
pub(crate) fn map_new() -> (m: IndexMap<String, Product>)
    ensures
        entries(m) == Seq::<Entry>::empty(),
{
    IndexMap::new()
}

/// `IndexMap::len`: the number of entries.
#[verifier::external_body]
pub(crate) fn map_len(m: &IndexMap<String, Product>) -> (n: usize)
    ensures
        n == entries(*m).len(),
{
    m.len()
}

/// `IndexMap::insert`: where an equal key is present, it stays at its place
/// and its value is replaced; else the pair is added last in order.
#[verifier::external_body]
pub(crate) fn map_insert(m: &mut IndexMap<String, Product>, key: String, value: Product)
    ensures
        entries(*final(m)) == inserted(entries(*old(m)), key@, value),
{
    m.insert(key, value);
}

/// `IndexMap::get`: the value stored for the key, if the key is present.
#[verifier::external_body]
pub(crate) fn map_get<'a>(m: &'a IndexMap<String, Product>, key: &str) -> (found: Option<
    &'a Product,
>)
    ensures
        match found {
            Some(p) => lookup(entries(*m), key@) == Some(*p),
            None => lookup(entries(*m), key@) is None,
        },
{
    m.get(key)
}

/// `IndexMap::get_index`: the key of the entry at a position of the map's
/// order, for the positions below the map's length.
#[verifier::external_body]
pub(crate) fn map_key_at<'a>(m: &'a IndexMap<String, Product>, i: usize) -> (key: Option<
    &'a String,
>)
    ensures
        match key {
            Some(k) => i < entries(*m).len() && k@ == entries(*m)[i as int].0,
            None => i >= entries(*m).len(),
        },
{
    m.get_index(i).map(|(k, _)| k)
}

} // verus!
