//! The store of the latest book of each venue and pair.
//!
//! The store is a map from (exchange, pair) to the last book written for
//! them. Writing replaces; nothing is ever removed. The books are kept in a
//! `DashMap`; the store alone holds it, so that what it contains changes only
//! through `update`, which takes the store exclusively. A process that
//! shares one store among tasks puts it behind a lock of its own.

use crate::orderbook::BookView;
use crate::orderbook::OrderBook;
use dashmap::DashMap;
use vstd::prelude::*;

verus! {

/// `dashmap::DashMap`, declared so that the store can hold one. Nothing is
/// known of its inside; what a map of books holds is named by `entries`.
#[verifier::external_type_specification]
#[verifier::external_body]
#[verifier::reject_recursive_types(K)]
#[verifier::reject_recursive_types(V)]
#[verifier::reject_recursive_types(S)]
pub struct ExDashMap<K, V, S>(DashMap<K, V, S>);

/// The name under which a book is kept: its exchange and its pair.
pub type Name = (Seq<char>, Seq<char>);

/// What a `DashMap` of books holds: for each key that is present, the book
/// that was last inserted under it.
pub uninterp spec fn entries(map: DashMap<(String, String), OrderBook>) -> Map<Name, BookView>;

/// The store that holds no book.
pub open spec fn empty_store() -> Map<Name, BookView> {
    Map::empty()
}

/// Calls `DashMap::new`, which makes a map without entries.
#[verifier::external_body]
fn new_map() -> (map: DashMap<(String, String), OrderBook>)
    ensures
        entries(map) == empty_store(),
{
    DashMap::new()
}

/// Calls `DashMap::insert`, which puts `book` under `key` and drops what was
/// there before. The map is borrowed exclusively, so nothing else changes
/// it meanwhile.
#[verifier::external_body]
fn insert_entry(
    map: &mut DashMap<(String, String), OrderBook>,
    key: (String, String),
    book: OrderBook,
)
    ensures
        entries(*final(map)) == entries(*old(map)).insert(key@, book@),
{
    map.insert(key, book);
}

/// Calls `DashMap::get` and clones the book that it finds. `None` exactly
/// when the key is absent.
#[verifier::external_body]
fn get_entry(map: &DashMap<(String, String), OrderBook>, key: &(String, String)) -> (r: Option<
    OrderBook,
>)
    ensures
        match r {
            Some(book) => entries(*map).contains_key(key@) && entries(*map)[key@] == book@,
            None => !entries(*map).contains_key(key@),
        },
{
    map.get(key).map(|entry| entry.value().clone())
}

/// Calls `DashMap::iter` and clones each key with its book. The iterator
/// visits every entry once, shard by shard, in an order that is not fixed:
/// the list holds each present key once, with its book.
#[verifier::external_body]
fn list_entries(map: &DashMap<(String, String), OrderBook>) -> (list: Vec<
    ((String, String), OrderBook),
>)
    ensures
        forall|i: int, j: int| 0 <= i < j < list@.len() ==> list@[i].0@ != list@[j].0@,
        forall|i: int|
            0 <= i < list@.len() ==> entries(*map).contains_key(#[trigger] list@[i].0@) && entries(
                *map,
            )[list@[i].0@] == list@[i].1@,
        forall|k: Name|
            entries(*map).contains_key(k) ==> exists|i: int|
                0 <= i < list@.len() && #[trigger] list@[i].0@ == k,
{
    map.iter().map(|entry| (entry.key().clone(), entry.value().clone())).collect()
}

/// The name under which a book is kept.
pub open spec fn name_of(book: BookView) -> Name {
    (book.exchange, book.pair)
}

/// The store after `book` was written to it.
pub open spec fn put(store: Map<Name, BookView>, book: BookView) -> Map<Name, BookView> {
    store.insert(name_of(book), book)
}

/// The store after the books of `books` were written to it, first to last.
pub open spec fn put_all(store: Map<Name, BookView>, books: Seq<BookView>) -> Map<Name, BookView>
    decreases books.len(),
{
    if books.len() == 0 {
        store
    } else {
        put(put_all(store, books.drop_last()), books.last())
    }
}

/// The book that the store holds for an exchange and a pair.
pub open spec fn lookup(store: Map<Name, BookView>, exchange: Seq<char>, pair: Seq<char>) -> Option<
    BookView,
> {
    if store.contains_key((exchange, pair)) {
        Some(store[(exchange, pair)])
    } else {
        None
    }
}

/// Every book stands under its own name.
pub open spec fn keyed_by_name(store: Map<Name, BookView>) -> bool {
    forall|k: Name| store.contains_key(k) ==> name_of(#[trigger] store[k]) == k
}

/// The mathematical contents of a list of books.
pub open spec fn views(books: Seq<OrderBook>) -> Seq<BookView> {
    books.map_values(|b: OrderBook| b@)
}

/// `books` lists what the store holds: every book of the store once, and
/// nothing else. The order is left open.
pub open spec fn is_listing(store: Map<Name, BookView>, books: Seq<BookView>) -> bool {
    &&& forall|i: int, j: int|
        0 <= i < j < books.len() ==> name_of(books[i]) != name_of(books[j])
    &&& forall|i: int|
        0 <= i < books.len() ==> store.contains_key(name_of(#[trigger] books[i])) && store[name_of(
            books[i],
        )] == books[i]
    &&& forall|k: Name|
        store.contains_key(k) ==> exists|i: int|
            0 <= i < books.len() && name_of(#[trigger] books[i]) == k
}

/// Read your write: the book that was just written is the book that is
/// found under its exchange and pair.
pub proof fn law_read_your_write(store: Map<Name, BookView>, book: BookView)
    ensures
        lookup(put(store, book), book.exchange, book.pair) == Some(book),
{
}

/// Writing leaves the books of all other names as they were.
pub proof fn law_write_is_local(
    store: Map<Name, BookView>,
    book: BookView,
    exchange: Seq<char>,
    pair: Seq<char>,
)
    requires
        (exchange, pair) != name_of(book),
    ensures
        lookup(put(store, book), exchange, pair) == lookup(store, exchange, pair),
{
}

/// Writing the same book again changes nothing.
pub proof fn law_update_idempotent(store: Map<Name, BookView>, book: BookView)
    ensures
        put(put(store, book), book) == put(store, book),
{
    assert(put(put(store, book), book) =~= put(store, book));
}

/// No write is lost: after books of names that all differ were written, in
/// any order of arrival, each of them is the book found under its name.
pub proof fn law_distinct_writes_kept(store: Map<Name, BookView>, books: Seq<BookView>, i: int)
    requires
        forall|a: int, b: int| 0 <= a < b < books.len() ==> name_of(books[a]) != name_of(books[b]),
        0 <= i < books.len(),
    ensures
        lookup(put_all(store, books), books[i].exchange, books[i].pair) == Some(books[i]),
    decreases books.len(),
{
    if i < books.len() - 1 {
        law_distinct_writes_kept(store, books.drop_last(), i);
    }
}

/// What was written is all there is: after `n` books of names that all
/// differ were written to an empty store, the store holds `n` books.
pub proof fn law_distinct_writes_counted(books: Seq<BookView>)
    requires
        forall|a: int, b: int| 0 <= a < b < books.len() ==> name_of(books[a]) != name_of(books[b]),
    ensures
        put_all(empty_store(), books).dom().finite(),
        put_all(empty_store(), books).dom().len() == books.len(),
        forall|k: Name| #[trigger]
            put_all(empty_store(), books).contains_key(k) <==> exists|i: int|
                0 <= i < books.len() && name_of(#[trigger] books[i]) == k,
    decreases books.len(),
{
    if books.len() > 0 {
        let front = books.drop_last();
        let last = books.last();
        law_distinct_writes_counted(front);
        let before = put_all(empty_store(), front);
        let after = put_all(empty_store(), books);
        assert(after.dom() =~= before.dom().insert(name_of(last)));
        if before.contains_key(name_of(last)) {
            let i = choose|i: int| 0 <= i < front.len() && name_of(#[trigger] front[i]) == name_of(last);
            assert(front[i] == books[i]);
            assert(false);
        }
        assert forall|k: Name| #[trigger] after.contains_key(k) <==> exists|i: int|
                0 <= i < books.len() && name_of(#[trigger] books[i]) == k by {
            if after.contains_key(k) {
                if k == name_of(last) {
                    assert(name_of(books[books.len() - 1]) == k);
                } else {
                    let i = choose|i: int| 0 <= i < front.len() && name_of(#[trigger] front[i]) == k;
                    assert(front[i] == books[i]);
                }
            }
            if exists|i: int| 0 <= i < books.len() && name_of(#[trigger] books[i]) == k {
                let i = choose|i: int| 0 <= i < books.len() && name_of(#[trigger] books[i]) == k;
                if i < front.len() {
                    assert(front[i] == books[i]);
                }
            }
        }
    } else {
        assert(empty_store().dom() =~= Set::<Name>::empty());
    }
}

/// A listing of a store has one entry for each book of the store.
pub proof fn law_listing_length(store: Map<Name, BookView>, listing: Seq<BookView>)
    requires
        is_listing(store, listing),
    ensures
        store.dom().finite(),
        listing.len() == store.dom().len(),
{
    let names = listing.map_values(|b: BookView| name_of(b));
    assert(names.no_duplicates());
    assert forall|k: Name| names.to_set().contains(k) <==> store.dom().contains(k) by {
        if names.to_set().contains(k) {
            let i = choose|i: int| 0 <= i < names.len() && names[i] == k;
            assert(name_of(listing[i]) == k);
        }
        if store.contains_key(k) {
            let i = choose|i: int| 0 <= i < listing.len() && name_of(#[trigger] listing[i]) == k;
            assert(names[i] == k);
        }
    }
    assert(names.to_set() =~= store.dom());
    names.unique_seq_to_set();
}

/// After `n` books of names that all differ were written to an empty
/// store, a listing of the store has exactly `n` entries, and each of the
/// books is one of them, as it was written.
pub proof fn law_distinct_writes_listed(books: Seq<BookView>, listing: Seq<BookView>)
    requires
        forall|a: int, b: int| 0 <= a < b < books.len() ==> name_of(books[a]) != name_of(books[b]),
        is_listing(put_all(empty_store(), books), listing),
    ensures
        listing.len() == books.len(),
        forall|i: int| 0 <= i < books.len() ==> listing.contains(#[trigger] books[i]),
{
    let store = put_all(empty_store(), books);
    law_distinct_writes_counted(books);
    law_listing_length(store, listing);
    assert forall|i: int| 0 <= i < books.len() implies listing.contains(#[trigger] books[i]) by {
        law_distinct_writes_kept(empty_store(), books, i);
        let k = name_of(books[i]);
        assert(store.contains_key(k));
        let j = choose|j: int| 0 <= j < listing.len() && name_of(#[trigger] listing[j]) == k;
        assert(store[name_of(listing[j])] == listing[j]);
    }
}

/// The latest book of each venue and pair.
pub struct OrderBookStore {
    inner: DashMap<(String, String), OrderBook>,
}

impl View for OrderBookStore {
    type V = Map<Name, BookView>;

    closed spec fn view(&self) -> Map<Name, BookView> {
        entries(self.inner)
    }
}

impl OrderBookStore {
    /// The store's invariant: every book stands under its own exchange and
    /// pair. `new` establishes it and `update` keeps it.
    pub open spec fn wf(&self) -> bool {
        keyed_by_name(self@)
    }

    /// A store without books.
    pub fn new() -> (store: OrderBookStore)
        ensures
            store.wf(),
            store@ == empty_store(),
    {
        OrderBookStore { inner: new_map() }
    }

    /// The key of the books of `exchange` for `pair`.
    fn key(exchange: &str, pair: &str) -> (k: (String, String))
        ensures
            k@ == (exchange@, pair@),
    {
        (exchange.to_owned(), pair.to_owned())
    }

    /// Writes `book`: it becomes the book of its exchange and pair, in
    /// place of the one that was there. The other books stay.
    pub fn update(&mut self, book: OrderBook)
        requires
            old(self).wf(),
        ensures
            final(self).wf(),
            final(self)@ == put(old(self)@, book@),
    {
        let key = Self::key(book.exchange, book.pair.as_str());
        insert_entry(&mut self.inner, key, book);
    }

    /// The current book of `exchange` for `pair`; `None` if none was ever
    /// written.
    pub fn get(&self, exchange: &str, pair: &str) -> (r: Option<OrderBook>)
        ensures
            match r {
                Some(book) => lookup(self@, exchange@, pair@) == Some(book@),
                None => lookup(self@, exchange@, pair@) is None,
            },
    {
        let key = Self::key(exchange, pair);
        get_entry(&self.inner, &key)
    }

    /// All current books, each once, in no particular order.
    pub fn all(&self) -> (books: Vec<OrderBook>)
        requires
            self.wf(),
        ensures
            is_listing(self@, views(books@)),
    {
        let list = list_entries(&self.inner);
        let ghost listed = list@;
        let mut books: Vec<OrderBook> = Vec::new();
        let mut rest = list;
        let ghost total = listed.len();
        while rest.len() > 0
            invariant
                rest@.len() <= total == listed.len(),
                books@.len() + rest@.len() == total,
                rest@ == listed.take(rest@.len() as int),
                forall|i: int|
                    0 <= i < books@.len() ==> (#[trigger] books@[i])@ == listed[total - 1 - i].1@,
            decreases rest.len(),
        {
            let entry = rest.pop().unwrap();
            books.push(entry.1);
        }
        proof {
            let store = self@;
            let bs = views(books@);
            assert forall|i: int| 0 <= i < bs.len() implies store.contains_key(
                name_of(#[trigger] bs[i]),
            ) && store[name_of(bs[i])] == bs[i] && name_of(bs[i]) == listed[total - 1 - i].0@ by {
                let k = listed[total - 1 - i].0@;
                assert(store.contains_key(k));
                assert(bs[i] == books@[i]@);
                assert(name_of(store[k]) == k);
            }
            assert forall|k: Name| store.contains_key(k) implies exists|i: int|
                0 <= i < bs.len() && name_of(#[trigger] bs[i]) == k by {
                let j = choose|j: int| 0 <= j < listed.len() && #[trigger] listed[j].0@ == k;
                assert(name_of(bs[total - 1 - j]) == k);
            }
        }
        books
    }
}

} // verus!
