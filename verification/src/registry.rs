//! The order books of a service by instrument code, kept in the order of the
//! codes.

use crate::book::Direction;
use crate::decimal::{OrderError, Rank, Scaled};
use crate::matching::settle;
use crate::price::Volume;
use crate::level::LevelModel;
use crate::order_book::{event_models, Fixed, OrderBook};
use vstd::prelude::*;
use vstd::string::*;
use vstd::utf8::encode_utf8;

verus! {

/// The scale, for prices and for volumes, of the books that `create` makes.
pub const DEFAULT_SCALE: i32 = 8;

/// The bytes by which codes are told apart and ordered.
pub open spec fn key_of(code: Seq<char>) -> Seq<u8> {
    encode_utf8(code)
}

/// Whether `a` comes before `b`: at the first byte in which they differ `a`
/// has the smaller one, or `a` ends there and `b` goes on.
pub open spec fn lex_less(a: Seq<u8>, b: Seq<u8>) -> bool
    decreases a.len(),
{
    if b.len() == 0 {
        false
    } else if a.len() == 0 {
        true
    } else if a[0] != b[0] {
        a[0] < b[0]
    } else {
        lex_less(a.drop_first(), b.drop_first())
    }
}

/// How `a` stands to `b` in that order.
pub open spec fn lex_rank(a: Seq<u8>, b: Seq<u8>) -> Rank {
    if lex_less(a, b) {
        Rank::Less
    } else if a == b {
        Rank::Same
    } else {
        Rank::More
    }
}

/// No byte string comes before itself.
pub proof fn lemma_lex_irreflexive(a: Seq<u8>)
    ensures
        !lex_less(a, a),
    decreases a.len(),
{
    if a.len() > 0 {
        lemma_lex_irreflexive(a.drop_first());
    }
}

/// Of two byte strings, not each comes before the other.
pub proof fn lemma_lex_asymmetric(a: Seq<u8>, b: Seq<u8>)
    requires
        lex_less(a, b),
    ensures
        !lex_less(b, a),
    decreases a.len(),
{
    if a.len() > 0 && b.len() > 0 && a[0] == b[0] {
        lemma_lex_asymmetric(a.drop_first(), b.drop_first());
    }
}

/// What comes before a byte string comes before all that come after it.
pub proof fn lemma_lex_transitive(a: Seq<u8>, b: Seq<u8>, c: Seq<u8>)
    requires
        lex_less(a, b),
        lex_less(b, c),
    ensures
        lex_less(a, c),
    decreases a.len(),
{
    if a.len() > 0 && b.len() > 0 && c.len() > 0 && a[0] == b[0] && b[0] == c[0] {
        lemma_lex_transitive(a.drop_first(), b.drop_first(), c.drop_first());
    }
}

/// Of two different byte strings, one comes before the other.
pub proof fn lemma_lex_total(a: Seq<u8>, b: Seq<u8>)
    ensures
        lex_less(a, b) || a == b || lex_less(b, a),
    decreases a.len(),
{
    if a.len() == 0 || b.len() == 0 {
        if a.len() == 0 && b.len() == 0 {
            assert(a =~= b);
        }
    } else if a[0] == b[0] {
        lemma_lex_total(a.drop_first(), b.drop_first());
        if a.drop_first() == b.drop_first() {
            assert forall|i: int| 0 <= i < a.len() implies a[i] == b[i] by {
                if i > 0 {
                    assert(a[i] == a.drop_first()[i - 1]);
                    assert(b[i] == b.drop_first()[i - 1]);
                }
            }
            assert(a.len() == a.drop_first().len() + 1);
            assert(b.len() == b.drop_first().len() + 1);
            assert(a =~= b);
        }
    }
}

/// Orders two byte strings.
pub fn compare_bytes(a: &[u8], b: &[u8]) -> (r: Rank)
    ensures
        r == lex_rank(a@, b@),
{
    let n = if a.len() < b.len() {
        a.len()
    } else {
        b.len()
    };
    let mut i: usize = 0;
    assert(a@.skip(0) =~= a@ && b@.skip(0) =~= b@);
    while i < n
        invariant
            i <= n,
            n <= a@.len(),
            n <= b@.len(),
            n == a@.len() || n == b@.len(),
            forall|j: int| 0 <= j < i ==> a@[j] == b@[j],
            lex_less(a@, b@) == lex_less(a@.skip(i as int), b@.skip(i as int)),
            lex_less(b@, a@) == lex_less(b@.skip(i as int), a@.skip(i as int)),
        decreases n - i,
    {
        proof {
            assert(a@.skip(i as int).drop_first() =~= a@.skip(i + 1));
            assert(b@.skip(i as int).drop_first() =~= b@.skip(i + 1));
            assert(a@.skip(i as int)[0] == a@[i as int]);
            assert(b@.skip(i as int)[0] == b@[i as int]);
        }
        if a[i] < b[i] {
            return Rank::Less;
        }
        if a[i] > b[i] {
            proof {
                lemma_lex_asymmetric(b@, a@);
            }
            return Rank::More;
        }
        i = i + 1;
    }
    if a.len() < b.len() {
        Rank::Less
    } else if a.len() == b.len() {
        proof {
            assert(a@ =~= b@);
            lemma_lex_irreflexive(a@);
        }
        Rank::Same
    } else {
        proof {
            lemma_lex_asymmetric(b@, a@);
        }
        Rank::More
    }
}

/// The keys come one before the other, so none occurs twice.
pub open spec fn keys_sorted(keys: Seq<Seq<u8>>) -> bool {
    forall|i: int, j: int| 0 <= i < j < keys.len() ==> lex_less(#[trigger] keys[i], #[trigger] keys[j])
}

/// How many of the keys come before `k`: they are the first ones.
pub open spec fn position(keys: Seq<Seq<u8>>, k: Seq<u8>) -> int
    decreases keys.len(),
{
    if keys.len() == 0 {
        0
    } else if lex_less(keys.last(), k) {
        keys.len() as int
    } else {
        position(keys.drop_last(), k)
    }
}

/// Whether `k` is one of the keys.
pub open spec fn holds(keys: Seq<Seq<u8>>, k: Seq<u8>) -> bool {
    position(keys, k) < keys.len() && keys[position(keys, k)] == k
}

/// The position of a key splits sorted keys into those before it and the
/// rest.
pub proof fn lemma_position(keys: Seq<Seq<u8>>, k: Seq<u8>)
    requires
        keys_sorted(keys),
    ensures
        0 <= position(keys, k) <= keys.len(),
        forall|j: int| 0 <= j < position(keys, k) ==> lex_less(#[trigger] keys[j], k),
        forall|j: int| position(keys, k) <= j < keys.len() ==> !lex_less(#[trigger] keys[j], k),
    decreases keys.len(),
{
    if keys.len() > 0 {
        if lex_less(keys.last(), k) {
            assert forall|j: int| 0 <= j < keys.len() implies lex_less(#[trigger] keys[j], k) by {
                if j < keys.len() - 1 {
                    lemma_lex_transitive(keys[j], keys.last(), k);
                }
            }
        } else {
            let front = keys.drop_last();
            assert(keys_sorted(front)) by {
                assert forall|i: int, j: int| 0 <= i < j < front.len() implies lex_less(
                    #[trigger] front[i],
                    #[trigger] front[j],
                ) by {
                    assert(front[i] == keys[i] && front[j] == keys[j]);
                }
            }
            lemma_position(front, k);
            assert forall|j: int| 0 <= j < position(keys, k) implies lex_less(
                #[trigger] keys[j],
                k,
            ) by {
                assert(keys[j] == front[j]);
            }
            assert forall|j: int| position(keys, k) <= j < keys.len() implies !lex_less(
                #[trigger] keys[j],
                k,
            ) by {
                if j < keys.len() - 1 {
                    assert(keys[j] == front[j]);
                }
            }
        }
    }
}

/// The keys of `codes`, one for one.
pub open spec fn keys_of(codes: Seq<String>) -> Seq<Seq<u8>> {
    Seq::new(codes.len(), |i: int| key_of(codes[i]@))
}

/// A book as `create` makes it: empty, with the default scales.
pub open spec fn is_fresh(book: OrderBook) -> bool {
    &&& book.wf()
    &&& book.fixed == (Fixed { base: DEFAULT_SCALE, quote: DEFAULT_SCALE })
    &&& book.ask@ == Seq::<LevelModel>::empty()
    &&& book.bid@ == Seq::<LevelModel>::empty()
}

/// Why a submission was turned away.
#[derive(Clone, Copy, Debug, PartialEq, Eq, Structural)]
pub enum ServiceError {
    /// The registry has no book under the code.
    UnknownInstrument,
    /// The book did not take the order.
    Rejected(OrderError),
}

/// The order books of a service, by instrument code.
#[derive(Debug)]
pub struct OrderBookMap {
    pub codes: Vec<String>,
    pub books: Vec<OrderBook>,
}

impl OrderBookMap {
    /// The keys of the codes, in the registry's order.
    pub open spec fn keys(&self) -> Seq<Seq<u8>> {
        keys_of(self.codes@)
    }

    /// Every code has its book, the codes are in order, and every book is in
    /// order.
    pub open spec fn wf(&self) -> bool {
        &&& self.codes@.len() == self.books@.len()
        &&& keys_sorted(self.keys())
        &&& forall|i: int| 0 <= i < self.books@.len() ==> (#[trigger] self.books@[i]).wf()
    }

    /// The registry without a book.
    pub fn new() -> (r: OrderBookMap)
        ensures
            r.wf(),
            r.keys() == Seq::<Seq<u8>>::empty(),
            r.books@ == Seq::<OrderBook>::empty(),
    {
        let r = OrderBookMap { codes: Vec::new(), books: Vec::new() };
        assert(r.keys() =~= Seq::<Seq<u8>>::empty());
        r
    }

    /// Where `code` stands, or would stand, among the codes, and whether it
    /// is there.
    pub fn locate(&self, code: &String) -> (r: (usize, bool))
        requires
            self.wf(),
        ensures
            r.0 == position(self.keys(), key_of(code@)),
            r.0 <= self.codes@.len(),
            r.1 == holds(self.keys(), key_of(code@)),
    {
        let key = code.as_str().as_bytes();
        let ghost keys = self.keys();
        let mut k: usize = self.codes.len();
        proof {
            lemma_position(keys, key@);
        }
        while k > 0 && compare_bytes(self.codes[k - 1].as_str().as_bytes(), key) != Rank::Less
            invariant
                k <= self.codes@.len(),
                keys == self.keys(),
                key@ == key_of(code@),
                forall|j: int| k <= j < keys.len() ==> !lex_less(#[trigger] keys[j], key@),
            decreases k,
        {
            k = k - 1;
        }
        proof {
            let p = position(keys, key@);
            if k > 0 {
                assert(lex_less(keys[k - 1], key@));
            }
            if k < p {
                assert(lex_less(keys[k as int], key@));
            }
        }
        if k < self.codes.len() {
            let found = compare_bytes(self.codes[k].as_str().as_bytes(), key) == Rank::Same;
            (k, found)
        } else {
            (k, false)
        }
    }

    /// Puts `book` under `code`. A book that was there leaves and is handed
    /// back; otherwise the code takes its place among the codes.
    pub fn insert(&mut self, code: String, book: OrderBook) -> (r: Option<OrderBook>)
        requires
            old(self).wf(),
            book.wf(),
        ensures
            final(self).wf(),
            holds(old(self).keys(), key_of(code@)) ==> r == Some(
                old(self).books@[position(old(self).keys(), key_of(code@))],
            ) && final(self).keys() == old(self).keys() && final(self).books@ == old(
                self,
            ).books@.update(position(old(self).keys(), key_of(code@)), book),
            !holds(old(self).keys(), key_of(code@)) ==> r.is_none() && final(self).keys() == old(
                self,
            ).keys().insert(position(old(self).keys(), key_of(code@)), key_of(code@))
                && final(self).books@ == old(self).books@.insert(
                position(old(self).keys(), key_of(code@)),
                book,
            ),
    {
        let ghost keys = self.keys();
        let ghost key = key_of(code@);
        let (k, found) = self.locate(&code);
        proof {
            lemma_position(keys, key);
        }
        if found {
            let previous = self.books.remove(k);
            self.books.insert(k, book);
            assert(self.books@ =~= old(self).books@.update(k as int, book));
            assert(self.keys() =~= keys);
            Some(previous)
        } else {
            self.codes.insert(k, code);
            self.books.insert(k, book);
            proof {
                lemma_entry_after_insert(keys, key, key);
                assert(self.keys() =~= keys.insert(k as int, key));
            }
            None
        }
    }

    /// Takes the book of `code` out and hands it back, if there is one.
    pub fn remove(&mut self, code: &String) -> (r: Option<OrderBook>)
        requires
            old(self).wf(),
        ensures
            final(self).wf(),
            holds(old(self).keys(), key_of(code@)) ==> r == Some(
                old(self).books@[position(old(self).keys(), key_of(code@))],
            ) && final(self).keys() == old(self).keys().remove(
                position(old(self).keys(), key_of(code@)),
            ) && final(self).books@ == old(self).books@.remove(
                position(old(self).keys(), key_of(code@)),
            ),
            !holds(old(self).keys(), key_of(code@)) ==> r.is_none() && final(self).keys() == old(
                self,
            ).keys() && final(self).books@ == old(self).books@,
    {
        let ghost keys = self.keys();
        let (k, found) = self.locate(code);
        if found {
            self.codes.remove(k);
            let book = self.books.remove(k);
            proof {
                let after = self.keys();
                assert(after =~= keys.remove(k as int));
                assert forall|i: int, j: int| 0 <= i < j < after.len() implies lex_less(
                    #[trigger] after[i],
                    #[trigger] after[j],
                ) by {
                    let i0 = if i < k { i } else { i + 1 };
                    let j0 = if j < k { j } else { j + 1 };
                    assert(after[i] == keys[i0] && after[j] == keys[j0]);
                }
            }
            Some(book)
        } else {
            None
        }
    }

    /// The book of `code`, if there is one.
    pub fn get(&self, code: &String) -> (r: Option<&OrderBook>)
        requires
            self.wf(),
        ensures
            r == (if holds(self.keys(), key_of(code@)) {
                Some(&self.books@[position(self.keys(), key_of(code@))])
            } else {
                None
            }),
    {
        let (k, found) = self.locate(code);
        if found {
            Some(&self.books[k])
        } else {
            None
        }
    }

    /// The codes, each before those that come after it byte by byte.
    pub fn list(&self) -> (r: Vec<String>)
        requires
            self.wf(),
        ensures
            r@ == self.codes@,
            keys_sorted(keys_of(r@)),
    {
        let mut r: Vec<String> = Vec::new();
        let mut i: usize = 0;
        while i < self.codes.len()
            invariant
                i <= self.codes@.len(),
                r@ == self.codes@.take(i as int),
            decreases self.codes@.len() - i,
        {
            r.push(self.codes[i].clone());
            assert(r@ =~= self.codes@.take(i + 1));
            i = i + 1;
        }
        assert(self.codes@.take(i as int) =~= self.codes@);
        r
    }

    /// Puts an empty book with the default scales under `code`, and says
    /// whether that replaced a book.
    pub fn create(&mut self, code: String) -> (replaced: bool)
        requires
            old(self).wf(),
        ensures
            final(self).wf(),
            replaced == holds(old(self).keys(), key_of(code@)),
            is_fresh(final(self).books@[position(old(self).keys(), key_of(code@))]),
            replaced ==> final(self).keys() == old(self).keys() && final(self).books@ == old(
                self,
            ).books@.update(
                position(old(self).keys(), key_of(code@)),
                final(self).books@[position(old(self).keys(), key_of(code@))],
            ),
            !replaced ==> final(self).keys() == old(self).keys().insert(
                position(old(self).keys(), key_of(code@)),
                key_of(code@),
            ) && final(self).books@ == old(self).books@.insert(
                position(old(self).keys(), key_of(code@)),
                final(self).books@[position(old(self).keys(), key_of(code@))],
            ),
    {
        proof {
            lemma_position(self.keys(), key_of(code@));
        }
        let book = OrderBook::new(DEFAULT_SCALE, DEFAULT_SCALE);
        self.insert(code, book).is_some()
    }

    /// Lets an order into the book of `code` and matches that book. The events
    /// of the matching come back. Without a book under the code, or with an
    /// order that the book turns away, every book stays as it was.
    pub fn submit_order(
        &mut self,
        code: &String,
        direction: Direction,
        id: usize,
        price: Scaled,
        volume: Scaled,
    ) -> (r: Result<Vec<(usize, Volume)>, ServiceError>)
        requires
            old(self).wf(),
        ensures
            final(self).wf(),
            final(self).keys() == old(self).keys(),
            final(self).books@.len() == old(self).books@.len(),
            !holds(old(self).keys(), key_of(code@)) ==> r == Err::<
                Vec<(usize, Volume)>,
                ServiceError,
            >(ServiceError::UnknownInstrument) && final(self).books@ == old(self).books@,
            holds(old(self).keys(), key_of(code@)) ==> ({
                let p = position(old(self).keys(), key_of(code@));
                let before = old(self).books@[p];
                let after = final(self).books@[p];
                let ask1 = before.ask_after_add(direction, id, price, volume);
                let bid1 = before.bid_after_add(direction, id, price, volume);
                &&& forall|i: int|
                    0 <= i < old(self).books@.len() && i != p ==> final(self).books@[i] == old(
                        self,
                    ).books@[i]
                &&& after.fixed == before.fixed
                &&& match before.add_error(direction, price, volume) {
                    Some(e) => r == Err::<Vec<(usize, Volume)>, ServiceError>(
                        ServiceError::Rejected(e),
                    ) && after.ask@ == before.ask@ && after.bid@ == before.bid@,
                    None => r.is_ok() && event_models(r.unwrap()@) == settle(ask1, bid1).events
                        && after.ask@ == settle(ask1, bid1).ask && after.bid@ == settle(
                        ask1,
                        bid1,
                    ).bid,
                }
            }),
    {
        let ghost keys = self.keys();
        let (k, found) = self.locate(code);
        if !found {
            return Err(ServiceError::UnknownInstrument);
        }
        let mut book = self.books.remove(k);
        let r = match book.add(direction, id, price, volume) {
            Err(e) => Err(ServiceError::Rejected(e)),
            Ok(()) => Ok(book.trade()),
        };
        self.books.insert(k, book);
        assert(self.keys() =~= keys);
        r
    }

    /// Puts an empty book with the default scales under each of `codes`. The
    /// registry then holds the codes it held and those of `codes`; under each
    /// of the latter is an empty book, under the others the book that was
    /// there.
    pub fn init(&mut self, codes: Vec<String>)
        requires
            old(self).wf(),
        ensures
            final(self).wf(),
            forall|k: Seq<u8>| #[trigger]
                holds(final(self).keys(), k) <==> holds(old(self).keys(), k) || among(
                    codes@,
                    0,
                    k,
                ),
            forall|k: Seq<u8>| #[trigger]
                holds(final(self).keys(), k) ==> (if among(codes@, 0, k) {
                    is_fresh(final(self).books@[position(final(self).keys(), k)])
                } else {
                    final(self).books@[position(final(self).keys(), k)] == old(
                        self,
                    ).books@[position(old(self).keys(), k)]
                }),
    {
        let ghost all = codes@;
        let mut n: usize = codes.len();
        while n > 0
            invariant
                self.wf(),
                n <= all.len(),
                all == codes@,
                forall|k: Seq<u8>| #[trigger]
                    holds(self.keys(), k) <==> holds(old(self).keys(), k) || among(
                        all,
                        n as int,
                        k,
                    ),
                forall|k: Seq<u8>| #[trigger]
                    holds(self.keys(), k) ==> (if among(all, n as int, k) {
                        is_fresh(self.books@[position(self.keys(), k)])
                    } else {
                        self.books@[position(self.keys(), k)] == old(self).books@[position(
                            old(self).keys(),
                            k,
                        )]
                    }),
            decreases n,
        {
            n = n - 1;
            let ghost before = *self;
            let code = codes[n].clone();
            let ghost key = key_of(code@);
            let ghost p = position(before.keys(), key);
            let replaced = self.create(code);
            proof {
                assert(among(all, n as int, key)) by {
                    assert(key_of(all[n as int]@) == key);
                }
                assert forall|k: Seq<u8>| #[trigger]
                    holds(self.keys(), k) <==> holds(old(self).keys(), k) || among(
                        all,
                        n as int,
                        k,
                    ) by {
                    lemma_entry_after_insert(before.keys(), key, k);
                    assert(holds(before.keys(), k) <==> holds(old(self).keys(), k) || among(
                        all,
                        n + 1,
                        k,
                    ));
                    lemma_among_step(all, n as int, k);
                }
                assert forall|k: Seq<u8>| #[trigger] holds(self.keys(), k) implies (if among(
                    all,
                    n as int,
                    k,
                ) {
                    is_fresh(self.books@[position(self.keys(), k)])
                } else {
                    self.books@[position(self.keys(), k)] == old(self).books@[position(
                        old(self).keys(),
                        k,
                    )]
                }) by {
                    lemma_entry_after_insert(before.keys(), key, k);
                    lemma_position(before.keys(), key);
                    lemma_position(before.keys(), k);
                    lemma_among_step(all, n as int, k);
                    if k != key {
                        assert(holds(before.keys(), k));
                    }
                }
            }
        }
    }
}

/// Whether `k` is the key of one of `codes`, from the place `from` on.
pub open spec fn among(codes: Seq<String>, from: int, k: Seq<u8>) -> bool {
    exists|j: int| from <= j < codes.len() && key_of(#[trigger] codes[j]@) == k
}

/// The keys from a place on are the key at that place and those after it.
pub proof fn lemma_among_step(codes: Seq<String>, from: int, k: Seq<u8>)
    requires
        0 <= from < codes.len(),
    ensures
        among(codes, from, k) <==> key_of(codes[from]@) == k || among(codes, from + 1, k),
{
    if among(codes, from, k) {
        let j = choose|j: int| from <= j < codes.len() && key_of(#[trigger] codes[j]@) == k;
        if j != from {
            assert(from + 1 <= j < codes.len() && key_of(codes[j]@) == k);
        }
    }
    if among(codes, from + 1, k) {
        let j = choose|j: int| from + 1 <= j < codes.len() && key_of(#[trigger] codes[j]@) == k;
        assert(from <= j < codes.len() && key_of(codes[j]@) == k);
    }
    if key_of(codes[from]@) == k {
        assert(from <= from < codes.len() && key_of(codes[from]@) == k);
    }
}

/// The place that splits sorted keys into those before `k` and the rest is
/// the position of `k`.
pub proof fn lemma_position_unique(keys: Seq<Seq<u8>>, k: Seq<u8>, q: int)
    requires
        keys_sorted(keys),
        0 <= q <= keys.len(),
        forall|j: int| 0 <= j < q ==> lex_less(#[trigger] keys[j], k),
        forall|j: int| q <= j < keys.len() ==> !lex_less(#[trigger] keys[j], k),
    ensures
        position(keys, k) == q,
{
    lemma_position(keys, k);
    let p = position(keys, k);
    if p < q {
        assert(lex_less(keys[p], k));
    } else if p > q {
        assert(lex_less(keys[q], k));
    }
}

/// The keys after `key` was put among them, where it was not there yet.
pub open spec fn keys_with(keys: Seq<Seq<u8>>, key: Seq<u8>) -> Seq<Seq<u8>> {
    if holds(keys, key) {
        keys
    } else {
        keys.insert(position(keys, key), key)
    }
}

/// Putting a key among sorted keys leaves them sorted. They then hold that
/// key and those held before, each as many places on as keys came in before
/// it.
pub proof fn lemma_entry_after_insert(keys: Seq<Seq<u8>>, key: Seq<u8>, other: Seq<u8>)
    requires
        keys_sorted(keys),
    ensures
        keys_sorted(keys_with(keys, key)),
        holds(keys_with(keys, key), other) <==> other == key || holds(keys, other),
        position(keys_with(keys, key), other) == position(keys, other) + (if !holds(keys, key)
            && lex_less(key, other) {
            1int
        } else {
            0int
        }),
        other != key && holds(keys, other) && holds(keys, key) ==> position(keys, other)
            != position(keys, key),
        other != key && holds(keys, other) && !holds(keys, key) ==> (lex_less(key, other)
            <==> position(keys, other) >= position(keys, key)),
{
    let p = position(keys, key);
    let q0 = position(keys, other);
    let after = keys_with(keys, key);
    lemma_position(keys, key);
    lemma_position(keys, other);
    lemma_lex_irreflexive(key);
    lemma_lex_irreflexive(other);
    if !holds(keys, key) {
        assert forall|i: int, j: int| 0 <= i < j < after.len() implies lex_less(
            #[trigger] after[i],
            #[trigger] after[j],
        ) by {
            if j < p {
                assert(after[i] == keys[i] && after[j] == keys[j]);
            } else if j == p {
                assert(after[i] == keys[i]);
            } else if i == p {
                assert(after[j] == keys[j - 1]);
                lemma_lex_total(key, keys[j - 1]);
                if j - 1 > p {
                    lemma_lex_total(key, keys[p]);
                    lemma_lex_transitive(key, keys[p], keys[j - 1]);
                }
            } else if i < p {
                assert(after[i] == keys[i] && after[j] == keys[j - 1]);
            } else {
                assert(after[i] == keys[i - 1] && after[j] == keys[j - 1]);
            }
        }
        if lex_less(key, other) {
            if p > q0 {
                lemma_lex_transitive(keys[q0], key, other);
            }
            assert forall|j: int| 0 <= j < q0 + 1 implies lex_less(#[trigger] after[j], other) by {
                if j < p {
                    assert(after[j] == keys[j]);
                } else if j > p {
                    assert(after[j] == keys[j - 1]);
                }
            }
            assert forall|j: int| q0 + 1 <= j < after.len() implies !lex_less(
                #[trigger] after[j],
                other,
            ) by {
                assert(after[j] == keys[j - 1]);
            }
            lemma_position_unique(after, other, q0 + 1);
            if q0 < keys.len() {
                assert(after[q0 + 1] == keys[q0]);
            }
            if other == key {
                assert(false);
            }
        } else {
            if q0 > p {
                lemma_lex_total(key, keys[p]);
                if lex_less(key, keys[p]) {
                    lemma_lex_transitive(key, keys[p], other);
                }
            }
            assert forall|j: int| 0 <= j < q0 implies lex_less(#[trigger] after[j], other) by {
                assert(after[j] == keys[j]);
            }
            assert forall|j: int| q0 <= j < after.len() implies !lex_less(
                #[trigger] after[j],
                other,
            ) by {
                if j < p {
                    assert(after[j] == keys[j]);
                } else if j > p {
                    assert(after[j] == keys[j - 1]);
                }
            }
            lemma_position_unique(after, other, q0);
            if q0 < p {
                assert(after[q0] == keys[q0]);
            } else {
                assert(after[p] == key);
                if other != key && q0 < keys.len() && keys[q0] == other {
                    lemma_lex_total(key, other);
                }
                if other == key {
                    lemma_position_unique(keys, other, p);
                }
            }
        }
    } else if other != key && holds(keys, other) && q0 == p {
        assert(keys[p] == key && keys[q0] == other);
    }
}

} // verus!
