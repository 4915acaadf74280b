//! The exchange: one order book per ticker, and the validation and routing
//! of incoming orders.

use crate::book::OrderBook;
use crate::event_types::RejectionReport;
use crate::model::{matched, records_fills, BookState, Fill};
use crate::order::{Order, Trade};
use vstd::prelude::*;

verus! {

/// The order books of the exchange, one per ticker.
pub struct Exchange {
    tickers: Vec<String>,
    books: Vec<OrderBook>,
}

/// The state of a book that holds no order and has not traded.
pub open spec fn empty_book() -> BookState {
    BookState { bids: Map::empty(), asks: Map::empty(), ltp: 0 }
}

/// Why the exchange `ex` refuses `order`, checked in this order: an empty
/// order, a zero price, an unknown ticker; `None` when it accepts it.
pub open spec fn rejection_reason(ex: Map<Seq<char>, BookState>, order: Order) -> Option<Seq<char>> {
    if order.qty == 0 {
        Some("Order cannot be empty!"@)
    } else if order.limit_price == 0 {
        Some("Price cannot be zero!"@)
    } else if !ex.contains_key(order.ticker@) {
        Some("Ticker does not exist!"@)
    } else {
        None
    }
}

/// The exchange `ex` after it accepts `order`, and the fills: the order is
/// matched in the book of its ticker, and no other book changes.
pub open spec fn processed(ex: Map<Seq<char>, BookState>, order: Order) -> (
    Map<Seq<char>, BookState>,
    Seq<Fill>,
) {
    let r = matched(ex[order.ticker@], order, true);
    (ex.insert(order.ticker@, r.0), r.1)
}

/// Each ticker of `tickers`, by its characters, to the state of the book at
/// the same index of `books`.
pub closed spec fn books_view(tickers: Seq<String>, books: Seq<OrderBook>) -> Map<Seq<char>, BookState> {
    Map::new(
        |t: Seq<char>| exists|i: int| 0 <= i < tickers.len() && #[trigger] tickers[i]@ == t,
        |t: Seq<char>| books[choose|i: int| 0 <= i < tickers.len() && #[trigger] tickers[i]@ == t]@,
    )
}

/// One book per ticker, no ticker twice, every book well formed, with
/// finitely many non-empty price levels.
pub closed spec fn books_wf(tickers: Seq<String>, books: Seq<OrderBook>) -> bool {
    &&& tickers.len() == books.len()
    &&& forall|i: int, j: int|
        0 <= i < tickers.len() && 0 <= j < tickers.len() && i != j ==> #[trigger] tickers[i]@ != #[trigger] tickers[j]@
    &&& forall|i: int|
        0 <= i < books.len() ==> {
            &&& (#[trigger] books[i]).wf()
            &&& books[i].levels_nonempty()
            &&& books[i].finite_levels()
        }
}

proof fn lemma_view_at(tickers: Seq<String>, books: Seq<OrderBook>, i: int)
    requires
        books_wf(tickers, books),
        0 <= i < tickers.len(),
    ensures
        books_view(tickers, books).contains_key(tickers[i]@),
        books_view(tickers, books)[tickers[i]@] == books[i]@,
{
    let t = tickers[i]@;
    assert(books_view(tickers, books).contains_key(t));
    let j = choose|j: int| 0 <= j < tickers.len() && #[trigger] tickers[j]@ == t;
    assert(tickers[j]@ == t);
}

proof fn lemma_view_update(tickers: Seq<String>, books: Seq<OrderBook>, i: int, b: OrderBook)
    requires
        books_wf(tickers, books),
        0 <= i < tickers.len(),
    ensures
        books_view(tickers, books.update(i, b)) == books_view(tickers, books).insert(tickers[i]@, b@),
{
    let t = tickers[i]@;
    let v1 = books_view(tickers, books.update(i, b));
    let v0 = books_view(tickers, books);
    assert forall|t2: Seq<char>| #[trigger] v1.contains_key(t2) implies v1[t2] == v0.insert(t, b@)[t2] by {
        let j = choose|j: int| 0 <= j < tickers.len() && #[trigger] tickers[j]@ == t2;
        assert(tickers[j]@ == t2);
        if t2 == t {
            assert(j == i);
        }
    }
    assert(v1 =~= v0.insert(t, b@));
}

proof fn lemma_view_absent(tickers: Seq<String>, books: Seq<OrderBook>, t: Seq<char>)
    requires
        forall|i: int| 0 <= i < tickers.len() ==> #[trigger] tickers[i]@ != t,
    ensures
        !books_view(tickers, books).contains_key(t),
{
}

/// The index of `ticker` among `tickers`, if it is one of them.
fn find(tickers: &Vec<String>, ticker: &String) -> (r: Option<usize>)
    ensures
        r matches Some(i) ==> i < tickers@.len() && tickers@[i as int]@ == ticker@,
        r is None ==> forall|i: int| 0 <= i < tickers@.len() ==> #[trigger] tickers@[i]@ != ticker@,
{
    let mut i: usize = 0;
    while i < tickers.len()
        invariant
            i <= tickers@.len(),
            forall|j: int| 0 <= j < i ==> #[trigger] tickers@[j]@ != ticker@,
        decreases tickers@.len() - i,
    {
        if tickers[i] == *ticker {
            return Some(i);
        }
        i = i + 1;
    }
    None
}

impl View for Exchange {
    type V = Map<Seq<char>, BookState>;

    /// Each ticker of the exchange, by its characters, to the state of its book.
    closed spec fn view(&self) -> Map<Seq<char>, BookState> {
        books_view(self.tickers@, self.books@)
    }
}

impl Exchange {
    /// One book per ticker, no ticker twice, every book well formed.
    #[verifier::type_invariant]
    spec fn inv(self) -> bool {
        books_wf(self.tickers@, self.books@)
    }

    /// An exchange with no ticker.
    pub fn new() -> (ex: Self)
        ensures
            ex@ == Map::<Seq<char>, BookState>::empty(),
    {
        let ex = Exchange { tickers: Vec::new(), books: Vec::new() };
        assert(ex@ =~= Map::<Seq<char>, BookState>::empty());
        ex
    }

    /// An exchange with an empty book for each of `tickers` (a ticker named
    /// twice gets one book).
    pub fn with_tickers(tickers: Vec<String>) -> (ex: Self)
        ensures
            forall|t: Seq<char>|
                #![trigger ex@.contains_key(t)]
                ex@.contains_key(t) <==> exists|i: int| 0 <= i < tickers@.len() && #[trigger] tickers@[i]@ == t,
            forall|t: Seq<char>| #[trigger] ex@.contains_key(t) ==> ex@[t] == empty_book(),
    {
        let mut names: Vec<String> = Vec::new();
        let mut books: Vec<OrderBook> = Vec::new();
        let mut k: usize = 0;
        while k < tickers.len()
            invariant
                books_wf(names@, books@),
                k <= tickers@.len(),
                forall|t: Seq<char>|
                    #![trigger books_view(names@, books@).contains_key(t)]
                    books_view(names@, books@).contains_key(t) <==> exists|i: int|
                        0 <= i < k && #[trigger] tickers@[i]@ == t,
                forall|t: Seq<char>| #[trigger]
                    books_view(names@, books@).contains_key(t) ==> books_view(names@, books@)[t] == empty_book(),
            decreases tickers@.len() - k,
        {
            let t = tickers[k].clone();
            let ghost before = books_view(names@, books@);
            let ghost old_names = names@;
            let ghost old_books = books@;
            let found = find(&names, &t);
            if found.is_none() {
                names.push(t);
                books.push(OrderBook::new());
                proof {
                    let n = old_names.len();
                    let v = books_view(names@, books@);
                    assert(names@[n as int]@ == tickers@[k as int]@);
                    assert forall|i: int, j: int|
                        0 <= i < names@.len() && 0 <= j < names@.len() && i != j implies #[trigger] names@[i]@
                        != #[trigger] names@[j]@ by {
                        if i < n && j < n {
                            assert(names@[i] == old_names[i]);
                            assert(names@[j] == old_names[j]);
                        } else if i < n {
                            assert(names@[i] == old_names[i]);
                        } else if j < n {
                            assert(names@[j] == old_names[j]);
                        }
                    }
                    assert forall|i: int| 0 <= i < books@.len() implies {
                        &&& (#[trigger] books@[i]).wf()
                        &&& books@[i].levels_nonempty()
                        &&& books@[i].finite_levels()
                    } by {
                        if i < n {
                            assert(books@[i] == old_books[i]);
                        }
                    }
                    assert(books_wf(names@, books@));
                    assert forall|t2: Seq<char>| #[trigger] v.contains_key(t2) implies v[t2] == empty_book() by {
                        let i = choose|i: int| 0 <= i < names@.len() && #[trigger] names@[i]@ == t2;
                        lemma_view_at(names@, books@, i);
                        if i < n {
                            assert(names@[i] == old_names[i]);
                            lemma_view_at(old_names, old_books, i);
                        } else {
                            assert(books@[i]@.bids =~= empty_book().bids);
                            assert(books@[i]@.asks =~= empty_book().asks);
                        }
                    }
                    assert forall|t2: Seq<char>|
                        #![trigger v.contains_key(t2)]
                        v.contains_key(t2) <==> exists|i: int| 0 <= i < k + 1 && #[trigger] tickers@[i]@ == t2 by {
                        if v.contains_key(t2) {
                            let i = choose|i: int| 0 <= i < names@.len() && #[trigger] names@[i]@ == t2;
                            if i < n {
                                assert(names@[i] == old_names[i]);
                                lemma_view_at(old_names, old_books, i);
                            } else {
                                assert(tickers@[k as int]@ == t2);
                            }
                        }
                        if exists|i: int| 0 <= i < k + 1 && #[trigger] tickers@[i]@ == t2 {
                            let i = choose|i: int| 0 <= i < k + 1 && #[trigger] tickers@[i]@ == t2;
                            if i < k {
                                assert(before.contains_key(t2));
                                let j = choose|j: int| 0 <= j < old_names.len() && #[trigger] old_names[j]@ == t2;
                                assert(names@[j]@ == t2);
                            } else {
                                assert(names@[n as int]@ == t2);
                            }
                        }
                    }
                }
            } else {
                proof {
                    let j = found.unwrap() as int;
                    lemma_view_at(names@, books@, j);
                    let v = books_view(names@, books@);
                    assert forall|t2: Seq<char>|
                        #![trigger v.contains_key(t2)]
                        v.contains_key(t2) <==> exists|i: int| 0 <= i < k + 1 && #[trigger] tickers@[i]@ == t2 by {
                        if exists|i: int| 0 <= i < k + 1 && #[trigger] tickers@[i]@ == t2 {
                            let i = choose|i: int| 0 <= i < k + 1 && #[trigger] tickers@[i]@ == t2;
                            if i == k {
                                assert(v.contains_key(t@));
                            }
                        }
                    }
                }
            }
            k = k + 1;
        }
        Exchange { tickers: names, books }
    }

    /// The book of `ticker`, if the exchange lists it.
    pub fn book(&self, ticker: &str) -> (r: Option<&OrderBook>)
        ensures
            r matches Some(b) ==> self@.contains_key(ticker@) && b@ == self@[ticker@],
            r is None ==> !self@.contains_key(ticker@),
    {
        proof {
            use_type_invariant(self);
        }
        let name = ticker.to_string();
        proof {
            assert(name@ == ticker@);
        }
        match find(&self.tickers, &name) {
            None => {
                proof {
                    lemma_view_absent(self.tickers@, self.books@, ticker@);
                }
                None
            },
            Some(i) => {
                proof {
                    lemma_view_at(self.tickers@, self.books@, i as int);
                }
                Some(&self.books[i])
            },
        }
    }

    /// Validates `order` and matches it in the book of its ticker. It is
    /// refused, and nothing changes, when its quantity is zero, when its
    /// price is zero, or when its ticker has no book (checked in that
    /// order); otherwise the trades come back in the order they happened.
    pub fn process(&mut self, order: Order) -> (r: Result<Vec<Trade>, RejectionReport>)
        ensures
            match r {
                Ok(trades) => {
                    &&& rejection_reason(old(self)@, order) is None
                    &&& final(self)@ == processed(old(self)@, order).0
                    &&& records_fills(Seq::empty(), trades@, order, order.side, processed(old(self)@, order).1)
                    &&& records_fills(
                        Seq::empty(),
                        trades@,
                        order,
                        order.side,
                        matched(old(self)@[order.ticker@], order, true).1,
                    )
                },
                Err(report) => {
                    &&& rejection_reason(old(self)@, order) == Some(report.reason@)
                    &&& report.order_id == order.id
                    &&& report.ticker@ == order.ticker@
                    &&& final(self)@ == old(self)@
                },
            },
            r is Ok <==> (order.qty > 0 && order.limit_price > 0 && old(self)@.contains_key(order.ticker@)),
    {
        proof {
            use_type_invariant(&*self);
        }
        if order.qty == 0 {
            return Err(
                RejectionReport {
                    order_id: order.id,
                    ticker: order.ticker.clone(),
                    reason: "Order cannot be empty!".to_string(),
                },
            );
        }
        if order.limit_price == 0 {
            return Err(
                RejectionReport {
                    order_id: order.id,
                    ticker: order.ticker.clone(),
                    reason: "Price cannot be zero!".to_string(),
                },
            );
        }
        match find(&self.tickers, &order.ticker) {
            None => {
                proof {
                    lemma_view_absent(self.tickers@, self.books@, order.ticker@);
                }
                Err(
                    RejectionReport {
                        order_id: order.id,
                        ticker: order.ticker.clone(),
                        reason: "Ticker does not exist!".to_string(),
                    },
                )
            },
            Some(i) => {
                let ghost tickers0 = self.tickers@;
                let ghost books0 = self.books@;
                proof {
                    lemma_view_at(tickers0, books0, i as int);
                }
                let mut taken = Exchange::new();
                std::mem::swap(&mut taken, self);
                let Exchange { tickers, mut books } = taken;
                let trades = books[i].match_order(order);
                proof {
                    assert(books@ == books0.update(i as int, books@[i as int]));
                    lemma_view_update(tickers0, books0, i as int, books@[i as int]);
                    assert forall|j: int| 0 <= j < books@.len() implies {
                        &&& (#[trigger] books@[j]).wf()
                        &&& books@[j].levels_nonempty()
                        &&& books@[j].finite_levels()
                    } by {
                        if j != i {
                            assert(books@[j] == books0[j]);
                        }
                    }
                }
                *self = Exchange { tickers, books };
                Ok(trades)
            },
        }
    }
}

} // verus!
