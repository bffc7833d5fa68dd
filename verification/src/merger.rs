//! The merger: one unified book per side, ordered best price first, with a
//! per-exchange replacement rule.
//!
//! Each incoming summary carries levels from a single exchange.  Applying it
//! removes that exchange's previous contribution from both sides and merges
//! the new levels in, in one linear pass over two already-ordered inputs; on
//! price ties the incoming level is placed first.  The emitted summary holds
//! at most `depth` levels per side.

use vstd::prelude::*;

verus! {

use crate::types::{
    Level,
    Summary,
    Side,
    spec_price_le,
    spec_price_before,
    spec_side_sorted,
    spec_all_from,
    spec_none_from,
    spec_summary_wf,
    spec_summary_empty,
    spec_summary_homogeneous,
    spec_source,
};

/// `s` with every level of exchange `ex` removed, order kept.
pub open spec fn spec_purge(s: Seq<Level>, ex: Seq<char>) -> Seq<Level>
    decreases s.len(),
{
    if s.len() == 0 {
        Seq::empty()
    } else if s[0].exchange@ == ex {
        spec_purge(s.skip(1), ex)
    } else {
        seq![s[0]] + spec_purge(s.skip(1), ex)
    }
}

/// The levels of `s` contributed by exchange `ex`, in order.
pub open spec fn spec_contrib(s: Seq<Level>, ex: Seq<char>) -> Seq<Level>
    decreases s.len(),
{
    if s.len() == 0 {
        Seq::empty()
    } else if s[0].exchange@ == ex {
        seq![s[0]] + spec_contrib(s.skip(1), ex)
    } else {
        spec_contrib(s.skip(1), ex)
    }
}

/// One linear merge of two price-ordered level sequences; on equal prices a
/// level of `inc` goes before one of `book`.
pub open spec fn spec_merge(inc: Seq<Level>, book: Seq<Level>, side: Side) -> Seq<Level>
    decreases inc.len() + book.len(),
{
    if inc.len() == 0 {
        book
    } else if book.len() == 0 {
        inc
    } else if spec_price_before(side, book[0].price, inc[0].price) {
        seq![book[0]] + spec_merge(inc, book.skip(1), side)
    } else {
        seq![inc[0]] + spec_merge(inc.skip(1), book, side)
    }
}

/// One side of the book after the update `inc` from exchange `ex`: the
/// exchange's previous levels are purged, the new ones merged in.
pub open spec fn spec_apply_side(inc: Seq<Level>, book: Seq<Level>, ex: Seq<char>, side: Side) -> Seq<
    Level,
> {
    spec_merge(inc, spec_purge(book, ex), side)
}

/// The smaller of two numbers.
pub open spec fn spec_min(a: int, b: int) -> int {
    if a <= b {
        a
    } else {
        b
    }
}

/// Price `p` is at least as good as every price in `s`.
pub open spec fn spec_dominates(p: u64, s: Seq<Level>, side: Side) -> bool {
    forall|k: int| 0 <= k < s.len() ==> spec_price_le(side, p, (#[trigger] s[k]).price)
}

/// Prepending a level keeps a side ordered exactly when the rest is ordered
/// and the level's price is at least as good as every following price.
proof fn lemma_sorted_cons(h: Level, t: Seq<Level>, side: Side)
    ensures
        spec_side_sorted(seq![h] + t, side) <==> (spec_side_sorted(t, side) && spec_dominates(
            h.price,
            t,
            side,
        )),
{
    let c = seq![h] + t;
    assert(c[0] == h);
    assert(forall|k: int| 0 <= k < t.len() ==> #[trigger] t[k] == c[k + 1]);
    if spec_side_sorted(c, side) {
        assert forall|i: int, j: int| 0 <= i <= j < t.len() implies spec_price_le(
            side,
            (#[trigger] t[i]).price,
            (#[trigger] t[j]).price,
        ) by {
            assert(spec_price_le(side, c[i + 1].price, c[j + 1].price));
        }
        assert forall|k: int| 0 <= k < t.len() implies spec_price_le(
            side,
            h.price,
            (#[trigger] t[k]).price,
        ) by {
            assert(spec_price_le(side, c[0].price, c[k + 1].price));
        }
    }
    if spec_side_sorted(t, side) && spec_dominates(h.price, t, side) {
        assert forall|i: int, j: int| 0 <= i <= j < c.len() implies spec_price_le(
            side,
            (#[trigger] c[i]).price,
            (#[trigger] c[j]).price,
        ) by {
            if i == 0 {
                if j > 0 {
                    assert(c[j] == t[j - 1]);
                }
            } else {
                assert(c[i] == t[i - 1]);
                assert(c[j] == t[j - 1]);
            }
        }
    }
}

/// An ordered side stays ordered after its first level is dropped, and its
/// first price is at least as good as every other.
proof fn lemma_sorted_uncons(s: Seq<Level>, side: Side)
    requires
        s.len() > 0,
        spec_side_sorted(s, side),
    ensures
        spec_side_sorted(s.skip(1), side),
        spec_dominates(s[0].price, s.skip(1), side),
{
    assert(forall|k: int| 0 <= k < s.skip(1).len() ==> #[trigger] s.skip(1)[k] == s[k + 1]);
    assert forall|i: int, j: int| 0 <= i <= j < s.skip(1).len() implies spec_price_le(
        side,
        (#[trigger] s.skip(1)[i]).price,
        (#[trigger] s.skip(1)[j]).price,
    ) by {
        assert(spec_price_le(side, s[i + 1].price, s[j + 1].price));
    }
    assert forall|k: int| 0 <= k < s.skip(1).len() implies spec_price_le(
        side,
        s[0].price,
        (#[trigger] s.skip(1)[k]).price,
    ) by {
        assert(spec_price_le(side, s[0].price, s[k + 1].price));
    }
}

/// Purging never disturbs the order of what remains.
proof fn lemma_purge_sorted(s: Seq<Level>, ex: Seq<char>, side: Side)
    requires
        spec_side_sorted(s, side),
    ensures
        spec_side_sorted(spec_purge(s, ex), side),
    decreases s.len(),
{
    if s.len() > 0 {
        lemma_sorted_uncons(s, side);
        lemma_purge_sorted(s.skip(1), ex, side);
        if s[0].exchange@ != ex {
            lemma_purge_dominates(s[0].price, s.skip(1), ex, side);
            lemma_sorted_cons(s[0], spec_purge(s.skip(1), ex), side);
        }
    }
}

/// A price at least as good as every price of `s` is at least as good as
/// every price remaining after a purge.
proof fn lemma_purge_dominates(p: u64, s: Seq<Level>, ex: Seq<char>, side: Side)
    requires
        spec_dominates(p, s, side),
    ensures
        spec_dominates(p, spec_purge(s, ex), side),
    decreases s.len(),
{
    if s.len() > 0 {
        assert(forall|k: int| 0 <= k < s.skip(1).len() ==> #[trigger] s.skip(1)[k] == s[k + 1]);
        lemma_purge_dominates(p, s.skip(1), ex, side);
        if s[0].exchange@ != ex {
            let r = seq![s[0]] + spec_purge(s.skip(1), ex);
            assert forall|k: int| 0 <= k < r.len() implies spec_price_le(
                side,
                p,
                (#[trigger] r[k]).price,
            ) by {
                if k > 0 {
                    assert(r[k] == spec_purge(s.skip(1), ex)[k - 1]);
                }
            }
        }
    }
}

/// No level of a purged side carries the purged exchange's tag.
proof fn lemma_purge_none_from(s: Seq<Level>, ex: Seq<char>)
    ensures
        spec_none_from(spec_purge(s, ex), ex),
    decreases s.len(),
{
    if s.len() > 0 {
        lemma_purge_none_from(s.skip(1), ex);
        if s[0].exchange@ != ex {
            let r = seq![s[0]] + spec_purge(s.skip(1), ex);
            assert(forall|k: int|
                1 <= k < r.len() ==> #[trigger] r[k] == spec_purge(s.skip(1), ex)[k - 1]);
        }
    }
}

/// Purging an exchange that contributed nothing changes nothing.
proof fn lemma_purge_noop(s: Seq<Level>, ex: Seq<char>)
    requires
        spec_none_from(s, ex),
    ensures
        spec_purge(s, ex) == s,
    decreases s.len(),
{
    if s.len() > 0 {
        assert(forall|k: int| 0 <= k < s.skip(1).len() ==> #[trigger] s.skip(1)[k] == s[k + 1]);
        lemma_purge_noop(s.skip(1), ex);
        assert(seq![s[0]] + s.skip(1) =~= s);
    }
}

/// A side with no level of exchange `ex` contributes nothing for `ex`.
proof fn lemma_contrib_none(s: Seq<Level>, ex: Seq<char>)
    requires
        spec_none_from(s, ex),
    ensures
        spec_contrib(s, ex) == Seq::<Level>::empty(),
    decreases s.len(),
{
    if s.len() > 0 {
        assert(forall|k: int| 0 <= k < s.skip(1).len() ==> #[trigger] s.skip(1)[k] == s[k + 1]);
        lemma_contrib_none(s.skip(1), ex);
    }
}

/// A side whose levels all carry `ex` is exactly its own contribution.
proof fn lemma_contrib_all(s: Seq<Level>, ex: Seq<char>)
    requires
        spec_all_from(s, ex),
    ensures
        spec_contrib(s, ex) == s,
    decreases s.len(),
{
    if s.len() > 0 {
        assert(forall|k: int| 0 <= k < s.skip(1).len() ==> #[trigger] s.skip(1)[k] == s[k + 1]);
        lemma_contrib_all(s.skip(1), ex);
        assert(seq![s[0]] + s.skip(1) =~= s);
    }
}

/// Purging one exchange leaves every other exchange's contribution intact.
proof fn lemma_purge_contrib_other(s: Seq<Level>, ex: Seq<char>, e: Seq<char>)
    requires
        e != ex,
    ensures
        spec_contrib(spec_purge(s, ex), e) == spec_contrib(s, e),
    decreases s.len(),
{
    if s.len() > 0 {
        lemma_purge_contrib_other(s.skip(1), ex, e);
        if s[0].exchange@ != ex {
            let r = seq![s[0]] + spec_purge(s.skip(1), ex);
            assert(r[0] == s[0]);
            assert(r.skip(1) =~= spec_purge(s.skip(1), ex));
        }
    }
}

/// Merging levels of exchange `ex` into a side free of `ex` makes `ex`'s
/// contribution exactly the merged levels, and purging `ex` again recovers
/// the side.
proof fn lemma_merge_contrib(inc: Seq<Level>, book: Seq<Level>, side: Side, ex: Seq<char>)
    requires
        spec_all_from(inc, ex),
        spec_none_from(book, ex),
    ensures
        spec_contrib(spec_merge(inc, book, side), ex) == inc,
        spec_purge(spec_merge(inc, book, side), ex) == book,
    decreases inc.len() + book.len(),
{
    if inc.len() == 0 {
        lemma_contrib_none(book, ex);
        lemma_purge_noop(book, ex);
        assert(spec_contrib(spec_merge(inc, book, side), ex) =~= inc);
    } else if book.len() == 0 {
        lemma_contrib_all(inc, ex);
        lemma_purge_all(inc, ex);
        assert(spec_purge(spec_merge(inc, book, side), ex) =~= book);
    } else if spec_price_before(side, book[0].price, inc[0].price) {
        assert(forall|k: int|
            0 <= k < book.skip(1).len() ==> #[trigger] book.skip(1)[k] == book[k + 1]);
        lemma_merge_contrib(inc, book.skip(1), side, ex);
        let m = spec_merge(inc, book.skip(1), side);
        let c = seq![book[0]] + m;
        assert(c[0] == book[0]);
        assert(c.skip(1) =~= m);
        assert(seq![book[0]] + book.skip(1) =~= book);
    } else {
        assert(forall|k: int|
            0 <= k < inc.skip(1).len() ==> #[trigger] inc.skip(1)[k] == inc[k + 1]);
        lemma_merge_contrib(inc.skip(1), book, side, ex);
        let m = spec_merge(inc.skip(1), book, side);
        let c = seq![inc[0]] + m;
        assert(c[0] == inc[0]);
        assert(c.skip(1) =~= m);
        assert(seq![inc[0]] + inc.skip(1) =~= inc);
    }
}

/// Purging the only exchange a side holds empties it.
proof fn lemma_purge_all(s: Seq<Level>, ex: Seq<char>)
    requires
        spec_all_from(s, ex),
    ensures
        spec_purge(s, ex) == Seq::<Level>::empty(),
    decreases s.len(),
{
    if s.len() > 0 {
        assert(forall|k: int| 0 <= k < s.skip(1).len() ==> #[trigger] s.skip(1)[k] == s[k + 1]);
        lemma_purge_all(s.skip(1), ex);
    }
}

/// Merging levels of exchange `ex` leaves every other exchange's
/// contribution exactly as the underlying side had it.
proof fn lemma_merge_contrib_other(
    inc: Seq<Level>,
    book: Seq<Level>,
    side: Side,
    ex: Seq<char>,
    e: Seq<char>,
)
    requires
        spec_all_from(inc, ex),
        e != ex,
    ensures
        spec_contrib(spec_merge(inc, book, side), e) == spec_contrib(book, e),
    decreases inc.len() + book.len(),
{
    if inc.len() == 0 {
    } else if book.len() == 0 {
        assert(spec_none_from(inc, e));
        lemma_contrib_none(inc, e);
        assert(spec_contrib(book, e) =~= Seq::<Level>::empty());
    } else if spec_price_before(side, book[0].price, inc[0].price) {
        assert(forall|k: int|
            0 <= k < book.skip(1).len() ==> #[trigger] book.skip(1)[k] == book[k + 1]);
        lemma_merge_contrib_other(inc, book.skip(1), side, ex, e);
        let m = spec_merge(inc, book.skip(1), side);
        let c = seq![book[0]] + m;
        assert(c[0] == book[0]);
        assert(c.skip(1) =~= m);
        assert(seq![book[0]] + book.skip(1) =~= book);
    } else {
        assert(forall|k: int|
            0 <= k < inc.skip(1).len() ==> #[trigger] inc.skip(1)[k] == inc[k + 1]);
        lemma_merge_contrib_other(inc.skip(1), book, side, ex, e);
        let m = spec_merge(inc.skip(1), book, side);
        let c = seq![inc[0]] + m;
        assert(c[0] == inc[0]);
        assert(c.skip(1) =~= m);
    }
}

/// A price at least as good as every price of two ordered inputs is at
/// least as good as every price of their merge.
proof fn lemma_merge_dominates(p: u64, inc: Seq<Level>, book: Seq<Level>, side: Side)
    requires
        spec_dominates(p, inc, side),
        spec_dominates(p, book, side),
    ensures
        spec_dominates(p, spec_merge(inc, book, side), side),
    decreases inc.len() + book.len(),
{
    if inc.len() == 0 || book.len() == 0 {
    } else if spec_price_before(side, book[0].price, inc[0].price) {
        assert(forall|k: int|
            0 <= k < book.skip(1).len() ==> #[trigger] book.skip(1)[k] == book[k + 1]);
        lemma_merge_dominates(p, inc, book.skip(1), side);
        let m = spec_merge(inc, book.skip(1), side);
        let c = seq![book[0]] + m;
        assert forall|k: int| 0 <= k < c.len() implies spec_price_le(
            side,
            p,
            (#[trigger] c[k]).price,
        ) by {
            if k > 0 {
                assert(c[k] == m[k - 1]);
            }
        }
    } else {
        assert(forall|k: int|
            0 <= k < inc.skip(1).len() ==> #[trigger] inc.skip(1)[k] == inc[k + 1]);
        lemma_merge_dominates(p, inc.skip(1), book, side);
        let m = spec_merge(inc.skip(1), book, side);
        let c = seq![inc[0]] + m;
        assert forall|k: int| 0 <= k < c.len() implies spec_price_le(
            side,
            p,
            (#[trigger] c[k]).price,
        ) by {
            if k > 0 {
                assert(c[k] == m[k - 1]);
            }
        }
    }
}

/// Merging two ordered sides yields an ordered side.
proof fn lemma_merge_sorted(inc: Seq<Level>, book: Seq<Level>, side: Side)
    requires
        spec_side_sorted(inc, side),
        spec_side_sorted(book, side),
    ensures
        spec_side_sorted(spec_merge(inc, book, side), side),
    decreases inc.len() + book.len(),
{
    if inc.len() == 0 || book.len() == 0 {
    } else if spec_price_before(side, book[0].price, inc[0].price) {
        lemma_sorted_uncons(book, side);
        lemma_merge_sorted(inc, book.skip(1), side);
        assert forall|k: int| 0 <= k < inc.len() implies spec_price_le(
            side,
            book[0].price,
            (#[trigger] inc[k]).price,
        ) by {
            assert(spec_price_le(side, inc[0].price, inc[k].price));
        }
        lemma_merge_dominates(book[0].price, inc, book.skip(1), side);
        lemma_sorted_cons(book[0], spec_merge(inc, book.skip(1), side), side);
    } else {
        lemma_sorted_uncons(inc, side);
        lemma_merge_sorted(inc.skip(1), book, side);
        assert forall|k: int| 0 <= k < book.len() implies spec_price_le(
            side,
            inc[0].price,
            (#[trigger] book[k]).price,
        ) by {
            assert(spec_price_le(side, book[0].price, book[k].price));
        }
        lemma_merge_dominates(inc[0].price, inc.skip(1), book, side);
        lemma_sorted_cons(inc[0], spec_merge(inc.skip(1), book, side), side);
    }
}

/// A prefix of an ordered side is ordered.
proof fn lemma_take_sorted(s: Seq<Level>, n: int, side: Side)
    requires
        0 <= n <= s.len(),
        spec_side_sorted(s, side),
    ensures
        spec_side_sorted(s.take(n), side),
{
    assert(forall|k: int| 0 <= k < n ==> #[trigger] s.take(n)[k] == s[k]);
}

/// Replaying an exchange's update is idempotent: applying the same levels
/// from `ex` to a side that already carries them yields the same side, so
/// the merger emits the same summary for a repeated update.
pub proof fn lemma_replay_idempotent(inc: Seq<Level>, book: Seq<Level>, side: Side, ex: Seq<char>)
    requires
        spec_all_from(inc, ex),
    ensures
        spec_apply_side(inc, spec_apply_side(inc, book, ex, side), ex, side) == spec_apply_side(
            inc,
            book,
            ex,
            side,
        ),
{
    let pb = spec_purge(book, ex);
    lemma_purge_none_from(book, ex);
    lemma_merge_contrib(inc, pb, side, ex);
}

/// Both sides of the book after one update, as `process_summary` changes
/// them: an empty update changes nothing.
pub open spec fn spec_step_books(bids: Seq<Level>, asks: Seq<Level>, s: Summary) -> (
    Seq<Level>,
    Seq<Level>,
) {
    if spec_summary_empty(s) {
        (bids, asks)
    } else {
        (
            spec_apply_side(s.bids@, bids, spec_source(s), Side::Bid),
            spec_apply_side(s.asks@, asks, spec_source(s), Side::Ask),
        )
    }
}

/// Both sides of the book after a run of updates, applied in order.
pub open spec fn spec_run_books(bids: Seq<Level>, asks: Seq<Level>, updates: Seq<Summary>) -> (
    Seq<Level>,
    Seq<Level>,
)
    decreases updates.len(),
{
    if updates.len() == 0 {
        (bids, asks)
    } else {
        let next = spec_step_books(bids, asks, updates[0]);
        spec_run_books(next.0, next.1, updates.skip(1))
    }
}

/// Whether `u` is a non-empty update from exchange `e`.
pub open spec fn spec_update_from(u: Summary, e: Seq<char>) -> bool {
    !spec_summary_empty(u) && spec_source(u) == e
}

/// The most recent update from exchange `e` in a run, if any.
pub open spec fn spec_last_from(updates: Seq<Summary>, e: Seq<char>) -> Option<Summary>
    decreases updates.len(),
{
    if updates.len() == 0 {
        None
    } else {
        match spec_last_from(updates.skip(1), e) {
            Some(u) => Some(u),
            None => if spec_update_from(updates[0], e) {
                Some(updates[0])
            } else {
                None
            },
        }
    }
}

/// What one update does to exchange `e`'s contribution: an update from `e`
/// replaces it wholesale; any other update leaves it untouched.
proof fn lemma_step_contrib(bids: Seq<Level>, asks: Seq<Level>, u: Summary, e: Seq<char>)
    requires
        spec_summary_homogeneous(u),
    ensures
        spec_update_from(u, e) ==> spec_contrib(spec_step_books(bids, asks, u).0, e) == u.bids@
            && spec_contrib(spec_step_books(bids, asks, u).1, e) == u.asks@,
        !spec_update_from(u, e) ==> spec_contrib(spec_step_books(bids, asks, u).0, e)
            == spec_contrib(bids, e) && spec_contrib(spec_step_books(bids, asks, u).1, e)
            == spec_contrib(asks, e),
{
    if !spec_summary_empty(u) {
        let ex = spec_source(u);
        lemma_purge_none_from(bids, ex);
        lemma_purge_none_from(asks, ex);
        if ex == e {
            lemma_merge_contrib(u.bids@, spec_purge(bids, ex), Side::Bid, ex);
            lemma_merge_contrib(u.asks@, spec_purge(asks, ex), Side::Ask, ex);
        } else {
            lemma_merge_contrib_other(u.bids@, spec_purge(bids, ex), Side::Bid, ex, e);
            lemma_merge_contrib_other(u.asks@, spec_purge(asks, ex), Side::Ask, ex, e);
            lemma_purge_contrib_other(bids, ex, e);
            lemma_purge_contrib_other(asks, ex, e);
        }
    }
}

/// Over any run of homogeneous updates, each exchange's contribution to
/// the book is exactly its most recent non-empty update; an exchange that
/// never sent one keeps its initial contribution, so from an empty book it
/// contributes nothing.
pub proof fn lemma_run_contribution(
    bids: Seq<Level>,
    asks: Seq<Level>,
    updates: Seq<Summary>,
    e: Seq<char>,
)
    requires
        forall|k: int| 0 <= k < updates.len() ==> spec_summary_homogeneous(#[trigger] updates[k]),
    ensures
        match spec_last_from(updates, e) {
            Some(u) => spec_contrib(spec_run_books(bids, asks, updates).0, e) == u.bids@
                && spec_contrib(spec_run_books(bids, asks, updates).1, e) == u.asks@,
            None => spec_contrib(spec_run_books(bids, asks, updates).0, e) == spec_contrib(
                bids,
                e,
            ) && spec_contrib(spec_run_books(bids, asks, updates).1, e) == spec_contrib(asks, e),
        },
    decreases updates.len(),
{
    if updates.len() > 0 {
        let u0 = updates[0];
        let next = spec_step_books(bids, asks, u0);
        assert(forall|k: int|
            0 <= k < updates.skip(1).len() ==> #[trigger] updates.skip(1)[k] == updates[k + 1]);
        lemma_step_contrib(bids, asks, u0, e);
        lemma_run_contribution(next.0, next.1, updates.skip(1), e);
    }
}

/// Over any run of well-formed homogeneous updates, both sides of the
/// book stay ordered best price first.
pub proof fn lemma_run_sorted(bids: Seq<Level>, asks: Seq<Level>, updates: Seq<Summary>)
    requires
        spec_side_sorted(bids, Side::Bid),
        spec_side_sorted(asks, Side::Ask),
        forall|k: int| 0 <= k < updates.len() ==> spec_summary_wf(#[trigger] updates[k]),
    ensures
        spec_side_sorted(spec_run_books(bids, asks, updates).0, Side::Bid),
        spec_side_sorted(spec_run_books(bids, asks, updates).1, Side::Ask),
    decreases updates.len(),
{
    if updates.len() > 0 {
        let u0 = updates[0];
        let next = spec_step_books(bids, asks, u0);
        if !spec_summary_empty(u0) {
            let ex = spec_source(u0);
            lemma_purge_sorted(bids, ex, Side::Bid);
            lemma_purge_sorted(asks, ex, Side::Ask);
            lemma_merge_sorted(u0.bids@, spec_purge(bids, ex), Side::Bid);
            lemma_merge_sorted(u0.asks@, spec_purge(asks, ex), Side::Ask);
        }
        assert(forall|k: int|
            0 <= k < updates.skip(1).len() ==> #[trigger] updates.skip(1)[k] == updates[k + 1]);
        lemma_run_sorted(next.0, next.1, updates.skip(1));
    }
}

/// Tells whether price `a` is strictly better than price `b` on `side`.
fn price_first(side: Side, a: u64, b: u64) -> (r: bool)
    ensures
        r == spec_price_before(side, a, b),
{
    match side {
        Side::Bid => a > b,
        Side::Ask => a < b,
    }
}

/// Removes every level of `exchange` from `book`, keeping the order, in
/// one linear pass.
pub fn purge_exchange(book: &Vec<Level>, exchange: &String) -> (r: Vec<Level>)
    ensures
        r@ == spec_purge(book@, exchange@),
{
    let mut r: Vec<Level> = Vec::new();
    let mut i: usize = 0;
    proof {
        assert(book@.skip(0) =~= book@);
    }
    while i < book.len()
        invariant
            i <= book@.len(),
            r@ + spec_purge(book@.skip(i as int), exchange@) == spec_purge(book@, exchange@),
        decreases book@.len() - i,
    {
        proof {
            assert(book@.skip(i as int)[0] == book@[i as int]);
            assert(book@.skip(i as int).skip(1) =~= book@.skip(i + 1));
        }
        if !(book[i].exchange == *exchange) {
            r.push(book[i].clone());
            proof {
                assert(r@ + spec_purge(book@.skip(i + 1), exchange@) =~= spec_purge(
                    book@,
                    exchange@,
                ));
            }
        }
        i = i + 1;
    }
    proof {
        assert(spec_purge(book@.skip(book@.len() as int), exchange@) =~= Seq::<Level>::empty());
        assert(r@ + spec_purge(book@.skip(book@.len() as int), exchange@) =~= r@);
    }
    r
}

/// Merges two price-ordered level sequences in one linear pass; on equal
/// prices a level of `inc` goes before one of `book`.
pub fn merge_levels(inc: Vec<Level>, book: Vec<Level>, side: Side) -> (r: Vec<Level>)
    ensures
        r@ == spec_merge(inc@, book@, side),
{
    let mut r: Vec<Level> = Vec::new();
    let mut i: usize = 0;
    let mut j: usize = 0;
    proof {
        assert(inc@.skip(0) =~= inc@);
        assert(book@.skip(0) =~= book@);
    }
    while i < inc.len() && j < book.len()
        invariant
            i <= inc@.len(),
            j <= book@.len(),
            r@ + spec_merge(inc@.skip(i as int), book@.skip(j as int), side) == spec_merge(
                inc@,
                book@,
                side,
            ),
        decreases inc@.len() + book@.len() - i - j,
    {
        proof {
            assert(inc@.skip(i as int)[0] == inc@[i as int]);
            assert(inc@.skip(i as int).skip(1) =~= inc@.skip(i + 1));
            assert(book@.skip(j as int)[0] == book@[j as int]);
            assert(book@.skip(j as int).skip(1) =~= book@.skip(j + 1));
        }
        if price_first(side, book[j].price, inc[i].price) {
            r.push(book[j].clone());
            j = j + 1;
            proof {
                assert(r@ + spec_merge(inc@.skip(i as int), book@.skip(j as int), side)
                    =~= spec_merge(inc@, book@, side));
            }
        } else {
            r.push(inc[i].clone());
            i = i + 1;
            proof {
                assert(r@ + spec_merge(inc@.skip(i as int), book@.skip(j as int), side)
                    =~= spec_merge(inc@, book@, side));
            }
        }
    }
    while i < inc.len()
        invariant
            i <= inc@.len(),
            j <= book@.len(),
            i < inc@.len() ==> j == book@.len(),
            r@ + spec_merge(inc@.skip(i as int), book@.skip(j as int), side) == spec_merge(
                inc@,
                book@,
                side,
            ),
        decreases inc@.len() - i,
    {
        proof {
            assert(book@.skip(j as int) =~= Seq::<Level>::empty());
            assert(inc@.skip(i as int)[0] == inc@[i as int]);
            assert(inc@.skip(i as int).skip(1) =~= inc@.skip(i + 1));
            assert(spec_merge(inc@.skip(i as int), book@.skip(j as int), side) == seq![
                inc@[i as int],
            ] + spec_merge(inc@.skip(i + 1), book@.skip(j as int), side));
        }
        r.push(inc[i].clone());
        i = i + 1;
        proof {
            assert(r@ + spec_merge(inc@.skip(i as int), book@.skip(j as int), side) =~= spec_merge(
                inc@,
                book@,
                side,
            ));
        }
    }
    while j < book.len()
        invariant
            i == inc@.len(),
            j <= book@.len(),
            r@ + spec_merge(inc@.skip(i as int), book@.skip(j as int), side) == spec_merge(
                inc@,
                book@,
                side,
            ),
        decreases book@.len() - j,
    {
        proof {
            assert(inc@.skip(i as int) =~= Seq::<Level>::empty());
            assert(book@.skip(j as int)[0] == book@[j as int]);
            assert(book@.skip(j as int).skip(1) =~= book@.skip(j + 1));
            assert(spec_merge(inc@.skip(i as int), book@.skip(j as int), side) == book@.skip(
                j as int,
            ));
            assert(book@.skip(j as int) =~= seq![book@[j as int]] + book@.skip(j + 1));
        }
        r.push(book[j].clone());
        j = j + 1;
        proof {
            assert(r@ + spec_merge(inc@.skip(i as int), book@.skip(j as int), side) =~= spec_merge(
                inc@,
                book@,
                side,
            ));
        }
    }
    proof {
        assert(inc@.skip(inc@.len() as int) =~= Seq::<Level>::empty());
        assert(book@.skip(book@.len() as int) =~= Seq::<Level>::empty());
        assert(r@ + spec_merge(inc@.skip(i as int), book@.skip(j as int), side) =~= r@);
    }
    r
}

/// Copies the first `n` levels of `v`.
fn clone_levels_prefix(v: &Vec<Level>, n: usize) -> (r: Vec<Level>)
    requires
        n <= v@.len(),
    ensures
        r@ == v@.take(n as int),
{
    let mut r: Vec<Level> = Vec::new();
    let mut i: usize = 0;
    while i < n
        invariant
            i <= n <= v@.len(),
            r@ =~= v@.take(i as int),
        decreases n - i,
    {
        r.push(v[i].clone());
        i = i + 1;
        proof {
            assert(v@.take(i as int) =~= v@.take(i - 1).push(v@[i - 1]));
        }
    }
    r
}

/// Owns the canonical unified book: both sides ordered best price first,
/// and the emission depth.
pub struct OrderbookMerger {
    pub bids: Vec<Level>,
    pub asks: Vec<Level>,
    pub depth: usize,
}

impl OrderbookMerger {
    /// Both sides of the canonical book are ordered best price first.
    pub open spec fn wf(&self) -> bool {
        spec_side_sorted(self.bids@, Side::Bid) && spec_side_sorted(self.asks@, Side::Ask)
    }

    /// A merger with an empty book.
    pub fn new(depth: usize) -> (r: Self)
        ensures
            r.wf(),
            r.depth == depth,
            r.bids@.len() == 0,
            r.asks@.len() == 0,
    {
        Self { bids: Vec::new(), asks: Vec::new(), depth }
    }

    /// The summary to emit: the best `depth` levels of each side.
    pub fn summary(&self) -> (r: Summary)
        ensures
            r.bids@ == self.bids@.take(spec_min(self.depth as int, self.bids@.len() as int)),
            r.asks@ == self.asks@.take(spec_min(self.depth as int, self.asks@.len() as int)),
            r.bids@.len() <= self.depth,
            r.asks@.len() <= self.depth,
            self.wf() ==> spec_summary_wf(r),
    {
        let nb = if self.depth <= self.bids.len() {
            self.depth
        } else {
            self.bids.len()
        };
        let na = if self.depth <= self.asks.len() {
            self.depth
        } else {
            self.asks.len()
        };
        let r = Summary {
            bids: clone_levels_prefix(&self.bids, nb),
            asks: clone_levels_prefix(&self.asks, na),
        };
        proof {
            if self.wf() {
                lemma_take_sorted(self.bids@, nb as int, Side::Bid);
                lemma_take_sorted(self.asks@, na as int, Side::Ask);
            }
        }
        r
    }

    /// Applies one exchange update to the book and returns the summary to
    /// emit, or nothing for an empty update.
    ///
    /// The update's previous contribution from the same exchange is
    /// replaced on both sides; every other exchange's levels are untouched;
    /// both sides stay ordered; the emitted summary holds at most `depth`
    /// levels per side.
    pub fn process_summary(&mut self, summary: Summary) -> (r: Option<Summary>)
        requires
            old(self).wf(),
            spec_summary_wf(summary),
            spec_summary_homogeneous(summary),
        ensures
            final(self).depth == old(self).depth,
            final(self).wf(),
            final(self).bids@ == spec_step_books(old(self).bids@, old(self).asks@, summary).0,
            final(self).asks@ == spec_step_books(old(self).bids@, old(self).asks@, summary).1,
            spec_summary_empty(summary) ==> final(self).bids@ == old(self).bids@
                && final(self).asks@ == old(self).asks@ && r is None,
            !spec_summary_empty(summary) ==> {
                let ex = spec_source(summary);
                &&& final(self).bids@ == spec_apply_side(
                    summary.bids@,
                    old(self).bids@,
                    ex,
                    Side::Bid,
                )
                &&& final(self).asks@ == spec_apply_side(
                    summary.asks@,
                    old(self).asks@,
                    ex,
                    Side::Ask,
                )
                &&& spec_contrib(final(self).bids@, ex) == summary.bids@
                &&& spec_contrib(final(self).asks@, ex) == summary.asks@
                &&& (forall|e: Seq<char>|
                    e != ex ==> spec_contrib(final(self).bids@, e) == spec_contrib(
                        old(self).bids@,
                        e,
                    ))
                &&& (forall|e: Seq<char>|
                    e != ex ==> spec_contrib(final(self).asks@, e) == spec_contrib(
                        old(self).asks@,
                        e,
                    ))
                &&& (r matches Some(out) && out.bids@ == final(self).bids@.take(
                    spec_min(old(self).depth as int, final(self).bids@.len() as int),
                ) && out.asks@ == final(self).asks@.take(
                    spec_min(old(self).depth as int, final(self).asks@.len() as int),
                ) && out.bids@.len() <= old(self).depth && out.asks@.len() <= old(self).depth
                    && spec_summary_wf(out))
            },
    {
        if summary.bids.len() == 0 && summary.asks.len() == 0 {
            return None;
        }
        let exchange: String = if summary.asks.len() > 0 {
            summary.asks[0].exchange.clone()
        } else {
            summary.bids[0].exchange.clone()
        };
        let Summary { bids: inc_bids, asks: inc_asks } = summary;
        proof {
            assert(exchange@ == spec_source(summary));
            lemma_purge_sorted(self.bids@, exchange@, Side::Bid);
            lemma_purge_sorted(self.asks@, exchange@, Side::Ask);
            lemma_purge_none_from(self.bids@, exchange@);
            lemma_purge_none_from(self.asks@, exchange@);
            lemma_merge_sorted(
                summary.bids@,
                spec_purge(self.bids@, exchange@),
                Side::Bid,
            );
            lemma_merge_sorted(
                summary.asks@,
                spec_purge(self.asks@, exchange@),
                Side::Ask,
            );
            lemma_merge_contrib(
                summary.bids@,
                spec_purge(self.bids@, exchange@),
                Side::Bid,
                exchange@,
            );
            lemma_merge_contrib(
                summary.asks@,
                spec_purge(self.asks@, exchange@),
                Side::Ask,
                exchange@,
            );
            assert forall|e: Seq<char>| e != exchange@ implies spec_contrib(
                spec_apply_side(summary.bids@, self.bids@, exchange@, Side::Bid),
                e,
            ) == spec_contrib(self.bids@, e) by {
                lemma_merge_contrib_other(
                    summary.bids@,
                    spec_purge(self.bids@, exchange@),
                    Side::Bid,
                    exchange@,
                    e,
                );
                lemma_purge_contrib_other(self.bids@, exchange@, e);
            }
            assert forall|e: Seq<char>| e != exchange@ implies spec_contrib(
                spec_apply_side(summary.asks@, self.asks@, exchange@, Side::Ask),
                e,
            ) == spec_contrib(self.asks@, e) by {
                lemma_merge_contrib_other(
                    summary.asks@,
                    spec_purge(self.asks@, exchange@),
                    Side::Ask,
                    exchange@,
                    e,
                );
                lemma_purge_contrib_other(self.asks@, exchange@, e);
            }
        }
        let purged_bids = purge_exchange(&self.bids, &exchange);
        let purged_asks = purge_exchange(&self.asks, &exchange);
        self.bids = merge_levels(inc_bids, purged_bids, Side::Bid);
        self.asks = merge_levels(inc_asks, purged_asks, Side::Ask);
        Some(self.summary())
    }
}

} // verus!
