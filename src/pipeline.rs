//! The decisions of the two scheduled operations.
//!
//! Pull takes a fetched feed, which lists the newest pin first, and inserts
//! it oldest first. Push is split around the delivery, which happens outside:
//! `begin_push` says what to send, `finish_push` takes the outcome.
use vstd::prelude::*;
use crate::pin::{format_message, message_text, trimmed, Pin, PinView};
use crate::store::{
    all_sent, fresh_keys, has_id, has_key, insert_all, is_oldest_unsent, lemma_insert_all_fresh,
    lemma_insert_all_known, lemma_insert_all_wf, mark_sent_rows, new_row, next_id, pin_of_row,
    pins_view, rows_wf, same_key, PinStore, RowView, StoreError,
};

verus! {

/// `s` in the opposite order.
pub open spec fn reversed<A>(s: Seq<A>) -> Seq<A> {
    Seq::new(s.len(), |i: int| s[s.len() - 1 - i])
}

/// The rows after a pull of `feed`, which lists the newest pin first.
pub open spec fn pull_rows(rows: Seq<RowView>, feed: Seq<PinView>) -> Seq<RowView> {
    insert_all(rows, reversed(feed))
}

/// The pins of a fetched feed in the order in which they are inserted: the
/// feed lists the newest first, so the oldest comes first here.
pub fn ingest_order(pins: Vec<Pin>) -> (r: Vec<Pin>)
    ensures
        r@ == reversed(pins@),
{
    let ghost orig = pins@;
    let mut pins = pins;
    let mut r: Vec<Pin> = Vec::new();
    while pins.len() > 0
        invariant
            pins@ == orig.take(orig.len() - r@.len()),
            r@.len() <= orig.len(),
            forall|i: int| 0 <= i < r@.len() ==> r@[i] == orig[orig.len() - 1 - i],
        decreases pins.len(),
    {
        let ghost before = pins@;
        let p = pins.pop().unwrap();
        proof {
            assert(p == orig[orig.len() - 1 - r@.len()]);
            assert(pins@ =~= orig.take(orig.len() - r@.len() - 1));
        }
        r.push(p);
    }
    proof {
        assert(r@ =~= reversed(orig));
    }
    r
}

/// Pull: inserts a fetched feed (newest first) oldest first, keeping the
/// rows already there. Returns how many rows were added.
pub fn run_pull(store: &mut PinStore, feed: Vec<Pin>) -> (r: usize)
    requires
        old(store).wf(),
        next_id(old(store)@) + feed@.len() <= u64::MAX,
    ensures
        final(store).wf(),
        final(store)@ == pull_rows(old(store)@, pins_view(feed@)),
        r == final(store)@.len() - old(store)@.len(),
{
    let ghost fv = pins_view(feed@);
    let items = ingest_order(feed);
    proof {
        assert(pins_view(items@) =~= reversed(fv));
    }
    store.insert_batch(&items)
}

/// What a push does next.
pub enum PushAction {
    /// Every row is sent: nothing to deliver.
    Idle,
    /// Deliver `text`, the message for the row of id `id`.
    Deliver { id: u64, text: String },
}

/// Why a push failed.
#[derive(PartialEq, Eq, Structural, Debug, Clone, Copy)]
pub enum PushError {
    /// The message could not be delivered; the row stays unsent.
    Delivery,
    /// No row has the id that was delivered.
    NotFound,
}

/// The first half of a push: the message for the unsent row with the lowest
/// id, or `Idle` when every row is sent.
pub fn begin_push(store: &PinStore) -> (r: PushAction)
    ensures
        r is Idle <==> all_sent(store@),
        match r {
            PushAction::Deliver { id, text } => exists|k: int|
                is_oldest_unsent(store@, k) && store@[k].id == id && text@ == trimmed(
                    message_text(pin_of_row(store@[k])),
                ),
            PushAction::Idle => true,
        },
{
    match store.next_unsent() {
        None => PushAction::Idle,
        Some((id, pin)) => PushAction::Deliver { id, text: format_message(&pin) },
    }
}

/// The second half of a push: marks the row as sent when the delivery
/// succeeded, and otherwise leaves the table as it was.
pub fn finish_push(store: &mut PinStore, id: u64, delivered: bool) -> (r: Result<(), PushError>)
    requires
        old(store).wf(),
    ensures
        final(store).wf(),
        !delivered ==> r == Err::<(), PushError>(PushError::Delivery) && final(store)@ == old(
            store,
        )@,
        delivered && has_id(old(store)@, id as int) ==> r is Ok && final(store)@
            == mark_sent_rows(old(store)@, id as int),
        delivered && !has_id(old(store)@, id as int) ==> r == Err::<(), PushError>(
            PushError::NotFound,
        ) && final(store)@ == old(store)@,
{
    if !delivered {
        return Err(PushError::Delivery);
    }
    match store.mark_sent(id) {
        Ok(()) => Ok(()),
        Err(StoreError::NotFound) => Err(PushError::NotFound),
    }
}

/// Pulling the same feed twice leaves the rows of the first pull: a pin
/// whose author and link are stored already is not inserted again.
pub proof fn lemma_pull_twice(rows: Seq<RowView>, feed: Seq<PinView>)
    requires
        rows_wf(rows),
    ensures
        pull_rows(pull_rows(rows, feed), feed) == pull_rows(rows, feed),
{
    lemma_insert_all_wf(rows, reversed(feed));
    lemma_insert_all_known(pull_rows(rows, feed), reversed(feed));
}

/// A pin that two pulls both hold has exactly one row after them, and the
/// row that the first pull left is kept.
pub proof fn lemma_one_row_per_key(
    rows: Seq<RowView>,
    first: Seq<PinView>,
    second: Seq<PinView>,
    i: int,
    j: int,
)
    requires
        rows_wf(rows),
        0 <= i < first.len(),
        0 <= j < second.len(),
        first[i].author == second[j].author,
        first[i].url == second[j].url,
    ensures
        ({
            let mid = pull_rows(rows, first);
            let after = pull_rows(mid, second);
            let (a, u) = (first[i].author, first[i].url);
            &&& mid.is_prefix_of(after)
            &&& exists|k: int|
                0 <= k < mid.len() && mid[k].author == a && mid[k].link == u && forall|m: int|
                    0 <= m < after.len() && after[m].author == a && after[m].link == u ==> m == k
        }),
{
    let mid = pull_rows(rows, first);
    let after = pull_rows(mid, second);
    let (a, u) = (first[i].author, first[i].url);
    let items = reversed(first);
    lemma_insert_all_wf(rows, items);
    assert(items[first.len() - 1 - i] == first[i]);
    assert(exists|x: int| 0 <= x < mid.len() && mid[x].author == a && mid[x].link == u);
    let k = choose|k: int| 0 <= k < mid.len() && mid[k].author == a && mid[k].link == u;
    lemma_insert_all_wf(mid, reversed(second));
    assert(after[k] == mid[k]);
    assert forall|m: int|
        0 <= m < after.len() && after[m].author == a && after[m].link == u implies m == k by {
        if m != k {
            assert(!same_key(after[m], after[k]));
        }
    }
}

/// Pushes deliver in id order and skip nothing: once the oldest unsent row
/// is marked sent, every row up to it is sent, the others are unchanged, and
/// the next push takes a later row with a higher id.
pub proof fn lemma_push_in_id_order(rows: Seq<RowView>, k: int)
    requires
        rows_wf(rows),
        is_oldest_unsent(rows, k),
    ensures
        ({
            let after = mark_sent_rows(rows, rows[k].id);
            &&& after.len() == rows.len()
            &&& after[k] == (RowView { sent: true, ..rows[k] })
            &&& forall|j: int| 0 <= j < rows.len() && j != k ==> after[j] == rows[j]
            &&& forall|j: int| 0 <= j <= k ==> after[j].sent
            &&& forall|n: int| is_oldest_unsent(after, n) ==> k < n && rows[k].id < after[n].id
        }),
{
    let after = mark_sent_rows(rows, rows[k].id);
    assert forall|j: int| 0 <= j < rows.len() && j != k implies after[j] == rows[j] by {
        if j < k {
            assert(rows[j].id < rows[k].id);
        } else {
            assert(rows[k].id < rows[j].id);
        }
    }
    assert forall|n: int| is_oldest_unsent(after, n) implies k < n && rows[k].id < after[n].id by {
        if n <= k {
            assert(after[n].sent);
        }
        assert(rows[k].id < rows[n].id);
    }
}

/// The oldest unsent row is unique, so a push retried after a failed
/// delivery, which leaves the rows as they were, takes the same row.
pub proof fn lemma_retry_takes_same_row(rows: Seq<RowView>, a: int, b: int)
    requires
        is_oldest_unsent(rows, a),
        is_oldest_unsent(rows, b),
    ensures
        a == b,
{
    if a < b {
        assert(rows[a].sent);
    } else if b < a {
        assert(rows[b].sent);
    }
}

/// A pull of new pins, listed newest first, stores them in the opposite
/// order: the last pin of the feed, the oldest, takes the lowest new id.
pub proof fn lemma_pull_oldest_first(rows: Seq<RowView>, feed: Seq<PinView>)
    requires
        rows_wf(rows),
        fresh_keys(rows, feed),
    ensures
        ({
            let after = pull_rows(rows, feed);
            &&& after.len() == rows.len() + feed.len()
            &&& rows.is_prefix_of(after)
            &&& forall|i: int|
                0 <= i < feed.len() ==> after[rows.len() + feed.len() - 1 - i] == new_row(
                    next_id(rows) + feed.len() - 1 - i,
                    #[trigger] feed[i],
                )
        }),
{
    let items = reversed(feed);
    let n = feed.len();
    assert forall|i: int| 0 <= i < n implies items[n - 1 - i] == #[trigger] feed[i] by {}
    assert forall|i: int| 0 <= i < items.len() implies !has_key(rows, #[trigger] items[i].author, items[i].url) by {
        assert(items[i] == feed[n - 1 - i]);
    }
    assert forall|i: int, j: int|
        0 <= i < items.len() && 0 <= j < items.len() && i != j implies !(items[i].author
            == items[j].author && items[i].url == items[j].url) by {
        assert(items[i] == feed[n - 1 - i] && items[j] == feed[n - 1 - j]);
    }
    lemma_insert_all_fresh(rows, items);
    let after = pull_rows(rows, feed);
    assert(rows.is_prefix_of(after));
    assert forall|i: int| 0 <= i < n implies after[rows.len() + n - 1 - i] == new_row(
        next_id(rows) + n - 1 - i,
        #[trigger] feed[i],
    ) by {
        assert(items[n - 1 - i] == feed[i]);
    }
}

} // verus!
