//! The table of pins, which is also the queue of what is still to be sent.
//!
//! Rows keep the order of their ids, no two rows share an author and a link,
//! and a new row takes the id after the last one.
use vstd::prelude::*;
use crate::pin::{
    opt_chars, split_commas, split_tags, stored_tags, strings_chars, tags_for_storage, Pin, PinView,
};

verus! {

/// One row of the table.
pub struct StoredPin {
    pub id: u64,
    pub title: String,
    pub author: String,
    pub link: String,
    pub description: Option<String>,
    /// The hashtags, joined by `", "`.
    pub tags: String,
    pub sent: bool,
}

/// What a row holds, as sequences of characters.
pub struct RowView {
    pub id: int,
    pub title: Seq<char>,
    pub author: Seq<char>,
    pub link: Seq<char>,
    pub description: Option<Seq<char>>,
    pub tags: Seq<char>,
    pub sent: bool,
}

impl View for StoredPin {
    type V = RowView;

    open spec fn view(&self) -> RowView {
        RowView {
            id: self.id as int,
            title: self.title@,
            author: self.author@,
            link: self.link@,
            description: opt_chars(self.description),
            tags: self.tags@,
            sent: self.sent,
        }
    }
}

pub open spec fn rows_view(rows: Seq<StoredPin>) -> Seq<RowView> {
    rows.map_values(|r: StoredPin| r@)
}

/// Ids rise strictly with the position, and no two rows share an author
/// and a link.
pub open spec fn rows_wf(rows: Seq<RowView>) -> bool {
    &&& forall|i: int, j: int| 0 <= i < j < rows.len() ==> rows[i].id < rows[j].id
    &&& forall|i: int, j: int|
        0 <= i < rows.len() && 0 <= j < rows.len() && i != j ==> !same_key(rows[i], rows[j])
}

pub open spec fn same_key(r: RowView, s: RowView) -> bool {
    r.author == s.author && r.link == s.link
}

pub open spec fn has_key(rows: Seq<RowView>, author: Seq<char>, link: Seq<char>) -> bool {
    exists|i: int| 0 <= i < rows.len() && rows[i].author == author && rows[i].link == link
}

/// The id that the next inserted row takes.
pub open spec fn next_id(rows: Seq<RowView>) -> int {
    if rows.len() == 0 {
        1
    } else {
        rows.last().id + 1
    }
}

/// The row stored for a pin that has not been seen before.
pub open spec fn new_row(id: int, p: PinView) -> RowView {
    RowView {
        id,
        title: p.title,
        author: p.author,
        link: p.url,
        description: p.note,
        tags: stored_tags(p.tags),
        sent: false,
    }
}

/// Inserts `p` unless a row with its author and link is there already.
pub open spec fn insert_one(rows: Seq<RowView>, p: PinView) -> Seq<RowView> {
    if has_key(rows, p.author, p.url) {
        rows
    } else {
        rows.push(new_row(next_id(rows), p))
    }
}

/// Inserts the items one after the other, in order.
pub open spec fn insert_all(rows: Seq<RowView>, items: Seq<PinView>) -> Seq<RowView>
    decreases items.len(),
{
    if items.len() == 0 {
        rows
    } else {
        insert_one(insert_all(rows, items.drop_last()), items.last())
    }
}

pub open spec fn pins_view(s: Seq<Pin>) -> Seq<PinView> {
    s.map_values(|p: Pin| p@)
}

/// The pin that a row gives back: the tags column split at its commas.
pub open spec fn pin_of_row(r: RowView) -> PinView {
    PinView {
        url: r.link,
        title: r.title,
        note: r.description,
        author: r.author,
        tags: split_commas(r.tags),
    }
}

/// Row `k` is the unsent row with the lowest id.
pub open spec fn is_oldest_unsent(rows: Seq<RowView>, k: int) -> bool {
    &&& 0 <= k < rows.len()
    &&& !rows[k].sent
    &&& forall|j: int| 0 <= j < k ==> rows[j].sent
}

pub open spec fn all_sent(rows: Seq<RowView>) -> bool {
    forall|i: int| 0 <= i < rows.len() ==> rows[i].sent
}

pub open spec fn has_id(rows: Seq<RowView>, id: int) -> bool {
    exists|i: int| 0 <= i < rows.len() && rows[i].id == id
}

/// The rows with the row of id `id`, if any, marked as sent.
pub open spec fn mark_sent_rows(rows: Seq<RowView>, id: int) -> Seq<RowView> {
    Seq::new(
        rows.len(),
        |i: int|
            if rows[i].id == id {
                RowView { sent: true, ..rows[i] }
            } else {
                rows[i]
            },
    )
}

pub proof fn lemma_insert_one_wf(rows: Seq<RowView>, p: PinView)
    requires
        rows_wf(rows),
    ensures
        rows_wf(insert_one(rows, p)),
        next_id(insert_one(rows, p)) <= next_id(rows) + 1,
        has_key(insert_one(rows, p), p.author, p.url),
        rows.is_prefix_of(insert_one(rows, p)),
{
    let r = insert_one(rows, p);
    if !has_key(rows, p.author, p.url) {
        assert(r.last().author == p.author && r.last().link == p.url);
        assert forall|i: int, j: int| 0 <= i < j < r.len() implies r[i].id < r[j].id by {
            if j == rows.len() {
                if i < rows.len() - 1 {
                    assert(rows[i].id < rows.last().id);
                }
            }
        }
    }
    assert(rows.is_prefix_of(r));
}

pub proof fn lemma_mark_sent_wf(rows: Seq<RowView>, id: int)
    requires
        rows_wf(rows),
    ensures
        rows_wf(mark_sent_rows(rows, id)),
{
    let m = mark_sent_rows(rows, id);
    assert forall|i: int| 0 <= i < rows.len() implies m[i].id == rows[i].id && same_key(
        m[i],
        rows[i],
    ) by {}
    assert forall|i: int, j: int| 0 <= i < j < m.len() implies m[i].id < m[j].id by {
        assert(rows[i].id < rows[j].id);
    }
    assert forall|i: int, j: int|
        0 <= i < m.len() && 0 <= j < m.len() && i != j implies !same_key(m[i], m[j]) by {
        assert(!same_key(rows[i], rows[j]));
    }
}

/// After an insert of items into well-formed rows, the rows are still
/// well-formed, the old rows come first, and every item's author and link
/// has a row.
pub proof fn lemma_insert_all_wf(rows: Seq<RowView>, items: Seq<PinView>)
    requires
        rows_wf(rows),
    ensures
        rows_wf(insert_all(rows, items)),
        rows.is_prefix_of(insert_all(rows, items)),
        forall|i: int|
            0 <= i < items.len() ==> has_key(insert_all(rows, items), #[trigger] items[i].author, items[i].url),
    decreases items.len(),
{
    if items.len() > 0 {
        let pre = items.drop_last();
        let mid = insert_all(rows, pre);
        lemma_insert_all_wf(rows, pre);
        lemma_insert_one_wf(mid, items.last());
        let after = insert_one(mid, items.last());
        assert forall|i: int| 0 <= i < items.len() implies has_key(after, #[trigger] items[i].author, items[i].url) by {
            if i < items.len() - 1 {
                assert(items[i] == pre[i]);
                assert(has_key(mid, pre[i].author, pre[i].url));
                let k = choose|k: int| 0 <= k < mid.len() && mid[k].author == pre[i].author && mid[k].link == pre[i].url;
                assert(after[k] == mid[k]);
            }
        }
    }
}

/// Inserting items whose authors and links all have rows changes nothing.
pub proof fn lemma_insert_all_known(rows: Seq<RowView>, items: Seq<PinView>)
    requires
        forall|i: int| 0 <= i < items.len() ==> has_key(rows, #[trigger] items[i].author, items[i].url),
    ensures
        insert_all(rows, items) == rows,
    decreases items.len(),
{
    if items.len() > 0 {
        let pre = items.drop_last();
        assert forall|i: int| 0 <= i < pre.len() implies has_key(rows, #[trigger] pre[i].author, pre[i].url) by {
            assert(pre[i] == items[i]);
        }
        lemma_insert_all_known(rows, pre);
        assert(has_key(rows, items[items.len() - 1].author, items[items.len() - 1].url));
    }
}

/// No item's author and link has a row, and no two items share them.
pub open spec fn fresh_keys(rows: Seq<RowView>, items: Seq<PinView>) -> bool {
    &&& forall|i: int| 0 <= i < items.len() ==> !has_key(rows, #[trigger] items[i].author, items[i].url)
    &&& forall|i: int, j: int|
        0 <= i < items.len() && 0 <= j < items.len() && i != j ==> !(items[i].author
            == items[j].author && items[i].url == items[j].url)
}

/// Items with fresh authors and links become new rows, in order, with the
/// ids that follow the last one.
pub proof fn lemma_insert_all_fresh(rows: Seq<RowView>, items: Seq<PinView>)
    requires
        fresh_keys(rows, items),
    ensures
        insert_all(rows, items) == rows + Seq::new(
            items.len(),
            |i: int| new_row(next_id(rows) + i, items[i]),
        ),
    decreases items.len(),
{
    if items.len() > 0 {
        let n = items.len();
        let pre = items.drop_last();
        assert forall|i: int| 0 <= i < pre.len() implies !has_key(rows, #[trigger] pre[i].author, pre[i].url) by {
            assert(pre[i] == items[i]);
        }
        assert forall|i: int, j: int|
            0 <= i < pre.len() && 0 <= j < pre.len() && i != j implies !(pre[i].author
                == pre[j].author && pre[i].url == pre[j].url) by {
            assert(pre[i] == items[i] && pre[j] == items[j]);
        }
        lemma_insert_all_fresh(rows, pre);
        let mid = insert_all(rows, pre);
        let last = items[n - 1];
        assert(!has_key(mid, last.author, last.url)) by {
            if has_key(mid, last.author, last.url) {
                let k = choose|k: int| 0 <= k < mid.len() && mid[k].author == last.author && mid[k].link == last.url;
                if k < rows.len() {
                    assert(mid[k] == rows[k]);
                    assert(has_key(rows, items[n - 1].author, items[n - 1].url));
                } else {
                    assert(mid[k] == new_row(next_id(rows) + (k - rows.len()), pre[k - rows.len()]));
                    assert(pre[k - rows.len()] == items[k - rows.len()]);
                }
            }
        }
        if n > 1 {
            assert(mid.last() == new_row(next_id(rows) + (n - 2), pre[n - 2]));
        }
        assert(next_id(mid) == next_id(rows) + (n - 1));
        assert(insert_all(rows, items) =~= rows + Seq::new(
            items.len(),
            |i: int| new_row(next_id(rows) + i, items[i]),
        ));
    }
}

/// Errors of the table's operations.
#[derive(PartialEq, Eq, Structural, Debug, Clone, Copy)]
pub enum StoreError {
    /// No row has the id that was asked for.
    NotFound,
}

/// The table of pins. Its rows are those of the durable table, in id order.
pub struct PinStore {
    rows: Vec<StoredPin>,
}

impl View for PinStore {
    type V = Seq<RowView>;

    closed spec fn view(&self) -> Seq<RowView> {
        rows_view(self.rows@)
    }
}

impl PinStore {
    pub open spec fn wf(&self) -> bool {
        rows_wf(self@)
    }

    /// An empty table.
    pub fn new() -> (r: PinStore)
        ensures
            r@ == Seq::<RowView>::empty(),
            r.wf(),
    {
        let r = PinStore { rows: Vec::new() };
        proof {
            assert(r@ =~= Seq::<RowView>::empty());
        }
        r
    }

    /// The rows, in id order.
    pub fn rows(&self) -> (r: &Vec<StoredPin>)
        ensures
            rows_view(r@) == self@,
    {
        &self.rows
    }

    /// Whether some row has this author and link.
    pub fn contains_key(&self, author: &String, link: &String) -> (r: bool)
        ensures
            r == has_key(self@, author@, link@),
    {
        let mut i: usize = 0;
        while i < self.rows.len()
            invariant
                i <= self.rows.len(),
                forall|j: int|
                    0 <= j < i ==> !(self@[j].author == author@ && self@[j].link == link@),
            decreases self.rows.len() - i,
        {
            if self.rows[i].author == *author && self.rows[i].link == *link {
                proof {
                    assert(self@[i as int].author == author@);
                }
                return true;
            }
            i += 1;
        }
        false
    }

    /// The id that the next inserted row takes.
    pub fn next_row_id(&self) -> (r: u64)
        requires
            next_id(self@) <= u64::MAX,
        ensures
            r == next_id(self@),
    {
        if self.rows.len() == 0 {
            1
        } else {
            self.rows[self.rows.len() - 1].id + 1
        }
    }

    /// Whether ids are left for `n` more rows.
    pub fn has_room_for(&self, n: usize) -> (r: bool)
        ensures
            r == (next_id(self@) + n <= u64::MAX),
    {
        if self.rows.len() == 0 {
            (n as u64) < u64::MAX
        } else {
            let last = self.rows[self.rows.len() - 1].id;
            last < u64::MAX && (n as u64) <= u64::MAX - last - 1
        }
    }

    /// Inserts the pins in order, each unless a row with its author and link
    /// is there already (that row is kept as it is). Returns how many rows
    /// were added.
    pub fn insert_batch(&mut self, items: &Vec<Pin>) -> (r: usize)
        requires
            old(self).wf(),
            next_id(old(self)@) + items@.len() <= u64::MAX,
        ensures
            final(self).wf(),
            final(self)@ == insert_all(old(self)@, pins_view(items@)),
            r == final(self)@.len() - old(self)@.len(),
    {
        let ghost start = self@;
        let ghost iv = pins_view(items@);
        let mut added: usize = 0;
        let mut i: usize = 0;
        while i < items.len()
            invariant
                i <= items.len(),
                iv == pins_view(items@),
                self.wf(),
                self@ == insert_all(start, iv.take(i as int)),
                next_id(self@) <= next_id(start) + i,
                next_id(start) + items@.len() <= u64::MAX,
                start.is_prefix_of(self@),
                added == self@.len() - start.len(),
                added <= i,
            decreases items.len() - i,
        {
            let p = &items[i];
            proof {
                assert(iv.take(i + 1).drop_last() =~= iv.take(i as int));
                assert(iv.take(i + 1).last() == p@);
                lemma_insert_one_wf(self@, p@);
            }
            if !self.contains_key(&p.a, &p.u) {
                let id = self.next_row_id();
                let row = StoredPin {
                    id,
                    title: p.d.clone(),
                    author: p.a.clone(),
                    link: p.u.clone(),
                    description: copy_opt(&p.n),
                    tags: tags_for_storage(&p.t),
                    sent: false,
                };
                let ghost before = self.rows@;
                self.rows.push(row);
                added += 1;
                proof {
                    assert(rows_view(self.rows@) =~= rows_view(before).push(row@));
                    assert(row@ == new_row(next_id(rows_view(before)), p@));
                }
            }
            i += 1;
        }
        proof {
            assert(iv.take(i as int) =~= iv);
        }
        added
    }

    /// The unsent row with the lowest id, as its id and its pin; `None` when
    /// every row is sent.
    pub fn next_unsent(&self) -> (r: Option<(u64, Pin)>)
        ensures
            r is None <==> all_sent(self@),
            match r {
                Some((id, p)) => exists|k: int|
                    is_oldest_unsent(self@, k) && self@[k].id == id && p@ == pin_of_row(self@[k]),
                None => true,
            },
    {
        let mut i: usize = 0;
        while i < self.rows.len()
            invariant
                i <= self.rows.len(),
                forall|j: int| 0 <= j < i ==> self@[j].sent,
            decreases self.rows.len() - i,
        {
            let row = &self.rows[i];
            if !row.sent {
                let p = Pin {
                    u: row.link.clone(),
                    d: row.title.clone(),
                    n: copy_opt(&row.description),
                    a: row.author.clone(),
                    t: split_tags(row.tags.as_str()),
                };
                proof {
                    assert(self@[i as int] == row@);
                    assert(p@ == pin_of_row(self@[i as int]));
                    assert(is_oldest_unsent(self@, i as int));
                }
                return Some((row.id, p));
            }
            i += 1;
        }
        None
    }

    /// Marks the row of id `id` as sent (again, if it was). Fails with
    /// `NotFound`, changing nothing, when no row has that id.
    pub fn mark_sent(&mut self, id: u64) -> (r: Result<(), StoreError>)
        requires
            old(self).wf(),
        ensures
            final(self).wf(),
            has_id(old(self)@, id as int) ==> r is Ok && final(self)@ == mark_sent_rows(
                old(self)@,
                id as int,
            ),
            !has_id(old(self)@, id as int) ==> r == Err::<(), StoreError>(StoreError::NotFound)
                && final(self)@ == old(self)@,
    {
        let ghost start = self@;
        let mut i: usize = 0;
        while i < self.rows.len() && self.rows[i].id != id
            invariant
                i <= self.rows.len(),
                self@ == start,
                forall|j: int| 0 <= j < i ==> self@[j].id != id,
            decreases self.rows.len() - i,
        {
            i += 1;
        }
        if i == self.rows.len() {
            proof {
                assert(!has_id(start, id as int));
            }
            return Err(StoreError::NotFound);
        }
        self.rows[i].sent = true;
        proof {
            lemma_mark_sent_wf(start, id as int);
            assert forall|j: int| 0 <= j < start.len() && j != i implies start[j].id != id by {
                if j < i {
                    assert(start[j].id < start[i as int].id);
                } else {
                    assert(start[i as int].id < start[j].id);
                }
            }
            assert(self@ =~= mark_sent_rows(start, id as int));
            assert(has_id(start, id as int));
        }
        Ok(())
    }

    /// A table over the given rows, in the order given; `None` when their
    /// ids do not rise strictly or two of them share an author and a link.
    pub fn from_rows(rows: Vec<StoredPin>) -> (r: Option<PinStore>)
        ensures
            r is Some <==> rows_wf(rows_view(rows@)),
            match r {
                Some(s) => s@ == rows_view(rows@),
                None => true,
            },
    {
        let ghost rv = rows_view(rows@);
        let mut i: usize = 0;
        while i < rows.len()
            invariant
                i <= rows.len(),
                rv == rows_view(rows@),
                forall|a: int, b: int| 0 <= a < b < i ==> rv[a].id < rv[b].id,
                forall|a: int, b: int|
                    0 <= a < i && 0 <= b < i && a != b ==> !same_key(rv[a], rv[b]),
            decreases rows.len() - i,
        {
            if i > 0 && rows[i - 1].id >= rows[i].id {
                proof {
                    assert(rv[i - 1].id >= rv[i as int].id);
                    assert(!rows_wf(rv));
                }
                return None;
            }
            let mut j: usize = 0;
            while j < i
                invariant
                    j <= i < rows.len(),
                    rv == rows_view(rows@),
                    forall|b: int| 0 <= b < j ==> !same_key(rv[b], rv[i as int]),
                decreases i - j,
            {
                if rows[j].author == rows[i].author && rows[j].link == rows[i].link {
                    proof {
                        assert(same_key(rv[j as int], rv[i as int]));
                        assert(!rows_wf(rv));
                    }
                    return None;
                }
                j += 1;
            }
            proof {
                assert forall|a: int, b: int| 0 <= a < b < i + 1 implies rv[a].id < rv[b].id by {
                    if b == i && a < i - 1 {
                        assert(rv[a].id < rv[i - 1].id);
                    }
                }
            }
            i += 1;
        }
        Some(PinStore { rows })
    }
}

/// A copy of an optional text.
pub fn copy_opt(o: &Option<String>) -> (r: Option<String>)
    ensures
        opt_chars(r) == opt_chars(*o),
{
    match o {
        Some(s) => Some(s.clone()),
        None => None,
    }
}

} // verus!
