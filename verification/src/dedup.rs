//! Merging the pages of one work unit when the paging cursor is a timestamp
//! that several records may share.

use crate::record::Record;
use crate::retry::FetchError;
use vstd::prelude::*;

verus! {

/// A timestamp is not before the start of a page; the first page has no
/// start.
pub open spec fn from_start(start: Option<i64>, ts: i64) -> bool {
    match start {
        Some(c) => ts >= c,
        None => true,
    }
}

/// The test that keeps the records of a page that are new: those that do
/// not lie before the start that was asked for and whose identifier is not
/// in `boundary`.
pub open spec fn fresh<P>(cursor: Option<i64>, boundary: Seq<u64>) -> spec_fn(Record<P>) -> bool {
    |r: Record<P>| from_start(cursor, r.ts) && !boundary.contains(r.id)
}

/// The test that keeps the records stamped `ts` or later.
pub open spec fn since<P>(ts: i64) -> spec_fn(Record<P>) -> bool {
    |r: Record<P>| r.ts >= ts
}

/// The identifiers of a run of records, in order.
pub open spec fn ids_of<P>(s: Seq<Record<P>>) -> Seq<u64> {
    Seq::new(s.len(), |i: int| s[i].id)
}

/// A page ends the fetch when it holds fewer records than were asked for.
pub open spec fn is_last_page<P>(limit: int, page: Seq<Record<P>>) -> bool {
    page.len() < limit || page.len() == 0
}

/// Where the page after `page` is asked to start: the timestamp of the last
/// record of `page`, moved by `margin` and kept within the 64-bit range.
pub open spec fn next_cursor<P>(page: Seq<Record<P>>, margin: i64) -> i64 {
    let c = page.last().ts as int + margin as int;
    if c > i64::MAX {
        i64::MAX
    } else if c < i64::MIN {
        i64::MIN
    } else {
        c as i64
    }
}

/// What has been merged of one work unit, where the next page was asked to
/// start, and the identifiers of the merged records from that start on.
pub struct Merge<P> {
    pub merged: Seq<Record<P>>,
    pub boundary: Seq<u64>,
    pub cursor: Option<i64>,
}

/// Takes one page in.  Of its records those join the merged ones that do
/// not lie before the start that was asked for and whose identifier was not
/// seen from that start on.  After a full page the next start is the page's
/// last timestamp moved by `margin`, and the boundary becomes the
/// identifiers of all merged records from that start on.
pub open spec fn absorb_page<P>(
    state: Merge<P>,
    limit: int,
    margin: i64,
    page: Seq<Record<P>>,
) -> Merge<P> {
    let merged = state.merged + page.filter(fresh(state.cursor, state.boundary));
    if is_last_page(limit, page) {
        Merge { merged, boundary: state.boundary, cursor: state.cursor }
    } else {
        let cursor = next_cursor(page, margin);
        Merge { merged, boundary: ids_of(merged.filter(since(cursor))), cursor: Some(cursor) }
    }
}

/// What to do after a page has been taken in.
#[derive(Clone, Copy, Debug, PartialEq, Eq, Structural)]
pub enum PageStep {
    /// The page was full: ask for the page that starts at `cursor`.
    Next { cursor: i64 },
    /// The page was short: the unit is complete.
    Done,
}

/// Merges the pages of one work unit into a run of records that holds no
/// record twice.
#[derive(Clone, Debug, PartialEq, Eq)]
pub struct Paginator<P> {
    /// How many records each page is asked to hold.
    pub limit: usize,
    /// What is added to the last timestamp of a full page to get the start
    /// of the next: nothing, or a negative span for a start that overlaps.
    pub margin: i64,
    /// The records merged so far.
    pub merged: Vec<Record<P>>,
    /// The identifiers of the merged records from the cursor on.
    pub boundary: Vec<u64>,
    /// Where the next page was asked to start; nowhere before the first
    /// full page.
    pub cursor: Option<i64>,
    /// Whether a page has been taken in.
    pub started: bool,
    /// Whether a short page has been taken in.
    pub done: bool,
}

/// Whether `id` occurs in `ids`.
pub fn contains_id(ids: &Vec<u64>, id: u64) -> (r: bool)
    ensures
        r == ids@.contains(id),
{
    let mut i: usize = 0;
    while i < ids.len()
        invariant
            i <= ids@.len(),
            forall|j: int| 0 <= j < i ==> ids@[j] != id,
        decreases ids@.len() - i,
    {
        if ids[i] == id {
            return true;
        }
        i = i + 1;
    }
    false
}

impl<P> Paginator<P> {
    /// The merge as a value of the model.
    pub open spec fn state(self) -> Merge<P> {
        Merge { merged: self.merged@, boundary: self.boundary@, cursor: self.cursor }
    }

    /// A paginator that has seen no page.
    pub fn new(limit: usize, margin: i64) -> (r: Paginator<P>)
        ensures
            r.limit == limit,
            r.margin == margin,
            r.merged@ == Seq::<Record<P>>::empty(),
            r.boundary@ == Seq::<u64>::empty(),
            r.cursor is None,
            !r.started,
            !r.done,
    {
        Paginator {
            limit,
            margin,
            merged: Vec::new(),
            boundary: Vec::new(),
            cursor: None,
            started: false,
            done: false,
        }
    }

    /// Takes in the next page of the unit and says whether another page is
    /// to be fetched, and from where.
    pub fn absorb(&mut self, page: Vec<Record<P>>) -> (r: PageStep)
        ensures
            final(self).limit == old(self).limit,
            final(self).margin == old(self).margin,
            final(self).state() == absorb_page(
                old(self).state(),
                old(self).limit as int,
                old(self).margin,
                page@,
            ),
            final(self).started,
            final(self).done == is_last_page(old(self).limit as int, page@),
            r == if is_last_page(old(self).limit as int, page@) {
                PageStep::Done
            } else {
                PageStep::Next { cursor: next_cursor(page@, old(self).margin) }
            },
    {
        let count: usize = page.len();
        let last = count == 0 || count < self.limit;
        let mut edge: i64 = 0;
        if count > 0 {
            edge = page[count - 1].ts;
        }
        let ghost before = self.merged@;
        let ghost keep = fresh::<P>(self.cursor, self.boundary@);
        proof {
            reveal(Seq::filter);
            assert(page@.take(0) =~= Seq::<Record<P>>::empty());
            assert(before + page@.take(0).filter(keep) =~= before);
        }
        for record in it: page
            invariant
                self.limit == old(self).limit,
                self.margin == old(self).margin,
                self.boundary == old(self).boundary,
                self.cursor == old(self).cursor,
                before == old(self).merged@,
                keep == fresh::<P>(old(self).cursor, old(self).boundary@),
                it.seq() == page@,
                self.merged@ == before + page@.take(it.index() as int).filter(keep),
        {
            proof {
                let i = it.index() as int;
                assert(page@.take(i + 1) =~= page@.take(i).push(page@[i]));
                page@.take(i).lemma_filter_push(page@[i], keep);
                assert(before + page@.take(i).filter(keep).push(page@[i]) =~= (before + page@.take(
                    i,
                ).filter(keep)).push(page@[i]));
            }
            let asked: bool = match self.cursor {
                Some(start) => record.ts >= start,
                None => true,
            };
            if asked && !contains_id(&self.boundary, record.id) {
                self.merged.push(record);
            }
        }
        proof {
            assert(page@.take(page@.len() as int) =~= page@);
        }
        self.started = true;
        self.done = last;
        if last {
            return PageStep::Done;
        }
        let moved: i128 = edge as i128 + self.margin as i128;
        let cursor: i64 = if moved > i64::MAX as i128 {
            i64::MAX
        } else if moved < i64::MIN as i128 {
            i64::MIN
        } else {
            moved as i64
        };
        let mut ids: Vec<u64> = Vec::new();
        let ghost at = since::<P>(cursor);
        let mut i: usize = 0;
        proof {
            assert(self.merged@.take(0) =~= Seq::<Record<P>>::empty());
            assert(ids@ =~= ids_of(self.merged@.take(0).filter(at)));
        }
        while i < self.merged.len()
            invariant
                i <= self.merged@.len(),
                at == since::<P>(cursor),
                ids@ == ids_of(self.merged@.take(i as int).filter(at)),
            decreases self.merged@.len() - i,
        {
            proof {
                let k = i as int;
                let m = self.merged@;
                assert(m.take(k + 1) =~= m.take(k).push(m[k]));
                m.take(k).lemma_filter_push(m[k], at);
                if at(m[k]) {
                    assert(ids_of(m.take(k).filter(at).push(m[k])) =~= ids_of(
                        m.take(k).filter(at),
                    ).push(m[k].id));
                }
            }
            if self.merged[i].ts >= cursor {
                ids.push(self.merged[i].id);
            }
            i = i + 1;
        }
        proof {
            assert(self.merged@.take(self.merged@.len() as int) =~= self.merged@);
        }
        self.boundary = ids;
        self.cursor = Some(cursor);
        PageStep::Next { cursor }
    }

    /// Takes in what an attempt to fetch the next page brought.  A page is
    /// taken in as it is.  When the source says that it has no data, and a
    /// page has been taken in before, the unit is complete; any other
    /// failure, and no data on the first page, fails the attempt and leaves
    /// the merge as it is.
    pub fn absorb_outcome(&mut self, outcome: Result<Vec<Record<P>>, FetchError>) -> (r: Result<
        PageStep,
        FetchError,
    >)
        ensures
            final(self).limit == old(self).limit,
            final(self).margin == old(self).margin,
            match outcome {
                Ok(page) => {
                    &&& final(self).state() == absorb_page(
                        old(self).state(),
                        old(self).limit as int,
                        old(self).margin,
                        page@,
                    )
                    &&& final(self).started
                    &&& final(self).done == is_last_page(old(self).limit as int, page@)
                    &&& r == Ok::<PageStep, FetchError>(
                        if is_last_page(old(self).limit as int, page@) {
                            PageStep::Done
                        } else {
                            PageStep::Next { cursor: next_cursor(page@, old(self).margin) }
                        },
                    )
                },
                Err(error) => if error is NoData && old(self).started {
                    &&& final(self).merged == old(self).merged
                    &&& final(self).boundary == old(self).boundary
                    &&& final(self).cursor == old(self).cursor
                    &&& final(self).started
                    &&& final(self).done
                    &&& r == Ok::<PageStep, FetchError>(PageStep::Done)
                } else {
                    &&& *final(self) == *old(self)
                    &&& r == Err::<PageStep, FetchError>(error)
                },
            },
    {
        match outcome {
            Ok(page) => Ok(self.absorb(page)),
            Err(error) => {
                let ended = match error {
                    FetchError::NoData => self.started,
                    _ => false,
                };
                if ended {
                    self.done = true;
                    Ok(PageStep::Done)
                } else {
                    Err(error)
                }
            },
        }
    }

    /// Gives up the merged records.
    pub fn into_merged(self) -> (r: Vec<Record<P>>)
        ensures
            r@ == self.merged@,
    {
        self.merged
    }
}

/// No two records of the run carry the same identifier.
pub open spec fn distinct_ids<P>(s: Seq<Record<P>>) -> bool {
    forall|i: int, j: int| 0 <= i < j < s.len() ==> s[i].id != s[j].id
}

/// `page` is an answer of the source to a request for up to `limit` records
/// from `start` on: it holds records of the source from `start` on, none
/// twice; a short page holds all of them, a full page all that are earlier
/// than its last record.  Which of the records that share the last
/// timestamp a full page holds is left open.
pub open spec fn is_page<P>(
    source: Seq<Record<P>>,
    start: Option<i64>,
    limit: int,
    page: Seq<Record<P>>,
) -> bool {
    &&& distinct_ids(page)
    &&& page.len() <= limit
    &&& forall|i: int|
        0 <= i < page.len() ==> source.contains(#[trigger] page[i]) && from_start(
            start,
            page[i].ts,
        )
    &&& forall|r: Record<P>|
        #[trigger] source.contains(r) && from_start(start, r.ts) && (is_last_page(limit, page)
            || r.ts < page.last().ts) ==> page.contains(r)
}

/// A page that starts at `start` starts where it was asked to, at `cursor`,
/// or before it.
pub open spec fn at_or_before(start: Option<i64>, cursor: Option<i64>) -> bool {
    match (start, cursor) {
        (None, _) => true,
        (Some(s), Some(c)) => s <= c,
        (Some(_), None) => false,
    }
}

/// Where page `k` of a fetch is asked to start: at the last timestamp of
/// the page before it, moved by `margin`.
pub open spec fn asked_start<P>(pages: Seq<Seq<Record<P>>>, margin: i64, k: int) -> Option<i64> {
    if k <= 0 {
        None
    } else {
        Some(next_cursor(pages[k - 1], margin))
    }
}

/// `pages` is a complete paged fetch of `source` with a margin that skips
/// nothing: page `k` is the source's answer from `starts[k]` on, which is
/// where the page was asked to start or earlier, and only the last page is
/// short.
pub open spec fn paged_fetch<P>(
    source: Seq<Record<P>>,
    limit: int,
    margin: i64,
    starts: Seq<Option<i64>>,
    pages: Seq<Seq<Record<P>>>,
) -> bool {
    &&& limit > 0
    &&& margin <= 0
    &&& pages.len() > 0
    &&& starts.len() == pages.len()
    &&& forall|k: int|
        0 <= k < pages.len() ==> is_page(source, starts[k], limit, #[trigger] pages[k])
            && at_or_before(starts[k], asked_start(pages, margin, k))
    &&& forall|k: int| 0 <= k < pages.len() - 1 ==> !is_last_page(limit, #[trigger] pages[k])
    &&& is_last_page(limit, pages.last())
}

/// The merge after all of `pages` have been taken in, in order.
pub open spec fn merge_pages<P>(limit: int, margin: i64, pages: Seq<Seq<Record<P>>>) -> Merge<P>
    decreases pages.len(),
{
    if pages.len() == 0 {
        Merge { merged: Seq::empty(), boundary: Seq::empty(), cursor: None }
    } else {
        absorb_page(merge_pages(limit, margin, pages.drop_last()), limit, margin, pages.last())
    }
}

/// What holds of a merge between two pages: the merged records are records
/// of the source, none twice; every record of the source before the cursor
/// is merged; and the boundary holds just the identifiers of the merged
/// records from the cursor on.
pub open spec fn merge_inv<P>(source: Seq<Record<P>>, state: Merge<P>) -> bool {
    &&& distinct_ids(state.merged)
    &&& forall|r: Record<P>| #[trigger] state.merged.contains(r) ==> source.contains(r)
    &&& forall|r: Record<P>| #[trigger]
        source.contains(r) && state.cursor is Some && r.ts < state.cursor->0
            ==> state.merged.contains(r)
    &&& forall|r: Record<P>| #[trigger]
        state.merged.contains(r) && from_start(state.cursor, r.ts) ==> state.boundary.contains(
            r.id,
        )
    &&& forall|id: u64| #[trigger]
        state.boundary.contains(id) ==> exists|r: Record<P>| #[trigger]
            state.merged.contains(r) && r.id == id
}

/// A filtered run holds just the members of the run that pass the test.
proof fn lemma_filter_members<A>(s: Seq<A>, p: spec_fn(A) -> bool)
    ensures
        forall|r: A| #[trigger] s.filter(p).contains(r) <==> s.contains(r) && p(r),
    decreases s.len(),
{
    reveal(Seq::filter);
    if s.len() > 0 {
        let init = s.drop_last();
        let last = s.last();
        let f = init.filter(p);
        lemma_filter_members(init, p);
        assert(s =~= init.push(last));
        assert forall|r: A| #[trigger] s.filter(p).contains(r) <==> s.contains(r) && p(r) by {
            if s.contains(r) {
                let i = choose|i: int| 0 <= i < s.len() && s[i] == r;
                if i < init.len() {
                    assert(init[i] == r);
                }
            }
            if init.contains(r) {
                let i = choose|i: int| 0 <= i < init.len() && init[i] == r;
                assert(s[i] == r);
            }
            assert(s[s.len() - 1] == last);
            if p(last) {
                let g = f.push(last);
                if g.contains(r) {
                    let i = choose|i: int| 0 <= i < g.len() && g[i] == r;
                    if i < f.len() {
                        assert(f[i] == r);
                    }
                }
                if f.contains(r) {
                    let i = choose|i: int| 0 <= i < f.len() && f[i] == r;
                    assert(g[i] == r);
                }
                assert(g[f.len() as int] == last);
            }
        }
    }
}

/// Filtering keeps identifiers apart.
proof fn lemma_filter_distinct<P>(s: Seq<Record<P>>, p: spec_fn(Record<P>) -> bool)
    requires
        distinct_ids(s),
    ensures
        distinct_ids(s.filter(p)),
    decreases s.len(),
{
    reveal(Seq::filter);
    if s.len() > 0 {
        let init = s.drop_last();
        let last = s.last();
        let f = init.filter(p);
        lemma_filter_distinct(init, p);
        lemma_filter_members(init, p);
        if p(last) {
            let g = f.push(last);
            assert forall|i: int, j: int| 0 <= i < j < g.len() implies g[i].id != g[j].id by {
                if j == f.len() {
                    assert(f.contains(f[i]));
                    let k = choose|k: int| 0 <= k < init.len() && init[k] == f[i];
                    assert(s[k].id != s[s.len() - 1].id);
                }
            }
        }
    }
}

/// Two runs with identifiers apart, and apart from each other, join into a
/// run with identifiers apart.
proof fn lemma_concat_distinct<P>(a: Seq<Record<P>>, b: Seq<Record<P>>)
    requires
        distinct_ids(a),
        distinct_ids(b),
        forall|x: Record<P>, y: Record<P>|
            #[trigger] a.contains(x) && #[trigger] b.contains(y) ==> x.id != y.id,
    ensures
        distinct_ids(a + b),
{
    let c = a + b;
    assert forall|i: int, j: int| 0 <= i < j < c.len() implies c[i].id != c[j].id by {
        if i < a.len() && j >= a.len() {
            assert(a.contains(a[i]));
            assert(b.contains(b[j - a.len()]));
        }
    }
}

/// A joined run holds the members of both runs.
proof fn lemma_concat_members<A>(a: Seq<A>, b: Seq<A>)
    ensures
        forall|r: A| #[trigger] (a + b).contains(r) <==> a.contains(r) || b.contains(r),
{
    let c = a + b;
    assert forall|r: A| #[trigger] c.contains(r) <==> a.contains(r) || b.contains(r) by {
        if c.contains(r) {
            let i = choose|i: int| 0 <= i < c.len() && c[i] == r;
            if i < a.len() {
                assert(a[i] == r);
            } else {
                assert(b[i - a.len()] == r);
            }
        }
        if a.contains(r) {
            let i = choose|i: int| 0 <= i < a.len() && a[i] == r;
            assert(c[i] == r);
        }
        if b.contains(r) {
            let i = choose|i: int| 0 <= i < b.len() && b[i] == r;
            assert(c[a.len() + i] == r);
        }
    }
}

/// In a run with identifiers apart an identifier names one record.
proof fn lemma_same_id<P>(s: Seq<Record<P>>, x: Record<P>, y: Record<P>)
    requires
        distinct_ids(s),
        s.contains(x),
        s.contains(y),
        x.id == y.id,
    ensures
        x == y,
{
    let i = choose|i: int| 0 <= i < s.len() && s[i] == x;
    let j = choose|j: int| 0 <= j < s.len() && s[j] == y;
    if i < j {
        assert(s[i].id != s[j].id);
    } else if j < i {
        assert(s[j].id != s[i].id);
    }
}

/// The identifiers of a run are those of its members.
proof fn lemma_ids_members<P>(s: Seq<Record<P>>)
    ensures
        forall|r: Record<P>| #[trigger] s.contains(r) ==> ids_of(s).contains(r.id),
        forall|id: u64| #[trigger]
            ids_of(s).contains(id) ==> exists|r: Record<P>| #[trigger] s.contains(r) && r.id == id,
{
    let ids = ids_of(s);
    assert forall|r: Record<P>| #[trigger] s.contains(r) implies ids.contains(r.id) by {
        let i = choose|i: int| 0 <= i < s.len() && s[i] == r;
        assert(ids[i] == r.id);
    }
    assert forall|id: u64| #[trigger] ids.contains(id) implies exists|r: Record<P>| #[trigger]
        s.contains(r) && r.id == id by {
        let i = choose|i: int| 0 <= i < ids.len() && ids[i] == id;
        assert(s.contains(s[i]));
    }
}

/// What one page adds to a merge: after it the merged records are still
/// records of the source, none twice, and hold every record of the page
/// from the cursor on.
proof fn lemma_absorb_members<P>(
    source: Seq<Record<P>>,
    state: Merge<P>,
    start: Option<i64>,
    limit: int,
    margin: i64,
    page: Seq<Record<P>>,
)
    requires
        distinct_ids(source),
        merge_inv(source, state),
        is_page(source, start, limit, page),
    ensures
        distinct_ids(absorb_page(state, limit, margin, page).merged),
        forall|r: Record<P>| #[trigger]
            absorb_page(state, limit, margin, page).merged.contains(r) <==> state.merged.contains(r)
                || (page.contains(r) && from_start(state.cursor, r.ts)),
        forall|r: Record<P>| #[trigger]
            absorb_page(state, limit, margin, page).merged.contains(r) ==> source.contains(r),
{
    let keep = fresh::<P>(state.cursor, state.boundary);
    let new = page.filter(keep);
    let merged = state.merged + new;
    lemma_filter_members(page, keep);
    lemma_filter_distinct(page, keep);
    lemma_concat_members(state.merged, new);
    assert forall|x: Record<P>, y: Record<P>| #[trigger]
        state.merged.contains(x) && #[trigger] new.contains(y) implies x.id != y.id by {
        if x.id == y.id {
            let i = choose|i: int| 0 <= i < page.len() && page[i] == y;
            assert(source.contains(page[i]));
            lemma_same_id(source, x, y);
            assert(state.boundary.contains(x.id));
        }
    }
    lemma_concat_distinct(state.merged, new);
    assert forall|r: Record<P>| #[trigger]
        merged.contains(r) <==> state.merged.contains(r) || (page.contains(r) && from_start(
            state.cursor,
            r.ts,
        )) by {
        if page.contains(r) && from_start(state.cursor, r.ts) && !new.contains(r) {
            assert(state.boundary.contains(r.id));
            let m = choose|m: Record<P>| #[trigger] state.merged.contains(m) && m.id == r.id;
            let i = choose|i: int| 0 <= i < page.len() && page[i] == r;
            assert(source.contains(page[i]));
            lemma_same_id(source, m, r);
        }
    }
    assert forall|r: Record<P>| #[trigger] merged.contains(r) implies source.contains(r) by {
        if page.contains(r) {
            let i = choose|i: int| 0 <= i < page.len() && page[i] == r;
            assert(source.contains(page[i]));
        }
    }
}

/// A full page leaves the merge ready for the next page, as long as the
/// margin skips nothing and the page started where it was asked to or
/// earlier.
proof fn lemma_absorb_full<P>(
    source: Seq<Record<P>>,
    state: Merge<P>,
    start: Option<i64>,
    limit: int,
    margin: i64,
    page: Seq<Record<P>>,
)
    requires
        distinct_ids(source),
        margin <= 0,
        merge_inv(source, state),
        is_page(source, start, limit, page),
        at_or_before(start, state.cursor),
        !is_last_page(limit, page),
    ensures
        merge_inv(source, absorb_page(state, limit, margin, page)),
        absorb_page(state, limit, margin, page).cursor == Some(next_cursor(page, margin)),
{
    let after = absorb_page(state, limit, margin, page);
    let cursor = next_cursor(page, margin);
    lemma_absorb_members(source, state, start, limit, margin, page);
    assert(cursor <= page.last().ts);
    assert forall|r: Record<P>| #[trigger] source.contains(r) && r.ts < cursor implies
        after.merged.contains(r) by {
        if state.cursor is Some && r.ts < state.cursor->0 {
            assert(state.merged.contains(r));
        } else {
            assert(from_start(state.cursor, r.ts));
            assert(from_start(start, r.ts));
            assert(page.contains(r));
        }
    }
    let at = after.merged.filter(since(cursor));
    lemma_filter_members(after.merged, since(cursor));
    lemma_ids_members(at);
    assert forall|r: Record<P>| #[trigger] after.merged.contains(r) && from_start(
        after.cursor,
        r.ts,
    ) implies after.boundary.contains(r.id) by {
        assert(at.contains(r));
    }
    assert forall|id: u64| #[trigger] after.boundary.contains(id) implies exists|r: Record<P>|
        #[trigger] after.merged.contains(r) && r.id == id by {
        let r = choose|r: Record<P>| #[trigger] at.contains(r) && r.id == id;
        assert(after.merged.contains(r) && r.id == id);
    }
}

/// Before its last page a complete fetch has kept the merge in order.
proof fn lemma_merge_inv<P>(
    source: Seq<Record<P>>,
    limit: int,
    margin: i64,
    starts: Seq<Option<i64>>,
    pages: Seq<Seq<Record<P>>>,
    k: int,
)
    requires
        distinct_ids(source),
        paged_fetch(source, limit, margin, starts, pages),
        0 <= k < pages.len(),
    ensures
        merge_inv(source, merge_pages(limit, margin, pages.take(k))),
        merge_pages(limit, margin, pages.take(k)).cursor == asked_start(pages, margin, k),
    decreases k,
{
    if k == 0 {
        assert(pages.take(0) =~= Seq::<Seq<Record<P>>>::empty());
    } else {
        lemma_merge_inv(source, limit, margin, starts, pages, k - 1);
        assert(pages.take(k).drop_last() =~= pages.take(k - 1));
        assert(pages.take(k).last() == pages[k - 1]);
        assert(is_page(source, starts[k - 1], limit, pages[k - 1]));
        lemma_absorb_full(
            source,
            merge_pages(limit, margin, pages.take(k - 1)),
            starts[k - 1],
            limit,
            margin,
            pages[k - 1],
        );
    }
}

/// However the source cuts its records into pages, whichever of the
/// records that share a timestamp a full page happens to hold, and however
/// far before the last timestamp of a page the next one starts, the merge
/// of a complete fetch holds every record of the source exactly once.
pub proof fn lemma_merge_exactly_once<P>(
    source: Seq<Record<P>>,
    limit: int,
    margin: i64,
    starts: Seq<Option<i64>>,
    pages: Seq<Seq<Record<P>>>,
)
    requires
        distinct_ids(source),
        paged_fetch(source, limit, margin, starts, pages),
    ensures
        distinct_ids(merge_pages(limit, margin, pages).merged),
        forall|r: Record<P>|
            source.contains(r) <==> #[trigger] merge_pages(limit, margin, pages).merged.contains(r),
        merge_pages(limit, margin, pages).merged.len() == source.len(),
{
    let k = pages.len() - 1;
    let before = merge_pages(limit, margin, pages.take(k));
    let page = pages[k];
    let merged = merge_pages(limit, margin, pages).merged;
    lemma_merge_inv(source, limit, margin, starts, pages, k);
    assert(pages.drop_last() =~= pages.take(k));
    assert(is_page(source, starts[k], limit, page));
    assert(at_or_before(starts[k], before.cursor));
    lemma_absorb_members(source, before, starts[k], limit, margin, page);
    assert forall|r: Record<P>| source.contains(r) <==> #[trigger] merged.contains(r) by {
        if source.contains(r) {
            if before.cursor is Some && r.ts < before.cursor->0 {
                assert(before.merged.contains(r));
            } else {
                assert(from_start(before.cursor, r.ts));
                assert(from_start(starts[k], r.ts));
                assert(page.contains(r));
            }
        }
    }
    lemma_distinct_len(source, merged);
}

/// Two complete fetches of one source end in the same records, each once,
/// however differently the two were cut into pages.
pub proof fn lemma_split_independent<P>(
    source: Seq<Record<P>>,
    limit: int,
    margin: i64,
    starts_a: Seq<Option<i64>>,
    pages_a: Seq<Seq<Record<P>>>,
    starts_b: Seq<Option<i64>>,
    pages_b: Seq<Seq<Record<P>>>,
)
    requires
        distinct_ids(source),
        paged_fetch(source, limit, margin, starts_a, pages_a),
        paged_fetch(source, limit, margin, starts_b, pages_b),
    ensures
        forall|r: Record<P>|
            merge_pages(limit, margin, pages_a).merged.contains(r) <==> merge_pages(
                limit,
                margin,
                pages_b,
            ).merged.contains(r),
        merge_pages(limit, margin, pages_a).merged.len() == merge_pages(
            limit,
            margin,
            pages_b,
        ).merged.len(),
        distinct_ids(merge_pages(limit, margin, pages_a).merged),
        distinct_ids(merge_pages(limit, margin, pages_b).merged),
{
    lemma_merge_exactly_once(source, limit, margin, starts_a, pages_a);
    lemma_merge_exactly_once(source, limit, margin, starts_b, pages_b);
    let a = merge_pages(limit, margin, pages_a).merged;
    let b = merge_pages(limit, margin, pages_b).merged;
    assert forall|r: Record<P>| a.contains(r) <==> b.contains(r) by {
        assert(source.contains(r) <==> a.contains(r));
        assert(source.contains(r) <==> b.contains(r));
    }
}

/// Two runs with identifiers apart and the same members are equally long.
proof fn lemma_distinct_len<P>(a: Seq<Record<P>>, b: Seq<Record<P>>)
    requires
        distinct_ids(a),
        distinct_ids(b),
        forall|r: Record<P>| a.contains(r) <==> #[trigger] b.contains(r),
    ensures
        a.len() == b.len(),
{
    assert(a.no_duplicates());
    assert(b.no_duplicates());
    a.unique_seq_to_set();
    b.unique_seq_to_set();
    assert(a.to_set() =~= b.to_set()) by {
        assert forall|r: Record<P>| a.to_set().contains(r) <==> b.to_set().contains(r) by {
            assert(a.contains(r) <==> b.contains(r));
        }
    }
}

} // verus!
