//! Table scan: follow the table's page chain (refusing cycles), decode
//! batches of pages (with workers when parallel), and return rows in page
//! order.
use crate::execution::parallel::{clamp_parallelism, flatten, spec_clamp_parallelism};
use crate::execution::physical_plan::batch::reversed;
use crate::BustubxError;
use std::collections::HashSet;
use std::collections::VecDeque;
use vstd::prelude::*;

verus! {

broadcast use vstd::std_specs::hash::group_hash_axioms;

/// Identifier of a page.
pub type PageId = u32;

/// The page id that ends a page chain.
pub const INVALID_PAGE_ID: PageId = 0;

/// Most pages fetched before a batch is decoded.
pub const PAGES_PER_BATCH: usize = 16;

/// The rows decoded from one page: up to and including the first failure
/// (a page is not decoded past a corrupt slot).
pub open spec fn through_first_error<T>(rows: Seq<Result<T, BustubxError>>) -> Seq<
    Result<T, BustubxError>,
>
    decreases rows.len(),
{
    if rows.len() == 0 {
        Seq::empty()
    } else if rows[0] is Err {
        seq![rows[0]]
    } else {
        seq![rows[0]] + through_first_error(rows.drop_first())
    }
}

/// Progress of a scan.
pub struct ScanState<T> {
    /// The next page of the chain, or `INVALID_PAGE_ID` when the chain is done.
    pub next_page: PageId,
    /// Pages already fetched in this scan.
    pub visited: HashSet<PageId>,
    /// Decoded rows and errors not yet returned.
    pub pending: VecDeque<Result<T, BustubxError>>,
    /// Pages claimed for the batch being fetched.
    pub claimed: usize,
}

/// Abstract progress of a scan.
pub struct ScanView<T> {
    pub next_page: PageId,
    pub visited: Set<PageId>,
    pub pending: Seq<Result<T, BustubxError>>,
    pub claimed: usize,
}

impl<T> View for ScanState<T> {
    type V = ScanView<T>;

    open spec fn view(&self) -> ScanView<T> {
        ScanView {
            next_page: self.next_page,
            visited: self.visited@,
            pending: self.pending@,
            claimed: self.claimed,
        }
    }
}

/// Whether the next claim fetches the next page of the chain: the batch
/// has room, the chain goes on, and that page was not fetched before.
pub open spec fn claims_next<T>(s: ScanView<T>) -> bool {
    s.claimed < PAGES_PER_BATCH && s.next_page != INVALID_PAGE_ID && !s.visited.contains(s.next_page)
}

/// The scan after a claim: a fetched page counts as visited and claimed;
/// a page reached again ends the chain; otherwise nothing changes.
pub open spec fn after_claim<T>(s: ScanView<T>) -> ScanView<T> {
    if claims_next(s) {
        ScanView { visited: s.visited.insert(s.next_page), claimed: (s.claimed + 1) as usize, ..s }
    } else if s.claimed < PAGES_PER_BATCH && s.next_page != INVALID_PAGE_ID {
        ScanView { next_page: INVALID_PAGE_ID, ..s }
    } else {
        s
    }
}

/// Whether `r` is the claim made in state `s`: a full batch first, then
/// the end of the chain, then a page reached again (a storage error),
/// else the next page.
pub open spec fn claim_of<T>(s: ScanView<T>, r: PageClaim) -> bool {
    if s.claimed >= PAGES_PER_BATCH {
        r is BatchFull
    } else if s.next_page == INVALID_PAGE_ID {
        r is Done
    } else if s.visited.contains(s.next_page) {
        r matches PageClaim::Cycle(e) && e is Storage
    } else {
        r == PageClaim::Fetch(s.next_page)
    }
}

/// The pages of the chain from page `next` (page `p` links to `link(p)`)
/// that a scan which already fetched `visited` fetches with room for
/// `room` more: in chain order until the chain ends, reaches a page
/// fetched before, or the room is used up.
pub open spec fn chain_pages(
    link: spec_fn(PageId) -> PageId,
    next: PageId,
    visited: Set<PageId>,
    room: nat,
) -> Seq<PageId>
    decreases room,
{
    if room == 0 || next == INVALID_PAGE_ID || visited.contains(next) {
        Seq::empty()
    } else {
        seq![next] + chain_pages(link, link(next), visited.insert(next), (room - 1) as nat)
    }
}

/// Where such a walk leaves the chain: the next page (the end marker once
/// the chain ended or reached a page fetched before) and the pages fetched
/// so far.
pub open spec fn chain_rest(
    link: spec_fn(PageId) -> PageId,
    next: PageId,
    visited: Set<PageId>,
    room: nat,
) -> (PageId, Set<PageId>)
    decreases room,
{
    if room == 0 {
        (next, visited)
    } else if next == INVALID_PAGE_ID || visited.contains(next) {
        (INVALID_PAGE_ID, visited)
    } else {
        chain_rest(link, link(next), visited.insert(next), (room - 1) as nat)
    }
}

/// One batch of a scan: claims until one fetches nothing, each fetched
/// page `p` reporting its link `link(p)`; the pages fetched, and the scan
/// after the last claim.
pub open spec fn batch_walk<T>(s: ScanView<T>, link: spec_fn(PageId) -> PageId) -> (
    Seq<PageId>,
    ScanView<T>,
)
    decreases PAGES_PER_BATCH - s.claimed,
{
    if claims_next(s) {
        let rest = batch_walk(ScanView { next_page: link(s.next_page), ..after_claim(s) }, link);
        (seq![s.next_page] + rest.0, rest.1)
    } else {
        (Seq::empty(), after_claim(s))
    }
}

/// A batch fetches the chain in order: the pages of `chain_pages` with
/// room for the batch's unclaimed pages, each then visited and claimed,
/// leaving the scan where `chain_rest` says, with its pending rows
/// untouched.
pub proof fn lemma_batch_walk_is_chain<T>(s: ScanView<T>, link: spec_fn(PageId) -> PageId)
    requires
        s.claimed <= PAGES_PER_BATCH,
    ensures
        ({
            let (pages, t) = batch_walk(s, link);
            let room = (PAGES_PER_BATCH - s.claimed) as nat;
            &&& pages == chain_pages(link, s.next_page, s.visited, room)
            &&& (t.next_page, t.visited) == chain_rest(link, s.next_page, s.visited, room)
            &&& t.claimed == s.claimed + pages.len()
            &&& t.pending == s.pending
        }),
    decreases PAGES_PER_BATCH - s.claimed,
{
    if claims_next(s) {
        let u = ScanView { next_page: link(s.next_page), ..after_claim(s) };
        lemma_batch_walk_is_chain(u, link);
    }
}

/// Walking a chain with room `a + b` is walking it with room `a`, then
/// with room `b` from where that walk left it.
pub proof fn lemma_chain_pages_split(
    link: spec_fn(PageId) -> PageId,
    next: PageId,
    visited: Set<PageId>,
    a: nat,
    b: nat,
)
    ensures
        ({
            let mid = chain_rest(link, next, visited, a);
            &&& chain_pages(link, next, visited, a + b) == chain_pages(link, next, visited, a)
                + chain_pages(link, mid.0, mid.1, b)
            &&& chain_rest(link, next, visited, a + b) == chain_rest(link, mid.0, mid.1, b)
        }),
    decreases a,
{
    if a == 0 {
        assert(chain_pages(link, next, visited, 0) =~= Seq::<PageId>::empty());
        assert(Seq::<PageId>::empty() + chain_pages(link, next, visited, b) =~= chain_pages(
            link,
            next,
            visited,
            b,
        ));
    } else if next == INVALID_PAGE_ID || visited.contains(next) {
        assert(chain_pages(link, INVALID_PAGE_ID, visited, b) =~= Seq::<PageId>::empty());
        assert(chain_rest(link, INVALID_PAGE_ID, visited, b) == (INVALID_PAGE_ID, visited));
        assert(Seq::<PageId>::empty() + Seq::<PageId>::empty() =~= Seq::<PageId>::empty());
    } else {
        lemma_chain_pages_split(link, link(next), visited.insert(next), (a - 1) as nat, b);
        assert((a + b - 1) as nat == (a - 1) as nat + b);
        let mid = chain_rest(link, next, visited, a);
        assert(seq![next] + (chain_pages(link, link(next), visited.insert(next), (a - 1) as nat)
            + chain_pages(link, mid.0, mid.1, b)) =~= (seq![next] + chain_pages(
            link,
            link(next),
            visited.insert(next),
            (a - 1) as nat,
        )) + chain_pages(link, mid.0, mid.1, b));
    }
}

/// The pages a whole scan fetches in `batches` batches from page `next`,
/// having fetched `visited`, when every fetch succeeds: each batch starts
/// with nothing claimed (`poll`) and goes on where the one before stopped
/// (`absorb_pages` keeps the next page and the visited pages).
pub open spec fn scan_walk(
    link: spec_fn(PageId) -> PageId,
    next: PageId,
    visited: Set<PageId>,
    batches: nat,
) -> Seq<PageId>
    decreases batches,
{
    if batches == 0 {
        Seq::empty()
    } else {
        let s = ScanView::<()> { next_page: next, visited, pending: Seq::empty(), claimed: 0 };
        let (pages, t) = batch_walk(s, link);
        pages + scan_walk(link, t.next_page, t.visited, (batches - 1) as nat)
    }
}

/// A scan fetches its table's page chain in order, each page once: in `k`
/// batches, a scan started at page `first` fetches exactly the first
/// `PAGES_PER_BATCH * k` pages of the chain from `first`, stopping early
/// at the end of the chain or at a page reached a second time. How many
/// workers decode the batches plays no part in which pages are fetched.
pub proof fn lemma_scan_fetches_the_chain(link: spec_fn(PageId) -> PageId, first: PageId, k: nat)
    ensures
        scan_walk(link, first, Set::empty(), k) == chain_pages(
            link,
            first,
            Set::empty(),
            PAGES_PER_BATCH as nat * k,
        ),
        scan_walk(link, first, Set::empty(), k).no_duplicates(),
{
    lemma_scan_walk_is_chain(link, first, Set::empty(), k);
    lemma_chain_pages_fresh(link, first, Set::empty(), PAGES_PER_BATCH as nat * k);
}

proof fn lemma_scan_walk_is_chain(
    link: spec_fn(PageId) -> PageId,
    next: PageId,
    visited: Set<PageId>,
    k: nat,
)
    ensures
        scan_walk(link, next, visited, k) == chain_pages(link, next, visited, PAGES_PER_BATCH as nat * k),
    decreases k,
{
    if k == 0 {
        assert(chain_pages(link, next, visited, 0) =~= Seq::<PageId>::empty());
    } else {
        let s = ScanView::<()> { next_page: next, visited, pending: Seq::empty(), claimed: 0 };
        lemma_batch_walk_is_chain(s, link);
        let t = batch_walk(s, link).1;
        lemma_scan_walk_is_chain(link, t.next_page, t.visited, (k - 1) as nat);
        assert(PAGES_PER_BATCH as nat * k == PAGES_PER_BATCH as nat + PAGES_PER_BATCH as nat * (k - 1)
            as nat) by (nonlinear_arith)
            requires
                k > 0,
        ;
        lemma_chain_pages_split(
            link,
            next,
            visited,
            PAGES_PER_BATCH as nat,
            PAGES_PER_BATCH as nat * (k - 1) as nat,
        );
    }
}

/// A walk fetches no page twice and none fetched before.
proof fn lemma_chain_pages_fresh(
    link: spec_fn(PageId) -> PageId,
    next: PageId,
    visited: Set<PageId>,
    room: nat,
)
    ensures
        chain_pages(link, next, visited, room).no_duplicates(),
        forall|i: int|
            0 <= i < chain_pages(link, next, visited, room).len() ==> !visited.contains(
                #[trigger] chain_pages(link, next, visited, room)[i],
            ),
    decreases room,
{
    if room > 0 && next != INVALID_PAGE_ID && !visited.contains(next) {
        let v = visited.insert(next);
        let rest = chain_pages(link, link(next), v, (room - 1) as nat);
        lemma_chain_pages_fresh(link, link(next), v, (room - 1) as nat);
        let all = seq![next] + rest;
        assert forall|i: int| 0 <= i < all.len() implies !visited.contains(#[trigger] all[i]) by {
            if i > 0 {
                assert(all[i] == rest[i - 1]);
            }
        }
        assert forall|i: int, j: int| 0 <= i < all.len() && 0 <= j < all.len() && i != j implies all[i]
            != all[j] by {
            if i > 0 {
                assert(all[i] == rest[i - 1]);
                assert(!v.contains(rest[i - 1]));
            }
            if j > 0 {
                assert(all[j] == rest[j - 1]);
                assert(!v.contains(rest[j - 1]));
            }
        }
    }
}

/// What the next call of a parallel scan does.
pub enum ScanPoll<T> {
    /// Return this.
    Ready(Result<Option<T>, BustubxError>),
    /// Claim and fetch pages until the batch is full or the chain ends,
    /// decode them and absorb them.
    NeedPages,
}

/// The scan's decision about the next page of the chain.
pub enum PageClaim {
    /// The chain has ended.
    Done,
    /// The batch holds `PAGES_PER_BATCH` pages: decode it first.
    BatchFull,
    /// The chain returns to a page already fetched: it is corrupt, the
    /// scan stops following it and reports this storage error after the
    /// rows fetched before.
    Cycle(BustubxError),
    /// Fetch this page.
    Fetch(PageId),
}

/// The sequential scan operator over table `R` with schema `S`; `T` rows.
pub struct PhysicalSeqScan<R, S, T> {
    pub table: R,
    pub table_schema: S,
    pub parallelism: usize,
    /// Progress of the scan; `None` before `init`.
    pub scan: Option<ScanState<T>>,
}

impl<R, S, T> PhysicalSeqScan<R, S, T> {
    /// A serial scan of `table`.
    pub fn new(table: R, table_schema: S) -> (r: Self)
        ensures
            r.table == table,
            r.table_schema == table_schema,
            r.parallelism == 1,
            r.scan is None,
    {
        PhysicalSeqScan { table, table_schema, parallelism: 1, scan: None }
    }

    /// The same scan with `workers` workers, clamped to `1..=64`.
    pub fn with_parallelism(self, workers: usize) -> (r: Self)
        ensures
            r.parallelism == spec_clamp_parallelism(workers),
            r.table == self.table,
            r.table_schema == self.table_schema,
            r.scan == self.scan,
    {
        let mut s = self;
        s.parallelism = clamp_parallelism(workers);
        s
    }

    /// Start (or restart) a scan whose chain begins at `first_page`, with
    /// no page visited and nothing pending. (A serial scan is the same walk
    /// with one worker decoding.)
    pub fn init(&mut self, first_page: PageId)
        ensures
            final(self).table == old(self).table,
            final(self).table_schema == old(self).table_schema,
            final(self).parallelism == old(self).parallelism,
            final(self).scan matches Some(s) && s.next_page == first_page && s.visited@ == Set::<
                PageId,
            >::empty() && s.pending@.len() == 0 && s.claimed == 0,
    {
        self.scan = Some(
            ScanState {
                next_page: first_page,
                visited: HashSet::new(),
                pending: VecDeque::new(),
                claimed: 0,
            },
        );
    }

    /// The next step of a parallel scan: deliver the oldest decoded result;
    /// else report the end once the chain is done; else ask for pages. An
    /// uninitialized scan is an execution error.
    pub fn poll(&mut self) -> (r: Result<ScanPoll<T>, BustubxError>)
        ensures
            final(self).table == old(self).table,
            final(self).table_schema == old(self).table_schema,
            final(self).parallelism == old(self).parallelism,
            match old(self).scan {
                None => r matches Err(e) && e is Execution && final(self).scan is None,
                Some(s) => final(self).scan matches Some(t) && t.next_page == s.next_page
                    && t.visited@ == s.visited@ && if s.pending@.len() > 0 {
                    t.claimed == s.claimed && t.pending@ == s.pending@.drop_first() && r == Ok::<
                        ScanPoll<T>,
                        BustubxError,
                    >(
                        match s.pending@[0] {
                            Ok(row) => ScanPoll::Ready(Ok(Some(row))),
                            Err(e) => ScanPoll::Ready(Err(e)),
                        },
                    )
                } else {
                    t.pending@ == s.pending@ && t.claimed == (if s.next_page == INVALID_PAGE_ID {
                        s.claimed
                    } else {
                        0
                    }) && r == Ok::<ScanPoll<T>, BustubxError>(
                        if s.next_page == INVALID_PAGE_ID {
                            ScanPoll::Ready(Ok(None))
                        } else {
                            ScanPoll::NeedPages
                        },
                    )
                },
            },
    {
        match &mut self.scan {
            None => Err(BustubxError::Execution("scan not initialized".to_owned())),
            Some(state) => {
                if let Some(row) = state.pending.pop_front() {
                    return match row {
                        Ok(t) => Ok(ScanPoll::Ready(Ok(Some(t)))),
                        Err(e) => Ok(ScanPoll::Ready(Err(e))),
                    };
                }
                if state.next_page == INVALID_PAGE_ID {
                    Ok(ScanPoll::Ready(Ok(None)))
                } else {
                    state.claimed = 0;
                    Ok(ScanPoll::NeedPages)
                }
            },
        }
    }

    /// Decide on the next page of the chain. A batch holds at most
    /// `PAGES_PER_BATCH` pages. A page is fetched at most once per scan:
    /// reaching a visited page again reports a cycle and ends the chain.
    pub fn claim_page(&mut self) -> (r: PageClaim)
        requires
            old(self).scan is Some,
        ensures
            final(self).table == old(self).table,
            final(self).table_schema == old(self).table_schema,
            final(self).parallelism == old(self).parallelism,
            final(self).scan matches Some(t) && t@ == after_claim(old(self).scan->0@),
            claim_of(old(self).scan->0@, r),
    {
        let ghost before = self.scan->0@;
        let state = self.scan.as_mut().unwrap();
        if state.claimed >= PAGES_PER_BATCH {
            return PageClaim::BatchFull;
        }
        if state.next_page == INVALID_PAGE_ID {
            return PageClaim::Done;
        }
        let page_id = state.next_page;
        if !state.visited.insert(page_id) {
            state.next_page = INVALID_PAGE_ID;
            proof {
                assert(state.visited@ =~= before.visited);
            }
            return PageClaim::Cycle(BustubxError::Storage("Cycle in table page chain".to_owned()));
        }
        state.claimed = state.claimed + 1;
        PageClaim::Fetch(page_id)
    }

    /// The fetched page links to `next_page`.
    pub fn page_fetched(&mut self, next_page: PageId)
        requires
            old(self).scan is Some,
        ensures
            final(self).table == old(self).table,
            final(self).table_schema == old(self).table_schema,
            final(self).parallelism == old(self).parallelism,
            final(self).scan == Some(ScanState { next_page, ..old(self).scan->0 }),
    {
        let state = self.scan.as_mut().unwrap();
        state.next_page = next_page;
    }

    /// A fetch failed: the chain is not followed further.
    pub fn fetch_failed(&mut self)
        requires
            old(self).scan is Some,
        ensures
            final(self).table == old(self).table,
            final(self).table_schema == old(self).table_schema,
            final(self).parallelism == old(self).parallelism,
            final(self).scan == Some(ScanState { next_page: INVALID_PAGE_ID, ..old(self).scan->0 }),
    {
        let state = self.scan.as_mut().unwrap();
        state.next_page = INVALID_PAGE_ID;
    }

    /// Take the decoded pages of a batch (in chain order) or a failure of
    /// the decoding itself, and the failure that stopped the chain walk,
    /// if any. Rows are queued in page order, followed by that failure. A
    /// failed decoding ends the scan and is returned at once.
    pub fn absorb_pages(
        &mut self,
        decoded: Result<Vec<Vec<Result<T, BustubxError>>>, BustubxError>,
        failure: Option<BustubxError>,
    ) -> (r: Result<(), BustubxError>)
        requires
            old(self).scan is Some,
        ensures
            final(self).table == old(self).table,
            final(self).table_schema == old(self).table_schema,
            final(self).parallelism == old(self).parallelism,
            ({
                let s = old(self).scan->0;
                final(self).scan matches Some(t) && t.visited@ == s.visited@ && t.claimed == 0
                    && match decoded {
                    Err(e) => r == Err::<(), BustubxError>(e) && t.next_page == INVALID_PAGE_ID
                        && t.pending@ == s.pending@,
                    Ok(pages) => r is Ok && t.next_page == s.next_page && t.pending@ == s.pending@
                        + flatten(pages@.map_values(|p: Vec<Result<T, BustubxError>>| p@))
                        + match failure {
                        Some(e) => seq![Err::<T, BustubxError>(e)],
                        None => Seq::<Result<T, BustubxError>>::empty(),
                    },
                }
            }),
    {
        let state = self.scan.as_mut().unwrap();
        state.claimed = 0;
        let pages = match decoded {
            Ok(pages) => pages,
            Err(e) => {
                state.next_page = INVALID_PAGE_ID;
                return Err(e);
            },
        };
        let ghost views = pages@.map_values(|p: Vec<Result<T, BustubxError>>| p@);
        let ghost start = state.pending@;
        let n = pages.len();
        let mut rpages = reversed(pages);
        let mut k: usize = 0;
        while k < n
            invariant
                n == views.len(),
                k <= n,
                decoded matches Ok(p) && p@.map_values(|p: Vec<Result<T, BustubxError>>| p@) == views,
                state.next_page == old(self).scan->0.next_page,
                state.visited@ == old(self).scan->0.visited@,
                state.claimed == 0,
                start == old(self).scan->0.pending@,
                rpages@.len() == n - k,
                forall|j: int| 0 <= j < n - k ==> #[trigger] rpages@[j]@ == views[n - 1 - j],
                state.pending@ == start + flatten(views.subrange(0, k as int)),
            decreases n - k,
        {
            let page = rpages.pop().unwrap();
            let ghost before = state.pending@;
            let m = page.len();
            let mut rrows = reversed(page);
            let mut i: usize = 0;
            while i < m
                invariant
                    state.next_page == old(self).scan->0.next_page,
                    state.visited@ == old(self).scan->0.visited@,
                    state.claimed == 0,
                    k < n,
                    n == views.len(),
                    m == views[k as int].len(),
                    i <= m,
                    rrows@.len() == m - i,
                    forall|j: int| 0 <= j < m - i ==> #[trigger] rrows@[j] == views[k as int][m - 1 - j],
                    state.pending@ == before + views[k as int].subrange(0, i as int),
                decreases m - i,
            {
                let row = rrows.pop().unwrap();
                state.pending.push_back(row);
                proof {
                    assert(state.pending@ =~= before + views[k as int].subrange(0, i + 1));
                }
                i = i + 1;
            }
            proof {
                assert(views[k as int].subrange(0, m as int) =~= views[k as int]);
                assert(views.subrange(0, k + 1).drop_last() =~= views.subrange(0, k as int));
                assert(state.pending@ =~= start + flatten(views.subrange(0, k + 1)));
            }
            k = k + 1;
        }
        assert(views.subrange(0, n as int) =~= views);
        if let Some(e) = failure {
            state.pending.push_back(Err(e));
        }
        Ok(())
    }
}

/// The rows kept from one page's decoded slots: up to and including the
/// first failure.
pub fn keep_through_first_error<T>(rows: Vec<Result<T, BustubxError>>) -> (r: Vec<
    Result<T, BustubxError>,
>)
    ensures
        r@ == through_first_error(rows@),
{
    let ghost all = rows@;
    let n = rows.len();
    let mut rev = reversed(rows);
    let mut kept: Vec<Result<T, BustubxError>> = Vec::new();
    let mut i: usize = 0;
    while i < n
        invariant
            all == rows@,
            n == all.len(),
            i <= n,
            rev@.len() == n - i,
            forall|j: int| 0 <= j < n - i ==> #[trigger] rev@[j] == all[n - 1 - j],
            forall|j: int| 0 <= j < i ==> #[trigger] all[j] is Ok,
            kept@ == all.subrange(0, i as int),
        decreases n - i,
    {
        let row = rev.pop().unwrap();
        let failed = row.is_err();
        kept.push(row);
        if failed {
            proof {
                lemma_through_first_error(all, i as int);
            }
            return kept;
        }
        i = i + 1;
    }
    proof {
        lemma_through_first_error(all, n as int);
    }
    kept
}

proof fn lemma_through_first_error<T>(all: Seq<Result<T, BustubxError>>, i: int)
    requires
        0 <= i <= all.len(),
        forall|j: int| 0 <= j < i ==> #[trigger] all[j] is Ok,
        i < all.len() ==> all[i] is Err,
    ensures
        through_first_error(all) == if i < all.len() {
            all.subrange(0, i + 1)
        } else {
            all
        },
    decreases i,
{
    if i == 0 {
        if all.len() == 0 {
        } else {
            assert(all.subrange(0, 1) =~= seq![all[0]]);
        }
    } else {
        let rest = all.drop_first();
        assert forall|j: int| 0 <= j < i - 1 implies #[trigger] rest[j] is Ok by {
            assert(rest[j] == all[j + 1]);
        }
        lemma_through_first_error(rest, i - 1);
        assert(all[0] is Ok);
        if i < all.len() {
            assert(seq![all[0]] + rest.subrange(0, i) =~= all.subrange(0, i + 1));
        } else {
            assert(seq![all[0]] + rest =~= all);
        }
    }
}

} // verus!
