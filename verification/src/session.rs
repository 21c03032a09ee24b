//! One ingestion session: pages are taken from the head of the remote
//! history and merged into the store until the walk reaches its end or
//! data that the store already has.

use vstd::prelude::*;
use crate::api::{StashEntries, StashEntry};
use crate::storage::{
    distinct_entries, entry_ids, ids, lemma_distinct_cut, lemma_distinct_part, lemma_entry_ids,
    lemma_entry_ids_push, lemma_insert, lemma_insert_all_new, lemma_merged, merged, stored_rows,
    InsertTransaction, Storage, StoredEntry, TransactionView,
};

verus! {

/// What a session holds.
#[verifier::ext_equal]
pub struct SessionView {
    /// The transaction that spans the session.
    pub txn: TransactionView,
    /// The guild whose history is walked.
    pub guild: i64,
    /// The last entry of the last page that was new as a whole; the next
    /// page is asked for after it.
    pub anchor: Option<(String, u64)>,
    /// How many pages were taken in.
    pub pages_seen: nat,
    /// Whether the walk is over.
    pub finished: bool,
}

impl SessionView {
    /// The session that starts on a store with the rows `rows`.
    pub open spec fn begin(rows: Seq<StoredEntry>, guild: i64) -> SessionView {
        SessionView {
            txn: TransactionView::of(rows, Seq::empty()),
            guild,
            anchor: None,
            pages_seen: 0,
            finished: false,
        }
    }

    /// How many rows the session has added.
    pub open spec fn added_count(self) -> nat {
        self.txn.staged.len()
    }

    /// After the page `page` has arrived. An empty page ends the walk. Any
    /// other page is inserted; if one of its entries was passed over the
    /// walk ends with it, else it goes on after the last entry of the page.
    /// A session that is over takes nothing in.
    pub open spec fn accept(self, page: Seq<StashEntry>) -> SessionView {
        if self.finished {
            self
        } else if page.len() == 0 {
            SessionView { pages_seen: self.pages_seen + 1, finished: true, ..self }
        } else if self.txn.added(self.guild, page) < page.len() {
            SessionView {
                txn: self.txn.insert(self.guild, page),
                pages_seen: self.pages_seen + 1,
                finished: true,
                ..self
            }
        } else {
            SessionView {
                txn: self.txn.insert(self.guild, page),
                anchor: Some(page.last().anchor()),
                pages_seen: self.pages_seen + 1,
                ..self
            }
        }
    }

    /// After the pages `pages` have arrived, one after the other.
    pub open spec fn run(self, pages: Seq<Seq<StashEntry>>) -> SessionView
        decreases pages.len(),
    {
        if pages.len() == 0 {
            self
        } else {
            self.accept(pages[0]).run(pages.drop_first())
        }
    }
}

/// A remote history of `log`, the latest entry first, cut into the pages in
/// which it is handed out, `size` entries to a page; the last page may hold
/// fewer.
pub open spec fn pages_of(log: Seq<StashEntry>, size: nat) -> Seq<Seq<StashEntry>>
    decreases log.len(),
{
    if log.len() == 0 || size == 0 {
        Seq::empty()
    } else if log.len() <= size {
        seq![log]
    } else {
        seq![log.take(size as int)] + pages_of(log.skip(size as int), size)
    }
}

/// A history of `n` entries makes `n / size` pages, rounded up.
pub proof fn lemma_pages_of_len(log: Seq<StashEntry>, size: nat)
    requires
        size > 0,
    ensures
        pages_of(log, size).len() == (log.len() + size - 1) / (size as int),
    decreases log.len(),
{
    let n = log.len() as int;
    let p = size as int;
    if n == 0 {
        assert((n + p - 1) / p == 0) by (nonlinear_arith)
            requires
                n == 0,
                p > 0,
        ;
    } else if n <= p {
        assert((n + p - 1) / p == 1) by (nonlinear_arith)
            requires
                0 < n <= p,
        ;
    } else {
        lemma_pages_of_len(log.skip(p), size);
        assert((n + p - 1) / p == (n - p + p - 1) / p + 1) by (nonlinear_arith)
            requires
                n > p,
                p > 0,
        ;
    }
}

/// A session that is over stays as it is, whatever arrives.
pub proof fn lemma_finished_stays(s: SessionView, pages: Seq<Seq<StashEntry>>)
    requires
        s.finished,
    ensures
        s.run(pages) == s,
    decreases pages.len(),
{
    if pages.len() > 0 {
        lemma_finished_stays(s, pages.drop_first());
    }
}

/// Whatever arrives, a session never touches the committed rows, never
/// forgets an id, and keeps its guild.
pub proof fn lemma_run_grows(s: SessionView, pages: Seq<Seq<StashEntry>>)
    ensures
        s.run(pages).txn.committed == s.txn.committed,
        s.txn.known_ids().subset_of(s.run(pages).txn.known_ids()),
        s.run(pages).guild == s.guild,
    decreases pages.len(),
{
    if pages.len() > 0 {
        lemma_insert(s.txn, s.guild, pages[0]);
        lemma_run_grows(s.accept(pages[0]), pages.drop_first());
    }
}

/// A page with an entry whose id is known, or with an id twice, ends the
/// walk: the page is merged, and no page that follows is looked at.
pub proof fn law_overlap_ends_walk(s: SessionView, page: Seq<StashEntry>, later: Seq<Seq<StashEntry>>)
    requires
        !s.finished,
        !entry_ids(page).disjoint(s.txn.known_ids()) || !distinct_entries(page),
    ensures
        s.accept(page).finished,
        s.accept(page).txn == s.txn.insert(s.guild, page),
        s.accept(page).pages_seen == s.pages_seen + 1,
        s.run(seq![page] + later) == s.accept(page),
{
    lemma_entry_ids(page);
    lemma_insert(s.txn, s.guild, page);
    let fresh = entry_ids(page).difference(s.txn.known_ids());
    if !entry_ids(page).disjoint(s.txn.known_ids()) {
        let id = choose|id: Seq<char>| entry_ids(page).contains(id) && s.txn.known_ids().contains(id);
        assert(fresh.subset_of(entry_ids(page).remove(id)));
        vstd::set_lib::lemma_len_subset(fresh, entry_ids(page).remove(id));
    } else {
        assert(fresh =~= entry_ids(page));
        if entry_ids(page).len() == page.len() {
            lemma_ids_count_distinct(page);
        }
    }
    assert(page.len() > 0);
    assert(s.txn.added(s.guild, page) < page.len());
    assert((seq![page] + later)[0] == page);
    assert((seq![page] + later).drop_first() == later);
    lemma_finished_stays(s.accept(page), later);
}

proof fn lemma_ids_count_distinct(entries: Seq<StashEntry>)
    requires
        entry_ids(entries).len() == entries.len(),
    ensures
        distinct_entries(entries),
    decreases entries.len(),
{
    if entries.len() > 0 {
        let head = entries.drop_last();
        let id = entries.last().id@;
        lemma_entry_ids(head);
        lemma_entry_ids(entries);
        lemma_entry_ids_push(entries);
        assert(!entry_ids(head).contains(id));
        lemma_ids_count_distinct(head);
        assert forall|i: int, j: int| 0 <= i < j < entries.len() implies (#[trigger] entries[i]).id@
            != (#[trigger] entries[j]).id@ by {
            if j < head.len() {
                assert(head[i] == entries[i] && head[j] == entries[j]);
            } else {
                assert(head[i].id@ == entries[i].id@);
                assert(entry_ids(head).contains(entries[i].id@));
            }
        }
    }
}

/// A page of entries that differ in their ids, none of which is known, is
/// merged as a whole, and the walk goes on after its last entry.
pub proof fn law_new_page_moves_anchor(s: SessionView, page: Seq<StashEntry>)
    requires
        !s.finished,
        page.len() > 0,
        distinct_entries(page),
        entry_ids(page).disjoint(s.txn.known_ids()),
    ensures
        !s.accept(page).finished,
        s.accept(page).anchor == Some(page.last().anchor()),
        s.accept(page).txn.staged == s.txn.staged + stored_rows(s.guild, page),
        s.accept(page).pages_seen == s.pages_seen + 1,
{
    lemma_insert_all_new(s.txn, s.guild, page);
}

/// Taking in one more page after some others is one more step.
pub proof fn lemma_run_push(s: SessionView, pages: Seq<Seq<StashEntry>>, page: Seq<StashEntry>)
    ensures
        s.run(pages.push(page)) == s.run(pages).accept(page),
    decreases pages.len(),
{
    if pages.len() == 0 {
        assert(pages.push(page)[0] == page);
        assert(pages.push(page).drop_first() == Seq::<Seq<StashEntry>>::empty());
        assert(s.accept(page).run(Seq::empty()) == s.accept(page));
        assert(s.run(pages) == s);
    } else {
        assert(pages.push(page)[0] == pages[0]);
        assert(pages.push(page).drop_first() == pages.drop_first().push(page));
        lemma_run_push(s.accept(pages[0]), pages.drop_first(), page);
    }
}

proof fn lemma_walk(s: SessionView, log: Seq<StashEntry>, size: nat)
    requires
        size > 0,
        !s.finished,
        distinct_entries(log),
        entry_ids(log).disjoint(s.txn.known_ids()),
    ensures
        !s.run(pages_of(log, size)).finished,
        s.run(pages_of(log, size)).txn.staged == s.txn.staged + stored_rows(s.guild, log),
        s.run(pages_of(log, size)).txn.committed == s.txn.committed,
        s.run(pages_of(log, size)).pages_seen == s.pages_seen + pages_of(log, size).len(),
        log.len() > 0 ==> s.run(pages_of(log, size)).anchor == Some(log.last().anchor()),
    decreases log.len(),
{
    let pages = pages_of(log, size);
    if log.len() == 0 {
        assert(s.txn.staged + stored_rows(s.guild, log) =~= s.txn.staged);
    } else if log.len() <= size {
        law_new_page_moves_anchor(s, log);
        lemma_insert(s.txn, s.guild, log);
        assert(pages[0] == log);
        assert(pages.drop_first() == Seq::<Seq<StashEntry>>::empty());
        assert(s.accept(log).run(Seq::empty()) == s.accept(log));
    } else {
        let page = log.take(size as int);
        let rest = log.skip(size as int);
        assert(pages[0] == page);
        assert(pages.drop_first() == pages_of(rest, size));
        lemma_distinct_cut(log, size as int);
        law_new_page_moves_anchor(s, page);
        lemma_insert(s.txn, s.guild, page);
        let next = s.accept(page);
        assert(entry_ids(rest).disjoint(next.txn.known_ids()));
        lemma_walk(next, rest, size);
        assert(stored_rows(s.guild, page) + stored_rows(s.guild, rest) =~= stored_rows(s.guild, log));
        assert(rest.last() == log.last());
    }
}

/// A history of `n` entries that differ in their ids, none of which the
/// store has, handed out in pages of `size` entries: the session merges
/// all `n / size` pages, rounded up, asks once more, and is over when that
/// request brings an empty page. By then it has added one row for each
/// entry of the history, in their order, in front of the rows that the
/// store had.
pub proof fn law_walk_exhausts_history(
    rows: Seq<StoredEntry>,
    guild: i64,
    log: Seq<StashEntry>,
    size: nat,
)
    requires
        size > 0,
        distinct_entries(log),
        entry_ids(log).disjoint(ids(rows)),
    ensures
        pages_of(log, size).len() == (log.len() + size - 1) / (size as int),
        !SessionView::begin(rows, guild).run(pages_of(log, size)).finished,
        SessionView::begin(rows, guild).run(pages_of(log, size).push(Seq::empty())).finished,
        SessionView::begin(rows, guild).run(pages_of(log, size).push(Seq::empty())).pages_seen
            == pages_of(log, size).len() + 1,
        SessionView::begin(rows, guild).run(pages_of(log, size).push(Seq::empty())).added_count()
            == log.len(),
        SessionView::begin(rows, guild).run(pages_of(log, size).push(Seq::empty())).txn
            == TransactionView::of(rows, stored_rows(guild, log)),
        merged(rows, stored_rows(guild, log)).len() == rows.len() + log.len(),
        ids(merged(rows, stored_rows(guild, log))) == ids(rows).union(entry_ids(log)),
{
    let start = SessionView::begin(rows, guild);
    assert(start.txn.known_ids() =~= ids(rows));
    lemma_pages_of_len(log, size);
    lemma_walk(start, log, size);
    lemma_run_push(start, pages_of(log, size), Seq::empty());
    assert(start.txn.staged + stored_rows(guild, log) =~= stored_rows(guild, log));
    let rows_added = stored_rows(guild, log);
    lemma_merged(rows, rows_added);
    assert forall|x: Seq<char>| ids(rows_added).contains(x) <==> entry_ids(log).contains(x) by {
        if ids(rows_added).contains(x) {
            let k = choose|k: int| 0 <= k < rows_added.len() && (#[trigger] rows_added[k]).entry.id@ == x;
            assert(log[k].id@ == x);
        }
        if entry_ids(log).contains(x) {
            let k = choose|k: int| 0 <= k < log.len() && (#[trigger] log[k]).id@ == x;
            assert(rows_added[k].entry.id@ == x);
        }
    }
    assert(ids(rows_added) =~= entry_ids(log));
}

/// Where the first entry with the id `id` stands in `log`; the length of
/// `log` where there is none.
pub open spec fn position_of(log: Seq<StashEntry>, id: Seq<char>) -> int
    decreases log.len(),
{
    if log.len() == 0 || log[0].id@ == id {
        0
    } else {
        1 + position_of(log.drop_first(), id)
    }
}

/// The page that a remote with the history `log` hands out when asked for
/// what comes after `anchor`: up to `size` entries, from the head of the
/// history where there is no anchor, else from behind the entry with the
/// id of the anchor.
pub open spec fn page_after(log: Seq<StashEntry>, size: nat, anchor: Option<(String, u64)>) -> Seq<
    StashEntry,
> {
    let start = match anchor {
        None => 0,
        Some(last) => position_of(log, last.0@) + 1,
    };
    if start >= log.len() {
        Seq::empty()
    } else if start + size >= log.len() {
        log.skip(start)
    } else {
        log.subrange(start, start + size)
    }
}

/// The session after `requests` rounds against a remote with the history
/// `log`: each round asks for the page after the anchor and takes it in.
pub open spec fn walk(s: SessionView, log: Seq<StashEntry>, size: nat, requests: nat) -> SessionView
    decreases requests,
{
    if requests == 0 {
        s
    } else {
        walk(s.accept(page_after(log, size, s.anchor)), log, size, (requests - 1) as nat)
    }
}

proof fn lemma_position_of(log: Seq<StashEntry>, k: int)
    requires
        distinct_entries(log),
        0 <= k < log.len(),
    ensures
        position_of(log, log[k].id@) == k,
    decreases k,
{
    if k > 0 {
        let rest = log.drop_first();
        assert(log[0].id@ != log[k].id@);
        lemma_distinct_part(log, 1, log.len() as int);
        assert(rest[k - 1] == log[k]);
        lemma_position_of(rest, k - 1);
    }
}

proof fn lemma_walk_follows_pages(s: SessionView, log: Seq<StashEntry>, size: nat, seen: int)
    requires
        size > 0,
        !s.finished,
        distinct_entries(log),
        0 <= seen <= log.len(),
        seen == 0 ==> s.anchor is None,
        seen > 0 ==> s.anchor == Some(log[seen - 1].anchor()),
        entry_ids(log.skip(seen)).disjoint(s.txn.known_ids()),
    ensures
        walk(s, log, size, pages_of(log.skip(seen), size).len() + 1) == s.run(
            pages_of(log.skip(seen), size).push(Seq::empty()),
        ),
    decreases log.len() - seen,
{
    let rest = log.skip(seen);
    let pages = pages_of(rest, size);
    let asked = page_after(log, size, s.anchor);
    if seen > 0 {
        lemma_position_of(log, seen - 1);
    }
    if rest.len() == 0 {
        assert(asked == Seq::<StashEntry>::empty());
        assert(pages.push(Seq::empty())[0] == Seq::<StashEntry>::empty());
        assert(pages.push(Seq::empty()).drop_first() == Seq::<Seq<StashEntry>>::empty());
        assert(walk(s.accept(asked), log, size, 0) == s.accept(asked));
        assert(s.accept(asked).run(Seq::empty()) == s.accept(asked));
    } else {
        let taken: int = if rest.len() <= size {
            rest.len() as int
        } else {
            size as int
        };
        let page = rest.take(taken);
        let left = log.skip(seen + taken);
        assert(asked =~= page);
        assert(pages[0] =~= page);
        assert(rest.skip(taken) =~= left);
        assert(pages.drop_first() =~= pages_of(left, size)) by {
            if rest.len() <= size {
                assert(pages_of(left, size) == Seq::<Seq<StashEntry>>::empty());
            }
        }
        lemma_distinct_part(log, seen, log.len() as int);
        lemma_distinct_cut(rest, taken);
        law_new_page_moves_anchor(s, page);
        lemma_insert(s.txn, s.guild, page);
        let next = s.accept(page);
        assert(page.last() == log[seen + taken - 1]);
        assert(entry_ids(left).disjoint(next.txn.known_ids()));
        lemma_walk_follows_pages(next, log, size, seen + taken);
        assert(pages.push(Seq::empty())[0] == page);
        assert(pages.push(Seq::empty()).drop_first() == pages.drop_first().push(Seq::empty()));
    }
}

/// Against a remote whose history holds entries that differ in their ids,
/// none of which the store has, and which hands out pages of `size`
/// entries, a session that asks for the page after its anchor time and
/// again is handed the pages of the history one after the other: it makes
/// one request for each page and one more, which brings an empty page and
/// ends the walk.
pub proof fn law_walk_follows_pages(
    rows: Seq<StoredEntry>,
    guild: i64,
    log: Seq<StashEntry>,
    size: nat,
)
    requires
        size > 0,
        distinct_entries(log),
        entry_ids(log).disjoint(ids(rows)),
    ensures
        walk(SessionView::begin(rows, guild), log, size, pages_of(log, size).len() + 1)
            == SessionView::begin(rows, guild).run(pages_of(log, size).push(Seq::empty())),
        walk(SessionView::begin(rows, guild), log, size, pages_of(log, size).len() + 1).finished,
        walk(
            SessionView::begin(rows, guild),
            log,
            size,
            pages_of(log, size).len() + 1,
        ).pages_seen == (log.len() + size - 1) / (size as int) + 1,
{
    let start = SessionView::begin(rows, guild);
    assert(start.txn.known_ids() =~= ids(rows));
    assert(log.skip(0) == log);
    lemma_walk_follows_pages(start, log, size, 0);
    law_walk_exhausts_history(rows, guild, log, size);
}

/// A session that is run again on the store that a first session left,
/// while the head of the remote history is unchanged, adds nothing and
/// leaves the store as it is: its first page is the first page that the
/// first session merged.
pub proof fn law_second_run_adds_nothing(
    rows: Seq<StoredEntry>,
    guild: i64,
    first: Seq<Seq<StashEntry>>,
    second: Seq<Seq<StashEntry>>,
)
    requires
        first.len() > 0,
        second.len() > 0 ==> second[0] == first[0],
    ensures
        SessionView::begin(
            SessionView::begin(rows, guild).run(first).txn.rows(),
            guild,
        ).run(second).added_count() == 0,
        SessionView::begin(
            SessionView::begin(rows, guild).run(first).txn.rows(),
            guild,
        ).run(second).txn.rows() == SessionView::begin(rows, guild).run(first).txn.rows(),
{
    let start = SessionView::begin(rows, guild);
    let page = first[0];
    let step = start.accept(page);
    let done = start.run(first);
    let stored = done.txn.rows();
    lemma_insert(start.txn, guild, page);
    lemma_run_grows(step, first.drop_first());
    assert(entry_ids(page).subset_of(done.txn.known_ids()));
    lemma_merged(done.txn.committed, done.txn.staged);
    let again = SessionView::begin(stored, guild);
    assert forall|x: Seq<char>| again.txn.knows(x) <==> done.txn.knows(x) by {
        assert(ids(stored).contains(x) <==> ids(done.txn.staged).contains(x) || ids(
            done.txn.committed,
        ).contains(x));
    }
    assert(again.txn.known_ids() =~= done.txn.known_ids());
    assert(again.txn.rows() =~= stored);
    if second.len() > 0 {
        lemma_insert(again.txn, guild, page);
        lemma_entry_ids(page);
        assert(entry_ids(page).difference(again.txn.known_ids()) =~= Set::<Seq<char>>::empty());
        let merged = again.txn.insert(guild, page);
        assert(merged.staged =~= Seq::<StoredEntry>::empty());
        assert(again.accept(page).txn =~= again.txn);
        assert(again.accept(page).finished);
        lemma_finished_stays(again.accept(page), second.drop_first());
    }
}

/// A session in progress. The caller fetches the page after `anchor`,
/// hands it to `accept`, and goes on until `accept` says that the walk is
/// over; then it commits. Where a fetch fails it aborts instead.
pub struct IngestionSession {
    txn: InsertTransaction,
    guildid: i64,
    anchor: Option<(String, u64)>,
    pages_seen: Ghost<nat>,
    finished: bool,
}

impl View for IngestionSession {
    type V = SessionView;

    closed spec fn view(&self) -> SessionView {
        SessionView {
            txn: self.txn@,
            guild: self.guildid,
            anchor: self.anchor,
            pages_seen: self.pages_seen@,
            finished: self.finished,
        }
    }
}

impl IngestionSession {
    /// Opens a transaction on `storage` and starts at the head of the
    /// history of guild `guildid`.
    pub fn begin(storage: Storage, guildid: i64) -> (r: IngestionSession)
        ensures
            r@ == SessionView::begin(storage@, guildid),
    {
        IngestionSession {
            txn: storage.begin_insert(),
            guildid,
            anchor: None,
            pages_seen: Ghost(0),
            finished: false,
        }
    }

    /// The entry after which the next page is to be fetched; none for the
    /// first page.
    pub fn anchor(&self) -> (r: Option<&(String, u64)>)
        ensures
            r is Some == self@.anchor is Some,
            r matches Some(last) ==> self@.anchor == Some(*last),
    {
        self.anchor.as_ref()
    }

    /// Whether the walk is over.
    pub fn finished(&self) -> (r: bool)
        ensures
            r == self@.finished,
    {
        self.finished
    }

    /// How many rows the session has added so far.
    pub fn added_count(&self) -> (r: usize)
        ensures
            r == self@.added_count(),
    {
        self.txn.staged().len()
    }

    /// The rows that the session has added so far, in the order in which
    /// they arrived.
    pub fn added_rows(&self) -> (r: &Vec<StoredEntry>)
        ensures
            r@ == self@.txn.staged,
    {
        self.txn.staged()
    }

    /// Takes in the page that was fetched after `anchor`, and says whether
    /// another page is to be fetched.
    pub fn accept(&mut self, page: &StashEntries) -> (more: bool)
        ensures
            final(self)@ == old(self)@.accept(page.entries@),
            more == !final(self)@.finished,
    {
        if self.finished {
            return false;
        }
        self.pages_seen = Ghost((self.pages_seen@ + 1) as nat);
        if page.entries.len() == 0 {
            self.finished = true;
            return false;
        }
        let added = self.txn.insert(self.guildid, page.entries.as_slice());
        if added != page.entries.len() {
            self.finished = true;
            return false;
        }
        let last = &page.entries[page.entries.len() - 1];
        self.anchor = Some((last.id.clone(), last.time));
        true
    }

    /// Ends the session and keeps what it added. Returns the store and the
    /// number of rows added.
    pub fn commit(self) -> (r: (Storage, usize))
        ensures
            r.0@ == self@.txn.rows(),
            r.1 == self@.added_count(),
    {
        let added = self.added_count();
        let IngestionSession { txn, guildid: _, anchor: _, pages_seen: _, finished: _ } = self;
        (txn.commit(), added)
    }

    /// Ends the session and drops what it added: the store is as it was
    /// before the session.
    pub fn abort(self) -> (r: Storage)
        ensures
            r@ == self@.txn.committed,
    {
        let IngestionSession { txn, guildid: _, anchor: _, pages_seen: _, finished: _ } = self;
        txn.abort()
    }
}

} // verus!
