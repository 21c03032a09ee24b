//! The local store of entries: a set keyed by id, filled through
//! transactions that either commit as a whole or leave no trace.

use vstd::prelude::*;
use vstd::string::*;
use crate::api::{StashAccount, StashEntries, StashEntry};
use crate::text::{
    all_digits, chars_of, decimal_value, digit_prefix_len, is_digit, lemma_decimal_value_prefix,
    lemma_digit_prefix_len,
};

verus! {

/// The largest number that an id counts as.
pub const ID_NUMBER_MAX: u64 = 0x7fff_ffff_ffff_ffff;

/// The number by which an id is ordered: the number that the decimal digits
/// at its start write, but no more than `ID_NUMBER_MAX`; 0 for an id that
/// starts with no digit. The server hands out ids that are numbers and that
/// grow with time, so a higher number is a later entry.
pub open spec fn id_number_spec(id: Seq<char>) -> nat {
    let value = decimal_value(id.take(digit_prefix_len(id) as int));
    if value < ID_NUMBER_MAX {
        value
    } else {
        ID_NUMBER_MAX as nat
    }
}

/// Computes the number by which `id` is ordered.
pub fn id_number(id: &str) -> (r: u64)
    ensures
        r == id_number_spec(id@),
{
    let chars = chars_of(id);
    let mut value: u64 = 0;
    let mut i: usize = 0;
    while i < chars.len() && chars[i] >= '0' && chars[i] <= '9'
        invariant
            i <= chars.len(),
            all_digits(chars@.take(i as int)),
            value <= ID_NUMBER_MAX,
            value < ID_NUMBER_MAX ==> value == decimal_value(chars@.take(i as int)),
            value == ID_NUMBER_MAX ==> decimal_value(chars@.take(i as int)) >= ID_NUMBER_MAX,
        decreases chars.len() - i,
    {
        let c = chars[i];
        let ghost next = chars@.take(i + 1);
        proof {
            assert(next.drop_last() == chars@.take(i as int));
            assert(next.last() == c);
            assert forall|k: int| 0 <= k < next.len() implies is_digit(#[trigger] next[k]) by {
                if k < next.len() - 1 {
                    assert(next[k] == chars@.take(i as int)[k]);
                }
            }
            lemma_decimal_value_prefix(next, i as int);
            assert(next.take(i as int) == chars@.take(i as int));
        }
        if value < ID_NUMBER_MAX {
            let wide: u128 = value as u128 * 10 + (c as u32 - '0' as u32) as u128;
            if wide < ID_NUMBER_MAX as u128 {
                value = wide as u64;
            } else {
                value = ID_NUMBER_MAX;
            }
        }
        i += 1;
    }
    proof {
        lemma_digit_prefix_len(chars@, i as int);
    }
    value
}

/// One row of the store: an entry and the guild it was fetched for.
#[derive(Debug, Clone, PartialEq, Eq)]
pub struct StoredEntry {
    pub guild: i64,
    pub entry: StashEntry,
}

/// `entry` as the store keeps it: the realm of the account is not kept.
pub open spec fn stored_form(entry: StashEntry) -> StashEntry {
    StashEntry { account: StashAccount { name: entry.account.name, realm: None }, ..entry }
}

/// The row that the store keeps for `entry` of guild `guild`.
pub open spec fn stored_row(guild: i64, entry: StashEntry) -> StoredEntry {
    StoredEntry { guild, entry: stored_form(entry) }
}

/// Whether a row of `rows` has the id `id`.
pub open spec fn has_id(rows: Seq<StoredEntry>, id: Seq<char>) -> bool {
    exists|i: int| 0 <= i < rows.len() && (#[trigger] rows[i]).entry.id@ == id
}

/// The ids of `rows`.
pub open spec fn ids(rows: Seq<StoredEntry>) -> Set<Seq<char>> {
    Set::new(|id: Seq<char>| has_id(rows, id))
}

/// Whether no two rows of `rows` have the same id.
pub open spec fn distinct_ids(rows: Seq<StoredEntry>) -> bool {
    forall|i: int, j: int|
        0 <= i < j < rows.len() ==> (#[trigger] rows[i]).entry.id@ != (#[trigger] rows[j]).entry.id@
}

/// Whether every row of `rows` is in the form that the store keeps.
pub open spec fn all_stored_form(rows: Seq<StoredEntry>) -> bool {
    forall|i: int| 0 <= i < rows.len() ==> (#[trigger] rows[i]).entry.account.realm is None
}

/// The rows that a store may hold: one row per id, each in stored form.
pub open spec fn valid_rows(rows: Seq<StoredEntry>) -> bool {
    distinct_ids(rows) && all_stored_form(rows)
}

/// The number by which `row` is ordered.
pub open spec fn rank(row: StoredEntry) -> nat {
    id_number_spec(row.entry.id@)
}

/// Whether `rows` are in falling order of their ids' numbers, which is the
/// latest entry first.
pub open spec fn newest_first(rows: Seq<StoredEntry>) -> bool {
    forall|i: int, j: int| 0 <= i < j < rows.len() ==> rank(#[trigger] rows[i]) >= rank(#[trigger] rows[j])
}

/// Whether `entries` are in falling order of their ids' numbers.
pub open spec fn in_id_order(entries: Seq<StashEntry>) -> bool {
    forall|i: int, j: int|
        0 <= i < j < entries.len() ==> id_number_spec((#[trigger] entries[i]).id@) >= id_number_spec(
            (#[trigger] entries[j]).id@,
        )
}

/// Where a row with the number `number` goes among `rows`: behind the last
/// row whose number is not lower.
pub open spec fn slot(rows: Seq<StoredEntry>, number: nat) -> nat
    decreases rows.len(),
{
    if rows.len() == 0 {
        0
    } else if rank(rows.last()) >= number {
        rows.len()
    } else {
        slot(rows.drop_last(), number)
    }
}

/// `rows` with `row` put in at its slot.
pub open spec fn place(rows: Seq<StoredEntry>, row: StoredEntry) -> Seq<StoredEntry> {
    rows.insert(slot(rows, rank(row)) as int, row)
}

/// `rows` with each row of `more` put in at its slot, from the first to the
/// last.
pub open spec fn merged(rows: Seq<StoredEntry>, more: Seq<StoredEntry>) -> Seq<StoredEntry>
    decreases more.len(),
{
    if more.len() == 0 {
        rows
    } else {
        place(merged(rows, more.drop_last()), more.last())
    }
}

/// The slot of a number lies behind a row that is not lower and in front of
/// rows that all are; among rows that are newest first, no row in front of
/// it is lower.
pub proof fn lemma_slot(rows: Seq<StoredEntry>, number: nat)
    ensures
        slot(rows, number) <= rows.len(),
        slot(rows, number) > 0 ==> rank(rows[slot(rows, number) - 1]) >= number,
        forall|i: int| slot(rows, number) <= i < rows.len() ==> rank(#[trigger] rows[i]) < number,
        newest_first(rows) ==> forall|i: int|
            0 <= i < slot(rows, number) ==> rank(#[trigger] rows[i]) >= number,
    decreases rows.len(),
{
    if rows.len() > 0 && rank(rows.last()) < number {
        let head = rows.drop_last();
        lemma_slot(head, number);
        assert forall|i: int| slot(rows, number) <= i < rows.len() implies rank(#[trigger] rows[i])
            < number by {
            if i < head.len() {
                assert(rows[i] == head[i]);
            }
        }
        if slot(rows, number) > 0 {
            assert(rows[slot(rows, number) - 1] == head[slot(head, number) - 1]);
        }
        if newest_first(rows) {
            assert forall|i: int| 0 <= i < slot(rows, number) implies rank(#[trigger] rows[i])
                >= number by {
                assert(rank(rows[i]) >= rank(rows[slot(rows, number) - 1]));
            }
        }
    } else if rows.len() > 0 {
        if newest_first(rows) {
            assert forall|i: int| 0 <= i < slot(rows, number) implies rank(#[trigger] rows[i])
                >= number by {
                assert(rank(rows[i]) >= rank(rows[rows.len() - 1]));
            }
        }
    }
}

/// Putting a row in at its slot adds that row and nothing else, and keeps
/// rows that are newest first so. Where the id of the row is new and the row
/// in stored form, rows that a store may hold stay so.
pub proof fn lemma_place(rows: Seq<StoredEntry>, row: StoredEntry)
    ensures
        place(rows, row).len() == rows.len() + 1,
        ids(place(rows, row)) == ids(rows).insert(row.entry.id@),
        newest_first(rows) ==> newest_first(place(rows, row)),
        valid_rows(rows) && !has_id(rows, row.entry.id@) && row.entry.account.realm is None
            ==> valid_rows(place(rows, row)),
{
    let at = slot(rows, rank(row)) as int;
    let out = place(rows, row);
    lemma_slot(rows, rank(row));
    assert forall|k: int| 0 <= k < out.len() implies #[trigger] out[k] == (if k < at {
        rows[k]
    } else if k == at {
        row
    } else {
        rows[k - 1]
    }) by {}
    assert forall|x: Seq<char>| ids(out).contains(x) <==> ids(rows).insert(row.entry.id@).contains(
        x,
    ) by {
        if ids(out).contains(x) {
            let k = choose|k: int| 0 <= k < out.len() && (#[trigger] out[k]).entry.id@ == x;
            if k < at {
                assert(rows[k].entry.id@ == x);
            } else if k > at {
                assert(rows[k - 1].entry.id@ == x);
            }
        }
        if ids(rows).contains(x) {
            let k = choose|k: int| 0 <= k < rows.len() && (#[trigger] rows[k]).entry.id@ == x;
            if k < at {
                assert(out[k].entry.id@ == x);
            } else {
                assert(out[k + 1].entry.id@ == x);
            }
        }
        if x == row.entry.id@ {
            assert(out[at].entry.id@ == x);
        }
    }
    assert(ids(out) =~= ids(rows).insert(row.entry.id@));
    if newest_first(rows) {
        assert forall|i: int, j: int| 0 <= i < j < out.len() implies rank(#[trigger] out[i]) >= rank(
            #[trigger] out[j],
        ) by {
            if i < at && j > at {
                assert(rank(rows[i]) >= rank(rows[j - 1]));
            } else if i < at && j < at {
                assert(rank(rows[i]) >= rank(rows[j]));
            } else if i > at {
                assert(rank(rows[i - 1]) >= rank(rows[j - 1]));
            }
        }
    }
    if valid_rows(rows) && !has_id(rows, row.entry.id@) && row.entry.account.realm is None {
        assert forall|i: int, j: int| 0 <= i < j < out.len() implies (#[trigger] out[i]).entry.id@
            != (#[trigger] out[j]).entry.id@ by {
            if i < at && j < at {
                assert(rows[i].entry.id@ != rows[j].entry.id@);
            } else if i < at && j > at {
                assert(rows[i].entry.id@ != rows[j - 1].entry.id@);
            } else if i > at {
                assert(rows[i - 1].entry.id@ != rows[j - 1].entry.id@);
            } else if i == at {
                assert(rows[j - 1].entry.id@ != row.entry.id@);
            } else {
                assert(rows[i].entry.id@ != row.entry.id@);
            }
        }
        assert forall|i: int| 0 <= i < out.len() implies (#[trigger] out[i]).entry.account.realm is None by {
            if i < at {
                assert(rows[i].entry.account.realm is None);
            } else if i > at {
                assert(rows[i - 1].entry.account.realm is None);
            }
        }
    }
}

/// Merging rows into others gives the rows of both, newest first where the
/// others were.
pub proof fn lemma_merged(rows: Seq<StoredEntry>, more: Seq<StoredEntry>)
    ensures
        merged(rows, more).len() == rows.len() + more.len(),
        ids(merged(rows, more)) == ids(rows).union(ids(more)),
        newest_first(rows) ==> newest_first(merged(rows, more)),
    decreases more.len(),
{
    if more.len() == 0 {
        assert(ids(more) =~= Set::<Seq<char>>::empty());
        assert(ids(rows).union(ids(more)) =~= ids(rows));
    } else {
        let head = more.drop_last();
        lemma_merged(rows, head);
        lemma_place(merged(rows, head), more.last());
        assert forall|x: Seq<char>| ids(more).contains(x) <==> ids(head).insert(
            more.last().entry.id@,
        ).contains(x) by {
            if ids(more).contains(x) {
                let k = choose|k: int| 0 <= k < more.len() && (#[trigger] more[k]).entry.id@ == x;
                if k < head.len() {
                    assert(head[k].entry.id@ == x);
                }
            }
            if ids(head).contains(x) {
                let k = choose|k: int| 0 <= k < head.len() && (#[trigger] head[k]).entry.id@ == x;
                assert(more[k].entry.id@ == x);
            }
            if x == more.last().entry.id@ {
                assert(more[more.len() - 1].entry.id@ == x);
            }
        }
        assert(ids(merged(rows, more)) =~= ids(rows).union(ids(more)));
    }
}

/// The entries of `rows` that belong to guild `guild`, in the order of `rows`.
pub open spec fn of_guild(rows: Seq<StoredEntry>, guild: i64) -> Seq<StashEntry>
    decreases rows.len(),
{
    if rows.len() == 0 {
        Seq::empty()
    } else if rows.last().guild == guild {
        of_guild(rows.drop_last(), guild).push(rows.last().entry)
    } else {
        of_guild(rows.drop_last(), guild)
    }
}

/// Whether `entry` is older than the cutoff `age_limit`, a Unix time in
/// seconds. Without a cutoff nothing is too old.
pub open spec fn too_old(entry: StashEntry, age_limit: Option<i64>) -> bool {
    age_limit matches Some(cutoff) && entry.time < cutoff
}

/// Whether `n` entries use up `count_limit`. A negative limit is never
/// reached, and neither is an absent one.
pub open spec fn count_reached(n: nat, count_limit: Option<i64>) -> bool {
    count_limit matches Some(count) && n == count
}

/// Whether `kept` is what a scan of `all` from the front hands out: the
/// entries before the first one that is too old, but no more than
/// `count_limit` of them.
pub open spec fn is_scan_of(
    kept: Seq<StashEntry>,
    all: Seq<StashEntry>,
    age_limit: Option<i64>,
    count_limit: Option<i64>,
) -> bool {
    &&& kept.len() <= all.len()
    &&& kept == all.take(kept.len() as int)
    &&& forall|i: int| 0 <= i < kept.len() ==> !too_old(#[trigger] kept[i], age_limit)
    &&& forall|n: nat| n < kept.len() ==> !#[trigger] count_reached(n, count_limit)
    &&& kept.len() < all.len() ==> count_reached(kept.len(), count_limit) || too_old(
        all[kept.len() as int],
        age_limit,
    )
}

/// A scan has one outcome.
pub proof fn law_scan_is_unique(
    one: Seq<StashEntry>,
    other: Seq<StashEntry>,
    all: Seq<StashEntry>,
    age_limit: Option<i64>,
    count_limit: Option<i64>,
)
    requires
        is_scan_of(one, all, age_limit, count_limit),
        is_scan_of(other, all, age_limit, count_limit),
    ensures
        one == other,
{
    if one.len() < other.len() {
        assert(other[one.len() as int] == all[one.len() as int]);
        assert(!count_reached(one.len(), count_limit));
    } else if other.len() < one.len() {
        assert(one[other.len() as int] == all[other.len() as int]);
        assert(!count_reached(other.len(), count_limit));
    }
}

/// With a cutoff, a scan hands out no entry from before it.
pub proof fn law_age_limit_holds(
    kept: Seq<StashEntry>,
    all: Seq<StashEntry>,
    cutoff: i64,
    count_limit: Option<i64>,
)
    requires
        is_scan_of(kept, all, Some(cutoff), count_limit),
    ensures
        forall|i: int| 0 <= i < kept.len() ==> (#[trigger] kept[i]).time >= cutoff,
{
    assert forall|i: int| 0 <= i < kept.len() implies (#[trigger] kept[i]).time >= cutoff by {
        assert(!too_old(kept[i], Some(cutoff)));
    }
}

/// With a count and no cutoff, a scan of entries in falling order of their
/// ids' numbers hands out the `count` entries with the highest numbers, or
/// all where there are fewer: no entry left out has a higher number than
/// one handed out.
pub proof fn law_count_limit_keeps_latest(
    kept: Seq<StashEntry>,
    all: Seq<StashEntry>,
    count: i64,
)
    requires
        is_scan_of(kept, all, None, Some(count)),
        count >= 0,
        in_id_order(all),
    ensures
        kept.len() <= count,
        kept.len() == count || kept.len() == all.len(),
        kept == all.take(kept.len() as int),
        forall|i: int, j: int|
            0 <= i < kept.len() <= j < all.len() ==> id_number_spec((#[trigger] kept[i]).id@)
                >= id_number_spec((#[trigger] all[j]).id@),
{
    if kept.len() > count {
        assert(count_reached(count as nat, Some(count)));
    }
    assert forall|i: int, j: int| 0 <= i < kept.len() <= j < all.len() implies id_number_spec(
        (#[trigger] kept[i]).id@,
    ) >= id_number_spec((#[trigger] all[j]).id@) by {
        assert(kept[i] == all[i]);
    }
}

/// The entries of a guild in a part of the rows are the first entries of
/// that guild in all of them.
pub proof fn lemma_of_guild_prefix(rows: Seq<StoredEntry>, guild: i64, n: int)
    requires
        0 <= n <= rows.len(),
    ensures
        of_guild(rows.take(n), guild).len() <= of_guild(rows, guild).len(),
        of_guild(rows.take(n), guild) == of_guild(rows, guild).take(
            of_guild(rows.take(n), guild).len() as int,
        ),
    decreases rows.len() - n,
{
    if n == rows.len() {
        assert(rows.take(n) == rows);
    } else {
        lemma_of_guild_prefix(rows, guild, n + 1);
        assert(rows.take(n + 1).drop_last() == rows.take(n));
    }
}

/// The entries of a guild among rows that are newest first are entries of
/// rows of that guild, and in falling order of their ids' numbers.
pub proof fn lemma_of_guild_ordered(rows: Seq<StoredEntry>, guild: i64)
    requires
        newest_first(rows),
    ensures
        in_id_order(of_guild(rows, guild)),
        forall|k: int|
            0 <= k < of_guild(rows, guild).len() ==> exists|m: int|
                0 <= m < rows.len() && (#[trigger] rows[m]).guild == guild && rows[m].entry
                    == #[trigger] of_guild(rows, guild)[k],
    decreases rows.len(),
{
    if rows.len() > 0 {
        let head = rows.drop_last();
        let last = rows.last();
        assert(newest_first(head)) by {
            assert forall|i: int, j: int| 0 <= i < j < head.len() implies rank(#[trigger] head[i])
                >= rank(#[trigger] head[j]) by {
                assert(head[i] == rows[i] && head[j] == rows[j]);
            }
        }
        lemma_of_guild_ordered(head, guild);
        let before = of_guild(head, guild);
        let all = of_guild(rows, guild);
        assert forall|k: int| 0 <= k < before.len() implies id_number_spec((#[trigger] before[k]).id@)
            >= rank(last) && exists|m: int|
            0 <= m < rows.len() && (#[trigger] rows[m]).guild == guild && rows[m].entry == before[k] by {
            let m = choose|m: int|
                0 <= m < head.len() && (#[trigger] head[m]).guild == guild && head[m].entry
                    == before[k];
            assert(rows[m] == head[m]);
            assert(rank(rows[m]) >= rank(rows[rows.len() - 1]));
        }
        assert forall|k: int| 0 <= k < all.len() implies exists|m: int|
            0 <= m < rows.len() && (#[trigger] rows[m]).guild == guild && rows[m].entry
                == #[trigger] all[k] by {
            if k < before.len() {
                assert(all[k] == before[k]);
            } else {
                assert(rows[rows.len() - 1].entry == all[k]);
            }
        }
        assert forall|i: int, j: int| 0 <= i < j < all.len() implies id_number_spec(
            (#[trigger] all[i]).id@,
        ) >= id_number_spec((#[trigger] all[j]).id@) by {
            if j < before.len() {
                assert(all[i] == before[i] && all[j] == before[j]);
            } else {
                assert(all[i] == before[i]);
            }
        }
    }
}

/// What a transaction holds: the rows of the store it was begun on, and
/// the rows it has added, which last only if it commits.
#[verifier::ext_equal]
pub struct TransactionView {
    pub committed: Seq<StoredEntry>,
    pub staged: Seq<StoredEntry>,
}

impl TransactionView {
    /// The transaction with these committed and staged rows.
    pub open spec fn of(committed: Seq<StoredEntry>, staged: Seq<StoredEntry>) -> TransactionView {
        TransactionView { committed, staged }
    }

    /// The rows as they will be after a commit: the staged rows merged
    /// into the committed ones.
    pub open spec fn rows(self) -> Seq<StoredEntry> {
        merged(self.committed, self.staged)
    }

    /// Whether a row with the id `id` is there, committed or staged.
    pub open spec fn knows(self, id: Seq<char>) -> bool {
        has_id(self.committed, id) || has_id(self.staged, id)
    }

    /// After inserting one entry: a row for it is staged, unless its id is
    /// known, in which case nothing changes.
    pub open spec fn insert_one(self, guild: i64, entry: StashEntry) -> TransactionView {
        if self.knows(entry.id@) {
            self
        } else {
            TransactionView { staged: self.staged.push(stored_row(guild, entry)), ..self }
        }
    }

    /// After inserting `entries` one by one, from the first to the last.
    pub open spec fn insert(self, guild: i64, entries: Seq<StashEntry>) -> TransactionView
        decreases entries.len(),
    {
        if entries.len() == 0 {
            self
        } else {
            self.insert(guild, entries.drop_last()).insert_one(guild, entries.last())
        }
    }

    /// How many rows inserting `entries` adds.
    pub open spec fn added(self, guild: i64, entries: Seq<StashEntry>) -> int {
        self.insert(guild, entries).staged.len() - self.staged.len()
    }
}

/// The ids of `entries`.
pub open spec fn entry_ids(entries: Seq<StashEntry>) -> Set<Seq<char>> {
    Set::new(|id: Seq<char>| exists|i: int| 0 <= i < entries.len() && (#[trigger] entries[i]).id@ == id)
}

/// Whether no two of `entries` have the same id.
pub open spec fn distinct_entries(entries: Seq<StashEntry>) -> bool {
    forall|i: int, j: int|
        0 <= i < j < entries.len() ==> (#[trigger] entries[i]).id@ != (#[trigger] entries[j]).id@
}

/// The rows that the store keeps for `entries` of guild `guild`.
pub open spec fn stored_rows(guild: i64, entries: Seq<StashEntry>) -> Seq<StoredEntry> {
    Seq::new(entries.len(), |i: int| stored_row(guild, entries[i]))
}

impl TransactionView {
    /// The ids that are there, committed or staged.
    pub open spec fn known_ids(self) -> Set<Seq<char>> {
        Set::new(|id: Seq<char>| self.knows(id))
    }
}

/// The ids of a list of entries are the ids of all but the last, and the id
/// of the last.
pub proof fn lemma_entry_ids_push(entries: Seq<StashEntry>)
    requires
        entries.len() > 0,
    ensures
        entry_ids(entries) == entry_ids(entries.drop_last()).insert(entries.last().id@),
{
    let head = entries.drop_last();
    let id = entries.last().id@;
    assert forall|x: Seq<char>| entry_ids(entries).contains(x) <==> entry_ids(head).insert(
        id,
    ).contains(x) by {
        if entry_ids(entries).contains(x) {
            let i = choose|i: int| 0 <= i < entries.len() && (#[trigger] entries[i]).id@ == x;
            if i < head.len() {
                assert(head[i].id@ == x);
            }
        }
        if entry_ids(head).contains(x) {
            let i = choose|i: int| 0 <= i < head.len() && (#[trigger] head[i]).id@ == x;
            assert(entries[i].id@ == x);
        }
        if x == id {
            assert(entries[entries.len() - 1].id@ == x);
        }
    }
    assert(entry_ids(entries) =~= entry_ids(head).insert(id));
}

/// A part of a list of entries that differ in their ids holds entries that
/// differ in their ids, and their ids are ids of the list.
pub proof fn lemma_distinct_part(entries: Seq<StashEntry>, from: int, to: int)
    requires
        distinct_entries(entries),
        0 <= from <= to <= entries.len(),
    ensures
        distinct_entries(entries.subrange(from, to)),
        entry_ids(entries.subrange(from, to)).subset_of(entry_ids(entries)),
{
    let part = entries.subrange(from, to);
    assert forall|i: int, j: int| 0 <= i < j < part.len() implies (#[trigger] part[i]).id@
        != (#[trigger] part[j]).id@ by {
        assert(part[i] == entries[from + i] && part[j] == entries[from + j]);
    }
    assert forall|x: Seq<char>| entry_ids(part).contains(x) implies entry_ids(entries).contains(
        x,
    ) by {
        let i = choose|i: int| 0 <= i < part.len() && (#[trigger] part[i]).id@ == x;
        assert(entries[from + i].id@ == x);
    }
}

/// Cut in two, a list of entries that differ in their ids gives two such
/// lists that share no id.
pub proof fn lemma_distinct_cut(entries: Seq<StashEntry>, at: int)
    requires
        distinct_entries(entries),
        0 <= at <= entries.len(),
    ensures
        distinct_entries(entries.take(at)),
        distinct_entries(entries.skip(at)),
        entry_ids(entries.take(at)).subset_of(entry_ids(entries)),
        entry_ids(entries.skip(at)).subset_of(entry_ids(entries)),
        entry_ids(entries.take(at)).disjoint(entry_ids(entries.skip(at))),
{
    let front = entries.take(at);
    let back = entries.skip(at);
    lemma_distinct_part(entries, 0, at);
    lemma_distinct_part(entries, at, entries.len() as int);
    assert forall|x: Seq<char>| entry_ids(front).contains(x) implies !entry_ids(back).contains(
        x,
    ) by {
        if entry_ids(back).contains(x) {
            let i = choose|i: int| 0 <= i < front.len() && (#[trigger] front[i]).id@ == x;
            let j = choose|j: int| 0 <= j < back.len() && (#[trigger] back[j]).id@ == x;
            assert(entries[i].id@ == entries[at + j].id@);
        }
    }
}

/// The ids of a list of entries are finitely many, no more than the
/// entries, and as many where the entries differ in their ids.
pub proof fn lemma_entry_ids(entries: Seq<StashEntry>)
    ensures
        entry_ids(entries).finite(),
        entry_ids(entries).len() <= entries.len(),
        distinct_entries(entries) ==> entry_ids(entries).len() == entries.len(),
    decreases entries.len(),
{
    if entries.len() == 0 {
        assert(entry_ids(entries) =~= Set::<Seq<char>>::empty());
    } else {
        let head = entries.drop_last();
        let id = entries.last().id@;
        lemma_entry_ids(head);
        lemma_entry_ids_push(entries);
        if distinct_entries(entries) {
            lemma_distinct_part(entries, 0, entries.len() - 1);
            if entry_ids(head).contains(id) {
                let i = choose|i: int| 0 <= i < head.len() && (#[trigger] head[i]).id@ == id;
                assert(entries[i].id@ == entries[entries.len() - 1].id@);
            }
        }
    }
}

/// Inserting entries leaves the committed rows alone, keeps what was
/// staged in front of what it stages, makes exactly the ids of the entries
/// known in addition, and adds one row for each id that was not known.
pub proof fn lemma_insert(t: TransactionView, guild: i64, entries: Seq<StashEntry>)
    ensures
        t.insert(guild, entries).committed == t.committed,
        t.staged.len() <= t.insert(guild, entries).staged.len(),
        t.insert(guild, entries).staged.take(t.staged.len() as int) == t.staged,
        t.insert(guild, entries).known_ids() == t.known_ids().union(entry_ids(entries)),
        t.added(guild, entries) == entry_ids(entries).difference(t.known_ids()).len(),
    decreases entries.len(),
{
    lemma_entry_ids(entries);
    if entries.len() == 0 {
        assert(entry_ids(entries) =~= Set::<Seq<char>>::empty());
        assert(t.known_ids().union(entry_ids(entries)) =~= t.known_ids());
        assert(entry_ids(entries).difference(t.known_ids()) =~= Set::<Seq<char>>::empty());
        assert(t.staged.take(t.staged.len() as int) == t.staged);
    } else {
        let head = entries.drop_last();
        let last = entries.last();
        let id = last.id@;
        let mid = t.insert(guild, head);
        let end = t.insert(guild, entries);
        lemma_insert(t, guild, head);
        lemma_entry_ids(head);
        lemma_entry_ids_push(entries);
        let new_head = entry_ids(head).difference(t.known_ids());
        let new_all = entry_ids(entries).difference(t.known_ids());
        assert(mid.knows(id) == mid.known_ids().contains(id));
        if mid.knows(id) {
            assert(end == mid);
            assert(end.known_ids() =~= t.known_ids().union(entry_ids(entries)));
            assert(new_all =~= new_head);
        } else {
            let row = stored_row(guild, last);
            assert(end.staged == mid.staged.push(row));
            assert(end.staged.take(t.staged.len() as int) =~= mid.staged.take(t.staged.len() as int));
            assert forall|x: Seq<char>| end.known_ids().contains(x) <==> mid.known_ids().insert(
                id,
            ).contains(x) by {
                if has_id(end.staged, x) {
                    let i = choose|i: int| 0 <= i < end.staged.len() && (#[trigger] end.staged[i]).entry.id@ == x;
                    if i < mid.staged.len() {
                        assert(mid.staged[i].entry.id@ == x);
                    }
                }
                if has_id(mid.staged, x) {
                    let i = choose|i: int| 0 <= i < mid.staged.len() && (#[trigger] mid.staged[i]).entry.id@ == x;
                    assert(end.staged[i].entry.id@ == x);
                }
                if x == id {
                    assert(end.staged[end.staged.len() - 1].entry.id@ == x);
                }
            }
            assert(end.known_ids() =~= t.known_ids().union(entry_ids(entries)));
            assert(new_all =~= new_head.insert(id));
            assert(!new_head.contains(id));
        }
    }
}

/// Inserting entries that differ in their ids, none of which is known,
/// stages one row for each, in their order.
pub proof fn lemma_insert_all_new(t: TransactionView, guild: i64, entries: Seq<StashEntry>)
    requires
        distinct_entries(entries),
        entry_ids(entries).disjoint(t.known_ids()),
    ensures
        t.insert(guild, entries).staged == t.staged + stored_rows(guild, entries),
        t.added(guild, entries) == entries.len(),
{
    lemma_insert(t, guild, entries);
    lemma_entry_ids(entries);
    assert(entry_ids(entries).difference(t.known_ids()) =~= entry_ids(entries));
    lemma_insert_rows(t, guild, entries);
}

proof fn lemma_insert_rows(t: TransactionView, guild: i64, entries: Seq<StashEntry>)
    requires
        distinct_entries(entries),
        entry_ids(entries).disjoint(t.known_ids()),
    ensures
        t.insert(guild, entries).staged == t.staged + stored_rows(guild, entries),
    decreases entries.len(),
{
    if entries.len() == 0 {
        assert(t.staged + stored_rows(guild, entries) =~= t.staged);
    } else {
        let head = entries.drop_last();
        let last = entries.last();
        lemma_distinct_part(entries, 0, entries.len() - 1);
        assert(entry_ids(head).disjoint(t.known_ids())) by {
            assert forall|x: Seq<char>| entry_ids(head).contains(x) implies !t.known_ids().contains(
                x,
            ) by {
                let i = choose|i: int| 0 <= i < head.len() && (#[trigger] head[i]).id@ == x;
                assert(entries[i].id@ == x);
                assert(entry_ids(entries).contains(x));
            }
        }
        lemma_insert_rows(t, guild, head);
        lemma_insert(t, guild, head);
        let mid = t.insert(guild, head);
        assert(entry_ids(entries).contains(last.id@)) by {
            assert(entries[entries.len() - 1].id@ == last.id@);
        }
        assert(!entry_ids(head).contains(last.id@)) by {
            if entry_ids(head).contains(last.id@) {
                let i = choose|i: int| 0 <= i < head.len() && (#[trigger] head[i]).id@ == last.id@;
                assert(entries[i].id@ == entries[entries.len() - 1].id@);
            }
        }
        assert(!mid.known_ids().contains(last.id@));
        assert(!mid.knows(last.id@));
        assert(t.insert(guild, entries).staged =~= t.staged + stored_rows(guild, entries));
    }
}

/// However many of their ids are known already, two pages inserted one
/// after the other add one row for each id of either that was not known,
/// in whichever order they come.
pub proof fn law_insert_counts_new_ids(
    t: TransactionView,
    guild: i64,
    first: Seq<StashEntry>,
    second: Seq<StashEntry>,
)
    ensures
        t.added(guild, first) + t.insert(guild, first).added(guild, second) == entry_ids(
            first,
        ).union(entry_ids(second)).difference(t.known_ids()).len(),
        t.added(guild, first) + t.insert(guild, first).added(guild, second) == t.added(
            guild,
            second,
        ) + t.insert(guild, second).added(guild, first),
        t.insert(guild, first).insert(guild, second).known_ids() == t.insert(guild, second).insert(
            guild,
            first,
        ).known_ids(),
{
    lemma_two_inserts(t, guild, first, second);
    lemma_two_inserts(t, guild, second, first);
    assert(entry_ids(first).union(entry_ids(second)) =~= entry_ids(second).union(entry_ids(first)));
    lemma_insert(t, guild, first);
    lemma_insert(t, guild, second);
    lemma_insert(t.insert(guild, first), guild, second);
    lemma_insert(t.insert(guild, second), guild, first);
    assert(t.insert(guild, first).insert(guild, second).known_ids() =~= t.insert(guild, second).insert(
        guild,
        first,
    ).known_ids());
}

proof fn lemma_two_inserts(
    t: TransactionView,
    guild: i64,
    first: Seq<StashEntry>,
    second: Seq<StashEntry>,
)
    ensures
        t.added(guild, first) + t.insert(guild, first).added(guild, second) == entry_ids(
            first,
        ).union(entry_ids(second)).difference(t.known_ids()).len(),
{
    let a = entry_ids(first);
    let b = entry_ids(second);
    let k = t.known_ids();
    lemma_entry_ids(first);
    lemma_entry_ids(second);
    lemma_insert(t, guild, first);
    lemma_insert(t.insert(guild, first), guild, second);
    let new_a = a.difference(k);
    let new_b = b.difference(k.union(a));
    assert(new_a.disjoint(new_b));
    assert(new_a.union(new_b) =~= a.union(b).difference(k));
    vstd::set_lib::lemma_set_disjoint_lens(new_a, new_b);
}

/// Two pages, each without repeated ids and with no id that is known, of
/// which `k` ids occur in both, add as many rows as they have entries less
/// `k`, in whichever order they are inserted.
pub proof fn law_overlapping_pages(
    t: TransactionView,
    guild: i64,
    first: Seq<StashEntry>,
    second: Seq<StashEntry>,
)
    requires
        distinct_entries(first),
        distinct_entries(second),
        entry_ids(first).disjoint(t.known_ids()),
        entry_ids(second).disjoint(t.known_ids()),
    ensures
        t.added(guild, first) + t.insert(guild, first).added(guild, second) == first.len()
            + second.len() - entry_ids(first).intersect(entry_ids(second)).len(),
        t.added(guild, second) + t.insert(guild, second).added(guild, first) == first.len()
            + second.len() - entry_ids(first).intersect(entry_ids(second)).len(),
{
    let a = entry_ids(first);
    let b = entry_ids(second);
    law_insert_counts_new_ids(t, guild, first, second);
    lemma_entry_ids(first);
    lemma_entry_ids(second);
    assert(a.union(b).difference(t.known_ids()) =~= a.union(b));
    vstd::set_lib::lemma_set_intersect_union_lens(a, b);
}

proof fn lemma_valid_back(front: Seq<StoredEntry>, back: Seq<StoredEntry>)
    requires
        valid_rows(front + back),
    ensures
        valid_rows(back),
{
    let rows = front + back;
    let n = front.len() as int;
    assert forall|a: int, b: int| 0 <= a < b < back.len() implies (#[trigger] back[a]).entry.id@
        != (#[trigger] back[b]).entry.id@ by {
        assert(rows[n + a] == back[a] && rows[n + b] == back[b]);
    }
    assert forall|a: int| 0 <= a < back.len() implies (#[trigger] back[a]).entry.account.realm is None by {
        assert(rows[n + a] == back[a]);
    }
}

fn copy_row(row: &StoredEntry) -> (r: StoredEntry)
    ensures
        r == *row,
{
    StoredEntry { guild: row.guild, entry: row.entry.duplicate() }
}

fn contains_id(rows: &Vec<StoredEntry>, id: &String) -> (r: bool)
    ensures
        r == has_id(rows@, id@),
{
    let mut i: usize = 0;
    while i < rows.len()
        invariant
            i <= rows.len(),
            forall|k: int| 0 <= k < i ==> (#[trigger] rows@[k]).entry.id@ != id@,
        decreases rows.len() - i,
    {
        if rows[i].entry.id == *id {
            return true;
        }
        i += 1;
    }
    false
}

fn store_copy(guild: i64, entry: &StashEntry) -> (r: StoredEntry)
    ensures
        r == stored_row(guild, *entry),
{
    StoredEntry {
        guild,
        entry: StashEntry {
            id: entry.id.clone(),
            time: entry.time,
            league: entry.league.clone(),
            stash: match &entry.stash {
                Some(stash) => Some(stash.clone()),
                None => None,
            },
            item: entry.item.clone(),
            action: entry.action.clone(),
            account: StashAccount { name: entry.account.name.clone(), realm: None },
            x: entry.x,
            y: entry.y,
        },
    }
}

/// The rows that a store holds after `rows` were loaded into it: each in
/// stored form and at its slot, without those whose id an earlier row has.
pub open spec fn loaded(rows: Seq<StoredEntry>) -> Seq<StoredEntry>
    decreases rows.len(),
{
    if rows.len() == 0 {
        Seq::empty()
    } else {
        let before = loaded(rows.drop_last());
        if has_id(before, rows.last().entry.id@) {
            before
        } else {
            place(before, stored_row(rows.last().guild, rows.last().entry))
        }
    }
}

/// Loading rows that a store may hold and that are newest first gives a
/// store with just these rows, in their order.
pub proof fn law_load_keeps_a_store(rows: Seq<StoredEntry>)
    requires
        valid_rows(rows),
        newest_first(rows),
    ensures
        loaded(rows) == rows,
    decreases rows.len(),
{
    if rows.len() > 0 {
        let head = rows.drop_last();
        let last = rows.last();
        assert(valid_rows(head) && newest_first(head)) by {
            assert forall|i: int| 0 <= i < head.len() implies head[i] == rows[i] by {}
        }
        law_load_keeps_a_store(head);
        assert(!has_id(head, last.entry.id@)) by {
            if has_id(head, last.entry.id@) {
                let k = choose|k: int| 0 <= k < head.len() && (#[trigger] head[k]).entry.id@ == last.entry.id@;
                assert(rows[k].entry.id@ == rows[rows.len() - 1].entry.id@);
            }
        }
        assert(rows[rows.len() - 1].entry.account.realm is None);
        assert(stored_row(last.guild, last.entry) == last);
        if head.len() > 0 {
            assert(rank(rows[head.len() - 1]) >= rank(rows[rows.len() - 1]));
            assert(head.last() == rows[head.len() - 1]);
        }
        assert(slot(head, rank(last)) == head.len());
        assert(place(head, last) =~= rows);
    }
}

fn place_row(rows: &mut Vec<StoredEntry>, row: StoredEntry)
    ensures
        final(rows)@ == place(old(rows)@, row),
{
    let number = id_number(row.entry.id.as_str());
    let mut at: usize = rows.len();
    proof {
        assert(rows@.take(rows.len() as int) == rows@);
    }
    while at > 0 && id_number(rows[at - 1].entry.id.as_str()) < number
        invariant
            at <= rows.len(),
            number == rank(row),
            slot(rows@, rank(row)) == slot(rows@.take(at as int), rank(row)),
        decreases at,
    {
        proof {
            assert(rows@.take(at as int).drop_last() == rows@.take(at - 1));
        }
        at -= 1;
    }
    proof {
        if at > 0 {
            assert(rows@.take(at as int).last() == rows@[at - 1]);
        }
    }
    rows.insert(at, row);
}

/// The store: one row per entry id, held newest first, which is in falling
/// order of the ids' numbers.
#[derive(Debug)]
pub struct Storage {
    rows: Vec<StoredEntry>,
}

impl View for Storage {
    type V = Seq<StoredEntry>;

    closed spec fn view(&self) -> Seq<StoredEntry> {
        self.rows@
    }
}

/// An open transaction on a store. Dropping it without a commit leaves the
/// store as it was.
#[derive(Debug)]
pub struct InsertTransaction {
    committed: Vec<StoredEntry>,
    staged: Vec<StoredEntry>,
}

impl View for InsertTransaction {
    type V = TransactionView;

    closed spec fn view(&self) -> TransactionView {
        TransactionView { committed: self.committed@, staged: self.staged@ }
    }
}

impl Storage {
    #[verifier::type_invariant]
    spec fn inv(self) -> bool {
        valid_rows(self@) && newest_first(self@)
    }

    /// An empty store.
    pub fn new() -> (r: Storage)
        ensures
            r@ == Seq::<StoredEntry>::empty(),
    {
        Storage { rows: Vec::new() }
    }

    /// A store that holds `rows`, each in stored form, newest first,
    /// without those whose id an earlier row has.
    pub fn load(rows: Vec<StoredEntry>) -> (r: Storage)
        ensures
            r@ == loaded(rows@),
            valid_rows(r@),
            newest_first(r@),
    {
        let mut kept: Vec<StoredEntry> = Vec::new();
        let mut i: usize = 0;
        while i < rows.len()
            invariant
                i <= rows.len(),
                kept@ == loaded(rows@.take(i as int)),
                valid_rows(kept@),
                newest_first(kept@),
            decreases rows.len() - i,
        {
            proof {
                assert(rows@.take(i + 1).drop_last() == rows@.take(i as int));
            }
            if !contains_id(&kept, &rows[i].entry.id) {
                let row = store_copy(rows[i].guild, &rows[i].entry);
                proof {
                    lemma_place(kept@, row);
                }
                place_row(&mut kept, row);
            }
            i += 1;
        }
        proof {
            assert(rows@.take(i as int) == rows@);
        }
        Storage { rows: kept }
    }

    /// The rows of the store, newest first.
    pub fn rows(&self) -> (r: &Vec<StoredEntry>)
        ensures
            r@ == self@,
            valid_rows(self@),
            newest_first(self@),
    {
        proof {
            use_type_invariant(self);
        }
        &self.rows
    }

    /// Opens a transaction on the store.
    pub fn begin_insert(self) -> (txn: InsertTransaction)
        ensures
            txn@.committed == self@,
            txn@.staged == Seq::<StoredEntry>::empty(),
    {
        proof {
            use_type_invariant(&self);
        }
        let Storage { rows } = self;
        proof {
            assert(Seq::<StoredEntry>::empty() + rows@ == rows@);
        }
        InsertTransaction { committed: rows, staged: Vec::new() }
    }

    /// The entries of guild `guildid`, newest first, up to the first entry
    /// older than `age_limit`, a Unix time in seconds, and at most
    /// `count_limit` of them. A negative count does not limit.
    pub fn fetch(&self, guildid: i64, age_limit: Option<i64>, count_limit: Option<i64>) -> (r:
        StashEntries)
        ensures
            is_scan_of(r.entries@, of_guild(self@, guildid), age_limit, count_limit),
            in_id_order(of_guild(self@, guildid)),
            in_id_order(r.entries@),
    {
        proof {
            use_type_invariant(self);
            lemma_of_guild_ordered(self@, guildid);
        }
        let r = self.scan(guildid, age_limit, count_limit);
        proof {
            let all = of_guild(self@, guildid);
            assert forall|i: int, j: int| 0 <= i < j < r.entries@.len() implies id_number_spec(
                (#[trigger] r.entries@[i]).id@,
            ) >= id_number_spec((#[trigger] r.entries@[j]).id@) by {
                assert(r.entries@[i] == all[i] && r.entries@[j] == all[j]);
            }
        }
        r
    }

    fn scan(&self, guildid: i64, age_limit: Option<i64>, count_limit: Option<i64>) -> (r:
        StashEntries)
        ensures
            is_scan_of(r.entries@, of_guild(self@, guildid), age_limit, count_limit),
    {
        let ghost all = of_guild(self@, guildid);
        let mut entries: Vec<StashEntry> = Vec::new();
        let mut i: usize = 0;
        while i < self.rows.len()
            invariant
                i <= self.rows.len(),
                all == of_guild(self.rows@, guildid),
                entries@ == of_guild(self.rows@.take(i as int), guildid),
                forall|k: int| 0 <= k < entries.len() ==> !too_old(#[trigger] entries@[k], age_limit),
                forall|n: nat| n < entries.len() ==> !#[trigger] count_reached(n, count_limit),
            decreases self.rows.len() - i,
        {
            let row = &self.rows[i];
            proof {
                assert(self.rows@.take(i + 1).drop_last() == self.rows@.take(i as int));
                lemma_of_guild_prefix(self.rows@, guildid, i as int);
                lemma_of_guild_prefix(self.rows@, guildid, i + 1);
            }
            if row.guild == guildid {
                let full = match count_limit {
                    Some(count) => count >= 0 && entries.len() as u64 == count as u64,
                    None => false,
                };
                let old = match age_limit {
                    Some(cutoff) => cutoff > 0 && row.entry.time < cutoff as u64,
                    None => false,
                };
                if full || old {
                    proof {
                        let next = of_guild(self.rows@.take(i + 1), guildid);
                        assert(next == entries@.push(row.entry));
                        assert(all.take(next.len() as int)[entries.len() as int] == row.entry);
                        assert(full == count_reached(entries.len() as nat, count_limit));
                        assert(old == too_old(row.entry, age_limit));
                    }
                    return StashEntries { entries };
                }
                entries.push(row.entry.duplicate());
            }
            i += 1;
        }
        proof {
            assert(self.rows@.take(i as int) == self.rows@);
            assert(all.take(all.len() as int) == all);
        }
        StashEntries { entries }
    }
}

impl InsertTransaction {
    #[verifier::type_invariant]
    spec fn inv(self) -> bool {
        valid_rows(self@.staged + self@.committed) && newest_first(self@.committed)
    }

    /// Inserts `entries` for guild `guildid`, one by one. An entry whose id
    /// is already there, committed or staged, is passed over. Returns how
    /// many rows were added.
    pub fn insert(&mut self, guildid: i64, entries: &[StashEntry]) -> (added: usize)
        ensures
            final(self)@ == old(self)@.insert(guildid, entries@),
            added == old(self)@.added(guildid, entries@),
            added <= entries.len(),
    {
        proof {
            use_type_invariant(&*self);
        }
        let ghost before = self@;
        let mut taken = InsertTransaction { committed: Vec::new(), staged: Vec::new() };
        core::mem::swap(&mut taken, self);
        let InsertTransaction { committed, mut staged } = taken;
        let mut added: usize = 0;
        let mut i: usize = 0;
        while i < entries.len()
            invariant
                i <= entries.len(),
                before.committed == committed@,
                newest_first(committed@),
                TransactionView::of(committed@, staged@) == before.insert(
                    guildid,
                    entries@.take(i as int),
                ),
                valid_rows(staged@ + committed@),
                added == staged.len() - before.staged.len(),
                added <= i,
            decreases entries.len() - i,
        {
            proof {
                assert(entries@.take(i + 1).drop_last() == entries@.take(i as int));
            }
            let entry = &entries[i];
            if !contains_id(&committed, &entry.id) && !contains_id(&staged, &entry.id) {
                let ghost rows = staged@ + committed@;
                staged.push(store_copy(guildid, entry));
                assert(added < staged.len());
                added += 1;
                proof {
                    let next = staged@ + committed@;
                    assert forall|a: int, b: int| 0 <= a < b < next.len() implies (#[trigger] next[a]).entry.id@
                        != (#[trigger] next[b]).entry.id@ by {
                        let n = staged.len() - 1;
                        if a < n && b < n {
                            assert(next[a] == rows[a] && next[b] == rows[b]);
                        } else if a < n && b > n {
                            assert(next[a] == rows[a] && next[b] == rows[b - 1]);
                        } else if a < n && b == n {
                            assert(next[a] == staged@[a]);
                        } else if a == n {
                            assert(next[b] == committed@[b - n - 1]);
                        } else {
                            assert(next[a] == rows[a - 1] && next[b] == rows[b - 1]);
                        }
                    }
                    assert forall|a: int| 0 <= a < next.len() implies (#[trigger] next[a]).entry.account.realm is None by {
                        let n = staged.len() - 1;
                        if a < n {
                            assert(next[a] == rows[a]);
                        } else if a > n {
                            assert(next[a] == rows[a - 1]);
                        }
                    }
                }
            }
            i += 1;
        }
        proof {
            assert(entries@.take(i as int) == entries@);
        }
        *self = InsertTransaction { committed, staged };
        added
    }

    /// The rows added so far, in the order in which they were inserted.
    pub fn staged(&self) -> (r: &Vec<StoredEntry>)
        ensures
            r@ == self@.staged,
    {
        &self.staged
    }

    /// Ends the transaction and keeps what it added: the store then holds
    /// the added rows among the rows it held before, each at its slot.
    pub fn commit(self) -> (r: Storage)
        ensures
            r@ == self@.rows(),
            valid_rows(r@),
            newest_first(r@),
    {
        proof {
            use_type_invariant(&self);
        }
        let InsertTransaction { committed, staged } = self;
        let ghost base = committed@;
        let ghost both = staged@ + committed@;
        let mut rows = committed;
        proof {
            lemma_valid_back(staged@, base);
        }
        let mut i: usize = 0;
        while i < staged.len()
            invariant
                i <= staged.len(),
                both == staged@ + base,
                valid_rows(both),
                rows@ == merged(base, staged@.take(i as int)),
                valid_rows(rows@),
                newest_first(rows@),
            decreases staged.len() - i,
        {
            let row = copy_row(&staged[i]);
            proof {
                let done = staged@.take(i as int);
                assert(staged@.take(i + 1).drop_last() == done);
                lemma_merged(base, done);
                assert(both[i as int] == row);
                if has_id(rows@, row.entry.id@) {
                    assert(ids(rows@).contains(row.entry.id@));
                    assert(ids(base).contains(row.entry.id@) || ids(done).contains(row.entry.id@));
                    if has_id(base, row.entry.id@) {
                        let k = choose|k: int| 0 <= k < base.len() && (#[trigger] base[k]).entry.id@ == row.entry.id@;
                        assert(both[staged@.len() + k] == base[k]);
                    } else {
                        let k = choose|k: int| 0 <= k < done.len() && (#[trigger] done[k]).entry.id@ == row.entry.id@;
                        assert(both[k] == done[k]);
                    }
                }
                lemma_place(rows@, row);
            }
            place_row(&mut rows, row);
            i += 1;
        }
        proof {
            assert(staged@.take(i as int) == staged@);
        }
        Storage { rows }
    }

    /// Ends the transaction and drops what it added: the store is as it was
    /// when the transaction began.
    pub fn abort(self) -> (r: Storage)
        ensures
            r@ == self@.committed,
    {
        proof {
            use_type_invariant(&self);
        }
        let InsertTransaction { committed, staged } = self;
        proof {
            lemma_valid_back(staged@, committed@);
        }
        Storage { rows: committed }
    }
}

} // verus!
