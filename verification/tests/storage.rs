use stash_snitch::api::{StashAccount, StashEntry};
use stash_snitch::storage::{id_number, Storage, StoredEntry, ID_NUMBER_MAX};

fn entry(id: &str, time: u64) -> StashEntry {
    StashEntry {
        id: id.to_string(),
        time,
        league: "Standard".to_string(),
        stash: Some("Currency".to_string()),
        item: "Chaos Orb".to_string(),
        action: "added".to_string(),
        account: StashAccount { name: "someone".to_string(), realm: Some("pc".to_string()) },
        x: Some(3),
        y: None,
    }
}

fn stored(id: &str, time: u64) -> StashEntry {
    let mut e = entry(id, time);
    e.account.realm = None;
    e
}

fn page(ids: &[&str]) -> Vec<StashEntry> {
    ids.iter().map(|id| entry(id, id.parse::<u64>().unwrap() * 10)).collect()
}

fn ids_of(storage: &Storage) -> Vec<String> {
    storage.rows().iter().map(|row| row.entry.id.clone()).collect()
}

fn store_of_unordered(guild: i64, ids: &[&str]) -> Storage {
    let mut txn = Storage::new().begin_insert();
    let entries: Vec<StashEntry> = ids.iter().map(|id| entry(id, 5)).collect();
    assert_eq!(txn.insert(guild, &entries), ids.len());
    txn.commit()
}

fn store_of(guild: i64, ids: &[&str]) -> Storage {
    let mut txn = Storage::new().begin_insert();
    assert_eq!(txn.insert(guild, &page(ids)), ids.len());
    let storage = txn.commit();
    assert_eq!(ids_of(&storage), ids.iter().map(|id| id.to_string()).collect::<Vec<_>>());
    storage
}

#[test]
fn a_new_store_is_empty() {
    let storage = Storage::new();
    assert!(storage.rows().is_empty());
    assert!(storage.fetch(1, None, None).entries.is_empty());
}

#[test]
fn insert_adds_one_row_for_each_new_id() {
    let mut txn = Storage::new().begin_insert();
    assert_eq!(txn.insert(1, &page(&["5", "4", "3"])), 3);
    assert_eq!(txn.staged().len(), 3);
    assert_eq!(txn.insert(1, &[]), 0);
    let storage = txn.commit();
    assert_eq!(ids_of(&storage), vec!["5", "4", "3"]);
}

#[test]
fn insert_passes_over_known_ids() {
    let mut txn = store_of(1, &["100", "99", "98"]).begin_insert();
    assert_eq!(txn.insert(1, &page(&["100", "99", "97", "96"])), 2);
    assert_eq!(txn.insert(1, &page(&["97", "96"])), 0);
    let storage = txn.commit();
    assert_eq!(ids_of(&storage), vec!["100", "99", "98", "97", "96"]);
}

#[test]
fn insert_passes_over_an_id_repeated_in_the_page() {
    let mut txn = Storage::new().begin_insert();
    assert_eq!(txn.insert(1, &page(&["7", "7", "6", "7"])), 2);
    assert_eq!(ids_of(&txn.commit()), vec!["7", "6"]);
}

#[test]
fn a_known_id_keeps_its_first_row() {
    let mut txn = Storage::new().begin_insert();
    assert_eq!(txn.insert(1, &[entry("7", 70)]), 1);
    assert_eq!(txn.insert(2, &[entry("7", 999)]), 0);
    let storage = txn.commit();
    assert_eq!(storage.rows(), &vec![StoredEntry { guild: 1, entry: stored("7", 70) }]);
    assert!(storage.fetch(2, None, None).entries.is_empty());
}

#[test]
fn the_store_does_not_keep_the_realm() {
    let mut txn = Storage::new().begin_insert();
    txn.insert(1, &[entry("7", 70)]);
    let storage = txn.commit();
    assert_eq!(storage.fetch(1, None, None).entries, vec![stored("7", 70)]);
    assert_eq!(storage.rows()[0].entry.account.realm, None);
    assert_eq!(storage.rows()[0].entry.account.name, "someone");
}

#[test]
fn overlapping_pages_add_their_union_in_either_order() {
    let first = page(&["10", "9", "8", "7"]);
    let second = page(&["8", "7", "6"]);
    let overlap = 2;

    let mut txn = Storage::new().begin_insert();
    let added = txn.insert(1, &first) + txn.insert(1, &second);
    assert_eq!(added, first.len() + second.len() - overlap);
    let mut one: Vec<String> = ids_of(&txn.commit());

    let mut txn = Storage::new().begin_insert();
    let added = txn.insert(1, &second) + txn.insert(1, &first);
    assert_eq!(added, first.len() + second.len() - overlap);
    let mut other: Vec<String> = ids_of(&txn.commit());

    one.sort();
    other.sort();
    assert_eq!(one, other);
    assert_eq!(one, vec!["10", "6", "7", "8", "9"]);
}

#[test]
fn abort_leaves_the_store_as_it_was() {
    let storage = store_of(1, &["3", "2", "1"]);
    let before = storage.rows().clone();
    let mut txn = storage.begin_insert();
    assert_eq!(txn.insert(1, &page(&["5", "4", "3"])), 2);
    let storage = txn.abort();
    assert_eq!(storage.rows(), &before);
}

#[test]
fn id_number_is_what_the_leading_digits_write() {
    assert_eq!(id_number("0"), 0);
    assert_eq!(id_number("100"), 100);
    assert_eq!(id_number("000123"), 123);
    assert_eq!(id_number("98abc7"), 98);
    assert_eq!(id_number("3214567890"), 3_214_567_890);
    assert_eq!(id_number("9223372036854775806"), ID_NUMBER_MAX - 1);
}

#[test]
fn id_number_is_zero_without_leading_digits() {
    for id in ["", "abc", "-5", "+5", " 5", "x9", "٣"] {
        assert_eq!(id_number(id), 0, "number of {:?}", id);
    }
}

#[test]
fn id_number_is_capped() {
    assert_eq!(ID_NUMBER_MAX, i64::MAX as u64);
    assert_eq!(id_number("9223372036854775807"), ID_NUMBER_MAX);
    assert_eq!(id_number("9223372036854775808"), ID_NUMBER_MAX);
    assert_eq!(id_number("18446744073709551616"), ID_NUMBER_MAX);
    assert_eq!(id_number("99999999999999999999999999999999999999999999"), ID_NUMBER_MAX);
    assert_eq!(id_number("99999999999999999999999999999999999999999999x"), ID_NUMBER_MAX);
}

#[test]
fn rows_are_held_by_number_and_not_by_text() {
    let storage = store_of_unordered(1, &["99", "100", "9", "1000", "98"]);
    assert_eq!(ids_of(&storage), vec!["1000", "100", "99", "98", "9"]);
}

#[test]
fn rows_with_the_same_number_keep_the_order_in_which_they_came() {
    let storage = store_of_unordered(1, &["7", "b", "07", "a", "7x", "8"]);
    assert_eq!(ids_of(&storage), vec!["8", "7", "07", "7x", "b", "a"]);
}

#[test]
fn commit_puts_each_added_row_at_its_slot() {
    let mut txn = store_of(1, &["8", "4", "2"]).begin_insert();
    assert_eq!(txn.insert(1, &page(&["3", "9", "5", "1"])), 4);
    assert_eq!(ids_of(&txn.commit()), vec!["9", "8", "5", "4", "3", "2", "1"]);
}

#[test]
fn commit_puts_the_added_rows_first() {
    let mut txn = store_of(1, &["3", "2", "1"]).begin_insert();
    assert_eq!(txn.insert(4, &page(&["5", "4"])), 2);
    assert_eq!(
        txn.staged(),
        &vec![
            StoredEntry { guild: 4, entry: stored("5", 50) },
            StoredEntry { guild: 4, entry: stored("4", 40) },
        ]
    );
    assert_eq!(ids_of(&txn.commit()), vec!["5", "4", "3", "2", "1"]);
}

#[test]
fn load_keeps_the_first_row_of_each_id() {
    let rows = vec![
        StoredEntry { guild: 1, entry: entry("9", 90) },
        StoredEntry { guild: 2, entry: entry("8", 80) },
        StoredEntry { guild: 3, entry: entry("9", 1) },
        StoredEntry { guild: 1, entry: entry("7", 70) },
    ];
    let storage = Storage::load(rows);
    assert_eq!(
        storage.rows(),
        &vec![
            StoredEntry { guild: 1, entry: stored("9", 90) },
            StoredEntry { guild: 2, entry: stored("8", 80) },
            StoredEntry { guild: 1, entry: stored("7", 70) },
        ]
    );
}

#[test]
fn loading_the_rows_of_a_store_gives_the_store_again() {
    let storage = store_of_unordered(1, &["7", "b", "07", "a", "7x", "8", "100"]);
    let again = Storage::load(storage.rows().clone());
    assert_eq!(again.rows(), storage.rows());
}

#[test]
fn load_puts_the_rows_newest_first() {
    let rows = vec![
        StoredEntry { guild: 1, entry: entry("7", 70) },
        StoredEntry { guild: 1, entry: entry("10", 100) },
        StoredEntry { guild: 1, entry: entry("9", 90) },
    ];
    assert_eq!(ids_of(&Storage::load(rows)), vec!["10", "9", "7"]);
}

#[test]
fn fetch_hands_out_the_entries_of_the_guild_newest_first() {
    let mut txn = Storage::new().begin_insert();
    txn.insert(1, &page(&["5"]));
    txn.insert(2, &page(&["7", "6"]));
    txn.insert(1, &page(&["8", "9"]));
    let storage = txn.commit();
    assert_eq!(
        storage.fetch(1, None, None).entries,
        vec![stored("9", 90), stored("8", 80), stored("5", 50)]
    );
    assert_eq!(storage.fetch(2, None, None).entries, vec![stored("7", 70), stored("6", 60)]);
    assert!(storage.fetch(3, None, None).entries.is_empty());
}

#[test]
fn fetch_with_a_count_hands_out_the_first_entries() {
    let storage = store_of(1, &["9", "8", "7", "6", "5", "4", "3"]);
    let got: Vec<String> =
        storage.fetch(1, None, Some(5)).entries.into_iter().map(|e| e.id).collect();
    assert_eq!(got, vec!["9", "8", "7", "6", "5"]);
    assert_eq!(storage.fetch(1, None, Some(7)).entries.len(), 7);
    assert_eq!(storage.fetch(1, None, Some(100)).entries.len(), 7);
    assert_eq!(storage.fetch(1, None, Some(1)).entries, vec![stored("9", 90)]);
    assert!(storage.fetch(1, None, Some(0)).entries.is_empty());
}

#[test]
fn fetch_with_a_negative_count_is_not_limited() {
    let storage = store_of(1, &["9", "8", "7"]);
    assert_eq!(storage.fetch(1, None, Some(-1)).entries.len(), 3);
    assert_eq!(storage.fetch(1, None, Some(i64::MIN)).entries.len(), 3);
}

#[test]
fn fetch_with_a_cutoff_hands_out_nothing_older() {
    let storage = store_of(1, &["9", "8", "7", "6"]);
    let got = storage.fetch(1, Some(75), None).entries;
    assert_eq!(got, vec![stored("9", 90), stored("8", 80)]);
    assert!(got.iter().all(|e| e.time >= 75));
    assert_eq!(storage.fetch(1, Some(80), None).entries.len(), 2);
    assert_eq!(storage.fetch(1, Some(81), None).entries.len(), 1);
    assert_eq!(storage.fetch(1, Some(91), None).entries.len(), 0);
    assert_eq!(storage.fetch(1, Some(0), None).entries.len(), 4);
    assert_eq!(storage.fetch(1, Some(-5), None).entries.len(), 4);
    assert_eq!(storage.fetch(1, Some(i64::MIN), None).entries.len(), 4);
}

#[test]
fn fetch_with_a_count_hands_out_the_latest_whatever_the_order_of_arrival() {
    let storage = store_of_unordered(1, &["3", "11", "7", "10", "9", "8", "12"]);
    let got: Vec<String> =
        storage.fetch(1, None, Some(5)).entries.into_iter().map(|e| e.id).collect();
    assert_eq!(got, vec!["12", "11", "10", "9", "8"]);
}

#[test]
fn fetch_stops_at_the_first_entry_that_is_too_old() {
    let mut txn = Storage::new().begin_insert();
    txn.insert(1, &[entry("9", 90), entry("8", 10), entry("7", 70)]);
    let storage = txn.commit();
    assert_eq!(storage.fetch(1, Some(50), None).entries, vec![stored("9", 90)]);
}

#[test]
fn fetch_stops_at_whichever_limit_comes_first() {
    let storage = store_of(1, &["9", "8", "7", "6"]);
    assert_eq!(storage.fetch(1, Some(75), Some(1)).entries.len(), 1);
    assert_eq!(storage.fetch(1, Some(75), Some(2)).entries.len(), 2);
    assert_eq!(storage.fetch(1, Some(75), Some(3)).entries.len(), 2);
    assert_eq!(storage.fetch(1, Some(65), Some(3)).entries.len(), 3);
}

#[test]
fn fetch_takes_a_time_beyond_the_signed_range_as_late() {
    let mut txn = Storage::new().begin_insert();
    txn.insert(1, &[entry("9", u64::MAX), entry("8", 1 << 63)]);
    let storage = txn.commit();
    assert_eq!(storage.fetch(1, Some(i64::MAX), None).entries.len(), 2);
}
