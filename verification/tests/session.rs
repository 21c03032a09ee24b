use stash_snitch::api::{StashAccount, StashEntries, StashEntry};
use stash_snitch::session::IngestionSession;
use stash_snitch::storage::Storage;

fn entry(id: u64) -> StashEntry {
    StashEntry {
        id: id.to_string(),
        time: 1_600_000_000 + id,
        league: "Standard".to_string(),
        stash: None,
        item: "Exalted Orb".to_string(),
        action: "removed".to_string(),
        account: StashAccount { name: "someone".to_string(), realm: None },
        x: None,
        y: None,
    }
}

/// A remote history, the latest entry first, that hands out pages of `size` entries.
struct Remote {
    log: Vec<StashEntry>,
    size: usize,
    requests: Vec<Option<(String, u64)>>,
}

impl Remote {
    fn new(ids: &[u64], size: usize) -> Remote {
        Remote { log: ids.iter().map(|id| entry(*id)).collect(), size, requests: Vec::new() }
    }

    fn fetch(&mut self, anchor: Option<&(String, u64)>) -> StashEntries {
        self.requests.push(anchor.cloned());
        let start = match anchor {
            None => 0,
            Some((id, time)) => {
                let at = self.log.iter().position(|e| &e.id == id).expect("anchor is in the log");
                assert_eq!(self.log[at].time, *time);
                at + 1
            }
        };
        let end = (start + self.size).min(self.log.len());
        StashEntries { entries: self.log[start..end].to_vec() }
    }
}

fn run(storage: Storage, remote: &mut Remote) -> (Storage, usize) {
    let mut session = IngestionSession::begin(storage, 1);
    loop {
        let page = remote.fetch(session.anchor());
        if !session.accept(&page) {
            break;
        }
    }
    assert!(session.finished());
    session.commit()
}

fn store_of(ids: &[u64]) -> Storage {
    let mut remote = Remote::new(ids, ids.len().max(1));
    let (storage, added) = run(Storage::new(), &mut remote);
    assert_eq!(added, ids.len());
    storage
}

fn sorted_ids(storage: &Storage) -> Vec<u64> {
    let mut ids: Vec<u64> = storage.rows().iter().map(|r| r.entry.id.parse().unwrap()).collect();
    ids.sort();
    ids.reverse();
    ids
}

#[test]
fn a_session_starts_at_the_head() {
    let session = IngestionSession::begin(Storage::new(), 1);
    assert_eq!(session.anchor(), None);
    assert!(!session.finished());
    assert_eq!(session.added_count(), 0);
}

#[test]
fn an_empty_page_ends_the_walk() {
    let mut session = IngestionSession::begin(Storage::new(), 1);
    assert!(!session.accept(&StashEntries { entries: vec![] }));
    assert!(session.finished());
    let (storage, added) = session.commit();
    assert_eq!(added, 0);
    assert!(storage.rows().is_empty());
}

#[test]
fn a_new_page_moves_the_anchor_to_its_last_entry() {
    let mut session = IngestionSession::begin(Storage::new(), 1);
    assert!(session.accept(&StashEntries { entries: vec![entry(9), entry(8), entry(7)] }));
    assert_eq!(session.anchor(), Some(&("7".to_string(), 1_600_000_007)));
    assert_eq!(session.added_count(), 3);
    assert!(!session.finished());
}

#[test]
fn the_walk_exhausts_a_history_that_is_all_new() {
    let ids = [50, 49, 48, 47, 46];
    let mut remote = Remote::new(&ids, 2);
    let (storage, added) = run(Storage::new(), &mut remote);
    assert_eq!(added, 5);
    assert_eq!(storage.rows().len(), 5);
    assert_eq!(sorted_ids(&storage), vec![50, 49, 48, 47, 46]);
    // Three pages with entries, and the empty page that ends the walk.
    assert_eq!(
        remote.requests,
        vec![
            None,
            Some(("49".to_string(), 1_600_000_049)),
            Some(("47".to_string(), 1_600_000_047)),
            Some(("46".to_string(), 1_600_000_046)),
        ]
    );
}

#[test]
fn the_walk_exhausts_a_history_of_full_pages() {
    let mut remote = Remote::new(&[8, 7, 6, 5, 4, 3], 3);
    let (storage, added) = run(Storage::new(), &mut remote);
    assert_eq!(added, 6);
    assert_eq!(sorted_ids(&storage), vec![8, 7, 6, 5, 4, 3]);
    assert_eq!(remote.requests.len(), 3);
}

#[test]
fn a_second_run_adds_nothing() {
    let ids = [50, 49, 48, 47, 46];
    let mut remote = Remote::new(&ids, 2);
    let (storage, added) = run(Storage::new(), &mut remote);
    assert_eq!(added, 5);
    let before = storage.rows().clone();
    let mut remote = Remote::new(&ids, 2);
    let (storage, added) = run(storage, &mut remote);
    assert_eq!(added, 0);
    assert_eq!(storage.rows(), &before);
    assert_eq!(remote.requests, vec![None]);
}

#[test]
fn the_walk_stops_at_the_first_page_with_a_known_entry() {
    // Entries 44 and 43 are unseen, but the page before them holds the known 46.
    let storage = store_of(&[46]);
    let mut remote = Remote::new(&[50, 49, 48, 47, 46, 45, 44, 43], 2);
    let mut remote_requests = 0;
    let (storage, added) = {
        let result = run(storage, &mut remote);
        remote_requests += remote.requests.len();
        result
    };
    assert_eq!(added, 5);
    assert_eq!(sorted_ids(&storage), vec![50, 49, 48, 47, 46, 45]);
    assert_eq!(remote_requests, 3);
}

#[test]
fn a_page_that_overlaps_the_store_is_merged_and_ends_the_walk() {
    let storage = store_of(&[100, 99, 98]);
    let mut remote = Remote::new(&[100, 99, 97, 96, 95, 94], 4);
    let mut session = IngestionSession::begin(storage, 1);
    let page = remote.fetch(session.anchor());
    assert_eq!(page.entries.len(), 4);
    assert!(!session.accept(&page));
    assert!(session.finished());
    assert_eq!(session.added_count(), 2);
    assert_eq!(session.anchor(), None);
    let (storage, added) = session.commit();
    assert_eq!(added, 2);
    assert_eq!(sorted_ids(&storage), vec![100, 99, 98, 97, 96]);
    assert_eq!(remote.requests, vec![None]);
}

#[test]
fn a_finished_session_takes_nothing_in() {
    let mut session = IngestionSession::begin(store_of(&[5]), 1);
    assert!(!session.accept(&StashEntries { entries: vec![entry(5)] }));
    assert!(!session.accept(&StashEntries { entries: vec![entry(4), entry(3)] }));
    assert!(session.finished());
    assert_eq!(session.added_count(), 0);
    let (storage, _) = session.commit();
    assert_eq!(sorted_ids(&storage), vec![5]);
}

#[test]
fn an_aborted_session_leaves_the_store_as_it_was() {
    let storage = store_of(&[5, 4]);
    let before = storage.rows().clone();
    let mut session = IngestionSession::begin(storage, 1);
    assert!(session.accept(&StashEntries { entries: vec![entry(9), entry(8)] }));
    assert_eq!(session.added_count(), 2);
    let storage = session.abort();
    assert_eq!(storage.rows(), &before);
}

#[test]
fn new_entries_at_the_head_are_found_by_the_next_run() {
    let storage = store_of(&[46, 45, 44]);
    let mut remote = Remote::new(&[50, 49, 48, 47, 46, 45, 44], 3);
    let (storage, added) = run(storage, &mut remote);
    assert_eq!(added, 4);
    assert_eq!(sorted_ids(&storage), vec![50, 49, 48, 47, 46, 45, 44]);
    assert_eq!(remote.requests.len(), 2);
    let ids: Vec<String> = storage.rows().iter().map(|r| r.entry.id.clone()).collect();
    assert_eq!(ids, vec!["50", "49", "48", "47", "46", "45", "44"]);
    let latest: Vec<String> =
        storage.fetch(1, None, Some(5)).entries.into_iter().map(|e| e.id).collect();
    assert_eq!(latest, vec!["50", "49", "48", "47", "46"]);
}
