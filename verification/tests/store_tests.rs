use playlist_store::document::PlaylistDocument;
use playlist_store::outcome::{Outcome, StoreError};
use playlist_store::store::PlaylistStore;

fn doc(date: &str, body: &str) -> PlaylistDocument {
    PlaylistDocument::new(date.to_string(), body.to_string())
}

#[test]
fn write_idempotence_is_conflict() {
    let mut store = PlaylistStore::new("/data/playlists".to_string());
    let a = doc("2024-03-07", "morning show; afternoon film");
    assert_eq!(store.write(a.duplicate()), Ok(Outcome::Created));
    assert_eq!(store.write(a), Err(StoreError::Conflict));
}

#[test]
fn write_overwrite_on_change() {
    let mut store = PlaylistStore::new("/data/playlists".to_string());
    let a = doc("2024-03-07", "first cut");
    let b = doc("2024-03-07", "second cut");
    assert_eq!(store.write(a), Ok(Outcome::Created));
    assert_eq!(store.write(b.duplicate()), Ok(Outcome::Updated));
    assert_eq!(store.read("2024-03-07"), Ok(b));
}

#[test]
fn delete_is_idempotent() {
    let mut store = PlaylistStore::new("/data/playlists".to_string());
    assert_eq!(store.delete("2024-03-07"), Ok(Outcome::NoOp));
    assert_eq!(store.write(doc("2024-03-07", "x")), Ok(Outcome::Created));
    assert_eq!(store.delete("2024-03-07"), Ok(Outcome::Deleted));
    assert_eq!(store.delete("2024-03-07"), Ok(Outcome::NoOp));
}

#[test]
fn end_to_end_example() {
    let mut store = PlaylistStore::new("/data/playlists".to_string());
    let d = doc("2024-03-07", "items: morning, evening");
    assert_eq!(store.write(d.duplicate()), Ok(Outcome::Created));
    // The document sits at exactly the partitioned location: writing the
    // identical document at that explicit path is a conflict.
    assert_eq!(
        store.write_at(
            "/data/playlists/2024/03/2024-03-07.json".to_string(),
            d.duplicate()
        ),
        Err(StoreError::Conflict)
    );
    assert_eq!(store.read("2024-03-07"), Ok(d.duplicate()));
    assert_eq!(store.delete("2024-03-07"), Ok(Outcome::Deleted));
    assert_eq!(store.read("2024-03-07"), Err(StoreError::NotFound));
    assert_eq!(store.delete("2024-03-07"), Ok(Outcome::NoOp));
}

#[test]
fn read_absent_is_not_found() {
    let store = PlaylistStore::new("/data/playlists".to_string());
    assert_eq!(store.read("2024-03-07"), Err(StoreError::NotFound));
}

#[test]
fn malformed_dates_fail_before_the_tree_is_touched() {
    let mut store = PlaylistStore::new("/data/playlists".to_string());
    assert_eq!(store.read("2024-03"), Err(StoreError::Malformed));
    assert_eq!(store.read("bad-date-x"), Err(StoreError::Malformed));
    assert_eq!(store.delete("2024-03"), Err(StoreError::Malformed));
    assert_eq!(store.delete("bad-date-x"), Err(StoreError::Malformed));
    assert_eq!(
        store.write(doc("2024-03", "x")),
        Err(StoreError::Malformed)
    );
}

#[test]
fn corrupt_content_is_reported_and_overwritten() {
    let mut store = PlaylistStore::new("/data/playlists".to_string());
    store.put_raw(
        "/data/playlists/2024/03/2024-03-07.json".to_string(),
        "not a playlist".to_string(),
    );
    assert_eq!(store.read("2024-03-07"), Err(StoreError::Corrupt));
    // Undecodable existing content never blocks a write.
    let d = doc("2024-03-07", "fresh");
    assert_eq!(store.write(d.duplicate()), Ok(Outcome::Updated));
    assert_eq!(store.read("2024-03-07"), Ok(d));
}

#[test]
fn dates_partition_the_tree() {
    let mut store = PlaylistStore::new("/data/playlists".to_string());
    let a = doc("2024-03-07", "seventh");
    let b = doc("2024-03-08", "eighth");
    assert_eq!(store.write(a.duplicate()), Ok(Outcome::Created));
    assert_eq!(store.write(b.duplicate()), Ok(Outcome::Created));
    assert_eq!(store.read("2024-03-07"), Ok(a));
    assert_eq!(store.read("2024-03-08"), Ok(b.duplicate()));
    assert_eq!(store.delete("2024-03-07"), Ok(Outcome::Deleted));
    assert_eq!(store.read("2024-03-07"), Err(StoreError::NotFound));
    assert_eq!(store.read("2024-03-08"), Ok(b));
}
