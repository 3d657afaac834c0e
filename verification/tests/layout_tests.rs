use playlist_store::layout::{check_date_key, locate};
use playlist_store::outcome::DateError;

#[test]
fn locate_yields_the_partitioned_path() {
    assert_eq!(
        locate("/data/playlists", "2024-03-07"),
        Ok("/data/playlists/2024/03/2024-03-07.json".to_string())
    );
}

#[test]
fn locate_is_deterministic() {
    let a = locate("/data/playlists", "2024-03-07");
    let b = locate("/data/playlists", "2024-03-07");
    assert_eq!(a, b);
    assert_eq!(a, Ok("/data/playlists/2024/03/2024-03-07.json".to_string()));
}

#[test]
fn malformed_dates_are_rejected() {
    assert_eq!(
        locate("/data/playlists", "2024-03"),
        Err(DateError::Malformed)
    );
    assert_eq!(
        locate("/data/playlists", "bad-date-x"),
        Err(DateError::Malformed)
    );
    assert_eq!(locate("/data/playlists", ""), Err(DateError::Malformed));
    assert_eq!(
        locate("/data/playlists", "2024-3-07"),
        Err(DateError::Malformed)
    );
    assert_eq!(
        locate("/data/playlists", "2024/03/07"),
        Err(DateError::Malformed)
    );
}

#[test]
fn date_key_shape() {
    assert!(check_date_key("2024-03-07"));
    assert!(check_date_key("1999-12-31"));
    assert!(!check_date_key("2024-03-07x"));
    assert!(!check_date_key("2024-03-0"));
    assert!(!check_date_key("abcd-ef-gh"));
    assert!(!check_date_key("2024 03 07"));
}
