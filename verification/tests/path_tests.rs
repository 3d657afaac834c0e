use playlist_store::outcome::PathError;
use playlist_store::path::{check_storage_root, resolve, split_char};

#[test]
fn storage_root_shapes() {
    assert!(check_storage_root("/data/storage"));
    assert!(check_storage_root("/d"));
    assert!(!check_storage_root("/"));
    assert!(!check_storage_root("/data/storage/"));
    assert!(!check_storage_root("data/storage"));
    assert!(!check_storage_root(""));
}

#[test]
fn split_behaves_like_str_split() {
    let r = split_char("a/b/c", '/');
    assert_eq!(r, vec!["a".to_string(), "b".to_string(), "c".to_string()]);
    let r = split_char("", '/');
    assert_eq!(r, vec!["".to_string()]);
    let r = split_char("/", '/');
    assert_eq!(r, vec!["".to_string(), "".to_string()]);
    let r = split_char("a//b", '/');
    assert_eq!(r, vec!["a".to_string(), "".to_string(), "b".to_string()]);
}

#[test]
fn relative_candidates_are_rooted() {
    assert_eq!(
        resolve("/data/storage", "clip.mp4"),
        Ok("/data/storage/clip.mp4".to_string())
    );
    assert_eq!(
        resolve("/data/storage", "shows/day/clip.mp4"),
        Ok("/data/storage/shows/day/clip.mp4".to_string())
    );
    assert_eq!(resolve("/data/storage", ""), Ok("/data/storage".to_string()));
}

#[test]
fn dot_and_empty_segments_vanish() {
    assert_eq!(
        resolve("/data/storage", "./a//b/"),
        Ok("/data/storage/a/b".to_string())
    );
    assert_eq!(resolve("/data/storage", "."), Ok("/data/storage".to_string()));
}

#[test]
fn inner_dot_dot_is_normalized() {
    assert_eq!(
        resolve("/data/storage", "a/../b"),
        Ok("/data/storage/b".to_string())
    );
    assert_eq!(
        resolve("/data/storage", "a/b/../../c"),
        Ok("/data/storage/c".to_string())
    );
}

#[test]
fn escapes_are_rejected() {
    assert_eq!(resolve("/data/storage", ".."), Err(PathError::OutsideRoot));
    assert_eq!(
        resolve("/data/storage", "../secret"),
        Err(PathError::OutsideRoot)
    );
    assert_eq!(
        resolve("/data/storage", "a/../../x"),
        Err(PathError::OutsideRoot)
    );
    assert_eq!(
        resolve("/data/storage", "clips/../../../etc/passwd"),
        Err(PathError::OutsideRoot)
    );
}

#[test]
fn absolute_candidates_must_lie_under_the_root() {
    assert_eq!(
        resolve("/data/storage", "/data/storage"),
        Ok("/data/storage".to_string())
    );
    assert_eq!(
        resolve("/data/storage", "/data/storage/x/y"),
        Ok("/data/storage/x/y".to_string())
    );
    assert_eq!(
        resolve("/data/storage", "/etc/passwd"),
        Err(PathError::OutsideRoot)
    );
    assert_eq!(
        resolve("/data/storage", "/data/storagex"),
        Err(PathError::OutsideRoot)
    );
    assert_eq!(
        resolve("/data/storage", "/data/storage/../other"),
        Err(PathError::OutsideRoot)
    );
}

#[test]
fn confinement_holds_on_every_success() {
    let root = "/data/storage";
    let candidates = [
        "a", "a/b", "../x", "a/../b", "/data/storage/c", "/etc/x", "....//a", "..a/b", ".hidden",
    ];
    for c in candidates {
        if let Ok(p) = resolve(root, c) {
            assert!(p == root || p.starts_with("/data/storage/"));
        }
    }
}
