use playlist_store::document::PlaylistDocument;
use playlist_store::generate::{pick_generated, resolve_template, ChannelConfig, Source, Template};
use playlist_store::outcome::{PathError, StoreError};

fn template(sources: Vec<Vec<&str>>) -> Template {
    Template {
        sources: sources
            .into_iter()
            .map(|paths| Source {
                paths: paths.into_iter().map(|p| p.to_string()).collect(),
            })
            .collect(),
    }
}

#[test]
fn template_paths_are_resolved_under_the_storage_root() {
    let t = template(vec![
        vec!["clips/a.mp4", "./clips//b.mp4"],
        vec!["/data/storage/shows/c.mp4"],
    ]);
    let r = resolve_template("/data/storage", &t).expect("all paths lie under the root");
    assert_eq!(r.sources.len(), 2);
    assert_eq!(
        r.sources[0].paths,
        vec![
            "/data/storage/clips/a.mp4".to_string(),
            "/data/storage/clips/b.mp4".to_string()
        ]
    );
    assert_eq!(
        r.sources[1].paths,
        vec!["/data/storage/shows/c.mp4".to_string()]
    );
}

#[test]
fn one_bad_path_rejects_the_whole_template() {
    let t = template(vec![
        vec!["clips/a.mp4"],
        vec!["clips/b.mp4", "../../etc/passwd"],
    ]);
    assert_eq!(
        resolve_template("/data/storage", &t).err(),
        Some(PathError::OutsideRoot)
    );
}

#[test]
fn empty_generator_output_is_a_conflict() {
    assert_eq!(pick_generated(Vec::new()), Err(StoreError::Conflict));
}

#[test]
fn generator_output_yields_the_first_document() {
    let first = PlaylistDocument::new("2024-03-07".to_string(), "a".to_string());
    let second = PlaylistDocument::new("2024-03-08".to_string(), "b".to_string());
    let got = pick_generated(vec![first.duplicate(), second]).expect("non-empty output");
    assert_eq!(got, first);
}

#[test]
fn take_and_restore_template() {
    let mut config = ChannelConfig::new("/data/storage".to_string());
    assert!(config.take_template().is_none());
    config.restore_template(template(vec![vec!["a.mp4"]]));
    let taken = config.take_template().expect("template was restored");
    assert_eq!(taken.sources[0].paths, vec!["a.mp4".to_string()]);
    assert!(config.take_template().is_none());
    assert_eq!(config.storage, "/data/storage");
}
