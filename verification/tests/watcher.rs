use shwoop::reloader::ReloadEvent;
use shwoop::watcher::{
    filter_event, refresh_step, refresh_without_build, relative_path_is_inside, reload_event_for,
    ChangeKind, EventSource, EventTag, FileKind, RefreshType,
};

#[test]
fn events_need_a_file_path_and_a_change() {
    let tags = vec![
        EventTag::Source(EventSource::Filesystem),
        EventTag::Path { file_type: Some(FileKind::File) },
        EventTag::Change(ChangeKind::Modify),
    ];
    assert_eq!(filter_event(&tags), Some(1));
    let no_change = vec![EventTag::Path { file_type: None }, EventTag::Change(ChangeKind::Other)];
    assert_eq!(filter_event(&no_change), None);
    let dir_only = vec![EventTag::Path { file_type: Some(FileKind::Dir) }, EventTag::Change(ChangeKind::Create)];
    assert_eq!(filter_event(&dir_only), None);
}

#[test]
fn last_file_path_wins_and_foreign_sources_are_ignored() {
    let tags = vec![
        EventTag::Path { file_type: None },
        EventTag::Change(ChangeKind::Remove),
        EventTag::Path { file_type: Some(FileKind::Symlink) },
        EventTag::Path { file_type: Some(FileKind::Dir) },
    ];
    assert_eq!(filter_event(&tags), Some(2));
    let foreign = vec![
        EventTag::Path { file_type: None },
        EventTag::Change(ChangeKind::Create),
        EventTag::Source(EventSource::Other),
    ];
    assert_eq!(filter_event(&foreign), None);
}

#[test]
fn refresh_steps() {
    assert!(refresh_step(RefreshType::Nothing, None) == (RefreshType::Nothing, false));
    assert!(refresh_step(RefreshType::Nothing, Some(true)) == (RefreshType::Output, false));
    assert!(refresh_step(RefreshType::Output, Some(false)) == (RefreshType::Source, true));
    assert!(refresh_step(RefreshType::Source, Some(true)) == (RefreshType::Source, false));
    assert!(refresh_without_build(true) == RefreshType::Output);
    assert!(refresh_without_build(false) == RefreshType::Nothing);
}

#[test]
fn refresh_events() {
    assert!(reload_event_for(RefreshType::Nothing).is_none());
    assert!(reload_event_for(RefreshType::Output) == Some(ReloadEvent::Reload));
    assert!(reload_event_for(RefreshType::Source) == Some(ReloadEvent::BuildAndReload));
}

fn inside(is_absolute: bool, components: &[&str]) -> bool {
    let components: Vec<String> = components.iter().map(|c| c.to_string()).collect();
    relative_path_is_inside(is_absolute, &components)
}

#[test]
fn relative_paths_inside() {
    assert!(inside(false, &["index.html"]));
    assert!(inside(false, &["a", "b", "c"]));
    assert!(inside(false, &[]));
    assert!(inside(false, &["..foo", "x"]));
    assert!(inside(false, &[".", "..", "x"]));
    assert!(!inside(false, &[".."]));
    assert!(!inside(false, &["..", "src", "main.rs"]));
    assert!(!inside(true, &["/", "abs", "path"]));
}

#[test]
fn relative_paths_split_by_the_platform() {
    for (path, expected) in [
        ("index.html", true),
        ("a/b/c", true),
        ("..foo/x", true),
        ("./../x", true),
        ("..", false),
        ("../src/main.rs", false),
        ("/abs/path", false),
    ] {
        let p = std::path::Path::new(path);
        let components: Vec<String> = p
            .components()
            .map(|c| c.as_os_str().to_string_lossy().into_owned())
            .collect();
        let original = !p.is_absolute() && !p.starts_with("..");
        assert_eq!(relative_path_is_inside(p.is_absolute(), &components), original, "{path}");
        assert_eq!(original, expected, "{path}");
    }
}
