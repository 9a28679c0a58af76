//! Deciding what a batch of file system events asks for: which events
//! matter, whether a changed path lies in the served output or in the
//! sources, and which reload that calls for.

use vstd::prelude::*;

use crate::reloader::ReloadEvent;
use crate::text::chars_of;

verus! {

/// File type an event reports for its path.
#[derive(Clone, Copy, PartialEq, Eq, Structural)]
pub enum FileKind {
    File,
    Symlink,
    Dir,
    Other,
}

/// Where an event came from.
#[derive(Clone, Copy, PartialEq, Eq, Structural)]
pub enum EventSource {
    Filesystem,
    Os,
    Other,
}

/// Kind of file change an event reports.
#[derive(Clone, Copy, PartialEq, Eq, Structural)]
pub enum ChangeKind {
    Create,
    Modify,
    Remove,
    Other,
}

/// One tag of a file system event; the path itself stays with the caller,
/// which finds it again by the tag's position.
#[derive(Clone, Copy, PartialEq, Eq, Structural)]
pub enum EventTag {
    /// A path, with its file type when known.
    Path { file_type: Option<FileKind> },
    /// The event's source.
    Source(EventSource),
    /// The kind of change.
    Change(ChangeKind),
    /// Anything else.
    Other,
}

/// A path tag for a file, a symbolic link, or a path of unknown type.
pub open spec fn names_file(t: EventTag) -> bool {
    match t {
        EventTag::Path { file_type } => match file_type {
            None => true,
            Some(k) => k == FileKind::File || k == FileKind::Symlink,
        },
        _ => false,
    }
}

/// A source other than the file system or the operating system.
pub open spec fn foreign_source(t: EventTag) -> bool {
    t matches EventTag::Source(src) && src == EventSource::Other
}

/// A file creation, modification or removal.
pub open spec fn file_change(t: EventTag) -> bool {
    match t {
        EventTag::Change(k) => k != ChangeKind::Other,
        _ => false,
    }
}

/// Position of the last tag that names a file.
pub open spec fn last_file_tag(tags: Seq<EventTag>) -> Option<int>
    decreases tags.len(),
{
    if tags.len() == 0 {
        None
    } else if names_file(tags.last()) {
        Some(tags.len() - 1)
    } else {
        last_file_tag(tags.drop_last())
    }
}

/// The path an event is about: the last file path among its tags, when the
/// event comes from the file system or the operating system and reports a
/// file change; `None` when the event is to be ignored.
pub open spec fn event_path(tags: Seq<EventTag>) -> Option<int> {
    if exists|i: int| 0 <= i < tags.len() && foreign_source(#[trigger] tags[i]) {
        None
    } else if !exists|i: int| 0 <= i < tags.len() && file_change(#[trigger] tags[i]) {
        None
    } else {
        last_file_tag(tags)
    }
}

/// Position of the tag whose path the event is about, or `None` when the
/// event is to be ignored.
pub fn filter_event(tags: &Vec<EventTag>) -> (r: Option<usize>)
    ensures
        r matches Some(i) ==> event_path(tags@) == Some(i as int),
        r is None ==> event_path(tags@) is None,
{
    let mut has_file_event = false;
    let mut the_path: Option<usize> = None;
    let mut i: usize = 0;
    assert(tags@.take(0) =~= Seq::<EventTag>::empty());
    while i < tags.len()
        invariant
            i <= tags.len(),
            forall|j: int| 0 <= j < i ==> !foreign_source(#[trigger] tags@[j]),
            has_file_event == exists|j: int| 0 <= j < i && file_change(#[trigger] tags@[j]),
            the_path matches Some(p) ==> last_file_tag(tags@.take(i as int)) == Some(p as int),
            the_path is None ==> last_file_tag(tags@.take(i as int)) is None,
        decreases tags.len() - i,
    {
        let t = tags[i];
        match t {
            EventTag::Path { file_type } => {
                let is_file = match file_type {
                    None => true,
                    Some(k) => k == FileKind::File || k == FileKind::Symlink,
                };
                if is_file {
                    the_path = Some(i);
                }
            },
            EventTag::Source(src) => {
                if src == EventSource::Other {
                    assert(foreign_source(tags@[i as int]));
                    return None;
                }
            },
            EventTag::Change(k) => {
                if k != ChangeKind::Other {
                    has_file_event = true;
                }
            },
            EventTag::Other => {},
        }
        assert(tags@.take(i + 1).drop_last() =~= tags@.take(i as int));
        i = i + 1;
    }
    assert(tags@.take(i as int) =~= tags@);
    if !has_file_event {
        return None;
    }
    the_path
}

/// What a batch of changes calls for.
#[derive(Clone, Copy, PartialEq, Eq, Structural)]
pub enum RefreshType {
    /// Nothing.
    Nothing,
    /// Only output files changed: reload.
    Output,
    /// A source file changed: build, then reload.
    Source,
}

/// What a batch of changed paths calls for, when a build step exists: a
/// build if any path lies outside the output, else a reload if any lies in
/// it. `None` marks a path whose place could not be determined; it is
/// skipped.
pub open spec fn refresh_for(inside_output: Seq<Option<bool>>) -> RefreshType {
    if exists|i: int| 0 <= i < inside_output.len() && inside_output[i] == Some(false) {
        RefreshType::Source
    } else if exists|i: int| 0 <= i < inside_output.len() && inside_output[i] == Some(true) {
        RefreshType::Output
    } else {
        RefreshType::Nothing
    }
}

/// Takes one more path into account: whether it lies in the output (`None`
/// when unknown). Returns the new refresh type and whether the remaining
/// paths can be skipped.
pub fn refresh_step(current: RefreshType, inside_output: Option<bool>) -> (r: (RefreshType, bool))
    ensures
        r == (match inside_output {
            None => (current, false),
            Some(true) => (
                if current == RefreshType::Source {
                    RefreshType::Source
                } else {
                    RefreshType::Output
                },
                false,
            ),
            Some(false) => (RefreshType::Source, true),
        }),
{
    match inside_output {
        None => (current, false),
        Some(true) => {
            if current != RefreshType::Source {
                (RefreshType::Output, false)
            } else {
                (current, false)
            }
        },
        Some(false) => (RefreshType::Source, true),
    }
}

/// Outcome of stepping through `inside_output` from `current`, stopping at
/// the first path outside the output.
pub open spec fn fold_refresh(current: RefreshType, inside_output: Seq<Option<bool>>) -> RefreshType
    decreases inside_output.len(),
{
    if inside_output.len() == 0 {
        current
    } else {
        match inside_output[0] {
            None => fold_refresh(current, inside_output.drop_first()),
            Some(true) => fold_refresh(
                if current == RefreshType::Source {
                    RefreshType::Source
                } else {
                    RefreshType::Output
                },
                inside_output.drop_first(),
            ),
            Some(false) => RefreshType::Source,
        }
    }
}

/// Stepping through the paths with [`refresh_step`] and stopping when it
/// says so gives what the whole batch calls for.
pub proof fn lemma_fold_refresh(inside_output: Seq<Option<bool>>)
    ensures
        fold_refresh(RefreshType::Nothing, inside_output) == refresh_for(inside_output),
{
    lemma_fold_refresh_from(RefreshType::Nothing, inside_output);
}

proof fn lemma_fold_refresh_from(current: RefreshType, inside_output: Seq<Option<bool>>)
    requires
        current != RefreshType::Source,
    ensures
        fold_refresh(current, inside_output) == if exists|i: int|
            0 <= i < inside_output.len() && inside_output[i] == Some(false) {
            RefreshType::Source
        } else if current == RefreshType::Output || exists|i: int|
            0 <= i < inside_output.len() && inside_output[i] == Some(true) {
            RefreshType::Output
        } else {
            RefreshType::Nothing
        },
    decreases inside_output.len(),
{
    if inside_output.len() > 0 {
        let rest = inside_output.drop_first();
        assert forall|i: int| 0 <= i < rest.len() implies rest[i] == inside_output[i + 1] by {}
        match inside_output[0] {
            None => {
                lemma_fold_refresh_from(current, rest);
                if exists|i: int| 0 <= i < inside_output.len() && inside_output[i] == Some(false) {
                    let i = choose|i: int| 0 <= i < inside_output.len() && inside_output[i] == Some(false);
                    assert(rest[i - 1] == Some(false));
                }
                if exists|i: int| 0 <= i < inside_output.len() && inside_output[i] == Some(true) {
                    let i = choose|i: int| 0 <= i < inside_output.len() && inside_output[i] == Some(true);
                    assert(rest[i - 1] == Some(true));
                }
            },
            Some(true) => {
                lemma_fold_refresh_from(RefreshType::Output, rest);
                if exists|i: int| 0 <= i < inside_output.len() && inside_output[i] == Some(false) {
                    let i = choose|i: int| 0 <= i < inside_output.len() && inside_output[i] == Some(false);
                    assert(rest[i - 1] == Some(false));
                }
            },
            Some(false) => {},
        }
    }
}

/// What a batch of changed paths calls for when there is no build step:
/// any change reloads.
pub fn refresh_without_build(any_path: bool) -> (r: RefreshType)
    ensures
        r == (if any_path {
            RefreshType::Output
        } else {
            RefreshType::Nothing
        }),
{
    if any_path {
        RefreshType::Output
    } else {
        RefreshType::Nothing
    }
}

/// The event to send the reloader for a refresh type, if any.
pub fn reload_event_for(refresh: RefreshType) -> (e: Option<ReloadEvent>)
    ensures
        refresh == RefreshType::Nothing ==> e is None,
        refresh == RefreshType::Output ==> e == Some(ReloadEvent::Reload),
        refresh == RefreshType::Source ==> e == Some(ReloadEvent::BuildAndReload),
{
    match refresh {
        RefreshType::Nothing => None,
        RefreshType::Output => Some(ReloadEvent::Reload),
        RefreshType::Source => Some(ReloadEvent::BuildAndReload),
    }
}


/// The text of a parent-directory component, `..`.
pub open spec fn parent_component() -> Seq<char> {
    seq!['.', '.']
}

/// A path, relative to a directory, that stays within it: not absolute and
/// not starting with a `..` component. `components` are the path's
/// components in order, each as its text.
pub open spec fn stays_inside(is_absolute: bool, components: Seq<Seq<char>>) -> bool {
    !is_absolute && !(components.len() > 0 && components[0] == parent_component())
}

/// Whether a changed path, given relative to the watched output directory,
/// lies within that directory. The caller passes whether the path is
/// absolute and its components as `Path::components` yields them, each as
/// its text (a parent-directory component reads `..`), so that the platform's
/// own separators and prefixes decide how the path splits.
pub fn relative_path_is_inside(is_absolute: bool, components: &Vec<String>) -> (b: bool)
    ensures
        b == stays_inside(is_absolute, components@.map_values(|c: String| c@)),
{
    if is_absolute {
        return false;
    }
    if components.len() == 0 {
        return true;
    }
    let first = chars_of(components[0].as_str());
    let parent = first.len() == 2 && first[0] == '.' && first[1] == '.';
    proof {
        let f = components@.map_values(|c: String| c@)[0];
        assert(f == first@);
        if parent {
            assert(f =~= parent_component());
        } else if f.len() == 2 {
            if first@[0] != '.' {
                assert(f[0] != parent_component()[0]);
            } else {
                assert(f[1] != parent_component()[1]);
            }
        }
    }
    !parent
}

/// Changes that all lie in the served output only reload; a change outside
/// it always builds first.
pub proof fn lemma_output_changes_only_reload(inside_output: Seq<Option<bool>>)
    ensures
        (forall|i: int| 0 <= i < inside_output.len() ==> inside_output[i] != Some(false))
            && (exists|i: int| 0 <= i < inside_output.len() && inside_output[i] == Some(true))
            ==> refresh_for(inside_output) == RefreshType::Output,
        (exists|i: int| 0 <= i < inside_output.len() && inside_output[i] == Some(false))
            ==> refresh_for(inside_output) == RefreshType::Source,
{
}

/// A tag naming a path that is a file, a symbolic link, or of unknown type.
pub open spec fn is_file_path_tag(t: EventTag) -> bool {
    t == (EventTag::Path { file_type: None }) || t == (EventTag::Path {
        file_type: Some(FileKind::File),
    }) || t == (EventTag::Path { file_type: Some(FileKind::Symlink) })
}

/// A tag reporting that a file was created, modified or removed.
pub open spec fn is_file_change_tag(t: EventTag) -> bool {
    t == EventTag::Change(ChangeKind::Create) || t == EventTag::Change(ChangeKind::Modify) || t
        == EventTag::Change(ChangeKind::Remove)
}

proof fn lemma_last_file_tag_at(tags: Seq<EventTag>, p: int)
    requires
        0 <= p < tags.len(),
        is_file_path_tag(tags[p]),
        forall|j: int| p < j < tags.len() ==> !is_file_path_tag(#[trigger] tags[j]),
    ensures
        last_file_tag(tags) == Some(p),
    decreases tags.len(),
{
    if p < tags.len() - 1 {
        assert(!is_file_path_tag(tags.last()));
        let rest = tags.drop_last();
        assert forall|j: int| p < j < rest.len() implies !is_file_path_tag(#[trigger] rest[j]) by {
            assert(rest[j] == tags[j]);
        }
        lemma_last_file_tag_at(rest, p);
    }
}

proof fn lemma_no_file_tag(tags: Seq<EventTag>)
    requires
        forall|j: int| 0 <= j < tags.len() ==> !is_file_path_tag(#[trigger] tags[j]),
    ensures
        last_file_tag(tags) is None,
    decreases tags.len(),
{
    if tags.len() > 0 {
        assert(!is_file_path_tag(tags.last()));
        let rest = tags.drop_last();
        assert forall|j: int| 0 <= j < rest.len() implies !is_file_path_tag(#[trigger] rest[j]) by {
            assert(rest[j] == tags[j]);
        }
        lemma_no_file_tag(rest);
    }
}

/// An event from the file system or the operating system that reports a
/// file being created, modified or removed is about its last file path (a
/// file, a symbolic link or a path of unknown type); it is ignored when it
/// names no such path, when it comes from another source, or when it reports
/// no creation, modification or removal.
pub proof fn lemma_file_changes_are_reported(tags: Seq<EventTag>, p: int)
    ensures
        (forall|i: int| 0 <= i < tags.len() ==> #[trigger] tags[i] != EventTag::Source(
            EventSource::Other,
        )) && (exists|i: int| 0 <= i < tags.len() && is_file_change_tag(#[trigger] tags[i]))
            && 0 <= p < tags.len() && is_file_path_tag(tags[p]) && (forall|j: int|
            p < j < tags.len() ==> !is_file_path_tag(#[trigger] tags[j])) ==> event_path(tags)
            == Some(p),
        (forall|j: int| 0 <= j < tags.len() ==> !is_file_path_tag(#[trigger] tags[j]))
            ==> event_path(tags) is None,
        (exists|i: int| 0 <= i < tags.len() && #[trigger] tags[i] == EventTag::Source(
            EventSource::Other,
        )) ==> event_path(tags) is None,
        (forall|i: int| 0 <= i < tags.len() ==> !is_file_change_tag(#[trigger] tags[i]))
            ==> event_path(tags) is None,
{
    if (forall|i: int| 0 <= i < tags.len() ==> #[trigger] tags[i] != EventTag::Source(
        EventSource::Other,
    )) && (exists|i: int| 0 <= i < tags.len() && is_file_change_tag(#[trigger] tags[i])) && 0
        <= p < tags.len() && is_file_path_tag(tags[p]) && (forall|j: int|
        p < j < tags.len() ==> !is_file_path_tag(#[trigger] tags[j])) {
        lemma_last_file_tag_at(tags, p);
        let i = choose|i: int| 0 <= i < tags.len() && is_file_change_tag(#[trigger] tags[i]);
        assert(file_change(tags[i]));
        assert forall|k: int| 0 <= k < tags.len() implies !foreign_source(#[trigger] tags[k]) by {
            assert(tags[k] != EventTag::Source(EventSource::Other));
        }
    }
    if forall|j: int| 0 <= j < tags.len() ==> !is_file_path_tag(#[trigger] tags[j]) {
        lemma_no_file_tag(tags);
    }
    if exists|i: int| 0 <= i < tags.len() && #[trigger] tags[i] == EventTag::Source(
        EventSource::Other,
    ) {
        let i = choose|i: int| 0 <= i < tags.len() && #[trigger] tags[i] == EventTag::Source(
            EventSource::Other,
        );
        assert(foreign_source(tags[i]));
    }
    if forall|i: int| 0 <= i < tags.len() ==> !is_file_change_tag(#[trigger] tags[i]) {
        assert forall|k: int| 0 <= k < tags.len() implies !file_change(#[trigger] tags[k]) by {
            assert(!is_file_change_tag(tags[k]));
        }
    }
}

} // verus!
