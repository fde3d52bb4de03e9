use pitty::safepath::{
    is_unsafe_component, kernel_traverses_dir, openat_file_read_no_follow,
    openat_file_write_no_follow, refuse_multiply_linked, refuse_non_regular, traversability,
    walk_from, walk_on, write_private, CreateDirs, FileRefusal, OpenOutcome, OsError,
    PrivateWrite, TraversalProbe, Traversability, WalkEvent, WalkState,
};

fn names(list: &[&str]) -> Vec<Vec<u8>> {
    list.iter().map(|n| n.as_bytes().to_vec()).collect()
}

/// Walk with a reply per call, and list the calls.
fn walk(
    list: &[&str],
    create: CreateDirs,
    mut reply: impl FnMut(WalkState) -> WalkEvent,
) -> (WalkState, Vec<WalkState>) {
    let components = names(list);
    let mut state = walk_from(&components, create);
    let mut calls = Vec::new();
    loop {
        match state {
            WalkState::Arrived | WalkState::Invalid | WalkState::Failed => return (state, calls),
            _ => {
                calls.push(state);
                state = walk_on(state, reply(state), components.len(), create);
            }
        }
    }
}

#[test]
fn walk_refuses_a_parent_dir_component() {
    for bad in ["..", ".", "", "a/b"] {
        assert!(is_unsafe_component(bad.as_bytes()));
        let (end, calls) = walk(&["sub", bad, "x"], CreateDirs::Yes, |_| WalkEvent::Done);
        assert_eq!(end, WalkState::Invalid);
        assert!(calls.is_empty());
    }
    assert!(!is_unsafe_component(b"..."));
}

#[test]
fn walk_refuses_an_empty_component_list() {
    assert_eq!(walk_from(&[], CreateDirs::No), WalkState::Invalid);
}

#[test]
fn walk_creates_only_missing_directories_and_leaves_existing_modes() {
    let (end, calls) = walk(&["old", "new", "f"], CreateDirs::Yes, |state| match state {
        WalkState::Make(0) => WalkEvent::Failed(OsError::Exists),
        _ => WalkEvent::Done,
    });
    assert_eq!(end, WalkState::Arrived);
    assert_eq!(
        calls,
        vec![
            WalkState::Make(0),
            WalkState::Open { index: 0, created: false },
            WalkState::Make(1),
            WalkState::Open { index: 1, created: true },
            WalkState::Restrict(1),
        ]
    );
}

#[test]
fn walk_without_create_refuses_a_missing_directory() {
    let (end, calls) = walk(&["gone", "f"], CreateDirs::No, |_| WalkEvent::Failed(OsError::NotFound));
    assert_eq!(end, WalkState::Failed);
    assert_eq!(calls, vec![WalkState::Open { index: 0, created: false }]);
}

#[test]
fn walk_refuses_a_symlinked_intermediate_directory() {
    let (end, _) = walk(&["link", "f"], CreateDirs::Yes, |state| match state {
        WalkState::Make(_) => WalkEvent::Failed(OsError::Exists),
        _ => WalkEvent::Failed(OsError::Loop),
    });
    assert_eq!(end, WalkState::Failed);
}

#[test]
fn a_single_name_needs_no_walk() {
    let (end, calls) = walk(&["f"], CreateDirs::Yes, |_| WalkEvent::Failed(OsError::NotFound));
    assert_eq!(end, WalkState::Arrived);
    assert!(calls.is_empty());
}

#[test]
fn both_opens_refuse_a_fifo_promptly_instead_of_blocking() {
    let fifo = || OpenOutcome::Opened { regular: false, links: 1 };
    let message =
        "refusing a path that is not a regular file: only a plain file can hold a record pitty wrote";
    assert_eq!(
        openat_file_read_no_follow(fifo()),
        Err(FileRefusal::NotRegular(message.to_string()))
    );
    assert_eq!(
        openat_file_write_no_follow(fifo()),
        Err(FileRefusal::NotRegular(message.to_string()))
    );
    let no_reader = || OpenOutcome::Failed { kind: OsError::NoPeer, error: "ENXIO".to_string() };
    assert_eq!(
        openat_file_write_no_follow(no_reader()),
        Err(FileRefusal::NotRegular(message.to_string()))
    );
    assert_eq!(
        openat_file_read_no_follow(no_reader()),
        Err(FileRefusal::Failed("ENXIO".to_string()))
    );
    assert_eq!(
        openat_file_write_no_follow(OpenOutcome::Failed { kind: OsError::Loop, error: "ELOOP".to_string() }),
        Err(FileRefusal::Failed("ELOOP".to_string()))
    );
}

#[test]
fn both_opens_refuse_a_hard_linked_file() {
    let linked = || OpenOutcome::Opened { regular: true, links: 2 };
    let message = "refusing a file with 2 hard links: a second name may point outside the workspace, so reading or writing it could escape containment";
    assert_eq!(
        openat_file_read_no_follow(linked()),
        Err(FileRefusal::ManyLinks(message.to_string()))
    );
    assert_eq!(
        openat_file_write_no_follow(linked()),
        Err(FileRefusal::ManyLinks(message.to_string()))
    );
    assert!(refuse_multiply_linked(2).is_err());
}

#[test]
fn an_ordinary_single_linked_file_is_accepted() {
    let file = || OpenOutcome::Opened { regular: true, links: 1 };
    assert_eq!(openat_file_read_no_follow(file()), Ok(()));
    assert_eq!(openat_file_write_no_follow(file()), Ok(()));
    assert_eq!(refuse_non_regular(true), Ok(()));
    assert_eq!(refuse_multiply_linked(1), Ok(()));
}

#[test]
fn absence_is_told_from_refusal() {
    assert_eq!(traversability(Ok(())), Traversability::Traversable);
    assert_eq!(traversability(Err(OsError::NotFound)), Traversability::Absent);
    for refusal in [OsError::NotDirectory, OsError::Loop, OsError::Other, OsError::Exists] {
        assert_eq!(traversability(Err(refusal)), Traversability::Refused);
    }
}

#[test]
fn a_descent_is_performed_where_search_cannot_be_asked_for() {
    assert_eq!(kernel_traverses_dir(true, false), TraversalProbe::Search);
    assert_eq!(kernel_traverses_dir(true, true), TraversalProbe::Enter);
    assert_eq!(kernel_traverses_dir(false, false), TraversalProbe::Enter);
}

#[test]
fn a_file_is_private_before_it_holds_anything() {
    let mut step = PrivateWrite::Open;
    let mut order = Vec::new();
    while step != PrivateWrite::Written {
        order.push(step);
        step = write_private(step, true);
    }
    assert_eq!(
        order,
        vec![
            PrivateWrite::Open,
            PrivateWrite::Restrict,
            PrivateWrite::Truncate,
            PrivateWrite::Write
        ]
    );
    for step in order {
        assert_eq!(write_private(step, false), PrivateWrite::Failed);
    }
    assert_eq!(write_private(PrivateWrite::Failed, true), PrivateWrite::Failed);
}

#[test]
fn arriving_opens_every_directory_in_order() {
    for create in [CreateDirs::Yes, CreateDirs::No] {
        let (end, calls) = walk(&["a", "b", "c", "f"], create, |_| WalkEvent::Done);
        assert_eq!(end, WalkState::Arrived);
        let opened: Vec<usize> = calls
            .iter()
            .filter_map(|call| match call {
                WalkState::Open { index, .. } => Some(*index),
                _ => None,
            })
            .collect();
        assert_eq!(opened, vec![0, 1, 2]);
    }
}

#[test]
fn the_read_open_refuses_a_directory() {
    let outcome = OpenOutcome::Opened { regular: false, links: 2 };
    assert!(matches!(
        openat_file_read_no_follow(outcome),
        Err(FileRefusal::NotRegular(_))
    ));
}

#[test]
fn an_ordinary_regular_file_is_still_readable_and_writable() {
    assert!(openat_file_write_no_follow(OpenOutcome::Opened { regular: true, links: 1 }).is_ok());
    assert!(openat_file_read_no_follow(OpenOutcome::Opened { regular: true, links: 1 }).is_ok());
}

#[test]
fn unlinking_the_second_name_restores_acceptance() {
    assert!(openat_file_read_no_follow(OpenOutcome::Opened { regular: true, links: 2 }).is_err());
    assert!(openat_file_read_no_follow(OpenOutcome::Opened { regular: true, links: 1 }).is_ok());
}
