use component_monitor::event::{
    dispatch, watch_mask, Dispatcher, Event, Fault, Phase, Reaction, CLOSE_WRITE, DELETE,
    DELETE_SELF, MOVE_SELF, WATCHED,
};
use nix::sys::inotify::AddWatchFlags;

const SENTINEL: &[u8] = b"sentinel";

fn named(mask: u32, name: &[u8]) -> Event {
    Event { mask, name: Some(name.to_vec()) }
}

fn bare(mask: u32) -> Event {
    Event { mask, name: None }
}

#[test]
fn constants_are_the_kernel_values() {
    assert_eq!(CLOSE_WRITE, 0x8);
    assert_eq!(DELETE, 0x200);
    assert_eq!(DELETE_SELF, 0x400);
    assert_eq!(MOVE_SELF, 0x800);
    assert_eq!(WATCHED, 0xe08);
}

#[test]
fn constants_agree_with_nix() {
    assert_eq!(CLOSE_WRITE, AddWatchFlags::IN_CLOSE_WRITE.bits());
    assert_eq!(DELETE, AddWatchFlags::IN_DELETE.bits());
    assert_eq!(DELETE_SELF, AddWatchFlags::IN_DELETE_SELF.bits());
    assert_eq!(MOVE_SELF, AddWatchFlags::IN_MOVE_SELF.bits());
}

#[test]
fn watch_mask_covers_the_four_events() {
    assert_eq!(watch_mask(), 0xe08);
    let flags = AddWatchFlags::IN_CLOSE_WRITE
        | AddWatchFlags::IN_DELETE
        | AddWatchFlags::IN_MOVE_SELF
        | AddWatchFlags::IN_DELETE_SELF;
    assert_eq!(watch_mask(), flags.bits());
}

#[test]
fn sentinel_written_asks_for_populate() {
    assert_eq!(dispatch(&named(0x8, SENTINEL), SENTINEL), Reaction::Populate);
}

#[test]
fn sentinel_deleted_asks_for_cleanup() {
    assert_eq!(dispatch(&named(0x200, SENTINEL), SENTINEL), Reaction::Cleanup);
}

#[test]
fn directory_deleted_or_moved_stops() {
    assert_eq!(dispatch(&bare(0x400), SENTINEL), Reaction::Stop(Fault::SourceGone));
    assert_eq!(dispatch(&bare(0x800), SENTINEL), Reaction::Stop(Fault::SourceGone));
    assert_eq!(dispatch(&bare(0xc00), SENTINEL), Reaction::Stop(Fault::SourceGone));
    assert_eq!(dispatch(&bare(0x400 | 0x8000), SENTINEL), Reaction::Stop(Fault::SourceGone));
}

#[test]
fn other_children_are_ignored() {
    assert_eq!(dispatch(&named(0x8, b"a.txt"), SENTINEL), Reaction::Ignore);
    assert_eq!(dispatch(&named(0x200, b"a.txt"), SENTINEL), Reaction::Ignore);
    assert_eq!(dispatch(&named(0x8, b"sentinel2"), SENTINEL), Reaction::Ignore);
    assert_eq!(dispatch(&named(0x8, b"sentine"), SENTINEL), Reaction::Ignore);
    assert_eq!(dispatch(&named(0x8, b""), SENTINEL), Reaction::Ignore);
}

#[test]
fn other_kinds_are_ignored() {
    assert_eq!(dispatch(&bare(0x8), SENTINEL), Reaction::Ignore);
    assert_eq!(dispatch(&bare(0x200), SENTINEL), Reaction::Ignore);
    assert_eq!(dispatch(&bare(0x8000), SENTINEL), Reaction::Ignore);
    assert_eq!(dispatch(&bare(0), SENTINEL), Reaction::Ignore);
    assert_eq!(dispatch(&named(0x2, SENTINEL), SENTINEL), Reaction::Ignore);
    assert_eq!(dispatch(&named(0x100, SENTINEL), SENTINEL), Reaction::Ignore);
}

#[test]
fn sentinel_named_directory_events_are_ignored() {
    let is_dir = AddWatchFlags::IN_ISDIR.bits();
    assert_eq!(dispatch(&named(0x200 | is_dir, SENTINEL), SENTINEL), Reaction::Ignore);
    assert_eq!(dispatch(&named(0x8 | 0x200, SENTINEL), SENTINEL), Reaction::Ignore);
}

#[test]
fn dispatcher_starts_running() {
    let d = Dispatcher::new();
    assert_eq!(d.phase(), Phase::Running);
    assert!(!d.is_terminated());
}

#[test]
fn dispatcher_keeps_running_on_ordinary_events() {
    let mut d = Dispatcher::new();
    assert_eq!(d.handle(&named(0x8, SENTINEL), SENTINEL), Reaction::Populate);
    assert_eq!(d.handle(&named(0x200, SENTINEL), SENTINEL), Reaction::Cleanup);
    assert_eq!(d.handle(&named(0x8, b"other"), SENTINEL), Reaction::Ignore);
    assert_eq!(d.phase(), Phase::Running);
}

#[test]
fn dispatcher_ignores_everything_once_terminated() {
    let mut d = Dispatcher::new();
    assert_eq!(d.handle(&bare(0x800), SENTINEL), Reaction::Stop(Fault::SourceGone));
    assert_eq!(d.phase(), Phase::Terminated);
    assert_eq!(d.handle(&named(0x8, SENTINEL), SENTINEL), Reaction::Ignore);
    assert_eq!(d.handle(&bare(0x400), SENTINEL), Reaction::Ignore);
    assert_eq!(d.read_failed(), Reaction::Ignore);
    assert_eq!(d.phase(), Phase::Terminated);
}

#[test]
fn dispatcher_stops_on_read_failure() {
    let mut d = Dispatcher::new();
    assert_eq!(d.read_failed(), Reaction::Stop(Fault::ReadFailed));
    assert!(d.is_terminated());
}

#[test]
fn batch_is_answered_in_order() {
    let mut d = Dispatcher::new();
    let batch = vec![
        named(0x200, SENTINEL),
        named(0x8, b"a.txt"),
        named(0x8, SENTINEL),
        named(0x200, SENTINEL),
    ];
    let out = d.handle_all(&batch, SENTINEL);
    assert_eq!(
        out,
        vec![Reaction::Cleanup, Reaction::Ignore, Reaction::Populate, Reaction::Cleanup]
    );
    assert_eq!(d.phase(), Phase::Running);
}

#[test]
fn batch_stops_at_first_fault() {
    let mut d = Dispatcher::new();
    let batch = vec![named(0x8, SENTINEL), bare(0x400), named(0x200, SENTINEL), bare(0x800)];
    let out = d.handle_all(&batch, SENTINEL);
    assert_eq!(
        out,
        vec![
            Reaction::Populate,
            Reaction::Stop(Fault::SourceGone),
            Reaction::Ignore,
            Reaction::Ignore
        ]
    );
    assert_eq!(d.phase(), Phase::Terminated);
}

#[test]
fn empty_batch_changes_nothing() {
    let mut d = Dispatcher::new();
    assert!(d.handle_all(&Vec::new(), SENTINEL).is_empty());
    assert_eq!(d.phase(), Phase::Running);
}
