use rtail::cli::FollowMode;
use rtail::tail::follow::{
    follow_ends, follow_header, CheckPhase, FollowAction, FollowOutput, FollowState, HeaderAction, PathInfo,
    SizeCheck,
};

#[test]
fn follow_new_state() {
    let s = FollowState::new("log".to_string(), true);
    assert_eq!(s.path, "log");
    assert!(!s.open && s.retry && s.position == 0 && s.inode.is_none());
    assert!(s.reports_open_failure());
    let s = FollowState::new("log".to_string(), false);
    assert!(!s.reports_open_failure());
}

#[test]
fn follow_growth_and_truncation() {
    let mut s = FollowState::new("log".to_string(), false);
    s.opened_at_end(100, Some(7));
    assert!(s.open && s.position == 100 && s.inode == Some(7));
    assert_eq!(s.check_size(100), SizeCheck { truncated: false, read_from: None });
    assert_eq!(s.check_size(150), SizeCheck { truncated: false, read_from: Some(100) });
    assert_eq!(s.position, 150);
    assert_eq!(s.check_size(40), SizeCheck { truncated: true, read_from: Some(0) });
    assert_eq!(s.position, 40);
    assert_eq!(s.check_size(0), SizeCheck { truncated: true, read_from: None });
    assert_eq!(s.position, 0);
}

#[test]
fn follow_replacement() {
    let mut s = FollowState::new("log".to_string(), true);
    assert!(!s.is_replaced(None));
    s.opened_at_end(10, Some(7));
    assert!(!s.is_replaced(Some(7)));
    assert!(s.is_replaced(Some(8)));
    assert!(s.is_replaced(None));
    s.forget_file();
    assert!(!s.open && s.position == 0);
    s.reopened(Some(8));
    assert!(s.open && s.position == 0 && s.inode == Some(8));
    assert!(!s.check_new_file_size(0));
    assert!(s.check_new_file_size(25));
    assert_eq!(s.position, 25);
    s.reopened(None);
    assert_eq!(s.inode, Some(8));
}

#[test]
fn follow_headers() {
    assert_eq!(
        follow_header(true, true, None, 0),
        HeaderAction { blank_line: false, header: true }
    );
    assert_eq!(
        follow_header(true, true, Some(0), 0),
        HeaderAction { blank_line: true, header: true }
    );
    assert_eq!(
        follow_header(true, false, Some(0), 0),
        HeaderAction { blank_line: false, header: false }
    );
    assert_eq!(
        follow_header(true, false, None, 0),
        HeaderAction { blank_line: false, header: true }
    );
    assert_eq!(
        follow_header(false, true, Some(1), 0),
        HeaderAction { blank_line: false, header: false }
    );
}

#[test]
fn follow_replacement_by_length() {
    let mut s = FollowState::new("log".to_string(), false);
    assert!(!s.is_replaced_by_length(None));
    s.opened_at_end(10, None);
    assert!(s.is_replaced_by_length(None));
    assert!(s.is_replaced_by_length(Some(9)));
    assert!(!s.is_replaced_by_length(Some(10)));
}

#[test]
fn descriptor_check_steps() {
    let mut s = FollowState::new("log".to_string(), false);
    assert_eq!(s.begin_check(FollowMode::Descriptor, true), FollowAction::Idle { truncated: false });
    assert_eq!(s.phase, CheckPhase::Ready);
    s.opened_at_end(10, Some(3));
    assert_eq!(s.begin_check(FollowMode::Descriptor, true), FollowAction::Measure);
    assert_eq!(s.measured(15), FollowAction::Print { from: 10, truncated: false });
    assert_eq!(s.position, 15);
    assert_eq!(s.begin_check(FollowMode::Descriptor, true), FollowAction::Measure);
    assert_eq!(s.measured(15), FollowAction::Idle { truncated: false });
    assert_eq!(s.begin_check(FollowMode::Descriptor, true), FollowAction::Measure);
    assert_eq!(s.measured(4), FollowAction::Print { from: 0, truncated: true });
    assert_eq!(s.position, 4);
    assert_eq!(s.phase, CheckPhase::Ready);
}

#[test]
fn descriptor_check_reopens_when_retrying() {
    let mut s = FollowState::new("log".to_string(), true);
    assert_eq!(s.begin_check(FollowMode::Descriptor, true), FollowAction::Reopen);
    assert_eq!(s.reopen_result(None), FollowAction::Idle { truncated: false });
    assert!(!s.open);
    assert_eq!(s.begin_check(FollowMode::Descriptor, true), FollowAction::Reopen);
    assert_eq!(s.reopen_result(Some(Some(9))), FollowAction::Idle { truncated: false });
    assert!(s.open && s.position == 0 && s.inode == Some(9));
    assert_eq!(s.begin_check(FollowMode::Descriptor, true), FollowAction::Measure);
    assert_eq!(s.measured(6), FollowAction::Print { from: 0, truncated: false });
}

#[test]
fn name_check_follows_replacement() {
    let mut s = FollowState::new("log".to_string(), false);
    s.opened_at_end(10, Some(3));
    assert_eq!(s.begin_check(FollowMode::Name, true), FollowAction::InspectPath);
    let same = Some(PathInfo { inode: Some(3), len: 12 });
    assert_eq!(s.path_inspected(same), FollowAction::Measure);
    assert_eq!(s.measured(12), FollowAction::Print { from: 10, truncated: false });
    assert_eq!(s.begin_check(FollowMode::Name, true), FollowAction::InspectPath);
    let other = Some(PathInfo { inode: Some(4), len: 5 });
    assert_eq!(s.path_inspected(other), FollowAction::Replaced);
    assert!(!s.open && s.position == 0);
    assert_eq!(s.reopen_result(Some(Some(4))), FollowAction::Measure);
    assert_eq!(s.measured(5), FollowAction::Print { from: 0, truncated: false });
    assert_eq!(s.position, 5);
    assert_eq!(s.inode, Some(4));
    assert_eq!(s.begin_check(FollowMode::Name, true), FollowAction::InspectPath);
    assert_eq!(s.path_inspected(None), FollowAction::Replaced);
    assert_eq!(s.reopen_result(None), FollowAction::Fail);
}

#[test]
fn name_check_by_length() {
    let mut s = FollowState::new("log".to_string(), true);
    assert_eq!(s.begin_check(FollowMode::Name, false), FollowAction::Reopen);
    assert_eq!(s.reopen_result(Some(None)), FollowAction::Idle { truncated: false });
    assert_eq!(s.begin_check(FollowMode::Name, false), FollowAction::InspectPath);
    assert_eq!(s.phase, CheckPhase::InspectByLength);
    let shorter = Some(PathInfo { inode: None, len: 0 });
    assert_eq!(s.path_inspected(shorter), FollowAction::Measure);
    assert_eq!(s.measured(0), FollowAction::Idle { truncated: false });
    assert_eq!(s.phase, CheckPhase::Ready);
}

#[test]
fn follow_output_tracks_last_file() {
    let mut o = FollowOutput::new(true, 1);
    assert!(!o.multiple_files);
    assert_eq!(o.before_new_data(0), HeaderAction { blank_line: false, header: true });
    assert_eq!(o.before_new_data(0), HeaderAction { blank_line: false, header: false });
    let mut o = FollowOutput::new(true, 2);
    assert_eq!(o.before_new_data(1), HeaderAction { blank_line: false, header: true });
    assert_eq!(o.before_new_data(1), HeaderAction { blank_line: true, header: true });
    assert_eq!(o.last_printed, Some(1));
}

#[test]
fn follow_ends_only_when_monitored_process_dies() {
    assert!(!follow_ends(None));
    assert!(!follow_ends(Some(true)));
    assert!(follow_ends(Some(false)));
}
