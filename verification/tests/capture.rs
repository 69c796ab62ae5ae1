use slmsttaa::capture::{insert_sorted, parse_checkpoints, Capture, Resume, Step};

#[test]
fn checkpoints_are_sorted_positive_and_unique() {
    assert_eq!(parse_checkpoints(" 30, 10,x,0,10 ,+5,"), vec![5, 10, 30]);
    assert_eq!(parse_checkpoints(""), Vec::<u64>::new());
    assert_eq!(parse_checkpoints("120"), vec![120]);
    assert_eq!(parse_checkpoints("-3,99999999999999999999,7"), vec![7]);
}

#[test]
fn inserting_keeps_order_and_drops_repeats() {
    let mut v = vec![2, 5, 9];
    insert_sorted(&mut v, 5);
    assert_eq!(v, vec![2, 5, 9]);
    insert_sorted(&mut v, 1);
    insert_sorted(&mut v, 7);
    insert_sorted(&mut v, 10);
    assert_eq!(v, vec![1, 2, 5, 7, 9, 10]);
}

#[test]
fn without_settings_there_is_no_capture() {
    assert!(Capture::from_settings(false, None).is_none());
    assert!(Capture::from_settings(false, Some("x, ,0")).is_none());
    assert!(Capture::from_settings(true, None).is_some());
    assert!(Capture::from_settings(false, Some("3")).is_some());
}

#[test]
fn each_checkpoint_is_announced_once_and_held() {
    let mut c = Capture::from_settings(false, Some("2,4")).unwrap();
    assert_eq!(c.step(Resume::Released), Step::Running);
    assert_eq!(c.end_frame(), None);
    assert_eq!(c.end_frame(), Some(2));
    assert!(c.is_frozen());
    assert_eq!(c.step(Resume::Waiting), Step::Frozen);
    assert_eq!(c.step(Resume::Waiting), Step::Frozen);
    assert_eq!(c.step(Resume::Released), Step::Resumed);
    assert_eq!(c.step(Resume::Waiting), Step::Running);
    assert_eq!(c.end_frame(), None);
    assert_eq!(c.end_frame(), Some(4));
    assert_eq!(c.step(Resume::Disconnected), Step::Resumed);
    assert_eq!(c.end_frame(), None);
    assert_eq!(c.frame(), 5);
}
