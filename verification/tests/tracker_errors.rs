use matchtop::tracker::{RankTracker, TrackError};

#[test]
fn exit_for_value_never_entered_is_an_error() {
    let mut t = RankTracker::new();
    assert_eq!(t.update_count_exitwin("ghost"), Err(TrackError::MissingEntry));
    // the tracker is unchanged and still usable
    assert_eq!(t.snapshot().len(), 0);
    t.update_count_enterwin("ghost");
    assert_eq!(t.snapshot().len(), 1);
}

#[test]
fn exit_after_count_reached_zero_is_an_error() {
    let mut t = RankTracker::new();
    t.update_count_enterwin("v");
    assert_eq!(t.update_count_exitwin("v"), Ok(()));
    assert_eq!(t.update_count_exitwin("v"), Err(TrackError::MissingEntry));
}

#[test]
fn enter_and_exit_move_buckets() {
    let mut t = RankTracker::new();
    t.update_count_enterwin("a");
    t.update_count_enterwin("a");
    t.update_count_enterwin("b");
    {
        let s = t.snapshot();
        assert_eq!(s.len(), 2);
        assert_eq!(s[0].0, 1);
        assert_eq!(s[0].1, vec!["b".to_string()]);
        assert_eq!(s[1].0, 2);
        assert_eq!(s[1].1, vec!["a".to_string()]);
    }
    assert_eq!(t.update_count_exitwin("a"), Ok(()));
    {
        // both values now share count 1: one bucket, no empty one left behind
        let s = t.snapshot();
        assert_eq!(s.len(), 1);
        assert_eq!(s[0].0, 1);
        let mut members = s[0].1.clone();
        members.sort();
        assert_eq!(members, vec!["a".to_string(), "b".to_string()]);
    }
}

#[test]
fn emptied_bucket_is_deleted() {
    let mut t = RankTracker::new();
    t.update_count_enterwin("only");
    assert_eq!(t.update_count_exitwin("only"), Ok(()));
    assert_eq!(t.snapshot().len(), 0);
}
