use virtualfs::rpc::AppError;
use virtualfs::transfer::{
    assembled_then_downloaded, chunk_action, downloaded_then_collected, progress_due,
    upload_error, written_result, Assembly, ChunkAction,
};

#[test]
fn progress_is_told_every_tenth_of_a_second() {
    assert!(!progress_due(0));
    assert!(!progress_due(99));
    assert!(progress_due(100));
}

#[test]
fn chunks_are_put_together_in_the_order_of_their_arrival() {
    let mut assembly = Assembly::new();
    assert_eq!(assembly.add(Ok(vec![1, 2]), 0), None);
    assert_eq!(assembly.add(Ok(vec![3]), 100), Some(3));
    assert_eq!(assembly.add(Ok(vec![4]), 99), None);
    assert!(!assembly.is_closed());
    assert_eq!(assembly.finish(), Ok(vec![1, 2, 3, 4]));
}

#[test]
fn an_empty_chunk_ends_a_transfer() {
    let mut assembly = Assembly::new();
    assembly.add(Ok(vec![1]), 0);
    assert_eq!(assembly.add(Ok(vec![]), 1000), None);
    assert!(assembly.is_closed());
    assert_eq!(assembly.add(Ok(vec![2]), 1000), None);
    assert_eq!(assembly.add(Err("late".to_string()), 1000), None);
    assert_eq!(assembly.finish(), Ok(vec![1]));
}

#[test]
fn a_transfer_that_breaks_off_gives_its_error() {
    let mut assembly = Assembly::new();
    assembly.add(Ok(vec![1]), 0);
    assert_eq!(assembly.add(Err("reset".to_string()), 1000), None);
    assembly.add(Ok(vec![2]), 1000);
    assert_eq!(assembly.finish(), Err("reset".to_string()));
}

#[test]
fn a_chunk_is_taken_or_ends_the_transfer() {
    assert!(matches!(chunk_action(Ok(vec![7])), ChunkAction::Take(b) if b == vec![7]));
    assert!(matches!(chunk_action(Ok(vec![])), ChunkAction::Finish));
    assert!(matches!(chunk_action(Err("x".to_string())), ChunkAction::Fail(t) if t == "x"));
}

#[test]
fn the_first_error_of_a_transfer_is_told() {
    let remote = |text: &str| AppError::Remote(text.to_string());
    let bytes = || Ok(Ok(vec![1u8]));
    let fail = |text: &str| Ok(Err(text.to_string()));
    assert_eq!(assembled_then_downloaded(bytes(), Ok(Ok(()))), Ok(vec![1]));
    assert_eq!(assembled_then_downloaded(fail("a"), Ok(Err("d".to_string()))), Err(remote("a")));
    assert_eq!(assembled_then_downloaded(Err("j".to_string()), Ok(Ok(()))), Err(remote("j")));
    assert_eq!(assembled_then_downloaded(bytes(), Ok(Err("d".to_string()))), Err(remote("d")));
    assert_eq!(assembled_then_downloaded(bytes(), Err("k".to_string())), Err(remote("k")));
    assert_eq!(downloaded_then_collected(Ok(Ok(())), bytes()), Ok(vec![1]));
    assert_eq!(downloaded_then_collected(Ok(Err("d".to_string())), fail("a")), Err(remote("d")));
    assert_eq!(downloaded_then_collected(Err("k".to_string()), bytes()), Err(remote("k")));
    assert_eq!(downloaded_then_collected(Ok(Ok(())), fail("a")), Err(remote("a")));
    assert_eq!(downloaded_then_collected(Ok(Ok(())), Err("j".to_string())), Err(remote("j")));
}

#[test]
fn what_is_told_of_files_that_were_written_or_sent() {
    assert_eq!(written_result(Ok(Ok(())), Ok(Ok(()))), Ok(()));
    assert_eq!(written_result(Ok(Ok(())), Err("task".to_string())), Err("task".to_string()));
    assert_eq!(
        written_result(Ok(Err("net".to_string())), Err("task".to_string())),
        Err("net".to_string())
    );
    assert_eq!(upload_error(Ok(Ok(()))), None);
    assert_eq!(upload_error(Ok(Err("full".to_string()))), Some("full".to_string()));
    assert_eq!(upload_error(Err("task".to_string())), Some("task".to_string()));
}
