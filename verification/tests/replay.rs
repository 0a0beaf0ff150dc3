use build_orders::replay::{unseen_replays, Replay};

#[test]
fn a_replay_is_known_by_the_hash_of_its_bytes() {
    let replay = Replay::new(b"hello".to_vec(), "a/b.SC2Replay");
    assert_eq!(replay.file_path, "a/b.SC2Replay");
    assert_eq!(
        replay.content_hash,
        "2cf24dba5fb0a30e26e83b2ac5b9e29e1b161e5c1fa7425e73043362938b9824"
    );
    assert_eq!(
        Replay::new(vec![], "").content_hash,
        "e3b0c44298fc1c149afbf4c8996fb92427ae41e4649b934ca495991b7852b855"
    );
}

#[test]
fn a_replay_that_was_read_twice_is_used_once() {
    let replays = vec![
        Replay::new(b"one".to_vec(), "first"),
        Replay::new(b"two".to_vec(), "second"),
        Replay::new(b"one".to_vec(), "copy of first"),
        Replay::new(b"three".to_vec(), "third"),
        Replay::new(b"two".to_vec(), "copy of second"),
        Replay::new(b"one".to_vec(), "another copy"),
    ];
    assert_eq!(unseen_replays(&replays), vec![0, 1, 3]);
    assert_eq!(unseen_replays(&vec![]), Vec::<usize>::new());
}
