use kvs::error::KvError;
use kvs::wal::{Commands, WriteAheadLog};

#[test]
fn test_write_and_read_log() {
    // A fresh log over empty backing bytes.
    let mut wal = WriteAheadLog::new(Vec::new()).expect("empty log replays cleanly");

    // Commands to test
    let commands = vec![
        Commands::Put { key: "key1".to_string(), value: "value1".to_string() },
        Commands::Get { key: "key1".to_string() },
        Commands::Rm { key: "key1".to_string() },
    ];

    // Append commands to the WAL
    for command in &commands {
        wal.append(command.clone());
    }

    // Read commands back using the iterator
    let mut read_commands: Vec<Commands> = Vec::new();
    let mut it = wal.iter(0);
    while let Some(command) = it.next().expect("clean log") {
        read_commands.push(command);
    }

    // Ensure commands read match the commands written
    assert_eq!(read_commands, commands);
}

#[test]
fn pointer_tracks_appends() {
    let mut wal = WriteAheadLog::new(Vec::new()).expect("empty log replays cleanly");
    assert_eq!(wal.pointer(), (0, 0));
    let first = wal.append(Commands::Put { key: "a".to_string(), value: "1".to_string() });
    assert_eq!(wal.pointer(), (first.len() as u64, 1));
    let second = wal.append(Commands::Rm { key: "a".to_string() });
    assert_eq!(wal.pointer(), ((first.len() + second.len()) as u64, 2));
}

#[test]
fn reopen_from_appended_records() {
    let mut wal = WriteAheadLog::new(Vec::new()).expect("empty log replays cleanly");
    let mut file: Vec<u8> = Vec::new();
    file.extend(wal.append(Commands::Put { key: "a".to_string(), value: "1".to_string() }));
    file.extend(wal.append(Commands::Get { key: "a".to_string() }));
    let reopened = WriteAheadLog::new(file.clone()).expect("records replay cleanly");
    assert_eq!(reopened.pointer(), (file.len() as u64, 2));
}

#[test]
fn corrupt_tail_is_reported() {
    let mut wal = WriteAheadLog::new(Vec::new()).expect("empty log replays cleanly");
    let mut file: Vec<u8> = Vec::new();
    file.extend(wal.append(Commands::Put { key: "a".to_string(), value: "1".to_string() }));
    file.pop();
    assert!(matches!(WriteAheadLog::new(file), Err(KvError::DecodeError)));
}

#[test]
fn replay_from_mid_entry_offset_fails() {
    let mut wal = WriteAheadLog::new(Vec::new()).expect("empty log replays cleanly");
    wal.append(Commands::Put { key: "a".to_string(), value: "1".to_string() });
    let mut it = wal.iter(1);
    assert_eq!(it.next(), Err(KvError::DecodeError));
}

#[test]
fn replay_from_entry_boundary() {
    let mut wal = WriteAheadLog::new(Vec::new()).expect("empty log replays cleanly");
    let first = wal.append(Commands::Put { key: "a".to_string(), value: "1".to_string() });
    let second = Commands::Rm { key: "a".to_string() };
    wal.append(second.clone());
    let mut it = wal.iter(first.len() as u64);
    assert_eq!(it.next(), Ok(Some(second)));
    assert_eq!(it.next(), Ok(None));
}

#[test]
fn replay_past_end_is_clean() {
    let mut wal = WriteAheadLog::new(Vec::new()).expect("empty log replays cleanly");
    wal.append(Commands::Get { key: "a".to_string() });
    let mut it = wal.iter(1_000_000);
    assert_eq!(it.next(), Ok(None));
}
