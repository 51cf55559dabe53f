use outagefs::journal::Change;
use outagefs::journal::Journal;
use outagefs::mutate::any_nonzero;
use outagefs::mutate::ends_fit;
use outagefs::mutate::mutate_journal;
use outagefs::mutate::zero_bytes;
use outagefs::mutate::MutateOpt;

fn opt(drop_sync: bool, split_write: bool, zero_fill: bool) -> MutateOpt {
    MutateOpt {
        drop_sync,
        split_write,
        zero_fill,
    }
}

fn journal_of(size: usize, changes: Vec<Change>) -> Journal {
    let mut journal = Journal::new(vec![0xaa; size]);
    journal.changes = changes;
    journal
}

fn mixed_changes() -> Vec<Change> {
    vec![
        Change::Sync,
        Change::Write {
            offset: 3,
            data: vec![1, 0, 2],
        },
        Change::Sync,
        Change::Sync,
        Change::Write {
            offset: 10,
            data: (0..5000u32).map(|i| (i % 251) as u8).collect(),
        },
        Change::Write {
            offset: 0,
            data: vec![0, 0],
        },
        Change::Sync,
    ]
}

#[test]
fn split_write_cuts_a_large_write_in_pieces() {
    let payload: Vec<u8> = (0..5000u32).map(|i| (i % 253) as u8).collect();
    let mut journal = journal_of(
        5000,
        vec![Change::Write {
            offset: 0,
            data: payload.clone(),
        }],
    );
    mutate_journal(&mut journal, &opt(false, true, false));
    assert_eq!(journal.changes.len(), 3);
    let mut joined = Vec::new();
    let mut places = Vec::new();
    for change in &journal.changes {
        match change {
            Change::Write { offset, data } => {
                places.push((*offset, data.len()));
                joined.extend_from_slice(data);
            }
            Change::Sync => panic!("no sync was there"),
        }
    }
    assert_eq!(places, vec![(0, 2048), (2048, 2048), (4096, 904)]);
    assert_eq!(joined, payload);
    assert_eq!(*journal.initial_data, vec![0xaa; 5000]);
}

#[test]
fn split_write_moves_the_offsets_of_the_pieces() {
    let mut journal = journal_of(
        9000,
        vec![Change::Write {
            offset: 100,
            data: vec![7; 4096],
        }],
    );
    mutate_journal(&mut journal, &opt(false, true, false));
    assert_eq!(
        journal.changes,
        vec![
            Change::Write {
                offset: 100,
                data: vec![7; 2048]
            },
            Change::Write {
                offset: 2148,
                data: vec![7; 2048]
            },
        ]
    );
}

#[test]
fn split_write_leaves_writes_of_one_piece_alone() {
    let changes = vec![
        Change::Write {
            offset: 0,
            data: vec![1; 2048],
        },
        Change::Write {
            offset: 5,
            data: vec![],
        },
        Change::Sync,
    ];
    let mut journal = journal_of(4096, changes.clone());
    mutate_journal(&mut journal, &opt(false, true, false));
    assert_eq!(journal.changes, changes);
    let mut journal = journal_of(
        4096,
        vec![Change::Write {
            offset: 0,
            data: vec![1; 2049],
        }],
    );
    mutate_journal(&mut journal, &opt(false, true, false));
    assert_eq!(
        journal.changes,
        vec![
            Change::Write {
                offset: 0,
                data: vec![1; 2048]
            },
            Change::Write {
                offset: 2048,
                data: vec![1; 1]
            },
        ]
    );
}

#[test]
fn drop_sync_removes_every_sync() {
    let mut journal = journal_of(6000, mixed_changes());
    mutate_journal(&mut journal, &opt(true, false, false));
    assert_eq!(journal.changes.len(), 3);
    assert!(journal.changes.iter().all(|c| *c != Change::Sync));
    assert_eq!(journal.changes[0], mixed_changes()[1]);
    assert_eq!(journal.changes[1], mixed_changes()[4]);
    assert_eq!(journal.changes[2], mixed_changes()[5]);
}

#[test]
fn drop_sync_twice_is_drop_sync_once() {
    let mut once = journal_of(6000, mixed_changes());
    mutate_journal(&mut once, &opt(true, false, false));
    let mut twice = journal_of(6000, mixed_changes());
    mutate_journal(&mut twice, &opt(true, false, false));
    mutate_journal(&mut twice, &opt(true, false, false));
    assert_eq!(once.changes, twice.changes);
}

#[test]
fn split_and_drop_twice_is_once() {
    let mut once = journal_of(6000, mixed_changes());
    mutate_journal(&mut once, &opt(true, true, false));
    let mut twice = journal_of(6000, mixed_changes());
    mutate_journal(&mut twice, &opt(true, true, false));
    mutate_journal(&mut twice, &opt(true, true, false));
    assert_eq!(once.changes, twice.changes);
}

#[test]
fn no_flags_leaves_the_list_alone() {
    let mut journal = journal_of(6000, mixed_changes());
    mutate_journal(&mut journal, &opt(false, false, false));
    assert_eq!(journal.changes, mixed_changes());
}

#[test]
fn zero_fill_puts_zeros_before_a_write() {
    let mut journal = journal_of(
        8,
        vec![
            Change::Write {
                offset: 3,
                data: vec![1, 0, 2],
            },
            Change::Write {
                offset: 0,
                data: vec![0, 0],
            },
            Change::Sync,
        ],
    );
    mutate_journal(&mut journal, &opt(false, false, true));
    assert_eq!(
        journal.changes,
        vec![
            Change::Write {
                offset: 3,
                data: vec![0, 0, 0]
            },
            Change::Write {
                offset: 3,
                data: vec![1, 0, 2]
            },
            Change::Write {
                offset: 0,
                data: vec![0, 0]
            },
            Change::Sync,
        ]
    );
    assert_eq!(journal.data(None), vec![0, 0, 0xaa, 1, 0, 2, 0xaa, 0xaa]);
}

#[test]
fn zero_fill_with_split_leaves_the_zeros_whole() {
    let mut journal = journal_of(
        5000,
        vec![Change::Write {
            offset: 0,
            data: vec![5; 3000],
        }],
    );
    mutate_journal(&mut journal, &opt(false, true, true));
    assert_eq!(
        journal.changes,
        vec![
            Change::Write {
                offset: 0,
                data: vec![0; 3000]
            },
            Change::Write {
                offset: 0,
                data: vec![5; 2048]
            },
            Change::Write {
                offset: 2048,
                data: vec![5; 952]
            },
        ]
    );
}

#[test]
fn mutating_keeps_writes_within_the_image() {
    let mut journal = journal_of(6000, mixed_changes());
    assert!(journal.is_well_formed());
    mutate_journal(&mut journal, &opt(true, true, true));
    assert!(journal.is_well_formed());
    let mut plain = journal_of(6000, mixed_changes());
    mutate_journal(&mut plain, &opt(false, false, false));
    assert_eq!(journal.data(None), plain.data(None));
}

#[test]
fn nonzero_bytes_are_found() {
    assert!(!any_nonzero(&vec![]));
    assert!(!any_nonzero(&vec![0, 0, 0]));
    assert!(any_nonzero(&vec![0, 0, 1]));
    assert!(any_nonzero(&vec![255]));
    assert_eq!(zero_bytes(0), Vec::<u8>::new());
    assert_eq!(zero_bytes(3), vec![0, 0, 0]);
}

#[test]
fn writes_that_end_past_the_largest_offset_are_found() {
    assert!(ends_fit(&mixed_changes()));
    assert!(ends_fit(&vec![Change::Write {
        offset: u64::MAX,
        data: vec![],
    }]));
    assert!(ends_fit(&vec![Change::Write {
        offset: u64::MAX - 2,
        data: vec![1, 2],
    }]));
    assert!(!ends_fit(&vec![
        Change::Sync,
        Change::Write {
            offset: u64::MAX - 1,
            data: vec![1, 2],
        }
    ]));
}
