use outagefs::journal::Change;
use outagefs::show::show_change;
use outagefs::show::show_changes;

#[test]
fn sync_is_shown_by_name() {
    assert_eq!(show_change(0, &Change::Sync, false), "     0 Sync");
    assert_eq!(show_change(0, &Change::Sync, true), "     0 Sync");
}

#[test]
fn index_is_padded_to_six() {
    assert_eq!(show_change(42, &Change::Sync, false), "    42 Sync");
    assert_eq!(show_change(99999, &Change::Sync, false), " 99999 Sync");
    assert_eq!(show_change(123456, &Change::Sync, false), "123456 Sync");
    assert_eq!(show_change(1234567, &Change::Sync, false), "1234567 Sync");
}

#[test]
fn write_is_shown_in_short() {
    let change = Change::Write {
        offset: 12,
        data: vec![1, 0, 255],
    };
    assert_eq!(show_change(3, &change, false), "     3 Write at 12 with 3 bytes");
}

#[test]
fn write_of_zeros_is_noted() {
    let change = Change::Write {
        offset: 4096,
        data: vec![0; 2048],
    };
    assert_eq!(
        show_change(7, &change, false),
        "     7 Write at 4096 with 2048 bytes of zeros"
    );
    let empty = Change::Write {
        offset: 0,
        data: vec![],
    };
    assert_eq!(show_change(0, &empty, false), "     0 Write at 0 with 0 bytes of zeros");
}

#[test]
fn write_is_shown_in_full() {
    let change = Change::Write {
        offset: 12,
        data: vec![1, 0, 255],
    };
    assert_eq!(show_change(3, &change, true), "     3 Write at 12 with [1, 0, 255]");
    assert_eq!(
        show_change(3, &change, true),
        format!("{:6} Write at {} with {:?}", 3, 12, vec![1u8, 0, 255])
    );
    let one = Change::Write {
        offset: 0,
        data: vec![9],
    };
    assert_eq!(show_change(1, &one, true), "     1 Write at 0 with [9]");
    let empty = Change::Write {
        offset: 0,
        data: vec![],
    };
    assert_eq!(show_change(2, &empty, true), "     2 Write at 0 with []");
}

#[test]
fn change_list_is_shown_line_by_line() {
    let changes = vec![
        Change::Write {
            offset: 1,
            data: vec![4, 6],
        },
        Change::Sync,
        Change::Write {
            offset: 0,
            data: vec![0, 0],
        },
    ];
    assert_eq!(
        show_changes(&changes, false),
        vec![
            "     0 Write at 1 with 2 bytes",
            "     1 Sync",
            "     2 Write at 0 with 2 bytes of zeros",
        ]
    );
    assert_eq!(
        show_changes(&changes, true),
        vec![
            "     0 Write at 1 with [4, 6]",
            "     1 Sync",
            "     2 Write at 0 with [0, 0]",
        ]
    );
    assert_eq!(show_changes(&vec![], true), Vec::<String>::new());
}
