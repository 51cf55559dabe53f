use outagefs::errors::ErrorKind;
use outagefs::journal::parse_filter;
use outagefs::journal::Change;
use outagefs::journal::ChangeFilter;
use outagefs::journal::Journal;

fn sample_journal() -> Journal {
    let mut journal = Journal::new(vec![9, 5, 7]);
    journal.changes.push(Change::Write {
        offset: 1,
        data: vec![4, 6],
    });
    journal.changes.push(Change::Write {
        offset: 0,
        data: vec![8, 3],
    });
    journal
}

#[test]
fn test_journal_changes() {
    let mut journal = Journal::new(vec![9, 5, 7]);
    assert_eq!(journal.data(None), vec![9, 5, 7]);
    journal.changes.push(Change::Write {
        offset: 1,
        data: vec![4, 6],
    });
    assert_eq!(journal.data(None), vec![9, 4, 6]);
    journal.changes.push(Change::Write {
        offset: 0,
        data: vec![8, 3],
    });
    assert_eq!(journal.data(None), vec![8, 3, 6]);
}

#[test]
fn test_journal_change_filter() {
    let mut journal = Journal::new(vec![9, 5, 7]);
    journal.changes.push(Change::Write {
        offset: 1,
        data: vec![4, 6],
    });
    journal.changes.push(Change::Write {
        offset: 0,
        data: vec![8, 3],
    });
    let p = |s: &str| -> Option<ChangeFilter> {
        let filter: ChangeFilter = s.parse().unwrap();
        Some(filter)
    };
    assert_eq!(journal.data(p("11").as_ref()), vec![8, 3, 6]);
    assert_eq!(journal.data(p("1:1").as_ref()), vec![8, 3, 6]);
    assert_eq!(journal.data(p("10").as_ref()), vec![9, 4, 6]);
    assert_eq!(journal.data(p("1:0").as_ref()), vec![9, 4, 6]);
    assert_eq!(journal.data(p("01").as_ref()), vec![8, 3, 7]);
    assert_eq!(journal.data(p("00").as_ref()), vec![9, 5, 7]);
    assert_eq!(journal.data(p("2:0").as_ref()), vec![8, 3, 6]);
}

#[test]
fn test_mount() {
    let mut journal = Journal::new(vec![9, 5, 7]);
    {
        let mut session = journal.mount(None);
        assert_eq!(session.read(0, 4096), &[9u8, 5, 7][..]);
        assert_eq!(session.write(0, &[3, 2, 1]), 3);
        assert_eq!(session.read(0, 4096), &[3u8, 2, 1][..]);
    }
    assert_eq!(journal.data(None), vec![3, 2, 1]);

    {
        let mut session = journal.mount(None);
        assert_eq!(session.read(0, 4096), &[3u8, 2, 1][..]);
        assert_eq!(session.write(0, &[0, 0, 0]), 3);
    }
    assert_eq!(journal.data(None), vec![0, 0, 0]);

    journal.changes.clear();
    assert_eq!(journal.data(None), vec![9, 5, 7]);
}

#[test]
fn test_dump_load() {
    let mut journal = Journal::new(vec![9, 5, 7]);
    journal.changes.push(Change::Write {
        offset: 1,
        data: vec![4, 6],
    });
    journal.changes.push(Change::Write {
        offset: 0,
        data: vec![8, 3],
    });

    let plan = journal.dump(None, false);
    let base = plan.base.unwrap();
    let changes = plan.changes.unwrap();

    let journal2 = Journal::load(base, Some(&changes[..])).unwrap();
    assert_eq!(journal2.changes, journal.changes);
    assert_eq!(journal2.data(None), journal.data(None));
    assert_eq!(*journal2.initial_data, vec![9, 5, 7]);
}

#[test]
fn mount_with_filter_starts_from_the_filtered_image() {
    let mut journal = sample_journal();
    let filter: ChangeFilter = "10".parse().unwrap();
    {
        let mut session = journal.mount(Some(&filter));
        assert_eq!(session.read(0, 3), &[9u8, 4, 6][..]);
        session.fsync();
    }
    assert_eq!(journal.changes.len(), 3);
    assert_eq!(journal.changes[2], Change::Sync);
}

#[test]
fn replay_keeps_the_length_of_the_initial_data() {
    let journal = sample_journal();
    for text in ["", "0", "1", "00", "01", "10", "11", "111111", "5:01"] {
        let filter: ChangeFilter = text.parse().unwrap();
        assert_eq!(journal.data(Some(&filter)).len(), 3);
    }
    assert_eq!(journal.data(None).len(), 3);
}

#[test]
fn appended_write_shows_in_its_region_only() {
    let mut journal = Journal::new(vec![1, 2, 3, 4, 5, 6, 7, 8]);
    journal.changes.push(Change::Write {
        offset: 2,
        data: vec![20, 30, 40],
    });
    journal.changes.push(Change::Sync);
    let before = journal.data(None);
    journal.changes.push(Change::Write {
        offset: 3,
        data: vec![91, 92, 93, 94],
    });
    let after = journal.data(None);
    assert_eq!(&after[3..7], &[91, 92, 93, 94]);
    assert_eq!(&after[..3], &before[..3]);
    assert_eq!(&after[7..], &before[7..]);
    assert_eq!(after, vec![1, 2, 20, 91, 92, 93, 94, 8]);
}

#[test]
fn empty_filter_text_means_no_filter() {
    let journal = sample_journal();
    let chosen = parse_filter("").unwrap();
    assert!(chosen.is_none());
    assert_eq!(journal.data(chosen.as_ref()), journal.data(None));
    assert_eq!(journal.data(chosen.as_ref()), vec![8, 3, 6]);
}

#[test]
fn empty_filter_value_takes_nothing() {
    let journal = sample_journal();
    let filter: ChangeFilter = "".parse().unwrap();
    assert_eq!(journal.data(Some(&filter)), vec![9, 5, 7]);
}

#[test]
fn parse_filter_reads_a_filter() {
    let journal = sample_journal();
    let chosen = parse_filter("1:0").unwrap();
    assert!(chosen.is_some());
    assert_eq!(journal.data(chosen.as_ref()), vec![9, 4, 6]);
    let refused = parse_filter("1:2").unwrap_err();
    assert_eq!(refused.kind, ErrorKind::InvalidInput);
}

#[test]
fn filter_bits_past_the_end_are_not_taken() {
    let filter: ChangeFilter = "2:01".parse().unwrap();
    assert!(filter.should_take(0));
    assert!(filter.should_take(1));
    assert!(!filter.should_take(2));
    assert!(filter.should_take(3));
    assert!(!filter.should_take(4));
    assert!(!filter.should_take(1000));
}

#[test]
fn filter_count_may_be_zero_or_signed_plus() {
    let zero: ChangeFilter = "0:1".parse().unwrap();
    assert!(zero.should_take(0));
    assert!(!zero.should_take(1));
    let plus: ChangeFilter = "+2:".parse().unwrap();
    assert!(plus.should_take(1));
    assert!(!plus.should_take(2));
    let padded: ChangeFilter = "003:0".parse().unwrap();
    assert!(padded.should_take(2));
    assert!(!padded.should_take(3));
}

#[test]
fn filter_refuses_other_characters() {
    for text in ["2", "1x", "a", "1:12", "1:1:1", " 1", "1 ", "\u{ff11}"] {
        let refused = text.parse::<ChangeFilter>().unwrap_err();
        assert_eq!(refused.kind, ErrorKind::InvalidInput);
    }
    let error = "1:0a".parse::<ChangeFilter>().unwrap_err();
    assert_eq!(error.to_string(), "unexpected char: a");
}

#[test]
fn filter_refuses_a_count_that_is_no_number() {
    for text in [":1", "+:1", "x:1", "1x:1", "-1:1", "-0:1", "1.5:1", " 1:1", "++1:1"] {
        let refused = text.parse::<ChangeFilter>().unwrap_err();
        assert_eq!(refused.kind, ErrorKind::InvalidInput);
    }
    assert_eq!(
        ":1".parse::<ChangeFilter>().unwrap_err().to_string(),
        "cannot parse integer from empty string"
    );
    assert_eq!(
        "x:1".parse::<ChangeFilter>().unwrap_err().to_string(),
        "invalid digit found in string"
    );
}

#[test]
fn filter_refuses_a_count_that_is_too_large() {
    let refused = "2147483648:1".parse::<ChangeFilter>().unwrap_err();
    assert_eq!(refused.kind, ErrorKind::InvalidInput);
    assert_eq!(refused.to_string(), "number too large to fit in target type");
    let refused = "99999999999999999999999999:".parse::<ChangeFilter>().unwrap_err();
    assert_eq!(refused.kind, ErrorKind::InvalidInput);
}

#[test]
fn well_formedness_is_checked() {
    let mut journal = sample_journal();
    assert!(journal.is_well_formed());
    journal.changes.push(Change::Sync);
    journal.changes.push(Change::Write {
        offset: 3,
        data: vec![],
    });
    assert!(journal.is_well_formed());
    journal.changes.push(Change::Write {
        offset: 2,
        data: vec![1, 2],
    });
    assert!(!journal.is_well_formed());
    journal.changes.pop();
    journal.changes.push(Change::Write {
        offset: u64::MAX,
        data: vec![1],
    });
    assert!(!journal.is_well_formed());
}

#[test]
fn merge_collapses_history() {
    let journal = sample_journal();
    let filter: ChangeFilter = "10".parse().unwrap();
    let merged = journal.merge(Some(&filter));
    assert_eq!(*merged.initial_data, vec![9, 4, 6]);
    assert!(merged.changes.is_empty());
    assert_eq!(merged.data(None), vec![9, 4, 6]);
    let all = journal.merge(None);
    assert_eq!(*all.initial_data, vec![8, 3, 6]);
}

#[test]
fn dump_writes_only_what_differs() {
    let journal = sample_journal();
    let plan = journal.dump(Some(&[9u8, 5, 7][..]), true);
    assert!(plan.base.is_none());
    assert!(plan.changes.is_some());
    let plan = journal.dump(Some(&[9u8, 5][..]), false);
    assert_eq!(plan.base, Some(vec![9, 5, 7]));

    let empty = Journal::new(vec![1]);
    let plan = empty.dump(None, false);
    assert_eq!(plan.base, Some(vec![1]));
    assert!(plan.changes.is_none());
    let plan = empty.dump(Some(&[1u8][..]), true);
    assert!(plan.base.is_none());
    assert_eq!(plan.changes, Some(vec![0]));
}

#[test]
fn load_without_changes_file_has_no_changes() {
    let journal = Journal::load(vec![1, 2, 3], None).unwrap();
    assert!(journal.changes.is_empty());
    assert_eq!(journal.data(None), vec![1, 2, 3]);
}

#[test]
fn load_refuses_corrupt_changes() {
    let refused = Journal::load(vec![1, 2, 3], Some(&[2u8, 1][..])).unwrap_err();
    assert_eq!(refused.kind, ErrorKind::InvalidData);
    assert_eq!(refused.to_string(), "invalid changes data");
    let refused = Journal::load(vec![1, 2, 3], Some(&[0u8; 0][..])).unwrap_err();
    assert_eq!(refused.kind, ErrorKind::InvalidData);
}

#[test]
fn dump_then_load_after_clearing_gives_the_cleared_journal() {
    let mut journal = sample_journal();
    journal.changes.clear();
    let plan = journal.dump(Some(&[9u8, 5, 7][..]), true);
    let stored = plan.changes.unwrap();
    let loaded = Journal::load(vec![9, 5, 7], Some(&stored[..])).unwrap();
    assert!(loaded.changes.is_empty());
}
