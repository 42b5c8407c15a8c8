use rand::distributions::{Distribution, LogNormal};
use spacing::boxes::{Boxes, SelectedEntry, BOX_DEFAULT_CAPACITY};
use spacing::entry::Entry;
use spacing::model::{Selection, BOX_COUNT, DRAW_LIMIT};

fn entry(lhs: &str, rhs: &str) -> Entry {
    Entry { lhs: String::from(lhs), rhs: String::from(rhs) }
}

fn lens(b: &Boxes) -> Vec<usize> {
    let mut lens = Vec::new();
    for i in 0..BOX_COUNT {
        lens.push(b.entries(i).len());
    }
    lens.push(b.finished().len());
    lens
}

#[test]
fn new_boxes_statelessnes() {
    let b1 = Boxes::new();
    let b2 = Boxes::new();
    for b_i in 0..BOX_COUNT {
        assert_eq!(b1.entries(b_i), b2.entries(b_i));
    }
}

#[test]
fn new_boxes_default_capacity() {
    let b = Boxes::new();
    for b_i in 0..BOX_COUNT {
        assert_eq!(b.entries(b_i).capacity(), BOX_DEFAULT_CAPACITY);
    }
}

#[test]
fn new_boxes_are_empty() {
    let b = Boxes::new();
    assert_eq!(BOX_COUNT, 5);
    assert_eq!(lens(&b), vec![0, 0, 0, 0, 0, 0]);
    assert!(b.is_empty());
}

#[test]
fn new_boxes_do_not_share_state() {
    let mut b1 = Boxes::new();
    let b2 = Boxes::new();
    b1.add(0, entry("foo", "bar"));
    assert_eq!(b1.entries(0).len(), 1);
    assert_eq!(b2.entries(0).len(), 0);
}

#[test]
fn select_entry() {
    // create entry
    let e = entry("foo", "bar");

    // create boxes
    let mut b = Boxes::new();
    b.add(2, e.clone());

    // select and compare
    let selected = b.select_entry(2, 0);
    assert_eq!(selected.lhs, e.lhs);
    assert_eq!(selected.rhs, e.rhs);
}

#[test]
fn select_entry_records_its_place() {
    let mut b = Boxes::new();
    b.add(3, entry("a", "1"));
    b.add(3, entry("b", "2"));
    let selected = b.select_entry(3, 1);
    assert_eq!(selected.lhs, "b");
    assert_eq!(selected.rhs, "2");
    assert_eq!(selected.box_i, 3);
    assert_eq!(selected.entry_i, 1);
    assert!(b.contains(&selected));
}

#[test]
fn move_entry() {
    // create entries
    let e1 = entry("e1 lhs", "e1 lhs");
    let e2 = entry("e2 lhs", "e2 lhs");

    // create boxes
    let mut b = Boxes::new();
    b.add(0, e1.clone());
    b.add(4, e2.clone());

    // check left box boundary
    let e = e1.clone();
    b.move_entry(SelectedEntry { lhs: e.lhs, rhs: e.rhs, box_i: 0, entry_i: 0 }, false);
    assert_eq!(b.entries(0).len(), 1); // entry still in 0...
    assert_eq!(b.entries(1).len(), 0); // and not moved to 1
    assert_eq!(b.entries(0)[0], e1);

    // check moving backward
    let e = e2.clone();
    b.move_entry(SelectedEntry { lhs: e.lhs, rhs: e.rhs, box_i: 4, entry_i: 0 }, false);
    assert_eq!(b.entries(4).len(), 0); // element moved from 4...
    assert_eq!(b.entries(3).len(), 1); // to 3
    assert_eq!(b.entries(3)[0], e2);

    // check moving forward
    let e = e2.clone();
    b.move_entry(SelectedEntry { lhs: e.lhs, rhs: e.rhs, box_i: 3, entry_i: 0 }, true);
    assert_eq!(b.entries(3).len(), 0); // element moved from 3...
    assert_eq!(b.entries(4).len(), 1); // to 4
    assert_eq!(b.entries(4)[0], e2);

    // check right box boundary
    let e = e2.clone();
    b.move_entry(SelectedEntry { lhs: e.lhs, rhs: e.rhs, box_i: 4, entry_i: 0 }, true);
    assert_eq!(b.entries(4).len(), 0); // entry deleted
    assert_eq!(b.entries(3).len(), 0); // and not moved to 3
}

#[test]
fn move_forward_joins_the_end_of_the_next_box() {
    let mut b = Boxes::new();
    b.add(3, entry("a", "1"));
    b.add(3, entry("b", "2"));
    b.add(3, entry("c", "3"));
    b.add(4, entry("x", "9"));
    let selected = b.select_entry(3, 1);
    b.move_entry(selected, true);
    assert_eq!(lens(&b), vec![0, 0, 0, 2, 2, 0]);
    assert_eq!(b.entries(3), &vec![entry("a", "1"), entry("c", "3")]);
    assert_eq!(b.entries(4), &vec![entry("x", "9"), entry("b", "2")]);
}

#[test]
fn move_forward_from_each_box_but_the_last() {
    for box_i in 0..BOX_COUNT - 1 {
        let mut b = Boxes::new();
        b.add(box_i, entry("foo", "bar"));
        let selected = b.select_entry(box_i, 0);
        b.move_entry(selected, true);
        let mut expected = vec![0; BOX_COUNT + 1];
        expected[box_i + 1] = 1;
        assert_eq!(lens(&b), expected);
        assert_eq!(b.entries(box_i + 1)[0], entry("foo", "bar"));
    }
}

#[test]
fn graduate_from_the_last_box() {
    let mut b = Boxes::new();
    b.add(4, entry("a", "1"));
    b.add(4, entry("b", "2"));
    let selected = b.select_entry(4, 0);
    b.move_entry(selected, true);
    assert_eq!(lens(&b), vec![0, 0, 0, 0, 1, 1]);
    assert_eq!(b.entries(4), &vec![entry("b", "2")]);
    assert_eq!(b.finished(), &vec![entry("a", "1")]);
    let selected = b.select_entry(4, 0);
    b.move_entry(selected, true);
    assert_eq!(lens(&b), vec![0, 0, 0, 0, 0, 2]);
    assert_eq!(b.finished(), &vec![entry("a", "1"), entry("b", "2")]);
}

#[test]
fn move_backward_joins_the_end_of_the_box_before() {
    let mut b = Boxes::new();
    b.add(3, entry("x", "9"));
    b.add(4, entry("a", "1"));
    b.add(4, entry("b", "2"));
    let selected = b.select_entry(4, 0);
    b.move_entry(selected, false);
    assert_eq!(lens(&b), vec![0, 0, 0, 2, 1, 0]);
    assert_eq!(b.entries(3), &vec![entry("x", "9"), entry("a", "1")]);
    assert_eq!(b.entries(4), &vec![entry("b", "2")]);
}

#[test]
fn move_backward_from_each_box_but_the_first() {
    for box_i in 1..BOX_COUNT {
        let mut b = Boxes::new();
        b.add(box_i, entry("foo", "bar"));
        let selected = b.select_entry(box_i, 0);
        b.move_entry(selected, false);
        let mut expected = vec![0; BOX_COUNT + 1];
        expected[box_i - 1] = 1;
        assert_eq!(lens(&b), expected);
    }
}

#[test]
fn wrong_answer_in_the_first_box_changes_nothing() {
    let mut b = Boxes::new();
    b.add(0, entry("a", "1"));
    b.add(0, entry("b", "2"));
    b.add(1, entry("c", "3"));
    let selected = b.select_entry(0, 0);
    b.move_entry(selected, false);
    assert_eq!(lens(&b), vec![2, 1, 0, 0, 0, 0]);
    assert_eq!(b.entries(0), &vec![entry("a", "1"), entry("b", "2")]);
    assert_eq!(b.entries(1), &vec![entry("c", "3")]);
}

#[test]
fn moves_keep_the_number_of_entries() {
    let mut b = Boxes::new();
    for box_i in 0..BOX_COUNT {
        b.add(box_i, entry("foo", "bar"));
        b.add(box_i, entry("baz", "qux"));
    }
    let answers = [true, false, false, true, true, true, false, true, true, true];
    for (step, successful) in answers.iter().enumerate() {
        let box_i = step % BOX_COUNT;
        if b.entries(box_i).len() > 0 {
            let selected = b.select_entry(box_i, 0);
            b.move_entry(selected, *successful);
        }
        assert_eq!(lens(&b).iter().sum::<usize>(), 10);
    }
}

#[test]
fn equal_entries_move_by_position() {
    let mut b = Boxes::new();
    b.add(1, entry("foo", "bar"));
    b.add(1, entry("foo", "bar"));
    let selected = b.select_entry(1, 1);
    b.move_entry(selected, true);
    assert_eq!(lens(&b), vec![0, 1, 1, 0, 0, 0]);
}

#[test]
fn contains_rejects_a_stale_selection() {
    let mut b = Boxes::new();
    b.add(1, entry("a", "1"));
    b.add(1, entry("b", "2"));
    let first = b.select_entry(1, 0);
    let second = b.select_entry(1, 1);
    assert!(b.contains(&first));
    assert!(b.contains(&second));
    b.move_entry(first, true);
    // The second entry is now at position 0: the selection is stale.
    assert!(!b.contains(&second));
    assert!(!b.contains(&SelectedEntry {
        lhs: String::from("b"),
        rhs: String::from("2"),
        box_i: 1,
        entry_i: 1
    }));
    assert!(b.contains(&SelectedEntry {
        lhs: String::from("b"),
        rhs: String::from("2"),
        box_i: 1,
        entry_i: 0
    }));
}

#[test]
fn contains_rejects_what_is_out_of_range_or_differs() {
    let mut b = Boxes::new();
    b.add(0, entry("a", "1"));
    let make = |lhs: &str, rhs: &str, box_i: usize, entry_i: usize| SelectedEntry {
        lhs: String::from(lhs),
        rhs: String::from(rhs),
        box_i,
        entry_i,
    };
    assert!(b.contains(&make("a", "1", 0, 0)));
    assert!(!b.contains(&make("a", "1", 5, 0)));
    assert!(!b.contains(&make("a", "1", usize::MAX, 0)));
    assert!(!b.contains(&make("a", "1", 0, 1)));
    assert!(!b.contains(&make("a", "1", 1, 0)));
    assert!(!b.contains(&make("a", "2", 0, 0)));
    assert!(!b.contains(&make("b", "1", 0, 0)));
}

#[test]
fn select_random_box_by_draw() {
    assert_eq!(DRAW_LIMIT, 6);
    assert_eq!(Boxes::select_random_box(0), Some(0));
    assert_eq!(Boxes::select_random_box(1), Some(1));
    assert_eq!(Boxes::select_random_box(2), Some(2));
    assert_eq!(Boxes::select_random_box(3), Some(3));
    assert_eq!(Boxes::select_random_box(4), Some(4));
    assert_eq!(Boxes::select_random_box(5), Some(4));
    assert_eq!(Boxes::select_random_box(6), None);
    assert_eq!(Boxes::select_random_box(7), None);
    assert_eq!(Boxes::select_random_box(u64::MAX), None);
}

#[test]
fn select_random_box_stays_in_range_and_favours_the_first_box() {
    let d = LogNormal::new(0.0, 1.0);
    let mut rng = rand::thread_rng();
    let mut counts = [0usize; BOX_COUNT];
    let mut chosen = 0;
    while chosen < 200000 {
        let draw = d.sample(&mut rng) as u64;
        if let Some(box_i) = Boxes::select_random_box(draw) {
            assert!(box_i < BOX_COUNT);
            counts[box_i] += 1;
            chosen += 1;
        }
    }
    for box_i in 1..BOX_COUNT {
        assert!(counts[box_i - 1] > counts[box_i]);
    }
    assert!(counts[0] > counts[4]);
}

#[test]
fn select_random_nonempty_box_of_empty_boxes() {
    let b = Boxes::new();
    for draw in 0..10 {
        assert_eq!(b.select_random_nonempty_box(draw), Selection::Empty);
    }
}

#[test]
fn select_random_nonempty_box_ignores_finished_entries() {
    let mut b = Boxes::new();
    b.add(4, entry("foo", "bar"));
    let selected = b.select_entry(4, 0);
    b.move_entry(selected, true);
    assert_eq!(b.finished().len(), 1);
    assert!(b.is_empty());
    assert_eq!(b.select_random_nonempty_box(4), Selection::Empty);
}

#[test]
fn select_random_nonempty_box_by_draw() {
    let mut b = Boxes::new();
    b.add(1, entry("foo", "bar"));
    b.add(4, entry("baz", "qux"));
    assert!(!b.is_empty());
    assert_eq!(b.select_random_nonempty_box(0), Selection::Retry);
    assert_eq!(b.select_random_nonempty_box(1), Selection::Selected(1));
    assert_eq!(b.select_random_nonempty_box(2), Selection::Retry);
    assert_eq!(b.select_random_nonempty_box(3), Selection::Retry);
    assert_eq!(b.select_random_nonempty_box(4), Selection::Selected(4));
    assert_eq!(b.select_random_nonempty_box(5), Selection::Selected(4));
    assert_eq!(b.select_random_nonempty_box(6), Selection::Retry);
    assert_eq!(b.select_random_nonempty_box(u64::MAX), Selection::Retry);
}

#[test]
fn select_random_entry_of_empty_boxes() {
    let b = Boxes::new();
    for draw in 0..10 {
        assert!(matches!(b.select_random_entry(draw), Selection::Empty));
    }
}

#[test]
fn select_random_entry_is_empty_only_for_empty_boxes() {
    for box_i in 0..BOX_COUNT {
        let mut b = Boxes::new();
        b.add(box_i, entry("foo", "bar"));
        for draw in 0..10 {
            assert!(!matches!(b.select_random_entry(draw), Selection::Empty));
        }
    }
}

#[test]
fn select_random_entry_by_draw() {
    let mut b = Boxes::new();
    b.add(2, entry("foo", "bar"));
    assert!(matches!(b.select_random_entry(0), Selection::Retry));
    assert!(matches!(b.select_random_entry(6), Selection::Retry));
    match b.select_random_entry(2) {
        Selection::Selected(e) => {
            assert_eq!(e.lhs, "foo");
            assert_eq!(e.rhs, "bar");
            assert_eq!(e.box_i, 2);
            assert_eq!(e.entry_i, 0);
        }
        other => panic!("no entry was selected: {:?}", other),
    }
}

#[test]
fn select_random_entry_picks_a_position_of_the_box() {
    let mut b = Boxes::new();
    b.add(0, entry("a", "1"));
    b.add(0, entry("b", "2"));
    b.add(0, entry("c", "3"));
    let mut seen = [false; 3];
    for _ in 0..500 {
        match b.select_random_entry(0) {
            Selection::Selected(e) => {
                assert_eq!(e.box_i, 0);
                assert!(e.entry_i < 3);
                assert!(b.contains(&e));
                seen[e.entry_i] = true;
            }
            other => panic!("no entry was selected: {:?}", other),
        }
    }
    assert_eq!(seen, [true, true, true]);
}

#[test]
fn a_session_of_draws_and_answers() {
    let mut b = Boxes::new();
    b.add(0, entry("foo", "bar"));
    let d = LogNormal::new(0.0, 1.0);
    let mut rng = rand::thread_rng();
    let mut answered = 0;
    while answered < 5 {
        match b.select_random_entry(d.sample(&mut rng) as u64) {
            Selection::Empty => panic!("the entry was lost"),
            Selection::Retry => {}
            Selection::Selected(e) => {
                assert_eq!(e.box_i, answered);
                b.move_entry(e, true);
                answered += 1;
            }
        }
    }
    assert_eq!(lens(&b), vec![0, 0, 0, 0, 0, 1]);
    assert!(matches!(b.select_random_entry(0), Selection::Empty));
}
