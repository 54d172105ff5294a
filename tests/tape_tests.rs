use biir::tape::{Tape, TapeError};

#[test]
fn tape_test_moving() {
    let mut tape = Tape::default();
    // assert twice to make sure that it didn't actually overflow
    assert_ne!(tape.move_left(1), Ok(()));
    assert_ne!(tape.move_left(1), Ok(()));

    assert_eq!(tape.move_right(usize::MAX), Ok(()));
    assert_ne!(tape.move_right(1), Ok(()));
}

#[test]
fn tape_test_current_value() {
    let mut tape = Tape::default();

    assert_eq!(tape.current_value, 0);
    assert_ne!(tape.move_left(1), Ok(()));
    assert_eq!(tape.current_value, 0);

    assert_eq!(tape.move_right(usize::MAX), Ok(()));
    assert_eq!(tape.current_value, 0);

    assert_ne!(tape.move_right(1), Ok(()));
    assert_eq!(tape.current_value, 0);
}

#[test]
fn test_value_changing() {
    let mut tape = Tape::default();
    tape.inc(usize::MAX);
    assert_eq!(tape.current_value, usize::MAX);
    tape.inc(1);
    assert_eq!(tape.current_value, 0);
    tape.dec(1);
    assert_eq!(tape.current_value, usize::MAX);
}

#[test]
fn test_tape_display() {
    assert_eq!(Tape::from(vec![1, 2, 3]).to_string(), "[1] 2 3");
    assert_eq!(
        Tape::from(vec![1, 2, 3, 4, 5, 6, 7, 8, 9, 10]).to_string(),
        "[1] 2 3 4 5 6 7 8 9 10"
    );

    let mut tape = Tape::from(vec![1, 2, 3, 4, 5, 6, 7, 8, 9, 10, 11, 12]);
    tape.move_right(5).unwrap();
    assert_eq!(tape.to_string(), "1 2 3 4 5 [6] 7 8 9 10 ... (2)");

    tape.move_right(1).unwrap();
    assert_eq!(tape.to_string(), "(1) ... 2 3 4 5 6 [7] 8 9 10 11 ... (1)");

    tape.move_right(1).unwrap();
    assert_eq!(tape.to_string(), "(2) ... 3 4 5 6 7 [8] 9 10 11 12");

    tape.move_right(1).unwrap();
    assert_eq!(tape.to_string(), "(2) ... 3 4 5 6 7 8 [9] 10 11 12");

    tape.move_right(2).unwrap();
    assert_eq!(tape.to_string(), "(2) ... 3 4 5 6 7 8 9 10 [11] 12");

    tape.move_right(1).unwrap();
    assert_eq!(tape.to_string(), "(2) ... 3 4 5 6 7 8 9 10 11 [12]");

    let mut tape: Tape = (1..=20).collect::<Vec<usize>>().into();
    tape.move_right(9).unwrap();
    assert_eq!(
        tape.to_string(),
        "(4) ... 5 6 7 8 9 [10] 11 12 13 14 ... (6)"
    );
}

#[test]
fn test_tape_test_moving() {
    let mut tape = Tape::new();
    // assert twice to make sure that it didn't actually overflow
    assert_ne!(tape.move_left(1), Ok(()));
    assert_ne!(tape.move_left(1), Ok(()));

    for _ in 0..u16::MAX {
        assert_eq!(tape.move_right(1), Ok(()));
    }

    assert_ne!(tape.move_right(1), Ok(()));
    assert_ne!(tape.move_right(1), Ok(()));
}

#[test]
fn test_tape_test_current_value() {
    let mut tape = Tape::new();

    assert_eq!(tape.current_value, 0);
    assert_ne!(tape.move_left(1), Ok(()));
    assert_eq!(tape.current_value, 0);

    for _ in 0..u16::MAX {
        assert_eq!(tape.move_right(1), Ok(()));
        assert_eq!(tape.current_value, 0);
    }

    assert_ne!(tape.move_right(1), Ok(()));
    assert_eq!(tape.current_value, 0);
}

#[test]
fn boundary_errors_leave_tape_unchanged() {
    let mut tape = Tape::default();
    tape.inc(7);
    assert_eq!(tape.move_left(1), Err(TapeError::NegativePosition));
    assert_eq!(tape.current_value, 7);
    assert_eq!(tape.current_position, 0);
    tape.move_right(usize::MAX).unwrap();
    assert_eq!(tape.move_right(1), Err(TapeError::PastLastPosition));
    assert_eq!(tape.current_position, usize::MAX);
}

#[test]
fn fresh_cells_read_zero_and_written_cells_keep_their_value() {
    let mut tape = Tape::default();
    tape.inc(5);
    tape.move_right(3).unwrap();
    assert_eq!(tape.current_value, 0);
    tape.inc(9);
    tape.move_left(3).unwrap();
    assert_eq!(tape.current_value, 5);
    tape.move_right(3).unwrap();
    assert_eq!(tape.current_value, 9);
    assert_eq!(tape.to_string(), "5 0 0 [9]");
}

#[test]
fn wrapping_at_both_ends() {
    let mut tape = Tape::default();
    tape.dec(1);
    assert_eq!(tape.current_value, usize::MAX);
    tape.inc(1);
    assert_eq!(tape.current_value, 0);
    tape.set_current_value(10);
    tape.dec(12);
    assert_eq!(tape.current_value, usize::MAX - 1);
}

#[test]
fn short_window_shows_every_cell() {
    let mut tape = Tape::from(vec![1, 2, 3, 4, 5, 6, 7, 8]);
    tape.move_right(7).unwrap();
    assert_eq!(tape.to_string(), "1 2 3 4 5 6 7 [8]");
    assert_eq!(Tape::from(Vec::new()).to_string(), "[0]");
}
