use order_book::feed::{Command, Reader, State, EQUALS, MINUS, NEWLINE, SPACE};

fn commands(text: &str) -> Vec<Command> {
    let mut reader = Reader::new();
    let mut out = Vec::new();
    for &c in text.as_bytes() {
        if let Some(command) = reader.step(c) {
            out.push(command);
        }
    }
    out
}

#[test]
fn the_marks_of_the_feed() {
    assert_eq!(MINUS, b'-');
    assert_eq!(EQUALS, b'=');
    assert_eq!(SPACE, b' ');
    assert_eq!(NEWLINE, b'\n');
}

#[test]
fn a_reader_starts_at_the_sign() {
    let reader = Reader::new();
    assert_eq!(reader, Reader { state: State::ParseSign, sign: 0, num_a: 0, num_b: 0 });
}

#[test]
fn a_line_with_two_numbers_adds_an_order() {
    assert_eq!(commands("+ 100 5\n"), vec![Command::Add { price: 100, amount: 5 }]);
    assert_eq!(commands("= 100 5\n"), vec![Command::Add { price: 100, amount: 5 }]);
}

#[test]
fn a_line_with_one_number_takes_or_removes() {
    assert_eq!(commands("= 7\n"), vec![Command::Take { amount: 7 }]);
    assert_eq!(commands("- 3\n"), vec![Command::Remove { index: 3 }]);
}

#[test]
fn lines_follow_one_another() {
    assert_eq!(
        commands("+ 10 5\n+ 12 7\n= 6\n- 0\n+ 18446744073709551615 0\n"),
        vec![
            Command::Add { price: 10, amount: 5 },
            Command::Add { price: 12, amount: 7 },
            Command::Take { amount: 6 },
            Command::Remove { index: 0 },
            Command::Add { price: u64::MAX, amount: 0 },
        ]
    );
}

#[test]
fn a_line_that_is_not_ended_gives_nothing() {
    assert_eq!(commands("+ 10 5"), vec![]);
    assert_eq!(commands("= 6"), vec![]);
    assert_eq!(commands(""), vec![]);
}

#[test]
fn the_reader_goes_through_its_states() {
    let mut reader = Reader::new();
    assert_eq!(reader.step(b'+'), None);
    assert_eq!(reader, Reader { state: State::ParseSign, sign: b'+', num_a: 0, num_b: 0 });
    assert_eq!(reader.step(b' '), None);
    assert_eq!(reader.state, State::ParseNumA);
    assert_eq!(reader.step(b'4'), None);
    assert_eq!(reader.step(b'2'), None);
    assert_eq!(reader.num_a, 42);
    assert_eq!(reader.step(b' '), None);
    assert_eq!(reader.state, State::ParseNumB);
    assert_eq!(reader.step(b'9'), None);
    assert_eq!(reader.num_b, 9);
    assert_eq!(reader.step(b'\n'), Some(Command::Add { price: 42, amount: 9 }));
    assert_eq!(reader, Reader { state: State::ParseSign, sign: b'+', num_a: 42, num_b: 9 });
}

#[test]
fn a_new_sign_clears_the_first_number() {
    let mut reader = Reader::new();
    for &c in b"= 55\n-".iter() {
        reader.step(c);
    }
    assert_eq!(reader, Reader { state: State::ParseSign, sign: b'-', num_a: 0, num_b: 0 });
}

#[test]
fn a_plus_line_with_one_number_waits_for_more() {
    let mut reader = Reader::new();
    for &c in b"+ 5".iter() {
        assert_eq!(reader.step(c), None);
    }
    assert_eq!(reader.step(b'\n'), None);
    assert_eq!(reader.state, State::ParseNumA);
    assert_eq!(reader.num_a, 5);
}

#[test]
fn numbers_wrap() {
    // 2^64 = 18446744073709551616
    assert_eq!(commands("= 18446744073709551616\n"), vec![Command::Take { amount: 0 }]);
    assert_eq!(commands("= 18446744073709551621\n"), vec![Command::Take { amount: 5 }]);
    // a byte below the digits counts as a digit below zero
    assert_eq!(commands("= 1/\n"), vec![Command::Take { amount: 9 }]);
    assert_eq!(commands("= /\n"), vec![Command::Take { amount: u64::MAX }]);
}
