//! The command feed: one command to a line, read byte by byte.
//!
//! A line starts with a sign. After a space comes a number, and for a new
//! order a second space and a second number. `=` with an amount takes
//! liquidity, `-` with an index takes an order out, and a line with two
//! numbers adds an order of the second number's size at the first number's
//! price, whatever its sign.

use vstd::prelude::*;

verus! {

/// The sign of a line that takes an order out.
pub const MINUS: u8 = 0x2d;

/// The sign of a line that takes liquidity.
pub const EQUALS: u8 = 0x3d;

/// What parts the fields of a line.
pub const SPACE: u8 = 0x20;

/// What ends a line.
pub const NEWLINE: u8 = 0x0a;

/// What the reader expects next.
#[derive(Clone, Copy, Debug, PartialEq, Eq, Structural)]
pub enum State {
    ParseSign,
    ParseNumA,
    ParseNumB,
}

/// A command of the feed.
#[derive(Clone, Copy, Debug, PartialEq, Eq, Structural)]
pub enum Command {
    /// A new order of size `amount` at `price`.
    Add { price: u64, amount: u64 },
    /// Take the order with this number out of the book.
    Remove { index: u64 },
    /// Take this amount from the book.
    Take { amount: u64 },
}

/// The reader of the feed: where in a line it is, the sign of the line, and
/// the numbers read so far.
#[derive(Clone, Copy, Debug, PartialEq, Eq, Structural)]
pub struct Reader {
    pub state: State,
    pub sign: u8,
    pub num_a: u64,
    pub num_b: u64,
}

/// A number with one more decimal digit behind it. Whatever the byte, it is
/// taken for a digit, and the arithmetic wraps.
pub open spec fn with_digit(n: u64, c: u8) -> u64 {
    n.wrapping_mul(10).wrapping_add((c as u64).wrapping_sub(0x30))
}

/// Where a digit goes behind a number that has room for it, the number is
/// ten times what it was, and the digit.
pub proof fn lemma_with_digit(n: u64, c: u8)
    requires
        0x30 <= c <= 0x39,
        n * 10 + (c - 0x30) <= u64::MAX,
    ensures
        with_digit(n, c) == n * 10 + (c - 0x30),
{
}

/// The reader after the byte `c`.
pub open spec fn read(r: Reader, c: u8) -> Reader {
    match r.state {
        State::ParseSign => if c == SPACE {
            Reader { state: State::ParseNumA, ..r }
        } else {
            Reader { sign: c, num_a: 0, ..r }
        },
        State::ParseNumA => if c == SPACE {
            Reader { state: State::ParseNumB, num_b: 0, ..r }
        } else if c == NEWLINE {
            if r.sign == EQUALS || r.sign == MINUS {
                Reader { state: State::ParseSign, ..r }
            } else {
                r
            }
        } else {
            Reader { num_a: with_digit(r.num_a, c), ..r }
        },
        State::ParseNumB => if c == NEWLINE {
            Reader { state: State::ParseSign, ..r }
        } else {
            Reader { num_b: with_digit(r.num_b, c), ..r }
        },
    }
}

/// The command that the byte `c` completes, if it completes one.
pub open spec fn completed(r: Reader, c: u8) -> Option<Command> {
    if c != NEWLINE {
        None
    } else {
        match r.state {
            State::ParseSign => None,
            State::ParseNumA => if r.sign == EQUALS {
                Some(Command::Take { amount: r.num_a })
            } else if r.sign == MINUS {
                Some(Command::Remove { index: r.num_a })
            } else {
                None
            },
            State::ParseNumB => Some(Command::Add { price: r.num_a, amount: r.num_b }),
        }
    }
}

impl Reader {
    /// A reader at the start of a line.
    pub fn new() -> (r: Reader)
        ensures
            r == (Reader { state: State::ParseSign, sign: 0, num_a: 0, num_b: 0 }),
    {
        Reader { state: State::ParseSign, sign: 0, num_a: 0, num_b: 0 }
    }

    /// Reads one byte, and returns the command that it completes, if any.
    pub fn step(&mut self, c: u8) -> (command: Option<Command>)
        ensures
            *final(self) == read(*old(self), c),
            command == completed(*old(self), c),
    {
        match self.state {
            State::ParseSign => {
                if c == SPACE {
                    self.state = State::ParseNumA;
                } else {
                    self.sign = c;
                    self.num_a = 0;
                }
                None
            },
            State::ParseNumA => {
                if c == SPACE {
                    self.num_b = 0;
                    self.state = State::ParseNumB;
                    None
                } else if c == NEWLINE {
                    if self.sign == EQUALS {
                        self.state = State::ParseSign;
                        Some(Command::Take { amount: self.num_a })
                    } else if self.sign == MINUS {
                        self.state = State::ParseSign;
                        Some(Command::Remove { index: self.num_a })
                    } else {
                        None
                    }
                } else {
                    self.num_a = self.num_a.wrapping_mul(10).wrapping_add((c as u64).wrapping_sub(0x30));
                    None
                }
            },
            State::ParseNumB => {
                if c == NEWLINE {
                    self.state = State::ParseSign;
                    Some(Command::Add { price: self.num_a, amount: self.num_b })
                } else {
                    self.num_b = self.num_b.wrapping_mul(10).wrapping_add((c as u64).wrapping_sub(0x30));
                    None
                }
            },
        }
    }
}

} // verus!
