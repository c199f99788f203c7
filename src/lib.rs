//! A small persistent book of trade orders: a line-per-order text codec,
//! an in-memory store with id allocation and deletion, and the steps of the
//! command loop that turn a stored book and a request into a new book.
use vstd::prelude::*;

pub mod decimal;
pub mod text;
pub mod order;

use crate::order::{
    decode_text, join_lines, next_id_of, without_id, BuySell, DecodeError, Order, OrderBook, Price,
};
use crate::text::chars_of;

verus! {

/// Where the book is kept.
#[derive(Debug)]
pub struct Config {
    pub path: String,
}

impl Config {
    /// The configuration from the command line: `args` holds the program
    /// name and then the path of the book's file, which must be given.
    pub fn build(args: &Vec<String>) -> (r: Result<Config, &'static str>)
        ensures
            r is Ok <==> args@.len() >= 2,
            r is Ok ==> r->Ok_0.path@ == args@[1]@,
            r is Err ==> r->Err_0@ == "Input error"@,
    {
        if args.len() < 2 {
            return Err("Input error");
        }
        let path = args[1].clone();
        Ok(Config { path })
    }
}

/// A command of the interactive loop.
#[derive(Debug, Clone, Copy, PartialEq, Eq, Structural)]
pub enum Action {
    Quit,
    List,
    Help,
    Buy,
    Sell,
    Delete,
}

/// The action that `s` names exactly: its one-letter shortcut or its full
/// name, in the case shown.
pub open spec fn action_of(s: Seq<char>) -> Option<Action> {
    if s == "Q"@ || s == "Quit"@ {
        Some(Action::Quit)
    } else if s == "L"@ || s == "List"@ {
        Some(Action::List)
    } else if s == "H"@ || s == "Help"@ {
        Some(Action::Help)
    } else if s == "B"@ || s == "Buy"@ {
        Some(Action::Buy)
    } else if s == "S"@ || s == "Sell"@ {
        Some(Action::Sell)
    } else if s == "D"@ || s == "Delete"@ {
        Some(Action::Delete)
    } else {
        None
    }
}

/// Whether two texts hold the same characters.
fn same_text(a: &str, b: &str) -> (r: bool)
    ensures
        r == (a@ == b@),
{
    let x = chars_of(a);
    let y = chars_of(b);
    if x.len() != y.len() {
        return false;
    }
    let mut i: usize = 0;
    while i < x.len()
        invariant
            x@ == a@,
            y@ == b@,
            x@.len() == y@.len(),
            0 <= i <= x@.len(),
            x@.subrange(0, i as int) == y@.subrange(0, i as int),
        decreases x@.len() - i,
    {
        if x[i] != y[i] {
            assert(a@[i as int] != b@[i as int]);
            return false;
        }
        assert(x@.subrange(0, i as int + 1) =~= x@.subrange(0, i as int).push(x@[i as int]));
        assert(y@.subrange(0, i as int + 1) =~= y@.subrange(0, i as int).push(y@[i as int]));
        i = i + 1;
    }
    assert(x@ =~= x@.subrange(0, i as int));
    assert(y@ =~= y@.subrange(0, i as int));
    true
}

impl Action {
    /// The action that `string` names: `Q`/`Quit`, `L`/`List`, `H`/`Help`,
    /// `B`/`Buy`, `S`/`Sell` or `D`/`Delete`; any other text is refused.
    pub fn from_string(string: &str) -> (r: Result<Action, &'static str>)
        ensures
            r is Ok <==> action_of(string@) is Some,
            r is Ok ==> r->Ok_0 == action_of(string@)->0,
    {
        if same_text(string, "Q") || same_text(string, "Quit") {
            Ok(Action::Quit)
        } else if same_text(string, "L") || same_text(string, "List") {
            Ok(Action::List)
        } else if same_text(string, "H") || same_text(string, "Help") {
            Ok(Action::Help)
        } else if same_text(string, "B") || same_text(string, "Buy") {
            Ok(Action::Buy)
        } else if same_text(string, "S") || same_text(string, "Sell") {
            Ok(Action::Sell)
        } else if same_text(string, "D") || same_text(string, "Delete") {
            Ok(Action::Delete)
        } else {
            Err("Cannot convert to Action")
        }
    }
}

/// The lowercase form of a text, as `str::to_lowercase` gives it.
pub uninterp spec fn lowercase_of(s: Seq<char>) -> Seq<char>;

/// Relies on `str::to_lowercase`: the result depends on the text alone.
#[verifier::external_body]
fn lowercase(s: &str) -> (r: String)
    ensures
        r@ == lowercase_of(s@),
{
    s.to_lowercase()
}

/// The action that an already lowercased command names: its shortcut or
/// its full name.
pub open spec fn command_of(lowered: Seq<char>) -> Option<Action> {
    if lowered == "q"@ || lowered == "quit"@ {
        Some(Action::Quit)
    } else if lowered == "h"@ || lowered == "help"@ {
        Some(Action::Help)
    } else if lowered == "l"@ || lowered == "list"@ {
        Some(Action::List)
    } else if lowered == "d"@ || lowered == "delete"@ {
        Some(Action::Delete)
    } else if lowered == "b"@ || lowered == "buy"@ {
        Some(Action::Buy)
    } else if lowered == "s"@ || lowered == "sell"@ {
        Some(Action::Sell)
    } else {
        None
    }
}

impl Action {
    /// The action that a lowercased command names, if any.
    pub fn from_lowered(lowered: &str) -> (r: Option<Action>)
        ensures
            r == command_of(lowered@),
    {
        if same_text(lowered, "q") || same_text(lowered, "quit") {
            Some(Action::Quit)
        } else if same_text(lowered, "h") || same_text(lowered, "help") {
            Some(Action::Help)
        } else if same_text(lowered, "l") || same_text(lowered, "list") {
            Some(Action::List)
        } else if same_text(lowered, "d") || same_text(lowered, "delete") {
            Some(Action::Delete)
        } else if same_text(lowered, "b") || same_text(lowered, "buy") {
            Some(Action::Buy)
        } else if same_text(lowered, "s") || same_text(lowered, "sell") {
            Some(Action::Sell)
        } else {
            None
        }
    }

    /// The action that a typed command names, in any case: its shortcut
    /// or its full name.
    pub fn from_input(input: &str) -> (r: Option<Action>)
        ensures
            r == command_of(lowercase_of(input@)),
    {
        let lowered = lowercase(input);
        Action::from_lowered(lowered.as_str())
    }
}

/// Why a command on the stored book could not be carried out.
#[derive(Debug, Clone, Copy, PartialEq, Eq, Structural)]
pub enum CommandError {
    /// The stored text does not read as a book.
    Decode(DecodeError),
    /// The book already holds the largest possible id, so no new id is left.
    NoIdLeft,
}

/// Deletes the order `order_id` from the book stored as `stored`, and returns
/// the text to store in its place; fails only when `stored` does not read.
pub fn delete(stored: &str, order_id: u32) -> (r: Result<String, DecodeError>)
    ensures
        match decode_text(stored@) {
            Ok(s) => r is Ok && r->Ok_0@ == join_lines(without_id(s, order_id)),
            Err(e) => r == Err::<String, DecodeError>(e),
        },
{
    let mut book = match OrderBook::deserialize(stored) {
        Ok(b) => b,
        Err(e) => {
            return Err(e);
        },
    };
    book.delete_order(order_id);
    Ok(book.serialize())
}

/// Adds a new order to the book stored as `stored`, and returns the text to
/// store in its place together with the new order's id.
pub fn new_order(stored: &str, buy_sell: BuySell, quantity: u16, price: Price) -> (r: Result<
    (String, u32),
    CommandError,
>)
    ensures
        match decode_text(stored@) {
            Ok(s) => if next_id_of(s) <= u32::MAX {
                match r {
                    Ok((text, id)) => id == next_id_of(s) && text@ == join_lines(
                        s.push(Order { id, buy_sell, quantity, price }),
                    ),
                    Err(_) => false,
                }
            } else {
                r == Err::<(String, u32), CommandError>(CommandError::NoIdLeft)
            },
            Err(e) => r == Err::<(String, u32), CommandError>(CommandError::Decode(e)),
        },
{
    let mut book = match OrderBook::deserialize(stored) {
        Ok(b) => b,
        Err(e) => {
            return Err(CommandError::Decode(e));
        },
    };
    if book.next_id().is_none() {
        return Err(CommandError::NoIdLeft);
    }
    let id = book.create_order(buy_sell, quantity, price);
    Ok((book.serialize(), id))
}

} // verus!
