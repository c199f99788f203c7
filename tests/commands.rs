use exchange::order::{BuySell, DecodeError, OrderBook, Price};
use exchange::{delete, new_order, Action, CommandError, Config};

#[test]
fn lib_parse_action() {
    let action: Action = Action::from_string("Q").unwrap();
    assert!(matches!(action, Action::Quit));
}

#[test]
fn main_parse_action() {
    let action: Action = Action::from_string("Q").unwrap();
    assert!(matches!(action, Action::Quit));
}

#[test]
fn every_action_name() {
    let cases = [
        ("Q", Action::Quit), ("Quit", Action::Quit), ("L", Action::List), ("List", Action::List),
        ("H", Action::Help), ("Help", Action::Help), ("B", Action::Buy), ("Buy", Action::Buy),
        ("S", Action::Sell), ("Sell", Action::Sell), ("D", Action::Delete), ("Delete", Action::Delete),
    ];
    for (text, action) in cases {
        assert_eq!(Action::from_string(text), Ok(action));
    }
    assert!(Action::from_string("quit").is_err());
    assert!(Action::from_string("").is_err());
}

#[test]
fn typed_command_any_case() {
    assert_eq!(Action::from_input("QUIT"), Some(Action::Quit));
    assert_eq!(Action::from_input("DeLeTe"), Some(Action::Delete));
    assert_eq!(Action::from_input("s"), Some(Action::Sell));
    assert_eq!(Action::from_input("Buy"), Some(Action::Buy));
    assert_eq!(Action::from_input("x"), None);
    assert_eq!(Action::from_lowered("list"), Some(Action::List));
    assert_eq!(Action::from_lowered("LIST"), None);
}

#[test]
fn config_needs_path() {
    assert_eq!(Config::build(&vec!["prog".to_string()]).unwrap_err(), "Input error");
    assert_eq!(Config::build(&vec![]).unwrap_err(), "Input error");
    let config = Config::build(&vec!["prog".to_string(), "book.txt".to_string()]).unwrap();
    assert_eq!(config.path, "book.txt");
}

#[test]
fn create_save_reload_scenario() {
    let (text, id1) = new_order("", BuySell::Sell, 2030, Price::parse("32.4").unwrap()).unwrap();
    assert_eq!(id1, 1);
    let (text, id2) = new_order(&text, BuySell::Buy, 1111, Price::parse("3040.2").unwrap()).unwrap();
    assert_eq!(id2, 2);
    let book = OrderBook::deserialize(&text).unwrap();
    let orders = book.orders();
    assert_eq!(orders.len(), 2);
    assert_eq!((orders[0].id, orders[0].buy_sell, orders[0].quantity), (1, BuySell::Sell, 2030));
    assert_eq!(orders[0].price.to_text(), "32.4");
    assert_eq!((orders[1].id, orders[1].buy_sell, orders[1].quantity), (2, BuySell::Buy, 1111));
    assert_eq!(orders[1].price.to_text(), "3040.2");
}

#[test]
fn new_order_errors() {
    let p = Price::parse("1").unwrap();
    assert_eq!(new_order("4294967295,B,1,1", BuySell::Buy, 1, p), Err(CommandError::NoIdLeft));
    assert_eq!(new_order("1,B", BuySell::Buy, 1, p), Err(CommandError::Decode(DecodeError::FieldCount)));
}

#[test]
fn delete_from_stored_text() {
    assert_eq!(delete("1,B,10,3.2\n2,S,12,3.6", 1), Ok("2,S,12,3.6".to_string()));
    assert_eq!(delete("1,B,10,3.2", 5), Ok("1,B,10,3.2".to_string()));
    assert_eq!(delete("1,B,10,3.2", 1), Ok(String::new()));
    assert_eq!(delete("1,B,ten,3.2", 1), Err(DecodeError::Quantity));
}
