use array_list::text::{join, wrap};
use array_list::{IArray, Wrapper};

#[test]
fn wrapper_follows_the_contract() {
    let mut array = Wrapper::<i64>::new();
    assert_eq!(0, array.size());
    array.insert(42, 0);
    array.insert(1024, 0);
    array.insert(-339, 2);
    array.insert(-851, 1);
    array.push(5);
    assert_eq!(5, array.size());
    assert_eq!(&1024, array.get(0));
    assert_eq!(&(-851), array.get(1));
    assert_eq!(&42, array.get(2));
    assert_eq!(&(-339), array.get(3));
    assert_eq!(&5, array.get(4));
    assert_eq!(1024, array.remove(0));
    assert_eq!(5, array.remove(3));
    assert_eq!(3, array.size());
    assert_eq!(&(-851), array.get(0));
}

#[test]
fn wrapper_default_is_empty() {
    let array = Wrapper::<u8>::default();
    assert_eq!(0, array.size());
}

#[test]
fn join_puts_the_separator_between() {
    let none: Vec<String> = vec![];
    assert_eq!("", join(&none, ", "));
    assert_eq!("a", join(&vec![String::from("a")], ", "));
    let three = vec![String::from("a"), String::from(""), String::from("c")];
    assert_eq!("a, , c", join(&three, ", "));
    assert_eq!("a\n\nc", join(&three, "\n"));
    assert_eq!("ac", join(&three, ""));
}

#[test]
fn wrap_puts_text_between() {
    assert_eq!("[x]", wrap("[", "x", "]"));
    assert_eq!("()", wrap("(", "", ")"));
}
