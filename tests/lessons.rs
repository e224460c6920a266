use minigrep::lessons::{
    add_one, build_user, calculate_length, change_mutable_reference, value_in_cents, Coin,
    UsState,
};

#[test]
fn add_one_increments() {
    assert_eq!(6, add_one(5));
    assert_eq!(0, add_one(-1));
    assert_eq!(i32::MAX, add_one(i32::MAX - 1));
}

#[test]
fn calculate_length_counts_bytes() {
    assert_eq!(5, calculate_length(&String::from("hello")));
    assert_eq!(0, calculate_length(&String::new()));
    assert_eq!(2, calculate_length(&String::from("ü")));
}

#[test]
fn change_mutable_reference_appends() {
    let mut s = String::from("hello");
    change_mutable_reference(&mut s);
    assert_eq!("hello, world", s);
}

#[test]
fn build_user_fills_defaults() {
    let user = build_user(String::from("mail@test.ch"), String::from("franz"));
    assert!(user.active);
    assert_eq!("franz", user.username);
    assert_eq!("mail@test.ch", user.email);
    assert_eq!(1, user.sign_in_count);
}

#[test]
fn coin_values() {
    assert_eq!(1, value_in_cents(&Coin::Penny));
    assert_eq!(5, value_in_cents(&Coin::Nickel));
    assert_eq!(10, value_in_cents(&Coin::Dime));
    assert_eq!(25, value_in_cents(&Coin::Quarter(UsState::Alabama)));
}
