//! Small value-level helpers: arithmetic, string length and extension,
//! record construction and coin values.
use vstd::prelude::*;
use vstd::string::StrSliceExecFns;
use vstd::string::StringExecFns;
use vstd::utf8::encode_utf8;

verus! {

/// Returns `x + 1`; `x` must leave room for the increment.
pub fn add_one(x: i32) -> (r: i32)
    requires
        x < i32::MAX,
    ensures
        r == x + 1,
{
    x + 1
}

/// The length of `s` in bytes of its UTF-8 encoding.
pub fn calculate_length(s: &String) -> (r: usize)
    ensures
        r == encode_utf8(s@).len() as usize,
{
    s.as_str().len()
}

/// Appends `", world"` to the string.
pub fn change_mutable_reference(some_string: &mut String)
    ensures
        final(some_string)@ == old(some_string)@ + ", world"@,
{
    some_string.append(", world");
}

/// An account record.
pub struct User {
    pub active: bool,
    pub username: String,
    pub email: String,
    pub sign_in_count: u64,
}

/// A new account: active, with one sign-in.
pub fn build_user(email: String, username: String) -> (r: User)
    ensures
        r.active,
        r.username == username,
        r.email == email,
        r.sign_in_count == 1,
{
    User { active: true, username, email, sign_in_count: 1 }
}

/// The state a quarter was minted for.
#[derive(Debug, Clone, Copy, PartialEq, Eq, Structural)]
pub enum UsState {
    Alabama,
}

/// A US coin.
#[derive(Debug, Clone, Copy, PartialEq, Eq, Structural)]
pub enum Coin {
    Penny,
    Nickel,
    Dime,
    Quarter(UsState),
}

/// The value of a coin in cents.
pub open spec fn cents(coin: Coin) -> nat {
    match coin {
        Coin::Penny => 1,
        Coin::Nickel => 5,
        Coin::Dime => 10,
        Coin::Quarter(_) => 25,
    }
}

/// The value of `coin` in cents.
pub fn value_in_cents(coin: &Coin) -> (r: u32)
    ensures
        r == cents(*coin),
{
    match coin {
        Coin::Penny => 1,
        Coin::Nickel => 5,
        Coin::Dime => 10,
        Coin::Quarter(_) => 25,
    }
}

} // verus!
