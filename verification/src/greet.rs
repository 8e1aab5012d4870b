//! Small arithmetic and greeting helpers.

use vstd::prelude::*;

verus! {

/// Adds two 32-bit integers; the sum must fit in an `i32`.
pub fn add(a: i32, b: i32) -> (sum: i32)
    requires
        i32::MIN <= a + b <= i32::MAX,
    ensures
        sum == a + b,
{
    a + b
}

/// The greeting text for `name`: `Hello, ` then the name, then `!`.
pub open spec fn greeting(name: Seq<char>) -> Seq<char> {
    "Hello, "@ + name + "!"@
}

/// Greets `name`.
pub fn say_hello(name: &str) -> (text: String)
    ensures
        text@ == greeting(name@),
{
    let mut text = String::from_str("Hello, ");
    text.append(name);
    text.append("!");
    text
}

} // verus!
