use vstd::prelude::*;
use vstd::string::StringExecFns;

verus! {

/// A welcome line for `name`.
pub fn greet(name: &String) -> (r: String)
    ensures
        r@ == "Hello, "@ + name@ + "! Welcome to Halaqa Savings System!"@,
{
    let mut r = String::from_str("Hello, ");
    r.append(name.as_str());
    r.append("! Welcome to Halaqa Savings System!");
    r
}

} // verus!
