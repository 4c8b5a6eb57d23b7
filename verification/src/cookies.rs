//! The one computation of the cookie translator that is the library's own:
//! a jar record's raw cookie line is the export record's name and value
//! joined by `=`.

use vstd::prelude::*;
use vstd::string::*;

verus! {

/// The raw cookie line of a translated record.
pub fn raw_cookie(name: &str, value: &str) -> (r: String)
    ensures
        r@ == name@ + "="@ + value@,
{
    let mut s = name.to_owned();
    s.append("=");
    s.append(value);
    s
}

} // verus!
