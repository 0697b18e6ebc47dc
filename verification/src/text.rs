use vstd::prelude::*;

verus! {

/// `String::push` appends one character (std documents it as "Appends the
/// given char to the end of this String").
pub assume_specification[ std::string::String::push ](string: &mut std::string::String, ch: char)
    ensures
        final(string)@ == old(string)@.push(ch),
;

} // verus!
