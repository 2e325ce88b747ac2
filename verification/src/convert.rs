//! Step 8: Simplified to Traditional (Taiwan) conversion, plus the 賬 -> 帳
//! patch. The OpenCC S2TW converter itself runs outside the library; what it
//! gave back arrives here as a [`Conversion`].
use vstd::prelude::*;

use crate::chars::{chars_of, replace_all, replace_all_vec, string_of};

verus! {

/// What the S2TW converter gave for a text.
pub enum Conversion {
    /// No converter could be set up.
    Unavailable,
    /// The converter refused the text.
    Failed,
    /// The converted text.
    Converted(String),
}

/// The empty text stays empty; without a converter, or when it refused the
/// text, the text comes back as it was; otherwise the converted text, with
/// every 賬 written 帳 (the Taiwan standard form).
pub open spec fn spec_to_traditional(s: Seq<char>, conversion: Conversion) -> Seq<char> {
    if s.len() == 0 {
        s
    } else {
        match conversion {
            Conversion::Unavailable => s,
            Conversion::Failed => s,
            Conversion::Converted(t) => replace_all(t@, seq!['賬'], seq!['帳']),
        }
    }
}

/// Finishes the Traditional conversion of `text`, given what the S2TW
/// converter gave for it.
pub fn to_traditional(text: &str, conversion: Conversion) -> (res: String)
    ensures
        res@ == spec_to_traditional(text@, conversion),
{
    let v = chars_of(text);
    if v.len() == 0 {
        return String::new();
    }
    match conversion {
        Conversion::Unavailable => string_of(&v),
        Conversion::Failed => string_of(&v),
        Conversion::Converted(t) => {
            let w = chars_of(t.as_str());
            let from = vec!['賬'];
            let to = vec!['帳'];
            assert(from@ == seq!['賬'] && to@ == seq!['帳']);
            string_of(&replace_all_vec(&w, &from, &to))
        },
    }
}

} // verus!
