//! The text steps of the post-processing chain.
pub mod english;
pub mod lists;
pub mod period;
pub mod phrases;
pub mod punct;
pub mod repeats;
pub mod wording;

pub use self::phrases::collapse_phrase_repeats;
pub use self::repeats::collapse_repeats;
pub use self::wording::{fix_tw_pronunciation, normalize_interjections};
pub use self::punct::apply_punct_rules;
pub use self::lists::format_lists;
pub use self::english::localize_english_punct;
pub use self::period::strip_short_trailing_period;
