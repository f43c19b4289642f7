//! The texts of the photo details panel.
use vstd::prelude::*;

use crate::dates::{format_date, push_all, spec_format_date};
use crate::grouping::{decimal_digits, spec_decimal};
use crate::text::{chars_of, push_char, string_of};

verus! {

/// `W × H` for known pixel dimensions, else `Unknown`.
pub open spec fn spec_dimensions_text(width: i64, height: i64) -> Seq<char> {
    if width > 0 && height > 0 {
        spec_decimal(width as nat) + seq![' ', '\u{d7}', ' '] + spec_decimal(height as nat)
    } else {
        "Unknown"@
    }
}

/// The dimensions shown for a photo.
pub fn dimensions_text(width: i64, height: i64) -> (text: String)
    ensures
        text@ == spec_dimensions_text(width, height),
{
    if width > 0 && height > 0 {
        let mut text = String::new();
        push_all(&mut text, decimal_digits(width as u64).as_slice());
        push_char(&mut text, ' ');
        push_char(&mut text, '\u{d7}');
        push_char(&mut text, ' ');
        push_all(&mut text, decimal_digits(height as u64).as_slice());
        assert(text@ =~= spec_dimensions_text(width, height));
        text
    } else {
        broadcast use vstd::string::group_string_axioms;

        "Unknown".to_string()
    }
}

/// The date, camera and dimensions texts of a photo's details: the stored
/// date as [`spec_format_date`] writes it (`Unknown date` when there is
/// none), the camera (`Unknown camera` when there is none) and
/// [`spec_dimensions_text`].
pub fn photo_detail_texts(
    taken_at: Option<&str>,
    camera: Option<&str>,
    width: i64,
    height: i64,
) -> (texts: (String, String, String))
    ensures
        texts.0@ == spec_format_date(
            match taken_at {
                Some(t) => t@,
                None => "Unknown date"@,
            },
        ),
        texts.1@ == (match camera {
            Some(c) => c@,
            None => "Unknown camera"@,
        }),
        texts.2@ == spec_dimensions_text(width, height),
{
    let date = match taken_at {
        Some(t) => format_date(t),
        None => format_date("Unknown date"),
    };
    let camera_text = match camera {
        Some(c) => string_of(chars_of(c).as_slice()),
        None => {
            broadcast use vstd::string::group_string_axioms;

            "Unknown camera".to_string()
        },
    };
    (date, camera_text, dimensions_text(width, height))
}

} // verus!
