//! Where a glTF material's textures come from, and the material's name.
use vstd::prelude::*;

use crate::text::{chars_of, decimal, decimal_string, push_str, starts, starts_with};

verus! {

/// Where a texture's image comes from.
pub enum TextureChoice {
    /// The decoded image at this index of the document's images.
    Decoded(usize),
    /// A file, named by this URI relative to the document's directory.
    File(String),
    /// Nowhere: an embedded image that was not decoded.
    Missing,
}

/// Where the image `index` of a document whose first `image_count` images were decoded
/// comes from, `uri` being the image's URI when it names one: a decoded image is taken as
/// it is; otherwise a URI that is not a `data:` URI names a file; otherwise there is none.
pub fn texture_choice(index: usize, image_count: usize, uri: Option<&str>) -> (r: TextureChoice)
    ensures
        index < image_count ==> r == TextureChoice::Decoded(index),
        index >= image_count ==> match uri {
            Some(u) => if starts(u@, "data:"@) {
                r is Missing
            } else {
                r matches TextureChoice::File(f) && f@ == u@
            },
            None => r is Missing,
        },
{
    if index < image_count {
        return TextureChoice::Decoded(index);
    }
    match uri {
        Some(u) => {
            let cs = chars_of(u);
            if starts_with(cs.as_slice(), "data:") {
                TextureChoice::Missing
            } else {
                let mut f = String::new();
                push_str(&mut f, u);
                TextureChoice::File(f)
            }
        },
        None => TextureChoice::Missing,
    }
}

/// A material's name: its own, or `material_` and its index (0 for the default material).
pub fn material_name(name: &Option<String>, index: Option<usize>) -> (r: String)
    ensures
        r@ == match name {
            Some(t) => t@,
            None => "material_"@ + decimal(
                match index {
                    Some(i) => i as nat,
                    None => 0,
                },
            ),
        },
{
    match name {
        Some(t) => t.clone(),
        None => {
            let mut s = String::new();
            push_str(&mut s, "material_");
            let i = match index {
                Some(i) => i,
                None => 0,
            };
            let d = decimal_string(i);
            push_str(&mut s, d.as_str());
            s
        },
    }
}

} // verus!
