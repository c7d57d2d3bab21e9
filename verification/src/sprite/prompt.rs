use vstd::prelude::*;
use crate::sprite::manifest::{SpriteCategory, SpriteSpec};

verus! {

/// Style instructions shared by every sprite prompt.
pub const BASE_PROMPT: &'static str = "Create a single 32x32 pixel art sprite with transparent background. Style: cute chibi pixel art, warm vibrant colors, retro RPG style. Centered in 32x32 canvas. Clear outlines, limited palette (8-16 colors). Match the visual style: cute chibi characters with soft pixel shading.";

/// The category-specific part of the prompt, around the sprite description.
pub open spec fn spec_category_prompt(spec: SpriteSpec) -> Seq<char> {
    match spec.category {
        SpriteCategory::Enemy => "Enemy monster sprite: "@ + spec.description@
            + ". Threatening but cute (chibi). Front-facing idle pose."@,
        SpriteCategory::Item => "Equipment/item icon: "@ + spec.description@
            + ". Clean silhouette, recognizable at small size. Subtle shading."@,
    }
}

/// The whole prompt: the shared style line, a newline, the category part.
pub open spec fn spec_build_prompt(spec: SpriteSpec) -> Seq<char> {
    BASE_PROMPT@ + "\n"@ + spec_category_prompt(spec)
}

pub fn category_prompt(spec: &SpriteSpec) -> (r: String)
    ensures
        r@ == spec_category_prompt(*spec),
{
    match spec.category {
        SpriteCategory::Enemy => {
            let mut r = String::from_str("Enemy monster sprite: ");
            r.append(spec.description);
            r.append(". Threatening but cute (chibi). Front-facing idle pose.");
            r
        },
        SpriteCategory::Item => {
            let mut r = String::from_str("Equipment/item icon: ");
            r.append(spec.description);
            r.append(". Clean silhouette, recognizable at small size. Subtle shading.");
            r
        },
    }
}

pub fn build_prompt(spec: &SpriteSpec) -> (r: String)
    ensures
        r@ == spec_build_prompt(*spec),
{
    let mut r = String::from_str(BASE_PROMPT);
    r.append("\n");
    let tail = category_prompt(spec);
    r.append(tail.as_str());
    r
}

} // verus!
