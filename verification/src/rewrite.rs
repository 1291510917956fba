//! Image-URL rewriting: a relative image path (one beginning with `/`)
//! is made absolute by prefixing the configured static base URL.

use vstd::prelude::*;
use crate::food::{Food, FoodView};

verus! {

/// The rewritten form of an image URL: prefixed with `base` when it
/// begins with `/`, untouched otherwise.
pub open spec fn rewritten_url(url: Seq<char>, base: Seq<char>) -> Seq<char> {
    if url.len() > 0 && url[0] == '/' {
        base + url
    } else {
        url
    }
}

/// The food with only its image URL rewritten against `base`.
pub open spec fn with_rewritten_url(f: FoodView, base: Seq<char>) -> FoodView {
    FoodView { image_url: rewritten_url(f.image_url, base), ..f }
}

/// Rewrites one food's image URL in place.
pub fn fix_image_url(static_base_url: &str, food: &mut Food)
    ensures
        final(food)@ == with_rewritten_url(old(food)@, static_base_url@),
{
    if !food.image_url.as_str().is_empty() {
        let c = food.image_url.as_str().get_char(0);
        if c == '/' {
            food.image_url = crate::text::concat_str(static_base_url, food.image_url.as_str());
        }
    }
    proof {
        assert(final(food)@ =~= with_rewritten_url(old(food)@, static_base_url@));
    }
}

/// Rewrites the image URLs of a whole result list in place.
#[verifier::loop_isolation(false)]
pub fn fix_image_urls(static_base_url: &str, foods: &mut Vec<Food>)
    ensures
        final(foods)@.len() == old(foods)@.len(),
        forall|i: int|
            0 <= i < old(foods)@.len() ==> final(foods)@[i]@ == with_rewritten_url(
                (#[trigger] old(foods)@[i])@,
                static_base_url@,
            ),
{
    let ghost input = foods@;
    let n = foods.len();
    let mut out: Vec<Food> = Vec::new();
    let mut i: usize = 0;
    while i < n
        invariant
            i <= n,
            foods@ == input.skip(i as int),
            out@.len() == i,
            forall|k: int|
                0 <= k < i ==> out@[k]@ == with_rewritten_url(
                    (#[trigger] input[k])@,
                    static_base_url@,
                ),
        decreases n - i,
    {
        proof {
            assert(input.skip(i as int)[0] == input[i as int]);
            assert(input.skip(i as int).remove(0) =~= input.skip(i + 1));
        }
        let mut f = foods.remove(0);
        fix_image_url(static_base_url, &mut f);
        out.push(f);
        i += 1;
    }
    *foods = out;
}

} // verus!
