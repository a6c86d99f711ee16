//! The fonts the client draws with, and their fallback order: text, then
//! CJK, symbols, decorative letters (math), and black and white emoji.
use vstd::prelude::*;

verus! {

/// The fallback chain of a font family, by font name: the monospace family
/// starts with the monospace font, the proportional one with the text font.
pub open spec fn fallback_spec(monospace: bool) -> Seq<Seq<char>> {
    seq![
        if monospace {
            "noto_sans_mono"@
        } else {
            "noto_sans"@
        },
        "noto_sans_cjk"@,
        "noto_sans_symbols2"@,
        "noto_sans_math"@,
        "noto_emoji"@,
    ]
}

/// The font names of a family's fallback chain, in order.
pub fn family_fallback(monospace: bool) -> (r: Vec<&'static str>)
    ensures
        r@.map_values(|s: &'static str| s@) == fallback_spec(monospace),
{
    let mut r: Vec<&'static str> = Vec::new();
    r.push(if monospace {
        "noto_sans_mono"
    } else {
        "noto_sans"
    });
    r.push("noto_sans_cjk");
    r.push("noto_sans_symbols2");
    r.push("noto_sans_math");
    r.push("noto_emoji");
    assert(r@.map_values(|s: &'static str| s@) =~= fallback_spec(monospace));
    r
}

} // verus!
