use vstd::prelude::*;

verus! {

/// A parsed font that can rasterize glyphs (`fontdue::Font`).
#[verifier::external_type_specification]
#[verifier::external_body]
pub struct ExFont(fontdue::Font);

/// `fontdue::Font::from_bytes` with default settings accepts the font data `data`.
pub uninterp spec fn font_parses(data: Seq<u8>) -> bool;

/// Calls `fontdue::Font::from_bytes` with default settings. Claimed: it succeeds
/// exactly on the data of which `font_parses` holds. The error is rendered as
/// text, of which nothing is claimed.
#[verifier::external_body]
fn font_from_bytes(data: &[u8]) -> (font: Result<fontdue::Font, String>)
    ensures
        font is Ok <==> font_parses(data@),
{
    fontdue::Font::from_bytes(data, fontdue::FontSettings::default()).map_err(|e| e.to_string())
}

/// Loads the font that glyphs are rasterized from. Fails exactly when `fontdue`
/// rejects the data, with its message.
pub fn load_font(data: &[u8]) -> (font: Result<fontdue::Font, String>)
    ensures
        font is Ok <==> font_parses(data@),
{
    font_from_bytes(data)
}

} // verus!
