//! Choosing the system font: the first candidate file whose bytes fontdue
//! parses as a font.

use vstd::prelude::*;

verus! {

#[verifier::external_type_specification]
#[verifier::external_body]
pub struct ExFont(fontdue::Font);

/// Whether `fontdue::Font::from_bytes` with the default settings accepts
/// `bytes` as a font.
pub uninterp spec fn font_parses(bytes: Seq<u8>) -> bool;

/// Parses a TrueType or OpenType font with `fontdue::Font::from_bytes` and
/// `FontSettings::default()`.
///
/// Trusted: the contract only names when the parse succeeds; it states
/// nothing of the font that comes back.
#[verifier::external_body]
fn parse_font(bytes: &[u8]) -> (r: Option<fontdue::Font>)
    ensures
        r is Some <==> font_parses(bytes@),
{
    fontdue::Font::from_bytes(bytes, fontdue::FontSettings::default()).ok()
}

/// Whether candidate `i` was read and its bytes parse as a font.
pub open spec fn usable_font(cands: Seq<Option<Seq<u8>>>, i: int) -> bool {
    cands[i] matches Some(bytes) && font_parses(bytes)
}

/// The font of the first candidate that was read and parses, with its index
/// among the candidates; `None` where no candidate does. A candidate is
/// `None` where its file could not be read.
pub fn first_font(cands: &Vec<Option<Vec<u8>>>) -> (r: Option<(usize, fontdue::Font)>)
    ensures
        match r {
            Some((i, _)) => {
                &&& i < cands@.len()
                &&& usable_font(cands.deep_view(), i as int)
                &&& forall|j: int| 0 <= j < i ==> !usable_font(cands.deep_view(), j)
            },
            None => forall|j: int| 0 <= j < cands@.len() ==> !usable_font(cands.deep_view(), j),
        },
{
    let ghost cs = cands.deep_view();
    let n = cands.len();
    let mut i: usize = 0;
    while i < n
        invariant
            n == cands@.len(),
            cs == cands.deep_view(),
            i <= n,
            forall|j: int| 0 <= j < i ==> !usable_font(cs, j),
        decreases n - i,
    {
        match &cands[i] {
            Some(bytes) => {
                assert(cs[i as int] == Some(bytes@));
                match parse_font(bytes.as_slice()) {
                    Some(font) => {
                        return Some((i, font));
                    },
                    None => {},
                }
            },
            None => {},
        }
        i = i + 1;
    }
    None
}

} // verus!
