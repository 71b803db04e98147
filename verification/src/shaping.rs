use vstd::prelude::*;

verus! {

/// A font face (`rustybuzz::Face`), reading font data that it borrows.
#[verifier::external_type_specification]
#[verifier::external_body]
pub struct ExFace<'a>(rustybuzz::Face<'a>);

/// Text waiting to be shaped (`rustybuzz::UnicodeBuffer`).
#[verifier::external_type_specification]
#[verifier::external_body]
pub struct ExUnicodeBuffer(rustybuzz::UnicodeBuffer);

/// The result of shaping (`rustybuzz::GlyphBuffer`).
#[verifier::external_type_specification]
#[verifier::external_body]
pub struct ExGlyphBuffer(rustybuzz::GlyphBuffer);

/// One shaped glyph: its glyph id in the font, how far the pen advances after
/// it, and its offset from the pen, all in font units.
#[derive(Clone, Copy, Debug, PartialEq, Eq, Structural)]
pub struct ShapedGlyph {
    pub glyph_id: u32,
    pub x_advance: i32,
    pub x_offset: i32,
    pub y_offset: i32,
}

/// `rustybuzz::Face::from_slice` with face index 0 accepts the font data `data`.
pub uninterp spec fn face_parses(data: Seq<u8>) -> bool;

/// The font data that a face reads.
pub uninterp spec fn face_data(face: rustybuzz::Face) -> Seq<u8>;

/// The units per em of the font in `data`.
pub uninterp spec fn units_per_em_of(data: Seq<u8>) -> i32;

/// The strings pushed into a text buffer since it was created, in order.
pub uninterp spec fn pushed_text(buffer: rustybuzz::UnicodeBuffer) -> Seq<Seq<char>>;

/// The glyphs that `rustybuzz::shape`, without features, makes of the strings
/// `pushes` (pushed in that order into a fresh buffer) with the face at index 0 of `data`.
pub uninterp spec fn shaped(data: Seq<u8>, pushes: Seq<Seq<char>>) -> Seq<ShapedGlyph>;

/// The glyphs that a glyph buffer holds, in order.
pub uninterp spec fn glyph_buffer_items(buffer: rustybuzz::GlyphBuffer) -> Seq<ShapedGlyph>;

/// Calls `rustybuzz::Face::from_slice(data, 0)`. Claimed: it succeeds exactly on the
/// data of which `face_parses` holds, and the face reads `data`.
#[verifier::external_body]
fn face_from_slice<'a>(data: &'a [u8]) -> (face: Option<rustybuzz::Face<'a>>)
    ensures
        face is Some <==> face_parses(data@),
        face matches Some(f) ==> face_data(f) == data@,
{
    rustybuzz::Face::from_slice(data, 0)
}

/// Calls `rustybuzz::Face::units_per_em`. Claimed: it is `units_per_em_of` of the
/// face's data, and lies in 16..=16384 (the `head` table of `ttf-parser` rejects
/// other values, so no face holds one).
#[verifier::external_body]
fn face_units_per_em(face: &rustybuzz::Face) -> (upm: i32)
    ensures
        upm == units_per_em_of(face_data(*face)),
        16 <= upm <= 16384,
{
    face.units_per_em()
}

/// Calls `rustybuzz::UnicodeBuffer::new`. Claimed: nothing has been pushed into it.
#[verifier::external_body]
fn text_buffer() -> (buffer: rustybuzz::UnicodeBuffer)
    ensures
        pushed_text(buffer) == Seq::<Seq<char>>::empty(),
{
    rustybuzz::UnicodeBuffer::new()
}

/// Calls `rustybuzz::UnicodeBuffer::push_str`. Claimed: the buffer's history of
/// pushed strings grows by `text`.
#[verifier::external_body]
fn buffer_push(buffer: &mut rustybuzz::UnicodeBuffer, text: &str)
    ensures
        pushed_text(*final(buffer)) == pushed_text(*old(buffer)).push(text@),
{
    buffer.push_str(text)
}

/// Calls `rustybuzz::shape` without features. Claimed: the glyphs are `shaped` of
/// the face's data and the buffer's pushed strings.
#[verifier::external_body]
fn shape_buffer(face: &rustybuzz::Face, buffer: rustybuzz::UnicodeBuffer) -> (glyphs: rustybuzz::GlyphBuffer)
    ensures
        glyph_buffer_items(glyphs) == shaped(face_data(*face), pushed_text(buffer)),
{
    rustybuzz::shape(face, &[], buffer)
}

/// Calls `rustybuzz::GlyphBuffer::len`: the number of glyphs.
#[verifier::external_body]
fn glyph_count(glyphs: &rustybuzz::GlyphBuffer) -> (n: usize)
    ensures
        n == glyph_buffer_items(*glyphs).len(),
{
    glyphs.len()
}

/// Reads `glyph_infos()[i].glyph_id`.
#[verifier::external_body]
fn glyph_id_at(glyphs: &rustybuzz::GlyphBuffer, i: usize) -> (id: u32)
    requires
        i < glyph_buffer_items(*glyphs).len(),
    ensures
        id == glyph_buffer_items(*glyphs)[i as int].glyph_id,
{
    glyphs.glyph_infos()[i].glyph_id
}

/// Reads `x_advance`, `x_offset` and `y_offset` of `glyph_positions()[i]`.
#[verifier::external_body]
fn glyph_position_at(glyphs: &rustybuzz::GlyphBuffer, i: usize) -> (pos: (i32, i32, i32))
    requires
        i < glyph_buffer_items(*glyphs).len(),
    ensures
        pos.0 == glyph_buffer_items(*glyphs)[i as int].x_advance,
        pos.1 == glyph_buffer_items(*glyphs)[i as int].x_offset,
        pos.2 == glyph_buffer_items(*glyphs)[i as int].y_offset,
{
    let p = glyphs.glyph_positions()[i];
    (p.x_advance, p.x_offset, p.y_offset)
}

/// A shaped phrase: the font's units per em and the glyphs in pen order.
pub struct ShapedRun {
    pub units_per_em: i32,
    pub glyphs: Vec<ShapedGlyph>,
}

/// Shapes `phrase` with the font in `font` (any script: reordering and marks
/// are handled by the shaper). `None` exactly when the font data is not a usable face.
pub fn shape_phrase(font: &[u8], phrase: &str) -> (run: Option<ShapedRun>)
    ensures
        run is Some <==> face_parses(font@),
        run matches Some(r) ==> r.units_per_em == units_per_em_of(font@)
            && 16 <= r.units_per_em <= 16384
            && r.glyphs@ == shaped(font@, seq![phrase@]),
{
    let face = match face_from_slice(font) {
        Some(f) => f,
        None => return None,
    };
    let upm = face_units_per_em(&face);
    let mut buffer = text_buffer();
    buffer_push(&mut buffer, phrase);
    assert(pushed_text(buffer) =~= seq![phrase@]);
    let out = shape_buffer(&face, buffer);
    let n = glyph_count(&out);
    let mut glyphs: Vec<ShapedGlyph> = Vec::new();
    let mut i: usize = 0;
    while i < n
        invariant
            n == glyph_buffer_items(out).len(),
            i <= n,
            glyphs@ == glyph_buffer_items(out).subrange(0, i as int),
        decreases n - i,
    {
        let id = glyph_id_at(&out, i);
        let (x_advance, x_offset, y_offset) = glyph_position_at(&out, i);
        glyphs.push(ShapedGlyph { glyph_id: id, x_advance, x_offset, y_offset });
        assert(glyphs@ =~= glyph_buffer_items(out).subrange(0, i + 1));
        i += 1;
    }
    assert(glyphs@ =~= glyph_buffer_items(out));
    Some(ShapedRun { units_per_em: upm, glyphs })
}

} // verus!
