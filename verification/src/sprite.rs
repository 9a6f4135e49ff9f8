use vstd::prelude::*;

use crate::pixel::{lemma_rgba_byte, lemma_row_major};

verus! {

/// An Aseprite sprite-sheet atlas, as exported in JSON array mode.
#[derive(Debug)]
pub struct AsepriteAtlas {
    pub frames: Vec<AsepriteFrame>,
    pub meta: AsepriteMeta,
}

/// One frame of the sheet: where it lies and how long it shows.
#[derive(Debug)]
pub struct AsepriteFrame {
    pub filename: String,
    pub frame: AsepriteRect,
    /// How long the frame shows, in milliseconds.
    pub duration: u32,
}

/// A rectangle of the sheet, in pixels.
#[derive(Debug)]
pub struct AsepriteRect {
    pub x: u32,
    pub y: u32,
    pub w: u32,
    pub h: u32,
}

/// The atlas metadata: image file, animation tags and sheet size.
#[derive(Debug)]
pub struct AsepriteMeta {
    pub image: String,
    pub frame_tags: Vec<AsepriteTag>,
    pub size: AsepriteSize,
}

/// A named animation: the frames `from..=to`.
#[derive(Debug)]
pub struct AsepriteTag {
    pub name: String,
    pub from: usize,
    pub to: usize,
}

/// The size of the sheet image, in pixels.
#[derive(Debug)]
pub struct AsepriteSize {
    pub w: u32,
    pub h: u32,
}

/// A name is in the animation table of `tags` exactly when some tag
/// carries it, and then it maps to the frame range of the last such tag.
pub proof fn lemma_last_tag_wins(tags: Seq<AsepriteTag>, name: Seq<char>)
    ensures
        tags_map(tags).contains_key(name) <==> exists|i: int| 0 <= i < tags.len() && #[trigger] tags[i].name@ == name,
        forall|j: int|
            0 <= j < tags.len() && #[trigger] tags[j].name@ == name && (forall|i: int|
                j < i < tags.len() ==> tags[i].name@ != name) ==> tags_map(tags)[name] == (
                tags[j].from,
                tags[j].to,
            ),
    decreases tags.len(),
{
    if tags.len() > 0 {
        let init = tags.drop_last();
        lemma_last_tag_wins(init, name);
        let last = tags.len() - 1;
        if tags[last].name@ != name {
            if exists|i: int| 0 <= i < tags.len() && #[trigger] tags[i].name@ == name {
                let i = choose|i: int| 0 <= i < tags.len() && #[trigger] tags[i].name@ == name;
                assert(init[i].name@ == name);
            }
            assert forall|j: int|
                0 <= j < tags.len() && #[trigger] tags[j].name@ == name && (forall|i: int|
                    j < i < tags.len() ==> tags[i].name@ != name) implies tags_map(tags)[name] == (
                tags[j].from,
                tags[j].to,
            ) by {
                assert(init[j].name@ == name);
                assert forall|i: int| j < i < init.len() implies init[i].name@ != name by {
                    assert(tags[i].name@ != name);
                }
            }
        } else {
            assert(tags[last].name@ == name);
        }
    }
}

/// The animation table of a list of tags: each tag's name maps to its frame
/// range, a later tag of the same name replacing an earlier one.
pub open spec fn tags_map(tags: Seq<AsepriteTag>) -> Map<Seq<char>, (usize, usize)>
    decreases tags.len(),
{
    if tags.len() == 0 {
        Map::empty()
    } else {
        let t = tags.last();
        tags_map(tags.drop_last()).insert(t.name@, (t.from, t.to))
    }
}

/// The table that a list of (name, range) entries stands for: each name
/// maps to the range of its first entry.
pub open spec fn entries_map(v: Seq<(String, (usize, usize))>) -> Map<Seq<char>, (usize, usize)>
    decreases v.len(),
{
    if v.len() == 0 {
        Map::empty()
    } else {
        entries_map(v.drop_first()).insert(v[0].0@, v[0].1)
    }
}

/// A name that no entry carries is not in the table.
proof fn lemma_entries_absent(v: Seq<(String, (usize, usize))>, k: Seq<char>)
    requires
        forall|i: int| 0 <= i < v.len() ==> v[i].0@ != k,
    ensures
        !entries_map(v).contains_key(k),
    decreases v.len(),
{
    if v.len() > 0 {
        lemma_entries_absent(v.drop_first(), k);
    }
}

/// The first entry carrying a name gives that name's range.
proof fn lemma_entries_first(v: Seq<(String, (usize, usize))>, j: int, k: Seq<char>)
    requires
        0 <= j < v.len(),
        v[j].0@ == k,
        forall|i: int| 0 <= i < j ==> v[i].0@ != k,
    ensures
        entries_map(v).contains_key(k),
        entries_map(v)[k] == v[j].1,
    decreases j,
{
    if j > 0 {
        lemma_entries_first(v.drop_first(), j - 1, k);
    }
}

/// Inserting two distinct keys gives the same table in either order.
proof fn lemma_insert_commutes(
    m: Map<Seq<char>, (usize, usize)>,
    a: Seq<char>,
    va: (usize, usize),
    b: Seq<char>,
    vb: (usize, usize),
)
    requires
        a != b,
    ensures
        m.insert(a, va).insert(b, vb) == m.insert(b, vb).insert(a, va),
{
    assert(m.insert(a, va).insert(b, vb) =~= m.insert(b, vb).insert(a, va));
}

/// Overwriting the first entry of a name changes that name's range only.
proof fn lemma_entries_update(v: Seq<(String, (usize, usize))>, j: int, e: (String, (usize, usize)))
    requires
        0 <= j < v.len(),
        v[j].0@ == e.0@,
        forall|i: int| 0 <= i < j ==> v[i].0@ != e.0@,
    ensures
        entries_map(v.update(j, e)) == entries_map(v).insert(e.0@, e.1),
    decreases j,
{
    let u = v.update(j, e);
    if j == 0 {
        assert(u.drop_first() =~= v.drop_first());
        assert(entries_map(u) =~= entries_map(v).insert(e.0@, e.1));
    } else {
        lemma_entries_update(v.drop_first(), j - 1, e);
        assert(u.drop_first() =~= v.drop_first().update(j - 1, e));
        assert(u[0] == v[0]);
        assert(v[0].0@ != e.0@);
        let m = entries_map(v.drop_first());
        lemma_insert_commutes(m, e.0@, e.1, v[0].0@, v[0].1);
    }
}

/// Appending an entry for a new name adds that name.
proof fn lemma_entries_push(v: Seq<(String, (usize, usize))>, e: (String, (usize, usize)))
    requires
        !entries_map(v).contains_key(e.0@),
    ensures
        entries_map(v.push(e)) == entries_map(v).insert(e.0@, e.1),
    decreases v.len(),
{
    let u = v.push(e);
    if v.len() == 0 {
        assert(u.drop_first() =~= Seq::<(String, (usize, usize))>::empty());
        assert(u[0] == e);
        assert(entries_map(u) == entries_map(u.drop_first()).insert(e.0@, e.1));
        assert(entries_map(u) =~= entries_map(v).insert(e.0@, e.1));
    } else {
        assert(u.drop_first() =~= v.drop_first().push(e));
        assert(u[0] == v[0]);
        let m = entries_map(v.drop_first());
        assert(entries_map(v) == m.insert(v[0].0@, v[0].1));
        assert(v[0].0@ != e.0@);
        lemma_entries_push(v.drop_first(), e);
        assert(entries_map(u) == m.insert(e.0@, e.1).insert(v[0].0@, v[0].1));
        lemma_insert_commutes(m, e.0@, e.1, v[0].0@, v[0].1);
    }
}

/// The index of the first entry named `name`, if any.
fn find_entry(entries: &Vec<(String, (usize, usize))>, name: &String) -> (r: Option<usize>)
    ensures
        match r {
            Some(j) => {
                &&& j < entries@.len()
                &&& entries@[j as int].0@ == name@
                &&& forall|i: int| 0 <= i < j ==> entries@[i].0@ != name@
            },
            None => forall|i: int| 0 <= i < entries@.len() ==> entries@[i].0@ != name@,
        },
{
    let mut j: usize = 0;
    while j < entries.len()
        invariant
            j <= entries@.len(),
            forall|i: int| 0 <= i < j ==> entries@[i].0@ != name@,
        decreases entries@.len() - j,
    {
        if entries[j].0 == *name {
            return Some(j);
        }
        j = j + 1;
    }
    None
}

/// Builds the animation table of `tags`: later tags of a name replace
/// earlier ones, and each name appears once.
fn build_tag_map(tags: &Vec<AsepriteTag>) -> (entries: Vec<(String, (usize, usize))>)
    ensures
        entries_map(entries@) == tags_map(tags@),
{
    let mut entries: Vec<(String, (usize, usize))> = Vec::new();
    let mut i: usize = 0;
    while i < tags.len()
        invariant
            i <= tags@.len(),
            entries_map(entries@) == tags_map(tags@.take(i as int)),
        decreases tags@.len() - i,
    {
        let tag = &tags[i];
        let entry = (tag.name.clone(), (tag.from, tag.to));
        let ghost before = entries@;
        match find_entry(&entries, &tag.name) {
            Some(j) => {
                proof {
                    lemma_entries_update(before, j as int, entry);
                }
                entries.set(j, entry);
            },
            None => {
                proof {
                    lemma_entries_absent(before, entry.0@);
                    lemma_entries_push(before, entry);
                }
                entries.push(entry);
            },
        }
        assert(tags@.take(i + 1).drop_last() =~= tags@.take(i as int));
        i = i + 1;
    }
    assert(tags@.take(tags@.len() as int) =~= tags@);
    entries
}

#[verifier::external_type_specification]
#[verifier::external_body]
pub struct ExImageError(image::ImageError);

/// What decoding the PNG image `bytes` into 8-bit RGBA gives: its width, its
/// height and its pixel bytes, or nothing where the bytes are no PNG image
/// that the decoder reads.
pub uninterp spec fn decoded_png_rgba8(bytes: Seq<u8>) -> Option<(u32, u32, Seq<u8>)>;

/// Decodes a PNG image with `image::load_from_memory_with_format` (the
/// format fixed to `ImageFormat::Png`, so no format detection or decoding
/// hook is consulted, and the default limits apply), converts it with
/// `DynamicImage::to_rgba8`, and returns `ImageBuffer::dimensions` and
/// `ImageBuffer::into_raw`.
/// Trusted: the result is `decoded_png_rgba8` of the bytes, and the pixel
/// buffer holds exactly four bytes for each of the `width * height` pixels.
/// Which pixels a given PNG decodes to is left unsaid.
#[verifier::external_body]
fn decode_png_rgba8(bytes: &[u8]) -> (res: Result<(u32, u32, Vec<u8>), image::ImageError>)
    ensures
        match res {
            Ok((w, h, px)) => {
                &&& decoded_png_rgba8(bytes@) == Some((w, h, px@))
                &&& px@.len() == w * h * 4
            },
            Err(_) => decoded_png_rgba8(bytes@) is None,
        },
{
    let img = image::load_from_memory_with_format(bytes, image::ImageFormat::Png)?.to_rgba8();
    let (w, h) = img.dimensions();
    Ok((w, h, img.into_raw()))
}

/// The offset that centres a span of `inner` pixels in one of `outer`
/// pixels: half the difference, rounded toward zero, negative where the span
/// is the longer one (so that its middle part shows).
pub open spec fn centring_offset(outer: int, inner: int) -> int {
    if outer >= inner {
        (outer - inner) / 2
    } else {
        -((inner - outer) / 2)
    }
}

/// Whether a destination of `dest_w` x `dest_h` pixels lies within `i32`
/// screen coordinates; a larger one shows nothing.
pub open spec fn on_screen(dest_w: u32, dest_h: u32) -> bool {
    dest_w <= i32::MAX && dest_h <= i32::MAX
}

/// Where pixel `(col, row)` of the sprite `f` lands in a `dest_w` x `dest_h`
/// destination that the sprite is centred in.
pub open spec fn blit_dest_pos(f: AsepriteRect, dest_w: u32, dest_h: u32, row: int, col: int) -> (int, int) {
    (centring_offset(dest_w as int, f.w as int) + col, centring_offset(dest_h as int, f.h as int) + row)
}

/// Whether pixel `(col, row)` of the sprite lands inside the destination.
pub open spec fn blit_visible(f: AsepriteRect, dest_w: u32, dest_h: u32, row: int, col: int) -> bool {
    let (dx, dy) = blit_dest_pos(f, dest_w, dest_h, row, col);
    on_screen(dest_w, dest_h) && 0 <= dx < dest_w && 0 <= dy < dest_h
}

/// The index in the destination of the first byte of sprite pixel `(col, row)`.
pub open spec fn blit_dest_index(f: AsepriteRect, dest_w: u32, dest_h: u32, row: int, col: int) -> int {
    let (dx, dy) = blit_dest_pos(f, dest_w, dest_h, row, col);
    (dy * dest_w + dx) * 4
}

/// The index in a sheet of width `sheet_w` of the first byte of sprite pixel
/// `(col, row)`.
pub open spec fn blit_src_index(f: AsepriteRect, sheet_w: u32, row: int, col: int) -> int {
    ((f.y + row) * sheet_w + (f.x + col)) * 4
}

/// The sprite pixel `(row, col)` that lands on destination pixel `p`, if any.
pub open spec fn blit_source_of(f: AsepriteRect, dest_w: u32, dest_h: u32, p: int) -> Option<(int, int)> {
    if on_screen(dest_w, dest_h) && dest_w > 0 {
        let dx = p % (dest_w as int);
        let dy = p / (dest_w as int);
        let col = dx - centring_offset(dest_w as int, f.w as int);
        let row = dy - centring_offset(dest_h as int, f.h as int);
        if dy < dest_h && 0 <= col < f.w && 0 <= row < f.h {
            Some((row, col))
        } else {
            None
        }
    } else {
        None
    }
}

/// Byte `k` of a `dest_w` x `dest_h` RGBA destination whose old contents are
/// `old` after sprite `f` of a sheet (`pixels`, `sheet_w` wide) has been
/// blitted centred into it, counting only the first `lim` sprite pixels in
/// row-major order.
pub open spec fn blitted_byte_upto(
    pixels: Seq<u8>,
    sheet_w: u32,
    f: AsepriteRect,
    dest_w: u32,
    dest_h: u32,
    old: Seq<u8>,
    lim: int,
    k: int,
) -> u8 {
    match blit_source_of(f, dest_w, dest_h, k / 4) {
        Some((row, col)) => if row * f.w + col < lim {
            pixels[blit_src_index(f, sheet_w, row, col) + k % 4]
        } else {
            old[k]
        },
        None => old[k],
    }
}

/// Byte `k` of the destination after the whole sprite has been blitted:
/// a byte that a sprite pixel lands on takes that pixel's byte, every other
/// byte keeps its old value.
pub open spec fn blitted_byte(
    pixels: Seq<u8>,
    sheet_w: u32,
    f: AsepriteRect,
    dest_w: u32,
    dest_h: u32,
    old: Seq<u8>,
    k: int,
) -> u8 {
    blitted_byte_upto(pixels, sheet_w, f, dest_w, dest_h, old, f.w * f.h, k)
}

/// The inputs on which blitting sprite `f` stays within its arithmetic and
/// its buffers: sheet coordinates and byte indices do not overflow, and each sprite pixel that lands in the destination is read
/// from inside the sheet and written inside the destination.
pub open spec fn blit_fits(
    pixels_len: int,
    sheet_w: u32,
    f: AsepriteRect,
    dest_len: int,
    dest_w: u32,
    dest_h: u32,
) -> bool {
    &&& (f.w > 0 && f.h > 0 ==> {
        &&& f.x + f.w - 1 <= u32::MAX
        &&& f.y + f.h - 1 <= u32::MAX
        &&& blit_src_index(f, sheet_w, f.h - 1, f.w - 1) <= usize::MAX
    })
    &&& forall|row: int, col: int|
        0 <= row < f.h && 0 <= col < f.w && #[trigger] blit_visible(f, dest_w, dest_h, row, col) ==> {
            &&& blit_src_index(f, sheet_w, row, col) + 4 <= pixels_len
            &&& blit_dest_index(f, dest_w, dest_h, row, col) + 4 <= dest_len
        }
}

/// Blitting the same sprite twice leaves the destination as blitting it
/// once does.
pub proof fn lemma_blit_idempotent(
    pixels: Seq<u8>,
    sheet_w: u32,
    f: AsepriteRect,
    dest_w: u32,
    dest_h: u32,
    old: Seq<u8>,
)
    ensures
        ({
            let once = Seq::new(
                old.len(),
                |k: int| blitted_byte(pixels, sheet_w, f, dest_w, dest_h, old, k),
            );
            forall|k: int|
                0 <= k < old.len() ==> #[trigger] blitted_byte(pixels, sheet_w, f, dest_w, dest_h, once, k)
                    == once[k]
        }),
{
}

/// Where blitting puts the sprite, stated by destination pixel: pixel
/// `(x, y)` of a destination within `i32` screen coordinates shows sheet
/// pixel `(f.x + x - ox, f.y + y - oy)` when `(x - ox, y - oy)` is inside the
/// frame, and keeps its old bytes otherwise. The offsets centre the frame:
/// `ox` is half of `dest_w - f.w` (rounded toward zero, so negative for a
/// frame wider than the destination) and depends on the widths only, `oy`
/// likewise on the heights only.
pub proof fn lemma_blit_pixel(
    pixels: Seq<u8>,
    sheet_w: u32,
    f: AsepriteRect,
    dest_w: u32,
    dest_h: u32,
    old: Seq<u8>,
    x: int,
    y: int,
    c: int,
)
    requires
        0 <= x < dest_w,
        0 <= y < dest_h,
        dest_w <= i32::MAX,
        dest_h <= i32::MAX,
        0 <= c < 4,
    ensures
        ({
            let ox = if f.w <= dest_w {
                (dest_w - f.w) / 2
            } else {
                -((f.w - dest_w) / 2)
            };
            let oy = if f.h <= dest_h {
                (dest_h - f.h) / 2
            } else {
                -((f.h - dest_h) / 2)
            };
            let col = x - ox;
            let row = y - oy;
            let k = (y * dest_w + x) * 4 + c;
            blitted_byte(pixels, sheet_w, f, dest_w, dest_h, old, k) == if 0 <= col < f.w && 0 <= row < f.h {
                pixels[((f.y + row) * sheet_w + f.x + col) * 4 + c]
            } else {
                old[k]
            }
        }),
{
    let p = y * dest_w + x;
    assert(0 <= p) by (nonlinear_arith)
        requires
            p == y * dest_w + x,
            0 <= x,
            0 <= y,
            0 <= dest_w,
    ;
    lemma_rgba_byte(p, c);
    lemma_row_major(x, y, dest_w as int);
    assert((y * dest_w + x) * 4 + c == 4 * p + c);
    let ox = centring_offset(dest_w as int, f.w as int);
    let oy = centring_offset(dest_h as int, f.h as int);
    let col = x - ox;
    let row = y - oy;
    if 0 <= col < f.w && 0 <= row < f.h {
        assert(row * f.w + col < f.w * f.h) by (nonlinear_arith)
            requires
                0 <= row < f.h,
                0 <= col < f.w,
        ;
    }
}

/// Blitting never touches a byte past the `dest_w * dest_h` pixels of the
/// destination, nor any byte of a destination beyond `i32` screen
/// coordinates.
pub proof fn lemma_blit_rest(
    pixels: Seq<u8>,
    sheet_w: u32,
    f: AsepriteRect,
    dest_w: u32,
    dest_h: u32,
    old: Seq<u8>,
    k: int,
)
    requires
        0 <= k,
        k >= dest_w * dest_h * 4 || dest_w > i32::MAX || dest_h > i32::MAX,
    ensures
        blitted_byte(pixels, sheet_w, f, dest_w, dest_h, old, k) == old[k],
{
    let p = k / 4;
    if dest_w > 0 && dest_w <= i32::MAX && dest_h <= i32::MAX {
        vstd::arithmetic::div_mod::lemma_fundamental_div_mod(p, dest_w as int);
        vstd::arithmetic::div_mod::lemma_mod_bound(p, dest_w as int);
        let q = p / (dest_w as int);
        if q < dest_h {
            assert(p < dest_w * dest_h) by (nonlinear_arith)
                requires
                    p == dest_w * q + p % (dest_w as int),
                    p % (dest_w as int) < dest_w,
                    q + 1 <= dest_h,
                    0 < dest_w,
            ;
        }
    }
}

/// A sprite pixel that lands in the destination is the source of each of
/// the four bytes it is written to.
proof fn lemma_blit_written(f: AsepriteRect, dest_w: u32, dest_h: u32, row: int, col: int, k: int)
    requires
        0 <= row < f.h,
        0 <= col < f.w,
        blit_visible(f, dest_w, dest_h, row, col),
        blit_dest_index(f, dest_w, dest_h, row, col) <= k < blit_dest_index(f, dest_w, dest_h, row, col) + 4,
    ensures
        blit_source_of(f, dest_w, dest_h, k / 4) == Some((row, col)),
        k % 4 == k - blit_dest_index(f, dest_w, dest_h, row, col),
{
    let (dx, dy) = blit_dest_pos(f, dest_w, dest_h, row, col);
    let p = dy * dest_w + dx;
    assert(0 <= p) by (nonlinear_arith)
        requires
            p == dy * dest_w + dx,
            0 <= dy,
            0 <= dx,
            0 <= dest_w,
    ;
    lemma_rgba_byte(p, k - 4 * p);
    lemma_row_major(dx, dy, dest_w as int);
}

/// Distinct destination pixels come from distinct sprite pixels: the sprite
/// pixel numbered `row * f.w + col` lands only on its own destination pixel.
proof fn lemma_blit_source_unique(f: AsepriteRect, dest_w: u32, dest_h: u32, p: int, row: int, col: int)
    requires
        0 <= p,
        0 <= row < f.h,
        0 <= col < f.w,
        blit_source_of(f, dest_w, dest_h, p) matches Some((r, c)) && r * f.w + c == row * f.w + col,
    ensures
        blit_visible(f, dest_w, dest_h, row, col),
        blit_source_of(f, dest_w, dest_h, p) == Some((row, col)),
        4 * p == blit_dest_index(f, dest_w, dest_h, row, col),
{
    let (r, c) = blit_source_of(f, dest_w, dest_h, p).unwrap();
    lemma_row_major(c, r, f.w as int);
    lemma_row_major(col, row, f.w as int);
    vstd::arithmetic::div_mod::lemma_fundamental_div_mod(p, dest_w as int);
    assert(p == (p / (dest_w as int)) * dest_w + p % (dest_w as int)) by (nonlinear_arith)
        requires
            p == (dest_w as int) * (p / (dest_w as int)) + p % (dest_w as int),
    ;
}

/// One step of blitting: handling sprite pixel `(col, row)`, the next in
/// row-major order, writes its four bytes where it lands (if it lands inside
/// the destination) and extends the blitted prefix by that pixel.
proof fn lemma_blit_step(
    pixels: Seq<u8>,
    sheet_w: u32,
    f: AsepriteRect,
    dest_w: u32,
    dest_h: u32,
    old: Seq<u8>,
    before: Seq<u8>,
    after: Seq<u8>,
    row: int,
    col: int,
)
    requires
        0 <= row < f.h,
        0 <= col < f.w,
        before.len() == old.len(),
        after.len() == old.len(),
        forall|k: int|
            0 <= k < old.len() ==> before[k] == blitted_byte_upto(
                pixels,
                sheet_w,
                f,
                dest_w,
                dest_h,
                old,
                row * f.w + col,
                k,
            ),
        blit_visible(f, dest_w, dest_h, row, col) ==> forall|k: int|
            0 <= k < old.len() ==> after[k] == if blit_dest_index(f, dest_w, dest_h, row, col) <= k
                < blit_dest_index(f, dest_w, dest_h, row, col) + 4 {
                pixels[blit_src_index(f, sheet_w, row, col) + k - blit_dest_index(
                    f,
                    dest_w,
                    dest_h,
                    row,
                    col,
                )]
            } else {
                before[k]
            },
        !blit_visible(f, dest_w, dest_h, row, col) ==> after == before,
    ensures
        forall|k: int|
            0 <= k < old.len() ==> after[k] == blitted_byte_upto(
                pixels,
                sheet_w,
                f,
                dest_w,
                dest_h,
                old,
                row * f.w + col + 1,
                k,
            ),
{
    let lim = row * f.w + col;
    let dst = blit_dest_index(f, dest_w, dest_h, row, col);
    assert forall|k: int| 0 <= k < old.len() implies after[k] == blitted_byte_upto(
        pixels,
        sheet_w,
        f,
        dest_w,
        dest_h,
        old,
        lim + 1,
        k,
    ) by {
        if blit_visible(f, dest_w, dest_h, row, col) && dst <= k < dst + 4 {
            lemma_blit_written(f, dest_w, dest_h, row, col, k);
        } else {
            match blit_source_of(f, dest_w, dest_h, k / 4) {
                Some((r, c)) => {
                    if r * f.w + c == lim {
                        lemma_blit_source_unique(f, dest_w, dest_h, k / 4, row, col);
                    }
                },
                None => {},
            }
        }
    }
}

/// Why a sprite sheet could not be built.
#[derive(Debug)]
pub enum SheetError {
    /// The sheet image could not be decoded.
    Image(image::ImageError),
}

/// A loaded sprite sheet: its RGBA pixels, its atlas, and a table from
/// animation names to frame ranges.
pub struct SpriteSheet {
    /// The sheet's pixels, row-major, four bytes (RGBA) a pixel.
    pub pixels: Vec<u8>,
    pub width: u32,
    pub height: u32,
    pub atlas: AsepriteAtlas,
    /// Animation name and frame range `(start_frame, end_frame)`, one entry
    /// a name.
    tag_map: Vec<(String, (usize, usize))>,
}

impl SpriteSheet {
    /// The animation table: each animation name with its frame range.
    pub closed spec fn tags(&self) -> Map<Seq<char>, (usize, usize)> {
        entries_map(self.tag_map@)
    }

    /// The sheet's pixel bytes.
    pub closed spec fn sheet_pixels(&self) -> Seq<u8> {
        self.pixels@
    }

    /// The sheet's width, in pixels.
    pub closed spec fn sheet_width(&self) -> u32 {
        self.width
    }

    /// The sheet's height, in pixels.
    pub closed spec fn sheet_height(&self) -> u32 {
        self.height
    }

    /// The sheet's atlas.
    pub closed spec fn sheet_atlas(&self) -> AsepriteAtlas {
        self.atlas
    }

    /// A sheet of the given decoded pixels and atlas, with the animation
    /// table of the atlas's frame tags (a later tag of a name wins).
    pub fn from_parts(pixels: Vec<u8>, width: u32, height: u32, atlas: AsepriteAtlas) -> (s: Self)
        ensures
            s.sheet_pixels() == pixels@,
            s.sheet_width() == width,
            s.sheet_height() == height,
            s.sheet_atlas() == atlas,
            s.tags() == tags_map(atlas.meta.frame_tags@),
    {
        let tag_map = build_tag_map(&atlas.meta.frame_tags);
        SpriteSheet { pixels, width, height, atlas, tag_map }
    }

    /// A sheet of the PNG image `png` and `atlas`: the image decoded to
    /// RGBA, or the decoder's error.
    pub fn from_png(png: &[u8], atlas: AsepriteAtlas) -> (res: Result<Self, SheetError>)
        ensures
            match res {
                Ok(s) => {
                    &&& decoded_png_rgba8(png@) == Some((s.sheet_width(), s.sheet_height(), s.sheet_pixels()))
                    &&& s.sheet_pixels().len() == s.sheet_width() * s.sheet_height() * 4
                    &&& s.sheet_atlas() == atlas
                    &&& s.tags() == tags_map(atlas.meta.frame_tags@)
                },
                Err(SheetError::Image(_)) => decoded_png_rgba8(png@) is None,
            },
    {
        match decode_png_rgba8(png) {
            Ok((width, height, pixels)) => Ok(SpriteSheet::from_parts(pixels, width, height, atlas)),
            Err(e) => Err(SheetError::Image(e)),
        }
    }

    /// Blits frame `frame_idx` of the sheet, centred, into the RGBA buffer
    /// `dest` of `dest_w` x `dest_h` pixels (row-major, four bytes a pixel).
    /// Sprite pixels that fall outside the destination are skipped; bytes
    /// that no sprite pixel lands on are left alone.
    pub fn blit_frame(&self, frame_idx: usize, dest: &mut [u8], dest_w: u32, dest_h: u32)
        requires
            frame_idx < self.sheet_atlas().frames@.len(),
            blit_fits(
                self.sheet_pixels().len() as int,
                self.sheet_width(),
                self.sheet_atlas().frames@[frame_idx as int].frame,
                old(dest)@.len() as int,
                dest_w,
                dest_h,
            ),
        ensures
            final(dest)@.len() == old(dest)@.len(),
            forall|k: int|
                0 <= k < old(dest)@.len() ==> final(dest)@[k] == blitted_byte(
                    self.sheet_pixels(),
                    self.sheet_width(),
                    self.sheet_atlas().frames@[frame_idx as int].frame,
                    dest_w,
                    dest_h,
                    old(dest)@,
                    k,
                ),
    {
        let ghost old_dest = dest@;
        let dest_len = dest.len();
        let ghost len = dest_len as int;
        let frame = &self.atlas.frames[frame_idx];
        let ghost f = frame.frame;
        let src_x = frame.frame.x;
        let src_y = frame.frame.y;
        let fw = frame.frame.w;
        let fh = frame.frame.h;

        // Centre the sprite in the destination buffer; a sprite larger than
        // the destination gets a negative offset and shows its middle part.
        let off_x: i64 = if dest_w >= fw {
            ((dest_w - fw) / 2) as i64
        } else {
            -(((fw - dest_w) / 2) as i64)
        };
        let off_y: i64 = if dest_h >= fh {
            ((dest_h - fh) / 2) as i64
        } else {
            -(((fh - dest_h) / 2) as i64)
        };
        let shown = dest_w <= 0x7fff_ffff && dest_h <= 0x7fff_ffff;

        let mut row: u32 = 0;
        while row < fh
            invariant
                row <= fh,
                frame_idx < self.atlas.frames@.len(),
                f == self.atlas.frames@[frame_idx as int].frame,
                src_x == f.x,
                src_y == f.y,
                fw == f.w,
                fh == f.h,
                off_x == centring_offset(dest_w as int, fw as int),
                off_y == centring_offset(dest_h as int, fh as int),
                shown == on_screen(dest_w, dest_h),
                blit_fits(self.pixels@.len() as int, self.width, f, len, dest_w, dest_h),
                dest@.len() == len,
                len == dest_len,
                len == old_dest.len(),
                forall|k: int|
                    0 <= k < len ==> dest@[k] == blitted_byte_upto(
                        self.pixels@,
                        self.width,
                        f,
                        dest_w,
                        dest_h,
                        old_dest,
                        row * fw,
                        k,
                    ),
            decreases fh - row,
        {
            let mut col: u32 = 0;
            while col < fw
                invariant
                    col <= fw,
                    row < fh,
                    frame_idx < self.atlas.frames@.len(),
                f == self.atlas.frames@[frame_idx as int].frame,
                    src_x == f.x,
                    src_y == f.y,
                    fw == f.w,
                    fh == f.h,
                    off_x == centring_offset(dest_w as int, fw as int),
                    off_y == centring_offset(dest_h as int, fh as int),
                    shown == on_screen(dest_w, dest_h),
                    blit_fits(self.pixels@.len() as int, self.width, f, len, dest_w, dest_h),
                    dest@.len() == len,
                    len == dest_len,
                    len == old_dest.len(),
                    forall|k: int|
                        0 <= k < len ==> dest@[k] == blitted_byte_upto(
                            self.pixels@,
                            self.width,
                            f,
                            dest_w,
                            dest_h,
                            old_dest,
                            row * fw + col,
                            k,
                        ),
                decreases fw - col,
            {
                let sx = (src_x + col) as usize;
                let sy = (src_y + row) as usize;
                assert(sy * self.width + sx <= (f.y + f.h - 1) * self.width + (f.x + f.w - 1))
                    by (nonlinear_arith)
                    requires
                        sy <= f.y + f.h - 1,
                        sx <= f.x + f.w - 1,
                        0 <= sy,
                ;
                let src_i = (sy * self.width as usize + sx) * 4;
                assert(src_i == blit_src_index(f, self.width, row as int, col as int));

                let dx = off_x + col as i64;
                let dy = off_y + row as i64;
                let ghost before = dest@;
                if !shown || dx < 0 || dy < 0 || dx >= dest_w as i64 || dy >= dest_h as i64 {
                    assert(!blit_visible(f, dest_w, dest_h, row as int, col as int));
                } else {
                    assert(blit_visible(f, dest_w, dest_h, row as int, col as int));
                    let dst_i = (dy as usize * dest_w as usize + dx as usize) * 4;
                    assert(dst_i == blit_dest_index(f, dest_w, dest_h, row as int, col as int));
                    dest[dst_i] = self.pixels[src_i];
                    dest[dst_i + 1] = self.pixels[src_i + 1];
                    dest[dst_i + 2] = self.pixels[src_i + 2];
                    dest[dst_i + 3] = self.pixels[src_i + 3];
                }
                proof {
                    lemma_blit_step(
                        self.pixels@,
                        self.width,
                        f,
                        dest_w,
                        dest_h,
                        old_dest,
                        before,
                        dest@,
                        row as int,
                        col as int,
                    );
                }
                col = col + 1;
            }
            assert(row * fw + fw == (row + 1) * fw) by (nonlinear_arith);
            row = row + 1;
        }
        assert(fh * fw == fw * fh) by (nonlinear_arith);
    }

    /// The frame range of the animation `name`, if the sheet has one.
    pub fn get_tag(&self, name: &str) -> (r: Option<(usize, usize)>)
        ensures
            r == (if self.tags().contains_key(name@) {
                Some(self.tags()[name@])
            } else {
                None
            }),
    {
        let key = name.to_owned();
        match find_entry(&self.tag_map, &key) {
            Some(j) => {
                proof {
                    lemma_entries_first(self.tag_map@, j as int, name@);
                }
                Some(self.tag_map[j].1)
            },
            None => {
                proof {
                    lemma_entries_absent(self.tag_map@, name@);
                }
                None
            },
        }
    }
}

/// The frame an animation shows after `current` in the clip `start..=end`:
/// the next one, wrapping back to `start` past `end`.
pub open spec fn next_frame(current: int, start: int, end: int) -> int {
    if current + 1 > end {
        start
    } else {
        current + 1
    }
}

/// Where an animation stands: the frame shown, its clip `start..=end`, and
/// the time spent on the frame so far, in milliseconds.
pub struct Playback {
    pub frame: int,
    pub start: int,
    pub end: int,
    pub elapsed: int,
}

impl Playback {
    /// How long the frame shown lasts.
    pub open spec fn duration(self, frames: Seq<AsepriteFrame>) -> int {
        frames[self.frame].duration as int
    }

    /// Whether letting `dt` milliseconds pass moves on to the next frame.
    pub open spec fn advances(self, dt: int, frames: Seq<AsepriteFrame>) -> bool {
        self.elapsed + dt >= self.duration(frames)
    }

    /// Where the animation stands after `dt` milliseconds pass: at most one
    /// frame further, with the finished frame's duration taken off.
    pub open spec fn after(self, dt: int, frames: Seq<AsepriteFrame>) -> Playback {
        if self.advances(dt, frames) {
            Playback {
                frame: next_frame(self.frame, self.start, self.end),
                elapsed: self.elapsed + dt - self.duration(frames),
                ..self
            }
        } else {
            Playback { elapsed: self.elapsed + dt, ..self }
        }
    }
}

/// Where the animation stands after the updates `dts`, in order.
pub open spec fn play(p: Playback, dts: Seq<int>, frames: Seq<AsepriteFrame>) -> Playback
    decreases dts.len(),
{
    if dts.len() == 0 {
        p
    } else {
        play(p, dts.drop_last(), frames).after(dts.last(), frames)
    }
}

/// The time taken up by the frames that the updates `dts` finished.
pub open spec fn time_consumed(p: Playback, dts: Seq<int>, frames: Seq<AsepriteFrame>) -> int
    decreases dts.len(),
{
    if dts.len() == 0 {
        0
    } else {
        let q = play(p, dts.drop_last(), frames);
        time_consumed(p, dts.drop_last(), frames) + if q.advances(dts.last(), frames) {
            q.duration(frames)
        } else {
            0
        }
    }
}

/// The sum of the times `dts`.
pub open spec fn total_time(dts: Seq<int>) -> int
    decreases dts.len(),
{
    if dts.len() == 0 {
        0
    } else {
        total_time(dts.drop_last()) + dts.last()
    }
}

/// Over any run of updates, no time is lost: the time spent on the current
/// frame plus the durations of the frames finished equals the time spent
/// at the start plus all the time that passed. And an animation that starts
/// inside its clip stays inside it.
pub proof fn lemma_time_conserved(p: Playback, dts: Seq<int>, frames: Seq<AsepriteFrame>)
    ensures
        play(p, dts, frames).elapsed + time_consumed(p, dts, frames) == p.elapsed + total_time(dts),
        p.start <= p.frame <= p.end ==> p.start <= play(p, dts, frames).frame <= p.end,
        play(p, dts, frames).start == p.start,
        play(p, dts, frames).end == p.end,
    decreases dts.len(),
{
    if dts.len() > 0 {
        lemma_time_conserved(p, dts.drop_last(), frames);
    }
}

/// A run of update calls: when each call takes the animation one step of
/// `after` (as `Animator::update` does), the run ends where `play` says, and
/// no time is lost over the whole run: the time left on the last frame plus
/// the durations of the frames finished equals the time at the start plus
/// all the time that passed. Started inside its clip, the run stays inside
/// it after every call.
pub proof fn lemma_update_run(ps: Seq<Playback>, dts: Seq<int>, frames: Seq<AsepriteFrame>)
    requires
        ps.len() == dts.len() + 1,
        forall|i: int| 0 <= i < dts.len() ==> #[trigger] ps[i + 1] == ps[i].after(dts[i], frames),
    ensures
        ps.last() == play(ps[0], dts, frames),
        ps.last().elapsed + time_consumed(ps[0], dts, frames) == ps[0].elapsed + total_time(dts),
        ps[0].start <= ps[0].frame <= ps[0].end ==> forall|i: int|
            0 <= i < ps.len() ==> ps[0].start <= #[trigger] ps[i].frame <= ps[0].end,
    decreases dts.len(),
{
    if dts.len() > 0 {
        let n = dts.len() - 1;
        let init = ps.drop_last();
        assert forall|i: int| 0 <= i < dts.drop_last().len() implies #[trigger] init[i + 1] == init[i].after(
            dts.drop_last()[i],
            frames,
        ) by {
            assert(ps[i + 1] == ps[i].after(dts[i], frames));
        }
        lemma_update_run(init, dts.drop_last(), frames);
        assert(ps[n + 1] == ps[n].after(dts[n], frames));
        assert(init.last() == ps[n]);
    }
    lemma_time_conserved(ps[0], dts, frames);
    if ps[0].start <= ps[0].frame <= ps[0].end {
        assert forall|i: int| 0 <= i < ps.len() implies ps[0].start <= #[trigger] ps[i].frame <= ps[0].end by {
            if i < dts.len() {
                let pre = ps.take(i + 1);
                let ds = dts.take(i);
                assert forall|j: int| 0 <= j < ds.len() implies #[trigger] pre[j + 1] == pre[j].after(
                    ds[j],
                    frames,
                ) by {
                    assert(ps[j + 1] == ps[j].after(dts[j], frames));
                }
                lemma_update_run(pre, ds, frames);
                lemma_time_conserved(ps[0], ds, frames);
                assert(pre.last() == ps[i]);
            } else {
                assert(ps[i] == ps.last());
            }
        }
    }
}

/// Drives frame advancement for a single animation clip.
pub struct Animator {
    pub current_frame: usize,
    clip_start: usize,
    clip_end: usize,
    elapsed_ms: u32,
}

impl Animator {
    /// The frame currently shown.
    pub closed spec fn shown_frame(&self) -> usize {
        self.current_frame
    }

    /// The first frame of the clip.
    pub closed spec fn clip_start(&self) -> usize {
        self.clip_start
    }

    /// The last frame of the clip.
    pub closed spec fn clip_end(&self) -> usize {
        self.clip_end
    }

    /// The time spent on the current frame so far, in milliseconds.
    pub closed spec fn elapsed_ms(&self) -> u32 {
        self.elapsed_ms
    }

    /// Where the animation stands.
    pub closed spec fn playback(&self) -> Playback {
        Playback {
            frame: self.current_frame as int,
            start: self.clip_start as int,
            end: self.clip_end as int,
            elapsed: self.elapsed_ms as int,
        }
    }

    /// The frame currently shown.
    pub fn current_frame(&self) -> (r: usize)
        ensures
            r == self.shown_frame(),
    {
        self.current_frame
    }

    /// An animator at the start of the clip `start..=end`.
    pub fn new(start: usize, end: usize) -> (a: Self)
        ensures
            a.shown_frame() == start,
            a.clip_start() == start,
            a.clip_end() == end,
            a.elapsed_ms() == 0,
            a.playback() == (Playback { frame: start as int, start: start as int, end: end as int, elapsed: 0 }),
    {
        Animator { current_frame: start, clip_start: start, clip_end: end, elapsed_ms: 0 }
    }

    /// Switches to the clip `start..=end`, restarting from its first frame;
    /// asking for the clip already playing changes nothing.
    pub fn set_clip(&mut self, start: usize, end: usize)
        ensures
            final(self).clip_start() == start,
            final(self).clip_end() == end,
            if old(self).clip_start() == start && old(self).clip_end() == end {
                *final(self) == *old(self)
            } else {
                final(self).shown_frame() == start && final(self).elapsed_ms() == 0
            },
            start <= end && old(self).clip_start() <= old(self).shown_frame() <= old(self).clip_end()
                ==> start <= final(self).shown_frame() <= end,
    {
        if self.clip_start != start || self.clip_end != end {
            self.clip_start = start;
            self.clip_end = end;
            self.current_frame = start;
            self.elapsed_ms = 0;
        }
    }

    /// Lets `dt_ms` milliseconds pass. Once the time spent on the current
    /// frame reaches its duration, that duration is taken off and the
    /// animation moves to the next frame of the clip, wrapping past its end.
    pub fn update(&mut self, dt_ms: u32, frames: &[AsepriteFrame])
        requires
            old(self).elapsed_ms() + dt_ms <= u32::MAX,
            old(self).shown_frame() < frames@.len(),
        ensures
            final(self).clip_start() == old(self).clip_start(),
            final(self).clip_end() == old(self).clip_end(),
            ({
                let elapsed = old(self).elapsed_ms() + dt_ms;
                let duration = frames@[old(self).shown_frame() as int].duration;
                if elapsed >= duration {
                    &&& final(self).elapsed_ms() == elapsed - duration
                    &&& final(self).shown_frame() == next_frame(
                        old(self).shown_frame() as int,
                        old(self).clip_start() as int,
                        old(self).clip_end() as int,
                    )
                } else {
                    &&& final(self).elapsed_ms() == elapsed
                    &&& final(self).shown_frame() == old(self).shown_frame()
                }
            }),
            old(self).clip_start() <= old(self).shown_frame() <= old(self).clip_end() ==>
                final(self).clip_start() <= final(self).shown_frame() <= final(self).clip_end(),
            final(self).playback() == old(self).playback().after(dt_ms as int, frames@),
    {
        self.elapsed_ms = self.elapsed_ms + dt_ms;
        let frame_duration = frames[self.current_frame].duration;
        if self.elapsed_ms >= frame_duration {
            self.elapsed_ms = self.elapsed_ms - frame_duration;
            self.current_frame = self.current_frame + 1;
            if self.current_frame > self.clip_end {
                self.current_frame = self.clip_start;
            }
        }
    }
}

/// The frame reached from `current` after `n` frame advances in the clip
/// `start..=end`.
pub open spec fn advance_frames(current: int, start: int, end: int, n: nat) -> int
    decreases n,
{
    if n == 0 {
        current
    } else {
        next_frame(advance_frames(current, start, end, (n - 1) as nat), start, end)
    }
}

/// Advancing `n` frames from a frame of the clip lands on frame
/// `start + (current - start + n) % len` of the clip, where `len` is the
/// clip's length.
pub proof fn lemma_advance_frames(current: int, start: int, end: int, n: nat)
    requires
        start <= current <= end,
    ensures
        advance_frames(current, start, end, n) == start + (current - start + n) % (end - start + 1),
    decreases n,
{
    let len = end - start + 1;
    if n == 0 {
        vstd::arithmetic::div_mod::lemma_small_mod((current - start) as nat, len as nat);
    } else {
        lemma_advance_frames(current, start, end, (n - 1) as nat);
        let prev = current - start + n - 1;
        let q = prev / len;
        let m = prev % len;
        vstd::arithmetic::div_mod::lemma_fundamental_div_mod(prev, len);
        vstd::arithmetic::div_mod::lemma_mod_bound(prev, len);
        if m + 1 == len {
            assert(prev + 1 == (q + 1) * len + 0) by (nonlinear_arith)
                requires
                    prev == len * q + m,
                    m + 1 == len,
            ;
            vstd::arithmetic::div_mod::lemma_fundamental_div_mod_converse(prev + 1, len, q + 1, 0);
        } else {
            assert(prev + 1 == q * len + (m + 1)) by (nonlinear_arith)
                requires
                    prev == len * q + m,
            ;
            vstd::arithmetic::div_mod::lemma_fundamental_div_mod_converse(prev + 1, len, q, m + 1);
        }
    }
}

/// An animation loops: after as many frame advances as its clip has frames,
/// it shows the frame it started from again.
pub proof fn lemma_clip_loops(current: int, start: int, end: int)
    requires
        start <= current <= end,
    ensures
        advance_frames(current, start, end, (end - start + 1) as nat) == current,
        forall|n: nat| start <= #[trigger] advance_frames(current, start, end, n) <= end,
{
    let len = end - start + 1;
    lemma_advance_frames(current, start, end, len as nat);
    vstd::arithmetic::div_mod::lemma_mod_add_multiples_vanish(current - start, len);
    vstd::arithmetic::div_mod::lemma_small_mod((current - start) as nat, len as nat);
    assert forall|n: nat| start <= #[trigger] advance_frames(current, start, end, n) <= end by {
        lemma_advance_frames(current, start, end, n);
        vstd::arithmetic::div_mod::lemma_mod_bound(current - start + n, len);
    }
}

} // verus!
