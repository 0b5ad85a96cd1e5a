//! The track compiler: from an ASCII course description to a tile grid.
//!
//! A course is a rectangle framed by `+`/`-`/`|`, whose interior characters
//! mark each tile as out of bounds (`x`), in bounds (space), the start tile
//! (`s`, exactly one) or a finish-line tile (`*`). Compilation parses that
//! description, checks that the track is one contiguous region and never too
//! skinny, resolves the border segment of every tile on the track's edge,
//! and materialises the horizontal finish line through the start tile.
//!
//! Grid rows are indexed bottom-up: row 0 is the lowest line of the input's
//! interior. The tile at column `x`, row `y` covers the square from
//! `(x·TILE_SIZE, y·TILE_SIZE)` to `((x+1)·TILE_SIZE, (y+1)·TILE_SIZE)`.

use vstd::prelude::*;

use crate::geometry::Point;

verus! {

use vstd::string::StrSliceExecFns;
use vstd::string::StringSliceAdditionalSpecFns;

/// World units per tile, for every compiled track.
pub const TILE_SIZE: i64 = 2;

/// The original representation of a tile, as it was parsed.
#[derive(Copy, Clone, PartialEq, Eq, Structural, Debug)]
pub enum TileRepr {
    /// An interior space character: part of the track.
    InBounds,
    /// An `x` character: not part of the track.
    OutOfBounds,
    /// The `s` character: the start tile.
    Start,
    /// A `*` character: a tile the finish line is expected to cross.
    FinishLine,
}

/// The tile representation a character parses to, if any.
pub open spec fn spec_repr_of_char(c: char) -> Option<TileRepr> {
    if c == 'x' {
        Some(TileRepr::OutOfBounds)
    } else if c == ' ' {
        Some(TileRepr::InBounds)
    } else if c == 's' {
        Some(TileRepr::Start)
    } else if c == '*' {
        Some(TileRepr::FinishLine)
    } else {
        None
    }
}

impl TileRepr {
    /// Parses a `TileRepr` from a single character, if possible.
    pub fn from_char(c: char) -> (r: Option<TileRepr>)
        ensures
            r == spec_repr_of_char(c),
    {
        match c {
            'x' => Some(TileRepr::OutOfBounds),
            ' ' => Some(TileRepr::InBounds),
            's' => Some(TileRepr::Start),
            '*' => Some(TileRepr::FinishLine),
            _ => None,
        }
    }

    /// Returns whether the tile represents a region that is requested to be
    /// part of the racetrack.
    pub fn is_part_of_racetrack(&self) -> (r: bool)
        ensures
            r <==> !(*self is OutOfBounds),
    {
        match self {
            TileRepr::InBounds | TileRepr::Start | TileRepr::FinishLine => true,
            TileRepr::OutOfBounds => false,
        }
    }
}

/// One tile of a compiled track.
#[derive(Copy, Clone, PartialEq, Eq, Debug)]
pub enum GridTile {
    /// A tile on the edge of the track. `border` gives the two points where
    /// the track border crosses this tile's square; the side of the border
    /// that is inside the track can be inferred from the neighbouring tiles.
    /// A border tile counts as part of the track.
    Border { border: (Point, Point), contains_finish_line: bool },
    /// A tile fully contained within the track, not bordering any edge.
    Inside { contains_finish_line: bool },
    /// A tile fully outside of the track.
    Outside,
}

impl GridTile {
    /// Returns true iff the `GridTile` is the `Inside` variant.
    pub fn is_inside(&self) -> (r: bool)
        ensures
            r <==> (*self is Inside),
    {
        match self {
            GridTile::Inside { .. } => true,
            _ => false,
        }
    }

    /// Returns true iff the `GridTile` is the `Border` variant.
    pub fn is_border(&self) -> (r: bool)
        ensures
            r <==> (*self is Border),
    {
        match self {
            GridTile::Border { .. } => true,
            _ => false,
        }
    }

    /// Returns true iff the `GridTile` is the `Outside` variant.
    pub fn is_outside(&self) -> (r: bool)
        ensures
            r <==> (*self is Outside),
    {
        match self {
            GridTile::Outside => true,
            _ => false,
        }
    }

    /// Whether the finish line crosses this tile.
    pub fn contains_finish_line(&self) -> (r: bool)
        ensures
            r <==> spec_tile_has_finish_line(*self),
    {
        match self {
            GridTile::Border { contains_finish_line, .. } => *contains_finish_line,
            GridTile::Inside { contains_finish_line } => *contains_finish_line,
            GridTile::Outside => false,
        }
    }

    /// The tile's border segment, if it has one.
    pub fn try_border(&self) -> (r: Option<(Point, Point)>)
        ensures
            r == (match *self {
                GridTile::Border { border, .. } => Some(border),
                _ => None::<(Point, Point)>,
            }),
    {
        match self {
            GridTile::Border { border, .. } => Some(*border),
            _ => None,
        }
    }
}

/// Whether the finish line crosses the tile.
pub open spec fn spec_tile_has_finish_line(t: GridTile) -> bool {
    match t {
        GridTile::Border { contains_finish_line, .. } => contains_finish_line,
        GridTile::Inside { contains_finish_line } => contains_finish_line,
        GridTile::Outside => false,
    }
}

// --- The grammar of a track description, over the input's bytes ---
//
// A description is framed: a top line `+`, `w` dashes, `+`, newline; then `h`
// interior rows, each `|`, `w` tile characters, `|`, newline; then a bottom
// line equal to the top, with at most one trailing newline; and exactly one
// `s` among the interior characters. Interior rows are indexed bottom-up in
// the compiled grid, so grid row `y` is input row `h - y`.

/// The byte value of `+`.
pub const B_PLUS: u8 = 43;

/// The byte value of `-`.
pub const B_DASH: u8 = 45;

/// The byte value of `|`.
pub const B_PIPE: u8 = 124;

/// The byte value of a newline.
pub const B_NL: u8 = 10;

/// The byte value of `s`.
pub const B_START: u8 = 115;

/// The tile representation a byte parses to, if any: `x` is out of bounds,
/// a space in bounds, `s` the start tile and `*` a finish-line tile.
pub open spec fn spec_repr_of_byte(c: u8) -> Option<TileRepr> {
    if c == 120 {
        Some(TileRepr::OutOfBounds)
    } else if c == 32 {
        Some(TileRepr::InBounds)
    } else if c == 115 {
        Some(TileRepr::Start)
    } else if c == 42 {
        Some(TileRepr::FinishLine)
    } else {
        None
    }
}

/// The byte offset at which input line `r` starts: line 0 is the top border,
/// lines 1 to `h` the interior rows, line `h + 1` the bottom border. Every
/// line before the bottom one occupies `w + 3` bytes.
pub open spec fn spec_row_off(w: int, r: int) -> int
    decreases r,
{
    if r <= 0 {
        0
    } else {
        spec_row_off(w, r - 1) + w + 3
    }
}

/// Line offsets sit at least three bytes apart.
proof fn lemma_row_off_lower(w: int, r: int)
    requires
        0 <= w,
        0 <= r,
    ensures
        spec_row_off(w, r) >= 3 * r,
    decreases r,
{
    if r > 0 {
        lemma_row_off_lower(w, r - 1);
    }
}

/// The character of the decimal digit `d`.
pub open spec fn spec_digit_char(d: int) -> char {
    ((48 + d) as u8) as char
}

/// The decimal digits of `n`, most significant first; empty for zero.
pub open spec fn spec_decimal(n: int) -> Seq<char>
    decreases n,
{
    if n <= 0 {
        Seq::empty()
    } else {
        spec_decimal(n / 10) + seq![spec_digit_char(n % 10)]
    }
}

/// The digit character of `d`, as a string slice.
fn digit_str(d: usize) -> (s: &'static str)
    requires
        d < 10,
    ensures
        s@ == seq![spec_digit_char(d as int)],
{
    proof {
        reveal_strlit("0");
        reveal_strlit("1");
        reveal_strlit("2");
        reveal_strlit("3");
        reveal_strlit("4");
        reveal_strlit("5");
        reveal_strlit("6");
        reveal_strlit("7");
        reveal_strlit("8");
        reveal_strlit("9");
    }
    let s = match d {
        0 => "0",
        1 => "1",
        2 => "2",
        3 => "3",
        4 => "4",
        5 => "5",
        6 => "6",
        7 => "7",
        8 => "8",
        _ => "9",
    };
    proof {
        assert(s@ =~= seq![spec_digit_char(d as int)]);
    }
    s
}

/// Appends the decimal digits of `n`, most significant first, to `s`.
fn append_decimal(s: &mut String, n: usize)
    requires
        n > 0,
    ensures
        final(s)@ == old(s)@ + spec_decimal(n as int),
    decreases n,
{
    let ghost entry = s@;
    if n >= 10 {
        append_decimal(s, n / 10);
    }
    s.append(digit_str(n % 10));
    proof {
        assert(spec_decimal(n as int) == spec_decimal(n as int / 10) + seq![
            spec_digit_char(n as int % 10),
        ]);
        if n < 10 {
            assert(spec_decimal(n as int / 10) =~= Seq::<char>::empty());
        }
        assert(s@ =~= entry + spec_decimal(n as int));
    }
}

/// The shape of the top border line: `+`, `w` dashes, `+`, newline.
pub open spec fn spec_wf_top(b: Seq<u8>, w: int) -> bool {
    &&& b.len() > w + 2
    &&& b[0] == B_PLUS
    &&& (forall|j: int| 1 <= j <= w ==> b[j] == B_DASH)
    &&& b[w + 1] == B_PLUS
    &&& b[w + 2] == B_NL
}

/// The shape of interior row `r` (1-based, top-down): `|`, `w` bytes that
/// each parse to a tile, `|`, newline.
pub open spec fn spec_wf_row(b: Seq<u8>, w: int, r: int) -> bool {
    &&& b.len() > spec_row_off(w, r) + w + 2
    &&& b[spec_row_off(w, r)] == B_PIPE
    &&& (forall|j: int|
        0 <= j < w ==> spec_repr_of_byte(#[trigger] b[spec_row_off(w, r) + 1 + j]) is Some)
    &&& b[spec_row_off(w, r) + w + 1] == B_PIPE
    &&& b[spec_row_off(w, r) + w + 2] == B_NL
}

/// The structural shape of interior row `r`: `|`, `w` bytes, `|`, newline —
/// without constraining what the interior bytes are.
pub open spec fn spec_wf_row_frame(b: Seq<u8>, w: int, r: int) -> bool {
    &&& b.len() > spec_row_off(w, r) + w + 2
    &&& b[spec_row_off(w, r)] == B_PIPE
    &&& b[spec_row_off(w, r) + w + 1] == B_PIPE
    &&& b[spec_row_off(w, r) + w + 2] == B_NL
}

/// The shape of the bottom border line: `+`, `w` dashes, `+` — the top line
/// again, without its newline.
pub open spec fn spec_wf_bottom(b: Seq<u8>, w: int, h: int) -> bool {
    &&& b.len() > spec_row_off(w, h + 1) + w + 1
    &&& b[spec_row_off(w, h + 1)] == B_PLUS
    &&& (forall|j: int| 1 <= j <= w ==> #[trigger] b[spec_row_off(w, h + 1) + j] == B_DASH)
    &&& b[spec_row_off(w, h + 1) + w + 1] == B_PLUS
}

/// The frame of a `w` by `h` description: top line, `h` interior rows,
/// bottom line, and — when `nl` — a single trailing newline, with nothing
/// after it either way.
pub open spec fn spec_wf_frame(b: Seq<u8>, w: int, h: int, nl: bool) -> bool {
    &&& 0 <= w
    &&& 0 <= h
    &&& b.len() == spec_row_off(w, h + 1) + w + 2 + if nl {
        1int
    } else {
        0int
    }
    &&& spec_wf_top(b, w)
    &&& (forall|r: int| 1 <= r <= h ==> spec_wf_row(b, w, r))
    &&& spec_wf_bottom(b, w, h)
    &&& (nl ==> b[b.len() - 1] == B_NL)
}

/// The interior byte at grid column `x`, grid row `y` (bottom-up): grid row
/// `y` is input row `h - y`.
pub open spec fn spec_interior_byte(b: Seq<u8>, w: int, h: int, x: int, y: int) -> u8 {
    b[spec_row_off(w, h - y) + 1 + x]
}

/// Whether the grid cell `(x, y)` holds the start character.
pub open spec fn spec_is_start(b: Seq<u8>, w: int, h: int, x: int, y: int) -> bool {
    &&& 0 <= x < w
    &&& 0 <= y < h
    &&& spec_interior_byte(b, w, h, x, y) == B_START
}

/// Whether the description holds exactly one start character.
pub open spec fn spec_unique_start(b: Seq<u8>, w: int, h: int) -> bool {
    &&& exists|x: int, y: int| spec_is_start(b, w, h, x, y)
    &&& forall|x1: int, y1: int, x2: int, y2: int|
        spec_is_start(b, w, h, x1, y1) && spec_is_start(b, w, h, x2, y2) ==> x1 == x2 && y1 == y2
}

/// A well-formed `w` by `h` description: framed, and with a unique start.
pub open spec fn spec_wf_input(b: Seq<u8>, w: int, h: int, nl: bool) -> bool {
    spec_wf_frame(b, w, h, nl) && spec_unique_start(b, w, h)
}

/// Whether the bytes are a well-formed description of any size.
pub open spec fn spec_accepted(b: Seq<u8>) -> bool {
    exists|w: int, h: int| spec_wf_input(b, w, h, true) || spec_wf_input(b, w, h, false)
}

/// A frame whose interior rows are only structurally constrained: like
/// [`spec_wf_frame`], but with arbitrary bytes inside the rows.
pub open spec fn spec_wf_frame_loose(b: Seq<u8>, w: int, h: int, nl: bool) -> bool {
    &&& 0 <= w
    &&& 0 <= h
    &&& b.len() == spec_row_off(w, h + 1) + w + 2 + if nl {
        1int
    } else {
        0int
    }
    &&& spec_wf_top(b, w)
    &&& (forall|r: int| 1 <= r <= h ==> spec_wf_row_frame(b, w, r))
    &&& spec_wf_bottom(b, w, h)
    &&& (nl ==> b[b.len() - 1] == B_NL)
}

/// A well-formed frame is in particular structurally well formed.
proof fn lemma_frame_implies_loose(b: Seq<u8>, w: int, h: int, nl: bool)
    requires
        spec_wf_frame(b, w, h, nl),
    ensures
        spec_wf_frame_loose(b, w, h, nl),
{
    assert forall|r: int| 1 <= r <= h implies spec_wf_row_frame(b, w, r) by {
        assert(spec_wf_row(b, w, r));
    }
}

/// Bytes that fit no structural frame fit no description at all.
proof fn lemma_no_loose_no_accept(b: Seq<u8>)
    requires
        forall|w2: int, h2: int, nl2: bool| !(#[trigger] spec_wf_frame_loose(b, w2, h2, nl2)),
    ensures
        !spec_accepted(b),
{
    assert forall|w2: int, h2: int|
        !(spec_wf_input(b, w2, h2, true) || spec_wf_input(b, w2, h2, false)) by {
        if spec_wf_frame(b, w2, h2, true) {
            lemma_frame_implies_loose(b, w2, h2, true);
        }
        if spec_wf_frame(b, w2, h2, false) {
            lemma_frame_implies_loose(b, w2, h2, false);
        }
    }
}

/// Whether the byte at the interior position — input row `r`, 1-based
/// top-down, column `j` — parses to a tile.
pub open spec fn spec_tile_byte_ok(b: Seq<u8>, w: int, r: int, j: int) -> bool {
    spec_repr_of_byte(b[spec_row_off(w, r) + 1 + j]) is Some
}

/// The order in which the parser reads interior positions: row by row, left
/// to right.
pub open spec fn spec_pos_before(r0: int, j0: int, r: int, j: int) -> bool {
    r0 < r || (r0 == r && j0 < j)
}

/// An anomaly the parser stops at: a byte that is no tile character, or a
/// start character with another start character before it.
pub open spec fn spec_parse_anomaly(b: Seq<u8>, w: int, r: int, j: int) -> bool {
    ||| !spec_tile_byte_ok(b, w, r, j)
    ||| (b[spec_row_off(w, r) + 1 + j] == B_START && exists|r0: int, j0: int|
        #![trigger b[spec_row_off(w, r0) + 1 + j0]]
        1 <= r0 && 0 <= j0 < w && spec_pos_before(r0, j0, r, j) && b[spec_row_off(w, r0) + 1
            + j0] == B_START)
}

/// Whether `(r, j)` is the first anomalous interior position of a `w` by
/// `h` description, in reading order.
pub open spec fn spec_first_anomaly(b: Seq<u8>, w: int, h: int, r: int, j: int) -> bool {
    &&& 1 <= r <= h
    &&& 0 <= j < w
    &&& spec_parse_anomaly(b, w, r, j)
    &&& forall|r0: int, j0: int|
        1 <= r0 <= h && 0 <= j0 < w && spec_pos_before(r0, j0, r, j) ==> !(
        #[trigger] spec_parse_anomaly(b, w, r0, j0))
}

/// The message the parser reports for the first anomalous position: an
/// unknown character cited with its 1-based input line and column, or the
/// repeated start tile.
pub open spec fn spec_anomaly_msg(b: Seq<u8>, w: int, r: int, j: int) -> Seq<char> {
    if !spec_tile_byte_ok(b, w, r, j) {
        "expected one of 'x', ' ', 's', or '*' at "@ + spec_decimal(r + 1) + ":"@ + spec_decimal(
            j + 2,
        )
    } else {
        "multiple start tiles found"@
    }
}

/// Whether an interior position lies in the region the parser has already
/// read when it stands at row `k + 1`, column `j`.
pub open spec fn spec_in_read_region(k: int, j: int, r: int, x: int) -> bool {
    (1 <= r <= k) || (r == k + 1 && x < j)
}

/// If the region before position `(k + 1, j)` is clean — every byte a tile
/// character, at most one start — then an anomaly at `(k + 1, j)` is the
/// first anomaly of every structural frame on these bytes.
proof fn lemma_anomaly_pinned(b: Seq<u8>, w: int, k: int, j: int, w2: int, h2: int, nl2: bool)
    requires
        0 <= w,
        0 <= k,
        0 <= j < w,
        spec_wf_top(b, w),
        forall|rr: int| 1 <= rr <= k ==> spec_wf_row(b, w, rr),
        b.len() > spec_row_off(w, k + 1) + w + 2,
        b[spec_row_off(w, k + 1)] == B_PIPE,
        forall|x: int| 0 <= x < j ==> #[trigger] spec_tile_byte_ok(b, w, k + 1, x),
        forall|r1: int, x1: int, r2: int, x2: int|
            spec_in_read_region(k, j, r1, x1) && spec_in_read_region(k, j, r2, x2) && 0 <= x1 < w
                && 0 <= x2 < w && #[trigger] b[spec_row_off(w, r1) + 1 + x1] == B_START
                && #[trigger] b[spec_row_off(w, r2) + 1 + x2] == B_START ==> r1 == r2 && x1 == x2,
        spec_parse_anomaly(b, w, k + 1, j),
        spec_wf_frame_loose(b, w2, h2, nl2),
    ensures
        w2 == w,
        h2 >= k + 1,
        spec_first_anomaly(b, w2, h2, k + 1, j),
        forall|r: int, x: int|
            #[trigger] spec_first_anomaly(b, w2, h2, r, x) ==> r == k + 1 && x == j,
{
    lemma_width_pinned(b, w, w2, h2, nl2);
    lemma_height_more(b, w, k, h2, nl2);
    assert forall|r0: int, j0: int|
        1 <= r0 <= h2 && 0 <= j0 < w && spec_pos_before(r0, j0, k + 1, j) implies !(
    #[trigger] spec_parse_anomaly(b, w, r0, j0)) by {
        assert(spec_in_read_region(k, j, r0, j0));
        if r0 <= k {
            assert(spec_wf_row(b, w, r0));
            assert(spec_repr_of_byte(b[spec_row_off(w, r0) + 1 + j0]) is Some);
        } else {
            assert(r0 == k + 1 && j0 < j);
            assert(spec_tile_byte_ok(b, w, k + 1, j0));
        }
        if b[spec_row_off(w, r0) + 1 + j0] == B_START {
            assert forall|r00: int, j00: int|
                1 <= r00 && 0 <= j00 < w && spec_pos_before(r00, j00, r0, j0) implies #[trigger] b[
            spec_row_off(w, r00) + 1 + j00] != B_START by {
                if b[spec_row_off(w, r00) + 1 + j00] == B_START {
                    assert(spec_in_read_region(k, j, r00, j00));
                }
            }
        }
    }
    assert(spec_first_anomaly(b, w2, h2, k + 1, j));
    assert forall|r: int, x: int| #[trigger] spec_first_anomaly(b, w2, h2, r, x) implies r == k + 1
        && x == j by {
        if spec_pos_before(r, x, k + 1, j) {
            assert(!spec_parse_anomaly(b, w, r, x));
        } else if spec_pos_before(k + 1, j, r, x) {
            assert(!spec_parse_anomaly(b, w, k + 1, j));
        }
    }
}

/// A well-formed description has no parse anomaly: every interior byte is a
/// tile character and only one is the start.
proof fn lemma_wf_input_no_anomaly(b: Seq<u8>, w: int, h: int, nl: bool)
    requires
        spec_wf_input(b, w, h, nl),
    ensures
        forall|r: int, j: int|
            1 <= r <= h && 0 <= j < w ==> !(#[trigger] spec_parse_anomaly(b, w, r, j)),
{
    assert forall|r: int, j: int| 1 <= r <= h && 0 <= j < w implies !(
    #[trigger] spec_parse_anomaly(b, w, r, j)) by {
        assert(spec_wf_row(b, w, r));
        assert(spec_repr_of_byte(b[spec_row_off(w, r) + 1 + j]) is Some);
        if b[spec_row_off(w, r) + 1 + j] == B_START {
            assert forall|r0: int, j0: int|
                1 <= r0 && 0 <= j0 < w && spec_pos_before(r0, j0, r, j) implies #[trigger] b[
            spec_row_off(w, r0) + 1 + j0] != B_START by {
                if b[spec_row_off(w, r0) + 1 + j0] == B_START {
                    assert(spec_is_start(b, w, h, j0, h - r0));
                    assert(spec_is_start(b, w, h, j, h - r));
                }
            }
        }
    }
}

/// The parse-message contract, for a rejected input: conditioned on the
/// bytes fitting some structural frame, the reported message is the one for
/// the first anomalous interior position, and reads `no start tile found`
/// when the interior is clean but holds no start character.
pub open spec fn spec_parse_err_msgs(b: Seq<u8>, m: Seq<char>) -> bool {
    forall|w: int, h: int|
        #![trigger spec_wf_frame_loose(b, w, h, true)]
        #![trigger spec_wf_frame_loose(b, w, h, false)]
        (spec_wf_frame_loose(b, w, h, true) || spec_wf_frame_loose(b, w, h, false)) ==> {
            &&& (forall|r: int, j: int|
                #[trigger] spec_first_anomaly(b, w, h, r, j) ==> m == spec_anomaly_msg(b, w, r, j))
            &&& ((forall|r: int, j: int|
                1 <= r <= h && 0 <= j < w ==> !(#[trigger] spec_parse_anomaly(b, w, r, j)))
                && (forall|r: int, j: int|
                1 <= r <= h && 0 <= j < w ==> #[trigger] b[spec_row_off(w, r) + 1 + j]
                    != B_START) ==> m == "no start tile found"@)
        }
}

/// With the parser stopped at an anomaly at `(k + 1, j)` after a clean read
/// region, the parse-message contract holds of that anomaly's message.
proof fn lemma_anomaly_msg_clauses(b: Seq<u8>, w: int, k: int, j: int, msg: Seq<char>)
    requires
        0 <= w,
        0 <= k,
        0 <= j < w,
        spec_wf_top(b, w),
        forall|rr: int| 1 <= rr <= k ==> spec_wf_row(b, w, rr),
        b.len() > spec_row_off(w, k + 1) + w + 2,
        b[spec_row_off(w, k + 1)] == B_PIPE,
        forall|x: int| 0 <= x < j ==> #[trigger] spec_tile_byte_ok(b, w, k + 1, x),
        forall|r1: int, x1: int, r2: int, x2: int|
            spec_in_read_region(k, j, r1, x1) && spec_in_read_region(k, j, r2, x2) && 0 <= x1 < w
                && 0 <= x2 < w && #[trigger] b[spec_row_off(w, r1) + 1 + x1] == B_START
                && #[trigger] b[spec_row_off(w, r2) + 1 + x2] == B_START ==> r1 == r2 && x1 == x2,
        spec_parse_anomaly(b, w, k + 1, j),
        msg == spec_anomaly_msg(b, w, k + 1, j),
    ensures
        spec_parse_err_msgs(b, msg),
{
    assert forall|w2: int, h2: int|
        #![trigger spec_wf_frame_loose(b, w2, h2, true)]
        #![trigger spec_wf_frame_loose(b, w2, h2, false)]
        (spec_wf_frame_loose(b, w2, h2, true) || spec_wf_frame_loose(b, w2, h2, false)) implies {
        &&& (forall|r: int, x: int|
            #[trigger] spec_first_anomaly(b, w2, h2, r, x) ==> msg == spec_anomaly_msg(
                b,
                w2,
                r,
                x,
            ))
        &&& !(forall|r: int, x: int|
            1 <= r <= h2 && 0 <= x < w2 ==> !(#[trigger] spec_parse_anomaly(b, w2, r, x)))
    } by {
        let nl2 = if spec_wf_frame_loose(b, w2, h2, true) {
            true
        } else {
            false
        };
        lemma_anomaly_pinned(b, w, k, j, w2, h2, nl2);
        assert(spec_parse_anomaly(b, w2, k + 1, j));
        assert forall|r: int, x: int| #[trigger] spec_first_anomaly(b, w2, h2, r, x) implies msg
            == spec_anomaly_msg(b, w2, r, x) by {
            assert(r == k + 1 && x == j);
        }
        assert(1 <= k + 1 <= h2 && 0 <= j < w2);
    }
}

/// Bytes that fit no structural frame satisfy the parse-message contract
/// vacuously, whatever the message.
proof fn lemma_no_loose_msgs(b: Seq<u8>, m: Seq<char>)
    requires
        forall|w2: int, h2: int, nl2: bool| !(#[trigger] spec_wf_frame_loose(b, w2, h2, nl2)),
    ensures
        !spec_accepted(b),
        spec_parse_err_msgs(b, m),
{
    lemma_no_loose_no_accept(b);
    assert forall|w: int, h: int|
        #![trigger spec_wf_frame_loose(b, w, h, true)]
        #![trigger spec_wf_frame_loose(b, w, h, false)]
        (spec_wf_frame_loose(b, w, h, true) || spec_wf_frame_loose(b, w, h, false)) implies ({
        &&& (forall|r: int, j: int|
            #[trigger] spec_first_anomaly(b, w, h, r, j) ==> m == spec_anomaly_msg(b, w, r, j))
        &&& ((forall|r: int, j: int|
            1 <= r <= h && 0 <= j < w ==> !(#[trigger] spec_parse_anomaly(b, w, r, j))) && (
        forall|r: int, j: int|
            1 <= r <= h && 0 <= j < w ==> #[trigger] b[spec_row_off(w, r) + 1 + j] != B_START)
            ==> m == "no start tile found"@)
    }) by {
        assert(!spec_wf_frame_loose(b, w, h, true));
        assert(!spec_wf_frame_loose(b, w, h, false));
    }
}

/// A fully parsed description without any start character satisfies the
/// parse-message contract with the missing-start message.
proof fn lemma_no_start_msgs(b: Seq<u8>, w: int, k: int)
    requires
        0 <= w,
        0 <= k,
        spec_wf_top(b, w),
        forall|rr: int| 1 <= rr <= k ==> spec_wf_row(b, w, rr),
        b.len() <= spec_row_off(w, k + 1) || b[spec_row_off(w, k + 1)] != B_PIPE,
        forall|r: int, x: int|
            1 <= r <= k && 0 <= x < w ==> #[trigger] b[spec_row_off(w, r) + 1 + x] != B_START,
    ensures
        spec_parse_err_msgs(b, "no start tile found"@),
{
    assert forall|w2: int, h2: int|
        #![trigger spec_wf_frame_loose(b, w2, h2, true)]
        #![trigger spec_wf_frame_loose(b, w2, h2, false)]
        (spec_wf_frame_loose(b, w2, h2, true) || spec_wf_frame_loose(b, w2, h2, false))
            implies (forall|r: int, x: int|
        #[trigger] spec_first_anomaly(b, w2, h2, r, x) ==> "no start tile found"@
            == spec_anomaly_msg(b, w2, r, x)) by {
        let nl2 = if spec_wf_frame_loose(b, w2, h2, true) {
            true
        } else {
            false
        };
        lemma_frame_dims(b, w, k, w2, h2, nl2);
        lemma_height_at_most(b, w, k, h2, nl2);
        assert forall|r: int, x: int|
            #[trigger] spec_first_anomaly(b, w2, h2, r, x)
                implies "no start tile found"@ == spec_anomaly_msg(b, w2, r, x) by {
            assert(1 <= r <= k && 0 <= x < w);
            assert(spec_wf_row(b, w, r));
            assert(spec_repr_of_byte(b[spec_row_off(w, r) + 1 + x]) is Some);
            assert(b[spec_row_off(w, r) + 1 + x] != B_START);
            assert(!spec_parse_anomaly(b, w, r, x));
            assert(spec_parse_anomaly(b, w2, r, x));
        }
    }
}

/// A well-formed description satisfies the parse-message contract
/// vacuously, whatever the message: it has no anomaly, and it has a start.
proof fn lemma_wf_input_msgs(b: Seq<u8>, w: int, h: int, nl: bool, m: Seq<char>)
    requires
        spec_wf_input(b, w, h, nl),
    ensures
        spec_parse_err_msgs(b, m),
{
    lemma_wf_input_no_anomaly(b, w, h, nl);
    lemma_frame_implies_loose(b, w, h, nl);
    let (sx0, sy0) = choose|sx0: int, sy0: int| spec_is_start(b, w, h, sx0, sy0);
    assert(b[spec_row_off(w, h - sy0) + 1 + sx0] == B_START);
    assert forall|w2: int, h2: int|
        #![trigger spec_wf_frame_loose(b, w2, h2, true)]
        #![trigger spec_wf_frame_loose(b, w2, h2, false)]
        (spec_wf_frame_loose(b, w2, h2, true) || spec_wf_frame_loose(b, w2, h2, false)) implies ({
        &&& (forall|r: int, j: int|
            #[trigger] spec_first_anomaly(b, w2, h2, r, j) ==> m == spec_anomaly_msg(b, w2, r, j))
        &&& ((forall|r: int, j: int|
            1 <= r <= h2 && 0 <= j < w2 ==> !(#[trigger] spec_parse_anomaly(b, w2, r, j))) && (
        forall|r: int, j: int|
            1 <= r <= h2 && 0 <= j < w2 ==> #[trigger] b[spec_row_off(w2, r) + 1 + j] != B_START)
            ==> m == "no start tile found"@)
    }) by {
        let nl2 = if spec_wf_frame_loose(b, w2, h2, true) {
            true
        } else {
            false
        };
        lemma_width_pinned(b, w, w2, h2, nl2);
        lemma_height_at_least(b, w, h, h2, nl2);
        lemma_height_at_most(b, w, h, h2, nl2);
        assert forall|r: int, j: int| #[trigger] spec_first_anomaly(b, w2, h2, r, j) implies m
            == spec_anomaly_msg(b, w2, r, j) by {
            assert(spec_parse_anomaly(b, w2, r, j));
            assert(!spec_parse_anomaly(b, w, r, j));
        }
        if forall|r: int, j: int|
            1 <= r <= h2 && 0 <= j < w2 ==> #[trigger] b[spec_row_off(w2, r) + 1 + j] != B_START {
            assert(1 <= h - sy0 <= h2 && 0 <= sx0 < w2);
            assert(b[spec_row_off(w2, h - sy0) + 1 + sx0] != B_START);
        }
    }
}

/// A frame's width is pinned by the dashes of the top line: no two widths
/// fit the same bytes.
proof fn lemma_width_pinned(b: Seq<u8>, w_scan: int, w2: int, h2: int, nl2: bool)
    requires
        0 <= w_scan,
        forall|j: int| 1 <= j <= w_scan ==> b[j] == B_DASH,
        w_scan + 1 < b.len(),
        b[w_scan + 1] != B_DASH,
        spec_wf_frame_loose(b, w2, h2, nl2),
    ensures
        w2 == w_scan,
{
    if w2 < w_scan {
        assert(b[w2 + 1] == B_DASH);
        assert(b[w2 + 1] == B_PLUS);
    } else if w2 > w_scan {
        assert(b[w_scan + 1] == B_DASH);
    }
}

/// A frame has at least as many interior rows as have already been seen to
/// start with `|`: the bottom line starts with `+`.
proof fn lemma_height_at_least(b: Seq<u8>, w: int, k: int, h2: int, nl2: bool)
    requires
        0 <= w,
        0 <= k,
        spec_wf_frame_loose(b, w, h2, nl2),
        forall|rr: int| 1 <= rr <= k ==> spec_wf_row(b, w, rr),
    ensures
        h2 >= k,
{
    if h2 < k {
        assert(spec_wf_row(b, w, h2 + 1));
        assert(b[spec_row_off(w, h2 + 1)] == B_PIPE);
        assert(b[spec_row_off(w, h2 + 1)] == B_PLUS);
    }
}

/// If the line after `k` interior rows does not start with `|` — or the
/// input ends before it — the frame has at most `k` interior rows.
proof fn lemma_height_at_most(b: Seq<u8>, w: int, k: int, h2: int, nl2: bool)
    requires
        0 <= w,
        0 <= k,
        spec_wf_frame_loose(b, w, h2, nl2),
        b.len() <= spec_row_off(w, k + 1) || b[spec_row_off(w, k + 1)] != B_PIPE,
    ensures
        h2 <= k,
{
    if h2 > k {
        assert(spec_wf_row_frame(b, w, k + 1));
    }
}

/// If the line after `k` interior rows does start with `|`, the frame has
/// more than `k` interior rows: the bottom line would start with `+`.
proof fn lemma_height_more(b: Seq<u8>, w: int, k: int, h2: int, nl2: bool)
    requires
        0 <= w,
        0 <= k,
        spec_wf_frame_loose(b, w, h2, nl2),
        forall|rr: int| 1 <= rr <= k ==> spec_wf_row(b, w, rr),
        b.len() > spec_row_off(w, k + 1),
        b[spec_row_off(w, k + 1)] == B_PIPE,
    ensures
        h2 >= k + 1,
{
    lemma_height_at_least(b, w, k, h2, nl2);
    if h2 == k {
        assert(b[spec_row_off(w, k + 1)] == B_PLUS);
    }
}

/// Any frame on these bytes has the scanned width and at least the `k`
/// interior rows already parsed.
proof fn lemma_frame_dims(b: Seq<u8>, w: int, k: int, w2: int, h2: int, nl2: bool)
    requires
        0 <= w,
        0 <= k,
        spec_wf_top(b, w),
        forall|rr: int| 1 <= rr <= k ==> spec_wf_row(b, w, rr),
        spec_wf_frame_loose(b, w2, h2, nl2),
    ensures
        w2 == w,
        h2 >= k,
{
    lemma_width_pinned(b, w, w2, h2, nl2);
    lemma_height_at_least(b, w, k, h2, nl2);
}

/// No width fits bytes whose top line breaks off: after the leading dashes
/// there is neither a further dash nor a closing `+` (or the input ends).
proof fn lemma_top_reject(b: Seq<u8>, w: int)
    requires
        0 <= w,
        forall|j: int| 1 <= j <= w ==> b[j] == B_DASH,
        b.len() <= w + 1 || (b[w + 1] != B_DASH && b[w + 1] != B_PLUS),
    ensures
        forall|w2: int, h2: int, nl2: bool| !(#[trigger] spec_wf_frame_loose(b, w2, h2, nl2)),
        !spec_accepted(b),
{
    assert forall|w2: int, h2: int, nl2: bool|
        !(#[trigger] spec_wf_frame_loose(b, w2, h2, nl2)) by {
        if spec_wf_frame_loose(b, w2, h2, nl2) {
            if w2 < w {
                assert(b[w2 + 1] == B_DASH);
            } else if w2 == w {
                assert(b.len() > w + 2);
                assert(b[w + 1] == B_PLUS);
            } else {
                assert(b.len() > w2 + 2);
                assert(b[w + 1] == B_DASH);
            }
        }
    }
    lemma_no_loose_no_accept(b);
}

/// The original representation of the grid description that is parsed to
/// create a [`Racetrack`].
pub struct InitialGrid {
    /// The starting tile, as `(column, row)` grid indices — the actual tile
    /// is `rows[row][column]`, rows indexed bottom-up.
    pub start_tile: (usize, usize),
    /// The interior tiles, rows indexed bottom-up.
    pub rows: Vec<Vec<TileRepr>>,
    /// The width of the grid; every row of `rows` has this length.
    pub width: usize,
}

/// Reads a tile byte; see [`spec_repr_of_byte`].
fn repr_of_byte(c: u8) -> (r: Option<TileRepr>)
    ensures
        r == spec_repr_of_byte(c),
{
    if c == 120 {
        Some(TileRepr::OutOfBounds)
    } else if c == 32 {
        Some(TileRepr::InBounds)
    } else if c == 115 {
        Some(TileRepr::Start)
    } else if c == 42 {
        Some(TileRepr::FinishLine)
    } else {
        None
    }
}

impl InitialGrid {
    /// Parses the description into the grid of tile representations.
    ///
    /// Succeeds exactly on well-formed descriptions — framed, with tile
    /// characters only and exactly one `s` — and then returns the grid of
    /// the interior, rows indexed bottom-up, together with its width and the
    /// start tile's grid coordinates. On a framed description that is
    /// rejected, the error message is pinned by [`spec_parse_err_msgs`]: an
    /// unknown character is cited with its 1-based line and column, a
    /// second start character or a missing one by name.
    #[verifier::loop_isolation(false)]
    #[verifier::rlimit(100)]
    pub fn from_str(input: &str) -> (r: Result<InitialGrid, String>)
        ensures
            match r {
                Ok(g) => {
                    let b = input.spec_bytes();
                    let w = g.width as int;
                    let h = g.rows@.len() as int;
                    &&& spec_wf_input(b, w, h, true) || spec_wf_input(b, w, h, false)
                    &&& forall|y: int| 0 <= y < h ==> (#[trigger] g.rows@[y])@.len() == w
                    &&& forall|y: int, x: int|
                        0 <= y < h && 0 <= x < w ==> Some(#[trigger] g.rows@[y]@[x])
                            == spec_repr_of_byte(spec_interior_byte(b, w, h, x, y))
                    &&& spec_is_start(b, w, h, g.start_tile.0 as int, g.start_tile.1 as int)
                },
                Err(m) => {
                    let b = input.spec_bytes();
                    &&& !spec_accepted(b)
                    &&& spec_parse_err_msgs(b, m@)
                },
            },
    {
        let bytes: Vec<u8> = input.as_bytes_vec();
        let ghost b = bytes@;
        let n: usize = bytes.len();

        // Top border: '+', dashes, '+', newline.
        if n == 0 || bytes[0] != B_PLUS {
            proof {
                assert forall|w2: int, h2: int, nl2: bool|
                    !(#[trigger] spec_wf_frame_loose(b, w2, h2, nl2)) by {}
                lemma_no_loose_msgs(b, "expected a starting '+'"@);
            }
            return Err("expected a starting '+'".to_owned());
        }
        let mut w: usize = 0;
        while w + 1 < n && bytes[w + 1] == B_DASH
            invariant
                w + 1 <= n,
                forall|j: int| 1 <= j <= w ==> b[j] == B_DASH,
            decreases n - w,
        {
            w = w + 1;
        }
        if w + 1 >= n || bytes[w + 1] != B_PLUS {
            proof {
                lemma_top_reject(b, w as int);
                lemma_no_loose_msgs(b, "expected top row to contain dashes ('-')"@);
            }
            return Err("expected top row to contain dashes ('-')".to_owned());
        }
        if n - (w + 1) < 2 || bytes[w + 2] != B_NL {
            proof {
                assert forall|w2: int, h2: int, nl2: bool|
                    !(#[trigger] spec_wf_frame_loose(b, w2, h2, nl2)) by {
                    if spec_wf_frame_loose(b, w2, h2, nl2) {
                        lemma_width_pinned(b, w as int, w2, h2, nl2);
                    }
                }
                lemma_no_loose_msgs(b, "top row should be terminated by '+\\n'"@);
            }
            return Err("top row should be terminated by '+\\n'".to_owned());
        }

        // Interior rows, top to bottom as they appear in the input.
        let mut rows: Vec<Vec<TileRepr>> = Vec::new();
        let mut start: Option<(usize, usize)> = None;
        let mut pos: usize = w + 3;
        proof {
            assert(spec_row_off(w as int, 0) == 0);
            assert(spec_row_off(w as int, 1) == w + 3);
        }
        while pos < n && bytes[pos] != B_PLUS
            invariant
                w + 2 < n,
                spec_wf_top(b, w as int),
                pos == spec_row_off(w as int, rows@.len() as int + 1),
                pos <= n,
                forall|rr: int| 1 <= rr <= rows@.len() ==> spec_wf_row(b, w as int, rr),
                forall|y: int| 0 <= y < rows@.len() ==> (#[trigger] rows@[y])@.len() == w,
                forall|y: int, x: int|
                    0 <= y < rows@.len() && 0 <= x < w ==> Some(#[trigger] rows@[y]@[x])
                        == spec_repr_of_byte(b[spec_row_off(w as int, y + 1) + 1 + x]),
                start is None ==> forall|rr: int, x: int|
                    1 <= rr <= rows@.len() && 0 <= x < w ==> #[trigger] b[spec_row_off(
                        w as int,
                        rr,
                    ) + 1 + x] != B_START,
                start matches Some((sx, sy)) ==> {
                    &&& sx < w
                    &&& sy < rows@.len()
                    &&& b[spec_row_off(w as int, sy as int + 1) + 1 + sx] == B_START
                    &&& forall|rr: int, x: int|
                        1 <= rr <= rows@.len() && 0 <= x < w && #[trigger] b[spec_row_off(
                            w as int,
                            rr,
                        ) + 1 + x] == B_START ==> rr == sy + 1 && x == sx
                },
            decreases n - pos,
        {
            let ghost k = rows@.len() as int;
            // The coming line is an interior row; it needs w + 3 bytes.
            if n - pos < w + 3 {
                proof {
                    assert forall|w2: int, h2: int, nl2: bool|
                        !(#[trigger] spec_wf_frame_loose(b, w2, h2, nl2)) by {
                        if spec_wf_frame_loose(b, w2, h2, nl2) {
                            lemma_frame_dims(b, w as int, k, w2, h2, nl2);
                            if h2 == k {
                                assert(b[spec_row_off(w as int, k + 1)] == B_PLUS);
                            } else {
                                assert(spec_wf_row_frame(b, w as int, k + 1));
                            }
                        }
                    }
                    lemma_no_loose_msgs(b, "expected trailing pipe ('|') at end of inner row"@);
                }
                return Err("expected trailing pipe ('|') at end of inner row".to_owned());
            }
            if bytes[pos] != B_PIPE {
                proof {
                    assert forall|w2: int, h2: int, nl2: bool|
                        !(#[trigger] spec_wf_frame_loose(b, w2, h2, nl2)) by {
                        if spec_wf_frame_loose(b, w2, h2, nl2) {
                            lemma_frame_dims(b, w as int, k, w2, h2, nl2);
                            if h2 == k {
                                assert(b[spec_row_off(w as int, k + 1)] == B_PLUS);
                            } else {
                                assert(spec_wf_row_frame(b, w as int, k + 1));
                            }
                        }
                    }
                    lemma_no_loose_no_accept(b);
                }
                proof {
                    lemma_row_off_lower(w as int, rows@.len() as int + 1);
                }
                let mut m = "expected row ".to_owned();
                append_decimal(&mut m, rows.len() + 2);
                m.append(" to start with '|'");
                proof {
                    lemma_no_loose_msgs(b, m@);
                }
                return Err(m);
            }
            let mut row: Vec<TileRepr> = Vec::new();
            let mut j: usize = 0;
            while j < w
                invariant
                    j <= w,
                    row@.len() == j,
                    forall|x: int|
                        0 <= x < j ==> Some(#[trigger] row@[x]) == spec_repr_of_byte(
                            b[pos + 1 + x],
                        ),
                    start is None ==> (forall|rr: int, x: int|
                        1 <= rr <= rows@.len() && 0 <= x < w ==> #[trigger] b[spec_row_off(
                            w as int,
                            rr,
                        ) + 1 + x] != B_START) && (forall|x: int|
                        0 <= x < j ==> #[trigger] b[pos + 1 + x] != B_START),
                    start matches Some((sx, sy)) ==> {
                        &&& sx < w
                        &&& (sy < rows@.len() || (sy == rows@.len() && sx < j))
                        &&& b[spec_row_off(w as int, sy as int + 1) + 1 + sx] == B_START
                        &&& forall|rr: int, x: int|
                            1 <= rr <= rows@.len() && 0 <= x < w && #[trigger] b[spec_row_off(
                                w as int,
                                rr,
                            ) + 1 + x] == B_START ==> rr == sy + 1 && x == sx
                        &&& forall|x: int|
                            0 <= x < j && #[trigger] b[pos + 1 + x] == B_START ==> sy
                                == rows@.len() && x == sx
                    },
                decreases w - j,
            {
                let c = bytes[pos + 1 + j];
                match repr_of_byte(c) {
                    None => {
                        proof {
                            assert forall|w2: int, h2: int|
                                !(spec_wf_input(b, w2, h2, true) || spec_wf_input(
                                    b,
                                    w2,
                                    h2,
                                    false,
                                )) by {
                                if spec_wf_frame(b, w2, h2, true) || spec_wf_frame(
                                    b,
                                    w2,
                                    h2,
                                    false,
                                ) {
                                    let nl2 = spec_wf_frame(b, w2, h2, true);
                                    lemma_frame_implies_loose(b, w2, h2, nl2);
                                    lemma_frame_dims(b, w as int, k, w2, h2, nl2);
                                    if h2 == k {
                                        assert(b[spec_row_off(w as int, k + 1)] == B_PLUS);
                                    } else {
                                        assert(spec_wf_row(b, w as int, k + 1));
                                        assert(spec_repr_of_byte(
                                            b[spec_row_off(w as int, k + 1) + 1 + j],
                                        ) is Some);
                                    }
                                }
                            }
                        }
                        proof {
                            lemma_row_off_lower(w as int, rows@.len() as int + 1);
                        }
                        let mut m = "expected one of 'x', ' ', 's', or '*' at ".to_owned();
                        append_decimal(&mut m, rows.len() + 2);
                        m.append(":");
                        append_decimal(&mut m, j + 2);
                        proof {
                            let wi = w as int;
                            let jj = j as int;
                            assert(b[pos + 1 + j] == c);
                            assert(!spec_tile_byte_ok(b, wi, k + 1, jj));
                            assert forall|x: int| 0 <= x < jj implies #[trigger] spec_tile_byte_ok(
                                b,
                                wi,
                                k + 1,
                                x,
                            ) by {
                                assert(Some(row@[x]) == spec_repr_of_byte(b[pos + 1 + x]));
                            }
                            if start is Some {
                                let p0 = start->Some_0;
                                let sx0 = p0.0 as int;
                                let sy0 = p0.1 as int;
                                assert forall|r1: int, x1: int|
                                    spec_in_read_region(k, jj, r1, x1) && 0 <= x1 < wi
                                        && #[trigger] b[spec_row_off(wi, r1) + 1 + x1]
                                        == B_START implies r1 == sy0 + 1 && x1 == sx0 by {
                                    if r1 > k {
                                        assert(b[pos + 1 + x1] == B_START);
                                    }
                                }
                            } else {
                                assert forall|r1: int, x1: int|
                                    spec_in_read_region(k, jj, r1, x1) && 0 <= x1 < wi implies #[
                                trigger] b[spec_row_off(wi, r1) + 1 + x1] != B_START by {
                                    if r1 > k {
                                        assert(b[pos + 1 + x1] != B_START);
                                    }
                                }
                            }
                            assert(m@ =~= spec_anomaly_msg(b, wi, k + 1, jj));
                            lemma_anomaly_msg_clauses(b, wi, k, jj, m@);
                        }
                        return Err(m);
                    },
                    Some(t) => {
                        let is_start_tile = match t {
                            TileRepr::Start => true,
                            _ => false,
                        };
                        if is_start_tile {
                            match start {
                                Some(_) => {
                                    proof {
                                        lemma_reject_second_start(
                                            b,
                                            w as int,
                                            k,
                                            start->Some_0.0 as int,
                                            start->Some_0.1 as int,
                                            j as int,
                                        );
                                        let wi = w as int;
                                        let jj = j as int;
                                        let p0 = start->Some_0;
                                        let sx0 = p0.0 as int;
                                        let sy0 = p0.1 as int;
                                        assert(b[pos + 1 + j] == c);
                                        assert(b[spec_row_off(wi, k + 1) + 1 + jj] == B_START);
                                        assert(b[spec_row_off(wi, sy0 + 1) + 1 + sx0] == B_START);
                                        assert(spec_pos_before(sy0 + 1, sx0, k + 1, jj));
                                        assert(spec_parse_anomaly(b, wi, k + 1, jj));
                                        assert forall|x: int|
                                            0 <= x < jj implies #[trigger] spec_tile_byte_ok(
                                            b,
                                            wi,
                                            k + 1,
                                            x,
                                        ) by {
                                            assert(Some(row@[x]) == spec_repr_of_byte(
                                                b[pos + 1 + x],
                                            ));
                                        }
                                        assert forall|r1: int, x1: int|
                                            spec_in_read_region(k, jj, r1, x1) && 0 <= x1 < wi
                                                && #[trigger] b[spec_row_off(wi, r1) + 1 + x1]
                                                == B_START implies r1 == sy0 + 1 && x1
                                            == sx0 by {
                                            if r1 > k {
                                                assert(b[pos + 1 + x1] == B_START);
                                            }
                                        }
                                        let msg = "multiple start tiles found"@;
                                        assert(msg == spec_anomaly_msg(b, wi, k + 1, jj));
                                        lemma_anomaly_msg_clauses(b, wi, k, jj, msg);
                                    }
                                    return Err("multiple start tiles found".to_owned());
                                },
                                None => {
                                    start = Some((j, rows.len()));
                                },
                            }
                        }
                        row.push(t);
                    },
                }
                j = j + 1;
            }
            if bytes[pos + w + 1] != B_PIPE || bytes[pos + w + 2] != B_NL {
                proof {
                    assert forall|w2: int, h2: int, nl2: bool|
                        !(#[trigger] spec_wf_frame_loose(b, w2, h2, nl2)) by {
                        if spec_wf_frame_loose(b, w2, h2, nl2) {
                            lemma_frame_dims(b, w as int, k, w2, h2, nl2);
                            if h2 == k {
                                assert(b[spec_row_off(w as int, k + 1)] == B_PLUS);
                            } else {
                                assert(spec_wf_row_frame(b, w as int, k + 1));
                            }
                        }
                    }
                    lemma_no_loose_msgs(b, "expected trailing pipe ('|') at end of inner row"@);
                }
                return Err("expected trailing pipe ('|') at end of inner row".to_owned());
            }
            proof {
                let wi = w as int;
                assert forall|x: int| 0 <= x < w implies spec_repr_of_byte(
                    #[trigger] b[spec_row_off(wi, k + 1) + 1 + x],
                ) is Some by {
                    assert(Some(row@[x]) == spec_repr_of_byte(b[pos + 1 + x]));
                }
                assert(spec_wf_row(b, wi, k + 1));
            }
            rows.push(row);
            pos = pos + w + 3;
        }
        let ghost k = rows@.len() as int;

        // Bottom border: the top line again, then at most one newline.
        if pos >= n {
            proof {
                assert forall|w2: int, h2: int, nl2: bool|
                    !(#[trigger] spec_wf_frame_loose(b, w2, h2, nl2)) by {
                    if spec_wf_frame_loose(b, w2, h2, nl2) {
                        lemma_frame_dims(b, w as int, k, w2, h2, nl2);
                        if h2 == k {
                            assert(b.len() > spec_row_off(w as int, k + 1) + w + 1);
                        } else {
                            assert(spec_wf_row_frame(b, w as int, k + 1));
                        }
                    }
                }
                lemma_no_loose_msgs(b, "expected bottom line to equal top"@);
            }
            return Err("expected bottom line to equal top".to_owned());
        }
        if n - pos < w + 2 {
            proof {
                assert forall|w2: int, h2: int, nl2: bool|
                    !(#[trigger] spec_wf_frame_loose(b, w2, h2, nl2)) by {
                    if spec_wf_frame_loose(b, w2, h2, nl2) {
                        lemma_frame_dims(b, w as int, k, w2, h2, nl2);
                        lemma_height_at_most(b, w as int, k, h2, nl2);
                        assert(b.len() > spec_row_off(w as int, k + 1) + w + 1);
                    }
                }
                lemma_no_loose_msgs(b, "expected bottom line to equal top"@);
            }
            return Err("expected bottom line to equal top".to_owned());
        }
        let mut j: usize = 0;
        while j < w && bytes[pos + 1 + j] == B_DASH
            invariant
                j <= w,
                forall|x: int| 1 <= x <= j ==> #[trigger] b[pos + x] == B_DASH,
            decreases w - j,
        {
            j = j + 1;
        }
        if j < w || bytes[pos + w + 1] != B_PLUS {
            proof {
                assert forall|w2: int, h2: int, nl2: bool|
                    !(#[trigger] spec_wf_frame_loose(b, w2, h2, nl2)) by {
                    if spec_wf_frame_loose(b, w2, h2, nl2) {
                        lemma_frame_dims(b, w as int, k, w2, h2, nl2);
                        lemma_height_at_most(b, w as int, k, h2, nl2);
                        if j < w {
                            assert(b[spec_row_off(w as int, k + 1) + (j + 1)] == B_DASH);
                        }
                    }
                }
                lemma_no_loose_msgs(b, "expected bottom line to equal top"@);
            }
            return Err("expected bottom line to equal top".to_owned());
        }
        let rest = n - (pos + w + 2);
        let has_nl = rest == 1 && bytes[pos + w + 2] == B_NL;
        if rest != 0 && !has_nl {
            proof {
                assert forall|w2: int, h2: int, nl2: bool|
                    !(#[trigger] spec_wf_frame_loose(b, w2, h2, nl2)) by {
                    if spec_wf_frame_loose(b, w2, h2, nl2) {
                        lemma_frame_dims(b, w as int, k, w2, h2, nl2);
                        lemma_height_at_most(b, w as int, k, h2, nl2);
                    }
                }
                lemma_no_loose_msgs(b, "expected end of input"@);
            }
            return Err("expected end of input".to_owned());
        }

        // Exactly one start tile.
        let (sx, sy_top) = match start {
            None => {
                proof {
                    assert forall|w2: int, h2: int|
                        !(spec_wf_input(b, w2, h2, true) || spec_wf_input(b, w2, h2, false)) by {
                        if spec_wf_frame(b, w2, h2, true) || spec_wf_frame(b, w2, h2, false) {
                            let nl2 = spec_wf_frame(b, w2, h2, true);
                            lemma_frame_implies_loose(b, w2, h2, nl2);
                            lemma_frame_dims(b, w as int, k, w2, h2, nl2);
                            lemma_height_at_most(b, w as int, k, h2, nl2);
                            if spec_unique_start(b, w2, h2) {
                                let (x0, y0) = choose|x0: int, y0: int|
                                    spec_is_start(b, w2, h2, x0, y0);
                                assert(b[spec_row_off(w as int, h2 - y0) + 1 + x0] == B_START);
                            }
                        }
                    }
                    lemma_no_start_msgs(b, w as int, k);
                }
                return Err("no start tile found".to_owned());
            },
            Some(p) => p,
        };
        let h = rows.len();

        // Reverse the rows so that index 0 is the bottom of the description.
        let ghost rows_top = rows@;
        let mut grid_rows: Vec<Vec<TileRepr>> = Vec::new();
        while rows.len() > 0
            invariant
                grid_rows@.len() + rows@.len() == h,
                rows@ == rows_top.take(rows@.len() as int),
                forall|y: int|
                    0 <= y < grid_rows@.len() ==> #[trigger] grid_rows@[y] == rows_top[h - 1 - y],
            decreases rows.len(),
        {
            proof {
                assert(rows@.last() == rows_top[rows@.len() - 1]);
            }
            match rows.pop() {
                Some(row) => {
                    grid_rows.push(row);
                },
                None => {},
            }
            proof {
                assert(rows@ =~= rows_top.take(rows@.len() as int));
            }
        }

        let grid = InitialGrid { start_tile: (sx, h - 1 - sy_top), rows: grid_rows, width: w };
        proof {
            let wi = w as int;
            let hi = h as int;
            let nl = has_nl;
            assert(spec_wf_bottom(b, wi, hi));
            assert(spec_wf_frame(b, wi, hi, nl));
            assert forall|x1: int, y1: int, x2: int, y2: int|
                spec_is_start(b, wi, hi, x1, y1) && spec_is_start(b, wi, hi, x2, y2) implies x1
                == x2 && y1 == y2 by {
                assert(b[spec_row_off(wi, hi - y1) + 1 + x1] == B_START);
                assert(b[spec_row_off(wi, hi - y2) + 1 + x2] == B_START);
            }
            assert(spec_is_start(b, wi, hi, sx as int, (h - 1 - sy_top) as int));
            assert(spec_wf_input(b, wi, hi, nl));
            assert forall|y: int, x: int| 0 <= y < hi && 0 <= x < wi implies Some(
                #[trigger] grid.rows@[y]@[x],
            ) == spec_repr_of_byte(spec_interior_byte(b, wi, hi, x, y)) by {
                assert(grid.rows@[y] == rows_top[hi - 1 - y]);
                assert(Some(rows_top[hi - 1 - y]@[x]) == spec_repr_of_byte(
                    b[spec_row_off(wi, (hi - 1 - y) + 1) + 1 + x],
                ));
            }
        }
        Ok(grid)
    }
}

/// Largest accepted grid side, in tiles. It keeps every world coordinate of
/// a compiled track far inside `i64` — and inside
/// [`crate::geometry::COORD_LIMIT`] — and the cell count inside `usize`.
pub const MAX_DIM: usize = 10000;

// --- Topology of the parsed grid ---
//
// The semantic checks — contiguity, skinniness, the finish-line span — are
// stated over the set of grid cells that belong to the track.

/// The set of cells of the parsed grid that are part of the track: in range,
/// and not marked out of bounds.
pub open spec fn spec_track_set(g: Seq<Vec<TileRepr>>, w: int) -> Set<(int, int)> {
    Set::new(
        |p: (int, int)|
            0 <= p.0 < w && 0 <= p.1 < g.len() && !(g[p.1]@[p.0] is OutOfBounds),
    )
}

/// Whether two cells are 4-neighbours.
pub open spec fn spec_adjacent(p: (int, int), q: (int, int)) -> bool {
    ||| (p.0 == q.0 && (p.1 == q.1 + 1 || q.1 == p.1 + 1))
    ||| (p.1 == q.1 && (p.0 == q.0 + 1 || q.0 == p.0 + 1))
}

/// Whether a set of cells is closed under 4-adjacency within the track: no
/// track cell adjacent to a member is missing.
pub open spec fn spec_closed(track: Set<(int, int)>, s: Set<(int, int)>) -> bool {
    forall|p: (int, int), q: (int, int)|
        s.contains(p) && spec_adjacent(p, q) && track.contains(q) ==> s.contains(q)
}

/// Whether every track cell is reachable from the start cell through
/// 4-neighbour steps: every adjacency-closed set holding the start holds the
/// whole track.
pub open spec fn spec_connected(track: Set<(int, int)>, start: (int, int)) -> bool {
    forall|s: Set<(int, int)>|
        s.contains(start) && #[trigger] spec_closed(track, s) ==> (forall|q: (int, int)|
            track.contains(q) ==> s.contains(q))
}

/// Whether the cell has both horizontal neighbours off the track, or both
/// vertical ones (cells beyond the grid count as off the track).
pub open spec fn spec_skinny_bad(track: Set<(int, int)>, p: (int, int)) -> bool {
    ||| (!track.contains(((p.0 - 1, p.1))) && !track.contains(((p.0 + 1, p.1))))
    ||| (!track.contains(((p.0, p.1 - 1))) && !track.contains(((p.0, p.1 + 1))))
}

/// Whether no track cell is too skinny in the sense of [`spec_skinny_bad`].
pub open spec fn spec_skinny_ok(track: Set<(int, int)>) -> bool {
    forall|p: (int, int)| #[trigger] track.contains(p) ==> !spec_skinny_bad(track, p)
}

/// The number of consecutive track cells on row `sy` immediately left of
/// column `x`.
pub open spec fn spec_left_span(track: Set<(int, int)>, sy: int, x: int) -> int
    decreases x,
{
    if x <= 0 {
        0
    } else if track.contains(((x - 1, sy))) {
        1 + spec_left_span(track, sy, x - 1)
    } else {
        0
    }
}

/// The number of consecutive track cells on row `sy` immediately right of
/// column `x`, within a grid of width `w`.
pub open spec fn spec_right_span(track: Set<(int, int)>, w: int, sy: int, x: int) -> int
    decreases w - x,
{
    if x + 1 >= w {
        0
    } else if track.contains(((x + 1, sy))) {
        1 + spec_right_span(track, w, sy, x + 1)
    } else {
        0
    }
}

/// Whether the finish line through the start cell `(sx, sy)` crosses the
/// cell `(x, y)`: on the start row, distinct from the start cell, and
/// joined to it by consecutive track cells. The start cell itself does not
/// carry the mark.
pub open spec fn spec_on_finish_line(
    track: Set<(int, int)>,
    w: int,
    sx: int,
    sy: int,
    x: int,
    y: int,
) -> bool {
    &&& y == sy
    &&& x != sx
    &&& sx - spec_left_span(track, sy, sx) <= x <= sx + spec_right_span(track, w, sy, sx)
}

/// The number of finish-line (`*`) cells in row `y` among columns `0 ≤ x <
/// upto`.
pub open spec fn spec_stars_in_row(row: Seq<TileRepr>, upto: int) -> int
    decreases upto,
{
    if upto <= 0 {
        0
    } else {
        spec_stars_in_row(row, upto - 1) + if row[upto - 1] is FinishLine {
            1int
        } else {
            0int
        }
    }
}

/// The number of finish-line (`*`) cells in rows `0 ≤ y < upto` of the grid.
pub open spec fn spec_stars_upto(g: Seq<Vec<TileRepr>>, w: int, upto: int) -> int
    decreases upto,
{
    if upto <= 0 {
        0
    } else {
        spec_stars_upto(g, w, upto - 1) + spec_stars_in_row(g[upto - 1]@, w)
    }
}

/// Whether the finish line is well formed: the number of cells it crosses
/// equals the number of `*` cells of the description.
pub open spec fn spec_finish_ok(g: Seq<Vec<TileRepr>>, w: int, sx: int, sy: int) -> bool {
    spec_left_span(spec_track_set(g, w), sy, sx) + spec_right_span(
        spec_track_set(g, w),
        w,
        sy,
        sx,
    ) == spec_stars_upto(g, w, g.len() as int)
}

/// The grid rectangle `[0, w) × [0, h)` as a set of cells.
pub open spec fn spec_cell_rect(w: int, h: int) -> Set<(int, int)> {
    Set::new(|p: (int, int)| 0 <= p.0 < w && 0 <= p.1 < h)
}

/// The cells of row `y` with column below `w`.
spec fn spec_row_cells(w: int, y: int) -> Set<(int, int)> {
    Set::new(|p: (int, int)| 0 <= p.0 < w && p.1 == y)
}

proof fn lemma_row_finite(w: int, y: int)
    requires
        0 <= w,
    ensures
        spec_row_cells(w, y).finite(),
    decreases w,
{
    if w == 0 {
        assert(spec_row_cells(0, y) =~= Set::<(int, int)>::empty());
    } else {
        lemma_row_finite(w - 1, y);
        assert(spec_row_cells(w, y) =~= spec_row_cells(w - 1, y).insert((w - 1, y)));
    }
}

proof fn lemma_rect_finite(w: int, h: int)
    requires
        0 <= w,
        0 <= h,
    ensures
        spec_cell_rect(w, h).finite(),
    decreases h,
{
    if h == 0 {
        assert(spec_cell_rect(w, 0) =~= Set::<(int, int)>::empty());
    } else {
        lemma_rect_finite(w, h - 1);
        lemma_row_finite(w, h - 1);
        assert(spec_cell_rect(w, h) =~= spec_cell_rect(w, h - 1).union(spec_row_cells(w, h - 1)));
    }
}

/// Flat index of cell `(x, y)` in a row-major `w`-wide grid.
pub open spec fn spec_flat(w: int, x: int, y: int) -> int {
    y * w + x
}

/// Row-major flat indices are injective over in-range columns.
proof fn lemma_flat_inj(w: int, x1: int, y1: int, x2: int, y2: int)
    requires
        0 <= x1 < w,
        0 <= x2 < w,
        0 <= y1,
        0 <= y2,
    ensures
        (spec_flat(w, x1, y1) == spec_flat(w, x2, y2)) <==> (x1 == x2 && y1 == y2),
        0 <= spec_flat(w, x1, y1),
        y1 < y2 ==> spec_flat(w, x1, y1) < spec_flat(w, x2, y2),
{
    assert((y1 * w + x1 == y2 * w + x2) <==> (x1 == x2 && y1 == y2)) by (nonlinear_arith)
        requires
            0 <= x1 < w,
            0 <= x2 < w,
            0 <= y1,
            0 <= y2,
    ;
    assert(0 <= y1 * w + x1 && (y1 < y2 ==> y1 * w + x1 < y2 * w + x2)) by (nonlinear_arith)
        requires
            0 <= x1 < w,
            0 <= x2 < w,
            0 <= y1,
            0 <= y2,
    ;
}

/// Flat indices of in-range cells lie below `w · h`.
proof fn lemma_flat_bound(w: int, h: int, x: int, y: int)
    requires
        0 <= x < w,
        0 <= y < h,
    ensures
        0 <= spec_flat(w, x, y) < w * h,
{
    assert(0 <= y * w + x < w * h) by (nonlinear_arith)
        requires
            0 <= x < w,
            0 <= y < h,
    ;
}

/// The set of cells a flat row-major mark vector marks within a `w` by `h`
/// grid.
pub open spec fn spec_marked_set(m: Seq<bool>, w: int, h: int) -> Set<(int, int)> {
    Set::new(|p: (int, int)| 0 <= p.0 < w && 0 <= p.1 < h && m[spec_flat(w, p.0, p.1)])
}

/// Collects the cells reachable from the start cell through 4-neighbour
/// steps across track cells, by a depth-first flood fill. The result is a
/// row-major mark vector: cell `(x, y)` is marked iff `marked[y·width + x]`.
///
/// The marked set is exactly the reachable region: it holds the start, only
/// holds track cells, is closed under track adjacency, and is contained in
/// every adjacency-closed set that holds the start.
#[verifier::loop_isolation(false)]
#[verifier::rlimit(100)]
fn reachable_cells(rows: &Vec<Vec<TileRepr>>, width: usize, sx: usize, sy: usize) -> (marked: Vec<
    bool,
>)
    requires
        forall|y: int| 0 <= y < rows@.len() ==> (#[trigger] rows@[y])@.len() == width,
        width <= MAX_DIM,
        rows@.len() <= MAX_DIM,
        sx < width,
        sy < rows@.len(),
        !(rows@[sy as int]@[sx as int] is OutOfBounds),
    ensures
        marked@.len() == width * rows@.len(),
        spec_marked_set(marked@, width as int, rows@.len() as int).contains(
            ((sx as int, sy as int)),
        ),
        spec_marked_set(marked@, width as int, rows@.len() as int) <= spec_track_set(
            rows@,
            width as int,
        ),
        spec_closed(
            spec_track_set(rows@, width as int),
            spec_marked_set(marked@, width as int, rows@.len() as int),
        ),
        forall|s: Set<(int, int)>|
            s.contains(((sx as int, sy as int))) && #[trigger] spec_closed(
                spec_track_set(rows@, width as int),
            s) ==> spec_marked_set(marked@, width as int, rows@.len() as int) <= s,
{
    let h = rows.len();
    let ghost wi = width as int;
    let ghost hi = h as int;
    let ghost track = spec_track_set(rows@, wi);
    proof {
        assert(width * h <= 100_000_000) by (nonlinear_arith)
            requires
                width <= 10000,
                h <= 10000,
        ;
    }
    let cells = width * h;
    let mut marked: Vec<bool> = Vec::new();
    while marked.len() < cells
        invariant
            marked@.len() <= cells,
            forall|i: int| 0 <= i < marked@.len() ==> !(#[trigger] marked@[i]),
        decreases cells - marked.len(),
    {
        marked.push(false);
    }
    let mut stack: Vec<(usize, usize)> = Vec::new();
    stack.push((sx, sy));
    let ghost mut unmarked = spec_cell_rect(wi, hi);
    proof {
        lemma_rect_finite(wi, hi);
        assert(unmarked =~= Set::new(
            |p: (int, int)| 0 <= p.0 < wi && 0 <= p.1 < hi && !marked@[spec_flat(wi, p.0, p.1)],
        )) by {
            assert forall|p: (int, int)| 0 <= p.0 < wi && 0 <= p.1 < hi implies !marked@[spec_flat(wi, p.0, p.1)] by {
                lemma_flat_bound(wi, hi, p.0, p.1);
            }
        }
    }
    proof {
        assert forall|p: (int, int)| !spec_marked_set(marked@, wi, hi).contains(p) by {
            if 0 <= p.0 < wi && 0 <= p.1 < hi {
                lemma_flat_bound(wi, hi, p.0, p.1);
            }
        }
        assert(spec_marked_set(marked@, wi, hi) =~= Set::<(int, int)>::empty());
        assert(stack@[0] == (sx, sy));
    }
    while stack.len() > 0
        invariant
            marked@.len() == cells,
            cells == width * h,
            unmarked.finite(),
            unmarked =~= Set::new(
                |p: (int, int)|
                    0 <= p.0 < wi && 0 <= p.1 < hi && !marked@[spec_flat(wi, p.0, p.1)],
            ),
            spec_marked_set(marked@, wi, hi) <= track,
            // Every stack entry is the start, an already marked cell, or a
            // cell adjacent to a marked one.
            forall|i: int|
                0 <= i < stack@.len() ==> {
                    let e = #[trigger] stack@[i];
                    (e.0 == sx && e.1 == sy) || spec_marked_set(marked@, wi, hi).contains(
                        ((e.0 as int, e.1 as int)),
                    ) || exists|q: (int, int)|
                        spec_marked_set(marked@, wi, hi).contains(q) && spec_adjacent(
                            q,
                            (e.0 as int, e.1 as int),
                        )
                },
            // Track neighbours of marked cells are marked or on the stack.
            forall|p: (int, int), q: (int, int)|
                spec_marked_set(marked@, wi, hi).contains(p) && spec_adjacent(p, q)
                    && track.contains(q) ==> spec_marked_set(marked@, wi, hi).contains(q) || exists|
                    i: int,
                |
                    0 <= i < stack@.len() && (#[trigger] stack@[i]).0 == q.0 && stack@[i].1 == q.1,
            // The start is marked or still on the stack.
            spec_marked_set(marked@, wi, hi).contains(((sx as int, sy as int))) || exists|i: int|
                0 <= i < stack@.len() && (#[trigger] stack@[i]).0 == sx && stack@[i].1 == sy,
            // Minimality: only cells every closed start-holding set has get
            // marked.
            forall|s: Set<(int, int)>|
                s.contains(((sx as int, sy as int))) && #[trigger] spec_closed(track, s)
                    ==> spec_marked_set(marked@, wi, hi) <= s,
        decreases unmarked.len(), stack@.len(),
    {
        let ghost prev_stack = stack@;
        let ghost prev_marked = marked@;
        let e = match stack.pop() {
            Some(e) => e,
            None => { (0, 0) },
        };
        let (x, y) = e;
        if y < h && x < width {
            proof {
                lemma_flat_bound(wi, hi, x as int, y as int);
            }
            if !marked[y * width + x] {
                let tile = rows[y][x];
                if tile.is_part_of_racetrack() {
                    marked.set(y * width + x, true);
                    proof {
                        lemma_flat_inj(wi, x as int, y as int, x as int, y as int);
                        assert forall|p: (int, int)|
                            spec_marked_set(marked@, wi, hi).contains(p) == spec_marked_set(
                            prev_marked,
                            wi,
                            hi,
                        ).insert((x as int, y as int)).contains(p) by {
                            if 0 <= p.0 < wi && 0 <= p.1 < hi {
                                lemma_flat_inj(wi, p.0, p.1, x as int, y as int);
                                lemma_flat_bound(wi, hi, p.0, p.1);
                            }
                        }
                        assert(spec_marked_set(marked@, wi, hi) =~= spec_marked_set(
                            prev_marked,
                            wi,
                            hi,
                        ).insert((x as int, y as int)));
                        assert(unmarked.contains(((x as int, y as int))));
                    }
                    let ghost newly = (x as int, y as int);
                    proof {
                        // Minimality: the popped cell is the start or adjacent
                        // to a marked cell, so every closed start-holding set
                        // holds it too.
                        assert forall|s: Set<(int, int)>|
                            s.contains(((sx as int, sy as int))) && #[trigger] spec_closed(
                                track,
                                s,
                            ) implies spec_marked_set(marked@, wi, hi) <= s by {
                            assert(spec_marked_set(prev_marked, wi, hi) <= s);
                            if !(x == sx && y == sy) {
                                assert(!spec_marked_set(prev_marked, wi, hi).contains(newly));
                                let q = choose|q: (int, int)|
                                    spec_marked_set(prev_marked, wi, hi).contains(q)
                                        && spec_adjacent(q, newly);
                                assert(s.contains(q));
                                assert(track.contains(newly));
                            }
                        }
                    }
                    // Visit the four neighbours; clipped coordinates repeat a
                    // visited cell, which the mark test skips.
                    let x_minus = if x > 0 { x - 1 } else { x };
                    let y_minus = if y > 0 { y - 1 } else { y };
                    stack.push((x_minus, y));
                    stack.push((x, y_minus));
                    stack.push((x + 1, y));
                    stack.push((x, y + 1));
                    proof {
                        unmarked = unmarked.remove(newly);
                        assert forall|p: (int, int)|
                            0 <= p.0 < wi && 0 <= p.1 < hi && p != newly implies marked@[spec_flat(wi, p.0, p.1)]
                            == prev_marked[spec_flat(wi, p.0, p.1)] by {
                            lemma_flat_inj(wi, p.0, p.1, x as int, y as int);
                            lemma_flat_bound(wi, hi, p.0, p.1);
                        }
                        assert(unmarked =~= Set::new(
                            |p: (int, int)|
                                0 <= p.0 < wi && 0 <= p.1 < hi && !marked@[spec_flat(
                                    wi,
                                    p.0,
                                    p.1,
                                )],
                        ));
                        assert forall|p: (int, int), q: (int, int)|
                            spec_marked_set(marked@, wi, hi).contains(p) && spec_adjacent(p, q)
                                && track.contains(q) implies spec_marked_set(
                            marked@,
                            wi,
                            hi,
                        ).contains(q) || exists|i: int|
                            0 <= i < stack@.len() && (#[trigger] stack@[i]).0 == q.0
                                && stack@[i].1 == q.1 by {
                            if p == newly {
                                if !spec_marked_set(marked@, wi, hi).contains(q) {
                                    assert(0 <= q.0 < wi && 0 <= q.1 < hi);
                                    if q == (x as int - 1, y as int) {
                                        assert(stack@[stack@.len() - 4].0 == q.0
                                            && stack@[stack@.len() - 4].1 == q.1);
                                    } else if q == (x as int, y as int - 1) {
                                        assert(stack@[stack@.len() - 3].0 == q.0
                                            && stack@[stack@.len() - 3].1 == q.1);
                                    } else if q == (x as int + 1, y as int) {
                                        assert(stack@[stack@.len() - 2].0 == q.0
                                            && stack@[stack@.len() - 2].1 == q.1);
                                    } else {
                                        assert(q == (x as int, y as int + 1));
                                        assert(stack@[stack@.len() - 1].0 == q.0
                                            && stack@[stack@.len() - 1].1 == q.1);
                                    }
                                }
                            } else {
                                assert(spec_marked_set(prev_marked, wi, hi).contains(p));
                                if !spec_marked_set(prev_marked, wi, hi).contains(q) {
                                    let i = choose|i: int|
                                        0 <= i < prev_stack.len() && (#[trigger] prev_stack[i]).0
                                            == q.0 && prev_stack[i].1 == q.1;
                                    if i < prev_stack.len() - 1 {
                                        assert(stack@[i].0 == q.0 && stack@[i].1 == q.1);
                                    } else {
                                        assert(q == newly);
                                    }
                                }
                            }
                        }
                        assert forall|i: int| 0 <= i < stack@.len() implies {
                            let en = #[trigger] stack@[i];
                            (en.0 == sx && en.1 == sy) || spec_marked_set(
                                marked@,
                                wi,
                                hi,
                            ).contains(((en.0 as int, en.1 as int))) || exists|q: (int, int)|
                                spec_marked_set(marked@, wi, hi).contains(q) && spec_adjacent(
                                    q,
                                    (en.0 as int, en.1 as int),
                                )
                        } by {
                            let en = stack@[i];
                            if i < prev_stack.len() - 1 {
                                assert(prev_stack[i] == en);
                                if !spec_marked_set(prev_marked, wi, hi).contains(
                                    ((en.0 as int, en.1 as int)),
                                ) && !(en.0 == sx && en.1 == sy) {
                                    let q = choose|q: (int, int)|
                                        spec_marked_set(prev_marked, wi, hi).contains(q)
                                            && spec_adjacent(q, (en.0 as int, en.1 as int));
                                    assert(spec_marked_set(marked@, wi, hi).contains(q));
                                }
                            } else {
                                if en.0 as int == x as int && en.1 as int == y as int {
                                    assert(spec_marked_set(marked@, wi, hi).contains(
                                        ((en.0 as int, en.1 as int)),
                                    ));
                                } else {
                                    assert(spec_marked_set(marked@, wi, hi).contains(newly)
                                        && spec_adjacent(newly, (en.0 as int, en.1 as int)));
                                }
                            }
                        }
                    }
                }
            }
        }
        proof {
            // The start stays marked or on the stack: surviving entries keep
            // their indices, and a popped start is marked on every path.
            if !spec_marked_set(marked@, wi, hi).contains(((sx as int, sy as int))) {
                assert(!spec_marked_set(prev_marked, wi, hi).contains(((sx as int, sy as int))));
                let i = choose|i: int|
                    0 <= i < prev_stack.len() && (#[trigger] prev_stack[i]).0 == sx
                        && prev_stack[i].1 == sy;
                if i < prev_stack.len() - 1 {
                    assert(stack@[i].0 == sx && stack@[i].1 == sy);
                } else {
                    assert(e == prev_stack[i]);
                    assert(x == sx && y == sy);
                    lemma_flat_bound(wi, hi, sx as int, sy as int);
                }
            }
            // Entries surviving the pop keep their indices; re-establish the
            // stack and start bookkeeping for the cases that pushed nothing.
            if spec_marked_set(marked@, wi, hi) == spec_marked_set(prev_marked, wi, hi) {
                assert forall|i: int| 0 <= i < stack@.len() implies {
                    let en = #[trigger] stack@[i];
                    (en.0 == sx && en.1 == sy) || spec_marked_set(marked@, wi, hi).contains(
                        ((en.0 as int, en.1 as int)),
                    ) || exists|q: (int, int)|
                        spec_marked_set(marked@, wi, hi).contains(q) && spec_adjacent(
                            q,
                            (en.0 as int, en.1 as int),
                        )
                } by {
                    let en = stack@[i];
                    assert(prev_stack[i] == en);
                    if !spec_marked_set(prev_marked, wi, hi).contains(
                        ((en.0 as int, en.1 as int)),
                    ) && !(en.0 == sx && en.1 == sy) {
                        let q = choose|q: (int, int)|
                            spec_marked_set(prev_marked, wi, hi).contains(q) && spec_adjacent(
                                q,
                                (en.0 as int, en.1 as int),
                            );
                        assert(spec_marked_set(marked@, wi, hi).contains(q));
                    }
                }
                assert forall|p: (int, int), q: (int, int)|
                    spec_marked_set(marked@, wi, hi).contains(p) && spec_adjacent(p, q)
                        && track.contains(q) implies spec_marked_set(marked@, wi, hi).contains(q)
                    || exists|i: int|
                    0 <= i < stack@.len() && (#[trigger] stack@[i]).0 == q.0 && stack@[i].1
                        == q.1 by {
                    if !spec_marked_set(marked@, wi, hi).contains(q) {
                        let i = choose|i: int|
                            0 <= i < prev_stack.len() && (#[trigger] prev_stack[i]).0 == q.0
                                && prev_stack[i].1 == q.1;
                        if i < prev_stack.len() - 1 {
                            assert(stack@[i].0 == q.0 && stack@[i].1 == q.1);
                        } else {
                            // The popped entry was `q`: it is not marked, so it
                            // was skipped — but a skipped entry is off the
                            // track or already marked, a contradiction.
                            assert(q.0 == x && q.1 == y);
                            assert(track.contains(q));
                            assert(marked@[spec_flat(wi, q.0, q.1)]) by {
                                lemma_flat_bound(wi, hi, q.0, q.1);
                            }
                        }
                    }
                }
            }
        }
    }
    proof {
        assert(spec_marked_set(marked@, wi, hi).contains(((sx as int, sy as int))));
    }
    marked
}

/// The corner of the tile square of cell `(x, y)` offset by `(dx, dy)`
/// tiles: `(0, 0)` is the bottom-left corner, `(1, 1)` the top-right.
pub open spec fn spec_corner(x: int, y: int, dx: int, dy: int) -> Point {
    Point { x: (TILE_SIZE * (x + dx)) as i64, y: (TILE_SIZE * (y + dy)) as i64 }
}

/// The border segment of a border tile, from the pattern of its outside
/// neighbours. With one outside side the segment is that side of the tile
/// square; with two — always adjacent sides — it is the diagonal joining
/// the two corners where the outside sides meet the inside ones.
pub open spec fn spec_border_seg(x: int, y: int, up: bool, right: bool, down: bool, left: bool) -> (
    Point,
    Point,
) {
    let bl = spec_corner(x, y, 0, 0);
    let br = spec_corner(x, y, 1, 0);
    let tl = spec_corner(x, y, 0, 1);
    let tr = spec_corner(x, y, 1, 1);
    if up && right {
        (tl, br)
    } else if right && down {
        (tr, bl)
    } else if down && left {
        (br, tl)
    } else if left && up {
        (bl, tr)
    } else if up {
        (tl, tr)
    } else if down {
        (bl, br)
    } else if left {
        (bl, tl)
    } else if right {
        (br, tr)
    } else {
        (bl, br)
    }
}

/// The compiled tile at cell `(x, y)`: outside tiles stay outside; a track
/// cell with no outside neighbour is inside; a track cell with outside
/// neighbours carries its border segment. Finish-line membership follows
/// [`spec_on_finish_line`].
pub open spec fn spec_resolved_tile(
    track: Set<(int, int)>,
    w: int,
    sx: int,
    sy: int,
    x: int,
    y: int,
) -> GridTile {
    if !track.contains(((x, y))) {
        GridTile::Outside
    } else {
        let up = !track.contains(((x, y + 1)));
        let right = !track.contains(((x + 1, y)));
        let down = !track.contains(((x, y - 1)));
        let left = !track.contains(((x - 1, y)));
        let cfl = spec_on_finish_line(track, w, sx, sy, x, y);
        if !(up || right || down || left) {
            GridTile::Inside { contains_finish_line: cfl }
        } else {
            GridTile::Border {
                border: spec_border_seg(x, y, up, right, down, left),
                contains_finish_line: cfl,
            }
        }
    }
}

/// In-memory representation of a racetrack, generated by
/// [`Racetrack::from_str`].
///
/// The representation is a grid of [tiles](GridTile); each tile records
/// whether it is inside the track and the way the track border crosses it,
/// if it does. Splitting the racetrack into tiles keeps the search space of
/// collision and sensor queries local.
#[derive(Debug)]
pub struct Racetrack {
    /// The height of the racetrack in tiles; equal to `grid.len()`.
    pub height: usize,
    /// The width of the racetrack in tiles; every row of `grid` has this
    /// length.
    pub width: usize,
    /// Rows of grid tiles, bottom-up: the tile at `grid[y][x]` covers the
    /// square from `(x·tile_size, y·tile_size)` to `((x+1)·tile_size,
    /// (y+1)·tile_size)`.
    pub grid: Vec<Vec<GridTile>>,
    /// The grid indices `(column, row)` of the start tile.
    pub start_tile: (usize, usize),
    /// The starting position of the car: the centre of the start tile. The
    /// car starts at angle `3π/2` — facing negative y — at speed zero.
    pub initial_car_pos: Point,
    /// Two points defining the finish line: horizontal, through the centre
    /// of the start tile, spanning the tile. Individual tiles carry a marker
    /// saying whether the finish line crosses them.
    pub finish_line: (Point, Point),
    /// The size of an individual tile: always [`TILE_SIZE`].
    pub tile_size: i64,
    /// The number of laps of the course required to win.
    pub laps: i32,
}

impl Racetrack {
    /// Well-formedness: the grid fills the announced dimensions, they are
    /// within [`MAX_DIM`], and the start tile is on the grid.
    pub open spec fn wf(&self) -> bool {
        &&& self.grid@.len() == self.height
        &&& forall|y: int| 0 <= y < self.height ==> (#[trigger] self.grid@[y])@.len() == self.width
        &&& self.width <= MAX_DIM
        &&& self.height <= MAX_DIM
        &&& self.start_tile.0 < self.width
        &&& self.start_tile.1 < self.height
        &&& self.tile_size == TILE_SIZE
    }

    /// A copy of the tile at column `col`, row `row`.
    pub fn get_tile(&self, col: usize, row: usize) -> (t: GridTile)
        requires
            self.wf(),
            col < self.width,
            row < self.height,
        ensures
            t == self.grid@[row as int]@[col as int],
    {
        self.grid[row][col]
    }

    /// Constructs the `Racetrack` from the parsed grid: checks that the
    /// track is one contiguous region and never too skinny, resolves every
    /// tile's border segment, and materialises the horizontal finish line
    /// through the start tile, failing if the `*` cells of the description
    /// do not count the cells that line crosses.
    fn make(initial_grid: InitialGrid) -> (r: Result<Racetrack, String>)
        requires
            forall|y: int|
                0 <= y < initial_grid.rows@.len() ==> (#[trigger] initial_grid.rows@[y])@.len()
                    == initial_grid.width,
            initial_grid.width <= MAX_DIM,
            initial_grid.rows@.len() <= MAX_DIM,
            initial_grid.start_tile.0 < initial_grid.width,
            initial_grid.start_tile.1 < initial_grid.rows@.len(),
            initial_grid.rows@[initial_grid.start_tile.1 as int]@[initial_grid.start_tile.0 as int]
                is Start,
        ensures
            ({
                let g = initial_grid.rows@;
                let w = initial_grid.width as int;
                let h = g.len() as int;
                let sx = initial_grid.start_tile.0 as int;
                let sy = initial_grid.start_tile.1 as int;
                let track = spec_track_set(g, w);
                match r {
                    Ok(t) => {
                        &&& spec_connected(track, (sx, sy))
                        &&& spec_skinny_ok(track)
                        &&& spec_finish_ok(g, w, sx, sy)
                        &&& t.wf()
                        &&& t.width == initial_grid.width
                        &&& t.height as int == h
                        &&& t.start_tile == initial_grid.start_tile
                        &&& forall|x: int, y: int|
                            0 <= x < w && 0 <= y < h ==> #[trigger] t.grid@[y]@[x]
                                == spec_resolved_tile(track, w, sx, sy, x, y)
                        &&& t.initial_car_pos == spec_start_pos(sx, sy)
                        &&& t.finish_line == spec_finish_line(sx, sy)
                        &&& t.tile_size == TILE_SIZE
                        &&& t.laps == crate::sim::NUM_LAPS
                    },
                    Err(m) => {
                        &&& !(spec_connected(track, (sx, sy)) && spec_skinny_ok(track)
                            && spec_finish_ok(g, w, sx, sy))
                        &&& !spec_connected(track, (sx, sy)) ==> m@
                            == "some racetrack tiles are not reachable from the start"@
                        &&& spec_connected(track, (sx, sy)) && !spec_skinny_ok(track) ==> exists|
                            x: int,
                            y: int,
                        |
                            track.contains(((x, y))) && spec_skinny_bad(track, ((x, y))) && m@
                                == #[trigger] spec_skinny_msg(x + 1, y + 1)
                        &&& spec_connected(track, (sx, sy)) && spec_skinny_ok(track) ==> m@
                            == "malformed finish line; should span the track horizontally from the start tile"@
                    },
                }
            }),
    {
        let w = initial_grid.width;
        let h = initial_grid.rows.len();
        let (sx, sy) = initial_grid.start_tile;
        let rows = &initial_grid.rows;
        if !check_contiguous(rows, w, sx, sy) {
            return Err("some racetrack tiles are not reachable from the start".to_owned());
        }
        let (lspan, rspan) = finish_spans(rows, w, sx, sy);
        let grid = match build_grid(rows, w, sx, sy, lspan, rspan) {
            Ok(grid) => grid,
            Err((bad_x, bad_y)) => {
                let mut m = "racetrack is too skinny around tile at (x = ".to_owned();
                append_decimal(&mut m, bad_x + 1);
                m.append(", y = ");
                append_decimal(&mut m, bad_y + 1);
                m.append(")");
                proof {
                    assert(m@ =~= spec_skinny_msg(bad_x as int + 1, bad_y as int + 1));
                }
                return Err(m);
            },
        };
        let stars = count_stars(rows, w);
        if lspan + rspan != stars {
            return Err(
                "malformed finish line; should span the track horizontally from the start tile".to_owned(),
            );
        }
        Ok(
            Racetrack {
                height: h,
                width: w,
                grid,
                start_tile: (sx, sy),
                initial_car_pos: Point { x: 2 * (sx as i64) + 1, y: 2 * (sy as i64) + 1 },
                finish_line: (
                    Point { x: 2 * (sx as i64), y: 2 * (sy as i64) + 1 },
                    Point { x: 2 * (sx as i64) + 2, y: 2 * (sy as i64) + 1 },
                ),
                tile_size: TILE_SIZE,
                laps: crate::sim::NUM_LAPS,
            },
        )
    }
}

/// Whether every track cell of the grid is reachable from the start cell
/// through 4-neighbour steps.
#[verifier::loop_isolation(false)]
#[verifier::rlimit(60)]
fn check_contiguous(rows: &Vec<Vec<TileRepr>>, w: usize, sx: usize, sy: usize) -> (ok: bool)
    requires
        forall|y: int| 0 <= y < rows@.len() ==> (#[trigger] rows@[y])@.len() == w,
        w <= MAX_DIM,
        rows@.len() <= MAX_DIM,
        sx < w,
        sy < rows@.len(),
        !(rows@[sy as int]@[sx as int] is OutOfBounds),
    ensures
        ok <==> spec_connected(spec_track_set(rows@, w as int), (sx as int, sy as int)),
{
    let h = rows.len();
    let ghost wi = w as int;
    let ghost hi = h as int;
    let ghost track = spec_track_set(rows@, wi);
    proof {
        assert(w * h <= 100_000_000) by (nonlinear_arith)
            requires
                w <= 10000,
                h <= 10000,
        ;
    }
    let marked = reachable_cells(rows, w, sx, sy);
    let ghost marked_set = spec_marked_set(marked@, wi, hi);
    let mut y: usize = 0;
    while y < h
        invariant
            y <= h,
            forall|yy: int, xx: int|
                0 <= yy < y && 0 <= xx < wi ==> (track.contains(((xx, yy)))
                    ==> marked_set.contains(((xx, yy)))),
        decreases h - y,
    {
        let mut x: usize = 0;
        while x < w
            invariant
                x <= w,
                forall|xx: int|
                    0 <= xx < x ==> (track.contains(((xx, y as int))) ==> marked_set.contains(
                        ((xx, y as int)),
                    )),
            decreases w - x,
        {
            proof {
                lemma_flat_bound(wi, hi, x as int, y as int);
            }
            let t = rows[y][x];
            if t.is_part_of_racetrack() && !marked[y * w + x] {
                proof {
                    assert(track.contains(((x as int, y as int))));
                    assert(!marked_set.contains(((x as int, y as int))));
                    assert(!spec_connected(track, (sx as int, sy as int)));
                }
                return false;
            }
            x = x + 1;
        }
        y = y + 1;
    }
    proof {
        assert forall|s: Set<(int, int)>|
            s.contains(((sx as int, sy as int))) && #[trigger] spec_closed(track, s) implies (
        forall|q: (int, int)| track.contains(q) ==> s.contains(q)) by {
            assert(marked_set <= s);
            assert forall|q: (int, int)| track.contains(q) implies s.contains(q) by {
                assert(marked_set.contains(q));
            }
        }
    }
    true
}

/// The lengths of the runs of track cells immediately left and right of the
/// start cell on its row: the horizontal span of the finish line.
#[verifier::loop_isolation(false)]
fn finish_spans(rows: &Vec<Vec<TileRepr>>, w: usize, sx: usize, sy: usize) -> (spans: (
    usize,
    usize,
))
    requires
        forall|y: int| 0 <= y < rows@.len() ==> (#[trigger] rows@[y])@.len() == w,
        sx < w,
        sy < rows@.len(),
    ensures
        spans.0 as int == spec_left_span(spec_track_set(rows@, w as int), sy as int, sx as int),
        spans.1 as int == spec_right_span(
            spec_track_set(rows@, w as int),
            w as int,
            sy as int,
            sx as int,
        ),
        spans.0 <= sx,
        sx + spans.1 < w,
{
    let ghost wi = w as int;
    let ghost track = spec_track_set(rows@, wi);
    let ghost sxi = sx as int;
    let ghost syi = sy as int;
    let mut lspan: usize = 0;
    while sx - lspan > 0 && rows[sy][sx - lspan - 1].is_part_of_racetrack()
        invariant
            lspan <= sx,
            spec_left_span(track, syi, sxi) == lspan + spec_left_span(track, syi, sxi - lspan),
        decreases sx - lspan,
    {
        lspan = lspan + 1;
    }
    proof {
        assert(spec_left_span(track, syi, sxi - lspan) == 0);
    }
    let mut rspan: usize = 0;
    while sx + rspan + 1 < w && rows[sy][sx + rspan + 1].is_part_of_racetrack()
        invariant
            sx + rspan < w,
            spec_right_span(track, wi, syi, sxi) == rspan + spec_right_span(
                track,
                wi,
                syi,
                sxi + rspan,
            ),
        decreases w - (sx + rspan),
    {
        rspan = rspan + 1;
    }
    proof {
        assert(spec_right_span(track, wi, syi, sxi + rspan) == 0);
    }
    (lspan, rspan)
}

/// The number of `*` cells of the whole description.
#[verifier::loop_isolation(false)]
fn count_stars(rows: &Vec<Vec<TileRepr>>, w: usize) -> (stars: usize)
    requires
        forall|y: int| 0 <= y < rows@.len() ==> (#[trigger] rows@[y])@.len() == w,
        w <= MAX_DIM,
        rows@.len() <= MAX_DIM,
    ensures
        stars as int == spec_stars_upto(rows@, w as int, rows@.len() as int),
{
    let h = rows.len();
    let ghost g = rows@;
    let ghost wi = w as int;
    let ghost hi = h as int;
    proof {
        assert(w * h <= 100_000_000) by (nonlinear_arith)
            requires
                w <= 10000,
                h <= 10000,
        ;
    }
    let mut stars: usize = 0;
    let mut y: usize = 0;
    while y < h
        invariant
            y <= h,
            stars == spec_stars_upto(g, wi, y as int),
            stars <= y * w,
        decreases h - y,
    {
        let mut x: usize = 0;
        while x < w
            invariant
                x <= w,
                stars == spec_stars_upto(g, wi, y as int) + spec_stars_in_row(
                    g[y as int]@,
                    x as int,
                ),
                stars <= y * w + x,
            decreases w - x,
        {
            let t = rows[y][x];
            let is_star = match t {
                TileRepr::FinishLine => true,
                _ => false,
            };
            if is_star {
                proof {
                    lemma_flat_bound(wi, hi, x as int, y as int);
                }
                stars = stars + 1;
            }
            x = x + 1;
        }
        proof {
            assert((y + 1) * w == y * w + w) by (nonlinear_arith);
        }
        y = y + 1;
    }
    stars
}

/// Resolves every tile of the grid — outside, inside, or border with its
/// segment and finish-line mark — or reports that some track cell is too
/// skinny.
#[verifier::loop_isolation(false)]
#[verifier::rlimit(60)]
fn build_grid(
    rows: &Vec<Vec<TileRepr>>,
    w: usize,
    sx: usize,
    sy: usize,
    lspan: usize,
    rspan: usize,
) -> (r: Result<Vec<Vec<GridTile>>, (usize, usize)>)
    requires
        forall|y: int| 0 <= y < rows@.len() ==> (#[trigger] rows@[y])@.len() == w,
        w <= MAX_DIM,
        rows@.len() <= MAX_DIM,
        sx < w,
        sy < rows@.len(),
        lspan <= sx,
        sx + rspan < w,
        lspan as int == spec_left_span(spec_track_set(rows@, w as int), sy as int, sx as int),
        rspan as int == spec_right_span(
            spec_track_set(rows@, w as int),
            w as int,
            sy as int,
            sx as int,
        ),
    ensures
        ({
            let track = spec_track_set(rows@, w as int);
            match r {
                Ok(grid) => {
                    &&& spec_skinny_ok(track)
                    &&& grid@.len() == rows@.len()
                    &&& forall|y: int| 0 <= y < grid@.len() ==> (#[trigger] grid@[y])@.len() == w
                    &&& forall|x: int, y: int|
                        0 <= x < w && 0 <= y < grid@.len() ==> #[trigger] grid@[y]@[x]
                            == spec_resolved_tile(track, w as int, sx as int, sy as int, x, y)
                },
                Err(p) => {
                    &&& !spec_skinny_ok(track)
                    &&& track.contains(((p.0 as int, p.1 as int)))
                    &&& spec_skinny_bad(track, (p.0 as int, p.1 as int))
                    &&& p.0 < w
                    &&& p.1 < rows@.len()
                },
            }
        }),
{
    let h = rows.len();
    let ghost wi = w as int;
    let ghost hi = h as int;
    let ghost sxi = sx as int;
    let ghost syi = sy as int;
    let ghost track = spec_track_set(rows@, wi);
    let mut grid: Vec<Vec<GridTile>> = Vec::new();
    let mut y: usize = 0;
    while y < h
        invariant
            y <= h,
            grid@.len() == y,
            forall|yy: int| 0 <= yy < y ==> (#[trigger] grid@[yy])@.len() == wi,
            forall|yy: int, xx: int|
                0 <= yy < y && 0 <= xx < wi ==> #[trigger] grid@[yy]@[xx] == spec_resolved_tile(
                    track,
                    wi,
                    sxi,
                    syi,
                    xx,
                    yy,
                ),
            forall|yy: int, xx: int|
                0 <= yy < y && 0 <= xx < wi && track.contains(((xx, yy))) ==> !spec_skinny_bad(
                    track,
                    ((xx, yy)),
                ),
        decreases h - y,
    {
        let mut row: Vec<GridTile> = Vec::new();
        let mut x: usize = 0;
        while x < w
            invariant
                x <= w,
                row@.len() == x,
                forall|xx: int|
                    0 <= xx < x ==> #[trigger] row@[xx] == spec_resolved_tile(
                        track,
                        wi,
                        sxi,
                        syi,
                        xx,
                        y as int,
                    ),
                forall|xx: int|
                    0 <= xx < x && track.contains(((xx, y as int))) ==> !spec_skinny_bad(
                        track,
                        ((xx, y as int)),
                    ),
            decreases w - x,
        {
            let t = rows[y][x];
            if !t.is_part_of_racetrack() {
                row.push(GridTile::Outside);
            } else {
                let up = y + 1 >= h || !rows[y + 1][x].is_part_of_racetrack();
                let right = x + 1 >= w || !rows[y][x + 1].is_part_of_racetrack();
                let down = y == 0 || !rows[y - 1][x].is_part_of_racetrack();
                let left = x == 0 || !rows[y][x - 1].is_part_of_racetrack();
                proof {
                    assert(up == !track.contains(((x as int, y as int + 1))));
                    assert(right == !track.contains(((x as int + 1, y as int))));
                    assert(down == !track.contains(((x as int, y as int - 1))));
                    assert(left == !track.contains(((x as int - 1, y as int))));
                }
                if (up && down) || (left && right) {
                    proof {
                        assert(track.contains(((x as int, y as int))));
                        assert(spec_skinny_bad(track, (x as int, y as int)));
                        assert(!spec_skinny_ok(track));
                    }
                    return Err((x, y));
                }
                let cfl = y == sy && x != sx && x + lspan >= sx && x <= sx + rspan;
                proof {
                    assert(cfl == spec_on_finish_line(track, wi, sxi, syi, x as int, y as int));
                }
                if !(up || right || down || left) {
                    row.push(GridTile::Inside { contains_finish_line: cfl });
                } else {
                    let bl = Point { x: 2 * (x as i64), y: 2 * (y as i64) };
                    let br = Point { x: 2 * (x as i64) + 2, y: 2 * (y as i64) };
                    let tl = Point { x: 2 * (x as i64), y: 2 * (y as i64) + 2 };
                    let tr = Point { x: 2 * (x as i64) + 2, y: 2 * (y as i64) + 2 };
                    let border = if up && right {
                        (tl, br)
                    } else if right && down {
                        (tr, bl)
                    } else if down && left {
                        (br, tl)
                    } else if left && up {
                        (bl, tr)
                    } else if up {
                        (tl, tr)
                    } else if down {
                        (bl, br)
                    } else if left {
                        (bl, tl)
                    } else {
                        (br, tr)
                    };
                    row.push(GridTile::Border { border, contains_finish_line: cfl });
                }
            }
            proof {
                assert(row@[x as int] == spec_resolved_tile(track, wi, sxi, syi, x as int, y as int));
            }
            x = x + 1;
        }
        grid.push(row);
        y = y + 1;
    }
    proof {
        assert forall|p: (int, int)| #[trigger] track.contains(p) implies !spec_skinny_bad(
            track,
            p,
        ) by {}
    }
    Ok(grid)
}

/// The set of cells of a description's interior that belong to the track:
/// in range, and not holding the out-of-bounds byte.
pub open spec fn spec_track_set_bytes(b: Seq<u8>, w: int, h: int) -> Set<(int, int)> {
    Set::new(
        |p: (int, int)|
            0 <= p.0 < w && 0 <= p.1 < h && spec_interior_byte(b, w, h, p.0, p.1) != 120,
    )
}

/// The number of `*` bytes in grid row `y` of the description, among
/// columns `0 ≤ x < upto`.
pub open spec fn spec_stars_bytes_in_row(b: Seq<u8>, w: int, h: int, y: int, upto: int) -> int
    decreases upto,
{
    if upto <= 0 {
        0
    } else {
        spec_stars_bytes_in_row(b, w, h, y, upto - 1) + if spec_interior_byte(
            b,
            w,
            h,
            upto - 1,
            y,
        ) == 42 {
            1int
        } else {
            0int
        }
    }
}

/// The number of `*` bytes in grid rows `0 ≤ y < upto` of the description.
pub open spec fn spec_stars_bytes_upto(b: Seq<u8>, w: int, h: int, upto: int) -> int
    decreases upto,
{
    if upto <= 0 {
        0
    } else {
        spec_stars_bytes_upto(b, w, h, upto - 1) + spec_stars_bytes_in_row(b, w, h, upto - 1, w)
    }
}

/// Whether the finish line through the start cell is well formed, stated
/// over the description's bytes: the cells it crosses count the `*` bytes.
pub open spec fn spec_finish_ok_bytes(b: Seq<u8>, w: int, h: int, sx: int, sy: int) -> bool {
    spec_left_span(spec_track_set_bytes(b, w, h), sy, sx) + spec_right_span(
        spec_track_set_bytes(b, w, h),
        w,
        sy,
        sx,
    ) == spec_stars_bytes_upto(b, w, h, h)
}

/// Whether a description of the given dimensions and start cell compiles:
/// well formed, within [`MAX_DIM`], contiguous, nowhere too skinny, and
/// with a well-formed finish line.
pub open spec fn spec_compilable_at(b: Seq<u8>, w: int, h: int, sx: int, sy: int) -> bool {
    &&& (spec_wf_input(b, w, h, true) || spec_wf_input(b, w, h, false))
    &&& spec_is_start(b, w, h, sx, sy)
    &&& w <= MAX_DIM
    &&& h <= MAX_DIM
    &&& spec_connected(spec_track_set_bytes(b, w, h), (sx, sy))
    &&& spec_skinny_ok(spec_track_set_bytes(b, w, h))
    &&& spec_finish_ok_bytes(b, w, h, sx, sy)
}

/// Whether the bytes are a track description that compiles.
pub open spec fn spec_compilable(b: Seq<u8>) -> bool {
    exists|w: int, h: int, sx: int, sy: int| #[trigger] spec_compilable_at(b, w, h, sx, sy)
}

/// A description's dimensions — and its trailing newline — are unique.
proof fn lemma_dims_unique(
    b: Seq<u8>,
    w1: int,
    h1: int,
    nl1: bool,
    w2: int,
    h2: int,
    nl2: bool,
)
    requires
        spec_wf_frame(b, w1, h1, nl1),
        spec_wf_frame(b, w2, h2, nl2),
    ensures
        w1 == w2,
        h1 == h2,
        nl1 == nl2,
{
    lemma_frame_implies_loose(b, w1, h1, nl1);
    lemma_frame_implies_loose(b, w2, h2, nl2);
    lemma_width_pinned(b, w1, w2, h2, nl2);
    lemma_height_at_least(b, w1, h1, h2, nl2);
    lemma_height_at_least(b, w1, h2, h1, nl1);
}

/// The parsed tile grid and the description's bytes carve out the same
/// track cells.
proof fn lemma_track_sets_agree(b: Seq<u8>, g: Seq<Vec<TileRepr>>, w: int, h: int)
    requires
        g.len() == h,
        forall|y: int, x: int|
            0 <= y < h && 0 <= x < w ==> Some(#[trigger] g[y]@[x]) == spec_repr_of_byte(
                spec_interior_byte(b, w, h, x, y),
            ),
    ensures
        spec_track_set(g, w) == spec_track_set_bytes(b, w, h),
{
    assert forall|p: (int, int)|
        spec_track_set(g, w).contains(p) == spec_track_set_bytes(b, w, h).contains(p) by {
        if 0 <= p.0 < w && 0 <= p.1 < h {
            assert(Some(g[p.1]@[p.0]) == spec_repr_of_byte(spec_interior_byte(b, w, h, p.0, p.1)));
        }
    }
    assert(spec_track_set(g, w) =~= spec_track_set_bytes(b, w, h));
}

proof fn lemma_stars_in_row_agree(
    b: Seq<u8>,
    g: Seq<Vec<TileRepr>>,
    w: int,
    h: int,
    y: int,
    upto: int,
)
    requires
        g.len() == h,
        0 <= y < h,
        upto <= w,
        forall|yy: int, x: int|
            0 <= yy < h && 0 <= x < w ==> Some(#[trigger] g[yy]@[x]) == spec_repr_of_byte(
                spec_interior_byte(b, w, h, x, yy),
            ),
    ensures
        spec_stars_in_row(g[y]@, upto) == spec_stars_bytes_in_row(b, w, h, y, upto),
    decreases upto,
{
    if upto > 0 {
        lemma_stars_in_row_agree(b, g, w, h, y, upto - 1);
        assert(Some(g[y]@[upto - 1]) == spec_repr_of_byte(
            spec_interior_byte(b, w, h, upto - 1, y),
        ));
    }
}

/// The parsed tile grid and the description's bytes count the same `*`
/// cells.
proof fn lemma_stars_agree(b: Seq<u8>, g: Seq<Vec<TileRepr>>, w: int, h: int, upto: int)
    requires
        g.len() == h,
        upto <= h,
        forall|yy: int, x: int|
            0 <= yy < h && 0 <= x < w ==> Some(#[trigger] g[yy]@[x]) == spec_repr_of_byte(
                spec_interior_byte(b, w, h, x, yy),
            ),
    ensures
        spec_stars_upto(g, w, upto) == spec_stars_bytes_upto(b, w, h, upto),
    decreases upto,
{
    if upto > 0 {
        lemma_stars_agree(b, g, w, h, upto - 1);
        lemma_stars_in_row_agree(b, g, w, h, upto - 1, w);
    }
}

/// The message reported for a too-skinny tile, naming its 1-based grid
/// coordinates.
pub open spec fn spec_skinny_msg(x: int, y: int) -> Seq<char> {
    "racetrack is too skinny around tile at (x = "@ + spec_decimal(x) + ", y = "@ + spec_decimal(
        y,
    ) + ")"@
}

/// The starting position of the car on a track whose start tile is at grid
/// indices `(sx, sy)`: the centre of that tile.
pub open spec fn spec_start_pos(sx: int, sy: int) -> Point {
    Point { x: (TILE_SIZE as int * sx + 1) as i64, y: (TILE_SIZE as int * sy + 1) as i64 }
}

/// The finish line of a track whose start tile is at grid indices `(sx,
/// sy)`: horizontal, through the centre of the start tile, spanning it.
pub open spec fn spec_finish_line(sx: int, sy: int) -> (Point, Point) {
    (
        Point { x: (TILE_SIZE as int * sx) as i64, y: (TILE_SIZE as int * sy + 1) as i64 },
        Point { x: (TILE_SIZE as int * (sx + 1)) as i64, y: (TILE_SIZE as int * sy + 1) as i64 },
    )
}

impl Racetrack {
    /// Parses a `Racetrack` description from a string.
    ///
    /// Succeeds exactly on descriptions that are well formed (the grammar of
    /// [`InitialGrid::from_str`]), fit within [`MAX_DIM`], and pass the
    /// semantic checks: the track is one contiguous region, is nowhere too
    /// skinny, and the `*` cells count exactly the cells the finish line
    /// through the start tile crosses.
    #[verifier::rlimit(60)]
    pub fn from_str(input: &str) -> (r: Result<Racetrack, String>)
        ensures
            match r {
                Ok(t) => {
                    let b = input.spec_bytes();
                    let w = t.width as int;
                    let h = t.height as int;
                    let sx = t.start_tile.0 as int;
                    let sy = t.start_tile.1 as int;
                    let track = spec_track_set_bytes(b, w, h);
                    &&& t.wf()
                    &&& spec_compilable_at(b, w, h, sx, sy)
                    &&& forall|x: int, y: int|
                        0 <= x < w && 0 <= y < h ==> #[trigger] t.grid@[y]@[x]
                            == spec_resolved_tile(track, w, sx, sy, x, y)
                    &&& t.initial_car_pos == spec_start_pos(sx, sy)
                    &&& t.finish_line == spec_finish_line(sx, sy)
                    &&& t.tile_size == TILE_SIZE
                    &&& t.laps == crate::sim::NUM_LAPS
                },
                Err(m) => {
                    let b = input.spec_bytes();
                    &&& !spec_compilable(b)
                    &&& spec_parse_err_msgs(b, m@)
                    &&& forall|qw: int, qh: int, qsx: int, qsy: int|
                        #![trigger spec_is_start(input.spec_bytes(), qw, qh, qsx, qsy)]
                        ((spec_wf_input(b, qw, qh, true) || spec_wf_input(b, qw, qh, false))
                            && spec_is_start(b, qw, qh, qsx, qsy) && qw <= MAX_DIM && qh
                            <= MAX_DIM) ==> {
                            let track = spec_track_set_bytes(b, qw, qh);
                            &&& (!spec_connected(track, (qsx, qsy)) ==> m@
                                == "some racetrack tiles are not reachable from the start"@)
                            &&& (spec_connected(track, (qsx, qsy)) && !spec_skinny_ok(track)
                                ==> exists|x: int, y: int|
                                track.contains(((x, y))) && spec_skinny_bad(track, ((x, y)))
                                    && m@ == #[trigger] spec_skinny_msg(x + 1, y + 1))
                            &&& (spec_connected(track, (qsx, qsy)) && spec_skinny_ok(track)
                                && !spec_finish_ok_bytes(b, qw, qh, qsx, qsy) ==> m@
                                == "malformed finish line; should span the track horizontally from the start tile"@)
                        }
                },
            },
    {
        let ghost b = input.spec_bytes();
        let init = match InitialGrid::from_str(input) {
            Ok(g) => g,
            Err(e) => {
                proof {
                    if spec_compilable(b) {
                        let (w2, h2, sx2, sy2) = choose|w2: int, h2: int, sx2: int, sy2: int|
                            #[trigger] spec_compilable_at(b, w2, h2, sx2, sy2);
                        assert(spec_wf_input(b, w2, h2, true) || spec_wf_input(b, w2, h2, false));
                        assert(spec_accepted(b));
                    }
                    assert forall|qw: int, qh: int, qsx: int, qsy: int|
                        (spec_wf_input(b, qw, qh, true) || spec_wf_input(b, qw, qh, false))
                            && #[trigger] spec_is_start(b, qw, qh, qsx, qsy) implies false by {
                        assert(spec_accepted(b));
                    }
                }
                return Err(e);
            },
        };
        let ghost g = init.rows@;
        let ghost wi = init.width as int;
        let ghost hi = init.rows@.len() as int;
        let ghost sxi = init.start_tile.0 as int;
        let ghost syi = init.start_tile.1 as int;
        let ghost nlp = if spec_wf_input(b, wi, hi, true) {
            true
        } else {
            false
        };
        if init.width > MAX_DIM || init.rows.len() > MAX_DIM {
            proof {
                if spec_compilable(b) {
                    let (w2, h2, sx2, sy2) = choose|w2: int, h2: int, sx2: int, sy2: int|
                        #[trigger] spec_compilable_at(b, w2, h2, sx2, sy2);
                    let nl2 = if spec_wf_input(b, w2, h2, true) {
                        true
                    } else {
                        false
                    };
                    lemma_dims_unique(b, wi, hi, nlp, w2, h2, nl2);
                }
                assert forall|qw: int, qh: int, qsx: int, qsy: int|
                    (spec_wf_input(b, qw, qh, true) || spec_wf_input(b, qw, qh, false))
                        && #[trigger] spec_is_start(b, qw, qh, qsx, qsy) && qw <= MAX_DIM && qh
                        <= MAX_DIM implies false by {
                    let nl2 = if spec_wf_input(b, qw, qh, true) {
                        true
                    } else {
                        false
                    };
                    lemma_dims_unique(b, wi, hi, nlp, qw, qh, nl2);
                }
                lemma_wf_input_msgs(b, wi, hi, nlp, "racetrack dimensions are too large"@);
            }
            return Err("racetrack dimensions are too large".to_owned());
        }
        proof {
            lemma_track_sets_agree(b, g, wi, hi);
            lemma_stars_agree(b, g, wi, hi, hi);
            assert(g[syi]@[sxi] is Start) by {
                assert(Some(g[syi]@[sxi]) == spec_repr_of_byte(
                    spec_interior_byte(b, wi, hi, sxi, syi),
                ));
            }
        }
        match Self::make(init) {
            Ok(t) => {
                proof {
                    assert(spec_compilable_at(b, wi, hi, sxi, syi));
                }
                Ok(t)
            },
            Err(e) => {
                proof {
                    if spec_compilable(b) {
                        let (w2, h2, sx2, sy2) = choose|w2: int, h2: int, sx2: int, sy2: int|
                            #[trigger] spec_compilable_at(b, w2, h2, sx2, sy2);
                        let nl2 = if spec_wf_input(b, w2, h2, true) {
                            true
                        } else {
                            false
                        };
                        lemma_dims_unique(b, wi, hi, nlp, w2, h2, nl2);
                        assert(spec_is_start(b, wi, hi, sx2, sy2));
                        assert(sx2 == sxi && sy2 == syi);
                    }
                    assert forall|qw: int, qh: int, qsx: int, qsy: int|
                        (spec_wf_input(b, qw, qh, true) || spec_wf_input(b, qw, qh, false))
                            && #[trigger] spec_is_start(b, qw, qh, qsx, qsy) && qw <= MAX_DIM
                            && qh <= MAX_DIM implies qw == wi && qh == hi && qsx == sxi && qsy
                        == syi by {
                        let nl2 = if spec_wf_input(b, qw, qh, true) {
                            true
                        } else {
                            false
                        };
                        lemma_dims_unique(b, wi, hi, nlp, qw, qh, nl2);
                        assert(spec_is_start(b, wi, hi, qsx, qsy));
                    }
                    lemma_wf_input_msgs(b, wi, hi, nlp, e@);
                }
                Err(e)
            },
        }
    }
}

/// Whether `p` lies on edge `e` of the tile square of cell `(x, y)`: edge 0
/// is the top, 1 the right, 2 the bottom, 3 the left.
pub open spec fn spec_on_tile_edge(p: Point, x: int, y: int, e: int) -> bool {
    let lo_x = TILE_SIZE as int * x;
    let hi_x = TILE_SIZE as int * (x + 1);
    let lo_y = TILE_SIZE as int * y;
    let hi_y = TILE_SIZE as int * (y + 1);
    if e == 0 {
        p.y == hi_y && lo_x <= p.x <= hi_x
    } else if e == 1 {
        p.x == hi_x && lo_y <= p.y <= hi_y
    } else if e == 2 {
        p.y == lo_y && lo_x <= p.x <= hi_x
    } else {
        p.x == lo_x && lo_y <= p.y <= hi_y
    }
}

/// Whether the segment's two endpoints are distinct and lie on two distinct
/// edges of the tile square of cell `(x, y)`.
pub open spec fn spec_seg_on_two_edges(seg: (Point, Point), x: int, y: int) -> bool {
    &&& seg.0 != seg.1
    &&& exists|e1: int, e2: int|
        #![trigger spec_on_tile_edge(seg.0, x, y, e1), spec_on_tile_edge(seg.1, x, y, e2)]
        {
            &&& 0 <= e1 < 4
            &&& 0 <= e2 < 4
            &&& e1 != e2
            &&& spec_on_tile_edge(seg.0, x, y, e1)
            &&& spec_on_tile_edge(seg.1, x, y, e2)
        }
}

/// Every border tile of a compiled track carries a segment whose two
/// endpoints are distinct and lie on two distinct edges of the tile's
/// square.
pub proof fn lemma_border_seg_on_two_edges(
    track: Set<(int, int)>,
    w: int,
    sx: int,
    sy: int,
    x: int,
    y: int,
)
    requires
        0 <= x <= MAX_DIM,
        0 <= y <= MAX_DIM,
        spec_resolved_tile(track, w, sx, sy, x, y) is Border,
    ensures
        (match spec_resolved_tile(track, w, sx, sy, x, y) {
            GridTile::Border { border, .. } => spec_seg_on_two_edges(border, x, y),
            _ => true,
        }),
{
    let up = !track.contains(((x, y + 1)));
    let right = !track.contains(((x + 1, y)));
    let down = !track.contains(((x, y - 1)));
    let left = !track.contains(((x - 1, y)));
    let bl = spec_corner(x, y, 0, 0);
    let br = spec_corner(x, y, 1, 0);
    let tl = spec_corner(x, y, 0, 1);
    let tr = spec_corner(x, y, 1, 1);
    let seg = spec_border_seg(x, y, up, right, down, left);
    if up && right {
        assert(spec_on_tile_edge(seg.0, x, y, 0) && spec_on_tile_edge(seg.1, x, y, 1));
    } else if right && down {
        assert(spec_on_tile_edge(seg.0, x, y, 1) && spec_on_tile_edge(seg.1, x, y, 3));
    } else if down && left {
        assert(spec_on_tile_edge(seg.0, x, y, 2) && spec_on_tile_edge(seg.1, x, y, 0));
    } else if left && up {
        assert(spec_on_tile_edge(seg.0, x, y, 2) && spec_on_tile_edge(seg.1, x, y, 0));
    } else if up {
        assert(spec_on_tile_edge(seg.0, x, y, 3) && spec_on_tile_edge(seg.1, x, y, 1));
    } else if down {
        assert(spec_on_tile_edge(seg.0, x, y, 3) && spec_on_tile_edge(seg.1, x, y, 1));
    } else if left {
        assert(spec_on_tile_edge(seg.0, x, y, 2) && spec_on_tile_edge(seg.1, x, y, 0));
    } else {
        assert(spec_on_tile_edge(seg.0, x, y, 2) && spec_on_tile_edge(seg.1, x, y, 0));
    }
    assert(seg.0 != seg.1);
    assert(spec_seg_on_two_edges(seg, x, y));
}

/// The byte a compiled tile serialises back to: `x` for outside tiles, `s`
/// for the start tile, `*` for tiles the finish line crosses, and a space
/// for the rest.
pub open spec fn spec_render_tile(t: GridTile, is_start: bool) -> u8 {
    if t is Outside {
        120
    } else if is_start {
        115
    } else if spec_tile_has_finish_line(t) {
        42
    } else {
        32
    }
}

impl Racetrack {
    /// Serialises the tile kinds back to characters: the interior of a
    /// track description, rows bottom-up, as bytes.
    #[verifier::loop_isolation(false)]
    pub fn render(&self) -> (r: Vec<Vec<u8>>)
        requires
            self.wf(),
        ensures
            r@.len() == self.height,
            forall|y: int| 0 <= y < self.height ==> (#[trigger] r@[y])@.len() == self.width,
            forall|y: int, x: int|
                0 <= y < self.height && 0 <= x < self.width ==> #[trigger] r@[y]@[x]
                    == spec_render_tile(
                    self.grid@[y]@[x],
                    x == self.start_tile.0 && y == self.start_tile.1,
                ),
    {
        let mut out: Vec<Vec<u8>> = Vec::new();
        let mut y: usize = 0;
        while y < self.height
            invariant
                y <= self.height,
                out@.len() == y,
                forall|yy: int| 0 <= yy < y ==> (#[trigger] out@[yy])@.len() == self.width,
                forall|yy: int, x: int|
                    0 <= yy < y && 0 <= x < self.width ==> #[trigger] out@[yy]@[x]
                        == spec_render_tile(
                        self.grid@[yy]@[x],
                        x == self.start_tile.0 && yy == self.start_tile.1,
                    ),
            decreases self.height - y,
        {
            let mut row: Vec<u8> = Vec::new();
            let mut x: usize = 0;
            while x < self.width
                invariant
                    x <= self.width,
                    row@.len() == x,
                    forall|xx: int|
                        0 <= xx < x ==> #[trigger] row@[xx] == spec_render_tile(
                            self.grid@[y as int]@[xx],
                            xx == self.start_tile.0 && y == self.start_tile.1,
                        ),
                decreases self.width - x,
            {
                let t = self.grid[y][x];
                let c: u8 = if t.is_outside() {
                    120
                } else if x == self.start_tile.0 && y == self.start_tile.1 {
                    115
                } else if t.contains_finish_line() {
                    42
                } else {
                    32
                };
                row.push(c);
                x = x + 1;
            }
            out.push(row);
            y = y + 1;
        }
        out
    }
}

/// The left span never reaches past the grid's edge.
proof fn lemma_left_span_bound(track: Set<(int, int)>, sy: int, x: int)
    requires
        0 <= x,
    ensures
        0 <= spec_left_span(track, sy, x) <= x,
    decreases x,
{
    if x > 0 && track.contains(((x - 1, sy))) {
        lemma_left_span_bound(track, sy, x - 1);
    }
}

/// The right span never reaches past the grid's edge.
proof fn lemma_right_span_bound(track: Set<(int, int)>, w: int, sy: int, x: int)
    requires
        0 <= x < w,
    ensures
        0 <= spec_right_span(track, w, sy, x) <= w - 1 - x,
    decreases w - x,
{
    if x + 1 < w && track.contains(((x + 1, sy))) {
        lemma_right_span_bound(track, w, sy, x + 1);
    }
}

/// A column segment of a row holds at most as many stars as cells.
proof fn lemma_stars_seg_le(b: Seq<u8>, w: int, h: int, y: int, a: int, c: int)
    requires
        0 <= a <= c,
    ensures
        0 <= spec_stars_bytes_in_row(b, w, h, y, c) - spec_stars_bytes_in_row(b, w, h, y, a) <= c
            - a,
    decreases c,
{
    if c > a {
        lemma_stars_seg_le(b, w, h, y, a, c - 1);
    }
}

/// A column segment whose star count equals its length is all stars.
proof fn lemma_stars_seg_full(b: Seq<u8>, w: int, h: int, y: int, a: int, c: int)
    requires
        0 <= a <= c,
        spec_stars_bytes_in_row(b, w, h, y, c) - spec_stars_bytes_in_row(b, w, h, y, a) == c - a,
    ensures
        forall|u: int| a <= u < c ==> spec_interior_byte(b, w, h, u, y) == 42,
    decreases c,
{
    if c > a {
        lemma_stars_seg_le(b, w, h, y, a, c - 1);
        lemma_stars_seg_full(b, w, h, y, a, c - 1);
    }
}

/// A column segment without stars counts none.
proof fn lemma_stars_seg_zero(b: Seq<u8>, w: int, h: int, y: int, a: int, c: int)
    requires
        0 <= a <= c,
        forall|u: int| a <= u < c ==> spec_interior_byte(b, w, h, u, y) != 42,
    ensures
        spec_stars_bytes_in_row(b, w, h, y, c) == spec_stars_bytes_in_row(b, w, h, y, a),
    decreases c,
{
    if c > a {
        lemma_stars_seg_zero(b, w, h, y, a, c - 1);
    }
}

/// When all stars sit on row `sy`, the total star count is that row's.
proof fn lemma_stars_single_row(b: Seq<u8>, w: int, h: int, sy: int, upto: int)
    requires
        0 <= w,
        0 <= sy < upto,
        forall|y: int, x: int|
            0 <= y < upto && 0 <= x < w && y != sy ==> #[trigger] spec_interior_byte(b, w, h, x, y)
                != 42,
    ensures
        spec_stars_bytes_upto(b, w, h, upto) == spec_stars_bytes_in_row(b, w, h, sy, w),
    decreases upto,
{
    if upto - 1 == sy {
        lemma_stars_rows_zero(b, w, h, upto - 1);
    } else {
        lemma_stars_single_row(b, w, h, sy, upto - 1);
        lemma_stars_seg_zero(b, w, h, upto - 1, 0, w);
    }
}

/// Rows without stars count none.
proof fn lemma_stars_rows_zero(b: Seq<u8>, w: int, h: int, upto: int)
    requires
        0 <= w,
        forall|y: int, x: int|
            0 <= y < upto && 0 <= x < w ==> #[trigger] spec_interior_byte(b, w, h, x, y) != 42,
    ensures
        spec_stars_bytes_upto(b, w, h, upto) == 0,
    decreases upto,
{
    if upto > 0 {
        lemma_stars_rows_zero(b, w, h, upto - 1);
        lemma_stars_seg_zero(b, w, h, upto - 1, 0, w);
    }
}

/// The set of finish-line tiles equals the set of `*` cells — whenever
/// every `*` cell of the description lies on the finish line's horizontal
/// span. Compilation itself only checks that the two sets have equal size;
/// together with the hypothesis that one contains the other, the sets are
/// equal.
#[verifier::rlimit(60)]
pub proof fn lemma_finish_marks_equal_stars(b: Seq<u8>, w: int, h: int, sx: int, sy: int)
    requires
        spec_compilable_at(b, w, h, sx, sy),
        forall|x: int, y: int|
            0 <= x < w && 0 <= y < h && #[trigger] spec_interior_byte(b, w, h, x, y) == 42
                ==> spec_on_finish_line(spec_track_set_bytes(b, w, h), w, sx, sy, x, y),
    ensures
        forall|x: int, y: int|
            0 <= x < w && 0 <= y < h ==> (spec_tile_has_finish_line(
                #[trigger] spec_resolved_tile(spec_track_set_bytes(b, w, h), w, sx, sy, x, y),
            ) <==> spec_interior_byte(b, w, h, x, y) == 42),
{
    let track = spec_track_set_bytes(b, w, h);
    let li = spec_left_span(track, sy, sx);
    let ri = spec_right_span(track, w, sy, sx);
    lemma_left_span_bound(track, sy, sx);
    lemma_right_span_bound(track, w, sy, sx);
    // All stars sit on the start row, so the total star count is that row's.
    lemma_stars_single_row(b, w, h, sy, h);
    // Decompose the start row: no stars left of the span, none at the start
    // cell, none right of the span.
    lemma_stars_seg_zero(b, w, h, sy, 0, sx - li);
    lemma_stars_seg_zero(b, w, h, sy, sx, sx + 1);
    lemma_stars_seg_zero(b, w, h, sy, sx + ri + 1, w);
    lemma_stars_seg_le(b, w, h, sy, sx - li, sx);
    lemma_stars_seg_le(b, w, h, sy, sx + 1, sx + ri + 1);
    // The counts force both span segments to be all stars.
    lemma_stars_seg_full(b, w, h, sy, sx - li, sx);
    lemma_stars_seg_full(b, w, h, sy, sx + 1, sx + ri + 1);
    assert forall|x: int, y: int| 0 <= x < w && 0 <= y < h implies (spec_tile_has_finish_line(
        #[trigger] spec_resolved_tile(track, w, sx, sy, x, y),
    ) <==> spec_interior_byte(b, w, h, x, y) == 42) by {
        if spec_interior_byte(b, w, h, x, y) == 42 {
            assert(track.contains(((x, y))));
        }
    }
}

/// Parsing then re-emitting: whenever every `*` cell lies on the finish
/// line's span, serialising the compiled tile kinds back to characters
/// yields the description's interior exactly.
pub proof fn lemma_render_round_trip(b: Seq<u8>, w: int, h: int, sx: int, sy: int)
    requires
        spec_compilable_at(b, w, h, sx, sy),
        forall|x: int, y: int|
            0 <= x < w && 0 <= y < h && #[trigger] spec_interior_byte(b, w, h, x, y) == 42
                ==> spec_on_finish_line(spec_track_set_bytes(b, w, h), w, sx, sy, x, y),
    ensures
        forall|x: int, y: int|
            0 <= x < w && 0 <= y < h ==> spec_render_tile(
                #[trigger] spec_resolved_tile(spec_track_set_bytes(b, w, h), w, sx, sy, x, y),
                x == sx && y == sy,
            ) == spec_interior_byte(b, w, h, x, y),
{
    let track = spec_track_set_bytes(b, w, h);
    lemma_finish_marks_equal_stars(b, w, h, sx, sy);
    let ghost nl = if spec_wf_input(b, w, h, true) {
        true
    } else {
        false
    };
    assert forall|x: int, y: int| 0 <= x < w && 0 <= y < h implies spec_render_tile(
        #[trigger] spec_resolved_tile(track, w, sx, sy, x, y),
        x == sx && y == sy,
    ) == spec_interior_byte(b, w, h, x, y) by {
        let c = spec_interior_byte(b, w, h, x, y);
        assert(spec_wf_row(b, w, h - y));
        assert(spec_repr_of_byte(b[spec_row_off(w, h - y) + 1 + (x)]) is Some);
        assert(c == 120 || c == 32 || c == 115 || c == 42);
        if x == sx && y == sy {
            assert(c == 115);
            assert(track.contains(((x, y))));
        } else if c == 115 {
            // `s` appears only at the start cell.
            assert(spec_is_start(b, w, h, x, y));
            assert(spec_is_start(b, w, h, sx, sy));
        }
    }
}

/// A second start character refutes every candidate frame: the two distinct
/// interior positions holding `s` violate start uniqueness.
proof fn lemma_reject_second_start(
    b: Seq<u8>,
    w: int,
    k: int,
    sx: int,
    sy: int,
    j: int,
)
    requires
        0 <= w,
        0 <= k,
        spec_wf_top(b, w),
        forall|rr: int| 1 <= rr <= k ==> spec_wf_row(b, w, rr),
        b.len() > spec_row_off(w, k + 1),
        b[spec_row_off(w, k + 1)] != B_PLUS,
        0 <= sx < w,
        0 <= sy,
        sy < k || (sy == k && sx < j),
        0 <= j < w,
        b[spec_row_off(w, sy + 1) + 1 + sx] == B_START,
        b[spec_row_off(w, k + 1) + 1 + j] == B_START,
        !(sy == k && sx == j),
    ensures
        !spec_accepted(b),
{
    assert forall|w2: int, h2: int|
        !(spec_wf_input(b, w2, h2, true) || spec_wf_input(b, w2, h2, false)) by {
        if spec_wf_frame(b, w2, h2, true) || spec_wf_frame(b, w2, h2, false) {
            let nl2 = spec_wf_frame(b, w2, h2, true);
            lemma_frame_implies_loose(b, w2, h2, nl2);
            lemma_frame_dims(b, w, k, w2, h2, nl2);
            if h2 == k {
                assert(b[spec_row_off(w, k + 1)] == B_PLUS);
            } else {
                let y1 = h2 - (sy + 1);
                let y2 = h2 - (k + 1);
                assert(spec_is_start(b, w2, h2, sx, y1));
                assert(spec_is_start(b, w2, h2, j, y2));
                assert(!(sx == j && y1 == y2));
            }
        }
    }
}

} // verus!
