use vstd::prelude::*;
use crate::text::push_char;

verus! {

/// An opaque RGB colour.
#[derive(Debug, Clone, Copy, PartialEq, Eq, Structural)]
pub struct Color(pub u8, pub u8, pub u8);

/// The lowercase hexadecimal digit for `d < 16`.
pub open spec fn hex_digit(d: nat) -> char {
    if d < 10 {
        ('0' as nat + d) as char
    } else {
        ('a' as nat + (d - 10)) as char
    }
}

/// Two lowercase hexadecimal digits for a byte.
pub open spec fn hex_byte(b: u8) -> Seq<char> {
    seq![hex_digit((b / 16) as nat), hex_digit((b % 16) as nat)]
}

/// The CSS notation `#rrggbb` of a colour.
pub open spec fn css_text(c: Color) -> Seq<char> {
    seq!['#'] + hex_byte(c.0) + hex_byte(c.1) + hex_byte(c.2)
}

fn hex_char(d: u8) -> (c: char)
    requires
        d < 16,
    ensures
        c == hex_digit(d as nat),
{
    if d < 10 {
        (48u8 + d) as char
    } else {
        (97u8 + (d - 10)) as char
    }
}

fn push_hex_byte(s: &mut String, b: u8)
    ensures
        final(s)@ == old(s)@ + hex_byte(b),
{
    push_char(s, hex_char(b / 16));
    push_char(s, hex_char(b % 16));
    assert(final(s)@ =~= old(s)@ + hex_byte(b));
}

impl Color {
    pub fn blue() -> (c: Color)
        ensures
            c == Color(31, 119, 180),
    {
        Color(31, 119, 180)
    }

    pub fn red() -> (c: Color)
        ensures
            c == Color(214, 39, 40),
    {
        Color(214, 39, 40)
    }

    pub fn green() -> (c: Color)
        ensures
            c == Color(44, 160, 44),
    {
        Color(44, 160, 44)
    }

    pub fn orange() -> (c: Color)
        ensures
            c == Color(255, 127, 14),
    {
        Color(255, 127, 14)
    }

    pub fn purple() -> (c: Color)
        ensures
            c == Color(148, 103, 189),
    {
        Color(148, 103, 189)
    }

    pub fn gray() -> (c: Color)
        ensures
            c == Color(120, 120, 120),
    {
        Color(120, 120, 120)
    }

    /// The CSS notation `#rrggbb`, in lowercase hexadecimal.
    pub fn css(self) -> (r: String)
        ensures
            r@ == css_text(self),
    {
        let mut s = String::new();
        push_char(&mut s, '#');
        push_hex_byte(&mut s, self.0);
        push_hex_byte(&mut s, self.1);
        push_hex_byte(&mut s, self.2);
        assert(s@ =~= css_text(self));
        s
    }
}

/// A rendered plot.
#[derive(Debug, Clone, PartialEq)]
pub struct PlotOutput {
    pub svg: String,
}

/// How one character is written in XML text: the five markup characters
/// become entities, every other character stays.
pub open spec fn escape_char(c: char) -> Seq<char> {
    if c == '&' {
        seq!['&', 'a', 'm', 'p', ';']
    } else if c == '<' {
        seq!['&', 'l', 't', ';']
    } else if c == '>' {
        seq!['&', 'g', 't', ';']
    } else if c == '"' {
        seq!['&', 'q', 'u', 'o', 't', ';']
    } else if c == '\'' {
        seq!['&', 'a', 'p', 'o', 's', ';']
    } else {
        seq![c]
    }
}

/// A text with each character escaped.
pub open spec fn escaped(s: Seq<char>) -> Seq<char>
    decreases s.len(),
{
    if s.len() == 0 {
        Seq::empty()
    } else {
        escaped(s.drop_last()) + escape_char(s.last())
    }
}

/// `c` is one of `<`, `>`, `"` and `'`, which escaped text never holds.
pub open spec fn is_markup(c: char) -> bool {
    c == '<' || c == '>' || c == '"' || c == '\''
}

fn push_four(s: &mut String, a: char, b: char, c: char, d: char)
    ensures
        final(s)@ == old(s)@ + seq![a, b, c, d],
{
    push_char(s, a);
    push_char(s, b);
    push_char(s, c);
    push_char(s, d);
    assert(final(s)@ =~= old(s)@ + seq![a, b, c, d]);
}

/// Appends the escaped form of one character.
fn push_escaped(s: &mut String, c: char)
    ensures
        final(s)@ == old(s)@ + escape_char(c),
{
    if c == '&' {
        push_char(s, '&');
        push_four(s, 'a', 'm', 'p', ';');
        assert(final(s)@ =~= old(s)@ + escape_char(c));
    } else if c == '<' {
        push_four(s, '&', 'l', 't', ';');
        assert(final(s)@ =~= old(s)@ + escape_char(c));
    } else if c == '>' {
        push_four(s, '&', 'g', 't', ';');
        assert(final(s)@ =~= old(s)@ + escape_char(c));
    } else if c == '"' {
        push_char(s, '&');
        push_char(s, 'q');
        push_four(s, 'u', 'o', 't', ';');
        assert(final(s)@ =~= old(s)@ + escape_char(c));
    } else if c == '\'' {
        push_char(s, '&');
        push_char(s, 'a');
        push_four(s, 'p', 'o', 's', ';');
        assert(final(s)@ =~= old(s)@ + escape_char(c));
    } else {
        push_char(s, c);
        assert(final(s)@ =~= old(s)@ + escape_char(c));
    }
}

/// Escapes `&`, `<`, `>`, `"` and `'` for use in XML text and attributes.
pub fn escape_xml(value: &str) -> (r: String)
    ensures
        r@ == escaped(value@),
{
    let mut out = String::new();
    for c in it: value.chars()
        invariant
            it.seq() == value@,
            out@ == escaped(value@.take(it.index() as int)),
    {
        proof {
            assert(value@.take(it.index() + 1).drop_last() =~= value@.take(it.index() as int));
        }
        push_escaped(&mut out, c);
    }
    proof {
        assert(value@.take(value@.len() as int) =~= value@);
    }
    out
}

/// Escaped text holds none of `<`, `>`, `"` and `'`.
pub proof fn lemma_escaped_has_no_markup(s: Seq<char>)
    ensures
        forall|i: int| 0 <= i < escaped(s).len() ==> !is_markup(#[trigger] escaped(s)[i]),
    decreases s.len(),
{
    if s.len() > 0 {
        lemma_escaped_has_no_markup(s.drop_last());
        let head = escaped(s.drop_last());
        let tail = escape_char(s.last());
        assert forall|i: int| 0 <= i < escaped(s).len() implies !is_markup(#[trigger] escaped(s)[i]) by {
            if i < head.len() {
                assert(escaped(s)[i] == head[i]);
            } else {
                assert(escaped(s)[i] == tail[i - head.len()]);
            }
        }
    }
}

/// Text without any of the five special characters is left as it is.
pub proof fn lemma_escaped_plain(s: Seq<char>)
    requires
        forall|i: int| 0 <= i < s.len() ==> !is_markup(#[trigger] s[i]) && s[i] != '&',
    ensures
        escaped(s) == s,
    decreases s.len(),
{
    if s.len() > 0 {
        lemma_escaped_plain(s.drop_last());
        assert(escaped(s) =~= s);
    }
}

/// The pixels after `(x, y)` on a line drawn by Bresenham's rule towards
/// `(x1, y1)`: `a` and `b` are the horizontal and vertical distances of the
/// whole line, `sx` and `sy` its directions, `err` the running error term.
pub open spec fn line_from(x: int, y: int, err: int, x1: int, y1: int, a: int, b: int, sx: int, sy: int, fuel: nat) -> Seq<(int, int)>
    decreases fuel,
{
    if fuel == 0 {
        Seq::empty()
    } else if x == x1 && y == y1 {
        seq![(x, y)]
    } else {
        let e2 = 2 * err;
        let x2 = if e2 >= -b { x + sx } else { x };
        let err2 = if e2 >= -b { err - b } else { err };
        let y2 = if e2 <= a { y + sy } else { y };
        let err3 = if e2 <= a { err2 + a } else { err2 };
        seq![(x, y)] + line_from(x2, y2, err3, x1, y1, a, b, sx, sy, (fuel - 1) as nat)
    }
}

/// The pixels of the line from `(x0, y0)` to `(x1, y1)` by Bresenham's
/// rule, from the first end to the second.
pub open spec fn line_spec(x0: int, y0: int, x1: int, y1: int) -> Seq<(int, int)> {
    let a = if x0 < x1 { x1 - x0 } else { x0 - x1 };
    let b = if y0 < y1 { y1 - y0 } else { y0 - y1 };
    let sx = if x0 < x1 { 1int } else { -1int };
    let sy = if y0 < y1 { 1int } else { -1int };
    line_from(x0, y0, a - b, x1, y1, a, b, sx, sy, (a + b + 1) as nat)
}

/// `pixels` holds the integer points of `expected`, in order.
pub open spec fn same_points(pixels: Seq<(i32, i32)>, expected: Seq<(int, int)>) -> bool {
    &&& pixels.len() == expected.len()
    &&& forall|k: int| 0 <= k < pixels.len() ==> (#[trigger] pixels[k]).0 == expected[k].0 && pixels[k].1 == expected[k].1
}

/// The pixels of the line from `(x0, y0)` to `(x1, y1)`, by Bresenham's rule.
pub fn line_pixels(x0: i32, y0: i32, x1: i32, y1: i32) -> (r: Vec<(i32, i32)>)
    ensures
        same_points(r@, line_spec(x0 as int, y0 as int, x1 as int, y1 as int)),
{
    let a: i64 = if x0 < x1 { x1 as i64 - x0 as i64 } else { x0 as i64 - x1 as i64 };
    let b: i64 = if y0 < y1 { y1 as i64 - y0 as i64 } else { y0 as i64 - y1 as i64 };
    let sx: i32 = if x0 < x1 { 1 } else { -1 };
    let sy: i32 = if y0 < y1 { 1 } else { -1 };
    let ghost whole = line_spec(x0 as int, y0 as int, x1 as int, y1 as int);
    let mut err: i64 = a - b;
    let mut x: i32 = x0;
    let mut y: i32 = y0;
    let ghost mut steps_x: int = 0;
    let ghost mut steps_y: int = 0;
    let ghost mut fuel: nat = (a + b + 1) as nat;
    let mut out: Vec<(i32, i32)> = Vec::new();
    assert(err == a * (1 + steps_y) - b * (1 + steps_x)) by (nonlinear_arith)
        requires
            err == a - b,
            steps_x == 0,
            steps_y == 0,
    ;
    loop
        invariant_except_break
            same_points(out@, whole.take(out@.len() as int)),
            whole == whole.take(out@.len() as int) + line_from(x as int, y as int, err as int, x1 as int, y1 as int, a as int, b as int, sx as int, sy as int, fuel),
        invariant
            0 <= a <= 0xffff_ffff,
            0 <= b <= 0xffff_ffff,
            a == (if x0 < x1 { x1 - x0 } else { x0 - x1 }),
            b == (if y0 < y1 { y1 - y0 } else { y0 - y1 }),
            sx == (if x0 < x1 { 1int } else { -1int }),
            sy == (if y0 < y1 { 1int } else { -1int }),
            0 <= steps_x <= a,
            0 <= steps_y <= b,
            x == (if x0 < x1 { x0 + steps_x } else { x0 - steps_x }),
            y == (if y0 < y1 { y0 + steps_y } else { y0 - steps_y }),
            err == a * (1 + steps_y) - b * (1 + steps_x),
            -2 * b <= err <= 2 * a,
            fuel >= (a - steps_x) + (b - steps_y) + 1,
            whole == line_spec(x0 as int, y0 as int, x1 as int, y1 as int),
        ensures
            same_points(out@, whole),
        decreases (a - steps_x) + (b - steps_y),
    {
        let ghost rest = line_from(x as int, y as int, err as int, x1 as int, y1 as int, a as int, b as int, sx as int, sy as int, fuel);
        let ghost len = out@.len() as int;
        proof {
            assert(rest[0] == (x as int, y as int));
            assert(whole[len] == rest[0]);
        }
        out.push((x, y));
        proof {
            assert(whole.take(len + 1) =~= whole.take(len).push(whole[len]));
            assert(same_points(out@, whole.take(len + 1)));
        }
        if x == x1 && y == y1 {
            proof {
                assert(rest =~= seq![(x as int, y as int)]);
                assert(whole.take(len + 1) =~= whole);
            }
            break;
        }
        let e2: i64 = 2 * err;
        let ghost at_x_end = steps_x == a;
        let ghost at_y_end = steps_y == b;
        proof {
            if steps_x == a {
                assert(steps_y < b);
                assert(2 * err < -b) by (nonlinear_arith)
                    requires
                        err == a * (1 + steps_y) - b * (1 + steps_x),
                        steps_x == a,
                        0 <= steps_y < b,
                        0 <= a,
                ;
            }
            if steps_y == b {
                assert(steps_x < a);
                assert(2 * err > a) by (nonlinear_arith)
                    requires
                        err == a * (1 + steps_y) - b * (1 + steps_x),
                        steps_y == b,
                        0 <= steps_x < a,
                        0 <= b,
                ;
            }
        }
        if e2 >= -b {
            err = err - b;
            x = x + sx;
            proof {
                steps_x = steps_x + 1;
                assert(err == a * (1 + steps_y) - b * (1 + steps_x)) by (nonlinear_arith)
                    requires
                        err + b == a * (1 + steps_y) - b * steps_x,
                ;
            }
        }
        if e2 <= a {
            err = err + a;
            y = y + sy;
            proof {
                steps_y = steps_y + 1;
                assert(err == a * (1 + steps_y) - b * (1 + steps_x)) by (nonlinear_arith)
                    requires
                        err - a == a * steps_y - b * (1 + steps_x),
                ;
            }
        }
        proof {
            let next = line_from(x as int, y as int, err as int, x1 as int, y1 as int, a as int, b as int, sx as int, sy as int, (fuel - 1) as nat);
            assert(rest == seq![(rest[0])] + next);
            assert(whole =~= whole.take(len + 1) + next);
            fuel = (fuel - 1) as nat;
        }
    }
    out
}

/// Two distinct pixels that touch, by a side or a corner.
pub open spec fn touching(p: (int, int), q: (int, int)) -> bool {
    &&& p != q
    &&& -1 <= p.0 - q.0 <= 1
    &&& -1 <= p.1 - q.1 <= 1
}

proof fn lemma_line_from_shape(
    x0: int,
    y0: int,
    x1: int,
    y1: int,
    a: int,
    b: int,
    sx: int,
    sy: int,
    x: int,
    y: int,
    err: int,
    steps_x: int,
    steps_y: int,
    fuel: nat,
)
    requires
        a == (if x0 < x1 { x1 - x0 } else { x0 - x1 }),
        b == (if y0 < y1 { y1 - y0 } else { y0 - y1 }),
        sx == (if x0 < x1 { 1int } else { -1int }),
        sy == (if y0 < y1 { 1int } else { -1int }),
        0 <= steps_x <= a,
        0 <= steps_y <= b,
        x == (if x0 < x1 { x0 + steps_x } else { x0 - steps_x }),
        y == (if y0 < y1 { y0 + steps_y } else { y0 - steps_y }),
        err == a * (1 + steps_y) - b * (1 + steps_x),
        fuel >= (a - steps_x) + (b - steps_y) + 1,
    ensures
        line_from(x, y, err, x1, y1, a, b, sx, sy, fuel).len() >= 1,
        line_from(x, y, err, x1, y1, a, b, sx, sy, fuel)[0] == (x, y),
        line_from(x, y, err, x1, y1, a, b, sx, sy, fuel).last() == (x1, y1),
        forall|k: int| 0 <= k < line_from(x, y, err, x1, y1, a, b, sx, sy, fuel).len() - 1
            ==> touching(
                #[trigger] line_from(x, y, err, x1, y1, a, b, sx, sy, fuel)[k],
                line_from(x, y, err, x1, y1, a, b, sx, sy, fuel)[k + 1],
            ),
    decreases fuel,
{
    let s = line_from(x, y, err, x1, y1, a, b, sx, sy, fuel);
    if !(x == x1 && y == y1) {
        if steps_x == a {
            assert(2 * err < -b) by (nonlinear_arith)
                requires
                    err == a * (1 + steps_y) - b * (1 + steps_x),
                    steps_x == a,
                    0 <= steps_y < b,
                    0 <= a,
            ;
        }
        if steps_y == b {
            assert(2 * err > a) by (nonlinear_arith)
                requires
                    err == a * (1 + steps_y) - b * (1 + steps_x),
                    steps_y == b,
                    0 <= steps_x < a,
                    0 <= b,
            ;
        }
        let e2 = 2 * err;
        let moves_x = e2 >= -b;
        let moves_y = e2 <= a;
        let x2 = if moves_x { x + sx } else { x };
        let y2 = if moves_y { y + sy } else { y };
        let sx2 = if moves_x { steps_x + 1 } else { steps_x };
        let sy2 = if moves_y { steps_y + 1 } else { steps_y };
        let err2 = if moves_x { err - b } else { err };
        let err3 = if moves_y { err2 + a } else { err2 };
        assert(err3 == a * (1 + sy2) - b * (1 + sx2)) by (nonlinear_arith)
            requires
                err == a * (1 + steps_y) - b * (1 + steps_x),
                err2 == (if moves_x { err - b } else { err }),
                err3 == (if moves_y { err2 + a } else { err2 }),
                sx2 == (if moves_x { steps_x + 1 } else { steps_x }),
                sy2 == (if moves_y { steps_y + 1 } else { steps_y }),
        ;
        lemma_line_from_shape(x0, y0, x1, y1, a, b, sx, sy, x2, y2, err3, sx2, sy2, (fuel - 1) as nat);
        let rest = line_from(x2, y2, err3, x1, y1, a, b, sx, sy, (fuel - 1) as nat);
        assert(s == seq![(x, y)] + rest);
        assert forall|k: int| 0 <= k < s.len() - 1 implies touching(#[trigger] s[k], s[k + 1]) by {
            if k > 0 {
                assert(s[k] == rest[k - 1]);
                assert(s[k + 1] == rest[k]);
            } else {
                assert(s[1] == rest[0]);
                assert(moves_x || moves_y);
            }
        }
    }
}

/// A line starts at its first end, finishes at its second, and each pixel
/// touches the next.
pub proof fn lemma_line_shape(x0: int, y0: int, x1: int, y1: int)
    ensures
        line_spec(x0, y0, x1, y1).len() >= 1,
        line_spec(x0, y0, x1, y1)[0] == (x0, y0),
        line_spec(x0, y0, x1, y1).last() == (x1, y1),
        forall|k: int| 0 <= k < line_spec(x0, y0, x1, y1).len() - 1
            ==> touching(#[trigger] line_spec(x0, y0, x1, y1)[k], line_spec(x0, y0, x1, y1)[k + 1]),
{
    let a = if x0 < x1 { x1 - x0 } else { x0 - x1 };
    let b = if y0 < y1 { y1 - y0 } else { y0 - y1 };
    let sx = if x0 < x1 { 1int } else { -1int };
    let sy = if y0 < y1 { 1int } else { -1int };
    assert(a - b == a * (1 + 0) - b * (1 + 0)) by (nonlinear_arith);
    lemma_line_from_shape(x0, y0, x1, y1, a, b, sx, sy, x0, y0, a - b, 0, 0, (a + b + 1) as nat);
}

/// Whether the pixel `(x, y)` lies on an image of the given size.
pub fn pixel_visible(x: i32, y: i32, width: u32, height: u32) -> (r: bool)
    ensures
        r == (0 <= x < width && 0 <= y < height),
{
    x >= 0 && y >= 0 && (x as u32) < width && (y as u32) < height
}

/// `pixels` lists the `width` by `height` rectangle at `(x, y)` row by row.
pub open spec fn is_rect(pixels: Seq<(i32, i32)>, x: int, y: int, width: int, height: int) -> bool {
    if width <= 0 || height <= 0 {
        pixels.len() == 0
    } else {
        &&& pixels.len() == width * height
        &&& forall|r: int, c: int| 0 <= r < height && 0 <= c < width ==> (#[trigger] pixels[r * width + c]).0 == x + c
            && pixels[r * width + c].1 == y + r
    }
}

/// The pixels of the filled rectangle with corner `(x, y)`, row by row.
pub fn rect_pixels(x: i32, y: i32, width: i32, height: i32) -> (r: Vec<(i32, i32)>)
    requires
        x + width <= i32::MAX,
        y + height <= i32::MAX,
    ensures
        is_rect(r@, x as int, y as int, width as int, height as int),
{
    let mut out: Vec<(i32, i32)> = Vec::new();
    if width <= 0 || height <= 0 {
        return out;
    }
    let ghost w = width as int;
    let mut row: i32 = 0;
    while row < height
        invariant
            0 < width,
            0 < height,
            w == width,
            x + width <= i32::MAX,
            y + height <= i32::MAX,
            0 <= row <= height,
            out@.len() == row * w,
            forall|r: int, c: int| 0 <= r < row && 0 <= c < w ==> (#[trigger] out@[r * w + c]).0 == x + c
                && out@[r * w + c].1 == y + r,
        decreases height - row,
    {
        let mut col: i32 = 0;
        let ghost base = out@.len() as int;
        while col < width
            invariant
                0 < width,
                0 < height,
                w == width,
                x + width <= i32::MAX,
                y + height <= i32::MAX,
                0 <= row < height,
                0 <= col <= width,
                base == row * w,
                out@.len() == base + col,
                forall|r: int, c: int| 0 <= r < row && 0 <= c < w ==> (#[trigger] out@[r * w + c]).0 == x + c
                    && out@[r * w + c].1 == y + r,
                forall|c: int| 0 <= c < col ==> (#[trigger] out@[base + c]).0 == x + c && out@[base + c].1 == y + row,
            decreases width - col,
        {
            out.push((x + col, y + row));
            proof {
                assert forall|r: int, c: int| 0 <= r < row && 0 <= c < w implies (#[trigger] out@[r * w + c]).0 == x + c
                    && out@[r * w + c].1 == y + r by {
                    assert(r * w + c < row * w) by (nonlinear_arith)
                        requires
                            0 <= r < row,
                            0 <= c < w,
                    ;
                }
            }
            col = col + 1;
        }
        proof {
            assert forall|r: int, c: int| 0 <= r < row + 1 && 0 <= c < w implies (#[trigger] out@[r * w + c]).0 == x + c
                && out@[r * w + c].1 == y + r by {
                if r == row {
                    assert(out@[base + c].0 == x + c);
                }
            }
            assert((row + 1) * w == row * w + w) by (nonlinear_arith);
        }
        row = row + 1;
    }
    assert(out@.len() == width * height) by (nonlinear_arith)
        requires
            out@.len() == row * w,
            row == height,
            w == width,
    ;
    out
}

/// The points of row `y` of the disk of radius `r` about `(cx, cy)` whose
/// offset from the centre is below `x`, left to right.
pub open spec fn disk_row(cx: int, cy: int, r: int, y: int, x: int) -> Seq<(int, int)>
    decreases x + r,
{
    if x <= -r {
        Seq::empty()
    } else {
        let before = disk_row(cx, cy, r, y, x - 1);
        if (x - 1) * (x - 1) + y * y <= r * r { before.push((cx + x - 1, cy + y)) } else { before }
    }
}

/// The points of the disk of radius `r` about `(cx, cy)` in the rows whose
/// offset from the centre is below `y`, row by row.
pub open spec fn disk_rows(cx: int, cy: int, r: int, y: int) -> Seq<(int, int)>
    decreases y + r,
{
    if y <= -r {
        Seq::empty()
    } else {
        disk_rows(cx, cy, r, y - 1) + disk_row(cx, cy, r, y - 1, r + 1)
    }
}

/// The pixels of the filled disk of radius `r` about `(cx, cy)`: the points
/// `(cx + x, cy + y)` with `x * x + y * y <= r * r` and both offsets within
/// `r`, row by row from the top.
pub open spec fn disk_spec(cx: int, cy: int, r: int) -> Seq<(int, int)> {
    disk_rows(cx, cy, r, r + 1)
}

/// The pixels of the filled disk of radius `radius` about `(cx, cy)`.
pub fn disk_pixels(cx: i32, cy: i32, radius: i32) -> (r: Vec<(i32, i32)>)
    requires
        radius <= 32767,
        cx - radius >= i32::MIN,
        cx + radius <= i32::MAX,
        cy - radius >= i32::MIN,
        cy + radius <= i32::MAX,
    ensures
        same_points(r@, disk_spec(cx as int, cy as int, radius as int)),
{
    let mut out: Vec<(i32, i32)> = Vec::new();
    if radius < 0 {
        proof {
            assert(disk_spec(cx as int, cy as int, radius as int) =~= Seq::<(int, int)>::empty());
        }
        return out;
    }
    assert(radius * radius <= 1_073_676_289) by (nonlinear_arith)
        requires
            0 <= radius <= 32767,
    ;
    let r2: i32 = radius * radius;
    let mut y: i32 = -radius;
    while y <= radius
        invariant
            0 <= radius <= 32767,
            r2 == radius * radius,
            cx - radius >= i32::MIN,
            cx + radius <= i32::MAX,
            cy - radius >= i32::MIN,
            cy + radius <= i32::MAX,
            -radius <= y <= radius + 1,
            same_points(out@, disk_rows(cx as int, cy as int, radius as int, y as int)),
        decreases radius + 1 - y,
    {
        let mut x: i32 = -radius;
        let ghost base = disk_rows(cx as int, cy as int, radius as int, y as int);
        proof {
            assert(disk_row(cx as int, cy as int, radius as int, y as int, x as int) =~= Seq::<(int, int)>::empty());
        }
        while x <= radius
            invariant
                0 <= radius <= 32767,
                r2 == radius * radius,
                cx - radius >= i32::MIN,
                cx + radius <= i32::MAX,
                cy - radius >= i32::MIN,
                cy + radius <= i32::MAX,
                -radius <= y <= radius,
                -radius <= x <= radius + 1,
                base == disk_rows(cx as int, cy as int, radius as int, y as int),
                same_points(out@, base + disk_row(cx as int, cy as int, radius as int, y as int, x as int)),
            decreases radius + 1 - x,
        {
            assert(x * x + y * y <= 2 * 32767 * 32767) by (nonlinear_arith)
                requires
                    -32767 <= x <= 32767,
                    -32767 <= y <= 32767,
            ;
            assert(0 <= x * x && 0 <= y * y) by (nonlinear_arith);
            let inside = x * x + y * y <= r2;
            let ghost before = out@;
            let ghost row_before = disk_row(cx as int, cy as int, radius as int, y as int, x as int);
            if inside {
                out.push((cx + x, cy + y));
            }
            proof {
                let row_after = disk_row(cx as int, cy as int, radius as int, y as int, x + 1);
                assert(row_after == if (x as int) * (x as int) + (y as int) * (y as int) <= (radius as int) * (radius as int) {
                    row_before.push((cx + x, cy + y))
                } else {
                    row_before
                });
                if inside {
                    assert(base + row_after =~= (base + row_before).push((cx + x, cy + y)));
                    assert(out@.len() == before.len() + 1);
                    assert(out@[before.len() as int].0 == cx + x && out@[before.len() as int].1 == cy + y);
                } else {
                    assert(base + row_after =~= base + row_before);
                }
            }
            x = x + 1;
        }
        proof {
            assert(disk_rows(cx as int, cy as int, radius as int, y + 1)
                == disk_rows(cx as int, cy as int, radius as int, y as int) + disk_row(cx as int, cy as int, radius as int, y as int, radius + 1));
        }
        y = y + 1;
    }
    out
}

} // verus!
