//! Where things stand on the screen.
use ratatui::layout::{Constraint, Direction, Layout, Rect};
use vstd::prelude::*;

verus! {

/// A part of the screen, in character cells.
#[derive(Clone, Copy, PartialEq, Eq, Structural, Debug)]
pub struct Area {
    pub x: u16,
    pub y: u16,
    pub width: u16,
    pub height: u16,
}

/// How high a row is.
#[derive(Clone, Copy, PartialEq, Eq, Structural, Debug)]
pub enum Limit {
    /// Just so high.
    Length(u16),
    /// At least so high.
    Min(u16),
}

/// The least of two numbers.
pub open spec fn least(a: int, b: int) -> int {
    if a <= b {
        a
    } else {
        b
    }
}

/// Whether the far corner of an area can be counted.
pub open spec fn on_screen(a: Area) -> bool {
    a.x + a.width <= u16::MAX && a.y + a.height <= u16::MAX
}

/// `ratatui::layout::Rect::new`: the area with this corner and size, cut off where its far
/// corner could not be counted.
#[verifier::external_body]
fn rect(x: u16, y: u16, width: u16, height: u16) -> (a: Area)
    ensures
        a.x == x,
        a.y == y,
        a.width == least(width as int, u16::MAX - x),
        a.height == least(height as int, u16::MAX - y),
{
    let r = Rect::new(x, y, width, height);
    Area { x: r.x, y: r.y, width: r.width, height: r.height }
}

/// What is left of an area inside a margin; nothing where the margin takes it all.
pub open spec fn inner(a: Area, margin: u16) -> Area {
    if a.width < 2 * margin || a.height < 2 * margin {
        Area { x: 0, y: 0, width: 0, height: 0 }
    } else {
        Area {
            x: least(a.x + margin, u16::MAX as int) as u16,
            y: least(a.y + margin, u16::MAX as int) as u16,
            width: (a.width - 2 * margin) as u16,
            height: (a.height - 2 * margin) as u16,
        }
    }
}

/// How high rows are at least.
pub open spec fn least_height(limits: Seq<Limit>) -> int
    decreases limits.len(),
{
    if limits.len() == 0 {
        0
    } else {
        least_height(limits.drop_last()) + match limits.last() {
            Limit::Length(n) => n as int,
            Limit::Min(n) => n as int,
        }
    }
}

/// Whether the row `r` is as high as `l` says.
pub open spec fn obeys(r: Area, l: Limit) -> bool {
    match l {
        Limit::Length(n) => r.height == n,
        Limit::Min(n) => r.height >= n,
    }
}

/// Whether the rows fill `a` from its top without gaps, each as high as its limit says, and
/// down to its bottom where one of them has no fixed height.
pub open spec fn stacked(rows: Seq<Area>, limits: Seq<Limit>, a: Area) -> bool {
    &&& rows.len() > 0 ==> rows[0].y == a.y
    &&& forall|i: int| 0 <= i < rows.len() ==> obeys(#[trigger] rows[i], limits[i])
    &&& forall|i: int| 0 < i < rows.len() ==> (#[trigger] rows[i]).y == rows[i - 1].y + rows[i - 1].height
    &&& (exists|i: int| 0 <= i < limits.len() && #[trigger] limits[i] is Min) ==> rows.last().y
        + rows.last().height == a.y + a.height
}

/// `ratatui::layout::Layout::split` of a vertical layout with a margin: one row for each limit,
/// as wide as the area inside the margin. Where the limits leave room, and no number is too
/// large for it, `Constraint::Length` gives a row just its height and `Constraint::Min` at
/// least its height; the rows are packed from the top, and rows with a least height take what
/// is left. Where there is not enough room the solver behind it decides how high the rows are
/// and where they begin: nothing is claimed of that. At most a hundred rows are asked for, so that
/// its rounding of the borders between rows is safe.
#[verifier::external_body]
fn split_rows(area: Area, margin: u16, limits: &Vec<Limit>) -> (rows: Vec<Area>)
    requires
        margin <= i16::MAX,
        limits@.len() <= 100,
    ensures
        rows@.len() == limits@.len(),
        forall|i: int|
            0 <= i < rows@.len() ==> (#[trigger] rows@[i]).x == inner(area, margin).x
                && rows@[i].width == inner(area, margin).width,
        least_height(limits@) <= inner(area, margin).height && inner(area, margin).height <= i16::MAX
            && on_screen(inner(area, margin)) ==> stacked(rows@, limits@, inner(area, margin)),
{
    let r = Rect { x: area.x, y: area.y, width: area.width, height: area.height };
    let c = limits.iter().map(|l| match l {
        Limit::Length(n) => Constraint::Length(*n),
        Limit::Min(n) => Constraint::Min(*n),
    });
    let l = Layout::default().direction(Direction::Vertical).margin(margin).constraints(c);
    let s = l.split(r);
    s.iter().map(|r| Area { x: r.x, y: r.y, width: r.width, height: r.height }).collect()
}

/// The three parts of the screen: the header, the list of occasions, the detail of one.
pub fn screen_rows(area: Area) -> (rows: (Area, Area, Area))
    ensures
        rows.0.x == area.x && rows.0.width == area.width,
        rows.1.x == area.x && rows.1.width == area.width,
        rows.2.x == area.x && rows.2.width == area.width,
        15 <= area.height <= i16::MAX && on_screen(area) ==> {
            &&& rows.0.y == area.y && rows.0.height == 3
            &&& rows.1.y == area.y + 3 && rows.1.height == area.height - 10
            &&& rows.2.y == area.y + area.height - 7 && rows.2.height == 7
        },
{
    let limits: Vec<Limit> = vec![Limit::Length(3), Limit::Min(5), Limit::Length(7)];
    let rows = split_rows(area, 0, &limits);
    proof {
        reveal_with_fuel(least_height, 4);
        assert(least_height(limits@) == 15);
        assert(limits@[1] is Min);
        assert(obeys(rows@[0], limits@[0]) || area.height < 15 || area.height > i16::MAX
            || !on_screen(area));
        assert(rows@.last() == rows@[2]);
    }
    (rows[0], rows[1], rows[2])
}

/// The three lines inside a popup that shows how work comes on: the gauge, the stage, and what
/// is being worked on.
pub fn popup_rows(area: Area) -> (rows: (Area, Area, Area))
    ensures
        rows.0.x == inner(area, 1).x && rows.0.width == inner(area, 1).width,
        rows.1.x == inner(area, 1).x && rows.1.width == inner(area, 1).width,
        rows.2.x == inner(area, 1).x && rows.2.width == inner(area, 1).width,
        area.width >= 2 && 6 <= area.height <= i16::MAX && on_screen(area) ==> {
            &&& rows.0.y == area.y + 1 && rows.0.height == 1
            &&& rows.1.y == area.y + 2 && rows.1.height == 1
            &&& rows.2.y == area.y + 3 && rows.2.height == 2
        },
{
    let limits: Vec<Limit> = vec![Limit::Length(1), Limit::Length(1), Limit::Length(2)];
    let rows = split_rows(area, 1, &limits);
    proof {
        reveal_with_fuel(least_height, 4);
        assert(least_height(limits@) == 4);
        assert(rows@.len() == 3);
        let a = rows@[0];
        let b = rows@[1];
        let c = rows@[2];
        if area.width >= 2 && 6 <= area.height <= i16::MAX && on_screen(area) {
            assert(obeys(a, limits@[0]) && obeys(b, limits@[1]) && obeys(c, limits@[2]));
        }
    }
    (rows[0], rows[1], rows[2])
}

/// The area of at most the given size in the middle of `a`.
pub open spec fn middle(a: Area, width: u16, height: u16) -> Area {
    let w = least(width as int, a.width as int);
    let h = least(height as int, a.height as int);
    Area {
        x: (a.x + (a.width - w) / 2) as u16,
        y: (a.y + (a.height - h) / 2) as u16,
        width: w as u16,
        height: h as u16,
    }
}

/// The area of at most the given size in the middle of `area`.
pub fn centered(area: Area, width: u16, height: u16) -> (r: Area)
    requires
        on_screen(area),
    ensures
        r == middle(area, width, height),
{
    let w: u16 = if width <= area.width {
        width
    } else {
        area.width
    };
    let h: u16 = if height <= area.height {
        height
    } else {
        area.height
    };
    rect(area.x + (area.width - w) / 2, area.y + (area.height - h) / 2, w, h)
}

/// Whether the far corner of an area can be counted.
pub fn fits_screen(area: Area) -> (r: bool)
    ensures
        r == on_screen(area),
{
    area.width <= u16::MAX - area.x && area.height <= u16::MAX - area.y
}

/// A popup never reaches out of the area it is in the middle of, and is no larger than asked.
pub proof fn lemma_centered_inside(a: Area, width: u16, height: u16)
    requires
        on_screen(a),
    ensures
        ({
            let r = middle(a, width, height);
            &&& a.x <= r.x && r.x + r.width <= a.x + a.width
            &&& a.y <= r.y && r.y + r.height <= a.y + a.height
            &&& r.width <= width && r.height <= height
        }),
{
}

/// A popup is as large as asked where there is room for that, else as large as the area, and as
/// far from the left as from the right and from the top as from the bottom, up to one cell.
pub proof fn lemma_centered_evenly(a: Area, width: u16, height: u16)
    requires
        on_screen(a),
    ensures
        ({
            let r = middle(a, width, height);
            let before = r.x - a.x;
            let behind = a.x + a.width - r.x - r.width;
            let above = r.y - a.y;
            let below = a.y + a.height - r.y - r.height;
            &&& r.width == width || (r.width == a.width && a.width < width)
            &&& r.height == height || (r.height == a.height && a.height < height)
            &&& 0 <= behind - before <= 1
            &&& 0 <= below - above <= 1
        }),
{
}

/// Inside a margin an area is smaller by it on each side.
pub proof fn lemma_margin(a: Area, margin: u16)
    requires
        on_screen(a),
        a.width >= 2 * margin,
        a.height >= 2 * margin,
    ensures
        ({
            let r = inner(a, margin);
            &&& r.x - a.x == margin && a.x + a.width - r.x - r.width == margin
            &&& r.y - a.y == margin && a.y + a.height - r.y - r.height == margin
        }),
{
}

} // verus!
