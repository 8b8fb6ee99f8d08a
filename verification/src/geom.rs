//! Wire segments, vias and routed nets, in integer picometres.
use vstd::prelude::*;

verus! {

/// A straight run of wire on one layer. Coordinates and width are in
/// picometres; a width of zero or less means that the layer's default holds.
#[derive(Clone, Debug)]
pub struct Segment {
    pub layer: String,
    pub x0: i64,
    pub y0: i64,
    pub x1: i64,
    pub y1: i64,
    pub width: i64,
}

/// What a [`Segment`] is.
#[verifier::ext_equal]
pub struct SegmentView {
    pub layer: Seq<char>,
    pub x0: int,
    pub y0: int,
    pub x1: int,
    pub y1: int,
    pub width: int,
}

/// A via: where it lands, the layer that declares it, and its name.
#[derive(Clone, Debug)]
pub struct ViaPoint {
    pub x: i64,
    pub y: i64,
    pub layer: String,
    pub name: String,
}

/// What a [`ViaPoint`] is.
#[verifier::ext_equal]
pub struct ViaView {
    pub x: int,
    pub y: int,
    pub layer: Seq<char>,
    pub name: Seq<char>,
}

/// A routed net: its pins as `(instance, pin)`, its wire, the number of its
/// vias, and where those of them land whose place is known.
#[derive(Clone, Debug)]
pub struct DefNet {
    pub name: String,
    pub pins: Vec<(String, String)>,
    pub segments: Vec<Segment>,
    pub vias: usize,
    pub via_points: Vec<ViaPoint>,
}

/// What a [`DefNet`] is.
#[verifier::ext_equal]
pub struct NetView {
    pub name: Seq<char>,
    pub pins: Seq<(Seq<char>, Seq<char>)>,
    pub segments: Seq<SegmentView>,
    pub vias: nat,
    pub via_points: Seq<ViaView>,
}

/// An axis-parallel rectangle, in picometres.
#[derive(Clone, Copy, Debug)]
pub struct Rect {
    pub x0: i128,
    pub y0: i128,
    pub x1: i128,
    pub y1: i128,
}

pub open spec fn min(a: int, b: int) -> int {
    if a <= b {
        a
    } else {
        b
    }
}

pub open spec fn max(a: int, b: int) -> int {
    if a >= b {
        a
    } else {
        b
    }
}

pub open spec fn dist(a: int, b: int) -> int {
    if a >= b {
        a - b
    } else {
        b - a
    }
}

impl View for Segment {
    type V = SegmentView;

    open spec fn view(&self) -> SegmentView {
        SegmentView {
            layer: self.layer@,
            x0: self.x0 as int,
            y0: self.y0 as int,
            x1: self.x1 as int,
            y1: self.y1 as int,
            width: self.width as int,
        }
    }
}

impl View for ViaPoint {
    type V = ViaView;

    open spec fn view(&self) -> ViaView {
        ViaView { x: self.x as int, y: self.y as int, layer: self.layer@, name: self.name@ }
    }
}

/// The views of a list of `(instance, pin)` pairs.
pub open spec fn pins_view(pins: Seq<(String, String)>) -> Seq<(Seq<char>, Seq<char>)> {
    Seq::new(pins.len(), |i: int| (pins[i].0@, pins[i].1@))
}

/// The views of a list of segments.
pub open spec fn segments_view(segments: Seq<Segment>) -> Seq<SegmentView> {
    Seq::new(segments.len(), |i: int| segments[i]@)
}

/// The views of a list of vias.
pub open spec fn vias_view(vias: Seq<ViaPoint>) -> Seq<ViaView> {
    Seq::new(vias.len(), |i: int| vias[i]@)
}

/// The views of a list of nets.
pub open spec fn nets_view(nets: Seq<DefNet>) -> Seq<NetView> {
    Seq::new(nets.len(), |i: int| nets[i]@)
}

impl View for DefNet {
    type V = NetView;

    open spec fn view(&self) -> NetView {
        NetView {
            name: self.name@,
            pins: pins_view(self.pins@),
            segments: segments_view(self.segments@),
            vias: self.vias as nat,
            via_points: vias_view(self.via_points@),
        }
    }
}

impl SegmentView {
    /// The length along the two axes.
    pub open spec fn len(self) -> int {
        dist(self.x0, self.x1) + dist(self.y0, self.y1)
    }

    pub open spec fn horizontal(self) -> bool {
        self.y0 == self.y1
    }

    pub open spec fn vertical(self) -> bool {
        self.x0 == self.x1
    }

    /// The segment's own width, or else the default one.
    pub open spec fn wide(self, default: int) -> int {
        if self.width > 0 {
            self.width
        } else {
            default
        }
    }

    /// The area that the wire covers: the run, widened to both sides by half
    /// its width.
    pub open spec fn footprint(self, default: int) -> (int, int, int, int) {
        let half = self.wide(default) / 2;
        let (xlo, xhi) = (min(self.x0, self.x1), max(self.x0, self.x1));
        let (ylo, yhi) = (min(self.y0, self.y1), max(self.y0, self.y1));
        if self.horizontal() {
            (xlo, ylo - half, xhi, yhi + half)
        } else if self.vertical() {
            (xlo - half, ylo, xhi + half, yhi)
        } else {
            (xlo, ylo, xhi, yhi)
        }
    }
}

impl Rect {
    pub open spec fn corners(self) -> (int, int, int, int) {
        (self.x0 as int, self.y0 as int, self.x1 as int, self.y1 as int)
    }
}

impl Segment {
    /// A wire of its layer's default width.
    pub fn wire(layer: &str, x0: i64, y0: i64, x1: i64, y1: i64) -> (r: Segment)
        ensures
            r@ == (SegmentView {
                layer: layer@,
                x0: x0 as int,
                y0: y0 as int,
                x1: x1 as int,
                y1: y1 as int,
                width: 0,
            }),
    {
        Segment { layer: layer.to_owned(), x0, y0, x1, y1, width: 0 }
    }

    /// The length along the two axes.
    pub fn length(&self) -> (r: i128)
        ensures
            r == self@.len(),
            0 <= r <= 0x2_0000_0000_0000_0000,
    {
        gap(self.x0, self.x1) + gap(self.y0, self.y1)
    }

    pub fn is_horizontal(&self) -> (r: bool)
        ensures
            r == self@.horizontal(),
    {
        self.y0 == self.y1
    }

    pub fn is_vertical(&self) -> (r: bool)
        ensures
            r == self@.vertical(),
    {
        self.x0 == self.x1
    }

    /// The segment's own width, or else the default one.
    pub fn wide(&self, default: i64) -> (r: i64)
        ensures
            r == self@.wide(default as int),
    {
        if self.width > 0 {
            self.width
        } else {
            default
        }
    }

    /// The area that the wire covers, for a default width that is not
    /// negative.
    pub fn footprint(&self, default: i64) -> (r: Rect)
        requires
            default >= 0,
        ensures
            r.corners() == self@.footprint(default as int),
    {
        let half: i128 = (self.wide(default) as u64 / 2) as i128;
        let xlo: i128 = low(self.x0, self.x1);
        let xhi: i128 = high(self.x0, self.x1);
        let ylo: i128 = low(self.y0, self.y1);
        let yhi: i128 = high(self.y0, self.y1);
        if self.is_horizontal() {
            Rect { x0: xlo, y0: ylo - half, x1: xhi, y1: yhi + half }
        } else if self.is_vertical() {
            Rect { x0: xlo - half, y0: ylo, x1: xhi + half, y1: yhi }
        } else {
            Rect { x0: xlo, y0: ylo, x1: xhi, y1: yhi }
        }
    }
}

/// The distance of two coordinates.
pub fn gap(a: i64, b: i64) -> (r: i128)
    ensures
        r == dist(a as int, b as int),
        0 <= r <= 0x1_0000_0000_0000_0000,
{
    if a >= b {
        a as i128 - b as i128
    } else {
        b as i128 - a as i128
    }
}

/// The lesser of two coordinates.
pub fn low(a: i64, b: i64) -> (r: i128)
    ensures
        r == min(a as int, b as int),
{
    if a <= b {
        a as i128
    } else {
        b as i128
    }
}

/// The greater of two coordinates.
pub fn high(a: i64, b: i64) -> (r: i128)
    ensures
        r == max(a as int, b as int),
{
    if a >= b {
        a as i128
    } else {
        b as i128
    }
}

/// A copy of a list of `(instance, pin)` pairs.
pub fn copy_pins(pins: &Vec<(String, String)>) -> (r: Vec<(String, String)>)
    ensures
        pins_view(r@) == pins_view(pins@),
{
    let mut out: Vec<(String, String)> = Vec::new();
    for i in 0..pins.len()
        invariant
            out@.len() == i,
            forall|j: int| 0 <= j < i ==> out@[j].0@ == pins@[j].0@ && out@[j].1@ == pins@[j].1@,
    {
        out.push((pins[i].0.clone(), pins[i].1.clone()));
    }
    assert(pins_view(out@) == pins_view(pins@));
    out
}

} // verus!
