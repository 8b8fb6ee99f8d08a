//! What the pins of placed cells are: their direction, and the capacitance with
//! which they load a net.
use crate::number;
use crate::number::Real;
use crate::strmap::StrMap;
use vstd::hash_map::StringHashMap;
use vstd::prelude::*;

verus! {

/// The direction of a pin.
#[derive(Clone, Copy, Debug, PartialEq, Eq, Structural)]
pub enum PinDir {
    Input,
    Output,
    Inout,
    Unknown,
}

/// A pin of a library cell: its direction, and its input capacitance (fF).
#[derive(Clone, Copy, Debug)]
pub struct LibPin<N: Real> {
    pub direction: PinDir,
    pub cap_ff: N,
}

/// The directions of the pins of cells, by cell and pin.
pub type CellDirs = StrMap<StrMap<PinDir>>;

/// The pins of library cells, by cell and pin.
pub type LibCells<N> = StrMap<StrMap<LibPin<N>>>;

/// Resolves a placed pin by its instance's cell: the direction from the cell
/// layouts, else from the library; the load from the library.
pub struct PinResolver<N: Real> {
    pub inst_cell: StringHashMap<String>,
    pub lef: Option<CellDirs>,
    pub lib: Option<LibCells<N>>,
}

/// The direction of a cell's pin in the cell layouts, if known there.
pub open spec fn layout_dir(lef: Option<CellDirs>, cell: Seq<char>, pin: Seq<char>) -> PinDir {
    match lef {
        Some(l) => if l@.contains_key(cell) && l@[cell]@.contains_key(pin) {
            l@[cell]@[pin]
        } else {
            PinDir::Unknown
        },
        None => PinDir::Unknown,
    }
}

/// A cell's pin in the library, if there is one.
pub open spec fn library_pin<N: Real>(
    lib: Option<LibCells<N>>,
    cell: Seq<char>,
    pin: Seq<char>,
) -> Option<LibPin<N>> {
    match lib {
        Some(l) => if l@.contains_key(cell) && l@[cell]@.contains_key(pin) {
            Some(l@[cell]@[pin])
        } else {
            None
        },
        None => None,
    }
}

impl<N: Real> PinResolver<N> {
    /// The direction and the load (fF) of a placed pin. A pin of an instance
    /// that is not placed is unknown and loads nothing; only inputs and
    /// bidirectional pins load.
    pub open spec fn hookup(self, inst: Seq<char>, pin: Seq<char>) -> (PinDir, N) {
        if !self.inst_cell@.contains_key(inst) {
            (PinDir::Unknown, number::zero())
        } else {
            let cell = self.inst_cell@[inst]@;
            let known = layout_dir(self.lef, cell, pin);
            let found = library_pin(self.lib, cell, pin);
            let dir = if known is Unknown {
                match found {
                    Some(p) => p.direction,
                    None => PinDir::Unknown,
                }
            } else {
                known
            };
            let cap = match found {
                Some(p) => if dir is Input || dir is Inout {
                    p.cap_ff
                } else {
                    number::zero()
                },
                None => number::zero(),
            };
            (dir, cap)
        }
    }

    /// A resolver for placed cells.
    pub fn from_loaded(
        comps: &Vec<(String, String)>,
        lef: Option<CellDirs>,
        lib: Option<LibCells<N>>,
    ) -> (r: Self)
        ensures
            r.inst_cell@.dom() =~= Set::new(
                |k: Seq<char>| exists|i: int| 0 <= i < comps@.len() && (#[trigger] comps@[i]).0@ == k,
            ),
            forall|k: Seq<char>, i: int|
                #![trigger r.inst_cell@[k], comps@[i]]
                0 <= i < comps@.len() && comps@[i].0@ == k && (forall|j: int|
                    i < j < comps@.len() ==> (#[trigger] comps@[j]).0@ != k)
                    ==> r.inst_cell@[k]@ == comps@[i].1@,
            r.lef == lef,
            r.lib == lib,
    {
        let mut inst_cell: StringHashMap<String> = StringHashMap::new();
        for i in 0..comps.len()
            invariant
                forall|k: Seq<char>| #[trigger]
                    inst_cell@.contains_key(k) <==> (exists|j: int|
                        0 <= j < i && (#[trigger] comps@[j]).0@ == k),
                forall|k: Seq<char>, j: int|
                    #![trigger inst_cell@[k], comps@[j]]
                    0 <= j < i && comps@[j].0@ == k && (forall|m: int|
                        j < m < i ==> (#[trigger] comps@[m]).0@ != k) ==> inst_cell@[k]@
                        == comps@[j].1@,
        {
            let ghost before = inst_cell@;
            inst_cell.insert(comps[i].0.clone(), comps[i].1.clone());
            assert forall|k: Seq<char>| #[trigger]
                inst_cell@.contains_key(k) <==> (exists|j: int|
                    0 <= j < i + 1 && (#[trigger] comps@[j]).0@ == k) by {
                if inst_cell@.contains_key(k) {
                    if k == comps@[i as int].0@ {
                    } else {
                        assert(before.contains_key(k));
                    }
                }
                if exists|j: int| 0 <= j < i + 1 && (#[trigger] comps@[j]).0@ == k {
                    let j = choose|j: int| 0 <= j < i + 1 && (#[trigger] comps@[j]).0@ == k;
                    if j < i {
                        assert(before.contains_key(k));
                    }
                }
            }
        }
        PinResolver { inst_cell, lef, lib }
    }

    /// Whether hookup can add anything: there are placed cells, and something
    /// is known of cells.
    pub fn active(&self) -> (r: bool)
        ensures
            r == (!self.inst_cell@.is_empty() && (self.lef is Some || self.lib is Some)),
    {
        !self.inst_cell.is_empty() && (self.lef.is_some() || self.lib.is_some())
    }

    /// The direction and the load (fF) of a placed pin.
    pub fn resolve(&self, inst: &str, pin: &str) -> (r: (PinDir, N))
        ensures
            r == self.hookup(inst@, pin@),
    {
        let cell: &str = match self.inst_cell.get(inst) {
            None => {
                return (PinDir::Unknown, number::zero_of());
            },
            Some(c) => c.as_str(),
        };
        let known: PinDir = match &self.lef {
            None => PinDir::Unknown,
            Some(l) => match l.get(cell) {
                None => PinDir::Unknown,
                Some(m) => match m.get(pin) {
                    None => PinDir::Unknown,
                    Some(d) => *d,
                },
            },
        };
        let found: Option<LibPin<N>> = match &self.lib {
            None => None,
            Some(l) => match l.get(cell) {
                None => None,
                Some(m) => match m.get(pin) {
                    None => None,
                    Some(p) => Some(*p),
                },
            },
        };
        let dir: PinDir = match known {
            PinDir::Unknown => match found {
                Some(p) => p.direction,
                None => PinDir::Unknown,
            },
            _ => known,
        };
        let cap: N = match found {
            Some(p) => match dir {
                PinDir::Input => p.cap_ff,
                PinDir::Inout => p.cap_ff,
                _ => number::zero_of(),
            },
            None => number::zero_of(),
        };
        (dir, cap)
    }
}

/// What the cell layouts know of a placed pin holds, whatever the library says of it
/// and whether or not there is a library.
pub proof fn the_cell_layout_decides<N: Real>(
    r: PinResolver<N>,
    inst: Seq<char>,
    pin: Seq<char>,
    layouts: CellDirs,
)
    requires
        r.inst_cell@.contains_key(inst),
        r.lef == Some(layouts),
        layouts@.contains_key(r.inst_cell@[inst]@),
        layouts@[r.inst_cell@[inst]@]@.contains_key(pin),
        layouts@[r.inst_cell@[inst]@]@[pin] != PinDir::Unknown,
    ensures
        r.hookup(inst, pin).0 == layouts@[r.inst_cell@[inst]@]@[pin],
{
}

/// Where the cell layouts do not know a placed pin, the library decides.
pub proof fn the_library_decides_what_layouts_leave_open<N: Real>(
    r: PinResolver<N>,
    inst: Seq<char>,
    pin: Seq<char>,
    cells: LibCells<N>,
)
    requires
        r.inst_cell@.contains_key(inst),
        r.lef matches Some(l) ==> (l@.contains_key(r.inst_cell@[inst]@)
            && l@[r.inst_cell@[inst]@]@.contains_key(pin) ==> l@[r.inst_cell@[inst]@]@[pin]
            == PinDir::Unknown),
        r.lib == Some(cells),
        cells@.contains_key(r.inst_cell@[inst]@),
        cells@[r.inst_cell@[inst]@]@.contains_key(pin),
    ensures
        r.hookup(inst, pin).0 == cells@[r.inst_cell@[inst]@]@[pin].direction,
{
}

/// A placed pin that neither the cell layouts nor the library hold, and any pin of an
/// instance that is not placed, has no known direction and loads nothing.
pub proof fn nothing_is_made_up_of_a_pin<N: Real>(
    r: PinResolver<N>,
    inst: Seq<char>,
    pin: Seq<char>,
)
    requires
        r.inst_cell@.contains_key(inst) ==> {
            let cell = r.inst_cell@[inst]@;
            &&& r.lef matches Some(l) ==> !(l@.contains_key(cell) && l@[cell]@.contains_key(pin))
            &&& r.lib matches Some(l) ==> !(l@.contains_key(cell) && l@[cell]@.contains_key(pin))
        },
    ensures
        r.hookup(inst, pin) == (PinDir::Unknown, number::zero::<N>()),
{
}

/// A placed pin loads its net with the capacitance that the library gives it, where
/// it is an input or goes both ways; any other pin, and one without an entry in the
/// library, loads nothing.
pub proof fn inputs_load_by_the_library<N: Real>(
    r: PinResolver<N>,
    inst: Seq<char>,
    pin: Seq<char>,
)
    ensures
        r.hookup(inst, pin).0 == PinDir::Output || r.hookup(inst, pin).0 == PinDir::Unknown
            ==> r.hookup(inst, pin).1 == number::zero::<N>(),
        r.lib is None ==> r.hookup(inst, pin).1 == number::zero::<N>(),
        r.inst_cell@.contains_key(inst) && (r.hookup(inst, pin).0 == PinDir::Input || r.hookup(
            inst,
            pin,
        ).0 == PinDir::Inout) ==> {
            let cell = r.inst_cell@[inst]@;
            r.lib matches Some(l) ==> (l@.contains_key(cell) && l@[cell]@.contains_key(pin)
                ==> r.hookup(inst, pin).1 == l@[cell]@[pin].cap_ff)
        },
{
}

} // verus!
