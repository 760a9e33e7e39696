//! The data tape: a row of byte cells and a pointer to the current one.

use vstd::prelude::*;

verus! {

/// The mathematical tape: its cells and the index of the current cell.
pub struct TapeState {
    pub cells: Seq<u8>,
    pub pointer: nat,
}

/// `n` cells that all hold zero.
pub open spec fn zeros(n: nat) -> Seq<u8> {
    Seq::new(n, |i: int| 0u8)
}

impl TapeState {
    /// The tape every run starts from: one cell holding zero, with the pointer on it.
    pub open spec fn fresh() -> TapeState {
        TapeState { cells: seq![0u8], pointer: 0 }
    }

    /// The pointer addresses an existing cell.
    pub open spec fn wf(self) -> bool {
        self.pointer < self.cells.len()
    }

    /// The byte in the current cell.
    pub open spec fn current(self) -> u8 {
        self.cells[self.pointer as int]
    }

    /// The pointer moved `n` cells to the right. Where that leaves the tape, the tape grows
    /// by zero cells up to and including the new current cell.
    pub open spec fn right(self, n: nat) -> TapeState {
        let target = self.pointer + n;
        TapeState {
            cells: if target < self.cells.len() {
                self.cells
            } else {
                self.cells + zeros((target + 1 - self.cells.len()) as nat)
            },
            pointer: target,
        }
    }

    /// The pointer moved `n` cells to the left, stopping at the first cell.
    pub open spec fn left(self, n: nat) -> TapeState {
        TapeState {
            cells: self.cells,
            pointer: if n <= self.pointer {
                (self.pointer - n) as nat
            } else {
                0
            },
        }
    }

    /// The current cell overwritten with `byte`.
    pub open spec fn store(self, byte: u8) -> TapeState {
        TapeState { cells: self.cells.update(self.pointer as int, byte), pointer: self.pointer }
    }

    /// The current cell increased by `n`, modulo 256.
    pub open spec fn plus(self, n: u8) -> TapeState {
        self.store(((self.current() + n) % 256) as u8)
    }

    /// The current cell decreased by `n`, modulo 256.
    pub open spec fn minus(self, n: u8) -> TapeState {
        self.store(((self.current() - n) % 256) as u8)
    }
}

/// Moving right in two strides is moving right by their sum.
pub proof fn lemma_right_right(t: TapeState, a: nat, b: nat)
    requires
        t.wf(),
    ensures
        t.right(a).right(b) == t.right(a + b),
        t.right(a).wf(),
{
    assert(t.right(a).right(b).cells =~= t.right(a + b).cells);
}

/// Moving left in two strides is moving left by their sum.
pub proof fn lemma_left_left(t: TapeState, a: nat, b: nat)
    ensures
        t.left(a).left(b) == t.left(a + b),
        t.wf() ==> t.left(a).wf(),
{
}

/// Increasing a cell twice is increasing it by the sum modulo 256.
pub proof fn lemma_plus_plus(t: TapeState, a: u8, b: u8)
    requires
        t.wf(),
    ensures
        t.plus(a).plus(b) == t.plus(((a + b) % 256) as u8),
        t.plus(a).wf(),
{
    assert(t.plus(a).plus(b).cells =~= t.plus(((a + b) % 256) as u8).cells);
}

/// Decreasing a cell twice is decreasing it by the sum modulo 256.
pub proof fn lemma_minus_minus(t: TapeState, a: u8, b: u8)
    requires
        t.wf(),
    ensures
        t.minus(a).minus(b) == t.minus(((a + b) % 256) as u8),
        t.minus(a).wf(),
{
    assert(t.minus(a).minus(b).cells =~= t.minus(((a + b) % 256) as u8).cells);
}

/// Moving by zero cells and changing a cell by zero leave a tape as it is.
pub proof fn lemma_neutral(t: TapeState)
    requires
        t.wf(),
    ensures
        t.right(0) == t,
        t.left(0) == t,
        t.plus(0) == t,
        t.minus(0) == t,
{
    assert(t.plus(0).cells =~= t.cells);
    assert(t.minus(0).cells =~= t.cells);
}

/// An increment wraps from 255 to 0, a decrement from 0 to 255, and a move to the left of
/// the first cell stays on the first cell.
pub proof fn lemma_edges(t: TapeState)
    requires
        t.wf(),
    ensures
        t.current() == 255 ==> t.plus(1).current() == 0,
        t.current() == 0 ==> t.minus(1).current() == 255,
        t.pointer == 0 ==> t.left(1).pointer == 0,
        t.right(1).cells.len() > t.pointer + 1,
        t.pointer + 1 == t.cells.len() ==> t.right(1).current() == 0,
{
}

/// The tape of a running program.
#[derive(Debug)]
pub struct Tape {
    cells: Vec<u8>,
    pointer: usize,
}

impl View for Tape {
    type V = TapeState;

    /// The cells and the pointer as mathematical values.
    closed spec fn view(&self) -> TapeState {
        TapeState { cells: self.cells@, pointer: self.pointer as nat }
    }
}

impl Tape {
    /// The pointer addresses an existing cell.
    #[verifier::type_invariant]
    closed spec fn inv(&self) -> bool {
        self.pointer < self.cells.len()
    }

    /// A tape of one zero cell.
    pub fn new() -> (tape: Tape)
        ensures
            tape@ == TapeState::fresh(),
    {
        let mut cells: Vec<u8> = Vec::new();
        cells.push(0u8);
        assert(cells@ =~= seq![0u8]);
        Tape { cells, pointer: 0 }
    }

    /// The index of the current cell.
    pub fn pointer(&self) -> (p: usize)
        ensures
            p == self@.pointer,
            self@.wf(),
    {
        proof {
            use_type_invariant(self);
        }
        self.pointer
    }

    /// All cells that exist so far.
    pub fn cells(&self) -> (cells: &Vec<u8>)
        ensures
            cells@ == self@.cells,
            self@.wf(),
    {
        proof {
            use_type_invariant(self);
        }
        &self.cells
    }

    /// The byte in the current cell.
    pub fn get(&self) -> (byte: u8)
        ensures
            byte == self@.current(),
    {
        proof {
            use_type_invariant(self);
        }
        self.cells[self.pointer]
    }

    /// The tape with the current cell overwritten.
    pub fn put(self, byte: u8) -> (tape: Tape)
        ensures
            tape@ == self@.store(byte),
    {
        proof {
            use_type_invariant(&self);
        }
        let Tape { cells, pointer } = self;
        let mut cells = cells;
        cells.set(pointer, byte);
        Tape { cells, pointer }
    }

    /// The tape with `n` added to the current cell, wrapping past 255.
    pub fn increment(self, n: u8) -> (tape: Tape)
        ensures
            tape@ == self@.plus(n),
    {
        let byte: u8 = self.get().wrapping_add(n);
        self.put(byte)
    }

    /// The tape with `n` subtracted from the current cell, wrapping below 0.
    pub fn decrement(self, n: u8) -> (tape: Tape)
        ensures
            tape@ == self@.minus(n),
    {
        let byte: u8 = self.get().wrapping_sub(n);
        self.put(byte)
    }

    /// The tape with the pointer moved `n` cells to the left, or to the first cell if that
    /// is nearer.
    pub fn move_left(self, n: usize) -> (tape: Tape)
        ensures
            tape@ == self@.left(n as nat),
    {
        proof {
            use_type_invariant(&self);
        }
        let Tape { cells, pointer } = self;
        if n <= pointer {
            Tape { cells, pointer: pointer - n }
        } else {
            Tape { cells, pointer: 0 }
        }
    }

    /// The tape with the pointer moved `n` cells to the right, grown with zero cells as far
    /// as the new current cell.
    pub fn move_right(self, n: usize) -> (tape: Tape)
        ensures
            tape@ == self@.right(n as nat),
    {
        proof {
            use_type_invariant(&self);
        }
        let Tape { cells, pointer } = self;
        let mut cells = cells;
        let ghost before = cells@;
        let room: usize = cells.len() - 1 - pointer;
        if n <= room {
            Tape { cells, pointer: pointer + n }
        } else {
            let missing: usize = n - room;
            let mut grown: usize = 0;
            while grown < missing
                invariant
                    grown <= missing,
                    cells@ == before + zeros(grown as nat),
                decreases missing - grown,
            {
                cells.push(0u8);
                grown = grown + 1;
                assert(cells@ =~= before + zeros(grown as nat));
            }
            let last: usize = cells.len() - 1;
            Tape { cells, pointer: last }
        }
    }
}

} // verus!
