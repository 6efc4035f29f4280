//! The tape: a fixed number of byte cells and a pointer to one of them.

use vstd::prelude::*;

use crate::syntax::Dir;

verus! {

/// Number of cells of the tape.
pub const MEM_SIZE: usize = 65_536;

/// The tape as a mathematical value: its cells and the index of the current
/// one.
pub struct Tape {
    pub cells: Seq<u8>,
    pub ptr: int,
}

/// The pointer would leave the tape.
#[derive(Clone, Copy, PartialEq, Eq, Debug, Structural)]
pub struct OutOfBounds;

/// The value of a cell after `delta` is added to it, modulo 256.
pub open spec fn wrap(value: int) -> u8 {
    (value % 256) as u8
}

/// The index `steps` cells away from `ptr` in direction `dir`.
pub open spec fn offset(ptr: int, dir: Dir, steps: int) -> int {
    match dir {
        Dir::Left => ptr - steps,
        Dir::Right => ptr + steps,
    }
}

impl Tape {
    /// A tape has `MEM_SIZE` cells and points at one of them.
    pub open spec fn wf(self) -> bool {
        &&& self.cells.len() == MEM_SIZE
        &&& 0 <= self.ptr < MEM_SIZE
    }

    /// The tape at the start of a run: all cells zero, the pointer at the
    /// first cell.
    pub open spec fn blank() -> Tape {
        Tape { cells: Seq::new(MEM_SIZE as nat, |i: int| 0u8), ptr: 0 }
    }

    /// Whether `index` names a cell of the tape.
    pub open spec fn in_bounds(self, index: int) -> bool {
        0 <= index < self.cells.len()
    }

    /// The value of the current cell.
    pub open spec fn cur(self) -> u8 {
        self.cells[self.ptr]
    }

    /// The tape with the cell at `index` set to `value`.
    pub open spec fn store(self, index: int, value: u8) -> Tape {
        Tape { cells: self.cells.update(index, value), ptr: self.ptr }
    }

    /// The tape with the current cell set to `value`.
    pub open spec fn set(self, value: u8) -> Tape {
        self.store(self.ptr, value)
    }

    /// The tape with `delta` added to the current cell, modulo 256.
    pub open spec fn bump(self, delta: int) -> Tape {
        self.set(wrap(self.cur() + delta))
    }

    /// The tape with the pointer at `index`.
    pub open spec fn at(self, index: int) -> Tape {
        Tape { cells: self.cells, ptr: index }
    }

    /// The tape after the pointer moved `steps` cells, if it stays on the
    /// tape.
    pub open spec fn shift(self, dir: Dir, steps: int) -> Option<Tape> {
        if self.in_bounds(offset(self.ptr, dir, steps)) {
            Some(self.at(offset(self.ptr, dir, steps)))
        } else {
            None
        }
    }

    /// The tape after the pointer moved in direction `dir`, one cell at a
    /// time, to the nearest cell that holds zero; `None` if it leaves the
    /// tape first.
    pub open spec fn scan(self, dir: Dir) -> Option<Tape>
        decreases
            match dir {
                Dir::Left => self.ptr + 1,
                Dir::Right => self.cells.len() - self.ptr,
            },
    {
        if !self.in_bounds(self.ptr) {
            None
        } else if self.cur() == 0 {
            Some(self)
        } else {
            self.at(offset(self.ptr, dir, 1)).scan(dir)
        }
    }

    /// The tape after the current cell times `factor` was added, modulo 256,
    /// to the cell `steps` away, if there is such a cell.
    pub open spec fn multiply(self, dir: Dir, steps: int, factor: int) -> Option<Tape> {
        let target = offset(self.ptr, dir, steps);
        if self.in_bounds(target) {
            Some(self.store(target, wrap(self.cells[target] + self.cur() * factor)))
        } else {
            None
        }
    }

    /// The tape after the current cell was added, modulo 256, to the cell
    /// `steps` away, if there is such a cell.
    pub open spec fn copy(self, dir: Dir, steps: int) -> Option<Tape> {
        self.multiply(dir, steps, 1)
    }
}

/// The tape of the evaluator.
pub struct Mem {
    cells: Vec<u8>,
    ptr: usize,
}

impl View for Mem {
    type V = Tape;

    closed spec fn view(&self) -> Tape {
        Tape { cells: self.cells@, ptr: self.ptr as int }
    }
}

impl Mem {
    #[verifier::type_invariant]
    closed spec fn inv(&self) -> bool {
        &&& self.cells@.len() == MEM_SIZE
        &&& self.ptr < MEM_SIZE
    }

    /// Creates a tape of zeros with the pointer at the first cell.
    pub fn new() -> (mem: Mem)
        ensures
            mem@ == Tape::blank(),
    {
        let mut cells: Vec<u8> = Vec::new();
        let mut i: usize = 0;
        while i < MEM_SIZE
            invariant
                i <= MEM_SIZE,
                cells@.len() == i,
                forall|k: int| 0 <= k < i ==> cells@[k] == 0u8,
            decreases MEM_SIZE - i,
        {
            cells.push(0u8);
            i = i + 1;
        }
        assert(cells@ =~= Tape::blank().cells);
        Mem { cells, ptr: 0 }
    }

    /// Returns the value of the current cell.
    pub fn get(&self) -> (value: u8)
        ensures
            value == self@.cur(),
    {
        proof {
            use_type_invariant(self);
        }
        self.cells[self.ptr]
    }

    /// Returns the index of the current cell.
    pub fn position(&self) -> (ptr: usize)
        ensures
            ptr == self@.ptr,
            self@.wf(),
    {
        proof {
            use_type_invariant(self);
        }
        self.ptr
    }

    /// Sets the current cell to `value`.
    pub fn set(&mut self, value: u8)
        ensures
            final(self)@ == old(self)@.set(value),
    {
        proof {
            use_type_invariant(&*self);
        }
        self.cells[self.ptr] = value;
    }

    /// Adds `value` to the current cell, modulo 256.
    pub fn add(&mut self, value: u8)
        ensures
            final(self)@ == old(self)@.bump(value as int),
    {
        proof {
            use_type_invariant(&*self);
        }
        let sum = self.cells[self.ptr].wrapping_add(value);
        self.cells[self.ptr] = sum;
    }

    /// Subtracts `value` from the current cell, modulo 256.
    pub fn subtract(&mut self, value: u8)
        ensures
            final(self)@ == old(self)@.bump(-(value as int)),
    {
        proof {
            use_type_invariant(&*self);
        }
        let diff = self.cells[self.ptr].wrapping_sub(value);
        self.cells[self.ptr] = diff;
    }

    /// Moves the pointer `steps` cells in direction `dir`. A move that would
    /// leave the tape is refused and changes nothing.
    pub fn shift(&mut self, dir: Dir, steps: usize) -> (r: Result<(), OutOfBounds>)
        ensures
            r is Ok <==> old(self)@.shift(dir, steps as int) is Some,
            r is Ok ==> Some(final(self)@) == old(self)@.shift(dir, steps as int),
            r is Err ==> final(self)@ == old(self)@,
    {
        proof {
            use_type_invariant(&*self);
        }
        match self.target(dir, steps) {
            Some(index) => {
                self.ptr = index;
                Ok(())
            },
            None => Err(OutOfBounds),
        }
    }

    /// Sets the current cell to zero.
    pub fn clear(&mut self)
        ensures
            final(self)@ == old(self)@.set(0),
    {
        self.set(0);
    }

    /// Moves the pointer in direction `dir`, one cell at a time, until the
    /// current cell is zero. A scan that would leave the tape is refused and
    /// changes nothing.
    pub fn scan(&mut self, dir: Dir) -> (r: Result<(), OutOfBounds>)
        ensures
            r is Ok <==> old(self)@.scan(dir) is Some,
            r is Ok ==> Some(final(self)@) == old(self)@.scan(dir),
            r is Err ==> final(self)@ == old(self)@,
    {
        proof {
            use_type_invariant(&*self);
        }
        let start = self.ptr;
        while self.cells[self.ptr] != 0
            invariant
                self.cells@.len() == MEM_SIZE,
                self.ptr < MEM_SIZE,
                start < MEM_SIZE,
                start == old(self).ptr,
                self.cells@ == old(self).cells@,
                self@.scan(dir) == old(self)@.scan(dir),
            decreases
                match dir {
                    Dir::Left => self.ptr + 1,
                    Dir::Right => MEM_SIZE - self.ptr,
                },
        {
            match self.target(dir, 1) {
                Some(index) => {
                    self.ptr = index;
                },
                None => {
                    proof {
                        let next = self@.at(offset(self@.ptr, dir, 1));
                        assert(next.scan(dir) is None);
                    }
                    self.ptr = start;
                    return Err(OutOfBounds);
                },
            }
        }
        Ok(())
    }

    /// Adds the current cell, modulo 256, to the cell `steps` away in
    /// direction `dir`. Where there is no such cell, nothing changes.
    pub fn copy(&mut self, dir: Dir, steps: usize) -> (r: Result<(), OutOfBounds>)
        ensures
            r is Ok <==> old(self)@.copy(dir, steps as int) is Some,
            r is Ok ==> Some(final(self)@) == old(self)@.copy(dir, steps as int),
            r is Err ==> final(self)@ == old(self)@,
    {
        self.multiply(dir, steps, 1)
    }

    /// Adds the current cell times `factor`, modulo 256, to the cell `steps`
    /// away in direction `dir`. Where there is no such cell, nothing changes.
    pub fn multiply(&mut self, dir: Dir, steps: usize, factor: i8) -> (r: Result<(), OutOfBounds>)
        ensures
            r is Ok <==> old(self)@.multiply(dir, steps as int, factor as int) is Some,
            r is Ok ==> Some(final(self)@) == old(self)@.multiply(
                dir,
                steps as int,
                factor as int,
            ),
            r is Err ==> final(self)@ == old(self)@,
    {
        proof {
            use_type_invariant(&*self);
        }
        match self.target(dir, steps) {
            Some(index) => {
                let value = scaled_sum(self.cells[index], self.cells[self.ptr], factor);
                self.cells[index] = value;
                Ok(())
            },
            None => Err(OutOfBounds),
        }
    }

    /// The index `steps` cells away from the pointer, if it is on the tape.
    fn target(&self, dir: Dir, steps: usize) -> (r: Option<usize>)
        ensures
            r is Some <==> self@.in_bounds(offset(self@.ptr, dir, steps as int)),
            r is Some ==> r->0 == offset(self@.ptr, dir, steps as int),
    {
        proof {
            use_type_invariant(self);
        }
        match dir {
            Dir::Left => if steps <= self.ptr {
                Some(self.ptr - steps)
            } else {
                None
            },
            Dir::Right => if steps < MEM_SIZE - self.ptr {
                Some(self.ptr + steps)
            } else {
                None
            },
        }
    }
}

/// Computes `target + source * factor` modulo 256.
fn scaled_sum(target: u8, source: u8, factor: i8) -> (sum: u8)
    ensures
        sum == wrap(target + source * factor),
{
    assert(-128 * 255 <= source * factor <= 127 * 255) by (nonlinear_arith)
        requires
            0 <= source <= 255,
            -128 <= factor <= 127,
    ;
    let product: i32 = (source as i32) * (factor as i32);
    let shifted: i32 = (target as i32) + product + 32768;
    let reduced: i32 = shifted % 256;
    assert(reduced == (target + source * factor) % 256);
    reduced as u8
}

} // verus!
