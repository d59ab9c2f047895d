//! The cell store: one worksheet is a sparse grid of cells addressed by
//! (row, column), with a monotone bounding box.
use vstd::prelude::*;

verus! {

/// One cell: its displayed text, the formula that produced it (absent for
/// direct writes), and the time of the last write.
pub struct Cell {
    pub value: Vec<char>,
    pub formula: Option<Vec<char>>,
    pub last_written: u64,
}

pub struct CellEntry {
    pub row: u32,
    pub col: u32,
    pub cell: Cell,
}

/// A named sparse grid of cells.
pub struct Worksheet {
    pub name: Vec<char>,
    pub cells: Vec<CellEntry>,
    pub max_row: u32,
    pub max_col: u32,
}

/// What a cell holds, at the level contracts speak of: value text,
/// formula text, write time.
pub open spec fn cell_view(c: Cell) -> (Seq<char>, Option<Seq<char>>, u64) {
    (c.value@, match c.formula {
        Some(f) => Some(f@),
        None => None,
    }, c.last_written)
}

pub open spec fn opt_view(o: Option<Vec<char>>) -> Option<Seq<char>> {
    match o {
        Some(f) => Some(f@),
        None => None,
    }
}

/// The first entry for an address, if any.
pub open spec fn lookup_cell(cells: Seq<CellEntry>, r: u32, c: u32) -> Option<
    (Seq<char>, Option<Seq<char>>, u64),
>
    decreases cells.len(),
{
    if cells.len() == 0 {
        None
    } else if cells[0].row == r && cells[0].col == c {
        Some(cell_view(cells[0].cell))
    } else {
        lookup_cell(cells.subrange(1, cells.len() as int), r, c)
    }
}

/// Every address is stored at most once, and the bounding box covers
/// every stored address.
pub open spec fn ws_wf(ws: Worksheet) -> bool {
    (forall|i: int, j: int|
        0 <= i < j < ws.cells@.len() ==> !(#[trigger] ws.cells@[i].row == #[trigger] ws.cells@[j].row
            && ws.cells@[i].col == ws.cells@[j].col)) && (forall|i: int|
        0 <= i < ws.cells@.len() ==> #[trigger] ws.cells@[i].row <= ws.max_row
            && ws.cells@[i].col <= ws.max_col)
}

/// Replacing the first matching entry rewrites that address and no other.
proof fn lemma_lookup_update(s: Seq<CellEntry>, i: int, e: CellEntry, rr: u32, cc: u32)
    requires
        0 <= i < s.len(),
        s[i].row == e.row && s[i].col == e.col,
        forall|j: int| 0 <= j < i ==> !(#[trigger] s[j].row == e.row && s[j].col == e.col),
    ensures
        lookup_cell(s.update(i, e), rr, cc) == (if rr == e.row && cc == e.col {
            Some(cell_view(e.cell))
        } else {
            lookup_cell(s, rr, cc)
        }),
    decreases i,
{
    let s2 = s.update(i, e);
    if i == 0 {
        if !(rr == e.row && cc == e.col) {
            assert(s2.subrange(1, s2.len() as int) =~= s.subrange(1, s.len() as int));
        }
    } else {
        assert(s2[0] == s[0]);
        if rr == s[0].row && cc == s[0].col {
        } else {
            assert(s2.subrange(1, s2.len() as int) =~= s.subrange(1, s.len() as int).update(
                i - 1,
                e,
            ));
            lemma_lookup_update(s.subrange(1, s.len() as int), i - 1, e, rr, cc);
        }
    }
}

/// Appending an entry for a fresh address adds that address and no other.
proof fn lemma_lookup_push(s: Seq<CellEntry>, e: CellEntry, rr: u32, cc: u32)
    requires
        forall|j: int| 0 <= j < s.len() ==> !(#[trigger] s[j].row == e.row && s[j].col == e.col),
    ensures
        lookup_cell(s + seq![e], rr, cc) == (if rr == e.row && cc == e.col {
            Some(cell_view(e.cell))
        } else {
            lookup_cell(s, rr, cc)
        }),
    decreases s.len(),
{
    let s2 = s + seq![e];
    if s.len() == 0 {
        assert(s2[0] == e);
        if !(rr == e.row && cc == e.col) {
            let t = s2.subrange(1, s2.len() as int);
            assert(t =~= Seq::<CellEntry>::empty());
            assert(t.len() == 0);
            assert(lookup_cell(t, rr, cc) is None);
            assert(!(s2[0].row == rr && s2[0].col == cc));
            assert(lookup_cell(s2, rr, cc) == lookup_cell(t, rr, cc));
        }
    } else {
        assert(s2[0] == s[0]);
        if rr == s[0].row && cc == s[0].col {
        } else {
            assert(s2.subrange(1, s2.len() as int) =~= s.subrange(1, s.len() as int) + seq![e]);
            lemma_lookup_push(s.subrange(1, s.len() as int), e, rr, cc);
        }
    }
}

impl Worksheet {
    /// An empty worksheet under the given name.
    pub fn new(name: Vec<char>) -> (ws: Worksheet)
        ensures
            ws_wf(ws),
            ws.name@ == name@,
            ws.cells@.len() == 0,
            ws.max_row == 0 && ws.max_col == 0,
    {
        Worksheet { name, cells: Vec::new(), max_row: 0, max_col: 0 }
    }

    /// The stored cell for an address, if the address was ever written.
    pub fn get_cell(&self, row: u32, col: u32) -> (r: Option<&Cell>)
        ensures
            match r {
                Some(c) => lookup_cell(self.cells@, row, col) == Some(cell_view(*c)),
                None => lookup_cell(self.cells@, row, col) is None,
            },
    {
        let mut i: usize = 0;
        proof {
            assert(self.cells@.subrange(0, self.cells@.len() as int) =~= self.cells@);
        }
        while i < self.cells.len()
            invariant
                0 <= i <= self.cells@.len(),
                lookup_cell(self.cells@, row, col) == lookup_cell(
                    self.cells@.subrange(i as int, self.cells@.len() as int),
                    row,
                    col,
                ),
            decreases self.cells@.len() - i,
        {
            proof {
                let t = self.cells@.subrange(i as int, self.cells@.len() as int);
                assert(t[0] == self.cells@[i as int]);
                assert(t.subrange(1, t.len() as int) =~= self.cells@.subrange(
                    i + 1,
                    self.cells@.len() as int,
                ));
            }
            if self.cells[i].row == row && self.cells[i].col == col {
                return Some(&self.cells[i].cell);
            }
            i = i + 1;
        }
        None
    }

    /// Writes an address: inserts or overwrites the cell, and widens the
    /// bounding box to cover it.
    pub fn set_cell(&mut self, row: u32, col: u32, value: Vec<char>, formula: Option<Vec<char>>, now: u64)
        requires
            ws_wf(*old(self)),
        ensures
            ws_wf(*final(self)),
            final(self).name@ == old(self).name@,
            lookup_cell(final(self).cells@, row, col) == Some((value@, opt_view(formula), now)),
            forall|r2: u32, c2: u32|
                !(r2 == row && c2 == col) ==> lookup_cell(final(self).cells@, r2, c2)
                    == lookup_cell(old(self).cells@, r2, c2),
            final(self).max_row == (if row > old(self).max_row {
                row
            } else {
                old(self).max_row
            }),
            final(self).max_col == (if col > old(self).max_col {
                col
            } else {
                old(self).max_col
            }),
            final(self).cells@.len() == (if lookup_cell(old(self).cells@, row, col) is Some {
                old(self).cells@.len()
            } else {
                old(self).cells@.len() + 1
            }),
    {
        let ghost vv = value@;
        let ghost fv = opt_view(formula);
        let entry = CellEntry { row, col, cell: Cell { value, formula, last_written: now } };
        let ghost s0 = self.cells@;
        proof {
            lemma_lookup_some(s0, row, col);
        }
        match find_idx(&self.cells, row, col) {
            Some(i) => {
                self.cells.remove(i);
                self.cells.insert(i, entry);
                proof {
                    assert(self.cells@ =~= s0.update(i as int, self.cells@[i as int]));
                    let ghost e = self.cells@[i as int];
                    assert(cell_view(e.cell) == (vv, fv, now));
                    assert forall|r2: u32, c2: u32|
                        lookup_cell(self.cells@, r2, c2) == (if r2 == row && c2 == col {
                            Some((vv, fv, now))
                        } else {
                            lookup_cell(s0, r2, c2)
                        }) by {
                        lemma_lookup_update(s0, i as int, e, r2, c2);
                    }
                    assert(forall|j: int|
                        0 <= j < self.cells@.len() ==> #[trigger] self.cells@[j].row == s0[j].row
                            && self.cells@[j].col == s0[j].col);
                }
            },
            None => {
                self.cells.push(entry);
                proof {
                    let ghost e = self.cells@.last();
                    assert(self.cells@ =~= s0 + seq![e]);
                    assert(cell_view(e.cell) == (vv, fv, now));
                    assert forall|r2: u32, c2: u32|
                        lookup_cell(self.cells@, r2, c2) == (if r2 == row && c2 == col {
                            Some((vv, fv, now))
                        } else {
                            lookup_cell(s0, r2, c2)
                        }) by {
                        lemma_lookup_push(s0, e, r2, c2);
                    }
                }
            },
        }
        if row > self.max_row {
            self.max_row = row;
        }
        if col > self.max_col {
            self.max_col = col;
        }
    }
}

/// The index of the first entry for an address.
fn find_idx(cells: &Vec<CellEntry>, row: u32, col: u32) -> (r: Option<usize>)
    ensures
        match r {
            Some(i) => i < cells@.len() && cells@[i as int].row == row && cells@[i as int].col
                == col && (forall|j: int|
                0 <= j < i ==> !(#[trigger] cells@[j].row == row && cells@[j].col == col)),
            None => forall|j: int|
                0 <= j < cells@.len() ==> !(#[trigger] cells@[j].row == row && cells@[j].col
                    == col),
        },
{
    let mut i: usize = 0;
    while i < cells.len()
        invariant
            0 <= i <= cells@.len(),
            forall|j: int| 0 <= j < i ==> !(#[trigger] cells@[j].row == row && cells@[j].col == col),
        decreases cells@.len() - i,
    {
        if cells[i].row == row && cells[i].col == col {
            return Some(i);
        }
        i = i + 1;
    }
    None
}

/// An address is stored exactly when some entry carries it.
proof fn lemma_lookup_some(s: Seq<CellEntry>, r: u32, c: u32)
    ensures
        (lookup_cell(s, r, c) is Some) <==> exists|j: int|
            0 <= j < s.len() && #[trigger] s[j].row == r && s[j].col == c,
    decreases s.len(),
{
    if s.len() > 0 {
        lemma_lookup_some(s.subrange(1, s.len() as int), r, c);
        let t = s.subrange(1, s.len() as int);
        if !(s[0].row == r && s[0].col == c) {
            if exists|j: int| 0 <= j < s.len() && #[trigger] s[j].row == r && s[j].col == c {
                let j = choose|j: int| 0 <= j < s.len() && #[trigger] s[j].row == r && s[j].col == c;
                assert(t[j - 1].row == r && t[j - 1].col == c);
            }
            if exists|j: int| 0 <= j < t.len() && #[trigger] t[j].row == r && t[j].col == c {
                let j = choose|j: int| 0 <= j < t.len() && #[trigger] t[j].row == r && t[j].col == c;
                assert(s[j + 1].row == r && s[j + 1].col == c);
            }
        }
    }
}

} // verus!
