//! A rectangular map of booleans that keeps running counts of its true and false cells.
use vstd::prelude::*;
use crate::geometry::{Dir, Location, Nearby};

verus! {

/// Number of entries of `s` equal to `v`.
pub open spec fn count_of(s: Seq<bool>, v: bool) -> nat
    decreases s.len(),
{
    if s.len() == 0 {
        0
    } else {
        count_of(s.drop_last(), v) + if s.last() == v {
            1nat
        } else {
            0nat
        }
    }
}

/// Appending one entry adds one to its own count and nothing to the other.
pub proof fn lemma_count_push(s: Seq<bool>, b: bool, v: bool)
    ensures
        count_of(s.push(b), v) == count_of(s, v) + if b == v {
            1nat
        } else {
            0nat
        },
{
    assert(s.push(b).drop_last() =~= s);
}

/// The prefix of length `i + 1` counts the entry at `i` on top of the prefix of length `i`.
pub proof fn lemma_count_take_step(s: Seq<bool>, i: int, v: bool)
    requires
        0 <= i < s.len(),
    ensures
        count_of(s.take(i + 1), v) == count_of(s.take(i), v) + if s[i] == v {
            1nat
        } else {
            0nat
        },
{
    assert(s.take(i + 1).drop_last() =~= s.take(i));
}

/// Every entry is counted under exactly one of the two values.
pub proof fn lemma_count_total(s: Seq<bool>)
    ensures
        count_of(s, true) + count_of(s, false) == s.len(),
    decreases s.len(),
{
    if s.len() > 0 {
        lemma_count_total(s.drop_last());
    }
}

/// A longer prefix never counts fewer entries.
pub proof fn lemma_count_take_monotone(s: Seq<bool>, i: int, j: int, v: bool)
    requires
        0 <= i <= j <= s.len(),
    ensures
        count_of(s.take(i), v) <= count_of(s.take(j), v),
    decreases j - i,
{
    if i < j {
        lemma_count_take_step(s, j - 1, v);
        lemma_count_take_monotone(s, i, j - 1, v);
    }
}

/// Overwriting one entry moves it from the count of its old value to that of its new one.
pub proof fn lemma_count_update(s: Seq<bool>, i: int, b: bool, v: bool)
    requires
        0 <= i < s.len(),
    ensures
        count_of(s.update(i, b), v) + (if s[i] == v {
            1nat
        } else {
            0nat
        }) == count_of(s, v) + (if b == v {
            1nat
        } else {
            0nat
        }),
    decreases s.len(),
{
    let u = s.update(i, b);
    if i == s.len() - 1 {
        assert(u.drop_last() =~= s.drop_last());
    } else {
        assert(u.drop_last() =~= s.drop_last().update(i, b));
        lemma_count_update(s.drop_last(), i, b, v);
    }
}

/// When every entry equals `b`, all of them count for `b` and none for `!b`.
pub proof fn lemma_count_constant(s: Seq<bool>, b: bool)
    requires
        forall|i: int| 0 <= i < s.len() ==> s[i] == b,
    ensures
        count_of(s, b) == s.len(),
        count_of(s, !b) == 0,
    decreases s.len(),
{
    if s.len() > 0 {
        lemma_count_constant(s.drop_last(), b);
    }
}

/// The first position from `p` on that holds `want` and has exactly `k` such
/// positions before it, or the length of `s` when there is none.
pub open spec fn nth_from(s: Seq<bool>, want: bool, k: nat, p: int) -> int
    decreases s.len() - p,
{
    if p < 0 || p >= s.len() {
        s.len() as int
    } else if s[p] == want && count_of(s.take(p), want) == k {
        p
    } else {
        nth_from(s, want, k, p + 1)
    }
}

/// The cells of a 25 by 25 table read row by row; a nonzero byte is true.
pub open spec fn map_cells(map: [[u8; 25]; 25]) -> Seq<bool> {
    Seq::new(625, |i: int| map@[i / 25]@[i % 25] != 0)
}

/// A map with one boolean per cell, stored row by row at `y * width + x`,
/// with running counts of its true and false cells.
pub struct BoolMap {
    values: Vec<bool>,
    width: i32,
    height: i32,
    false_count: u32,
    true_count: u32,
}

/// Largest number of cells a map may hold.
pub const MAX_CELLS: i32 = 0x7fff_ffff;

impl BoolMap {
    /// The cells, row by row.
    pub closed spec fn cells(&self) -> Seq<bool> {
        self.values@
    }

    /// Number of columns.
    pub closed spec fn w(&self) -> int {
        self.width as int
    }

    /// Number of rows.
    pub closed spec fn h(&self) -> int {
        self.height as int
    }

    /// The maintained count of true cells.
    pub closed spec fn trues(&self) -> int {
        self.true_count as int
    }

    /// The maintained count of false cells.
    pub closed spec fn falses(&self) -> int {
        self.false_count as int
    }

    /// The map's shape is positive, its cells fill it exactly, and both counters are exact.
    pub open spec fn wf(&self) -> bool {
        &&& self.w() >= 1
        &&& self.h() >= 1
        &&& self.w() <= MAX_CELLS
        &&& self.h() <= MAX_CELLS
        &&& self.w() * self.h() <= MAX_CELLS
        &&& self.cells().len() == self.w() * self.h()
        &&& self.trues() == count_of(self.cells(), true)
        &&& self.falses() == count_of(self.cells(), false)
    }

    /// Whether `loc` lies on the map.
    pub open spec fn contains(&self, loc: Location) -> bool {
        0 <= loc.x < self.w() && 0 <= loc.y < self.h()
    }

    /// Position of `loc` in the row-by-row order.
    pub open spec fn idx(&self, loc: Location) -> int {
        loc.y * self.w() + loc.x
    }

    /// The location at position `i` of the row-by-row order.
    pub open spec fn loc_of(&self, i: int) -> Location {
        Location { x: (i % self.w()) as i32, y: (i / self.w()) as i32 }
    }

    /// The value at `loc`.
    pub open spec fn at(&self, loc: Location) -> bool {
        self.cells()[self.idx(loc)]
    }

    /// Whether `loc` and its four neighbours all lie on the map.
    pub open spec fn contains_around(&self, loc: Location) -> bool {
        &&& self.contains(loc)
        &&& 1 <= loc.x < self.w() - 1
        &&& 1 <= loc.y < self.h() - 1
    }

    /// A cell on the map has a position inside the cell sequence.
    pub proof fn lemma_idx_in_range(&self, loc: Location)
        requires
            self.wf(),
            self.contains(loc),
        ensures
            0 <= self.idx(loc) < self.cells().len(),
            self.loc_of(self.idx(loc)) == loc,
    {
        let w = self.w();
        let x = loc.x as int;
        let y = loc.y as int;
        assert(0 <= y * w + x < w * self.h()) by (nonlinear_arith)
            requires
                0 <= x < w,
                0 <= y < self.h(),
        ;
        vstd::arithmetic::div_mod::lemma_fundamental_div_mod_converse(y * w + x, w, y, x);
    }

    /// Each position of the cell sequence is the position of a cell on the map.
    pub proof fn lemma_loc_of_in_range(&self, i: int)
        requires
            self.wf(),
            0 <= i < self.cells().len(),
        ensures
            self.contains(self.loc_of(i)),
            self.idx(self.loc_of(i)) == i,
    {
        let w = self.w();
        vstd::arithmetic::div_mod::lemma_fundamental_div_mod(i, w);
        vstd::arithmetic::div_mod::lemma_div_pos_is_pos(i, w);
        vstd::arithmetic::div_mod::lemma_mod_bound(i, w);
        vstd::arithmetic::div_mod::lemma_div_is_ordered_by_denominator(i, 1, w);
        let q = i / w;
        assert(q < self.h()) by (nonlinear_arith)
            requires
                i == w * q + i % w,
                0 <= i % w,
                i < w * self.h(),
                w >= 1,
        ;
        assert(q * w == w * q) by (nonlinear_arith);
        assert(self.loc_of(i).y as int == q);
        assert(self.loc_of(i).x as int == i % w);
    }

    /// Whether `loc` lies on the map.
    pub fn in_bounds(&self, loc: Location) -> (r: bool)
        ensures
            r == self.contains(loc),
    {
        loc.x >= 0 && loc.y >= 0 && loc.x < self.width && loc.y < self.height
    }

    /// Position of `loc` in the row-by-row order.
    pub fn index(&self, loc: Location) -> (r: usize)
        requires
            self.wf(),
            self.contains(loc),
        ensures
            r == self.idx(loc),
            r < self.cells().len(),
    {
        proof {
            self.lemma_idx_in_range(loc);
        }
        (loc.y * self.width + loc.x) as usize
    }

    /// The location of the cell that is the `nth` (counting from 0), in row-by-row
    /// order, among those holding `where_matches`; `None` when there are no more
    /// than `nth` such cells.
    pub fn get_nth_location(&self, nth: usize, where_matches: bool) -> (r: Option<Location>)
        requires
            self.wf(),
        ensures
            r.is_some() <==> nth < count_of(self.cells(), where_matches),
            r matches Some(loc) ==> {
                &&& self.contains(loc)
                &&& self.at(loc) == where_matches
                &&& count_of(self.cells().take(self.idx(loc)), where_matches) == nth
                &&& self.idx(loc) == nth_from(self.cells(), where_matches, nth as nat, 0)
            },
    {
        let mut n: usize = 0;
        let mut ix: usize = 0;
        while ix < self.values.len()
            invariant
                self.wf(),
                0 <= ix <= self.cells().len(),
                n == count_of(self.cells().take(ix as int), where_matches),
                n <= nth,
                nth_from(self.cells(), where_matches, nth as nat, ix as int) == nth_from(
                    self.cells(),
                    where_matches,
                    nth as nat,
                    0,
                ),
            decreases self.values.len() - ix,
        {
            proof {
                lemma_count_take_step(self.cells(), ix as int, where_matches);
            }
            if self.values[ix] == where_matches {
                if n == nth {
                    let w = self.width as usize;
                    let loc = Location { x: (ix % w) as i32, y: (ix / w) as i32 };
                    proof {
                        self.lemma_loc_of_in_range(ix as int);
                        lemma_count_take_monotone(self.cells(), ix as int + 1, self.cells().len() as int, where_matches);
                        assert(self.cells().take(self.cells().len() as int) =~= self.cells());
                    }
                    return Some(loc);
                }
                n += 1;
            }
            ix += 1;
        }
        proof {
            assert(self.cells().take(ix as int) =~= self.cells());
        }
        None
    }

    /// The value at position `i` of the row-by-row order.
    pub fn values_at(&self, i: usize) -> (r: bool)
        requires
            self.wf(),
            i < self.cells().len(),
        ensures
            r == self.cells()[i as int],
    {
        self.values[i]
    }

    /// The value at `loc`.
    pub fn get(&self, loc: Location) -> (r: bool)
        requires
            self.wf(),
            self.contains(loc),
        ensures
            r == self.at(loc),
    {
        let i = self.index(loc);
        self.values[i]
    }

    /// The values of the four neighbours of `loc`.
    pub fn nearby(&self, loc: Location) -> (r: Nearby)
        requires
            self.wf(),
            self.contains_around(loc),
        ensures
            forall|d: Dir| #[trigger] r.at(d) == self.at(loc.next_spec(d)),
            forall|d: Dir| self.contains(#[trigger] loc.next_spec(d)),
    {
        let r = Nearby(
            [
                self.get(loc.next(Dir::N)),
                self.get(loc.next(Dir::E)),
                self.get(loc.next(Dir::W)),
                self.get(loc.next(Dir::S)),
            ],
        );
        assert forall|d: Dir| #[trigger] r.at(d) == self.at(loc.next_spec(d)) by {
            match d {
                Dir::N => {},
                Dir::E => {},
                Dir::W => {},
                Dir::S => {},
            }
        }
        assert forall|d: Dir| self.contains(#[trigger] loc.next_spec(d)) by {
            match d {
                Dir::N => {},
                Dir::E => {},
                Dir::W => {},
                Dir::S => {},
            }
        }
        r
    }

    /// Stores `value` at `loc`; the counters follow, and nothing changes when the
    /// cell already holds `value`.
    pub fn set(&mut self, loc: Location, value: bool)
        requires
            old(self).wf(),
            old(self).contains(loc),
        ensures
            final(self).wf(),
            final(self).w() == old(self).w(),
            final(self).h() == old(self).h(),
            final(self).cells() == old(self).cells().update(old(self).idx(loc), value),
            count_of(final(self).cells(), true) + count_of(final(self).cells(), false)
                == final(self).w() * final(self).h(),
    {
        proof {
            self.lemma_idx_in_range(loc);
            lemma_count_total(self.cells());
            lemma_count_total(self.cells().update(self.idx(loc), value));
        }
        if self.get(loc) != value {
            let index = self.index(loc);
            proof {
                lemma_count_update(self.cells(), index as int, value, true);
                lemma_count_update(self.cells(), index as int, value, false);
            }
            self.values.set(index, value);
            if value {
                self.true_count = self.true_count + 1;
                self.false_count = self.false_count - 1;
            } else {
                self.true_count = self.true_count - 1;
                self.false_count = self.false_count + 1;
            }
        } else {
            assert(self.cells().update(self.idx(loc), value) =~= self.cells());
        }
    }

    /// Number of true cells.
    pub fn true_count(&self) -> (r: u32)
        requires
            self.wf(),
        ensures
            r == count_of(self.cells(), true),
    {
        self.true_count
    }

    /// Number of false cells.
    pub fn false_count(&self) -> (r: u32)
        requires
            self.wf(),
        ensures
            r == count_of(self.cells(), false),
    {
        self.false_count
    }

    /// Number of columns.
    pub fn width(&self) -> (r: i32)
        ensures
            r == self.w(),
    {
        self.width
    }

    /// Number of rows.
    pub fn height(&self) -> (r: i32)
        ensures
            r == self.h(),
    {
        self.height
    }

    /// Reads a 25 by 25 table row by row; a nonzero byte is a true cell.
    pub fn load(map: &[[u8; 25]; 25]) -> (r: BoolMap)
        ensures
            r.wf(),
            r.w() == 25,
            r.h() == 25,
            r.cells() == map_cells(*map),
            forall|y: int, x: int|
                0 <= y < 25 && 0 <= x < 25 ==> #[trigger] r.cells()[y * 25 + x] == (map@[y]@[x]
                    != 0),
    {
        let mut values: Vec<bool> = Vec::with_capacity(25 * 25);
        let mut true_count: u32 = 0;
        let mut y: usize = 0;
        while y < 25
            invariant
                0 <= y <= 25,
                values.len() == y * 25,
                true_count == count_of(values@, true),
                true_count <= values.len(),
                forall|yy: int, x: int|
                    0 <= yy < y && 0 <= x < 25 ==> #[trigger] values@[yy * 25 + x] == (
                    map@[yy]@[x] != 0),
            decreases 25 - y,
        {
            let row = &map[y];
            let mut x: usize = 0;
            while x < 25
                invariant
                    0 <= y < 25,
                    0 <= x <= 25,
                    row == map@[y as int],
                    values.len() == y * 25 + x,
                    true_count == count_of(values@, true),
                    true_count <= values.len(),
                    forall|yy: int, xx: int|
                        0 <= yy < y && 0 <= xx < 25 ==> #[trigger] values@[yy * 25 + xx] == (
                        map@[yy]@[xx] != 0),
                    forall|xx: int| 0 <= xx < x ==> #[trigger] values@[y * 25 + xx] == (
                        map@[y as int]@[xx] != 0),
                decreases 25 - x,
            {
                let cell = row[x];
                proof {
                    lemma_count_push(values@, cell != 0, true);
                }
                values.push(cell != 0);
                if cell != 0 {
                    true_count = true_count + 1;
                }
                x += 1;
            }
            y += 1;
        }
        proof {
            lemma_count_total(values@);
            assert forall|i: int| 0 <= i < 625 implies values@[i] == map_cells(*map)[i] by {
                vstd::arithmetic::div_mod::lemma_fundamental_div_mod(i, 25);
                let q = i / 25;
                let r = i % 25;
                assert(0 <= q < 25 && 0 <= r < 25);
                assert(values@[q * 25 + r] == (map@[q]@[r] != 0));
            }
            assert(values@ =~= map_cells(*map));
        }
        BoolMap {
            false_count: (values.len() as u32 - true_count),
            true_count,
            values,
            width: 25,
            height: 25,
        }
    }

    /// A `width` by `height` map with every cell set to `value`.
    pub fn clear(width: i32, height: i32, value: bool) -> (r: BoolMap)
        requires
            width >= 3,
            height >= 3,
            width * height <= MAX_CELLS,
        ensures
            r.wf(),
            r.w() == width,
            r.h() == height,
            forall|i: int| 0 <= i < r.cells().len() ==> #[trigger] r.cells()[i] == value,
            count_of(r.cells(), value) == width * height,
            count_of(r.cells(), !value) == 0,
    {
        let total = width * height;
        let mut values: Vec<bool> = Vec::new();
        while values.len() < total as usize
            invariant
                total == width * height,
                total <= MAX_CELLS,
                values.len() <= total,
                forall|i: int| 0 <= i < values.len() ==> #[trigger] values@[i] == value,
            decreases total - values.len(),
        {
            values.push(value);
        }
        proof {
            lemma_count_constant(values@, value);
        }
        BoolMap {
            false_count: if value {
                0
            } else {
                total as u32
            },
            true_count: if value {
                total as u32
            } else {
                0
            },
            values,
            width,
            height,
        }
    }
}

/// On a well-formed map the true and false counts add up to the number of cells.
pub proof fn lemma_counts_fill_map(m: &BoolMap)
    requires
        m.wf(),
    ensures
        count_of(m.cells(), true) + count_of(m.cells(), false) == m.w() * m.h(),
{
    lemma_count_total(m.cells());
}

/// The locations that `get_nth_location` reports for increasing ranks lie in
/// strictly increasing row-by-row order.
pub proof fn lemma_nth_locations_increase(
    m: &BoolMap,
    want: bool,
    i: int,
    j: int,
    a: Location,
    b: Location,
)
    requires
        m.wf(),
        m.contains(a),
        m.contains(b),
        m.at(a) == want,
        m.at(b) == want,
        count_of(m.cells().take(m.idx(a)), want) == i,
        count_of(m.cells().take(m.idx(b)), want) == j,
        i < j,
    ensures
        m.idx(a) < m.idx(b),
{
    m.lemma_idx_in_range(a);
    m.lemma_idx_in_range(b);
    if m.idx(b) <= m.idx(a) {
        lemma_count_take_monotone(m.cells(), m.idx(b), m.idx(a), want);
    }
}

} // verus!
