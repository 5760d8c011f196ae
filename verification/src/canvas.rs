//! The sparse grid itself: a key-unique association from coordinates to
//! characters, four running extrema that always form the tight bounding box
//! of the occupied coordinates, and the rendering configuration.
//!
//! When the grid holds no cells the extrema sit at an empty sentinel
//! (`min > max` on both axes: each minimum at `i64::MAX`, each maximum at
//! `i64::MIN`), distinguishable from every real single-cell box.

use vstd::prelude::*;

verus! {

/// Rendering configuration: whether lines are emitted from the minimum row
/// upward instead of from the maximum row downward, and which character
/// stands for an in-box coordinate that holds no cell.
#[derive(Debug, Clone, Copy)]
pub struct Options {
    pub bottom_oriented: bool,
    pub filler: char,
}

impl Default for Options {
    /// The default configuration: top-down row order, blank filler.
    fn default() -> (r: Self)
        ensures
            !r.bottom_oriented,
            r.filler == ' ',
    {
        Options { bottom_oriented: false, filler: ' ' }
    }
}

/// A sparse grid of single characters over signed 64-bit coordinates.
///
/// Occupied cells are kept as a key-unique list of `((row, col), character)`
/// entries; `min_row ..= max_row` and `min_col ..= max_col` always cover the
/// occupied coordinates tightly.
#[derive(Debug)]
pub struct DebugCanvas {
    points: Vec<((i64, i64), char)>,
    min_row: i64,
    max_row: i64,
    min_col: i64,
    max_col: i64,
    options: Options,
}

/// The coordinate of one stored entry, as a pair of mathematical integers.
pub open spec fn entry_key(e: ((i64, i64), char)) -> (int, int) {
    (e.0.0 as int, e.0.1 as int)
}

/// No two stored entries share a coordinate.
pub open spec fn distinct_keys(s: Seq<((i64, i64), char)>) -> bool {
    forall|i: int, j: int|
        0 <= i < j < s.len() ==> entry_key(s[i]) != entry_key(s[j])
}

/// The mapping that a key-unique entry list denotes, later entries winning.
pub open spec fn map_of(s: Seq<((i64, i64), char)>) -> Map<(int, int), char>
    decreases s.len(),
{
    if s.len() == 0 {
        Map::empty()
    } else {
        map_of(s.drop_last()).insert(entry_key(s.last()), s.last().1)
    }
}

/// A coordinate stands in the denoted mapping exactly when some entry of the
/// list carries it.
proof fn lemma_map_of_dom(s: Seq<((i64, i64), char)>, k: (int, int))
    ensures
        map_of(s).dom().contains(k) <==> exists|i: int|
            0 <= i < s.len() && entry_key(s[i]) == k,
    decreases s.len(),
{
    if s.len() == 0 {
    } else {
        lemma_map_of_dom(s.drop_last(), k);
        if entry_key(s.last()) == k {
            assert(entry_key(s[s.len() - 1]) == k);
        } else {
            if exists|i: int| 0 <= i < s.len() && entry_key(s[i]) == k {
                let i = choose|i: int| 0 <= i < s.len() && entry_key(s[i]) == k;
                assert(s.drop_last()[i] == s[i]);
            }
            if exists|i: int| 0 <= i < s.drop_last().len() && entry_key(s.drop_last()[i]) == k {
                let i = choose|i: int|
                    0 <= i < s.drop_last().len() && entry_key(s.drop_last()[i]) == k;
                assert(s.drop_last()[i] == s[i]);
            }
        }
    }
}

/// Dropping the last entry of a key-unique list keeps the keys unique.
proof fn lemma_distinct_drop_last(s: Seq<((i64, i64), char)>)
    requires
        distinct_keys(s),
        s.len() > 0,
    ensures
        distinct_keys(s.drop_last()),
{
    assert forall|i: int, j: int|
        0 <= i < j < s.drop_last().len() implies entry_key(s.drop_last()[i]) != entry_key(
        s.drop_last()[j],
    ) by {
        assert(s.drop_last()[i] == s[i]);
        assert(s.drop_last()[j] == s[j]);
    }
}

/// In a key-unique list, the denoted mapping sends each stored coordinate to
/// the character stored beside it.
proof fn lemma_map_of_index(s: Seq<((i64, i64), char)>, i: int)
    requires
        distinct_keys(s),
        0 <= i < s.len(),
    ensures
        map_of(s).dom().contains(entry_key(s[i])),
        map_of(s)[entry_key(s[i])] == s[i].1,
    decreases s.len(),
{
    if i == s.len() - 1 {
    } else {
        lemma_distinct_drop_last(s);
        assert(s.drop_last()[i] == s[i]);
        lemma_map_of_index(s.drop_last(), i);
        assert(entry_key(s[i]) != entry_key(s[s.len() - 1]));
    }
}

/// Overwriting the character of one entry of a key-unique list inserts over
/// that entry's coordinate in the denoted mapping.
proof fn lemma_map_of_update(s: Seq<((i64, i64), char)>, i: int, v: char)
    requires
        distinct_keys(s),
        0 <= i < s.len(),
    ensures
        map_of(s.update(i, (s[i].0, v))) == map_of(s).insert(entry_key(s[i]), v),
    decreases s.len(),
{
    let t = s.update(i, (s[i].0, v));
    if i == s.len() - 1 {
        assert(t.drop_last() =~= s.drop_last());
        assert(t.last() == (s[i].0, v));
        assert(map_of(t) =~= map_of(s).insert(entry_key(s[i]), v));
    } else {
        lemma_distinct_drop_last(s);
        assert(s.drop_last()[i] == s[i]);
        assert(t.drop_last() =~= s.drop_last().update(i, (s.drop_last()[i].0, v)));
        lemma_map_of_update(s.drop_last(), i, v);
        assert(t.last() == s.last());
        assert(entry_key(s[i]) != entry_key(s[s.len() - 1]));
        assert(map_of(t) =~= map_of(s).insert(entry_key(s[i]), v));
    }
}

/// Deleting one entry of a key-unique list removes exactly that entry's
/// coordinate from the denoted mapping.
proof fn lemma_map_of_remove(s: Seq<((i64, i64), char)>, i: int)
    requires
        distinct_keys(s),
        0 <= i < s.len(),
    ensures
        map_of(s.remove(i)) == map_of(s).remove(entry_key(s[i])),
    decreases s.len(),
{
    let k = entry_key(s[i]);
    let t = s.remove(i);
    lemma_distinct_drop_last(s);
    if i == s.len() - 1 {
        assert(t =~= s.drop_last());
        assert forall|j: int|
            0 <= j < s.drop_last().len() implies entry_key(s.drop_last()[j]) != k by {
            assert(s.drop_last()[j] == s[j]);
        }
        lemma_map_of_dom(s.drop_last(), k);
        assert(map_of(s).remove(k) =~= map_of(s.drop_last()));
    } else {
        assert(t.drop_last() =~= s.drop_last().remove(i));
        assert(t.last() == s.last());
        assert(s.drop_last()[i] == s[i]);
        lemma_map_of_remove(s.drop_last(), i);
        assert(entry_key(s[s.len() - 1]) != k);
        assert(map_of(t) =~= map_of(s).remove(k));
    }
}

impl DebugCanvas {
    /// The grid's cells as a mathematical map from coordinates to characters.
    pub closed spec fn contents(self) -> Map<(int, int), char> {
        map_of(self.points@)
    }

    /// The grid's rendering configuration.
    pub closed spec fn config(self) -> Options {
        self.options
    }

    /// The grid holds no cells at all.
    pub open spec fn is_empty_spec(self) -> bool {
        self.contents().dom() == Set::<(int, int)>::empty()
    }

    /// The smallest occupied row, or the sentinel `i64::MAX` when empty.
    pub closed spec fn row_min(self) -> int {
        self.min_row as int
    }

    /// The largest occupied row, or the sentinel `i64::MIN` when empty.
    pub closed spec fn row_max(self) -> int {
        self.max_row as int
    }

    /// The smallest occupied column, or the sentinel `i64::MAX` when empty.
    pub closed spec fn col_min(self) -> int {
        self.min_col as int
    }

    /// The largest occupied column, or the sentinel `i64::MIN` when empty.
    pub closed spec fn col_max(self) -> int {
        self.max_col as int
    }

    /// Well-formedness: keys are unique and the four extrema are the tight
    /// bounding box of the stored coordinates (the empty sentinel when no
    /// cell is stored).
    pub closed spec fn wf(self) -> bool {
        &&& distinct_keys(self.points@)
        &&& if self.points@.len() == 0 {
            &&& self.min_row == i64::MAX
            &&& self.max_row == i64::MIN
            &&& self.min_col == i64::MAX
            &&& self.max_col == i64::MIN
        } else {
            &&& forall|i: int|
                0 <= i < self.points@.len() ==> {
                    &&& self.min_row <= (#[trigger] self.points@[i]).0.0 <= self.max_row
                    &&& self.min_col <= self.points@[i].0.1 <= self.max_col
                }
            &&& exists|i: int|
                0 <= i < self.points@.len() && (#[trigger] self.points@[i]).0.0 == self.min_row
            &&& exists|i: int|
                0 <= i < self.points@.len() && (#[trigger] self.points@[i]).0.0 == self.max_row
            &&& exists|i: int|
                0 <= i < self.points@.len() && (#[trigger] self.points@[i]).0.1 == self.min_col
            &&& exists|i: int|
                0 <= i < self.points@.len() && (#[trigger] self.points@[i]).0.1 == self.max_col
        }
    }

    /// The character shown at a coordinate: the stored cell when the
    /// coordinate is occupied, the configured filler otherwise.
    pub open spec fn char_at(self, row: int, col: int) -> char {
        if self.contents().dom().contains((row, col)) {
            self.contents()[(row, col)]
        } else {
            self.config().filler
        }
    }

    /// What `read` returns on a coordinate.
    pub open spec fn read_spec(self, coord: (i64, i64)) -> char {
        self.char_at(coord.0 as int, coord.1 as int)
    }

    /// Both dimensions of the bounding box can be counted in a `u64`; false
    /// only when writes sit at both extremes of an axis of the coordinate
    /// space.
    pub open spec fn spans_fit(self) -> bool {
        self.is_empty_spec() || (self.row_max() - self.row_min() + 1 <= u64::MAX
            && self.col_max() - self.col_min() + 1 <= u64::MAX)
    }

    /// Whether the grid holds no cells.
    pub fn is_empty(&self) -> (r: bool)
        requires
            self.wf(),
        ensures
            r <==> self.is_empty_spec(),
    {
        let r = self.points.len() == 0;
        proof {
            if self.points@.len() == 0 {
                assert(self.contents().dom() =~= Set::<(int, int)>::empty());
            } else {
                lemma_map_of_dom(self.points@, entry_key(self.points@[0]));
            }
        }
        r
    }

    /// The dimensions `(rows, cols)` of the bounding box: `(0, 0)` when the
    /// grid is empty, else both extents counted inclusively.
    pub fn size(&self) -> (r: (u64, u64))
        requires
            self.wf(),
            self.spans_fit(),
        ensures
            self.is_empty_spec() ==> r == (0u64, 0u64),
            !self.is_empty_spec() ==> r.0 as int == self.row_max() - self.row_min() + 1
                && r.1 as int == self.col_max() - self.col_min() + 1,
    {
        if self.is_empty() {
            (0, 0)
        } else {
            proof {
                if self.points@.len() == 0 {
                    assert(self.contents().dom() =~= Set::<(int, int)>::empty());
                }
                let i = choose|i: int|
                    0 <= i < self.points@.len() && self.points@[i].0.0 == self.min_row;
                assert(self.min_row <= self.points@[i].0.0 <= self.max_row);
                let j = choose|j: int|
                    0 <= j < self.points@.len() && self.points@[j].0.1 == self.min_col;
                assert(self.min_col <= self.points@[j].0.1 <= self.max_col);
            }
            let rows: u64 = ((self.max_row as i128) - (self.min_row as i128) + 1) as u64;
            let cols: u64 = ((self.max_col as i128) - (self.min_col as i128) + 1) as u64;
            (rows, cols)
        }
    }

    /// The character recorded at `coord`, or the configured filler when the
    /// coordinate is unoccupied. Pure: the grid is untouched.
    pub fn read(&self, coord: (i64, i64)) -> (r: char)
        requires
            self.wf(),
        ensures
            r == self.read_spec(coord),
    {
        match self.find_index(coord) {
            Some(i) => {
                proof {
                    lemma_map_of_index(self.points@, i as int);
                }
                self.points[i].1
            },
            None => {
                proof {
                    lemma_map_of_dom(self.points@, (coord.0 as int, coord.1 as int));
                }
                self.options.filler
            },
        }
    }

    /// The position of the entry stored at `coord`, if any.
    fn find_index(&self, coord: (i64, i64)) -> (r: Option<usize>)
        ensures
            match r {
                Some(i) => i < self.points@.len() && self.points@[i as int].0 == coord,
                None => forall|j: int|
                    0 <= j < self.points@.len() ==> (#[trigger] self.points@[j]).0 != coord,
            },
    {
        let n = self.points.len();
        let mut i: usize = 0;
        while i < n
            invariant
                n == self.points@.len(),
                i <= n,
                forall|j: int| 0 <= j < i ==> (#[trigger] self.points@[j]).0 != coord,
            decreases n - i,
        {
            let e = self.points[i];
            if e.0.0 == coord.0 && e.0.1 == coord.1 {
                return Some(i);
            }
            i += 1;
        }
        None
    }

    /// Record `v` at `coord`, inserting the cell if absent and overwriting it
    /// if present, and widen the bounding box to cover `coord` on both axes.
    #[verifier::rlimit(50)]
    pub fn write(&mut self, coord: (i64, i64), v: char)
        requires
            old(self).wf(),
        ensures
            final(self).wf(),
            final(self).contents() == old(self).contents().insert(
                (coord.0 as int, coord.1 as int),
                v,
            ),
            final(self).config() == old(self).config(),
            !final(self).is_empty_spec(),
            final(self).row_min() == (if (coord.0 as int) < old(self).row_min() {
                coord.0 as int
            } else {
                old(self).row_min()
            }),
            final(self).row_max() == (if (coord.0 as int) > old(self).row_max() {
                coord.0 as int
            } else {
                old(self).row_max()
            }),
            final(self).col_min() == (if (coord.1 as int) < old(self).col_min() {
                coord.1 as int
            } else {
                old(self).col_min()
            }),
            final(self).col_max() == (if (coord.1 as int) > old(self).col_max() {
                coord.1 as int
            } else {
                old(self).col_max()
            }),
    {
        let row = coord.0;
        let col = coord.1;
        let found = self.find_index(coord);
        let ghost s = self.points@;
        if row > self.max_row {
            self.max_row = row;
        }
        if row < self.min_row {
            self.min_row = row;
        }
        if col > self.max_col {
            self.max_col = col;
        }
        if col < self.min_col {
            self.min_col = col;
        }
        match found {
            Some(i) => {
                self.points[i] = ((row, col), v);
                proof {
                    let t = self.points@;
                    assert(t == s.update(i as int, (s[i as int].0, v)));
                    lemma_map_of_update(s, i as int, v);
                    lemma_map_of_dom(t, (row as int, col as int));
                    assert(distinct_keys(t)) by {
                        assert forall|a: int, b: int|
                            0 <= a < b < t.len() implies entry_key(t[a]) != entry_key(t[b]) by {
                            assert(t[a].0 == s[a].0);
                            assert(t[b].0 == s[b].0);
                        }
                    }
                    assert forall|j: int|
                        0 <= j < t.len() implies self.min_row <= (#[trigger] t[j]).0.0
                            <= self.max_row && self.min_col <= t[j].0.1 <= self.max_col by {
                        assert(t[j].0 == s[j].0);
                    }
                    let w1 = choose|j: int| 0 <= j < s.len() && s[j].0.0 == old(self).min_row;
                    assert(t[w1].0.0 == self.min_row);
                    let w2 = choose|j: int| 0 <= j < s.len() && s[j].0.0 == old(self).max_row;
                    assert(t[w2].0.0 == self.max_row);
                    let w3 = choose|j: int| 0 <= j < s.len() && s[j].0.1 == old(self).min_col;
                    assert(t[w3].0.1 == self.min_col);
                    let w4 = choose|j: int| 0 <= j < s.len() && s[j].0.1 == old(self).max_col;
                    assert(t[w4].0.1 == self.max_col);
                }
            },
            None => {
                self.points.push(((row, col), v));
                proof {
                    let t = self.points@;
                    assert(t.drop_last() =~= s);
                    assert(map_of(t) == map_of(s).insert((row as int, col as int), v));
                    lemma_map_of_dom(t, (row as int, col as int));
                    assert(distinct_keys(t)) by {
                        assert forall|a: int, b: int|
                            0 <= a < b < t.len() implies entry_key(t[a]) != entry_key(t[b]) by {
                            if b < t.len() - 1 {
                                assert(t[a] == s[a]);
                                assert(t[b] == s[b]);
                            } else {
                                assert(t[a] == s[a]);
                                assert(t[b].0 == coord);
                            }
                        }
                    }
                    if s.len() == 0 {
                        assert(t[0].0 == coord);
                    } else {
                        assert forall|j: int|
                            0 <= j < t.len() implies self.min_row <= (#[trigger] t[j]).0.0
                                <= self.max_row && self.min_col <= t[j].0.1 <= self.max_col by {
                            if j < t.len() - 1 {
                                assert(t[j] == s[j]);
                                assert(old(self).min_row <= s[j].0.0 <= old(self).max_row);
                            } else {
                                assert(t[j].0 == coord);
                            }
                        }
                        let n = t.len() - 1;
                        if row < old(self).min_row {
                            assert(t[n].0.0 == self.min_row);
                        } else {
                            let w = choose|j: int|
                                0 <= j < s.len() && s[j].0.0 == old(self).min_row;
                            assert(t[w].0.0 == self.min_row);
                        }
                        if row > old(self).max_row {
                            assert(t[n].0.0 == self.max_row);
                        } else {
                            let w = choose|j: int|
                                0 <= j < s.len() && s[j].0.0 == old(self).max_row;
                            assert(t[w].0.0 == self.max_row);
                        }
                        if col < old(self).min_col {
                            assert(t[n].0.1 == self.min_col);
                        } else {
                            let w = choose|j: int|
                                0 <= j < s.len() && s[j].0.1 == old(self).min_col;
                            assert(t[w].0.1 == self.min_col);
                        }
                        if col > old(self).max_col {
                            assert(t[n].0.1 == self.max_col);
                        } else {
                            let w = choose|j: int|
                                0 <= j < s.len() && s[j].0.1 == old(self).max_col;
                            assert(t[w].0.1 == self.max_col);
                        }
                    }
                }
            },
        }
    }

    /// Delete the cell at `coord` if present (a silent no-op otherwise) and
    /// recompute the bounding box tightly over the remaining cells.
    pub fn remove(&mut self, coord: (i64, i64))
        requires
            old(self).wf(),
        ensures
            final(self).wf(),
            final(self).contents() == old(self).contents().remove(
                (coord.0 as int, coord.1 as int),
            ),
            final(self).config() == old(self).config(),
    {
        let found = self.find_index(coord);
        let i = match found {
            None => {
                proof {
                    lemma_map_of_dom(self.points@, (coord.0 as int, coord.1 as int));
                    assert(self.contents().remove((coord.0 as int, coord.1 as int))
                        =~= self.contents());
                }
                return ;
            },
            Some(i) => i,
        };
        let ghost s = self.points@;
        self.points.remove(i);
        proof {
            lemma_map_of_remove(s, i as int);
            assert(distinct_keys(self.points@)) by {
                let t = self.points@;
                assert forall|a: int, b: int|
                    0 <= a < b < t.len() implies entry_key(t[a]) != entry_key(t[b]) by {
                    assert(t[a] == (if a < i { s[a] } else { s[a + 1] }));
                    assert(t[b] == (if b < i { s[b] } else { s[b + 1] }));
                }
            }
        }
        let ghost t = self.points@;
        let ghost opts = self.options;
        self.min_row = i64::MAX;
        self.max_row = i64::MIN;
        self.min_col = i64::MAX;
        self.max_col = i64::MIN;
        let n = self.points.len();
        let mut j: usize = 0;
        while j < n
            invariant
                self.points@ == t,
                self.options == opts,
                n == t.len(),
                j <= n,
                j == 0 ==> self.min_row == i64::MAX && self.max_row == i64::MIN && self.min_col
                    == i64::MAX && self.max_col == i64::MIN,
                forall|a: int|
                    0 <= a < j ==> self.min_row <= (#[trigger] t[a]).0.0 <= self.max_row
                        && self.min_col <= t[a].0.1 <= self.max_col,
                j > 0 ==> exists|a: int| 0 <= a < j && (#[trigger] t[a]).0.0 == self.min_row,
                j > 0 ==> exists|a: int| 0 <= a < j && (#[trigger] t[a]).0.0 == self.max_row,
                j > 0 ==> exists|a: int| 0 <= a < j && (#[trigger] t[a]).0.1 == self.min_col,
                j > 0 ==> exists|a: int| 0 <= a < j && (#[trigger] t[a]).0.1 == self.max_col,
            decreases n - j,
        {
            let ghost prev = *self;
            let e = self.points[j];
            if e.0.0 < self.min_row {
                self.min_row = e.0.0;
            }
            if e.0.0 > self.max_row {
                self.max_row = e.0.0;
            }
            if e.0.1 < self.min_col {
                self.min_col = e.0.1;
            }
            if e.0.1 > self.max_col {
                self.max_col = e.0.1;
            }
            proof {
                if e.0.0 < prev.min_row {
                    assert(t[j as int].0.0 == self.min_row);
                } else if j > 0 {
                    let w = choose|a: int| 0 <= a < j && t[a].0.0 == prev.min_row;
                    assert(t[w].0.0 == self.min_row);
                } else {
                    assert(t[j as int].0.0 == self.min_row);
                }
                if e.0.0 > prev.max_row {
                    assert(t[j as int].0.0 == self.max_row);
                } else if j > 0 {
                    let w = choose|a: int| 0 <= a < j && t[a].0.0 == prev.max_row;
                    assert(t[w].0.0 == self.max_row);
                } else {
                    assert(t[j as int].0.0 == self.max_row);
                }
                if e.0.1 < prev.min_col {
                    assert(t[j as int].0.1 == self.min_col);
                } else if j > 0 {
                    let w = choose|a: int| 0 <= a < j && t[a].0.1 == prev.min_col;
                    assert(t[w].0.1 == self.min_col);
                } else {
                    assert(t[j as int].0.1 == self.min_col);
                }
                if e.0.1 > prev.max_col {
                    assert(t[j as int].0.1 == self.max_col);
                } else if j > 0 {
                    let w = choose|a: int| 0 <= a < j && t[a].0.1 == prev.max_col;
                    assert(t[w].0.1 == self.max_col);
                } else {
                    assert(t[j as int].0.1 == self.max_col);
                }
            }
            j += 1;
        }
    }

    /// The number of rendered lines: the row extent of the bounding box.
    pub open spec fn nrows(self) -> int {
        if self.is_empty_spec() {
            0
        } else {
            self.row_max() - self.row_min() + 1
        }
    }

    /// The number of characters on each rendered line: the column extent of
    /// the bounding box.
    pub open spec fn ncols(self) -> int {
        if self.is_empty_spec() {
            0
        } else {
            self.col_max() - self.col_min() + 1
        }
    }

    /// The grid row shown on rendered line `i`: counted upward from the
    /// minimum row when bottom-oriented, downward from the maximum row
    /// otherwise.
    pub open spec fn display_row(self, i: int) -> int {
        if self.config().bottom_oriented {
            self.row_min() + i
        } else {
            self.row_max() - i
        }
    }

    /// The characters of rendered line `i`: the columns of the bounding box
    /// in ascending order, each read through `char_at`.
    pub open spec fn line_at(self, i: int) -> Seq<char> {
        Seq::new(self.ncols() as nat, |j: int| self.char_at(self.display_row(i), self.col_min() + j))
    }

    /// Rendered lines `i..`, each preceded by the newline that separates it
    /// from the line before it.
    pub open spec fn lines_from(self, i: int) -> Seq<char>
        decreases self.nrows() - i,
    {
        if i >= self.nrows() {
            Seq::empty()
        } else {
            seq!['\n'] + self.line_at(i) + self.lines_from(i + 1)
        }
    }

    /// The full rendered block: empty for an empty grid; otherwise the first
    /// line followed by each further line behind a single newline separator,
    /// with no trailing newline.
    pub open spec fn render_spec(self) -> Seq<char> {
        if self.is_empty_spec() {
            Seq::empty()
        } else {
            self.line_at(0) + self.lines_from(1)
        }
    }

    /// Render the bounding box as a block of text: `nrows` lines of `ncols`
    /// characters joined by single newlines, each position showing its cell
    /// or the filler. An empty grid renders to the empty string.
    pub fn render(&self) -> (r: String)
        requires
            self.wf(),
            self.spans_fit(),
        ensures
            r@ == self.render_spec(),
    {
        let mut out = String::new();
        if self.is_empty() {
            return out;
        }
        let (n, m) = self.size();
        let mut i: u64 = 0;
        while i < n
            invariant
                self.wf(),
                self.spans_fit(),
                !self.is_empty_spec(),
                n as int == self.nrows(),
                m as int == self.ncols(),
                i <= n,
                i == 0 ==> out@ == Seq::<char>::empty(),
                i > 0 ==> self.render_spec() == out@ + self.lines_from(i as int),
            decreases n - i,
        {
            let ghost pre = out@;
            if i > 0 {
                out.push('\n');
            }
            let ghost base = out@;
            let mut j: u64 = 0;
            while j < m
                invariant
                    self.wf(),
                    self.spans_fit(),
                    !self.is_empty_spec(),
                    n as int == self.nrows(),
                    m as int == self.ncols(),
                    i < n,
                    j <= m,
                    out@ == base + self.line_at(i as int).take(j as int),
                    i == 0 ==> pre == Seq::<char>::empty() && base == pre,
                    i > 0 ==> self.render_spec() == pre + self.lines_from(i as int) && base
                        == pre.push('\n'),
                decreases m - j,
            {
                let row: i64 = if self.options.bottom_oriented {
                    ((self.min_row as i128) + (i as i128)) as i64
                } else {
                    ((self.max_row as i128) - (i as i128)) as i64
                };
                let col: i64 = ((self.min_col as i128) + (j as i128)) as i64;
                proof {
                    assert(row as int == self.display_row(i as int));
                    assert(col as int == self.col_min() + j as int);
                }
                let c = self.read((row, col));
                out.push(c);
                proof {
                    assert(self.line_at(i as int)[j as int] == c);
                    assert(self.line_at(i as int).take(j as int + 1) =~= self.line_at(
                        i as int,
                    ).take(j as int).push(c));
                }
                j += 1;
            }
            proof {
                assert(self.line_at(i as int).take(m as int) =~= self.line_at(i as int));
                if i == 0 {
                    assert(self.render_spec() == out@ + self.lines_from(1));
                } else {
                    assert(self.lines_from(i as int) == seq!['\n'] + self.line_at(i as int)
                        + self.lines_from(i as int + 1));
                    assert(self.render_spec() =~= out@ + self.lines_from(i as int + 1));
                }
            }
            i += 1;
        }
        proof {
            assert(self.lines_from(n as int) == Seq::<char>::empty());
            assert(out@ + self.lines_from(n as int) =~= out@);
        }
        out
    }

    /// Reset the grid to the empty state, keeping the configuration.
    pub fn clear(&mut self)
        requires
            old(self).wf(),
        ensures
            final(self).wf(),
            final(self).contents() == Map::<(int, int), char>::empty(),
            final(self).is_empty_spec(),
            final(self).row_min() == i64::MAX as int,
            final(self).row_max() == i64::MIN as int,
            final(self).col_min() == i64::MAX as int,
            final(self).col_max() == i64::MIN as int,
            final(self).config() == old(self).config(),
    {
        let options = self.options;
        *self = Self::with_options(options);
    }

    /// An empty grid with the given configuration.
    pub fn with_options(options: Options) -> (r: Self)
        ensures
            r.wf(),
            r.contents() == Map::<(int, int), char>::empty(),
            r.is_empty_spec(),
            r.row_min() == i64::MAX as int,
            r.row_max() == i64::MIN as int,
            r.col_min() == i64::MAX as int,
            r.col_max() == i64::MIN as int,
            r.config() == options,
    {
        let r = DebugCanvas {
            points: Vec::new(),
            min_row: i64::MAX,
            max_row: i64::MIN,
            min_col: i64::MAX,
            max_col: i64::MIN,
            options,
        };
        proof {
            assert(r.contents().dom() =~= Set::<(int, int)>::empty());
        }
        r
    }

    /// An empty grid with the default configuration.
    pub fn new() -> (r: Self)
        ensures
            r.wf(),
            r.contents() == Map::<(int, int), char>::empty(),
            r.is_empty_spec(),
            r.row_min() == i64::MAX as int,
            r.row_max() == i64::MIN as int,
            r.col_min() == i64::MAX as int,
            r.col_max() == i64::MIN as int,
            !r.config().bottom_oriented,
            r.config().filler == ' ',
    {
        Self::with_options(Options::default())
    }
}

/// Relies on `String::push`: appends exactly the given character to the end
/// of the string.
pub assume_specification[ String::push ](s: &mut String, ch: char)
    ensures
        final(s)@ == old(s)@.push(ch),
;

/// Bounding-box tightness: on a well-formed grid the four extrema cover
/// every occupied coordinate, each of the four is attained by some occupied
/// coordinate whenever any cell exists, and they sit at the empty sentinel
/// when none does. Together with the contract of `size`, the reported
/// dimensions are exactly those of the tight box of the occupied
/// coordinates.
pub proof fn lemma_bounds_tight(g: DebugCanvas)
    requires
        g.wf(),
    ensures
        forall|k: (int, int)| #[trigger]
            g.contents().dom().contains(k) ==> g.row_min() <= k.0 <= g.row_max()
                && g.col_min() <= k.1 <= g.col_max(),
        !g.is_empty_spec() ==> exists|k: (int, int)| #[trigger]
            g.contents().dom().contains(k) && k.0 == g.row_min(),
        !g.is_empty_spec() ==> exists|k: (int, int)| #[trigger]
            g.contents().dom().contains(k) && k.0 == g.row_max(),
        !g.is_empty_spec() ==> exists|k: (int, int)| #[trigger]
            g.contents().dom().contains(k) && k.1 == g.col_min(),
        !g.is_empty_spec() ==> exists|k: (int, int)| #[trigger]
            g.contents().dom().contains(k) && k.1 == g.col_max(),
        g.is_empty_spec() ==> g.row_min() == i64::MAX && g.row_max() == i64::MIN
            && g.col_min() == i64::MAX && g.col_max() == i64::MIN,
{
    let s = g.points@;
    assert forall|k: (int, int)| #[trigger]
        g.contents().dom().contains(k) implies g.row_min() <= k.0 <= g.row_max()
        && g.col_min() <= k.1 <= g.col_max() by {
        lemma_map_of_dom(s, k);
        let i = choose|i: int| 0 <= i < s.len() && entry_key(s[i]) == k;
        assert(s.len() > 0);
        assert(g.min_row <= s[i].0.0 <= g.max_row);
        assert(g.min_col <= s[i].0.1 <= g.max_col);
    }
    if g.is_empty_spec() {
        if s.len() > 0 {
            lemma_map_of_dom(s, entry_key(s[0]));
        }
    } else {
        if s.len() == 0 {
            assert(g.contents().dom() =~= Set::<(int, int)>::empty());
        }
        let a = choose|i: int| 0 <= i < s.len() && s[i].0.0 == g.min_row;
        lemma_map_of_dom(s, entry_key(s[a]));
        assert(g.contents().dom().contains(entry_key(s[a])) && entry_key(s[a]).0 == g.row_min());
        let b = choose|i: int| 0 <= i < s.len() && s[i].0.0 == g.max_row;
        lemma_map_of_dom(s, entry_key(s[b]));
        assert(g.contents().dom().contains(entry_key(s[b])) && entry_key(s[b]).0 == g.row_max());
        let c = choose|i: int| 0 <= i < s.len() && s[i].0.1 == g.min_col;
        lemma_map_of_dom(s, entry_key(s[c]));
        assert(g.contents().dom().contains(entry_key(s[c])) && entry_key(s[c]).1 == g.col_min());
        let d = choose|i: int| 0 <= i < s.len() && s[i].0.1 == g.max_col;
        lemma_map_of_dom(s, entry_key(s[d]));
        assert(g.contents().dom().contains(entry_key(s[d])) && entry_key(s[d]).1 == g.col_max());
    }
}

impl Default for DebugCanvas {
    /// An empty grid with the default configuration.
    fn default() -> (r: Self)
        ensures
            r.wf(),
            r.contents() == Map::<(int, int), char>::empty(),
            r.is_empty_spec(),
            r.row_min() == i64::MAX as int,
            r.row_max() == i64::MIN as int,
            r.col_min() == i64::MAX as int,
            r.col_max() == i64::MIN as int,
            !r.config().bottom_oriented,
            r.config().filler == ' ',
    {
        Self::new()
    }
}

} // verus!
