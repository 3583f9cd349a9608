//! Tables in text: a header line, then one row per line, cells between commas.

use vstd::prelude::*;

use crate::text::{
    chars_of, fields, lines, numeral, parse_numeral, split_fields, split_lines, string_of, strings,
    texts, trim, trimmed,
};

verus! {

/// The cells of rows as texts.
pub open spec fn cell_texts(rows: Seq<Vec<String>>) -> Seq<Seq<Seq<char>>> {
    rows.map_values(|r: Vec<String>| strings(r@))
}

/// The cells of the lines of `text` from line `from` on.
pub open spec fn rows_from(text: Seq<char>, from: int) -> Seq<Seq<Seq<char>>> {
    let n = lines(text).len() - from;
    Seq::new(
        if n > 0 {
            n as nat
        } else {
            0
        },
        |k: int| fields(lines(text)[from + k], ','),
    )
}

fn cells_of(line: &Vec<char>) -> (r: Vec<String>)
    ensures
        strings(r@) == fields(line@, ','),
{
    let parts: Vec<Vec<char>> = split_fields(line, ',');
    let mut out: Vec<String> = Vec::new();
    let mut k: usize = 0;
    while k < parts.len()
        invariant
            k <= parts@.len(),
            strings(out@) == texts(parts@).take(k as int),
        decreases parts@.len() - k,
    {
        let ghost before = out@;
        out.push(string_of(&parts[k]));
        proof {
            assert(strings(out@) =~= strings(before).push(parts@[k as int]@));
            assert(texts(parts@).take(k + 1) =~= texts(parts@).take(k as int).push(
                parts@[k as int]@,
            ));
        }
        k += 1;
    }
    proof {
        assert(texts(parts@).take(k as int) =~= texts(parts@));
    }
    out
}

/// The cells of all rows below the header.
pub fn read_rows(text: &str) -> (r: Vec<Vec<String>>)
    ensures
        cell_texts(r@) == rows_from(text@, 1),
{
    let all: Vec<Vec<char>> = split_lines(&chars_of(text));
    let mut out: Vec<Vec<String>> = Vec::new();
    let mut k: usize = 1;
    proof {
        assert(texts(all@).len() == all@.len());
        assert(cell_texts(out@) =~= Seq::empty());
    }
    while k < all.len()
        invariant
            1 <= k,
            k <= all@.len() || k == 1,
            texts(all@) == lines(text@),
            all@.len() == lines(text@).len(),
            out@.len() == (if k <= all@.len() {
                k - 1
            } else {
                0
            }),
            forall|j: int|
                0 <= j < out@.len() ==> strings((#[trigger] out@[j])@) == fields(
                    lines(text@)[1 + j],
                    ',',
                ),
        decreases all@.len() - k,
    {
        proof {
            assert(texts(all@)[k as int] == all@[k as int]@);
        }
        out.push(cells_of(&all[k]));
        k += 1;
    }
    proof {
        assert(cell_texts(out@) =~= rows_from(text@, 1));
    }
    out
}

/// The number in a cell, where it is one.
pub open spec fn cell_number(cell: Seq<char>) -> Option<usize> {
    match numeral(cell, 10) {
        Some(n) => if n <= usize::MAX {
            Some(n as usize)
        } else {
            None
        },
        None => None,
    }
}

/// The number in a cell, where it is one.
pub fn parse_cell(cell: &str) -> (r: Option<usize>)
    ensures
        r == cell_number(cell@),
{
    match parse_numeral(&chars_of(cell), 10) {
        Some(n) => if n <= usize::MAX as u64 {
            Some(n as usize)
        } else {
            None
        },
        None => None,
    }
}

// ── Tables with named columns ──────────────────────────────────────────────

/// Why a table cannot be read.
#[derive(Debug, Clone, Copy, PartialEq, Eq, Structural)]
pub enum TableFault {
    /// It has no line but blank ones.
    Empty,
    /// The row of that number, counted among the lines that are not blank from
    /// the first, has that many cells: not as many as the header.
    Ragged(usize, usize),
}

/// A table with named columns.
#[derive(Debug)]
pub struct Table {
    /// Names of the columns.
    pub cols: Vec<String>,
    /// Cells, by row.
    pub rows: Vec<Vec<String>>,
}

/// The lines among the first `k` that are not blank.
pub open spec fn solid_lines(v: Seq<Seq<char>>, k: int) -> Seq<Seq<char>>
    decreases k,
{
    if k <= 0 {
        Seq::empty()
    } else if trimmed(v[k - 1]).len() > 0 {
        solid_lines(v, k - 1).push(v[k - 1])
    } else {
        solid_lines(v, k - 1)
    }
}

/// The cells of a line without the white space around them.
pub open spec fn trimmed_cells(line: Seq<char>) -> Seq<Seq<char>> {
    fields(line, ',').map_values(|c: Seq<char>| trimmed(c))
}

/// The first row, counted from `k`, that has another number of cells than the
/// header.
pub open spec fn first_ragged(v: Seq<Seq<char>>, k: int) -> Option<int>
    decreases v.len() - k,
{
    if k >= v.len() {
        None
    } else if fields(v[k], ',').len() != fields(v[0], ',').len() {
        Some(k)
    } else {
        first_ragged(v, k + 1)
    }
}

/// The position of the last column called `name` among the first `k`.
pub open spec fn column_below(cols: Seq<Seq<char>>, name: Seq<char>, k: int) -> Option<int>
    decreases k,
{
    if k <= 0 {
        None
    } else if cols[k - 1] == name {
        Some(k - 1)
    } else {
        column_below(cols, name, k - 1)
    }
}

fn trimmed_row(line: &Vec<char>) -> (r: Vec<String>)
    ensures
        strings(r@) == trimmed_cells(line@),
        r@.len() == fields(line@, ',').len(),
{
    let parts: Vec<Vec<char>> = split_fields(line, ',');
    let ghost want = trimmed_cells(line@);
    let mut out: Vec<String> = Vec::new();
    let mut k: usize = 0;
    proof {
        assert(texts(parts@).len() == parts@.len());
    }
    while k < parts.len()
        invariant
            k <= parts@.len(),
            texts(parts@) == fields(line@, ','),
            want == trimmed_cells(line@),
            want.len() == parts@.len(),
            strings(out@) == want.take(k as int),
        decreases parts@.len() - k,
    {
        let ghost before = out@;
        out.push(string_of(&trim(&parts[k])));
        proof {
            assert(texts(parts@)[k as int] == parts@[k as int]@);
            assert(strings(out@) =~= strings(before).push(want[k as int]));
            assert(want.take(k + 1) =~= want.take(k as int).push(want[k as int]));
        }
        k += 1;
    }
    proof {
        assert(want.take(k as int) =~= want);
        assert(strings(out@).len() == out@.len());
    }
    out
}

impl Table {
    /// Whether this is the table in `text`.
    pub open spec fn is_read(self, text: Seq<char>) -> bool {
        let v = solid_lines(lines(text), lines(text).len() as int);
        &&& v.len() > 0
        &&& first_ragged(v, 1) is None
        &&& strings(self.cols@) == trimmed_cells(v[0])
        &&& self.rows@.len() == v.len() - 1
        &&& forall|k: int|
            0 <= k < self.rows@.len() ==> strings((#[trigger] self.rows@[k])@) == trimmed_cells(
                v[k + 1],
            )
    }

    /// Reads a table. Every row has to have as many cells as the header.
    pub fn load(text: &str) -> (r: Result<Table, TableFault>)
        ensures
            ({
                let v = solid_lines(lines(text@), lines(text@).len() as int);
                match r {
                    Ok(t) => t.is_read(text@),
                    Err(TableFault::Empty) => v.len() == 0,
                    Err(TableFault::Ragged(k, n)) => v.len() > 0 && first_ragged(v, 1) == Some(
                        k as int,
                    ) && n == fields(v[k as int], ',').len(),
                }
            }),
    {
        let all: Vec<Vec<char>> = split_lines(&chars_of(text));
        let mut solid: Vec<Vec<char>> = Vec::new();
        let mut k: usize = 0;
        proof {
            assert(texts(all@).len() == all@.len());
            assert(texts(solid@) =~= Seq::empty());
        }
        while k < all.len()
            invariant
                k <= all@.len(),
                texts(all@) == lines(text@),
                all@.len() == lines(text@).len(),
                texts(solid@) == solid_lines(lines(text@), k as int),
            decreases all@.len() - k,
        {
            let line: &Vec<char> = &all[k];
            proof {
                assert(texts(all@)[k as int] == line@);
            }
            if trim(line).len() > 0 {
                let ghost before = solid@;
                let mut copy: Vec<char> = Vec::new();
                copy.extend_from_slice(line.as_slice());
                proof {
                    assert(copy@ =~= line@);
                }
                solid.push(copy);
                proof {
                    assert(texts(solid@) =~= texts(before).push(line@));
                }
            }
            k += 1;
        }
        let ghost v = solid_lines(lines(text@), lines(text@).len() as int);
        proof {
            assert(texts(solid@).len() == solid@.len());
        }
        if solid.len() == 0 {
            return Err(TableFault::Empty);
        }
        proof {
            assert(texts(solid@)[0] == solid@[0]@);
        }
        let cols: Vec<String> = trimmed_row(&solid[0]);
        let mut rows: Vec<Vec<String>> = Vec::new();
        let mut j: usize = 1;
        while j < solid.len()
            invariant
                1 <= j <= solid@.len(),
                texts(solid@) == v,
                solid@.len() == v.len(),
                v.len() > 0,
                v == solid_lines(lines(text@), lines(text@).len() as int),
                cols@.len() == fields(v[0], ',').len(),
                first_ragged(v, 1) == first_ragged(v, j as int),
                rows@.len() == j - 1,
                forall|i: int|
                    0 <= i < rows@.len() ==> strings((#[trigger] rows@[i])@) == trimmed_cells(
                        v[i + 1],
                    ),
            decreases solid@.len() - j,
        {
            proof {
                assert(texts(solid@)[j as int] == solid@[j as int]@);
            }
            let row: Vec<String> = trimmed_row(&solid[j]);
            if row.len() != cols.len() {
                return Err(TableFault::Ragged(j, row.len()));
            }
            rows.push(row);
            j += 1;
        }
        Ok(Table { cols, rows })
    }

    /// The position of the column called `name`, the last one if several are.
    pub fn column(&self, name: &str) -> (r: Option<usize>)
        ensures
            match r {
                Some(k) => column_below(strings(self.cols@), name@, self.cols@.len() as int)
                    == Some(k as int) && k < self.cols@.len(),
                None => column_below(
                    strings(self.cols@),
                    name@,
                    self.cols@.len() as int,
                ) is None,
            },
    {
        let mut k: usize = self.cols.len();
        while k > 0
            invariant
                k <= self.cols@.len(),
                column_below(strings(self.cols@), name@, self.cols@.len() as int)
                    == column_below(strings(self.cols@), name@, k as int),
            decreases k,
        {
            proof {
                assert(strings(self.cols@)[k - 1] == self.cols@[k - 1]@);
            }
            if crate::text::str_eq(self.cols[k - 1].as_str(), name) {
                return Some(k - 1);
            }
            k -= 1;
        }
        None
    }

    /// Whether there is a column called `name`.
    pub fn has(&self, name: &str) -> (r: bool)
        ensures
            r == column_below(strings(self.cols@), name@, self.cols@.len() as int) is Some,
    {
        self.column(name).is_some()
    }

    /// The cell of a row in the column called `name`.
    pub fn get(&self, row: usize, name: &str) -> (r: Option<&String>)
        requires
            row < self.rows@.len(),
            self.rows@[row as int]@.len() == self.cols@.len(),
        ensures
            match column_below(strings(self.cols@), name@, self.cols@.len() as int) {
                Some(k) => r matches Some(c) && *c == self.rows@[row as int]@[k],
                None => r is None,
            },
    {
        match self.column(name) {
            Some(k) => Some(&self.rows[row][k]),
            None => None,
        }
    }
}

proof fn lemma_none_ragged(v: Seq<Seq<char>>, from: int, k: int)
    requires
        0 <= from <= k < v.len(),
        first_ragged(v, from) is None,
    ensures
        fields(v[k], ',').len() == fields(v[0], ',').len(),
    decreases k - from,
{
    if from < k {
        lemma_none_ragged(v, from + 1, k);
    }
}

/// Every row of a table has a cell for every column.
pub proof fn law_rows_are_full(t: Table, text: Seq<char>, k: int)
    requires
        t.is_read(text),
        0 <= k < t.rows@.len(),
    ensures
        t.rows@[k]@.len() == t.cols@.len(),
{
    let v = solid_lines(lines(text), lines(text).len() as int);
    lemma_none_ragged(v, 1, k + 1);
    assert(strings(t.rows@[k]@).len() == t.rows@[k]@.len());
    assert(strings(t.cols@).len() == t.cols@.len());
}

proof fn lemma_solid(v: Seq<Seq<char>>, k: int)
    requires
        0 <= k <= v.len(),
    ensures
        solid_lines(v, k) == v.take(k).filter(|l: Seq<char>| trimmed(l).len() > 0),
    decreases k,
{
    reveal(Seq::filter);
    if k > 0 {
        lemma_solid(v, k - 1);
        assert(v.take(k).drop_last() =~= v.take(k - 1));
        assert(v.take(k).last() == v[k - 1]);
    } else {
        assert(v.take(k) =~= Seq::empty());
    }
}

/// Blank lines do not count.
pub proof fn law_blank_lines_do_not_count(v: Seq<Seq<char>>)
    ensures
        solid_lines(v, v.len() as int) == v.filter(|l: Seq<char>| trimmed(l).len() > 0),
{
    lemma_solid(v, v.len() as int);
    assert(v.take(v.len() as int) =~= v);
}

proof fn lemma_ragged(v: Seq<Seq<char>>, k: int)
    requires
        0 <= k,
    ensures
        match first_ragged(v, k) {
            Some(i) => k <= i < v.len() && fields(v[i], ',').len() != fields(v[0], ',').len()
                && forall|j: int|
                k <= j < i ==> fields(#[trigger] v[j], ',').len() == fields(v[0], ',').len(),
            None => forall|j: int|
                k <= j < v.len() ==> fields(#[trigger] v[j], ',').len() == fields(
                    v[0],
                    ',',
                ).len(),
        },
    decreases v.len() - k,
{
    if k < v.len() && fields(v[k], ',').len() == fields(v[0], ',').len() {
        lemma_ragged(v, k + 1);
    }
}

/// The first row with another number of cells than the header is at fault.
pub proof fn law_ragged_rows(v: Seq<Seq<char>>, i: int)
    requires
        1 <= i < v.len(),
    ensures
        fields(v[i], ',').len() != fields(v[0], ',').len() ==> (first_ragged(v, 1) matches Some(k)
            && 1 <= k <= i),
        first_ragged(v, 1) == Some(i) ==> fields(v[i], ',').len() != fields(v[0], ',').len(),
{
    lemma_ragged(v, 1);
    if first_ragged(v, 1) is None {
        assert(fields(v[i], ',').len() == fields(v[0], ',').len());
    }
}

proof fn lemma_column(cols: Seq<Seq<char>>, name: Seq<char>, k: int)
    requires
        0 <= k <= cols.len(),
    ensures
        match column_below(cols, name, k) {
            Some(i) => 0 <= i < k && cols[i] == name && forall|j: int|
                i < j < k ==> #[trigger] cols[j] != name,
            None => forall|j: int| 0 <= j < k ==> #[trigger] cols[j] != name,
        },
    decreases k,
{
    if k > 0 {
        lemma_column(cols, name, k - 1);
    }
}

/// Of several columns with one name the last counts.
pub proof fn law_last_column_counts(cols: Seq<Seq<char>>, i: int)
    requires
        0 <= i < cols.len(),
        forall|j: int| i < j < cols.len() ==> #[trigger] cols[j] != cols[i],
    ensures
        column_below(cols, cols[i], cols.len() as int) == Some(i),
{
    lemma_column(cols, cols[i], cols.len() as int);
}

/// Rows are the cells of the lines behind the header, between commas.
pub proof fn law_rows_follow_the_header(text: Seq<char>, k: int)
    requires
        0 <= k < lines(text).len() - 1,
    ensures
        rows_from(text, 1).len() == lines(text).len() - 1,
        rows_from(text, 1)[k] == fields(lines(text)[k + 1], ','),
{
}

} // verus!
