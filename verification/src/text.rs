//! The bit-exact text form of a board: one line per row, highest row first,
//! one character pair per column — `'.'` empty, `'#'` black, `'O'` white,
//! each followed by a space.  Used for fixtures and debugging output.

use vstd::prelude::*;

use crate::board::Board;
use crate::location::Location;
use crate::stone::Stone;

verus! {

/// The character printed for one point.
pub open spec fn symbol(occ: Map<Location, Stone>, l: Location) -> char {
    if occ.dom().contains(l) {
        if occ[l] == Stone::Black {
            '#'
        } else {
            'O'
        }
    } else {
        '.'
    }
}

/// One printed row from column `col` on: symbol-space pairs, then a newline.
pub open spec fn render_row(occ: Map<Location, Stone>, size: nat, row: nat, col: nat) -> Seq<char>
    decreases size - col,
{
    if col >= size {
        seq!['\n']
    } else {
        seq![symbol(occ, Location { row: row as usize, col: col as usize }), ' '] + render_row(
            occ,
            size,
            row,
            (col + 1) as nat,
        )
    }
}

/// The printed rows `n-1` down to `0`.
pub open spec fn render_rows(occ: Map<Location, Stone>, size: nat, n: nat) -> Seq<char>
    decreases n,
{
    if n == 0 {
        Seq::empty()
    } else {
        render_row(occ, size, (n - 1) as nat, 0) + render_rows(occ, size, (n - 1) as nat)
    }
}

/// The whole text form: rows from the highest down to row zero.
pub open spec fn render(occ: Map<Location, Stone>, size: nat) -> Seq<char> {
    render_rows(occ, size, size)
}

/// What one character of a text fixture stands for: a black or white stone,
/// an empty point (`'.'`), or nothing at all — every other character,
/// spaces included, is ignored.
pub open spec fn cell_of(c: char) -> Option<Option<Stone>> {
    if c == '#' || c == 'X' {
        Some(Some(Stone::Black))
    } else if c == 'O' || c == 'o' {
        Some(Some(Stone::White))
    } else if c == '.' {
        Some(None)
    } else {
        None
    }
}

/// The cells of one text line, ignored characters dropped.
pub open spec fn cells_of(line: Seq<char>) -> Seq<Option<Stone>>
    decreases line.len(),
{
    if line.len() == 0 {
        Seq::empty()
    } else {
        let rest = cells_of(line.drop_first());
        match cell_of(line.first()) {
            Some(v) => seq![v] + rest,
            None => rest,
        }
    }
}

/// The lines of a text, split at `'\n'`; a final line ending opens no
/// further line.
pub open spec fn split_lines(s: Seq<char>) -> Seq<Seq<char>>
    decreases s.len(),
{
    if s.len() == 0 {
        Seq::empty()
    } else {
        let rest = split_lines(s.drop_first());
        if s.first() == '\n' {
            seq![Seq::<char>::empty()] + rest
        } else {
            if rest.len() == 0 {
                seq![seq![s.first()]]
            } else {
                seq![seq![s.first()] + rest.first()] + rest.drop_first()
            }
        }
    }
}

/// The cell rows of a text, top line first.
pub open spec fn text_rows(s: Seq<char>) -> Seq<Seq<Option<Stone>>> {
    split_lines(s).map_values(|line: Seq<char>| cells_of(line))
}

/// The widest row, in cells.
pub open spec fn max_row_len(rows: Seq<Seq<Option<Stone>>>) -> nat
    decreases rows.len(),
{
    if rows.len() == 0 {
        0
    } else {
        let m = max_row_len(rows.drop_last());
        if rows.last().len() > m {
            rows.last().len()
        } else {
            m
        }
    }
}

/// The side of the board a text describes: the larger of its widest row and
/// its number of rows — the board is square and anchored at the upper left.
pub open spec fn text_size(rows: Seq<Seq<Option<Stone>>>) -> nat {
    if max_row_len(rows) > rows.len() {
        max_row_len(rows)
    } else {
        rows.len()
    }
}

/// The occupancy a cell grid describes on a board of side `sz`: text row
/// `r` is board row `sz - 1 - r`, columns match.
pub open spec fn parsed_map(rows: Seq<Seq<Option<Stone>>>, sz: nat) -> Map<Location, Stone> {
    Map::new(
        |l: Location|
            l.col < sz && l.row < sz && sz - 1 - l.row < rows.len() && l.col < rows[sz - 1
                - l.row].len() && rows[sz - 1 - l.row][l.col as int] is Some,
        |l: Location| rows[sz - 1 - l.row][l.col as int].unwrap(),
    )
}

/// The rows still to come when a scan of `rest` begins with the cells `c`
/// already read on the current line, which has already begun iff `started`.
pub open spec fn rows_rest(c: Seq<Option<Stone>>, started: bool, rest: Seq<char>) -> Seq<
    Seq<Option<Stone>>,
>
    decreases rest.len(),
{
    if rest.len() == 0 {
        if started {
            seq![c]
        } else {
            Seq::empty()
        }
    } else if rest.first() == '\n' {
        seq![c] + rows_rest(Seq::empty(), false, rest.drop_first())
    } else {
        rows_rest(
            c + (match cell_of(rest.first()) {
                Some(v) => seq![v],
                None => Seq::empty(),
            }),
            true,
            rest.drop_first(),
        )
    }
}

/// A scan as `rows_rest` describes reproduces exactly the rows of the text.
proof fn lemma_rows_rest(c: Seq<Option<Stone>>, rest: Seq<char>)
    ensures
        rows_rest(c, true, rest) == (if split_lines(rest).len() == 0 {
            seq![c]
        } else {
            seq![c + cells_of(split_lines(rest).first())] + split_lines(
                rest,
            ).drop_first().map_values(|line: Seq<char>| cells_of(line))
        }),
        rows_rest(Seq::<Option<Stone>>::empty(), false, rest) == text_rows(rest),
    decreases rest.len(),
{
    let cf = |line: Seq<char>| cells_of(line);
    if rest.len() == 0 {
        assert(rows_rest(Seq::<Option<Stone>>::empty(), false, rest) =~= text_rows(rest));
        assert(rows_rest(c, true, rest) =~= seq![c]);
    } else {
        let tail = rest.drop_first();
        let lines_tail = split_lines(tail);
        let lines = split_lines(rest);
        lemma_rows_rest(Seq::<Option<Stone>>::empty(), tail);
        if rest.first() == '\n' {
            assert(lines == seq![Seq::<char>::empty()] + lines_tail);
            assert(lines.first() == Seq::<char>::empty());
            assert(cells_of(lines.first()) =~= Seq::<Option<Stone>>::empty());
            assert(lines.drop_first() =~= lines_tail);
            assert(rows_rest(c, true, rest) == seq![c] + rows_rest(
                Seq::<Option<Stone>>::empty(),
                false,
                tail,
            ));
            assert(rows_rest(c, true, rest) =~= (if lines.len() == 0 {
                seq![c]
            } else {
                seq![c + cells_of(lines.first())] + lines.drop_first().map_values(cf)
            }));
            assert(rows_rest(Seq::<Option<Stone>>::empty(), false, rest) == seq![
                Seq::<Option<Stone>>::empty(),
            ] + rows_rest(Seq::<Option<Stone>>::empty(), false, tail));
            assert(rows_rest(Seq::<Option<Stone>>::empty(), false, rest) =~= lines.map_values(cf));
        } else {
            let cc = (match cell_of(rest.first()) {
                Some(v) => seq![v],
                None => Seq::<Option<Stone>>::empty(),
            });
            lemma_rows_rest(c + cc, tail);
            lemma_rows_rest(cc, tail);
            // a character prepended to a line contributes its cell, if any
            assert forall|line: Seq<char>| true implies cells_of(seq![rest.first()] + line) == cc
                + cells_of(line) by {
                let whole = seq![rest.first()] + line;
                assert(whole.first() == rest.first());
                assert(whole.drop_first() =~= line);
                assert(cells_of(seq![rest.first()] + line) =~= cc + cells_of(line));
            }
            if lines_tail.len() == 0 {
                assert(lines == seq![seq![rest.first()]]);
                assert(rows_rest(c, true, rest) == rows_rest(c + cc, true, tail));
                assert(rows_rest(c + cc, true, tail) == seq![c + cc]);
                assert(cells_of(seq![rest.first()]) =~= cc) by {
                    assert(seq![rest.first()].drop_first() =~= Seq::<char>::empty());
                    assert(cells_of(Seq::<char>::empty()) =~= Seq::<Option<Stone>>::empty());
                }
                assert(rows_rest(c, true, rest) =~= seq![c + cells_of(lines.first())]
                    + lines.drop_first().map_values(cf));
                assert(rows_rest(Seq::<Option<Stone>>::empty(), false, rest) == rows_rest(
                    cc,
                    true,
                    tail,
                ));
                assert(rows_rest(cc, true, tail) == seq![cc]);
                assert(Seq::<Option<Stone>>::empty() + cc =~= cc);
                assert(rows_rest(Seq::<Option<Stone>>::empty(), false, rest) =~= lines.map_values(
                    cf,
                ));
            } else {
                assert(lines == seq![seq![rest.first()] + lines_tail.first()]
                    + lines_tail.drop_first());
                assert(lines.first() == seq![rest.first()] + lines_tail.first());
                assert(cells_of(lines.first()) == cc + cells_of(lines_tail.first()));
                assert(lines.drop_first() =~= lines_tail.drop_first());
                assert(rows_rest(c, true, rest) == rows_rest(c + cc, true, tail));
                assert(rows_rest(c + cc, true, tail) == seq![(c + cc) + cells_of(
                    lines_tail.first(),
                )] + lines_tail.drop_first().map_values(cf));
                assert((c + cc) + cells_of(lines_tail.first()) =~= c + cells_of(lines.first()));
                assert(rows_rest(c, true, rest) =~= seq![c + cells_of(lines.first())]
                    + lines.drop_first().map_values(cf));
                assert(rows_rest(Seq::<Option<Stone>>::empty(), false, rest) == rows_rest(
                    cc,
                    true,
                    tail,
                ));
                assert(Seq::<Option<Stone>>::empty() + cc =~= cc);
                assert(rows_rest(cc, true, tail) == seq![cc + cells_of(lines_tail.first())]
                    + lines_tail.drop_first().map_values(cf));
                assert(cc + cells_of(lines_tail.first()) == cells_of(lines.first()));
                assert(rows_rest(Seq::<Option<Stone>>::empty(), false, rest) =~= lines.map_values(
                    cf,
                ));
            }
        }
    }
}

/// One printed row without its final newline.
pub open spec fn row_chars(occ: Map<Location, Stone>, size: nat, row: nat, col: nat) -> Seq<char>
    decreases size - col,
{
    if col >= size {
        Seq::empty()
    } else {
        seq![symbol(occ, Location { row: row as usize, col: col as usize }), ' '] + row_chars(
            occ,
            size,
            row,
            (col + 1) as nat,
        )
    }
}

proof fn lemma_cells_of_prepend(a: char, x: Seq<char>)
    ensures
        cells_of(seq![a] + x) == (match cell_of(a) {
            Some(v) => seq![v] + cells_of(x),
            None => cells_of(x),
        }),
{
    let whole = seq![a] + x;
    assert(whole.first() == a);
    assert(whole.drop_first() =~= x);
    match cell_of(a) {
        Some(v) => {
            assert(cells_of(whole) =~= seq![v] + cells_of(x));
        },
        None => {
            assert(cells_of(whole) =~= cells_of(x));
        },
    }
}

/// Splitting text that begins with one printed row peels exactly that row.
proof fn lemma_split_render_row(
    occ: Map<Location, Stone>,
    size: nat,
    row: nat,
    col: nat,
    tail: Seq<char>,
)
    ensures
        split_lines(render_row(occ, size, row, col) + tail) == seq![row_chars(
            occ,
            size,
            row,
            col,
        )] + split_lines(tail),
    decreases size - col,
{
    if col >= size {
        let whole = render_row(occ, size, row, col) + tail;
        assert(whole.first() == '\n');
        assert(whole.drop_first() =~= tail);
        assert(split_lines(whole) =~= seq![row_chars(occ, size, row, col)] + split_lines(tail));
    } else {
        let l = Location { row: row as usize, col: col as usize };
        let sym = symbol(occ, l);
        let rest = render_row(occ, size, row, (col + 1) as nat) + tail;
        lemma_split_render_row(occ, size, row, (col + 1) as nat, tail);
        assert(split_lines(rest).len() > 0);
        // peel the space, then the symbol
        let with_space = seq![' '] + rest;
        assert(with_space.first() == ' ');
        assert(with_space.drop_first() =~= rest);
        assert(split_lines(with_space) == seq![seq![' '] + split_lines(rest).first()]
            + split_lines(rest).drop_first());
        let whole = render_row(occ, size, row, col) + tail;
        assert(whole.first() == sym);
        assert(sym != '\n');
        assert(whole.drop_first() =~= with_space);
        assert(split_lines(with_space).len() > 0);
        assert(split_lines(whole) == seq![seq![sym] + split_lines(with_space).first()]
            + split_lines(with_space).drop_first());
        assert(seq![sym] + split_lines(with_space).first() =~= row_chars(occ, size, row, col)) by {
            assert(split_lines(rest).first() == row_chars(occ, size, row, (col + 1) as nat));
        }
        assert(split_lines(with_space).drop_first() =~= split_lines(rest).drop_first());
        assert(split_lines(rest).drop_first() =~= split_lines(tail));
        assert(split_lines(whole) =~= seq![row_chars(occ, size, row, col)] + split_lines(tail));
    }
}

/// The rendered text splits into exactly `n` printed rows.
proof fn lemma_split_render_rows(occ: Map<Location, Stone>, size: nat, n: nat)
    ensures
        split_lines(render_rows(occ, size, n)) == Seq::new(
            n,
            |k: int| row_chars(occ, size, (n - 1 - k) as nat, 0),
        ),
    decreases n,
{
    if n == 0 {
        assert(split_lines(render_rows(occ, size, n)) =~= Seq::new(
            n,
            |k: int| row_chars(occ, size, (n - 1 - k) as nat, 0),
        ));
    } else {
        lemma_split_render_rows(occ, size, (n - 1) as nat);
        lemma_split_render_row(occ, size, (n - 1) as nat, 0, render_rows(occ, size, (n - 1) as nat));
        assert(split_lines(render_rows(occ, size, n)) =~= Seq::new(
            n,
            |k: int| row_chars(occ, size, (n - 1 - k) as nat, 0),
        ));
    }
}

/// The cells read back from one printed row are the row's occupancy.
proof fn lemma_cells_of_row_chars(occ: Map<Location, Stone>, size: nat, row: nat, col: nat)
    requires
        col <= size,
    ensures
        cells_of(row_chars(occ, size, row, col)) == Seq::new(
            (size - col) as nat,
            |j: int|
                if occ.dom().contains(
                    Location { row: row as usize, col: (col + j) as usize },
                ) {
                    Some(occ[Location { row: row as usize, col: (col + j) as usize }])
                } else {
                    None
                },
        ),
    decreases size - col,
{
    if col >= size {
        assert(row_chars(occ, size, row, col) == Seq::<char>::empty());
        assert(cells_of(Seq::<char>::empty()) == Seq::<Option<Stone>>::empty());
        assert(cells_of(row_chars(occ, size, row, col)) =~= Seq::new(
            (size - col) as nat,
            |j: int|
                if occ.dom().contains(
                    Location { row: row as usize, col: (col + j) as usize },
                ) {
                    Some(occ[Location { row: row as usize, col: (col + j) as usize }])
                } else {
                    None
                },
        ));
    } else {
        let l = Location { row: row as usize, col: col as usize };
        let sym = symbol(occ, l);
        lemma_cells_of_row_chars(occ, size, row, (col + 1) as nat);
        let after = row_chars(occ, size, row, (col + 1) as nat);
        lemma_cells_of_prepend(' ', after);
        lemma_cells_of_prepend(sym, seq![' '] + after);
        assert(seq![sym] + (seq![' '] + after) =~= row_chars(occ, size, row, col));
        assert(cell_of(sym) == Some(
            if occ.dom().contains(l) {
                Some(occ[l])
            } else {
                None
            },
        ));
        assert(cells_of(row_chars(occ, size, row, col)) =~= Seq::new(
            (size - col) as nat,
            |j: int|
                if occ.dom().contains(
                    Location { row: row as usize, col: (col + j) as usize },
                ) {
                    Some(occ[Location { row: row as usize, col: (col + j) as usize }])
                } else {
                    None
                },
        ));
    }
}

proof fn lemma_max_row_len_const(rows: Seq<Seq<Option<Stone>>>, size: nat)
    requires
        forall|k: int| 0 <= k < rows.len() ==> (#[trigger] rows[k]).len() == size,
    ensures
        max_row_len(rows) == if rows.len() == 0 {
            0
        } else {
            size
        },
    decreases rows.len(),
{
    if rows.len() > 0 {
        assert(forall|k: int|
            0 <= k < rows.drop_last().len() ==> (#[trigger] rows.drop_last()[k]).len() == size);
        lemma_max_row_len_const(rows.drop_last(), size);
        assert(rows[rows.len() - 1].len() == size);
    }
}

/// Round trip: the text form of a board, read back, gives the same board —
/// the same side and exactly the same occupancy.
pub proof fn lemma_text_round_trip(occ: Map<Location, Stone>, size: nat)
    requires
        forall|l: Location| #[trigger] occ.dom().contains(l) ==> l.col < size && l.row < size,
    ensures
        text_size(text_rows(render(occ, size))) == size,
        parsed_map(text_rows(render(occ, size)), size) == occ,
{
    let rows = text_rows(render(occ, size));
    lemma_split_render_rows(occ, size, size);
    assert forall|k: int| 0 <= k < size implies #[trigger] rows[k] == Seq::new(
        size,
        |j: int|
            if occ.dom().contains(Location { row: (size - 1 - k) as usize, col: j as usize }) {
                Some(occ[Location { row: (size - 1 - k) as usize, col: j as usize }])
            } else {
                None
            },
    ) by {
        assert(split_lines(render(occ, size))[k] == row_chars(occ, size, (size - 1 - k) as nat, 0));
        lemma_cells_of_row_chars(occ, size, (size - 1 - k) as nat, 0);
        assert(rows[k] == cells_of(row_chars(occ, size, (size - 1 - k) as nat, 0)));
        assert(rows[k] =~= Seq::new(
            size,
            |j: int|
                if occ.dom().contains(
                    Location { row: (size - 1 - k) as usize, col: j as usize },
                ) {
                    Some(occ[Location { row: (size - 1 - k) as usize, col: j as usize }])
                } else {
                    None
                },
        ));
    }
    assert(rows.len() == size);
    lemma_max_row_len_const(rows, size);
    assert(text_size(rows) == size);
    assert forall|l: Location| true implies #[trigger] parsed_map(rows, size).dom().contains(l)
        == occ.dom().contains(l) && (parsed_map(rows, size).dom().contains(l) ==> parsed_map(
        rows,
        size,
    )[l] == occ[l]) by {
        if l.col < size && l.row < size {
            let k = size - 1 - l.row;
            assert(rows[k].len() == size);
            assert(rows[k][l.col as int] == (if occ.dom().contains(l) {
                Some(occ[l])
            } else {
                None
            })) by {
                assert((size - 1 - k) as usize == l.row);
            }
        }
    }
    assert(parsed_map(rows, size) =~= occ);
}

/// The views of a list of cell rows.
pub open spec fn row_views(layout: Seq<Vec<Option<Stone>>>) -> Seq<Seq<Option<Stone>>> {
    layout.map_values(|v: Vec<Option<Stone>>| v@)
}

impl Board {
    /// Build a board from its text form: each input line is one row, the
    /// first line the highest; `.` empty, `#` or `X` black, `O` or `o`
    /// white; every other character is ignored.  The board is square, of
    /// side `max(widest row in cells, number of lines)`, anchored at the
    /// upper left.
    #[verifier::loop_isolation(false)]
    pub fn from_text(s: &str) -> (r: Board)
        requires
            s@.len() * s@.len() <= usize::MAX,
        ensures
            r.wf(),
            r.spec_size() == text_size(text_rows(s@)),
            r@ == parsed_map(text_rows(s@), text_size(text_rows(s@))),
    {
        let ghost rows = text_rows(s@);
        let n = s.unicode_len();
        let mut layout: Vec<Vec<Option<Stone>>> = Vec::new();
        let mut cur: Vec<Option<Stone>> = Vec::new();
        let mut started = false;
        let mut i: usize = 0;
        proof {
            lemma_rows_rest(Seq::<Option<Stone>>::empty(), s@);
            assert(s@.subrange(0, n as int) =~= s@);
            assert(row_views(layout@) + rows_rest(cur@, started, s@.subrange(0, n as int)) =~= rows);
        }
        while i < n
            invariant
                0 <= i <= n,
                row_views(layout@) + rows_rest(cur@, started, s@.subrange(i as int, n as int))
                    == rows,
                layout@.len() + (if started {
                    1int
                } else {
                    0int
                }) <= i,
                cur@.len() <= i,
                !started ==> cur@.len() == 0,
                forall|k: int| 0 <= k < layout@.len() ==> (#[trigger] layout@[k])@.len() <= n,
            decreases n - i,
        {
            let ghost layout0 = layout@;
            let ghost cur0 = cur@;
            let ghost sub = s@.subrange(i as int, n as int);
            let c = s.get_char(i);
            proof {
                assert(sub.first() == c);
                assert(sub.drop_first() =~= s@.subrange(i as int + 1, n as int));
            }
            if c == '\n' {
                let done = cur;
                cur = Vec::new();
                layout.push(done);
                started = false;
                proof {
                    assert(rows_rest(cur0, true, sub) == seq![cur0] + rows_rest(
                        Seq::<Option<Stone>>::empty(),
                        false,
                        sub.drop_first(),
                    ));
                    assert(rows_rest(cur0, false, sub) == seq![cur0] + rows_rest(
                        Seq::<Option<Stone>>::empty(),
                        false,
                        sub.drop_first(),
                    ));
                    assert(row_views(layout@) =~= row_views(layout0).push(cur0));
                    assert(row_views(layout@) + rows_rest(
                        cur@,
                        started,
                        s@.subrange(i as int + 1, n as int),
                    ) =~= rows);
                }
            } else {
                if c == '#' || c == 'X' {
                    cur.push(Some(Stone::Black));
                } else if c == 'O' || c == 'o' {
                    cur.push(Some(Stone::White));
                } else if c == '.' {
                    cur.push(None);
                }
                started = true;
                proof {
                    assert(cur@ =~= cur0 + (match cell_of(c) {
                        Some(v) => seq![v],
                        None => Seq::<Option<Stone>>::empty(),
                    }));
                    assert(rows_rest(cur0, (if cur0.len() == 0 {
                        false
                    } else {
                        true
                    }), sub) == rows_rest(cur@, true, sub.drop_first()));
                    assert(row_views(layout@) + rows_rest(
                        cur@,
                        started,
                        s@.subrange(i as int + 1, n as int),
                    ) =~= rows);
                }
            }
            i = i + 1;
        }
        proof {
            assert(s@.subrange(n as int, n as int) =~= Seq::<char>::empty());
        }
        if started {
            let ghost layout0 = layout@;
            layout.push(cur);
            proof {
                assert(row_views(layout@) =~= row_views(layout0).push(cur@));
                assert(row_views(layout@) =~= rows);
            }
        } else {
            proof {
                assert(row_views(layout@) =~= rows);
            }
        }
        // the board side: the larger of the widest row and the row count
        let mut w: usize = 0;
        let mut k: usize = 0;
        while k < layout.len()
            invariant
                0 <= k <= layout@.len(),
                row_views(layout@) == rows,
                w == max_row_len(rows.subrange(0, k as int)),
                w <= n,
                forall|j: int| 0 <= j < k ==> (#[trigger] rows[j]).len() <= w,
            decreases layout@.len() - k,
        {
            proof {
                assert(rows.subrange(0, k as int + 1).drop_last() =~= rows.subrange(0, k as int));
                assert(rows.subrange(0, k as int + 1).last() == rows[k as int]);
                assert(rows[k as int] == layout@[k as int]@);
            }
            if layout[k].len() > w {
                w = layout[k].len();
            }
            k = k + 1;
        }
        proof {
            assert(rows.subrange(0, rows.len() as int) =~= rows);
        }
        let h = layout.len();
        let sz = if w > h {
            w
        } else {
            h
        };
        proof {
            assert(sz * sz <= n * n) by (nonlinear_arith)
                requires
                    0 <= sz <= n,
            ;
            assert(sz == text_size(rows));
        }
        let mut board = Board::new_with_size(sz);
        let mut rnum: usize = 0;
        while rnum < h
            invariant
                0 <= rnum <= h,
                board.wf(),
                board.spec_size() == sz,
                forall|l: Location|
                    #[trigger] board@.dom().contains(l) <==> (parsed_map(rows, sz as nat).dom().contains(
                        l,
                    ) && sz - 1 - l.row < rnum),
                forall|l: Location|
                    #[trigger] board@.dom().contains(l) ==> board@[l] == parsed_map(
                        rows,
                        sz as nat,
                    )[l],
            decreases h - rnum,
        {
            let rowlen = layout[rnum].len();
            let mut cnum: usize = 0;
            while cnum < rowlen
                invariant
                    0 <= cnum <= rowlen,
                    0 <= rnum < h,
                    rowlen == rows[rnum as int].len(),
                    board.wf(),
                    board.spec_size() == sz,
                    forall|l: Location|
                        #[trigger] board@.dom().contains(l) <==> (parsed_map(
                            rows,
                            sz as nat,
                        ).dom().contains(l) && (sz - 1 - l.row < rnum || (sz - 1 - l.row == rnum
                            && l.col < cnum))),
                    forall|l: Location|
                        #[trigger] board@.dom().contains(l) ==> board@[l] == parsed_map(
                            rows,
                            sz as nat,
                        )[l],
                decreases rowlen - cnum,
            {
                let ghost b0 = board@;
                let cell = layout[rnum][cnum];
                let loc = Location::new(cnum, sz - 1 - rnum);
                if let Some(st) = cell {
                    let _ = board.add(loc, st);
                }
                cnum = cnum + 1;
                proof {
                    assert forall|l: Location| #[trigger] board@.dom().contains(l) <==> (
                    parsed_map(rows, sz as nat).dom().contains(l) && (sz - 1 - l.row < rnum || (sz
                        - 1 - l.row == rnum && l.col < cnum))) by {
                        if l == loc {
                        } else {
                            assert(b0.dom().contains(l) == board@.dom().contains(l));
                            if sz - 1 - l.row == rnum && l.col == cnum - 1 {
                                assert(l.row == sz - 1 - rnum && l.col == cnum - 1);
                            }
                        }
                    }
                }
            }
            rnum = rnum + 1;
            proof {
                assert forall|l: Location|
                    parsed_map(rows, sz as nat).dom().contains(l) && sz - 1 - l.row
                        < rnum implies #[trigger] board@.dom().contains(l) by {
                    if sz - 1 - l.row == rnum - 1 {
                        assert(l.col < rows[rnum - 1].len());
                    }
                }
            }
        }
        proof {
            assert forall|l: Location|
                parsed_map(rows, sz as nat).dom().contains(l) implies sz - 1 - l.row < h by {}
            assert(board@ =~= parsed_map(rows, sz as nat));
        }
        board
    }

    /// The text form of this board.
    #[verifier::loop_isolation(false)]
    pub fn to_text(&self) -> (r: String)
        requires
            self.wf(),
        ensures
            r@ == render(self@, self.spec_size()),
    {
        proof {
            reveal_strlit(". ");
            reveal_strlit("# ");
            reveal_strlit("O ");
            reveal_strlit("\n");
        }
        let sz = self.size();
        let mut out = String::new();
        let mut i: usize = 0;
        while i < sz
            invariant
                0 <= i <= sz,
                out@ + render_rows(self@, sz as nat, (sz - i) as nat) == render(
                    self@,
                    self.spec_size(),
                ),
            decreases sz - i,
        {
            let row = sz - 1 - i;
            let mut col: usize = 0;
            while col < sz
                invariant
                    0 <= col <= sz,
                    0 <= i < sz,
                    row == sz - 1 - i,
                    out@ + render_row(self@, sz as nat, row as nat, col as nat) + render_rows(
                        self@,
                        sz as nat,
                        (sz - i - 1) as nat,
                    ) == render(self@, self.spec_size()),
                decreases sz - col,
            {
                let l = Location::new(col, row);
                let here = self.get(l);
                match here {
                    None => {
                        out.append(". ");
                        proof {
                            assert(symbol(self@, l) == '.');
                        }
                    },
                    Some(Stone::Black) => {
                        out.append("# ");
                        proof {
                            assert(symbol(self@, l) == '#');
                        }
                    },
                    Some(Stone::White) => {
                        out.append("O ");
                        proof {
                            assert(symbol(self@, l) == 'O');
                        }
                    },
                }
                col = col + 1;
                proof {
                    assert(render_row(self@, sz as nat, row as nat, (col - 1) as nat) =~= seq![
                        symbol(self@, l),
                        ' ',
                    ] + render_row(self@, sz as nat, row as nat, col as nat));
                    assert(out@ + render_row(self@, sz as nat, row as nat, col as nat)
                        + render_rows(self@, sz as nat, (sz - i - 1) as nat) =~= render(
                        self@,
                        self.spec_size(),
                    ));
                }
            }
            out.append("\n");
            i = i + 1;
            proof {
                assert(render_row(self@, sz as nat, (sz - i) as nat, sz as nat) =~= seq!['\n']);
                assert(out@ + render_rows(self@, sz as nat, (sz - i) as nat) =~= render(
                    self@,
                    self.spec_size(),
                ));
            }
        }
        proof {
            assert(out@ =~= render(self@, self.spec_size()));
        }
        out
    }
}

} // verus!
