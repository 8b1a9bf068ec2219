//! The grid of cell markers: bounds-checked access, a row-major scan for a
//! marker, and the textual form of a row.

use vstd::prelude::*;

verus! {

/// The marker held by one grid cell.
///
/// `Route` is output-only: it never appears in a well-formed input grid and is
/// written by the solver along the discovered path.
#[derive(Clone, Copy, Debug, PartialEq, Eq, Structural)]
pub enum Symbol {
    Start,
    Finish,
    Open,
    Closed,
    Route,
}

/// A grid is a vector of rows; a cell is addressed by `(x, y)` with `x` the
/// column inside row `y`.
pub type Grid = Vec<Vec<Symbol>>;

/// The mathematical model of a grid: its rows as sequences.
pub open spec fn rows_of(g: &Grid) -> Seq<Seq<Symbol>> {
    Seq::new(g@.len(), |y: int| g@[y]@)
}

/// All rows have the same length as the first one.
pub open spec fn rectangular(g: Seq<Seq<Symbol>>) -> bool {
    forall|y: int| 0 <= y < g.len() ==> (#[trigger] g[y]).len() == g[0].len()
}

/// `(x, y)` addresses a cell of `g`.
pub open spec fn in_bounds(g: Seq<Seq<Symbol>>, x: int, y: int) -> bool {
    0 <= y < g.len() && 0 <= x < g[y].len()
}

/// Some cell of `g` holds `t`.
pub open spec fn has_marker(g: Seq<Seq<Symbol>>, t: Symbol) -> bool {
    exists|x: int, y: int| in_bounds(g, x, y) && g[y][x] == t
}

/// `(x, y)` is the first cell holding `t` in row-major order: every earlier
/// row is free of `t`, and so is the part of row `y` left of `x`.
pub open spec fn first_match(g: Seq<Seq<Symbol>>, t: Symbol, x: int, y: int) -> bool {
    &&& in_bounds(g, x, y)
    &&& g[y][x] == t
    &&& forall|xp: int, yp: int| 0 <= yp < y && 0 <= xp < g[yp].len() ==> g[yp][xp] != t
    &&& forall|xp: int| 0 <= xp < x ==> g[y][xp] != t
}

/// Exactly one cell of `g` holds `t`.
pub open spec fn exactly_one(g: Seq<Seq<Symbol>>, t: Symbol) -> bool {
    &&& has_marker(g, t)
    &&& forall|x1: int, y1: int, x2: int, y2: int|
        in_bounds(g, x1, y1) && in_bounds(g, x2, y2) && g[y1][x1] == t && g[y2][x2] == t
            ==> x1 == x2 && y1 == y2
}

/// Read, write and scan access to a grid of markers.
pub trait SymbolIndexable {
    /// The cells being indexed, as a sequence of rows.
    spec fn cells(&self) -> Seq<Seq<Symbol>>;

    /// The marker at column `x` of row `y`.
    fn at(&self, x: u64, y: u64) -> (r: Symbol)
        requires
            in_bounds(self.cells(), x as int, y as int),
        ensures
            r == self.cells()[y as int][x as int],
    ;

    /// Overwrites the marker at column `x` of row `y`.
    fn set(&mut self, x: u64, y: u64, value: Symbol)
        requires
            in_bounds(old(self).cells(), x as int, y as int),
        ensures
            final(self).cells() == old(self).cells().update(
                y as int,
                old(self).cells()[y as int].update(x as int, value),
            ),
    ;

    /// The first coordinate holding `target` in row-major order, or `(0, 0)`
    /// when no cell holds it.
    fn find(&self, target: Symbol) -> (r: (u64, u64))
        ensures
            has_marker(self.cells(), target) ==> first_match(
                self.cells(),
                target,
                r.0 as int,
                r.1 as int,
            ),
            !has_marker(self.cells(), target) ==> r == (0u64, 0u64),
    ;
}

impl SymbolIndexable for Grid {
    open spec fn cells(&self) -> Seq<Seq<Symbol>> {
        rows_of(self)
    }

    fn at(&self, x: u64, y: u64) -> (r: Symbol) {
        proof {
            assert(rows_of(self)[y as int] == self@[y as int]@);
            assert(self@.len() == self.len());
            assert(self@[y as int]@.len() == self@[y as int].len());
        }
        self[y as usize][x as usize]
    }

    fn set(&mut self, x: u64, y: u64, value: Symbol) {
        proof {
            assert(rows_of(self)[y as int] == self@[y as int]@);
            assert(self@.len() == self.len());
            assert(self@[y as int]@.len() == self@[y as int].len());
        }
        self[y as usize][x as usize] = value;
        proof {
            assert(final(self).cells() =~= old(self).cells().update(
                y as int,
                old(self).cells()[y as int].update(x as int, value),
            ));
        }
    }

    fn find(&self, target: Symbol) -> (r: (u64, u64)) {
        let height: usize = self.len();
        let mut y: usize = 0;
        while y < height
            invariant
                height == self.cells().len(),
                0 <= y <= height,
                forall|xp: int, yp: int|
                    0 <= yp < y && 0 <= xp < self.cells()[yp].len()
                        ==> self.cells()[yp][xp] != target,
            decreases height - y,
        {
            let row_len: usize = self[y].len();
            let mut x: usize = 0;
            while x < row_len
                invariant
                    y < height,
                    height == self.cells().len(),
                    row_len == self.cells()[y as int].len(),
                    0 <= x <= row_len,
                    forall|xp: int| 0 <= xp < x ==> self.cells()[y as int][xp] != target,
                    forall|xp: int, yp: int|
                        0 <= yp < y && 0 <= xp < self.cells()[yp].len()
                            ==> self.cells()[yp][xp] != target,
                decreases row_len - x,
            {
                if self[y][x] == target {
                    proof {
                        assert(in_bounds(self.cells(), x as int, y as int)
                            && self.cells()[y as int][x as int] == target);
                        assert(has_marker(self.cells(), target));
                    }
                    return (x as u64, y as u64);
                }
                x = x + 1;
            }
            y = y + 1;
        }
        proof {
            assert(!has_marker(self.cells(), target));
        }
        (0u64, 0u64)
    }
}

/// The output character for a marker.
pub open spec fn char_of(s: Symbol) -> char {
    match s {
        Symbol::Open => '.',
        Symbol::Closed => '|',
        Symbol::Start => 's',
        Symbol::Finish => 'f',
        Symbol::Route => '@',
    }
}

/// The marker read from an input character: anything unrecognized is `Open`.
pub open spec fn symbol_of(c: char) -> Symbol {
    if c == 's' {
        Symbol::Start
    } else if c == 'f' {
        Symbol::Finish
    } else if c == 'x' || c == '|' {
        Symbol::Closed
    } else {
        Symbol::Open
    }
}

/// Replaces every `Route` marker by `Open`, leaving the rest of the row as it
/// is: the structure a reader of the textual form can still see.
pub open spec fn route_cleared(row: Seq<Symbol>) -> Seq<Symbol> {
    row.map_values(|s: Symbol| if s == Symbol::Route { Symbol::Open } else { s })
}

/// Parses one line of input into a row of markers: `s` is `Start`, `f` is
/// `Finish`, `x` and `|` are `Closed`, and any other character is `Open`.
pub fn symbolize_line(line: &str) -> (row: Vec<Symbol>)
    ensures
        row@ == line@.map_values(|c: char| symbol_of(c)),
{
    let len: usize = line.unicode_len();
    let mut row: Vec<Symbol> = Vec::new();
    let mut i: usize = 0;
    while i < len
        invariant
            len == line@.len(),
            0 <= i <= len,
            row@ == line@.take(i as int).map_values(|c: char| symbol_of(c)),
        decreases len - i,
    {
        let c = line.get_char(i);
        if c == 's' {
            row.push(Symbol::Start);
        } else if c == 'f' {
            row.push(Symbol::Finish);
        } else if c == 'x' || c == '|' {
            row.push(Symbol::Closed);
        } else {
            row.push(Symbol::Open);
        }
        i = i + 1;
        proof {
            assert(line@.take(i as int).map_values(|c: char| symbol_of(c)) =~= line@.take(
                i - 1,
            ).map_values(|c: char| symbol_of(c)).push(symbol_of(line@[i - 1])));
        }
    }
    proof {
        assert(line@.take(len as int) =~= line@);
    }
    row
}

/// Serializes a row of markers as one newline-terminated line of text.
pub fn stringify_line(line: &Vec<Symbol>) -> (text: String)
    ensures
        text@ == line@.map_values(|s: Symbol| char_of(s)).push('\n'),
{
    let mut text = String::new();
    let mut i: usize = 0;
    proof {
        reveal_strlit(".");
        reveal_strlit("|");
        reveal_strlit("s");
        reveal_strlit("f");
        reveal_strlit("@");
        reveal_strlit("\n");
    }
    while i < line.len()
        invariant
            0 <= i <= line@.len(),
            text@ == line@.take(i as int).map_values(|s: Symbol| char_of(s)),
        decreases line@.len() - i,
    {
        proof {
            reveal_strlit(".");
            reveal_strlit("|");
            reveal_strlit("s");
            reveal_strlit("f");
            reveal_strlit("@");
        }
        match line[i] {
            Symbol::Open => text.append("."),
            Symbol::Closed => text.append("|"),
            Symbol::Start => text.append("s"),
            Symbol::Finish => text.append("f"),
            Symbol::Route => text.append("@"),
        }
        i = i + 1;
        proof {
            assert(text@ =~= line@.take(i as int).map_values(|s: Symbol| char_of(s)));
        }
    }
    proof {
        assert(line@.take(line@.len() as int) =~= line@);
    }
    text.append("\n");
    proof {
        assert(text@ =~= line@.map_values(|s: Symbol| char_of(s)).push('\n'));
    }
    text
}

/// Reading back a marker's output character gives the marker itself, except
/// that `Route` reads back as `Open`: the path annotation is output-only.
pub proof fn lemma_symbol_round_trip(s: Symbol)
    ensures
        symbol_of(char_of(s)) == (if s == Symbol::Route {
            Symbol::Open
        } else {
            s
        }),
{
}

/// Round trip of one row: serializing a row and re-parsing the resulting line
/// (including its terminating newline, which reads back as one extra `Open`)
/// reproduces the row with every `Route` marker cleared to `Open`.
pub proof fn lemma_row_round_trip(row: Seq<Symbol>)
    ensures
        row.map_values(|s: Symbol| char_of(s)).push('\n').map_values(|c: char| symbol_of(c))
            == route_cleared(row).push(Symbol::Open),
{
    let text = row.map_values(|s: Symbol| char_of(s)).push('\n');
    assert forall|i: int| 0 <= i < text.len() implies #[trigger] symbol_of(text[i]) == (if i
        < row.len() {
        route_cleared(row)[i]
    } else {
        Symbol::Open
    }) by {
        if i < row.len() {
            lemma_symbol_round_trip(row[i]);
        }
    }
    assert(text.map_values(|c: char| symbol_of(c)) =~= route_cleared(row).push(Symbol::Open));
}

} // verus!
