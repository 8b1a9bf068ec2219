use astar::grid::{stringify_line, symbolize_line, Symbol, SymbolIndexable};

#[test]
fn test_symbolize_line_one() {
    assert_eq!(
        symbolize_line("..x.s"),
        vec![
            Symbol::Open,
            Symbol::Open,
            Symbol::Closed,
            Symbol::Open,
            Symbol::Start
        ]
    );
}

#[test]
fn test_symbolize_line_two() {
    assert!(
        symbolize_line(".sx.sf..xx.x")
            == vec![
                Symbol::Open,
                Symbol::Start,
                Symbol::Closed,
                Symbol::Open,
                Symbol::Start,
                Symbol::Finish,
                Symbol::Open,
                Symbol::Open,
                Symbol::Closed,
                Symbol::Closed,
                Symbol::Open,
                Symbol::Closed
            ]
    );
}

#[test]
fn test_symbolize_line_three() {
    assert!(
        symbolize_line(".sx.sf..xx.x")
            != vec![
                Symbol::Start,
                Symbol::Open,
                Symbol::Closed,
                Symbol::Open,
                Symbol::Start,
                Symbol::Finish,
                Symbol::Open,
                Symbol::Open,
                Symbol::Closed,
                Symbol::Closed,
                Symbol::Open,
                Symbol::Closed
            ]
    );
}

#[test]
fn test_find_start() {
    let grid: Vec<Vec<Symbol>> = vec![
        vec![Symbol::Closed, Symbol::Open],
        vec![Symbol::Finish, Symbol::Open],
        vec![Symbol::Closed, Symbol::Start],
    ];
    assert!(grid.find(Symbol::Start) == (1, 2));
}

#[test]
fn test_find_finish() {
    let grid: Vec<Vec<Symbol>> = vec![
        vec![Symbol::Closed, Symbol::Open],
        vec![Symbol::Finish, Symbol::Open],
        vec![Symbol::Closed, Symbol::Start],
    ];
    assert!(grid.find(Symbol::Finish) == (0, 1));
}

#[test]
fn test_find_absent_marker_gives_origin() {
    let grid: Vec<Vec<Symbol>> = vec![vec![Symbol::Open, Symbol::Open]];
    assert_eq!(grid.find(Symbol::Route), (0, 0));
}

#[test]
fn test_at_and_set() {
    let mut grid: Vec<Vec<Symbol>> = vec![
        vec![Symbol::Start, Symbol::Open],
        vec![Symbol::Open, Symbol::Finish],
    ];
    assert_eq!(grid.at(1, 0), Symbol::Open);
    grid.set(1, 0, Symbol::Route);
    assert_eq!(grid.at(1, 0), Symbol::Route);
    assert_eq!(grid.at(0, 0), Symbol::Start);
}

#[test]
fn test_stringify_line_golden() {
    let row = vec![
        Symbol::Open,
        Symbol::Closed,
        Symbol::Start,
        Symbol::Finish,
        Symbol::Route,
    ];
    assert_eq!(stringify_line(&row), ".|sf@\n");
}

#[test]
fn test_round_trip_clears_route() {
    // Serializing a row and re-parsing the text reproduces the row with the
    // Route marker read back as Open; the trailing newline parses as one
    // extra Open cell.
    let row = vec![
        Symbol::Start,
        Symbol::Route,
        Symbol::Closed,
        Symbol::Open,
        Symbol::Finish,
    ];
    let text = stringify_line(&row);
    let parsed = symbolize_line(&text);
    assert_eq!(
        parsed,
        vec![
            Symbol::Start,
            Symbol::Open,
            Symbol::Closed,
            Symbol::Open,
            Symbol::Finish,
            Symbol::Open
        ]
    );
}
