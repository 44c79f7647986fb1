use playground::lifegame::{BadLine, Cell, Life};
use playground::minesweeper::annotate;

#[test]
fn annotate_counts_neighbouring_mines() {
    assert_eq!(annotate(&[]), Vec::<String>::new());
    assert_eq!(annotate(&[""]), vec![""]);
    assert_eq!(annotate(&["   ", "   ", "   "]), vec!["   ", "   ", "   "]);
    assert_eq!(annotate(&["***", "***", "***"]), vec!["***", "***", "***"]);
    assert_eq!(annotate(&["   ", " * ", "   "]), vec!["111", "1*1", "111"]);
    assert_eq!(annotate(&["***", "* *", "***"]), vec!["***", "*8*", "***"]);
    assert_eq!(
        annotate(&[" *  * ", "  *   ", "    * ", "   * *", " *  * ", "      "]),
        vec!["1*22*1", "12*322", " 123*2", "112*4*", "1*22*2", "111111"]
    );
}

#[test]
fn annotate_takes_its_width_from_the_first_row() {
    assert_eq!(annotate(&["  ", "*"]), vec!["11", "*1"]);
    assert_eq!(annotate(&[" ", " *"]), vec![" ", " "]);
}

fn cells(life: &Life) -> Vec<String> {
    life.render()
}

#[test]
fn life_loads_and_renders() {
    let life = Life::load(&["..*", "*.."]).unwrap();
    assert_eq!(cells(&life), vec!["..*", "*.."]);
    assert!(life.get(2, 0) == Cell::Alive);
    assert!(life.get(1, 0) == Cell::Dead);
    assert!(life.get(0, 1) == Cell::Alive);
    assert!(matches!(Life::load(&["..", ".x"]), Err(BadLine { line: 1 })));
    assert!(matches!(Life::load(&["o"]), Err(BadLine { line: 0 })));
}

#[test]
fn life_counts_neighbours() {
    let life = Life::load(&["***", "***", "***"]).unwrap();
    assert_eq!(life.num_of_alive_neighbor(1, 1), 8);
    assert_eq!(life.num_of_alive_neighbor(0, 0), 3);
    assert_eq!(life.num_of_alive_neighbor(1, 0), 5);
    assert_eq!(life.num_of_alive_neighbor(2, 2), 3);
    let life = Life::load(&["...", ".*.", "..."]).unwrap();
    assert_eq!(life.num_of_alive_neighbor(1, 1), 0);
    assert_eq!(life.num_of_alive_neighbor(0, 0), 1);
}

#[test]
fn life_update_follows_the_rules() {
    // a blinker turns
    let mut life = Life::load(&[".....", "..*..", "..*..", "..*..", "....."]).unwrap();
    life.update();
    assert_eq!(cells(&life), vec![".....", ".....", ".***.", ".....", "....."]);
    life.update();
    assert_eq!(cells(&life), vec![".....", "..*..", "..*..", "..*..", "....."]);
    // a block stays
    let mut life = Life::load(&["....", ".**.", ".**.", "...."]).unwrap();
    life.update();
    assert_eq!(cells(&life), vec!["....", ".**.", ".**.", "...."]);
    // a cell with one neighbour dies, a cell with none stays
    let mut life = Life::load(&["**..", "....", "...*"]).unwrap();
    life.update();
    assert_eq!(cells(&life), vec!["....", "....", "...*"]);
    // a cell with four neighbours dies
    let mut life = Life::load(&["*.*", ".*.", "*.*"]).unwrap();
    life.update();
    assert_eq!(cells(&life), vec![".*.", "*.*", ".*."]);
}
