use engine::board::Board;
use engine::common::coordinate::Coordinate;
use engine::common::rotation::Rotation;
use engine::environment::{DropType, Environment};
use engine::file::corners::Corners;
use engine::file::kicks::Kicks;
use engine::file::piece::Bag;
use engine::finesse::{Finesse, Key, Pair};
use engine::input::Input;
use engine::history::History;
use engine::pc::generate_all_pc_queues;
use engine::piece::Piece;
use engine::repl::{Fingerprint, State};

const SHAPES: &str = "\
I.N=(-1,0)(0,0)(1,0)(2,0)@I
I.E=(1,1)(1,0)(1,-1)(1,-2)@I
I.S=(-1,-1)(0,-1)(1,-1)(2,-1)@I
I.W=(0,1)(0,0)(0,-1)(0,-2)@I
J.N=(-1,1)(-1,0)(0,0)(1,0)@J
J.E=(0,1)(1,1)(0,0)(0,-1)@J
J.S=(-1,0)(0,0)(1,0)(1,-1)@J
J.W=(0,1)(0,0)(-1,-1)(0,-1)@J
L.N=(1,1)(-1,0)(0,0)(1,0)@L
L.E=(0,1)(0,0)(0,-1)(1,-1)@L
L.S=(-1,0)(0,0)(1,0)(-1,-1)@L
L.W=(-1,1)(0,1)(0,0)(0,-1)@L
O.N=(0,0)(1,0)(0,1)(1,1)@O
O.E=(0,0)(1,0)(0,1)(1,1)@O
O.S=(0,0)(1,0)(0,1)(1,1)@O
O.W=(0,0)(1,0)(0,1)(1,1)@O
S.N=(0,1)(1,1)(-1,0)(0,0)@S
S.E=(0,1)(0,0)(1,0)(1,-1)@S
S.S=(0,0)(1,0)(-1,-1)(0,-1)@S
S.W=(-1,1)(-1,0)(0,0)(0,-1)@S
T.N=(0,1)(-1,0)(0,0)(1,0)@T
T.E=(0,1)(0,0)(1,0)(0,-1)@T
T.S=(-1,0)(0,0)(1,0)(0,-1)@T
T.W=(0,1)(-1,0)(0,0)(0,-1)@T
Z.N=(-1,1)(0,1)(0,0)(1,0)@Z
Z.E=(1,1)(0,0)(1,0)(0,-1)@Z
Z.S=(-1,0)(0,0)(0,-1)(1,-1)@Z
Z.W=(0,1)(-1,0)(0,0)(-1,-1)@Z
";

const CORNERS: &str = "\
T.N=(-1,-1)(1,-1)(-1,1)(1,1)
T.E=(-1,-1)(1,-1)(-1,1)(1,1)
T.S=(-1,-1)(1,-1)(-1,1)(1,1)
T.W=(-1,-1)(1,-1)(-1,1)(1,1)
";

fn kicks_text() -> String {
    let mut text = String::new();
    let quarter = [
        ("ne", "(0,0)(-1,0)(-1,+1)(0,-2)(-1,-2)"),
        ("en", "(0,0)(+1,0)(+1,-1)(0,+2)(+1,+2)"),
        ("es", "(0,0)(+1,0)(+1,-1)(0,+2)(+1,+2)"),
        ("se", "(0,0)(-1,0)(-1,+1)(0,-2)(-1,-2)"),
        ("sw", "(0,0)(+1,0)(+1,+1)(0,-2)(+1,-2)"),
        ("ws", "(0,0)(-1,0)(-1,-1)(0,+2)(-1,+2)"),
        ("wn", "(0,0)(-1,0)(-1,-1)(0,+2)(-1,+2)"),
        ("nw", "(0,0)(+1,0)(+1,+1)(0,-2)(+1,-2)"),
    ];
    let line = [
        ("ne", "(0,0)(-2,0)(+1,0)(-2,-1)(+1,+2)"),
        ("en", "(0,0)(+2,0)(-1,0)(+2,+1)(-1,-2)"),
        ("es", "(0,0)(-1,0)(+2,0)(-1,+2)(+2,-1)"),
        ("se", "(0,0)(+1,0)(-2,0)(+1,-2)(-2,+1)"),
        ("sw", "(0,0)(+2,0)(-1,0)(+2,+1)(-1,-2)"),
        ("ws", "(0,0)(-2,0)(+1,0)(-2,-1)(+1,+2)"),
        ("wn", "(0,0)(+1,0)(-2,0)(+1,-2)(-2,+1)"),
        ("nw", "(0,0)(-1,0)(+2,0)(-1,+2)(+2,-1)"),
    ];
    let half = ["ns", "sn", "ew", "we"];
    for kind in ["J", "L", "S", "T", "Z", "O"] {
        for (turn, tests) in quarter {
            let tests = if kind == "O" { "(0,0)" } else { tests };
            text.push_str(&format!("{kind}.{turn}={tests}\n"));
        }
    }
    for (turn, tests) in line {
        text.push_str(&format!("I.{turn}={tests}\n"));
    }
    for kind in ["I", "J", "L", "S", "T", "Z", "O"] {
        for turn in half {
            text.push_str(&format!("{kind}.{turn}=(0,0)(0,1)(1,0)(-1,0)\n"));
        }
    }
    text
}

fn state() -> State {
    State {
        kicks: Kicks::parse(&kicks_text()).unwrap(),
        bag: Bag::parse(SHAPES).unwrap(),
        corners: Corners::parse(CORNERS).unwrap(),
        fingerprint: Fingerprint("srsx".to_string(), "tetromino".to_string(), "handheld".to_string()),
    }
}

fn replay(board: Board, kind: u8, f: Finesse, env: &Environment) -> Board {
    let mut i = Input::new(board, kind, env);
    i.apply(f);
    i.place(true)
}

#[test]
fn tables_are_total_for_the_seven_pieces() {
    let s = state();
    let env = Environment::new(&s, "ftdhu", 7, 1);
    for kind in "IJLOSTZ".bytes() {
        assert!(env.plays(kind));
    }
    assert!(!env.plays(b'X'));
    assert!(env.is_total());
    assert_eq!(s.bag.pieces().len(), 28);
    assert_eq!(s.bag.width(b'I', Rotation::North), Some(3));
    assert_eq!(s.bag.width(b'I', Rotation::East), Some(0));
    assert_eq!(s.bag.width(b'X', Rotation::East), None);
}

#[test]
fn keyboard_follows_the_flags() {
    let s = state();
    let full = Environment::new(&s, "ftdhu", 7, 1);
    assert_eq!(
        full.keyboard(),
        vec![
            Key::MoveLeft,
            Key::MoveRight,
            Key::DasLeft,
            Key::DasRight,
            Key::RotateCW,
            Key::RotateCCW,
            Key::Rotate180,
            Key::SonicDrop
        ]
    );
    assert_eq!(full.flags(), "ftdhu");
    let bare = Environment::new(&s, "", 0, 0);
    assert_eq!(bare.keyboard(), vec![Key::RotateCW, Key::RotateCCW, Key::SonicDrop]);
    assert_eq!(bare.flags(), "-----");
    let mut both = Environment::new(&s, "t", 0, 0);
    both.droptype = DropType::Both;
    assert_eq!(
        both.keyboard(),
        vec![Key::MoveLeft, Key::MoveRight, Key::RotateCW, Key::RotateCCW, Key::SoftDrop, Key::SonicDrop]
    );
    both.droptype = DropType::Soft;
    assert_eq!(both.keyboard().last(), Some(&Key::SoftDrop));
    both.droptype = DropType::Hard;
    assert_eq!(both.keyboard(), vec![Key::MoveLeft, Key::MoveRight, Key::RotateCW, Key::RotateCCW]);
    assert!(!full.keyboard().contains(&Key::Hold));
}

#[test]
fn a_piece_spawns_in_column_one_four_rows_above_the_stack() {
    let s = state();
    let env = Environment::new(&s, "ftd", 7, 1);
    let i = Input::new(Board::empty(), b'T', &env);
    assert_eq!(
        i.fingerprint(),
        Piece { location: Coordinate::new(1, 4), rotation: Rotation::North, name: b'T' }
    );
    assert!(i.is_valid());
    assert_eq!(i.last_key(), None);
    let b = Board::parse("X___|X___").unwrap();
    let i = Input::new(b, b'T', &env);
    assert_eq!(i.fingerprint().location, Coordinate::new(1, 6));
}

#[test]
fn moves_and_drops_stop_at_walls_and_floor() {
    let s = state();
    let env = Environment::new(&s, "ftd", 7, 1);
    let mut i = Input::new(Board::empty(), b'O', &env);
    i.move_left();
    assert_eq!(i.piece.location, Coordinate::new(0, 4));
    assert_eq!(i.last_key(), Some(Key::MoveLeft));
    i.move_left();
    assert_eq!(i.piece.location, Coordinate::new(0, 4));
    i.das_right();
    assert_eq!(i.piece.location, Coordinate::new(2, 4));
    assert_eq!(i.last_key(), Some(Key::DasRight));
    i.move_right();
    assert_eq!(i.piece.location, Coordinate::new(2, 4));
    assert_eq!(i.last_key(), Some(Key::DasRight));
    i.soft_drop();
    assert_eq!(i.piece.location, Coordinate::new(2, 3));
    assert_eq!(i.last_key(), Some(Key::SoftDrop));
    i.sonic_drop();
    assert_eq!(i.piece.location, Coordinate::new(2, 0));
    assert_eq!(i.last_key(), Some(Key::SonicDrop));
    i.sonic_drop();
    i.soft_drop();
    assert_eq!(i.piece.location, Coordinate::new(2, 0));
    i.das_left();
    assert_eq!(i.piece.location, Coordinate::new(0, 0));
    assert_eq!(i.last_key(), Some(Key::DasLeft));
    i.send(Key::Hold);
    assert_eq!(i.piece.location, Coordinate::new(0, 0));
    assert_eq!(i.last_key(), Some(Key::DasLeft));
    let b = i.place(false);
    assert_eq!(b.small(), "XX__|XX__");
}

#[test]
fn rotation_takes_the_first_kick_that_fits() {
    let s = state();
    let env = Environment::new(&s, "ftd", 7, 1);
    // J lies against the left wall; the turn fits in place.
    let mut i = Input::new(Board::empty(), b'J', &env);
    i.das_left();
    assert_eq!(i.piece.location, Coordinate::new(1, 4));
    assert_eq!(i.last_key(), None);
    i.rotate_cw();
    assert_eq!(i.piece.rotation, Rotation::East);
    assert_eq!(i.piece.location, Coordinate::new(1, 4));
    assert_eq!(i.last_key(), Some(Key::RotateCW));
    // Upright against the left wall, the turn back needs the second kick.
    i.das_left();
    assert_eq!(i.piece.location, Coordinate::new(0, 4));
    i.rotate_ccw();
    assert_eq!(i.piece.rotation, Rotation::North);
    assert_eq!(i.piece.location, Coordinate::new(1, 4));
    assert_eq!(i.last_key(), Some(Key::RotateCCW));
    i.rotate_180();
    assert_eq!(i.piece.rotation, Rotation::South);
    assert_eq!(i.last_key(), Some(Key::Rotate180));
}

#[test]
fn rotation_without_a_kick_that_fits_changes_nothing() {
    let kicks = Kicks::parse("J.ne=(-5,0)(0,-9)(7,0)\nJ.nw=(0,0)\n").unwrap();
    let s = State { kicks, ..state() };
    let env = Environment::new(&s, "td", 7, 1);
    let mut i = Input::new(Board::empty(), b'J', &env);
    i.move_right();
    let before = i;
    i.rotate_cw();
    assert_eq!(i, before);
    assert_eq!(i.last_key(), Some(Key::MoveRight));
    i.rotate_ccw();
    assert_eq!(i.piece.rotation, Rotation::West);
    assert_eq!(i.last_key(), Some(Key::RotateCCW));
}

#[test]
fn a_spin_needs_a_turn_and_three_filled_corners() {
    let s = state();
    let env = Environment::new(&s, "ftd", 7, 1);
    let board = Board::parse("X_XX").unwrap();
    // Turned first and dropped last: no spin.
    let mut i = Input::new(board, b'T', &env);
    i.rotate_180();
    i.sonic_drop();
    assert_eq!(i.last_key(), Some(Key::SonicDrop));
    assert!(!i.is_spin());
    // Dropped first and turned into the gap: a spin, with two corners on set
    // cells and two above the stack.
    let mut i = Input::new(board, b'T', &env);
    i.sonic_drop();
    assert_eq!(i.piece.location, Coordinate::new(1, 1));
    i.rotate_180();
    assert_eq!(i.piece.rotation, Rotation::South);
    assert_eq!(i.piece.location, Coordinate::new(1, 1));
    assert_eq!(i.last_key(), Some(Key::Rotate180));
    assert!(i.is_spin());
    assert_eq!(i.place(false).small(), "XXX_");
    // In the open only the two corners above the stack count.
    let mut i = Input::new(Board::parse("___X").unwrap(), b'T', &env);
    i.das_left();
    i.sonic_drop();
    i.rotate_180();
    i.rotate_180();
    assert_eq!(i.last_key(), Some(Key::Rotate180));
    assert!(i.is_spin() == (i.piece.location.x == 0));
    // A piece without corners in the table never spins.
    let mut i = Input::new(board, b'J', &env);
    i.rotate_cw();
    assert_eq!(i.last_key(), Some(Key::RotateCW));
    assert!(!i.is_spin());
}

#[test]
fn the_line_piece_clears_the_empty_board() {
    let s = state();
    let env = Environment::new(&s, "ftd", 7, 1);
    let next = Board::empty().get_next_boards(b'I', &env);
    let cleared: Vec<_> = next.iter().filter(|(b, _)| b.is_empty()).collect();
    assert_eq!(cleared.len(), 1);
    assert!(cleared[0].1.len() <= 1);
    assert_eq!(next[0].0, Board::empty());
    assert_eq!(next[0].1, Finesse::new());
}

#[test]
fn the_line_piece_fills_a_gap_upright() {
    let s = state();
    let env = Environment::new(&s, "ftd", 7, 1);
    let board = Board::parse("XX_X").unwrap();
    let next = board.get_next_boards(b'I', &env);
    let upright = Board::parse("__X_|__X_|__X_").unwrap();
    let found: Vec<_> = next.iter().filter(|(b, _)| *b == upright).collect();
    assert_eq!(found.len(), 1);
    assert_eq!(found[0].1.short(), "cw");
    // Lying flat on the stack, the piece clears its own row.
    assert_eq!(next[0].0, board);
    assert_eq!(next[0].1.short(), "");
}

#[test]
fn every_placement_replays_to_its_board_and_is_listed_once() {
    let s = state();
    let env = Environment::new(&s, "ftd", 7, 1);
    for text in ["", "XX_X", "X___|X_XX", "_XX_|X__X|XX__"] {
        let board = Board::parse(text).unwrap();
        for kind in "IJLOSTZ".bytes() {
            let next = board.get_next_boards(kind, &env);
            assert!(!next.is_empty());
            for (n, (b, f)) in next.iter().enumerate() {
                assert_eq!(replay(board, kind, *f, &env), *b);
                assert!(next[..n].iter().all(|(other, _)| other != b));
                assert!(next[..n].iter().all(|(_, g)| g.len() <= f.len()));
                assert!(f.keys().iter().all(|k| env.keyboard().contains(k)));
            }
        }
    }
}

#[test]
fn no_shorter_finesse_lands_on_a_listed_board() {
    let s = state();
    let env = Environment::new(&s, "td", 7, 1);
    let board = Board::parse("X___|X_XX").unwrap();
    let keys = env.keyboard();
    let next = board.get_next_boards(b'T', &env);
    let mut tried: Vec<Finesse> = vec![Finesse::new()];
    let mut layer = tried.clone();
    for _ in 0..3 {
        let mut longer = Vec::new();
        for f in &layer {
            for k in &keys {
                let mut g = *f;
                g.push(*k);
                longer.push(g);
            }
        }
        tried.extend(longer.iter().copied());
        layer = longer;
    }
    for f in tried {
        let b = replay(board, b'T', f, &env);
        let listed = next.iter().find(|(other, _)| *other == b).expect("every landing is listed");
        assert!(listed.1.len() <= f.len());
    }
}

fn lines(found: &[History]) -> Vec<String> {
    found.iter().map(|h| h.to_line()).collect()
}

fn check_clears(found: &[History], n: usize, env: &Environment) {
    for h in found {
        assert!(1 <= h.len() && h.len() <= n);
        let mut board = Board::empty();
        for i in 0..h.len() {
            let Pair(kind, f) = h.get(i);
            board = replay(board, kind, f, env);
            assert!(board.height() <= n);
            assert_eq!(board.is_empty(), i + 1 == h.len());
        }
    }
}

#[test]
fn one_piece_clears_the_board_only_as_a_line() {
    let s = state();
    let env = Environment::new(&s, "ftd", 7, 1);
    let found = generate_all_pc_queues(1, &env);
    assert_eq!(lines(&found), vec!["I = (I:)".to_string()]);
    check_clears(&found, 1, &env);
    assert!(generate_all_pc_queues(0, &env).is_empty());
}

#[test]
fn two_pieces_clear_the_board_in_two_rows() {
    let s = state();
    let env = Environment::new(&s, "ftd", 7, 1);
    let found = generate_all_pc_queues(2, &env);
    check_clears(&found, 2, &env);
    let mut queues: Vec<String> = found.iter().map(|h| h.queue_str()).collect();
    queues.sort();
    assert_eq!(queues, vec!["I", "JJ", "LL", "OO"]);
    // The same tables and flags give the same queues again.
    let again = generate_all_pc_queues(2, &env);
    let mut same: Vec<String> = again.iter().map(|h| h.queue_str()).collect();
    same.sort();
    assert_eq!(queues, same);
}

#[test]
fn of_keys_that_are_as_few_the_earlier_on_the_keyboard_are_kept() {
    let s = state();
    let env = Environment::new(&s, "td", 7, 1);
    let next = Board::empty().get_next_boards(b'O', &env);
    let found: Vec<(String, String)> = next.iter().map(|(b, f)| (b.small(), f.short())).collect();
    assert_eq!(
        found,
        vec![
            ("_XX_|_XX_".to_string(), String::new()),
            ("XX__|XX__".to_string(), "l".to_string()),
            ("__XX|__XX".to_string(), "r".to_string()),
        ]
    );
    // Without taps the auto-repeat moves come first.
    let das = Environment::new(&s, "d", 7, 1);
    let next = Board::empty().get_next_boards(b'O', &das);
    let keys: Vec<String> = next.iter().map(|(_, f)| f.short()).collect();
    assert_eq!(keys, vec!["", "dl", "dr"]);
    // The line piece stands upright after a turn either way; the turn that
    // is earlier on the keyboard is kept for each column.
    let next = Board::empty().get_next_boards(b'I', &env);
    let upright: Vec<String> = next
        .iter()
        .filter(|(b, _)| b.height() == 4)
        .map(|(_, f)| f.short())
        .collect();
    assert_eq!(upright.len(), 4);
    assert!(upright.contains(&"cw".to_string()));
    assert!(upright.contains(&"ccw".to_string()));
    assert!(upright.iter().all(|k| k.split(',').count() <= 2));
    for pair in next.windows(2) {
        assert!(pair[0].1.len() <= pair[1].1.len());
    }
}

#[test]
fn three_pieces_clear_the_board_in_three_rows() {
    let full = state();
    let shapes: String = SHAPES
        .lines()
        .filter(|l| l.starts_with(['I', 'J', 'L', 'O']))
        .map(|l| format!("{l}\n"))
        .collect();
    let s = State { bag: Bag::parse(&shapes).unwrap(), ..full };
    let env = Environment::new(&s, "ftd", 7, 1);
    assert!(env.is_total());
    let found = generate_all_pc_queues(3, &env);
    check_clears(&found, 3, &env);
    let queues: Vec<String> = found.iter().map(|h| h.queue_str()).collect();
    // Shorter queues come first, and each queue comes once.
    assert_eq!(&queues[..4], ["I", "JJ", "LL", "OO"]);
    for (n, q) in queues.iter().enumerate() {
        assert!(queues[..n].iter().all(|p| p != q));
        assert!(queues[..n].iter().all(|p| p.len() <= q.len()));
    }
    assert!(queues.iter().any(|q| q.len() == 3));
    // The lines of the table read back as the table.
    let text: String = found.iter().map(|h| format!("{}\n", h.to_line())).collect();
    let table = Environment::parse_pcs(&text).unwrap();
    assert_eq!(table.len(), found.len());
    for h in &found {
        assert_eq!(table.get(&h.queue()).map(|t| t.to_line()), Some(h.to_line()));
    }
    let again: Vec<String> = generate_all_pc_queues(3, &env).iter().map(|h| h.to_line()).collect();
    assert_eq!(again, found.iter().map(|h| h.to_line()).collect::<Vec<_>>());
}

#[test]
fn a_queue_goes_on_where_a_shorter_one_clears_the_board() {
    let full = state();
    let shapes: String =
        SHAPES.lines().filter(|l| l.starts_with('I')).map(|l| format!("{l}\n")).collect();
    let s = State { bag: Bag::parse(&shapes).unwrap(), ..full };
    let env = Environment::new(&s, "ftd", 7, 1);
    assert!(env.is_total());
    // One line piece lying flat clears the board; four of them standing
    // upright side by side do so too, though the queue starts with the first.
    let found = generate_all_pc_queues(4, &env);
    check_clears(&found, 4, &env);
    let queues: Vec<String> = found.iter().map(|h| h.queue_str()).collect();
    assert_eq!(queues, vec!["I", "IIII"]);
    // Within three rows no line piece stands upright.
    let found = generate_all_pc_queues(3, &env);
    assert_eq!(lines(&found), vec!["I = (I:)".to_string()]);
}

fn single_cell_state() -> State {
    State {
        kicks: Kicks::parse("A.ne=\nA.nw=").unwrap(),
        bag: Bag::parse("A.N=(0,0)@G").unwrap(),
        corners: Corners::parse("").unwrap(),
        fingerprint: Fingerprint("none".to_string(), "cell".to_string(), "none".to_string()),
    }
}

#[test]
fn a_kind_with_one_orientation_and_kicks_without_tests_is_served() {
    let s = single_cell_state();
    let env = Environment::new(&s, "t", 0, 0);
    assert!(env.plays(b'A'));
    assert!(env.is_total());
    assert!(!env.plays(b'B'));
    // Three cells never fill a row of four.
    assert!(generate_all_pc_queues(3, &env).is_empty());
    // Four do, one in each column.
    let found = generate_all_pc_queues(4, &env);
    check_clears(&found, 4, &env);
    let queues: Vec<String> = found.iter().map(|h| h.queue_str()).collect();
    assert_eq!(queues, vec!["AAAA"]);
    // The turns find their entries and change nothing.
    let mut i = Input::new(Board::empty(), b'A', &env);
    let before = i.fingerprint();
    i.rotate_cw();
    i.rotate_ccw();
    assert_eq!(i.fingerprint(), before);
    assert_eq!(i.last_key(), None);
    let next = Board::empty().get_next_boards(b'A', &env);
    let boards: Vec<String> = next.iter().map(|(b, _)| b.small()).collect();
    assert_eq!(boards.len(), 4);
    for b in ["X___", "_X__", "__X_", "___X"] {
        assert!(boards.contains(&b.to_string()));
    }
}

#[test]
fn a_kind_is_not_served_without_what_its_turns_look_up() {
    // With the half turn on the keyboard its entry is looked up too.
    let s = single_cell_state();
    let env = Environment::new(&s, "tf", 0, 0);
    assert!(!env.plays(b'A'));
    assert!(!env.is_total());
    // An entry with a test turns the piece, so the new orientation needs a
    // shape.
    let s = State { kicks: Kicks::parse("A.ne=(0,0)\nA.nw=").unwrap(), ..single_cell_state() };
    let env = Environment::new(&s, "t", 0, 0);
    assert!(!env.plays(b'A'));
    // Without a shape for the orientation in which it enters no piece plays.
    let s = State { bag: Bag::parse("A.E=(0,0)@G").unwrap(), ..single_cell_state() };
    let env = Environment::new(&s, "t", 0, 0);
    assert!(!env.plays(b'A'));
    assert!(!env.is_total());
}

#[test]
fn the_search_runs_where_the_tables_serve_and_the_queues_fit() {
    let s = state();
    let env = Environment::new(&s, "ftd", 7, 1);
    let found = env.perfect_clears(1).unwrap();
    assert_eq!(lines(&found), lines(&generate_all_pc_queues(1, &env)));
    assert_eq!(env.perfect_clears(0).map(|f| f.len()), Some(0));
    assert!(env.perfect_clears(65).is_none());
    let s = State { bag: Bag::parse("A.E=(0,0)@G").unwrap(), ..single_cell_state() };
    let env = Environment::new(&s, "t", 0, 0);
    assert!(env.perfect_clears(1).is_none());
    let s = single_cell_state();
    let env = Environment::new(&s, "t", 0, 0);
    let found = env.perfect_clears(4).unwrap();
    check_clears(&found, 4, &env);
    assert_eq!(found.iter().map(|h| h.queue_str()).collect::<Vec<_>>(), vec!["AAAA"]);
}
