use engine::board::Board;
use engine::common::coordinate::Coordinate;
use engine::common::rotation::Rotation;
use engine::environment::Environment;
use engine::file::corners::Corners;
use engine::file::kicks::Kicks;
use engine::file::piece::Bag;
use engine::finesse::{Finesse, Key, Pair};
use engine::fum::{page_of, pages_of};
use engine::input::Input;
use engine::history::History;
use engine::pcfile::read_pc_line;
use engine::planner::{get_pc_saves, get_queue_orders, max_pcs_in_queue, PcTable};
use engine::piece::Piece;
use engine::queue::Queue;
use engine::ren::{ren_bfs, Node, PathItem};
use engine::repl::{answer, parse_request, Fingerprint, Request, State};
use engine::text::tidy_lines;

fn state() -> State {
    let shapes = "\
I.N=(-1,0)(0,0)(1,0)(2,0)@I
I.E=(1,1)(1,0)(1,-1)(1,-2)@I
I.S=(-1,-1)(0,-1)(1,-1)(2,-1)@I
I.W=(0,1)(0,0)(0,-1)(0,-2)@I
O.N=(0,0)(1,0)(0,1)(1,1)@O
O.E=(0,0)(1,0)(0,1)(1,1)@O
O.S=(0,0)(1,0)(0,1)(1,1)@O
O.W=(0,0)(1,0)(0,1)(1,1)@O
";
    let mut kicks = String::new();
    for kind in ["I", "O"] {
        for turn in ["ne", "en", "es", "se", "sw", "ws", "wn", "nw", "ns", "sn", "ew", "we"] {
            kicks.push_str(&format!("{kind}.{turn}=(0,0)(-1,0)(1,0)\n"));
        }
    }
    State {
        kicks: Kicks::parse(&kicks).unwrap(),
        bag: Bag::parse(shapes).unwrap(),
        corners: Corners::parse("").unwrap(),
        fingerprint: Fingerprint("plain".to_string(), "two".to_string(), "none".to_string()),
    }
}

fn queue(text: &str) -> Queue {
    Queue::from_text(text).unwrap()
}

fn history(kinds: &str) -> History {
    let mut h = History::new();
    for k in kinds.bytes() {
        h.push(Pair(k, Finesse::with(&[Key::SonicDrop])));
    }
    h
}

fn table(queues: &[&str]) -> PcTable {
    let mut t = PcTable::new();
    for q in queues {
        t.insert(queue(q), history(q));
    }
    t
}

#[test]
fn queue_orders_with_one_hold() {
    let texts = |q: &str| -> Vec<String> {
        get_queue_orders(queue(q)).iter().map(|o| o.as_str()).collect()
    };
    assert_eq!(texts("A"), vec!["A"]);
    assert_eq!(texts("AB"), vec!["AB", "BA"]);
    assert_eq!(texts("ABC"), vec!["ABC", "ACB", "BAC", "BCA"]);
    assert_eq!(
        texts("ABCD"),
        vec!["ABCD", "ABDC", "ACBD", "ACDB", "BACD", "BADC", "BCAD", "BCDA"]
    );
    assert_eq!(get_queue_orders(queue("TSZLJIO")).len(), 64);
}

#[test]
fn histories_compare_by_their_kinds() {
    let mut a = History::new();
    a.push(Pair(b'T', Finesse::with(&[Key::RotateCW])));
    a.push(Pair(b'I', Finesse::new()));
    let mut b = History::new();
    b.push(Pair(b'T', Finesse::with(&[Key::DasLeft, Key::SonicDrop])));
    b.push(Pair(b'I', Finesse::with(&[Key::MoveLeft])));
    assert!(a == b);
    assert!(a.same_queue(&b));
    assert!(a != history("TIO"));
    assert!(a != history("TO"));
    assert_eq!(a.len(), 2);
    assert_eq!(a.get(0), Pair(b'T', Finesse::with(&[Key::RotateCW])));
    assert_eq!(a.queue(), queue("TI"));
    assert_eq!(a.queue_str(), "TI");
    assert_eq!(a.to_line(), "TI = (T:cw) (I:)");
    assert_eq!(b.to_line(), "TI = (T:dl,sd) (I:l)");
    assert_eq!(a.clone().to_line(), a.to_line());
    assert_eq!(History::new().to_line(), " = ");
}

#[test]
fn histories_are_ordered_by_length_and_then_by_kinds() {
    let texts = ["", "I", "T", "II", "IT", "TI", "TT", "III"];
    for (i, a) in texts.iter().enumerate() {
        for (j, b) in texts.iter().enumerate() {
            let (ha, hb) = (history(a), history(b));
            let expected = if i < j { -1 } else if i > j { 1 } else { 0 };
            assert_eq!(ha.order(&hb), expected);
            assert_eq!(ha.partial_cmp(&hb).map(|o| o as i8), Some(expected));
            assert_eq!(ha < hb, i < j);
            assert_eq!(ha == hb, i == j);
        }
    }
    let mut other = History::new();
    other.push(Pair(b'I', Finesse::new()));
    assert_eq!(other.order(&history("I")), 0);
}

#[test]
fn tables_of_perfect_clears_hold_one_entry_for_each_queue() {
    let mut t = PcTable::new();
    assert_eq!(t.len(), 0);
    assert_eq!(t.longest(), 0);
    assert!(!t.contains_key(&queue("I")));
    assert!(t.get(&queue("I")).is_none());
    t.insert(queue("I"), history("I"));
    t.insert(queue("OO"), history("OO"));
    assert_eq!(t.len(), 2);
    assert_eq!(t.longest(), 2);
    assert!(t.contains_key(&queue("OO")));
    assert_eq!(t.get(&queue("OO")).map(|h| h.to_line()), Some("OO = (O:sd) (O:sd)".to_string()));
    let mut other = History::new();
    other.push(Pair(b'J', Finesse::new()));
    t.insert(queue("I"), other);
    assert_eq!(t.len(), 2);
    assert_eq!(t.get(&queue("I")).map(|h| h.to_line()), Some("J = (J:)".to_string()));
    assert!(!t.contains_key(&queue("O")));
}

#[test]
fn saves_after_a_perfect_clear() {
    let pcs = table(&["I", "OO"]);
    let saves = get_pc_saves(queue("IO"), &pcs);
    assert_eq!(saves.len(), 256);
    let found: Vec<(usize, String)> = saves
        .iter()
        .enumerate()
        .filter_map(|(k, q)| q.map(|q| (k, q.as_str())))
        .collect();
    assert_eq!(found, vec![(b'O' as usize, "I".to_string())]);
    let saves = get_pc_saves(queue("OO"), &pcs);
    let found: Vec<(usize, String)> = saves
        .iter()
        .enumerate()
        .filter_map(|(k, q)| q.map(|q| (k, q.as_str())))
        .collect();
    assert_eq!(found, vec![(255, "OO".to_string())]);
    let saves = get_pc_saves(queue("OIO"), &pcs);
    assert_eq!(saves[b'I' as usize].map(|q| q.as_str()), Some("OO".to_string()));
    assert!(saves[255].is_none());
    assert!(get_pc_saves(queue("TT"), &pcs).iter().all(|q| q.is_none()));
}

#[test]
fn the_most_perfect_clears_through_a_queue() {
    let s = state();
    let env = Environment::new(&s, "ftdh", 7, 1);
    let pcs = table(&["I", "OO"]);
    let (score, chosen) = max_pcs_in_queue(queue("IIOOI"), &env, &pcs);
    assert_eq!(score, 4);
    let queues: Vec<String> = chosen.iter().map(|h| h.queue_str()).collect();
    assert_eq!(queues, vec!["I", "I", "OO", "I"]);
    assert_eq!(answer(&chosen), "(I:sd)");
    let (score, chosen) = max_pcs_in_queue(queue("II"), &env, &pcs);
    assert_eq!((score, chosen.len()), (1, 1));
    let (score, chosen) = max_pcs_in_queue(queue("I"), &env, &pcs);
    assert_eq!((score, chosen.len()), (0, 0));
    assert_eq!(answer(&chosen), "!");
    let (score, chosen) = max_pcs_in_queue(queue(""), &env, &pcs);
    assert_eq!((score, chosen.len()), (0, 0));
    // A first piece without a shape never leaves hold.
    let (score, _) = max_pcs_in_queue(queue("TII"), &env, &pcs);
    assert_eq!(score, 0);
    let (score, _) = max_pcs_in_queue(queue("IIII"), &env, &PcTable::new());
    assert_eq!(score, 0);
}

#[test]
fn tables_of_perfect_clears_as_text() {
    let text = "#n=2;kicktable=plain;total=2;ftd--\nI = (I:)\n\n  OO = (O:dl,sd) (O:dr,sd)  \nI=(I:sd)";
    let t = Environment::parse_pcs(text).unwrap();
    assert_eq!(t.len(), 2);
    assert_eq!(t.get(&queue("I")).map(|h| h.to_line()), Some("I = (I:sd)".to_string()));
    assert_eq!(t.get(&queue("OO")).map(|h| h.to_line()), Some("OO = (O:dl,sd) (O:dr,sd)".to_string()));
    assert_eq!(Environment::parse_pcs("").map(|t| t.len()), Ok(0));
    assert_eq!(Environment::parse_pcs("I").err(), Some("missing placements".to_string()));
    assert_eq!(Environment::parse_pcs("I = (I:up)").err(), Some("unknown variant up".to_string()));
    assert_eq!(
        Environment::parse_pcs("I = I:sd").err(),
        Some("finesse must start with '(' and end with ')'".to_string())
    );
    let long = format!("{} = (I:)", "I".repeat(65));
    assert_eq!(Environment::parse_pcs(&long).err(), Some("queue too long".to_string()));
    // The queue on the left need not be the queue of the placements.
    let odd = Environment::parse_pcs("TT = (I:) = rest").unwrap();
    assert_eq!(odd.get(&queue("TT")).map(|h| h.queue_str()), Some("I".to_string()));
    let chars: Vec<char> = " # note".chars().collect();
    assert_eq!(read_pc_line(&chars).map(|e| e.is_none()), Ok(true));
}

#[test]
fn lines_are_sorted_and_listed_once_for_each_key() {
    assert_eq!(tidy_lines("b = 2\na = 1\nb = 1\n#head\na= 0\n"), "#head\na = 1\nb = 1");
    assert_eq!(tidy_lines("OO = x\nI = y\r\nOO = x"), "I = y\nOO = x");
    assert_eq!(tidy_lines(""), "");
    assert_eq!(tidy_lines("only"), "only");
    assert_eq!(tidy_lines("ab\na\nabc\nA"), "A\na\nab\nabc");
}

#[test]
fn files_are_named_after_the_ruleset() {
    let s = state();
    let env = Environment::new(&s, "fd", 7, 1);
    assert_eq!(env.pc_path(4), "data/plain_f-d--_4.pc");
    assert_eq!(env.pc_path(12), "data/plain_f-d--_12.pc");
    assert_eq!(env.pc_header(4, 0), "#n=4;kicktable=plain;total=0;f-d--");
    assert_eq!(env.pc_header(10, 321), "#n=10;kicktable=plain;total=321;f-d--");
}

#[test]
fn requests_of_a_session() {
    assert_eq!(
        parse_request("pcr ftd TIOO 4"),
        Request::Solve { flags: "ftd".to_string(), queue: "TIOO".to_string(), n: 4 }
    );
    assert_eq!(
        parse_request("  pcp\tftd  7 4  "),
        Request::Build { flags: "ftd".to_string(), vision: 7, n: 4, force: false }
    );
    assert_eq!(
        parse_request("pcp ftd 7 +4 F"),
        Request::Build { flags: "ftd".to_string(), vision: 7, n: 4, force: true }
    );
    assert_eq!(
        parse_request("pcp ftd 7 4 f"),
        Request::Build { flags: "ftd".to_string(), vision: 7, n: 4, force: false }
    );
    assert_eq!(parse_request(""), Request::Unknown);
    assert_eq!(parse_request("   "), Request::Unknown);
    assert_eq!(parse_request("ex"), Request::Unknown);
    assert_eq!(parse_request("PCR ftd TIOO 4"), Request::Unknown);
    assert_eq!(parse_request("pcr ftd TIOO"), Request::Invalid);
    assert_eq!(parse_request("pcr ftd TIOO four"), Request::Invalid);
    assert_eq!(parse_request("pcr ftd TIOO -4"), Request::Invalid);
    assert_eq!(parse_request("pcp ftd x 4"), Request::Invalid);
    assert_eq!(parse_request("pcp ftd 7 99999999999999999999999"), Request::Invalid);
}

#[test]
fn the_shortest_keys_to_a_place() {
    let s = state();
    let env = Environment::new(&s, "td", 7, 1);
    let board = Board::parse("X___").unwrap();
    let at = |x, y, rotation| Piece { location: Coordinate::new(x, y), rotation, name: b'O' };
    assert_eq!(at(1, 5, Rotation::North).find(board, &env), Some(Finesse::new()));
    assert_eq!(at(2, 5, Rotation::North).find(board, &env).map(|f| f.short()), Some("r".to_string()));
    assert_eq!(at(2, 0, Rotation::North).find(board, &env).map(|f| f.len()), Some(2));
    assert_eq!(at(1, 0, Rotation::South).find(board, &env).map(|f| f.len()), Some(3));
    assert_eq!(at(0, 0, Rotation::North).find(board, &env), None);
    assert_eq!(at(1, 9, Rotation::North).find(board, &env), None);
    let found = at(2, 0, Rotation::West).find(board, &env).unwrap();
    let mut i = Input::new(board, b'O', &env);
    i.apply(found);
    assert_eq!(i.fingerprint(), at(2, 0, Rotation::West));
}

#[test]
fn pages_show_the_board_and_the_keys() {
    let board = Board::parse("X___|_X_X").unwrap();
    let item = PathItem(board, b'T', Finesse::with(&[Key::RotateCW, Key::SonicDrop]));
    let page = page_of(&item);
    assert_eq!(page.comment, "T cw,sd");
    assert_eq!(page.field.len(), 23);
    assert!(page.field.iter().all(|row| row.len() == 10));
    for y in 0..23 {
        for x in 0..10 {
            assert_eq!(page.field[y][x], board.get(x, y));
        }
    }
    assert!(page.field[0][1] && page.field[0][3] && page.field[1][0]);
    let pages = pages_of(&vec![item, PathItem(Board::empty(), b'I', Finesse::new())]);
    assert_eq!(pages.len(), 2);
    assert_eq!(pages[1].comment, "I ");
    assert!(pages[1].field.iter().all(|row| row.iter().all(|c| !c)));
}

fn start<'a>(queue: &'a [u8], hold: Option<u8>) -> Node<'a> {
    Node {
        board: Board::empty(),
        hold,
        queue,
        prev: None,
        finesse: Finesse::new(),
        used: None,
        ptr: 0,
    }
}

#[test]
fn states_of_the_combo_search() {
    let s = state();
    let env = Environment::new(&s, "td", 2, 1);
    let root = start(b"IO", None);
    assert_eq!(root.size(), 1);
    assert!(root.path().is_empty());
    assert_eq!(root.path_small(), "");
    assert_eq!((root.breaks(), root.non_pcs()), (0, 0));
    let copy = root.duplicate();
    assert!(copy.same_state(&root));
    let children = root.neighbors(&env);
    let plays = Board::empty().get_next_boards(b'I', &env).len();
    let holds = Board::empty().get_next_boards(b'O', &env).len();
    assert_eq!(children.len(), plays + holds);
    for (n, child) in children.iter().enumerate() {
        assert_eq!(child.ptr, 1);
        assert_eq!(child.size(), 2);
        assert_eq!(child.path().len(), 1);
        if n < plays {
            assert_eq!((child.used, child.hold, child.queue), (Some(b'I'), None, &b"O"[..]));
        } else {
            assert_eq!((child.used, child.hold, child.queue), (Some(b'O'), Some(b'I'), &b""[..]));
        }
        assert_eq!(child.breaks(), if child.board.is_empty() { 0 } else { 1 });
        assert_eq!(child.non_pcs(), child.breaks());
        assert!(!child.same_state(&copy));
    }
    assert_eq!(children[0].path_small(), "(I )");
    // With a piece in hold either the next piece or the held one is played.
    let held = start(b"I", Some(b'O'));
    let children = held.neighbors(&env);
    assert_eq!(children.len(), plays + holds);
    assert_eq!(children[0].hold, Some(b'O'));
    assert_eq!(children[plays].hold, Some(b'I'));
    assert!(children.iter().all(|c| c.queue.is_empty()));
    // With nothing to come the held piece is played.
    let last = start(b"", Some(b'I'));
    assert_eq!(last.neighbors(&env).len(), plays);
    assert!(start(b"", None).neighbors(&env).is_empty());
}

#[test]
fn the_combo_search_prefers_placements_that_clear() {
    let s = state();
    let env = Environment::new(&s, "td", 2, 1);
    // The first piece is played or held; either way both lines clear.
    let paths = ren_bfs(&start(b"II", None), &env);
    assert_eq!(paths.len(), 2);
    for path in &paths {
        assert_eq!(path.len(), 2);
        assert!(path.iter().all(|item| item.0.is_empty() && item.1 == b'I'));
    }
    // One placement that adds to the stack is allowed at most.
    let paths = ren_bfs(&start(b"IO", None), &env);
    assert!(!paths.is_empty());
    for path in &paths {
        assert_eq!(path.len(), 2);
        let mut minos = 0;
        let mut adds = 0;
        for item in path {
            if item.0.num_minos() > minos {
                adds += 1;
            }
            minos = item.0.num_minos();
        }
        assert_eq!(adds, 1);
    }
    // Without vision nothing is searched.
    let blind = Environment::new(&s, "td", 0, 1);
    assert!(ren_bfs(&start(b"II", None), &blind).is_empty());
    // A single piece cannot reach a vision of two.
    assert!(ren_bfs(&start(b"I", None), &env).is_empty());
}
