use tui_windows::{partition, Container, PrettyString, RenderAction, TermCmd, TileType, Window, WindowConfig, WindowDisplay, ActionSeq};

struct Fill(char);

impl WindowDisplay for Fill {
    fn view_render(&self, _: (u16, u16)) -> ActionSeq {
        unreachable!()
    }

    fn render(&self, size: (u16, u16)) -> Vec<RenderAction> {
        let mut v = Vec::new();
        for r in 0..size.0 {
            v.push(RenderAction::MoveTo(r, 0));
            let line: String = std::iter::repeat(self.0).take(size.1 as usize).collect();
            v.push(RenderAction::Write(PrettyString::new(line)));
        }
        v
    }
}

fn screen(cmds: &[TermCmd], rows: usize, cols: usize) -> Vec<String> {
    let mut grid = vec![vec!['.'; cols]; rows];
    let mut cur = (0u16, 0u16);
    for cmd in cmds {
        match cmd {
            TermCmd::MoveTo(r, c) => cur = (*r, *c),
            TermCmd::Print(ch) => {
                grid[cur.0 as usize][cur.1 as usize] = *ch;
                cur.1 += 1;
            }
            _ => {}
        }
    }
    grid.into_iter().map(|r| r.into_iter().collect()).collect()
}

#[test]
fn equal_weights_split_evenly() {
    assert_eq!(partition(&vec![1, 1], 10), vec![5, 5]);
}

#[test]
fn leftover_goes_to_the_first_children() {
    assert_eq!(partition(&vec![1, 2], 10), vec![4, 6]);
    assert_eq!(partition(&vec![1, 1, 1], 10), vec![4, 3, 3]);
    assert_eq!(partition(&vec![1, 1, 1], 11), vec![4, 4, 3]);
}

#[test]
fn extents_always_add_up() {
    for total in [0u16, 1, 7, 10, 80, 65535] {
        for ws in [vec![1u32], vec![3, 5], vec![10, 11], vec![1, 1, 1, 1, 1, 1, 1], vec![4_000_000_000, 1, 7]] {
            let e = partition(&ws, total);
            assert_eq!(e.len(), ws.len());
            assert_eq!(e.iter().map(|x| *x as u32).sum::<u32>(), total as u32);
        }
    }
}

#[test]
fn zero_extent_gives_zero_to_all() {
    assert_eq!(partition(&vec![2, 3], 0), vec![0, 0]);
}

#[test]
fn children_tile_a_row_split() {
    let a = Fill('a');
    let b = Fill('b');
    let root = Container::new(
        vec![
            TileType::Window(Window::new(&a, WindowConfig { rel_size: 1, wrapping: false })),
            TileType::Window(Window::new(&b, WindowConfig { rel_size: 2, wrapping: false })),
        ],
        false,
        1,
    );
    let cmds = root.draw((0, 0), (0, 0), (2, 10));
    assert_eq!(screen(&cmds, 2, 10), vec!["aaaabbbbbb", "aaaabbbbbb"]);
}

#[test]
fn nested_containers_tile_the_frame() {
    let a = Fill('a');
    let b = Fill('b');
    let c = Fill('c');
    let inner = Container::new(
        vec![
            TileType::Window(Window::new(&b, WindowConfig { rel_size: 1, wrapping: true })),
            TileType::Window(Window::new(&c, WindowConfig { rel_size: 1, wrapping: true })),
        ],
        true,
        1,
    );
    let root = Container::new(
        vec![
            TileType::Window(Window::new(&a, WindowConfig { rel_size: 1, wrapping: false })),
            TileType::Container(inner),
        ],
        false,
        1,
    );
    let cmds = root.draw((0, 0), (1, 1), (3, 6));
    assert_eq!(
        screen(&cmds, 5, 8),
        vec!["........", ".aaabbb.", ".aaabbb.", ".aaaccc.", "........"]
    );
}

#[test]
fn frame_prints_stay_inside_even_for_careless_panes() {
    struct Careless;
    impl WindowDisplay for Careless {
        fn view_render(&self, _: (u16, u16)) -> ActionSeq {
            unreachable!()
        }

        fn render(&self, _: (u16, u16)) -> Vec<RenderAction> {
            vec![
                RenderAction::Write(PrettyString::new("xxxxxxxxxxxxxxxxxxxx".to_string())),
                RenderAction::MoveTo(500, 500),
                RenderAction::Write(PrettyString::new("yyyyyyyy".to_string())),
                RenderAction::MoveToNextLine(9),
                RenderAction::ClearToEnd,
            ]
        }
    }
    let p = Careless;
    let q = Careless;
    let root = Container::new(
        vec![
            TileType::Window(Window::new(&p, WindowConfig { rel_size: 1, wrapping: true })),
            TileType::Window(Window::new(&q, WindowConfig { rel_size: 1, wrapping: false })),
        ],
        true,
        1,
    );
    let cmds = root.draw((0, 0), (2, 3), (4, 4));
    let s = screen(&cmds, 8, 9);
    for (r, row) in s.iter().enumerate() {
        for (c, ch) in row.chars().enumerate() {
            let inside = (2..6).contains(&r) && (3..7).contains(&c);
            assert!(inside || ch == '.', "printed outside at {} {}", r, c);
        }
    }
    assert_eq!(s[2], ".........");
    assert_eq!(s[3], "...    ..");
    assert_eq!(s[5], "...    ..");
}

struct SizeReport;

impl WindowDisplay for SizeReport {
    fn view_render(&self, _: (u16, u16)) -> ActionSeq {
        unreachable!()
    }

    fn render(&self, size: (u16, u16)) -> Vec<RenderAction> {
        vec![RenderAction::MoveTo(0, 0), RenderAction::Write(PrettyString::new(format!("{}{}", size.0, size.1)))]
    }
}

#[test]
fn each_pane_renders_at_its_region_size() {
    let a = SizeReport;
    let b = SizeReport;
    let even = Container::new(
        vec![
            TileType::Window(Window::new(&a, WindowConfig { rel_size: 1, wrapping: false })),
            TileType::Window(Window::new(&b, WindowConfig { rel_size: 1, wrapping: false })),
        ],
        true,
        1,
    );
    let s = screen(&even.draw((0, 0), (0, 0), (10, 4)), 10, 4);
    assert_eq!(s[0], "54..");
    assert_eq!(s[5], "54..");
    let uneven = Container::new(
        vec![
            TileType::Window(Window::new(&a, WindowConfig { rel_size: 1, wrapping: false })),
            TileType::Window(Window::new(&b, WindowConfig { rel_size: 2, wrapping: false })),
        ],
        true,
        1,
    );
    let s = screen(&uneven.draw((0, 0), (0, 0), (10, 4)), 10, 4);
    assert_eq!(s[0], "44..");
    assert_eq!(s[4], "64..");
}
