use vcd::application::{Application, Command, Outcome};

fn numbered_names(n: usize) -> Vec<String> {
    (0..n).map(|i| format!("dir{:02}", i)).collect()
}

/// A session with `n` entries under the root: `n + 1` rows in all.
fn tall_session(n: usize) -> Application {
    let mut app = Application::new(None, String::from("/"));
    match app.run(Command::Expand) {
        Outcome::NeedsListing { node, path: _ } => {
            app.provide_listing(node, Some(numbered_names(n)));
        },
        _ => panic!("expanding the fresh root must ask for its listing"),
    }
    app
}

fn move_down(app: &mut Application, times: usize) {
    for _ in 0..times {
        app.run(Command::MoveDown);
    }
}

#[test]
fn offset_stays_put_while_cursor_is_inside_the_margins() {
    let mut app = tall_session(20);
    move_down(&mut app, 5);
    assert_eq!(app.calc_offset(10), 0);
}

#[test]
fn cursor_near_bottom_scrolls_down_to_keep_the_margin() {
    let mut app = tall_session(20);
    move_down(&mut app, 15);
    // 21 rows, height 10, margin 3: cursor 15 sits past row 6 of the window,
    // so the window slides to 15 - 10 + 3 + 1 = 9.
    assert_eq!(app.calc_offset(10), 9);
    let off = app.calc_offset(10);
    assert!(app.cursor - off >= 3);
    assert!((off + 10 - 1) - app.cursor >= 3);
}

#[test]
fn cursor_near_top_scrolls_up_to_keep_the_margin() {
    let mut app = tall_session(20);
    move_down(&mut app, 5);
    for _ in 0..9 {
        app.run(Command::ScrollDown);
    }
    assert_eq!(app.display_offset, 9);
    // cursor 5 sits above the window: it slides up to 5 - 3 = 2.
    assert_eq!(app.calc_offset(10), 2);
}

#[test]
fn offset_is_clamped_to_the_list_end() {
    let mut app = tall_session(20);
    move_down(&mut app, 20);
    // cursor on the last row: the ideal offset 20 - 10 + 3 + 1 = 14 is
    // clamped to max_offs = 21 - 10 = 11.
    assert_eq!(app.calc_offset(10), 11);
}

#[test]
fn short_lists_never_scroll() {
    let mut app = tall_session(4);
    move_down(&mut app, 3);
    assert_eq!(app.calc_offset(10), 0);
}

#[test]
fn margin_is_clamped_to_half_the_viewport() {
    let mut app = tall_session(20);
    move_down(&mut app, 10);
    // height 4 clamps the margin to 2: offset 10 - 4 + 2 + 1 = 9.
    assert_eq!(app.calc_offset(4), 9);
}

#[test]
fn zero_height_leaves_the_offset_unchanged() {
    let mut app = tall_session(20);
    for _ in 0..7 {
        app.run(Command::ScrollDown);
    }
    assert_eq!(app.calc_offset(0), 7);
}
