use vcd::application::{Application, Command, Outcome};

fn names(list: &[&str]) -> Vec<String> {
    list.iter().map(|s| String::from(*s)).collect()
}

/// A session whose root `/` is already loaded with the given entries.
fn session(entries: &[&str]) -> Application {
    let mut app = Application::new(None, String::from("/"));
    let node = match app.run(Command::Expand) {
        Outcome::NeedsListing { node, path } => {
            assert_eq!(path, "/");
            node
        },
        _ => panic!("expanding the fresh root must ask for its listing"),
    };
    assert_eq!(node, 0);
    app.provide_listing(node, Some(names(entries)));
    app
}

/// Expands the node under the cursor with the given listing.
fn expand_under_cursor(app: &mut Application, entries: &[&str]) {
    match app.run(Command::Expand) {
        Outcome::NeedsListing { node, path: _ } => {
            app.provide_listing(node, Some(names(entries)));
        },
        _ => panic!("expected the expand to ask for a listing"),
    }
}

fn row_name(app: &Application, row: usize) -> String {
    let node = app.tv_items[row].tree_node;
    String::from(app.tree.nodes[node].file_node.name.as_str())
}

#[test]
fn expand_and_select_returns_the_path() {
    let mut app = session(&["bin", "home"]);
    assert_eq!(app.tv_items.len(), 3);
    assert_eq!(app.cursor, 0);
    assert!(matches!(app.run(Command::MoveDown), Outcome::Continue));
    assert_eq!(app.cursor, 1);
    assert_eq!(row_name(&app, 1), "bin");
    match app.run(Command::Confirm) {
        Outcome::Selected { path } => assert_eq!(path, "/bin"),
        _ => panic!("confirm must hand back the selected path"),
    }
}

#[test]
fn collapse_resets_the_subtree() {
    let mut app = session(&["bin", "home", "srv"]);
    app.run(Command::MoveDown);
    app.run(Command::MoveDown);
    assert_eq!(row_name(&app, app.cursor), "home");
    expand_under_cursor(&mut app, &["user"]);
    assert_eq!(app.tv_items.len(), 5);
    assert_eq!(row_name(&app, 3), "user");
    assert!(matches!(app.run(Command::Collapse), Outcome::Continue));
    assert_eq!(app.tv_items.len(), 4);
    for row in 0..app.tv_items.len() {
        assert_ne!(row_name(&app, row), "user");
    }
    assert_eq!(row_name(&app, app.cursor), "home");
    app.run(Command::MoveDown);
    assert_eq!(row_name(&app, app.cursor), "srv");
}

#[test]
fn collapse_on_unloaded_node_moves_to_parent() {
    let mut app = session(&["bin", "home"]);
    app.run(Command::MoveDown);
    assert_eq!(row_name(&app, app.cursor), "bin");
    app.run(Command::Collapse);
    assert_eq!(app.cursor, 0);
}

#[test]
fn expand_on_loaded_node_moves_to_first_child() {
    let mut app = session(&["bin", "home"]);
    assert!(matches!(app.run(Command::Expand), Outcome::Continue));
    assert_eq!(app.cursor, 1);
    assert_eq!(row_name(&app, 1), "bin");
}

#[test]
fn cursor_stays_inside_the_row_list() {
    let mut app = session(&["bin", "home"]);
    let script = [
        Command::MoveUp,
        Command::MoveDown,
        Command::MoveDown,
        Command::MoveDown,
        Command::MoveDown,
        Command::MoveUp,
        Command::Collapse,
        Command::MoveDown,
        Command::Expand,
        Command::MoveUp,
        Command::MoveUp,
        Command::Collapse,
        Command::MoveDown,
    ];
    for cmd in script {
        match app.run(cmd) {
            Outcome::NeedsListing { node, path: _ } => {
                app.provide_listing(node, Some(names(&["deep"])));
            },
            _ => {},
        }
        assert!(!app.tv_items.is_empty());
        assert!(app.cursor < app.tv_items.len());
    }
}

#[test]
fn cursor_clamps_when_collapsing_the_root() {
    let mut app = session(&["bin", "home"]);
    app.run(Command::MoveDown);
    app.run(Command::MoveDown);
    assert_eq!(app.cursor, 2);
    app.run(Command::MoveUp);
    app.run(Command::MoveUp);
    assert_eq!(app.cursor, 0);
    app.run(Command::Collapse);
    assert_eq!(app.tv_items.len(), 1);
    assert_eq!(app.cursor, 0);
}

#[test]
fn jump_to_letter_moves_to_next_matching_sibling() {
    let mut app = session(&["alpha", "beta", "bar"]);
    app.run(Command::MoveDown);
    app.run(Command::MoveDown);
    assert_eq!(row_name(&app, app.cursor), "beta");
    app.run(Command::JumpToLetter('b'));
    assert_eq!(row_name(&app, app.cursor), "bar");
    app.run(Command::JumpToLetter('B'));
    assert_eq!(row_name(&app, app.cursor), "beta");
    app.run(Command::JumpToLetter('z'));
    assert_eq!(row_name(&app, app.cursor), "beta");
}

#[test]
fn scroll_commands_clamp_at_the_edges() {
    let mut app = session(&["bin", "home"]);
    assert_eq!(app.display_offset, 0);
    app.run(Command::ScrollUp);
    assert_eq!(app.display_offset, 0);
    app.run(Command::ScrollDown);
    assert_eq!(app.display_offset, 1);
    app.run(Command::ScrollUp);
    assert_eq!(app.display_offset, 0);
}

#[test]
fn cancel_ends_the_session() {
    let mut app = session(&["bin"]);
    assert!(matches!(app.run(Command::Cancel), Outcome::Cancelled));
}

#[test]
fn drawings_encode_depth_and_sibling_position() {
    let mut app = session(&["bin", "home", "srv"]);
    app.run(Command::MoveDown);
    app.run(Command::MoveDown);
    expand_under_cursor(&mut app, &["user"]);
    assert_eq!(app.tv_items[0].drawing, "");
    assert_eq!(app.tv_items[1].drawing, "├───");
    assert_eq!(app.tv_items[2].drawing, "├───");
    assert_eq!(app.tv_items[3].drawing, "│   └───");
    assert_eq!(app.tv_items[4].drawing, "└───");
}

#[test]
fn last_child_subtree_uses_blank_lead() {
    let mut app = session(&["bin", "home"]);
    app.run(Command::MoveDown);
    app.run(Command::MoveDown);
    expand_under_cursor(&mut app, &["user"]);
    assert_eq!(app.tv_items[3].drawing, "    └───");
}

#[test]
fn row_text_marks_loaded_and_unloaded_nodes() {
    let mut app = session(&["bin", "home"]);
    assert_eq!(app.row_text(0), "\u{1F4C2} /");
    assert_eq!(app.row_text(1), "├───\u{1F4C1} bin");
}

#[test]
fn failed_listing_leaves_the_node_unloaded() {
    let mut app = session(&["bin", "home"]);
    app.run(Command::MoveDown);
    match app.run(Command::Expand) {
        Outcome::NeedsListing { node, path } => {
            assert_eq!(path, "/bin");
            app.provide_listing(node, None);
            assert!(!app.tree.is_loaded(node));
        },
        _ => panic!("expected the expand to ask for a listing"),
    }
    assert_eq!(app.tv_items.len(), 3);
}
