use vcd::application::{Application, Command, Outcome};
use vcd::errors::AppError;
use vcd::filesystem::{get_current_root, get_current_root3, PathComponent};
use vcd::structures::FindProgress;

fn names(list: &[&str]) -> Vec<String> {
    list.iter().map(|s| String::from(*s)).collect()
}

/// Resolves `comps` the way a session startup does: loading every node the
/// walk stops on, with listings drawn from `fs` by path.
fn resolve_with(
    app: &mut Application,
    comps: &Vec<PathComponent>,
    fs: &[(&str, &[&str])],
) -> Result<usize, AppError> {
    loop {
        match app.find(comps) {
            Ok(FindProgress::Found(n)) => return Ok(n),
            Ok(FindProgress::NeedLoad(n)) => {
                let path = app.tree.get_path(n);
                let listing = fs
                    .iter()
                    .find(|(p, _)| *p == path)
                    .map(|(_, entries)| names(entries));
                match listing {
                    Some(entries) => {
                        app.provide_listing(n, Some(entries));
                    },
                    None => return Err(AppError::StatStr("Cannot find specified path")),
                }
            },
            Err(e) => return Err(e),
        }
    }
}

#[test]
fn startup_places_the_cursor_on_the_starting_directory() {
    let mut app = Application::new(None, String::from("/"));
    let comps = vec![
        PathComponent::RootDir,
        PathComponent::Normal(String::from("bin")),
    ];
    let fs: &[(&str, &[&str])] = &[("/", &["bin", "home"])];
    let node = resolve_with(&mut app, &comps, fs).expect("the path exists");
    app.goto(node);
    assert_eq!(app.cursor, 1);
    assert_eq!(app.tv_items[app.cursor].tree_node, node);
    match app.run(Command::Confirm) {
        Outcome::Selected { path } => assert_eq!(path, "/bin"),
        _ => panic!("confirm must hand back the selected path"),
    }
}

#[test]
fn startup_resolution_failure_leaves_the_cursor_at_the_root() {
    let mut app = Application::new(None, String::from("/"));
    let comps = vec![
        PathComponent::RootDir,
        PathComponent::Normal(String::from("missing")),
    ];
    let fs: &[(&str, &[&str])] = &[("/", &["bin", "home"])];
    let err = resolve_with(&mut app, &comps, fs).expect_err("the path does not exist");
    assert_eq!(err.message(), "Cannot find specified path");
    assert_eq!(app.cursor, 0);
    assert_eq!(app.tv_items[0].tree_node, 0);
}

#[test]
fn nested_paths_resolve_one_load_per_segment() {
    let mut app = Application::new(None, String::from("/"));
    let comps = vec![
        PathComponent::RootDir,
        PathComponent::Normal(String::from("home")),
        PathComponent::Normal(String::from("user")),
    ];
    let fs: &[(&str, &[&str])] = &[("/", &["bin", "home"]), ("/home", &["user"])];
    let node = resolve_with(&mut app, &comps, fs).expect("the path exists");
    assert_eq!(app.tree.get_path(node), "/home/user");
}

#[test]
fn matching_prefix_resolves_and_wrong_prefix_fails() {
    let mut app = Application::new(Some(String::from("C:")), String::from("C:/"));
    let fs: &[(&str, &[&str])] = &[("C:/", &["bin"])];
    let good = vec![
        PathComponent::Prefix(String::from("C:")),
        PathComponent::RootDir,
        PathComponent::Normal(String::from("bin")),
    ];
    let node = resolve_with(&mut app, &good, fs).expect("the path exists");
    assert_eq!(app.tree.get_path(node), "C:/bin");
    let bad = vec![
        PathComponent::Prefix(String::from("D:")),
        PathComponent::RootDir,
        PathComponent::Normal(String::from("bin")),
    ];
    assert!(resolve_with(&mut app, &bad, fs).is_err());
}

#[test]
fn relative_paths_do_not_resolve() {
    let mut app = Application::new(None, String::from("/"));
    let comps = vec![PathComponent::Normal(String::from("bin"))];
    let fs: &[(&str, &[&str])] = &[("/", &["bin"])];
    assert!(resolve_with(&mut app, &comps, fs).is_err());
}

#[test]
fn current_root_of_a_unix_path() {
    let comps = vec![
        PathComponent::RootDir,
        PathComponent::Normal(String::from("home")),
        PathComponent::Normal(String::from("user")),
    ];
    let (prefix, root) = get_current_root3(&comps);
    assert_eq!(prefix, None);
    assert_eq!(root, "/");
    assert_eq!(get_current_root(&comps), "/");
}

#[test]
fn current_root_of_a_prefixed_path() {
    let comps = vec![
        PathComponent::Prefix(String::from("C:")),
        PathComponent::RootDir,
        PathComponent::Normal(String::from("Users")),
    ];
    let (prefix, root) = get_current_root3(&comps);
    assert_eq!(prefix, Some(String::from("C:")));
    assert_eq!(root, "C:/");
}

#[test]
fn current_root_of_a_relative_path_is_empty() {
    let comps = vec![PathComponent::Normal(String::from("rel"))];
    let (prefix, root) = get_current_root3(&comps);
    assert_eq!(prefix, None);
    assert_eq!(root, "");
    let empty: Vec<PathComponent> = Vec::new();
    let (prefix2, root2) = get_current_root3(&empty);
    assert_eq!(prefix2, None);
    assert_eq!(root2, "");
}

#[test]
fn resolved_paths_round_trip() {
    let mut app = Application::new(None, String::from("/"));
    let fs: &[(&str, &[&str])] = &[("/", &["bin", "home"]), ("/home", &["user", "work"])];
    let comps = vec![
        PathComponent::RootDir,
        PathComponent::Normal(String::from("home")),
        PathComponent::Normal(String::from("user")),
    ];
    let user = resolve_with(&mut app, &comps, fs).expect("the path exists");
    let path = app.tree.get_path(user);
    assert_eq!(path, "/home/user");
    let reparsed: Vec<PathComponent> = std::iter::once(PathComponent::RootDir)
        .chain(
            path[1..]
                .split('/')
                .map(|seg| PathComponent::Normal(String::from(seg))),
        )
        .collect();
    let again = resolve_with(&mut app, &reparsed, fs).expect("the reparsed path exists");
    assert_eq!(again, user);
}

#[test]
fn error_messages_carry_their_text() {
    assert_eq!(AppError::Str(String::from("boom")).message(), "boom");
    assert_eq!(AppError::StatStr("fixed").message(), "fixed");
}
