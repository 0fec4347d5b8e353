use vstd::prelude::*;

verus! {

/// One component of a parsed filesystem path. The caller turns the
/// platform's own path syntax into these plain values before handing a path
/// to the resolver; directory reading itself also stays with the caller.
pub enum PathComponent {
    /// A platform prefix (such as a drive) standing before the root.
    Prefix(String),
    /// The filesystem root.
    RootDir,
    /// One named segment.
    Normal(String),
}

/// The ghost shape of one path component.
pub enum CompModel {
    Prefix(Seq<char>),
    RootDir,
    Normal(Seq<char>),
}

impl View for PathComponent {
    type V = CompModel;

    open spec fn view(&self) -> CompModel {
        match self {
            PathComponent::Prefix(s) => CompModel::Prefix(s@),
            PathComponent::RootDir => CompModel::RootDir,
            PathComponent::Normal(s) => CompModel::Normal(s@),
        }
    }
}

/// The component views of a parsed path.
pub open spec fn comp_views(s: Seq<PathComponent>) -> Seq<CompModel> {
    s.map_values(|c: PathComponent| c@)
}

/// The view of an optional string.
pub open spec fn opt_str_view(o: Option<String>) -> Option<Seq<char>> {
    match o {
        Some(s) => Some(s@),
        None => None,
    }
}

/// The root of the path the components came from: its optional platform
/// prefix, and the prefix and root separator joined into the root's display
/// name. A path that starts with a normal segment has no root; everything
/// from the first normal segment on is ignored.
pub open spec fn root3_model(cs: Seq<CompModel>) -> (Option<Seq<char>>, Seq<char>) {
    if cs.len() >= 2 && cs[0] is Prefix && cs[1] is RootDir {
        (Some(cs[0]->Prefix_0), cs[0]->Prefix_0 + seq!['/'])
    } else if cs.len() >= 1 && cs[0] is RootDir {
        (None, seq!['/'])
    } else if cs.len() >= 1 && cs[0] is Prefix {
        (Some(cs[0]->Prefix_0), cs[0]->Prefix_0)
    } else {
        (None, Seq::empty())
    }
}

/// The prefix and root-name components of the directory the session starts
/// in, as the session root's name. The components must come from an absolute
/// path; a relative one yields an empty root name.
pub fn get_current_root3(comps: &Vec<PathComponent>) -> (r: (Option<String>, String))
    ensures
        opt_str_view(r.0) == root3_model(comp_views(comps@)).0,
        r.1@ == root3_model(comp_views(comps@)).1,
{
    proof {
        reveal_strlit("/");
        assert("/"@ =~= seq!['/']);
    }
    if comps.len() >= 1 {
        let c0 = &comps[0];
        match c0 {
            PathComponent::Prefix(p) => {
                let has_root = comps.len() >= 2 && matches!(&comps[1], PathComponent::RootDir);
                if has_root {
                    let mut root = p.clone();
                    root.append("/");
                    proof {
                        assert(root@ =~= p@ + seq!['/']);
                    }
                    (Some(p.clone()), root)
                } else {
                    (Some(p.clone()), p.clone())
                }
            },
            PathComponent::RootDir => (None, String::from_str("/")),
            PathComponent::Normal(_) => (None, String::new()),
        }
    } else {
        (None, String::new())
    }
}

/// Like `get_current_root3`, without the separate prefix: only the root's
/// display name.
pub fn get_current_root(comps: &Vec<PathComponent>) -> (r: String)
    ensures
        r@ == root3_model(comp_views(comps@)).1,
{
    let (_, root) = get_current_root3(comps);
    root
}

} // verus!
