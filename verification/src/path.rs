//! Paths within a compound file.

use std::path::{Component, Path};

use vstd::prelude::*;
use vstd::string::{StrSliceExecFns, StringExecFns};

use crate::directory::name_views;
use crate::error::Error;

verus! {

/// A component of a path, with its name as a sequence of characters.
pub enum PathComponentView {
    /// A prefix, such as a drive letter.
    Prefix,
    /// The root.
    RootDir,
    /// The object that has been come to.
    CurDir,
    /// The object that holds it.
    ParentDir,
    /// An object within it.  There is no name where it is not UTF-8.
    Normal(Option<Seq<char>>),
}

/// A component of a path.
#[derive(Debug)]
pub enum PathComponent {
    /// A prefix, such as a drive letter.
    Prefix,
    /// The root.
    RootDir,
    /// The object that has been come to.
    CurDir,
    /// The object that holds it.
    ParentDir,
    /// An object within it.  There is no name where it is not UTF-8.
    Normal(Option<String>),
}

impl View for PathComponent {
    type V = PathComponentView;

    open spec fn view(&self) -> PathComponentView {
        match *self {
            PathComponent::Prefix => PathComponentView::Prefix,
            PathComponent::RootDir => PathComponentView::RootDir,
            PathComponent::CurDir => PathComponentView::CurDir,
            PathComponent::ParentDir => PathComponentView::ParentDir,
            PathComponent::Normal(None) => PathComponentView::Normal(None),
            PathComponent::Normal(Some(name)) => PathComponentView::Normal(Some(name@)),
        }
    }
}

/// The views of the components of a path.
pub open spec fn component_views(components: Seq<PathComponent>) -> Seq<PathComponentView> {
    Seq::new(components.len(), |i: int| components[i]@)
}

/// The names that lead from the root to where components lead, when `names`
/// lead to where they start.
pub open spec fn follow(components: Seq<PathComponentView>, names: Seq<Seq<char>>) -> Result<
    Seq<Seq<char>>,
    Error,
>
    decreases components.len(),
{
    if components.len() == 0 {
        Ok(names)
    } else {
        let rest = components.drop_first();
        match components[0] {
            PathComponentView::Prefix => Err(Error::InvalidPath),
            PathComponentView::RootDir => follow(rest, Seq::empty()),
            PathComponentView::CurDir => follow(rest, names),
            PathComponentView::ParentDir => if names.len() == 0 {
                Err(Error::InvalidPath)
            } else {
                follow(rest, names.drop_last())
            },
            PathComponentView::Normal(Some(name)) => follow(rest, names.push(name)),
            PathComponentView::Normal(None) => Err(Error::NonUtf8Path),
        }
    }
}

/// The names that lead from the root to where a path leads.
pub open spec fn path_names(components: Seq<PathComponentView>) -> Result<Seq<Seq<char>>, Error> {
    follow(components, Seq::empty())
}

/// Whether every platform takes a path in the same way: it has no backslash,
/// and starts neither with a drive letter nor with two slashes.
pub open spec fn is_portable(path: Seq<char>) -> bool {
    &&& !path.contains('\\')
    &&& !(path.len() >= 2 && path[1] == ':')
    &&& !(path.len() >= 2 && path[0] == '/' && path[1] == '/')
}

/// The parts of a path between slashes.
pub open spec fn segments(path: Seq<char>) -> Seq<Seq<char>>
    decreases path.len(),
{
    if path.len() == 0 {
        seq![Seq::empty()]
    } else {
        let before = segments(path.drop_last());
        if path.last() == '/' {
            before.push(Seq::empty())
        } else {
            before.drop_last().push(before.last().push(path.last()))
        }
    }
}

/// The components that the parts of a path stand for.  A part that is empty
/// stands for none, and so does a dot that is not the first part.
pub open spec fn segment_components(parts: Seq<Seq<char>>) -> Seq<PathComponentView>
    decreases parts.len(),
{
    if parts.len() == 0 {
        Seq::empty()
    } else {
        let before = segment_components(parts.drop_last());
        let part = parts.last();
        if part == Seq::<char>::empty() {
            before
        } else if part == seq!['.'] {
            if parts.len() == 1 {
                before.push(PathComponentView::CurDir)
            } else {
                before
            }
        } else if part == seq!['.', '.'] {
            before.push(PathComponentView::ParentDir)
        } else {
            before.push(PathComponentView::Normal(Some(part)))
        }
    }
}

/// The components of a path that is portable.
pub open spec fn portable_components(path: Seq<char>) -> Seq<PathComponentView> {
    if path.len() > 0 && path[0] == '/' {
        seq![PathComponentView::RootDir] + segment_components(segments(path))
    } else {
        segment_components(segments(path))
    }
}

/// Whether a path can have the given components.  Of a path that is not
/// portable the platform decides.
pub open spec fn has_components(path: Seq<char>, components: Seq<PathComponentView>) -> bool {
    is_portable(path) ==> components == portable_components(path)
}

/// Calls `std::path::Path::components`.  A path that is portable is cut at the
/// slashes; empty parts are left out, and so are dots but at the start.
#[verifier::external_body]
pub(crate) fn path_components(path: &str) -> (r: Vec<PathComponent>)
    ensures
        has_components(path@, component_views(r@)),
{
    let convert = |component: Component<'_>| match component {
        Component::Prefix(_) => PathComponent::Prefix,
        Component::RootDir => PathComponent::RootDir,
        Component::CurDir => PathComponent::CurDir,
        Component::ParentDir => PathComponent::ParentDir,
        Component::Normal(name) => PathComponent::Normal(name.to_str().map(str::to_string)),
    };
    Path::new(path).components().map(convert).collect()
}

/// Finds the names that lead from the root to where a path leads.
pub fn names_for_path(components: &Vec<PathComponent>) -> (r: Result<Vec<String>, Error>)
    ensures
        match (r, path_names(component_views(components@))) {
            (Ok(names), Ok(expected)) => name_views(names@) == expected,
            (Err(e), Err(expected)) => e == expected,
            _ => false,
        },
{
    let ghost all = component_views(components@);
    let mut names: Vec<String> = Vec::new();
    let mut i: usize = 0;
    assert(all.skip(0) =~= all);
    assert(name_views(names@) =~= Seq::empty());
    while i < components.len()
        invariant
            all == component_views(components@),
            i <= components@.len(),
            path_names(all) == follow(all.skip(i as int), name_views(names@)),
        decreases components@.len() - i,
    {
        let ghost before = name_views(names@);
        assert(all.skip(i as int).drop_first() =~= all.skip(i + 1));
        assert(all.skip(i as int)[0] == components@[i as int]@);
        match &components[i] {
            PathComponent::Prefix => {
                return Err(Error::InvalidPath);
            },
            PathComponent::RootDir => {
                names.clear();
                assert(name_views(names@) =~= Seq::empty());
            },
            PathComponent::CurDir => {},
            PathComponent::ParentDir => {
                if names.pop().is_none() {
                    return Err(Error::InvalidPath);
                }
                assert(name_views(names@) =~= before.drop_last());
            },
            PathComponent::Normal(Some(name)) => {
                names.push(name.clone());
                assert(name_views(names@) =~= before.push(name@));
            },
            PathComponent::Normal(None) => {
                return Err(Error::NonUtf8Path);
            },
        }
        i += 1;
    }
    Ok(names)
}

/// Names, with a slash before each.
pub open spec fn slashed(names: Seq<Seq<char>>) -> Seq<char>
    decreases names.len(),
{
    if names.len() == 0 {
        Seq::empty()
    } else {
        slashed(names.drop_last()).push('/') + names.last()
    }
}

/// The full path of the object that names lead to from the root: a slash, and
/// the names with slashes between them.
pub open spec fn full_path(names: Seq<Seq<char>>) -> Seq<char> {
    if names.len() == 0 {
        seq!['/']
    } else {
        slashed(names)
    }
}

/// The full path of the object that components lead to.
pub fn full_path_for(components: &Vec<PathComponent>) -> (r: Result<String, Error>)
    ensures
        match (r, path_names(component_views(components@))) {
            (Ok(path), Ok(names)) => path@ == full_path(names),
            (Err(e), Err(expected)) => e == expected,
            _ => false,
        },
{
    let names = names_for_path(components)?;
    let ghost all = name_views(names@);
    proof {
        reveal_strlit("/");
        reveal_strlit("");
    }
    if names.len() == 0 {
        let root = String::from_str("/");
        assert(root@ =~= seq!['/']);
        return Ok(root);
    }
    let mut path = String::from_str("");
    let mut i: usize = 0;
    assert(path@ =~= slashed(all.take(0)));
    while i < names.len()
        invariant
            i <= names@.len(),
            all == name_views(names@),
            path@ == slashed(all.take(i as int)),
            "/"@ == seq!['/'],
        decreases names@.len() - i,
    {
        let ghost before = path@;
        path.append("/");
        assert(path@ =~= before.push('/'));
        path.append(names[i].as_str());
        i += 1;
        assert(all.take(i as int).drop_last() =~= all.take(i - 1));
    }
    assert(all.take(i as int) =~= all);
    Ok(path)
}

/// The full path of an object within the object that has the full path `base`.
pub open spec fn child_path(base: Seq<char>, name: Seq<char>) -> Seq<char> {
    if base == seq!['/'] {
        base + name
    } else {
        base.push('/') + name
    }
}

/// Adds a name to a full path.
pub fn path_of_child(base: &str, name: &str) -> (r: String)
    ensures
        r@ == child_path(base@, name@),
{
    proof {
        reveal_strlit("/");
    }
    let mut path = String::from_str(base);
    if base.unicode_len() == 1 && base.get_char(0) == '/' {
        assert(base@ =~= seq!['/']);
    } else {
        path.append("/");
        assert(path@ =~= base@.push('/'));
    }
    path.append(name);
    path
}

/// Where the last slash of a path stands, looking at its first `n` characters.
pub open spec fn last_slash(path: Seq<char>, n: nat) -> Option<nat>
    decreases n,
{
    if n == 0 {
        None
    } else if path[n - 1] == '/' {
        Some((n - 1) as nat)
    } else {
        last_slash(path, (n - 1) as nat)
    }
}

/// The path of the storage that holds the object with a path: what stands
/// before the last slash, or the root.
pub open spec fn parent_path(path: Seq<char>) -> Seq<char> {
    match last_slash(path, path.len()) {
        Some(at) => if at == 0 {
            seq!['/']
        } else {
            path.take(at as int)
        },
        None => seq!['/'],
    }
}

/// Finds the path of the storage that holds the object with a path.
pub fn path_of_parent(path: &str) -> (r: String)
    ensures
        r@ == parent_path(path@),
{
    proof {
        reveal_strlit("/");
    }
    let mut n: usize = path.unicode_len();
    while n > 0 && path.get_char(n - 1) != '/'
        invariant
            n <= path@.len(),
            last_slash(path@, path@.len()) == last_slash(path@, n as nat),
        decreases n,
    {
        n -= 1;
    }
    if n <= 1 {
        let root = String::from_str("/");
        assert(root@ =~= seq!['/']);
        root
    } else {
        let parent = path.substring_char(0, n - 1);
        assert(parent@ =~= path@.take(n - 1));
        String::from_str(parent)
    }
}

} // verus!
