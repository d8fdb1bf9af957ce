//! What holds of paths and of the entries that they lead to.

use vstd::prelude::*;

use crate::compound::{can_look_up, look_up, stream_id};
use crate::constants::{NO_STREAM, OBJ_TYPE_ROOT, OBJ_TYPE_STORAGE, ROOT_STREAM_ID};
use crate::create::new_view;
use crate::dir_entry::DirEntryView;
use crate::directory::{
    find, in_order, is_ordered, is_parent, parent_of, resolve, walk_rest, Lookup,
};
use crate::directory_laws::{
    law_found_is_listed, law_listed_is_found, law_parent_holds, law_resolve_last,
    law_resolved_is_entry, law_walk_start,
};
use crate::error::Error;
use crate::file_laws::{reopened_root, reopened_view, unused_entry};
use crate::layout::CompoundView;
use crate::path::{
    child_path, follow, full_path, is_portable, last_slash, parent_path, path_names,
    portable_components, segment_components, segments, slashed, PathComponentView,
};
use crate::text::law_same_names;
use crate::version::Version;

verus! {

/// Whether a name is one component of a path on every platform.
pub open spec fn is_plain_name(name: Seq<char>) -> bool {
    &&& name.len() > 0
    &&& name != seq!['.']
    &&& name != seq!['.', '.']
    &&& name[0] != ':'
    &&& !name.contains('/')
    &&& !name.contains('\\')
}

/// Whether all names are plain.
pub open spec fn are_plain(names: Seq<Seq<char>>) -> bool {
    forall|i: int| 0 <= i < names.len() ==> is_plain_name(#[trigger] names[i])
}

/// A component for each name.
pub open spec fn normals(names: Seq<Seq<char>>) -> Seq<PathComponentView> {
    Seq::new(names.len(), |i: int| PathComponentView::Normal(Some(names[i])))
}

/// A path has at least one part.
proof fn lemma_segments_some(path: Seq<char>)
    ensures
        segments(path).len() > 0,
    decreases path.len(),
{
    if path.len() > 0 {
        lemma_segments_some(path.drop_last());
    }
}

/// What has no slash goes to the end of the last part.
proof fn lemma_segments_append(path: Seq<char>, name: Seq<char>)
    requires
        !name.contains('/'),
    ensures
        segments(path + name) == segments(path).drop_last().push(segments(path).last() + name),
    decreases name.len(),
{
    lemma_segments_some(path);
    if name.len() == 0 {
        assert(path + name =~= path);
        assert(segments(path).last() + name =~= segments(path).last());
        assert(segments(path).drop_last().push(segments(path).last()) =~= segments(path));
    } else {
        let front = name.drop_last();
        assert(name.contains(name.last()));
        assert(!front.contains('/')) by {
            if front.contains('/') {
                let i = choose|i: int| 0 <= i < front.len() && front[i] == '/';
                assert(name[i] == '/');
            }
        }
        lemma_segments_append(path, front);
        assert((path + name).drop_last() =~= path + front);
        assert((path + name).last() == name.last());
        let before = segments(path).drop_last().push(segments(path).last() + front);
        assert(before.drop_last() =~= segments(path).drop_last());
        assert((segments(path).last() + front).push(name.last()) =~= segments(path).last()
            + name);
    }
}

/// A slash starts a new part.
proof fn lemma_segments_slash(path: Seq<char>)
    ensures
        segments(path.push('/')) == segments(path).push(Seq::empty()),
{
    assert(path.push('/').drop_last() =~= path);
}

/// The parts of names with a slash before each.
proof fn lemma_slashed_segments(names: Seq<Seq<char>>)
    requires
        are_plain(names),
    ensures
        segments(slashed(names)) == seq![Seq::<char>::empty()] + names,
    decreases names.len(),
{
    if names.len() == 0 {
        assert(seq![Seq::<char>::empty()] + names =~= seq![Seq::<char>::empty()]);
    } else {
        let front = names.drop_last();
        let before = slashed(front);
        assert(is_plain_name(names[names.len() - 1]));
        assert(are_plain(front)) by {
            assert forall|i: int| 0 <= i < front.len() implies is_plain_name(
                #[trigger] front[i],
            ) by {
                assert(front[i] == names[i]);
            }
        }
        lemma_slashed_segments(front);
        lemma_segments_slash(before);
        lemma_segments_append(before.push('/'), names.last());
        let parts = (seq![Seq::<char>::empty()] + front).push(Seq::empty());
        assert(parts.drop_last() =~= seq![Seq::<char>::empty()] + front);
        assert(parts.last() + names.last() =~= names.last());
        assert(parts.drop_last().push(names.last()) =~= seq![Seq::<char>::empty()] + names);
    }
}

/// The components that plain names behind a slash stand for.
proof fn lemma_plain_components(names: Seq<Seq<char>>)
    requires
        are_plain(names),
    ensures
        segment_components(seq![Seq::<char>::empty()] + names) == normals(names),
    decreases names.len(),
{
    let parts = seq![Seq::<char>::empty()] + names;
    if names.len() == 0 {
        assert(parts.drop_last() =~= Seq::empty());
        assert(segment_components(parts.drop_last()) =~= Seq::empty());
        assert(parts.last() == Seq::<char>::empty());
        assert(normals(names) =~= Seq::empty());
    } else {
        let front = names.drop_last();
        assert(is_plain_name(names[names.len() - 1]));
        assert(are_plain(front)) by {
            assert forall|i: int| 0 <= i < front.len() implies is_plain_name(
                #[trigger] front[i],
            ) by {
                assert(front[i] == names[i]);
            }
        }
        lemma_plain_components(front);
        assert(parts.drop_last() =~= seq![Seq::<char>::empty()] + front);
        assert(parts.last() == names.last());
        assert(normals(front).push(PathComponentView::Normal(Some(names.last()))) =~= normals(
            names,
        ));
    }
}

/// How names with a slash before each start, and that they have no backslash.
proof fn lemma_slashed_start(names: Seq<Seq<char>>)
    requires
        names.len() > 0,
        are_plain(names),
    ensures
        slashed(names).len() >= 2,
        slashed(names)[0] == '/',
        slashed(names)[1] == names[0][0],
        !slashed(names).contains('\\'),
    decreases names.len(),
{
    let front = names.drop_last();
    let last = names.last();
    let path = slashed(names);
    let before = slashed(front);
    assert(is_plain_name(names[names.len() - 1]));
    assert(is_plain_name(names[0]));
    if front.len() == 0 {
        assert(before =~= Seq::empty());
        assert(last == names[0]);
    } else {
        assert(are_plain(front)) by {
            assert forall|i: int| 0 <= i < front.len() implies is_plain_name(
                #[trigger] front[i],
            ) by {
                assert(front[i] == names[i]);
            }
        }
        lemma_slashed_start(front);
    }
    if path.contains('\\') {
        let i = choose|i: int| 0 <= i < path.len() && path[i] == '\\';
        if i < before.len() {
            assert(before[i] == '\\');
            assert(before.contains('\\'));
        } else if i > before.len() {
            assert(last[i - before.len() - 1] == '\\');
            assert(last.contains('\\'));
        }
    }
}

/// The full path of plain names is portable, and its components are the root
/// and the names.
pub proof fn law_full_path_components(names: Seq<Seq<char>>)
    requires
        are_plain(names),
    ensures
        is_portable(full_path(names)),
        portable_components(full_path(names)) == seq![PathComponentView::RootDir] + normals(names),
{
    let path = full_path(names);
    lemma_plain_components(names);
    lemma_slashed_segments(names);
    if names.len() == 0 {
        let no_names = Seq::<Seq<char>>::empty();
        assert(names =~= no_names);
        assert(slashed(names).push('/') =~= path);
        lemma_segments_slash(slashed(names));
        let parts = segments(path);
        assert(parts.last() == Seq::<char>::empty());
        assert(parts.drop_last() =~= seq![Seq::<char>::empty()] + names);
        assert(path[0] == '/');
        assert(!path.contains('\\'));
    } else {
        lemma_slashed_start(names);
        assert(is_plain_name(names[0]));
        assert(names[0].contains(names[0][0]));
    }
}

/// Following one component more goes on from where the others lead.
proof fn lemma_follow_push(
    components: Seq<PathComponentView>,
    names: Seq<Seq<char>>,
    name: Seq<char>,
)
    ensures
        follow(components.push(PathComponentView::Normal(Some(name))), names) == match follow(
            components,
            names,
        ) {
            Ok(found) => Ok(found.push(name)),
            Err(e) => Err(e),
        },
    decreases components.len(),
{
    let all = components.push(PathComponentView::Normal(Some(name)));
    if components.len() == 0 {
        assert(all.drop_first() =~= Seq::<PathComponentView>::empty());
        assert(follow(all.drop_first(), names.push(name)) == Ok::<Seq<Seq<char>>, Error>(
            names.push(name),
        ));
    } else {
        let rest = components.drop_first();
        assert(all.drop_first() =~= rest.push(PathComponentView::Normal(Some(name))));
        match components[0] {
            PathComponentView::RootDir => lemma_follow_push(rest, Seq::empty(), name),
            PathComponentView::CurDir => lemma_follow_push(rest, names, name),
            PathComponentView::ParentDir => lemma_follow_push(rest, names.drop_last(), name),
            PathComponentView::Normal(Some(first)) => {
                lemma_follow_push(rest, names.push(first), name);
            },
            _ => {},
        }
    }
}

/// Following one component more, whatever it is, goes on from where the others
/// lead.
proof fn lemma_follow_next(
    components: Seq<PathComponentView>,
    names: Seq<Seq<char>>,
    next: PathComponentView,
)
    ensures
        follow(components.push(next), names) == match follow(components, names) {
            Ok(found) => follow(seq![next], found),
            Err(e) => Err(e),
        },
    decreases components.len(),
{
    let all = components.push(next);
    if components.len() == 0 {
        assert(all =~= seq![next]);
    } else {
        let rest = components.drop_first();
        assert(all.drop_first() =~= rest.push(next));
        match components[0] {
            PathComponentView::RootDir => lemma_follow_next(rest, Seq::empty(), next),
            PathComponentView::CurDir => lemma_follow_next(rest, names, next),
            PathComponentView::ParentDir => lemma_follow_next(rest, names.drop_last(), next),
            PathComponentView::Normal(Some(first)) => {
                lemma_follow_next(rest, names.push(first), next);
            },
            _ => {},
        }
    }
}

/// What the last component of a path does: a name is added, a dot changes
/// nothing, two dots take the last name off and are wrong where there is none,
/// the root starts over, and a prefix or a name that is not UTF-8 is wrong.
/// Nothing mends what was wrong before.  A path without components has no names.
pub proof fn law_last_component(components: Seq<PathComponentView>, next: PathComponentView)
    ensures
        path_names(Seq::empty()) == Ok::<_, Error>(Seq::<Seq<char>>::empty()),
        path_names(components.push(next)) == match path_names(components) {
            Err(e) => Err(e),
            Ok(names) => match next {
                PathComponentView::Prefix => Err(Error::InvalidPath),
                PathComponentView::RootDir => Ok(Seq::empty()),
                PathComponentView::CurDir => Ok(names),
                PathComponentView::ParentDir => if names.len() == 0 {
                    Err(Error::InvalidPath)
                } else {
                    Ok(names.take(names.len() - 1))
                },
                PathComponentView::Normal(Some(name)) => Ok(names + seq![name]),
                PathComponentView::Normal(None) => Err(Error::NonUtf8Path),
            },
        },
{
    lemma_follow_next(components, Seq::empty(), next);
    if let Ok(names) = path_names(components) {
        let one = seq![next];
        let none = Seq::<PathComponentView>::empty();
        assert(one.drop_first() =~= none);
        assert(one[0] == next);
        assert(follow(none, names) == Ok::<_, Error>(names));
        match next {
            PathComponentView::RootDir => {
                assert(follow(none, Seq::empty()) == Ok::<_, Error>(Seq::<Seq<char>>::empty()));
            },
            PathComponentView::ParentDir => {
                if names.len() > 0 {
                    assert(names.drop_last() =~= names.take(names.len() - 1));
                    assert(follow(none, names.drop_last()) == Ok::<_, Error>(names.drop_last()));
                }
            },
            PathComponentView::Normal(Some(name)) => {
                assert(names.push(name) =~= names + seq![name]);
                assert(follow(none, names.push(name)) == Ok::<_, Error>(names.push(name)));
            },
            _ => {},
        }
    }
}

/// Where a part of a path leads from where the parts before it lead: nowhere else
/// where it is empty or a dot, one up where it is two dots, and else to what it
/// names.
pub open spec fn part_names(before: Result<Seq<Seq<char>>, Error>, part: Seq<char>) -> Result<
    Seq<Seq<char>>,
    Error,
> {
    match before {
        Err(e) => Err(e),
        Ok(names) => if part.len() == 0 || (part.len() == 1 && part[0] == '.') {
            Ok(names)
        } else if part.len() == 2 && part[0] == '.' && part[1] == '.' {
            if names.len() == 0 {
                Err(Error::InvalidPath)
            } else {
                Ok(names.take(names.len() - 1))
            }
        } else {
            Ok(names + seq![part])
        },
    }
}

/// What the last part of a path does to the names.
proof fn lemma_last_part(
    start: Seq<PathComponentView>,
    parts: Seq<Seq<char>>,
    part: Seq<char>,
)
    ensures
        path_names(start + segment_components(parts.push(part))) == part_names(
            path_names(start + segment_components(parts)),
            part,
        ),
{
    let all = parts.push(part);
    let before = segment_components(parts);
    assert(all.drop_last() =~= parts);
    assert(all.last() == part);
    let next = if part == seq!['.'] {
        PathComponentView::CurDir
    } else if part == seq!['.', '.'] {
        PathComponentView::ParentDir
    } else {
        PathComponentView::Normal(Some(part))
    };
    law_last_component(start + before, next);
    assert((start + before).push(next) =~= start + before.push(next));
    assert(part == Seq::<char>::empty() <==> part.len() == 0) by {
        if part.len() == 0 {
            assert(part =~= Seq::empty());
        }
    }
    assert(part == seq!['.'] <==> part.len() == 1 && part[0] == '.') by {
        if part.len() == 1 && part[0] == '.' {
            assert(part =~= seq!['.']);
        }
    }
    assert(part == seq!['.', '.'] <==> part.len() == 2 && part[0] == '.' && part[1] == '.') by {
        if part.len() == 2 && part[0] == '.' && part[1] == '.' {
            assert(part =~= seq!['.', '.']);
        }
    }
}

/// A path leads on with every part behind a slash from where the parts before it
/// lead.
pub proof fn law_path_part(path: Seq<char>, part: Seq<char>)
    requires
        path.len() > 0,
        !part.contains('/'),
    ensures
        path_names(portable_components(path + seq!['/'] + part)) == part_names(
            path_names(portable_components(path)),
            part,
        ),
{
    let whole = path + seq!['/'] + part;
    lemma_segments_slash(path);
    lemma_segments_append(path.push('/'), part);
    assert(path.push('/') + part =~= whole);
    let parts = segments(path);
    assert(parts.push(Seq::empty()).drop_last() =~= parts);
    assert(parts.push(Seq::empty()).last() + part =~= part);
    assert(segments(whole) == parts.push(part));
    let start = if path[0] == '/' {
        seq![PathComponentView::RootDir]
    } else {
        Seq::empty()
    };
    lemma_last_part(start, parts, part);
    assert(whole[0] == path[0]);
    if path[0] != '/' {
        assert(start + segment_components(parts) =~= segment_components(parts));
        assert(start + segment_components(parts.push(part)) =~= segment_components(
            parts.push(part),
        ));
    }
}

/// A path starts at the root, whether it has a slash at the start or not.
pub proof fn law_first_part(part: Seq<char>)
    requires
        !part.contains('/'),
    ensures
        path_names(portable_components(part)) == part_names(Ok(Seq::empty()), part),
        path_names(portable_components(seq!['/'] + part)) == part_names(Ok(Seq::empty()), part),
{
    let nothing = Seq::<char>::empty();
    let none = Seq::<PathComponentView>::empty();
    let root = seq![PathComponentView::RootDir];
    let no_parts = Seq::<Seq<char>>::empty();
    law_last_component(none, PathComponentView::RootDir);
    assert(none.push(PathComponentView::RootDir) =~= root);
    assert(segment_components(no_parts) == none);
    // Without a slash.
    lemma_segments_append(nothing, part);
    assert(nothing + part =~= part);
    assert(segments(nothing) == seq![nothing]);
    assert(seq![nothing].drop_last() =~= no_parts);
    assert(segments(part) =~= no_parts.push(part));
    lemma_last_part(none, no_parts, part);
    assert(none + none =~= none);
    assert(none + segment_components(segments(part)) =~= segment_components(segments(part)));
    if part.len() > 0 {
        assert(part.contains(part[0]));
    }
    // With a slash.
    let whole = seq!['/'] + part;
    lemma_segments_slash(nothing);
    lemma_segments_append(seq!['/'], part);
    assert(nothing.push('/') =~= seq!['/']);
    let first = seq![nothing];
    assert(first.push(nothing).drop_last() =~= first);
    assert(nothing + part =~= part);
    assert(segments(whole) == first.push(part));
    lemma_last_part(root, no_parts, nothing);
    assert(no_parts.push(nothing) =~= first);
    assert(root + none =~= root);
    lemma_last_part(root, first, part);
}

/// A name at the end of a path leads on from where the path leads, and does not
/// mend a path that is wrong.
pub proof fn law_last_name(components: Seq<PathComponentView>, name: Seq<char>)
    ensures
        path_names(components.push(PathComponentView::Normal(Some(name)))) == match path_names(
            components,
        ) {
            Ok(names) => Ok(names.push(name)),
            Err(e) => Err(e),
        },
{
    lemma_follow_push(components, Seq::empty(), name);
}

/// A root component makes a path forget where it started.
pub proof fn law_root_component(
    before: Seq<Seq<char>>,
    components: Seq<PathComponentView>,
)
    ensures
        follow(seq![PathComponentView::RootDir] + components, before) == path_names(components),
{
    let all = seq![PathComponentView::RootDir] + components;
    assert(all.drop_first() =~= components);
}

/// Following a component for each name goes through the names.
proof fn lemma_follow_normals(names: Seq<Seq<char>>)
    ensures
        path_names(normals(names)) == Ok::<_, Error>(names),
    decreases names.len(),
{
    if names.len() == 0 {
        assert(normals(names) =~= Seq::empty());
        assert(names =~= Seq::empty());
    } else {
        let front = names.drop_last();
        lemma_follow_normals(front);
        assert(normals(names) =~= normals(front).push(
            PathComponentView::Normal(Some(names.last())),
        ));
        law_last_name(normals(front), names.last());
        assert(front.push(names.last()) =~= names);
    }
}

/// The full path of plain names has just these names.
pub proof fn law_full_path_names(names: Seq<Seq<char>>)
    requires
        are_plain(names),
    ensures
        path_names(portable_components(full_path(names))) == Ok::<_, Error>(names),
{
    law_full_path_components(names);
    law_root_component(Seq::empty(), normals(names));
    lemma_follow_normals(names);
}

/// The full path that an object is known by leads to the same end as the path
/// that it was looked for with, where the names are plain ones.
pub proof fn law_full_path_leads_back(v: CompoundView, components: Seq<PathComponentView>)
    requires
        path_names(components) is Ok,
        are_plain(path_names(components)->Ok_0),
    ensures
        look_up(v, portable_components(full_path(path_names(components)->Ok_0))) == look_up(
            v,
            components,
        ),
{
    law_full_path_names(path_names(components)->Ok_0);
}

/// The full path of no names is a slash; of one name, a slash and the name; and
/// of one name more, the path before, a slash and the name.
pub proof fn law_full_path_text(names: Seq<Seq<char>>, name: Seq<char>)
    ensures
        full_path(Seq::empty()) == seq!['/'],
        full_path(seq![name]) == seq!['/'] + name,
        names.len() > 0 ==> full_path(names.push(name)) == full_path(names) + seq!['/'] + name,
{
    let one = seq![name];
    assert(one.drop_last() =~= Seq::<Seq<char>>::empty());
    assert(slashed(one.drop_last()) =~= Seq::<char>::empty());
    assert(full_path(one) =~= seq!['/'] + name);
    assert(names.push(name).drop_last() =~= names);
    assert(slashed(names).push('/') =~= slashed(names) + seq!['/']);
}

/// The full path of plain names is longer than that of the root.
pub(crate) proof fn lemma_full_path_long(names: Seq<Seq<char>>)
    requires
        are_plain(names),
        names.len() > 0,
    ensures
        full_path(names).len() >= 2,
{
    lemma_slashed_start(names);
}

/// The full path of an object within another is that of the other, and the
/// name.
pub proof fn law_child_path(names: Seq<Seq<char>>, name: Seq<char>)
    requires
        are_plain(names),
    ensures
        child_path(full_path(names), name) == full_path(names.push(name)),
{
    let all = names.push(name);
    assert(all.drop_last() =~= names);
    if names.len() == 0 {
        assert(names =~= Seq::empty());
        assert(slashed(names) =~= Seq::empty());
        assert(Seq::<char>::empty().push('/') =~= seq!['/']);
    } else {
        lemma_slashed_start(names);
    }
}

/// The path that an entry is listed with leads to that entry, where the names
/// are in order and plain ones.
pub proof fn law_listed_path_leads_to_entry(
    v: CompoundView,
    names: Seq<Seq<char>>,
    storage: u32,
    i: int,
)
    requires
        are_plain(names),
        resolve(v.directory, ROOT_STREAM_ID, names) == Lookup::Found(storage),
        storage < v.directory.len(),
        is_ordered(v.directory, v.directory[storage as int].child, v.directory.len()),
        in_order(v.directory, v.directory[storage as int].child, v.directory.len()) is Some,
        0 <= i < in_order(
            v.directory,
            v.directory[storage as int].child,
            v.directory.len(),
        )->0.len(),
        is_plain_name(
            v.directory[in_order(
                v.directory,
                v.directory[storage as int].child,
                v.directory.len(),
            )->0[i] as int].name,
        ),
    ensures
        ({
            let id = in_order(
                v.directory,
                v.directory[storage as int].child,
                v.directory.len(),
            )->0[i];
            let path = child_path(full_path(names), v.directory[id as int].name);
            &&& is_portable(path)
            &&& stream_id(v, portable_components(path)) == Ok::<u32, Error>(id)
        }),
{
    let dir = v.directory;
    let child = dir[storage as int].child;
    let id = in_order(dir, child, dir.len())->0[i];
    let name = dir[id as int].name;
    law_child_path(names, name);
    law_full_path_components(names.push(name));
    law_full_path_names(names.push(name));
    law_resolve_last(dir, ROOT_STREAM_ID, names, name);
    law_same_names(name, name);
    law_listed_is_found(dir, child, name, dir.len(), i);
    assert(seq![name].drop_first() =~= Seq::<Seq<char>>::empty());
    assert(seq![name][0] == name);
    assert(resolve(dir, id, Seq::empty()) == Lookup::Found(id));
    assert(resolve(dir, storage, seq![name]) == Lookup::Found(id));
}

/// The last slash of a path lies before its last name.
proof fn lemma_last_slash(base: Seq<char>, name: Seq<char>, n: nat)
    requires
        !name.contains('/'),
        base.len() < n <= base.len() + 1 + name.len(),
    ensures
        last_slash(base.push('/') + name, n) == Some(base.len()),
    decreases n,
{
    let path = base.push('/') + name;
    if n > base.len() + 1 {
        assert(path[n - 1] == name[n - base.len() - 2]);
        assert(name.contains(name[n - base.len() - 2]));
        lemma_last_slash(base, name, (n - 1) as nat);
    }
}

/// What stands before the last slash of a path is the path of the parent, and
/// where nothing does it is the root.
pub proof fn law_parent_text(base: Seq<char>, name: Seq<char>)
    requires
        !name.contains('/'),
    ensures
        parent_path(base + seq!['/'] + name) == if base.len() == 0 {
            seq!['/']
        } else {
            base
        },
        parent_path(name) == seq!['/'],
{
    let path = base + seq!['/'] + name;
    assert(path =~= base.push('/') + name);
    lemma_last_slash(base, name, path.len());
    assert(path.take(base.len() as int) =~= base);
    lemma_no_slash(name, name.len());
}

/// A text without slashes has no last one.
proof fn lemma_no_slash(name: Seq<char>, n: nat)
    requires
        !name.contains('/'),
        n <= name.len(),
    ensures
        last_slash(name, n) is None,
    decreases n,
{
    if n > 0 {
        assert(name.contains(name[n - 1]));
        lemma_no_slash(name, (n - 1) as nat);
    }
}

/// The path of the parent of an object is the full path without the last name.
pub proof fn law_parent_path(names: Seq<Seq<char>>, name: Seq<char>)
    requires
        are_plain(names),
        !name.contains('/'),
    ensures
        parent_path(full_path(names.push(name))) == full_path(names),
{
    let base = slashed(names);
    let path = full_path(names.push(name));
    assert(names.push(name).drop_last() =~= names);
    assert(path == base.push('/') + name);
    lemma_last_slash(base, name, path.len());
    if names.len() > 0 {
        lemma_slashed_start(names);
        assert(path.take(base.len() as int) =~= base);
    }
}

/// The parent of a storage is where its path leads without the last name: if
/// names lead to a storage, and with one name more to an object that only this
/// storage holds, then that storage is the parent of the object, and the path of
/// the parent is the full path of the storage.
pub proof fn law_parent_leads_up(
    dir: Seq<DirEntryView>,
    names: Seq<Seq<char>>,
    name: Seq<char>,
    storage: u32,
    id: u32,
)
    requires
        are_plain(names),
        !name.contains('/'),
        dir.len() > 0,
        resolve(dir, ROOT_STREAM_ID, names) == Lookup::Found(storage),
        resolve(dir, ROOT_STREAM_ID, names.push(name)) == Lookup::Found(id),
        dir[storage as int].obj_type == OBJ_TYPE_STORAGE || dir[storage as int].obj_type
            == OBJ_TYPE_ROOT,
        forall|other: u32|
            other < dir.len() && #[trigger] is_parent(dir, other, id) ==> other == storage,
    ensures
        parent_of(dir, id) == Some(storage),
        parent_path(full_path(names.push(name))) == full_path(names),
{
    law_parent_path(names, name);
    law_resolved_is_entry(dir, ROOT_STREAM_ID, names);
    law_resolve_last(dir, ROOT_STREAM_ID, names, name);
    let child = dir[storage as int].child;
    assert(seq![name].drop_first() =~= Seq::<Seq<char>>::empty());
    assert(seq![name][0] == name);
    assert(resolve(dir, storage, seq![name]) == Lookup::Found(id));
    if let Lookup::Found(next) = find(dir, child, name, dir.len()) {
        assert(resolve(dir, next, Seq::empty()) == Lookup::Found(next));
    }
    law_parent_holds(dir, storage, name);
}

/// Whether the objects within every object form a tree in the directory.
pub open spec fn is_sound(dir: Seq<DirEntryView>) -> bool {
    &&& dir.len() > 0
    &&& forall|i: int|
        0 <= i < dir.len() ==> in_order(dir, (#[trigger] dir[i]).child, dir.len()) is Some
}

/// In a sound directory the search for names ends.
proof fn lemma_sound_resolve(dir: Seq<DirEntryView>, id: u32, names: Seq<Seq<char>>)
    requires
        is_sound(dir),
        id < dir.len(),
    ensures
        resolve(dir, id, names) matches Lookup::Found(found) ==> found < dir.len(),
        !(resolve(dir, id, names) is Stuck),
    decreases names.len(),
{
    if names.len() > 0 {
        let child = dir[id as int].child;
        law_found_is_listed(dir, child, names[0], dir.len());
        if let Lookup::Found(next) = find(dir, child, names[0], dir.len()) {
            lemma_sound_resolve(dir, next, names.drop_first());
        }
    }
}

/// In a sound directory the search for any path ends, and with an entry that
/// there is where it ends with one.
pub proof fn law_sound_look_up(v: CompoundView, components: Seq<PathComponentView>)
    requires
        is_sound(v.directory),
    ensures
        can_look_up(v, components),
{
    if let Ok(names) = path_names(components) {
        lemma_sound_resolve(v.directory, ROOT_STREAM_ID, names);
    }
}

/// In a sound directory a walk through what an object holds has a rest to come
/// to, so all its steps end, and that rest is the whole sibling tree.
pub proof fn law_sound_listing(dir: Seq<DirEntryView>, id: u32)
    requires
        is_sound(dir),
        id < dir.len(),
    ensures
        walk_rest(dir, Seq::empty(), dir[id as int].child) is Some,
        walk_rest(dir, Seq::empty(), dir[id as int].child) == in_order(
            dir,
            dir[id as int].child,
            dir.len(),
        ),
{
    law_walk_start(dir, dir[id as int].child);
}

/// The directory of a new file is sound.
pub proof fn law_new_directory_sound(version: Version)
    ensures
        is_sound(new_view(version).directory),
{
    let dir = new_view(version).directory;
    assert forall|i: int| 0 <= i < dir.len() implies in_order(
        dir,
        (#[trigger] dir[i]).child,
        dir.len(),
    ) is Some by {}
}

/// A new file that was opened again is as empty as a new one: its root has the
/// name, the type and the links that it was made with, nothing is within the
/// root, and no path leads to anything but the root.
pub proof fn law_new_file_is_empty(version: Version, components: Seq<PathComponentView>)
    ensures
        is_sound(reopened_view(version).directory),
        reopened_view(version).directory[0] == reopened_root(),
        in_order(
            reopened_view(version).directory,
            reopened_view(version).directory[0].child,
            reopened_view(version).directory.len(),
        ) == Some(Seq::<u32>::empty()),
        path_names(components) matches Ok(names) ==> stream_id(reopened_view(version), components)
            == if names.len() == 0 {
            Ok::<u32, Error>(ROOT_STREAM_ID)
        } else {
            Err(Error::NotFound)
        },
{
    let dir = reopened_view(version).directory;
    let n = dir.len();
    assert(n >= 2);
    assert(dir[0] == reopened_root());
    assert(in_order(dir, NO_STREAM, (n - 1) as nat) == Some(Seq::<u32>::empty()));
    assert(in_order(dir, 0, n) is Some);
    assert forall|i: int| 0 <= i < n implies in_order(
        dir,
        (#[trigger] dir[i]).child,
        n,
    ) is Some by {
        if i > 0 {
            assert(dir[i] == unused_entry(1));
        }
    }
}

/// There is no `/foo` in a new file, nor any other object within the root.
pub proof fn law_new_file_has_no_object(version: Version, name: Seq<char>)
    requires
        is_plain_name(name),
    ensures
        stream_id(reopened_view(version), portable_components(full_path(seq![name]))) == Err::<
            u32,
            Error,
        >(Error::NotFound),
        stream_id(reopened_view(version), portable_components("/foo"@)) == Err::<u32, Error>(
            Error::NotFound,
        ),
{
    law_full_path_names(seq![name]);
    law_new_file_is_empty(version, portable_components(full_path(seq![name])));
    reveal_strlit("/foo");
    let foo = seq!['f', 'o', 'o'];
    let names = seq![foo];
    assert(names.drop_last() =~= Seq::empty());
    assert(slashed(names.drop_last()) =~= Seq::empty());
    assert(slashed(names) == Seq::<char>::empty().push('/') + foo);
    assert(full_path(names) =~= "/foo"@);
    assert(foo.len() == 3);
    law_full_path_names(names);
    law_new_file_is_empty(version, portable_components(full_path(names)));
}

} // verus!
