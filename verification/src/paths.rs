//! Parents of paths, and paths joined.
//!
//! Paths are texts whose components are separated by `/`.

use vstd::prelude::*;

use crate::output::format_guard::{
    core_len, core_of, find_core_len, law_name_is_behind_the_last_slash, name_start,
};
use crate::text::{chars_of, concat2, concat3, text_is_empty, text_of};

verus! {

/// The path without its last component: empty for a single component, none
/// for the root and for the empty path.
pub open spec fn parent(s: Seq<char>) -> Option<Seq<char>> {
    let c = core_of(s);
    if c.len() == 0 {
        None
    } else {
        let rest = c.take(name_start(c) as int);
        if rest.len() > 0 && core_len(rest) == 0 {
            Some("/"@)
        } else {
            Some(core_of(rest))
        }
    }
}

/// The directory that a path stands in; `default_dir` where the path names
/// none.
pub open spec fn directory_or(s: Seq<char>, default_dir: Seq<char>) -> Seq<char> {
    match parent(s) {
        Some(p) => if p.len() > 0 {
            p
        } else {
            default_dir
        },
        None => default_dir,
    }
}

/// `name`, which is relative, below `dir`.
pub open spec fn joined_path(dir: Seq<char>, name: Seq<char>) -> Seq<char> {
    if dir.len() == 0 || dir.last() == '/' {
        dir + name
    } else {
        dir + "/"@ + name
    }
}


/// The directory that a path stands in; `default_dir` where the path names
/// none.
pub fn directory_of(path: &str, default_dir: &str) -> (r: String)
    ensures
        r@ == directory_or(path@, default_dir@),
{
    let chars = chars_of(path);
    let end: usize = find_core_len(&chars);
    let ghost c = core_of(chars@);
    if end == 0 {
        return default_dir.to_owned();
    }
    let mut start: usize = end;
    assert(c.take(end as int) =~= c);
    while start > 0 && chars[start - 1] != '/'
        invariant
            start <= end <= chars@.len(),
            c == chars@.take(end as int),
            name_start(c) == name_start(c.take(start as int)),
        decreases start,
    {
        assert(c.take(start as int).drop_last() =~= c.take(start - 1));
        assert(c.take(start as int).last() == chars@[start - 1]);
        start = start - 1;
    }
    proof {
        if start > 0 {
            assert(c.take(start as int).last() == chars@[start - 1]);
        }
        assert(name_start(c) == start);
    }
    let ghost rest = c.take(start as int);
    if start == 0 {
        assert(rest =~= Seq::empty());
        assert(core_of(rest) =~= Seq::empty());
        return default_dir.to_owned();
    }
    let mut head: Vec<char> = Vec::new();
    let mut i: usize = 0;
    while i < start
        invariant
            i <= start <= chars@.len(),
            head@ =~= chars@.take(i as int),
        decreases start - i,
    {
        head.push(chars[i]);
        i = i + 1;
    }
    assert(head@ =~= rest);
    let n: usize = find_core_len(&head);
    if n == 0 {
        proof {
            reveal_strlit("/");
        }
        "/".to_owned()
    } else {
        let r = text_of(&head, 0, n);
        assert(r@ =~= core_of(rest));
        r
    }
}

/// `name`, which is relative, below `dir`.
pub fn join_path(dir: &str, name: &str) -> (r: String)
    ensures
        r@ == joined_path(dir@, name@),
{
    if text_is_empty(dir) {
        concat2(dir, name)
    } else {
        let chars = chars_of(dir);
        if chars[chars.len() - 1] == '/' {
            concat2(dir, name)
        } else {
            concat3(dir, "/", name)
        }
    }
}

/// A joined path is the directory, then the name, with a slash between them
/// where the directory is not empty and does not end with one.
pub proof fn law_joined_paths_have_one_slash(dir: Seq<char>, name: Seq<char>)
    ensures
        joined_path(dir, name).take(dir.len() as int) == dir,
        joined_path(dir, name).skip(joined_path(dir, name).len() - name.len()) == name,
        dir.len() == 0 ==> joined_path(dir, name) == name,
        dir.len() > 0 && dir.last() == '/' ==> joined_path(dir, name).len() == dir.len()
            + name.len(),
        dir.len() > 0 && dir.last() != '/' ==> joined_path(dir, name).len() == dir.len() + 1
            + name.len() && joined_path(dir, name)[dir.len() as int] == '/',
{
    reveal_strlit("/");
    let p = joined_path(dir, name);
    assert(p.take(dir.len() as int) =~= dir);
    assert(p.skip(p.len() - name.len()) =~= name);
    if dir.len() == 0 {
        assert(p =~= name);
    }
}

/// The directory of a name in a directory is that directory, where that is
/// written plainly: it ends neither in a slash nor in a dot, and the name is
/// neither empty nor a dot and holds no slash.
pub proof fn law_directory_of_a_joined_path(dir: Seq<char>, name: Seq<char>, other: Seq<char>)
    requires
        dir.len() > 0,
        dir.last() != '/',
        dir.last() != '.',
        name.len() > 0,
        name != seq!['.'],
        forall|i: int| 0 <= i < name.len() ==> #[trigger] name[i] != '/',
    ensures
        directory_or(joined_path(dir, name), other) == dir,
{
    reveal_strlit("/");
    let p = joined_path(dir, name);
    assert(p =~= dir.push('/') + name);
    assert(p.last() == name.last());
    assert(name[name.len() - 1] != '/');
    if name.last() == '.' && p[p.len() - 2] == '/' {
        if name.len() == 1 {
            assert(name =~= seq!['.']);
        } else {
            assert(p[p.len() - 2] == name[name.len() - 2]);
        }
    }
    assert(core_len(p) == p.len());
    assert(core_of(p) =~= p);
    law_name_is_behind_the_last_slash(p);
    let k = name_start(p) as int;
    assert(k == dir.len() + 1) by {
        assert(p[dir.len() as int] == '/');
        if k > dir.len() + 1 {
            assert(p[k - 1] == name[k - 1 - (dir.len() + 1)]);
        }
    }
    let rest = p.take(k);
    assert(rest =~= dir.push('/'));
    assert(rest.drop_last() =~= dir);
    assert(core_len(dir) == dir.len());
    assert(core_len(rest) == dir.len());
    assert(core_of(rest) =~= dir);
}

/// A name without a directory is in the default one.
pub proof fn law_bare_names_are_in_the_default_directory(name: Seq<char>, other: Seq<char>)
    requires
        name.len() > 0,
        forall|i: int| 0 <= i < name.len() ==> #[trigger] name[i] != '/',
    ensures
        directory_or(name, other) == other,
{
    assert(name[name.len() - 1] != '/');
    if name.len() >= 2 {
        assert(name[name.len() - 2] != '/');
    }
    assert(core_len(name) == name.len());
    assert(core_of(name) =~= name);
    law_name_is_behind_the_last_slash(name);
    if name_start(name) > 0 {
        assert(name[name_start(name) - 1] != '/');
    }
    let rest = name.take(0);
    assert(core_len(rest) == 0);
    assert(core_of(rest).len() == 0);
}

} // verus!
