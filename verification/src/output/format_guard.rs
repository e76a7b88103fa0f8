//! Output integrity guard.
//!
//! The compressed encoder emits streams that reference decoders reject
//! mid-chunk, while uncompressed output is sound. A `.laz` (or `.copc`) output
//! request is therefore redirected to a sibling `.las` path, unless the caller
//! explicitly opts back in.
//!
//! Paths are texts whose components are separated by `/`. Trailing separators
//! and trailing `/.` do not count as components.

use vstd::prelude::*;

use crate::error::ClassifierError;
use crate::text::{chars_of, concat2, concat3, str_eq, text_of};

verus! {

/// Outcome of applying the guard to a requested output path.
#[derive(Debug)]
pub struct ResolvedOutput {
    /// The path that will actually be written.
    pub path: String,
    /// Whether the requested path's extension was overridden.
    pub redirected: bool,
}

// ── Path components ─────────────────────────────────────────────────────────

/// The length of `s` without trailing separators and trailing `/.`.
pub open spec fn core_len(s: Seq<char>) -> nat
    decreases s.len(),
{
    if s.len() > 0 && s.last() == '/' {
        core_len(s.drop_last())
    } else if s.len() >= 2 && s.last() == '.' && s[s.len() - 2] == '/' {
        core_len(s.drop_last())
    } else {
        s.len()
    }
}

/// Where the last component starts: behind the last separator.
pub open spec fn name_start(s: Seq<char>) -> nat
    decreases s.len(),
{
    if s.len() == 0 || s.last() == '/' {
        s.len()
    } else {
        name_start(s.drop_last())
    }
}

/// The place of the last dot, -1 where there is none.
pub open spec fn last_dot(s: Seq<char>) -> int
    decreases s.len(),
{
    if s.len() == 0 {
        -1
    } else if s.last() == '.' {
        s.len() - 1
    } else {
        last_dot(s.drop_last())
    }
}

/// The path up to the end of its last component.
pub open spec fn core_of(s: Seq<char>) -> Seq<char> {
    s.take(core_len(s) as int)
}

/// The file name: the last component, unless it is empty, `.` or `..`.
pub open spec fn file_name(s: Seq<char>) -> Option<Seq<char>> {
    let c = core_of(s);
    let n = c.skip(name_start(c) as int);
    if n.len() == 0 || n == seq!['.'] || n == seq!['.', '.'] {
        None
    } else {
        Some(n)
    }
}

/// The place of the dot that sets off the extension: the last one of the file
/// name, unless the name starts with it.
pub open spec fn extension_dot(s: Seq<char>) -> Option<int> {
    match file_name(s) {
        Some(n) => if last_dot(n) > 0 {
            Some(name_start(core_of(s)) + last_dot(n))
        } else {
            None
        },
        None => None,
    }
}

/// What stands behind that dot.
pub open spec fn extension(s: Seq<char>) -> Option<Seq<char>> {
    match extension_dot(s) {
        Some(p) => Some(core_of(s).skip(p + 1)),
        None => None,
    }
}

/// `s` with its extension replaced by `las`.
pub open spec fn with_las(s: Seq<char>) -> Seq<char> {
    s.take(extension_dot(s).unwrap()) + ".las"@
}

/// The ASCII lower-case form of `c`.
pub open spec fn lower(c: char) -> char {
    if 'A' <= c <= 'Z' {
        ((c as u32) + 32) as char
    } else {
        c
    }
}

pub open spec fn lowered(s: Seq<char>) -> Seq<char> {
    s.map_values(|c: char| lower(c))
}

/// Whether the extension is `ext`, whatever the case of its letters.
pub open spec fn has_extension(s: Seq<char>, ext: Seq<char>) -> bool {
    match extension(s) {
        Some(e) => lowered(e) == ext,
        None => false,
    }
}

/// Whether writing to `s` would go through the defective encoder.
pub open spec fn is_compressed(s: Seq<char>) -> bool {
    has_extension(s, "laz"@) || has_extension(s, "copc"@)
}

fn lower_char(c: char) -> (r: char)
    ensures
        r == lower(c),
{
    if 'A' <= c && c <= 'Z' {
        ((c as u8) + 32) as char
    } else {
        c
    }
}

proof fn lemma_core_len(s: Seq<char>)
    ensures
        core_len(s) <= s.len(),
    decreases s.len(),
{
    if s.len() > 0 {
        lemma_core_len(s.drop_last());
    }
}

proof fn lemma_name_start(s: Seq<char>)
    ensures
        name_start(s) <= s.len(),
    decreases s.len(),
{
    if s.len() > 0 {
        lemma_name_start(s.drop_last());
    }
}

proof fn lemma_last_dot(s: Seq<char>)
    ensures
        -1 <= last_dot(s) < s.len(),
        last_dot(s) >= 0 ==> s[last_dot(s)] == '.',
    decreases s.len(),
{
    if s.len() > 0 {
        lemma_last_dot(s.drop_last());
    }
}

/// Where the last component of `chars` ends.
pub fn find_core_len(chars: &Vec<char>) -> (r: usize)
    ensures
        r == core_len(chars@),
        r <= chars@.len(),
{
    let mut n: usize = chars.len();
    assert(chars@.take(n as int) =~= chars@);
    while n > 0 && (chars[n - 1] == '/' || (n >= 2 && chars[n - 1] == '.' && chars[n - 2] == '/'))
        invariant
            n <= chars@.len(),
            core_len(chars@) == core_len(chars@.take(n as int)),
        decreases n,
    {
        assert(chars@.take(n as int).drop_last() =~= chars@.take(n - 1));
        n = n - 1;
    }
    n
}

/// The place of the dot that sets off the extension, with the end of the file
/// name.
fn find_extension(chars: &Vec<char>) -> (r: Option<(usize, usize)>)
    ensures
        match r {
            Some((dot, end)) => {
                &&& extension_dot(chars@) == Some(dot as int)
                &&& end == core_len(chars@)
                &&& dot < end <= chars@.len()
            },
            None => extension_dot(chars@) is None,
        },
{
    let end: usize = find_core_len(chars);
    let ghost core = core_of(chars@);
    let mut start: usize = end;
    assert(core.take(end as int) =~= core);
    while start > 0 && chars[start - 1] != '/'
        invariant
            start <= end <= chars@.len(),
            core == chars@.take(end as int),
            name_start(core) == name_start(core.take(start as int)),
        decreases start,
    {
        assert(core.take(start as int).drop_last() =~= core.take(start - 1));
        assert(core.take(start as int).last() == chars@[start - 1]);
        start = start - 1;
    }
    proof {
        if start > 0 {
            assert(core.take(start as int).last() == chars@[start - 1]);
        }
        assert(name_start(core) == start);
    }
    let ghost name = core.skip(start as int);
    let len: usize = end - start;
    if len == 0 {
        return None;
    }
    if len == 1 && chars[start] == '.' {
        assert(name =~= seq!['.']);
        return None;
    }
    if len == 2 && chars[start] == '.' && chars[start + 1] == '.' {
        assert(name =~= seq!['.', '.']);
        return None;
    }
    proof {
        assert(name[0] == chars@[start as int]);
        let one = seq!['.'];
        let two = seq!['.', '.'];
        assert(one.len() == 1 && one[0] == '.');
        assert(two.len() == 2 && two[0] == '.' && two[1] == '.');
        assert(name.len() == len);
        if len == 2 {
            assert(name[1] == chars@[start + 1]);
        }
        assert(name != one);
        assert(name != two);
        assert(file_name(chars@) == Some(name));
    }
    let mut dot: usize = len;
    assert(name.take(dot as int) =~= name);
    while dot > 0 && chars[start + dot - 1] != '.'
        invariant
            dot <= len,
            start + len == end,
            end <= chars@.len(),
            core == chars@.take(end as int),
            name == core.skip(start as int),
            last_dot(name) == last_dot(name.take(dot as int)),
        decreases dot,
    {
        assert(name.take(dot as int).drop_last() =~= name.take(dot - 1));
        assert(name.take(dot as int).last() == chars@[start + dot - 1]);
        dot = dot - 1;
    }
    proof {
        if dot > 0 {
            assert(name.take(dot as int).last() == chars@[start + dot - 1]);
        }
        assert(last_dot(name) == dot - 1);
    }
    if dot <= 1 {
        None
    } else {
        Some((start + dot - 1, end))
    }
}

/// The extension in ASCII lower case, where there is one.
fn lowered_extension(chars: &Vec<char>) -> (r: Option<String>)
    ensures
        match r {
            Some(e) => extension(chars@) is Some && e@ == lowered(extension(chars@).unwrap()),
            None => extension(chars@) is None,
        },
{
    match find_extension(chars) {
        None => None,
        Some((dot, end)) => {
            let mut out = String::new();
            let ghost ext = core_of(chars@).skip(dot + 1);
            let mut i: usize = dot + 1;
            while i < end
                invariant
                    dot < i <= end <= chars@.len(),
                    ext == core_of(chars@).skip(dot + 1),
                    end == core_len(chars@),
                    out@ == lowered(ext.take(i - dot - 1)),
                decreases end - i,
            {
                out.push(lower_char(chars[i]));
                assert(out@ =~= lowered(ext.take(i - dot)));
                i = i + 1;
            }
            assert(ext.take(i - dot - 1) =~= ext);
            Some(out)
        },
    }
}

/// Whether the extension of `path` is `ext`, whatever the case of its letters.
pub fn extension_is(path: &str, ext: &str) -> (r: bool)
    ensures
        r == has_extension(path@, ext@),
{
    let chars = chars_of(path);
    match lowered_extension(&chars) {
        Some(e) => str_eq(e.as_str(), ext),
        None => false,
    }
}

/// Whether `path`'s final extension routes through the defective encoder. The
/// comparison ignores case.
pub fn is_compressed_output(path: &str) -> (r: bool)
    ensures
        r == is_compressed(path@),
{
    let chars = chars_of(path);
    match lowered_extension(&chars) {
        Some(e) => str_eq(e.as_str(), "laz") || str_eq(e.as_str(), "copc"),
        None => false,
    }
}

/// Applies the guard to a requested output path.
///
/// - A path with any other extension passes through untouched.
/// - `.laz` and `.copc` are redirected to a sibling `.las` path.
/// - With `allow_laz`, `.laz` is honoured; `.copc` is rejected, because there
///   is no writer for it.
pub fn resolve_output_path(requested: &str, allow_laz: bool) -> (r: Result<
    ResolvedOutput,
    ClassifierError,
>)
    ensures
        r is Err <==> allow_laz && has_extension(requested@, "copc"@),
        match r {
            Ok(out) => {
                &&& out.redirected <==> is_compressed(requested@) && !allow_laz
                &&& out.redirected ==> out.path@ == with_las(requested@)
                &&& !out.redirected ==> out.path@ == requested@
            },
            Err(e) => e matches ClassifierError::Pipeline(m) && m@
                == "classify: --allow-laz cannot enable COPC output for '"@ + requested@
                + "': wblidar provides no COPC writer. Use a .las output path instead."@,
        },
{
    let chars = chars_of(requested);
    let ext = lowered_extension(&chars);
    proof {
        reveal_strlit("laz");
        reveal_strlit("copc");
        assert("laz"@.len() == 3);
        assert("copc"@.len() == 4);
    }
    match ext {
        None => Ok(ResolvedOutput { path: requested.to_owned(), redirected: false }),
        Some(e) => {
            let is_copc: bool = str_eq(e.as_str(), "copc");
            if !is_copc && !str_eq(e.as_str(), "laz") {
                return Ok(ResolvedOutput { path: requested.to_owned(), redirected: false });
            }
            if allow_laz {
                if is_copc {
                    return Err(
                        ClassifierError::Pipeline(
                            concat3(
                                "classify: --allow-laz cannot enable COPC output for '",
                                requested,
                                "': wblidar provides no COPC writer. Use a .las output path instead.",
                            ),
                        ),
                    );
                }
                return Ok(ResolvedOutput { path: requested.to_owned(), redirected: false });
            }
            match find_extension(&chars) {
                Some((dot, _)) => {
                    let stem = text_of(&chars, 0, dot);
                    assert(stem@ =~= requested@.take(dot as int));
                    Ok(ResolvedOutput { path: concat2(stem.as_str(), ".las"), redirected: true })
                },
                None => Ok(ResolvedOutput { path: requested.to_owned(), redirected: false }),
            }
        },
    }
}

proof fn lemma_name_start_extended(s: Seq<char>, tail: Seq<char>)
    requires
        forall|i: int| 0 <= i < tail.len() ==> #[trigger] tail[i] != '/',
    ensures
        name_start(s + tail) == name_start(s),
    decreases tail.len(),
{
    if tail.len() == 0 {
        assert(s + tail =~= s);
    } else {
        let t = tail.drop_last();
        assert((s + tail).drop_last() =~= s + t);
        assert((s + tail).last() == tail[tail.len() - 1]);
        assert forall|i: int| 0 <= i < t.len() implies #[trigger] t[i] != '/' by {
            assert(tail[i] == t[i]);
        }
        lemma_name_start_extended(s, t);
    }
}

proof fn lemma_name_start_prefix(s: Seq<char>, n: int)
    requires
        name_start(s) <= n <= s.len(),
    ensures
        name_start(s.take(n)) == name_start(s),
    decreases s.len(),
{
    if n == s.len() {
        assert(s.take(n) =~= s);
    } else {
        assert(s.drop_last().take(n) =~= s.take(n));
        lemma_name_start_prefix(s.drop_last(), n);
    }
}

/// A redirected path names the file beside the requested one, with the
/// extension `las`.
pub proof fn law_redirect_gives_las(s: Seq<char>)
    requires
        extension(s) is Some,
    ensures
        extension(with_las(s)) == Some("las"@),
        !is_compressed(with_las(s)),
{
    reveal_strlit(".las");
    reveal_strlit("las");
    reveal_strlit("laz");
    reveal_strlit("copc");
    let core = core_of(s);
    let start = name_start(core) as int;
    let name = core.skip(start);
    let p = extension_dot(s).unwrap();
    lemma_core_len(s);
    lemma_name_start(core);
    lemma_last_dot(name);
    let w = with_las(s);
    let stem = s.take(p);
    assert(stem =~= core.take(p));
    assert(".las"@ =~= seq!['.', 'l', 'a', 's']);
    assert("las"@ =~= seq!['l', 'a', 's']);
    assert(w.last() == 's');
    assert(core_len(w) == w.len());
    assert(core_of(w) =~= w);
    lemma_name_start_prefix(core, p);
    lemma_name_start_extended(stem, ".las"@);
    assert(name_start(w) == start);
    let wname = w.skip(start);
    assert(wname.len() == p - start + 4);
    assert(wname.len() >= 5);
    assert(file_name(w) == Some(wname));
    let d = p - start;
    assert(wname.take(d + 1).last() == '.') by {
        assert(wname[d] == w[p]);
    }
    assert(last_dot(wname) == d) by {
        assert(wname.last() == w[w.len() - 1]);
        assert(wname.drop_last().last() == w[w.len() - 2]);
        assert(wname.drop_last().drop_last().last() == w[w.len() - 3]);
        assert(wname.drop_last().drop_last().drop_last() =~= wname.take(d + 1));
        reveal_with_fuel(last_dot, 5);
    }
    assert(extension(w) == Some(w.skip(p + 1)));
    assert(w.skip(p + 1) =~= "las"@);
    assert(lowered("las"@) =~= "las"@);
    assert("las"@[2] == 's');
    assert("laz"@[2] == 'z');
    assert("copc"@.len() == 4);
}

/// Without the override nothing compressed is ever written, and applying the
/// guard to its own result changes nothing more.
pub proof fn law_guard_is_stable(s: Seq<char>)
    ensures
        ({
            let written = if is_compressed(s) {
                with_las(s)
            } else {
                s
            };
            !is_compressed(written)
        }),
{
    if is_compressed(s) {
        law_redirect_gives_las(s);
    }
}

/// The name at the end of a path holds no slash, and one stands before it unless
/// it starts the path.
pub proof fn law_name_is_behind_the_last_slash(s: Seq<char>)
    ensures
        name_start(s) <= s.len(),
        forall|i: int| name_start(s) <= i < s.len() ==> #[trigger] s[i] != '/',
        name_start(s) > 0 ==> s[name_start(s) - 1] == '/',
    decreases s.len(),
{
    if s.len() > 0 && s.last() != '/' {
        let rest = s.drop_last();
        law_name_is_behind_the_last_slash(rest);
        assert forall|i: int| name_start(s) <= i < s.len() implies #[trigger] s[i] != '/' by {
            if i < rest.len() {
                assert(rest[i] == s[i]);
            }
        }
    }
}

/// The last dot of a text is a dot with none behind it; there is none exactly
/// where the place is -1.
pub proof fn law_last_dot(s: Seq<char>)
    ensures
        -1 <= last_dot(s) < s.len(),
        last_dot(s) >= 0 ==> s[last_dot(s)] == '.',
        forall|i: int| last_dot(s) < i < s.len() ==> #[trigger] s[i] != '.',
    decreases s.len(),
{
    if s.len() > 0 && s.last() != '.' {
        let rest = s.drop_last();
        law_last_dot(rest);
        assert forall|i: int| last_dot(s) < i < s.len() implies #[trigger] s[i] != '.' by {
            if i < rest.len() {
                assert(rest[i] == s[i]);
            }
        }
    }
}

/// What is taken from the end of a path is slashes and dots behind a slash, and
/// all of them.
pub proof fn law_core_ends_in_a_name(s: Seq<char>)
    ensures
        core_len(s) <= s.len(),
        core_len(s) > 0 ==> s[core_len(s) - 1] != '/',
        core_len(s) > 1 ==> !(s[core_len(s) - 1] == '.' && s[core_len(s) - 2] == '/'),
        forall|i: int|
            core_len(s) <= i < s.len() ==> #[trigger] s[i] == '/' || (s[i] == '.' && i > 0 && s[i
                - 1] == '/'),
    decreases s.len(),
{
    if (s.len() > 0 && s.last() == '/') || (s.len() >= 2 && s.last() == '.' && s[s.len() - 2]
        == '/') {
        let rest = s.drop_last();
        law_core_ends_in_a_name(rest);
        assert forall|i: int| core_len(s) <= i < s.len() implies #[trigger] s[i] == '/' || (s[i]
            == '.' && i > 0 && s[i - 1] == '/') by {
            if i < rest.len() {
                assert(rest[i] == s[i]);
            }
        }
    }
}

/// A path of a stem, a dot and an ending without dots or slashes has that ending
/// in any case, where the stem does not end in a slash or in nothing but dots
/// behind one.
pub proof fn law_ending_is_the_extension(stem: Seq<char>, ending: Seq<char>, ext: Seq<char>)
    requires
        stem.len() > 0,
        stem.last() != '/',
        stem.last() != '.',
        ending.len() > 0,
        forall|i: int| 0 <= i < ending.len() ==> #[trigger] ending[i] != '/' && ending[i] != '.',
    ensures
        extension(stem.push('.') + ending) == Some(ending),
        has_extension(stem.push('.') + ending, ext) <==> ending.len() == ext.len() && forall|i: int|
            0 <= i < ext.len() ==> (#[trigger] ending[i] == ext[i] && !('A' <= ext[i] <= 'Z')) || (
            'A' <= ending[i] <= 'Z' && ext[i] as nat == ending[i] as nat + 32),
{
    let p = stem.push('.') + ending;
    assert(p.last() == ending.last());
    assert(ending[ending.len() - 1] != '/');
    assert(core_len(p) == p.len());
    assert(core_of(p) =~= p);
    law_name_is_behind_the_last_slash(p);
    let k = name_start(p) as int;
    let d = stem.len() as int;
    assert(p[d - 1] == stem.last());
    assert(k < d) by {
        if k > d + 1 {
            assert(p[k - 1] == ending[k - 1 - (d + 1)]);
        } else if k == d + 1 {
            assert(p[d] == '.');
        } else if k == d {
            assert(p[d - 1] == stem.last());
        }
    }
    let n = p.skip(k);
    assert(n.len() >= 3);
    law_last_dot(n);
    assert(last_dot(n) == d - k) by {
        assert(n[d - k] == p[d]);
        let l = last_dot(n);
        if l > d - k {
            assert(n[l] == p[k + l]);
            assert(p[k + l] == ending[k + l - (d + 1)]);
        }
    }
    assert(extension_dot(p) == Some(d));
    assert(p.skip(d + 1) =~= ending);
    lemma_lowered(ending, ext);
}

proof fn lemma_lowered(s: Seq<char>, t: Seq<char>)
    ensures
        lowered(s) == t <==> s.len() == t.len() && forall|i: int|
            0 <= i < t.len() ==> (#[trigger] s[i] == t[i] && !('A' <= t[i] <= 'Z')) || ('A' <= s[i]
                <= 'Z' && t[i] as nat == s[i] as nat + 32),
{
    let low = lowered(s);
    assert(low.len() == s.len());
    assert forall|i: int| 0 <= i < s.len() implies (#[trigger] low[i] == t[i] <==> (s[i] == t[i]
        && !('A' <= t[i] <= 'Z')) || ('A' <= s[i] <= 'Z' && t[i] as nat == s[i] as nat + 32)) by {
        assert(low[i] == lower(s[i]));
        lemma_lower(s[i], t[i]);
    }
    if low == t {
        assert forall|i: int| 0 <= i < t.len() implies (#[trigger] s[i] == t[i] && !('A' <= t[i]
            <= 'Z')) || ('A' <= s[i] <= 'Z' && t[i] as nat == s[i] as nat + 32) by {
            assert(low[i] == t[i]);
        }
    }
    if s.len() == t.len() && forall|i: int|
        0 <= i < t.len() ==> (#[trigger] s[i] == t[i] && !('A' <= t[i] <= 'Z')) || ('A' <= s[i]
            <= 'Z' && t[i] as nat == s[i] as nat + 32) {
        assert forall|i: int| 0 <= i < t.len() implies #[trigger] low[i] == t[i] by {
            let c = s[i];
            assert(low[i] == t[i] <==> (s[i] == t[i] && !('A' <= t[i] <= 'Z')) || ('A' <= s[i]
                <= 'Z' && t[i] as nat == s[i] as nat + 32));
        }
        assert(low =~= t);
    }
}

proof fn lemma_lower(c: char, d: char)
    ensures
        lower(c) == d <==> (c == d && !('A' <= d <= 'Z')) || ('A' <= c <= 'Z' && d as nat == c as nat
            + 32),
{
    if 'A' <= c <= 'Z' {
        assert(65 <= c as u32 <= 90);
        assert(((c as u32) + 32) as char as nat == c as nat + 32);
    }
}

} // verus!
