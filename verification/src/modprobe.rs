//! Loading a kernel module with its dependencies: module names, paths under the
//! modules directory, reading `modules.dep` / `modules.builtin`, checking that every
//! dependency is present, and the order in which the modules are loaded.
use vstd::prelude::*;
use vstd::utf8::*;
use crate::modules_info::{
    load_order_outcome, DfsOutcome, ModulesInfo, colon_pos, contains_string, dep_names, short_name,
    split_words, strs,
};
use crate::text::{
    chars_of, contains_sub, find_sub, find_sub_from_exec, lemma_find_sub, push_chars,
    push_str_chars, string_of, sub_chars,
};

verus! {

/// Why loading a module failed.
#[derive(Debug, Clone, PartialEq, Eq)]
pub enum ModprobeError {
    PushStrFailed,
    ModuleNotFound(String),
    ModuleCompressed(String),
    DependencyNotFound { dependency: String, for_module: String },
    ModuleLoadFailed { module: String, error: &'static str },
}

/// A `ModprobeError` as a mathematical value.
pub enum ModprobeErrorView {
    PushStrFailed,
    ModuleNotFound(Seq<char>),
    ModuleCompressed(Seq<char>),
    DependencyNotFound(Seq<char>, Seq<char>),
    ModuleLoadFailed(Seq<char>, &'static str),
}

impl View for ModprobeError {
    type V = ModprobeErrorView;

    open spec fn view(&self) -> ModprobeErrorView {
        match self {
            ModprobeError::PushStrFailed => ModprobeErrorView::PushStrFailed,
            ModprobeError::ModuleNotFound(m) => ModprobeErrorView::ModuleNotFound(m@),
            ModprobeError::ModuleCompressed(m) => ModprobeErrorView::ModuleCompressed(m@),
            ModprobeError::DependencyNotFound { dependency, for_module } => {
                ModprobeErrorView::DependencyNotFound(dependency@, for_module@)
            },
            ModprobeError::ModuleLoadFailed { module, error } => ModprobeErrorView::ModuleLoadFailed(
                module@,
                *error,
            ),
        }
    }
}

/// Kernel module loading.
pub struct ModprobeUtil;

/// Longest module name, in bytes.
pub const MODULE_NAME_CAP: usize = 128;
/// Longest path of `modules.dep` or `modules.builtin`, in bytes.
pub const INFO_PATH_CAP: usize = 320;
/// Longest path of a module file, in bytes.
pub const MODULE_PATH_CAP: usize = 512;
/// Longest line of `modules.dep` or `modules.builtin`, in bytes.
pub const LINE_CAP: usize = 2048;
/// Most entries on the validation walk's stack and in its visited list.
pub const WALK_CAP: usize = 512;

/// Length in bytes of a text, as the machine counts it.
pub open spec fn byte_len(s: Seq<char>) -> int {
    (encode_utf8(s).len() as usize) as int
}

/// The part of `s` after its last `/` (`rsplit('/').next()`).
pub open spec fn after_slash(s: Seq<char>) -> Seq<char>
    decreases s.len(),
{
    if s.len() == 0 {
        s
    } else if s.last() == '/' {
        seq![]
    } else {
        after_slash(s.drop_last()).push(s.last())
    }
}

/// A module name as given (`path/to/foo.ko.xz`, `foo.ko`, `foo`) reduced to `foo`.
pub open spec fn module_name(module: Seq<char>) -> Seq<char> {
    let raw = after_slash(module);
    match find_sub(raw, ".ko"@) {
        Some(p) => raw.take(p),
        None => raw,
    }
}

/// What `normalize_module_name` gives.
pub open spec fn normalize_check(module: Seq<char>) -> Result<Seq<char>, ModprobeErrorView> {
    let name = module_name(module);
    if name.len() == 0 {
        Err(ModprobeErrorView::ModuleNotFound(seq![]))
    } else if byte_len(name) > MODULE_NAME_CAP {
        Err(ModprobeErrorView::PushStrFailed)
    } else {
        Ok(name)
    }
}

/// `base` and `name` joined with one `/` (none added when `base` ends with one).
pub open spec fn joined(base: Seq<char>, name: Seq<char>) -> Seq<char> {
    if base.len() > 0 && base.last() == '/' {
        base + name
    } else {
        base + seq!['/'] + name
    }
}

/// What `join_path` gives with room for `cap` bytes.
pub open spec fn join_check(base: Seq<char>, name: Seq<char>, cap: int) -> Result<
    Seq<char>,
    ModprobeErrorView,
> {
    if byte_len(joined(base, name)) > cap {
        Err(ModprobeErrorView::PushStrFailed)
    } else {
        Ok(joined(base, name))
    }
}

proof fn lemma_after_slash(s: Seq<char>, p: int)
    requires
        -1 <= p < s.len(),
        p >= 0 ==> s[p] == '/',
        forall|j: int| p < j < s.len() ==> s[j] != '/',
    ensures
        after_slash(s) == s.skip(p + 1),
    decreases s.len(),
{
    if s.len() > 0 {
        if p == s.len() - 1 {
            assert(s.skip(p + 1) =~= Seq::<char>::empty());
        } else {
            lemma_after_slash(s.drop_last(), p);
            assert(s.drop_last().skip(p + 1).push(s.last()) =~= s.skip(p + 1));
        }
    } else {
        assert(s.skip(p + 1) =~= s);
    }
}

fn after_slash_exec(s: &[char]) -> (r: Vec<char>)
    ensures
        r@ == after_slash(s@),
{
    let mut i = s.len();
    while i > 0
        invariant
            i <= s@.len(),
            forall|j: int| i <= j < s@.len() ==> s@[j] != '/',
        decreases i,
    {
        if s[i - 1] == '/' {
            proof {
                lemma_after_slash(s@, i - 1);
            }
            let r = sub_chars(s, i, s.len());
            assert(r@ =~= s@.skip(i as int));
            return r;
        }
        i = i - 1;
    }
    proof {
        lemma_after_slash(s@, -1);
    }
    let r = sub_chars(s, 0, s.len());
    assert(r@ =~= s@.skip(0));
    r
}

/// Length in bytes of the text `cs`.
fn byte_len_exec(cs: &[char]) -> (r: usize)
    ensures
        r == byte_len(cs@),
{
    let s = string_of(cs);
    s.as_str().len()
}

/// The module name of `module` (`path/to/foo.ko.xz` gives `foo`), if it is not empty and
/// fits 128 bytes.
pub fn normalize_module_name(module: &str) -> (r: Result<String, ModprobeError>)
    ensures
        match normalize_check(module@) {
            Ok(n) => r matches Ok(s) && s@ == n,
            Err(e) => r matches Err(x) && x@ == e,
        },
{
    let cs = chars_of(module);
    let raw = after_slash_exec(cs.as_slice());
    let pat = chars_of(".ko");
    let name = match find_sub_from_exec(raw.as_slice(), pat.as_slice(), 0) {
        Some(p) => {
            proof {
                lemma_find_sub(raw@, pat@);
            }
            let v = sub_chars(raw.as_slice(), 0, p);
            assert(v@ =~= raw@.take(p as int));
            v
        },
        None => raw,
    };
    if name.len() == 0 {
        return Err(ModprobeError::ModuleNotFound(String::new()));
    }
    if byte_len_exec(name.as_slice()) > MODULE_NAME_CAP {
        return Err(ModprobeError::PushStrFailed);
    }
    Ok(string_of(name.as_slice()))
}

/// `base`, a `/` unless `base` ends with one, and `name`, if that fits `cap` bytes.
pub fn join_path(base: &str, name: &str, cap: usize) -> (r: Result<String, ModprobeError>)
    ensures
        match join_check(base@, name@, cap as int) {
            Ok(p) => r matches Ok(s) && s@ == p,
            Err(e) => r matches Err(x) && x@ == e,
        },
{
    let mut out: Vec<char> = Vec::new();
    push_str_chars(&mut out, base);
    let b = chars_of(base);
    if !(b.len() > 0 && b[b.len() - 1] == '/') {
        out.push('/');
    }
    push_str_chars(&mut out, name);
    assert(out@ =~= joined(base@, name@));
    if byte_len_exec(out.as_slice()) > cap {
        return Err(ModprobeError::PushStrFailed);
    }
    Ok(string_of(out.as_slice()))
}

/// The pieces of `s` between line feeds (the last one after the last line feed).
pub open spec fn segments(s: Seq<u8>) -> Seq<Seq<u8>>
    decreases s.len(),
{
    if s.len() == 0 {
        seq![seq![]]
    } else {
        let rest = segments(s.drop_last());
        if s.last() == 10 {
            rest.push(seq![])
        } else {
            rest.update(rest.len() - 1, rest.last().push(s.last()))
        }
    }
}

/// A line with one trailing carriage return removed.
pub open spec fn strip_cr_bytes(l: Seq<u8>) -> Seq<u8> {
    if l.len() > 0 && l.last() == 13 {
        l.drop_last()
    } else {
        l
    }
}

/// The lines a file's content is read as: every line ended by a line feed (even an
/// empty one) and a last unterminated line that is not empty, each without a trailing
/// carriage return (a last line that is only a carriage return is dropped).
pub open spec fn file_lines(s: Seq<u8>) -> Seq<Seq<u8>> {
    let segs = segments(s);
    let done = Seq::new((segs.len() - 1) as nat, |i: int| strip_cr_bytes(segs[i]));
    let last = segs.last();
    if strip_cr_bytes(last).len() > 0 {
        done.push(strip_cr_bytes(last))
    } else {
        done
    }
}

/// No line feed in `s[a..b]`.
pub open spec fn no_newline_in(s: Seq<u8>, a: int, b: int) -> bool {
    forall|k: int| a <= k < b ==> s[k] != 10
}

/// `s` holds more than `LINE_CAP` bytes in a row without a line feed.
pub open spec fn long_run(s: Seq<u8>) -> bool {
    exists|a: int, b: int| 0 <= a <= b <= s.len() && b - a > LINE_CAP && #[trigger] no_newline_in(s, a, b)
}

proof fn lemma_segments_len(s: Seq<u8>)
    ensures
        segments(s).len() >= 1,
    decreases s.len(),
{
    if s.len() > 0 {
        lemma_segments_len(s.drop_last());
    }
}

/// Splits a file's content into the lines that are read from it; fails with
/// `PushStrFailed` when a line is longer than `LINE_CAP` bytes.
pub fn file_lines_exec(content: &[u8]) -> (r: Result<Vec<Vec<u8>>, ModprobeError>)
    ensures
        long_run(content@) ==> (r matches Err(e) && e@ == ModprobeErrorView::PushStrFailed),
        !long_run(content@) ==> (r matches Ok(ls) && Seq::new(ls@.len(), |i: int| ls@[i]@)
            == file_lines(content@)),
{
    let ghost s = content@;
    let mut out: Vec<Vec<u8>> = Vec::new();
    let mut cur: Vec<u8> = Vec::new();
    let mut i: usize = 0;
    let ghost mut start: int = 0;
    assert(s.take(0) =~= Seq::<u8>::empty());
    while i < content.len()
        invariant
            s == content@,
            i <= s.len(),
            0 <= start <= i,
            start == 0 || s[start - 1] == 10,
            forall|k: int| start <= k < i ==> s[k] != 10,
            cur@ == s.subrange(start, i as int),
            cur@.len() <= LINE_CAP,
            segments(s.take(i as int)).last() == cur@,
            Seq::new(out@.len(), |j: int| out@[j]@) == Seq::new(
                (segments(s.take(i as int)).len() - 1) as nat,
                |j: int| strip_cr_bytes(segments(s.take(i as int))[j]),
            ),
            forall|a: int, b: int|
                0 <= a <= b <= i && #[trigger] no_newline_in(s, a, b) ==> b - a <= LINE_CAP,
        decreases s.len() - i,
    {
        let ghost segs0 = segments(s.take(i as int));
        proof {
            lemma_segments_len(s.take(i as int));
            assert(s.take(i + 1).drop_last() =~= s.take(i as int));
            assert(s.take(i + 1).last() == s[i as int]);
        }
        let b = content[i];
        if b == 10 {
            let mut line = cur;
            if line.len() > 0 && line[line.len() - 1] == 13 {
                line.pop();
            }
            let ghost before = Seq::new(out@.len(), |j: int| out@[j]@);
            assert(line@ == strip_cr_bytes(segs0.last())) by {
                if segs0.last().len() > 0 && segs0.last().last() == 13 {
                    assert(line@ =~= segs0.last().drop_last());
                }
            }
            let ghost lv = line@;
            out.push(line);
            cur = Vec::new();
            proof {
                let segs1 = segments(s.take(i + 1));
                assert(segs1 == segs0.push(seq![]));
                lemma_segments_len(s.take(i as int));
                assert(Seq::new(out@.len(), |j: int| out@[j]@) =~= before.push(lv));
                assert forall|j: int| 0 <= j < segs1.len() - 1 implies strip_cr_bytes(#[trigger] segs1[j])
                    == Seq::new(out@.len(), |j: int| out@[j]@)[j] by {
                    if j < segs0.len() - 1 {
                        assert(segs1[j] == segs0[j]);
                    } else {
                        assert(segs1[j] == segs0.last());
                    }
                }
                assert(Seq::new(out@.len(), |j: int| out@[j]@) =~= Seq::new(
                    (segs1.len() - 1) as nat,
                    |j: int| strip_cr_bytes(segs1[j]),
                ));
                assert forall|a: int, c: int|
                    0 <= a <= c <= i + 1 && #[trigger] no_newline_in(s, a, c) implies c - a
                    <= LINE_CAP by {
                    if c == i + 1 && a <= i {
                        assert(s[i as int] == 10);
                    }
                }
                start = i + 1;
                assert(cur@ =~= s.subrange(start, i + 1));
            }
        } else {
            if cur.len() >= LINE_CAP {
                proof {
                    assert(long_run(s)) by {
                        assert(no_newline_in(s, start, i + 1));
                        assert(i + 1 - start > LINE_CAP);
                    }
                }
                return Err(ModprobeError::PushStrFailed);
            }
            cur.push(b);
            proof {
                let segs1 = segments(s.take(i + 1));
                assert(segs1 == segs0.update(segs0.len() - 1, segs0.last().push(b)));
                assert(cur@ =~= s.subrange(start, i + 1));
                assert(Seq::new(out@.len(), |j: int| out@[j]@) =~= Seq::new(
                    (segs1.len() - 1) as nat,
                    |j: int| strip_cr_bytes(segs1[j]),
                ));
                assert forall|a: int, c: int|
                    0 <= a <= c <= i + 1 && #[trigger] no_newline_in(s, a, c) implies c - a
                    <= LINE_CAP by {
                    if c == i + 1 && a < start {
                        assert(s[start - 1] == 10);
                    } else if c <= i {
                        assert(no_newline_in(s, a, c));
                    } else {
                        assert(no_newline_in(s, a, i as int));
                    }
                }
            }
        }
        i = i + 1;
    }
    proof {
        assert(s.take(s.len() as int) =~= s);
        lemma_segments_len(s);
        assert(!long_run(s));
    }
    let ghost before = Seq::new(out@.len(), |j: int| out@[j]@);
    let mut last = cur;
    if last.len() > 0 && last[last.len() - 1] == 13 {
        last.pop();
    }
    let ghost segs = segments(s);
    assert(last@ == strip_cr_bytes(segs.last())) by {
        if segs.last().len() > 0 && segs.last().last() == 13 {
            assert(last@ =~= segs.last().drop_last());
        }
    }
    if last.len() > 0 {
        out.push(last);
        assert(Seq::new(out@.len(), |j: int| out@[j]@) =~= before.push(strip_cr_bytes(segs.last())));
    }
    Ok(out)
}

/// The dependency lists after reading `modules.dep` lines.
pub open spec fn deps_after(
    m: Map<Seq<char>, Seq<Seq<char>>>,
    lines: Seq<Seq<u8>>,
) -> Map<Seq<char>, Seq<Seq<char>>>
    decreases lines.len(),
{
    if lines.len() == 0 {
        m
    } else {
        let m1 = deps_after(m, lines.drop_last());
        let line = lines.last();
        match colon_pos(line) {
            None => m1,
            Some(c) => m1.insert(short_name(line.take(c)), dep_names(split_words(line.skip(c + 1)))),
        }
    }
}

/// The module paths after reading `modules.dep` lines.
pub open spec fn paths_after(m: Map<Seq<char>, Seq<char>>, lines: Seq<Seq<u8>>) -> Map<
    Seq<char>,
    Seq<char>,
>
    decreases lines.len(),
{
    if lines.len() == 0 {
        m
    } else {
        let m1 = paths_after(m, lines.drop_last());
        let line = lines.last();
        match colon_pos(line) {
            None => m1,
            Some(c) => m1.insert(
                short_name(line.take(c)),
                crate::modules_info::lossy_text(line.take(c)),
            ),
        }
    }
}

/// The built-in modules after reading `modules.builtin` lines.
pub open spec fn builtin_after(b: Set<Seq<char>>, lines: Seq<Seq<u8>>) -> Set<Seq<char>>
    decreases lines.len(),
{
    if lines.len() == 0 {
        b
    } else {
        let b1 = builtin_after(b, lines.drop_last());
        let name = short_name(lines.last());
        if name.len() == 0 {
            b1
        } else {
            b1.insert(name)
        }
    }
}

#[verifier::rlimit(40)]
/// Reads `modules.dep` and, when it exists, `modules.builtin` (their contents); fails with
/// `PushStrFailed` for a line longer than `LINE_CAP` bytes.
pub fn load_modules_info(dep_content: &[u8], builtin_content: Option<&[u8]>) -> (r: Result<
    ModulesInfo,
    ModprobeError,
>)
    ensures
        (long_run(dep_content@) || (builtin_content matches Some(b) && long_run(b@))) ==> (r matches Err(
            e,
        ) && e@ == ModprobeErrorView::PushStrFailed),
        !(long_run(dep_content@) || (builtin_content matches Some(b) && long_run(b@))) ==> (r matches Ok(
            info,
        ) && info.deps_map() == deps_after(Map::empty(), file_lines(dep_content@))
            && info.paths_map() == paths_after(Map::empty(), file_lines(dep_content@))
            && info.builtin_set() == match builtin_content {
            Some(b) => builtin_after(Set::empty(), file_lines(b@)),
            None => Set::<Seq<char>>::empty(),
        }),
{
    let dep_lines = match file_lines_exec(dep_content) {
        Ok(l) => l,
        Err(e) => {
            return Err(e);
        },
    };
    let ghost dl = Seq::new(dep_lines@.len(), |i: int| dep_lines@[i]@);
    let mut info = ModulesInfo::new();
    let mut i: usize = 0;
    assert(dl.take(0) =~= Seq::<Seq<u8>>::empty());
    while i < dep_lines.len()
        invariant
            i <= dep_lines@.len(),
            dl == Seq::new(dep_lines@.len(), |i: int| dep_lines@[i]@),
            info.deps_map() == deps_after(Map::empty(), dl.take(i as int)),
            info.paths_map() == paths_after(Map::empty(), dl.take(i as int)),
            info.builtin_set() == Set::<Seq<char>>::empty(),
        decreases dep_lines@.len() - i,
    {
        assert(dl.take(i + 1).drop_last() =~= dl.take(i as int));
        assert(dl.take(i + 1).last() == dep_lines@[i as int]@);
        info.feed_modules_dep_line(dep_lines[i].as_slice());
        i = i + 1;
    }
    assert(dl.take(dl.len() as int) =~= dl);
    match builtin_content {
        None => {},
        Some(b) => {
            let lines = match file_lines_exec(b) {
                Ok(l) => l,
                Err(e) => {
                    return Err(e);
                },
            };
            let ghost bl = Seq::new(lines@.len(), |i: int| lines@[i]@);
            let mut j: usize = 0;
            assert(bl.take(0) =~= Seq::<Seq<u8>>::empty());
            while j < lines.len()
                invariant
                    j <= lines@.len(),
                    bl == Seq::new(lines@.len(), |i: int| lines@[i]@),
                    info.deps_map() == deps_after(Map::empty(), dl),
                    info.paths_map() == paths_after(Map::empty(), dl),
                    info.builtin_set() == builtin_after(Set::empty(), bl.take(j as int)),
                decreases lines@.len() - j,
            {
                assert(bl.take(j + 1).drop_last() =~= bl.take(j as int));
                assert(bl.take(j + 1).last() == lines@[j as int]@);
                info.feed_modules_builtin_line(lines[j].as_slice());
                j = j + 1;
            }
            assert(bl.take(bl.len() as int) =~= bl);
        },
    }
    Ok(info)
}

/// Longest modules directory path, in bytes.
pub const MODULES_ROOT_CAP: usize = 256;

/// The modules directory of kernel `release` under `prefix` (`/lib/modules/` or
/// `/usr/lib/modules/`), if it fits `MODULES_ROOT_CAP` bytes.
pub fn release_dir(prefix: &str, release: &str) -> (r: Result<String, ModprobeError>)
    ensures
        byte_len(prefix@ + release@) > MODULES_ROOT_CAP ==> (r matches Err(e) && e@
            == ModprobeErrorView::PushStrFailed),
        byte_len(prefix@ + release@) <= MODULES_ROOT_CAP ==> (r matches Ok(p) && p@ == prefix@
            + release@),
{
    let mut out: Vec<char> = Vec::new();
    push_str_chars(&mut out, prefix);
    push_str_chars(&mut out, release);
    if byte_len_exec(out.as_slice()) > MODULES_ROOT_CAP {
        return Err(ModprobeError::PushStrFailed);
    }
    Ok(string_of(out.as_slice()))
}

/// The paths of `modules.dep` and `modules.builtin` under the modules directory.
pub fn modules_info_paths(modules_root: &str) -> (r: Result<(String, String), ModprobeError>)
    ensures
        match (
            join_check(modules_root@, "modules.dep"@, INFO_PATH_CAP as int),
            join_check(modules_root@, "modules.builtin"@, INFO_PATH_CAP as int),
        ) {
            (Ok(d), Ok(b)) => r matches Ok(p) && p.0@ == d && p.1@ == b,
            (Err(e), _) => r matches Err(x) && x@ == e,
            (Ok(_), Err(e)) => r matches Err(x) && x@ == e,
        },
{
    let dep = match join_path(modules_root, "modules.dep", INFO_PATH_CAP) {
        Ok(p) => p,
        Err(e) => {
            return Err(e);
        },
    };
    let builtin = match join_path(modules_root, "modules.builtin", INFO_PATH_CAP) {
        Ok(p) => p,
        Err(e) => {
            return Err(e);
        },
    };
    Ok((dep, builtin))
}

/// `p` is a walk from `root` through dependencies that passes only modules that are not
/// built in.
pub open spec fn is_walk(info: &ModulesInfo, root: Seq<char>, p: Seq<Seq<char>>) -> bool {
    &&& p.len() >= 1
    &&& p[0] == root
    &&& forall|k: int|
        0 <= k < p.len() - 1 ==> !info.builtin_set().contains(#[trigger] p[k]) && info.dep_list(
            p[k],
        ).contains(p[k + 1])
}

/// `x` is on some walk from `root`.
pub open spec fn walk_reaches(info: &ModulesInfo, root: Seq<char>, x: Seq<char>) -> bool {
    exists|p: Seq<Seq<char>>| #[trigger] is_walk(info, root, p) && p.last() == x
}

/// Every module that loading `root` needs has a file: `root` itself unless it is built
/// in, and each dependency, not built in, of a module that is reached and not built in.
pub open spec fn deps_present(info: &ModulesInfo, root: Seq<char>) -> bool {
    &&& info.builtin_set().contains(root) || info.paths_map().dom().contains(root)
    &&& forall|x: Seq<char>, d: Seq<char>|
        #![trigger walk_reaches(info, root, x), info.dep_list(x).contains(d)]
        walk_reaches(info, root, x) && !info.builtin_set().contains(x) && info.dep_list(x).contains(d)
            && !info.builtin_set().contains(d) ==> info.paths_map().dom().contains(d)
}

/// Every module in `vis` that is not built in has a file, and each of its dependencies
/// is built in, or has a file and is in `vis` or `stack`; `skip` is exempt.
pub open spec fn checked(
    info: &ModulesInfo,
    vis: Seq<Seq<char>>,
    stack: Seq<Seq<char>>,
    skip: Option<Seq<char>>,
) -> bool {
    forall|x: Seq<char>|
        #![trigger vis.contains(x)]
        vis.contains(x) && !info.builtin_set().contains(x) && skip != Some(x) ==> {
            &&& info.paths_map().dom().contains(x)
            &&& forall|d: Seq<char>|
                #![trigger info.dep_list(x).contains(d)]
                info.dep_list(x).contains(d) ==> info.builtin_set().contains(d) || (
                info.paths_map().dom().contains(d) && (vis.contains(d) || stack.contains(d)))
        }
}

proof fn lemma_walk_extend(info: &ModulesInfo, root: Seq<char>, x: Seq<char>, d: Seq<char>)
    requires
        walk_reaches(info, root, x),
        !info.builtin_set().contains(x),
        info.dep_list(x).contains(d),
    ensures
        walk_reaches(info, root, d),
{
    let p = choose|p: Seq<Seq<char>>| #[trigger] is_walk(info, root, p) && p.last() == x;
    let q = p.push(d);
    assert forall|k: int| 0 <= k < q.len() - 1 implies !info.builtin_set().contains(#[trigger] q[k])
        && info.dep_list(q[k]).contains(q[k + 1]) by {
        if k < p.len() - 1 {
            assert(q[k] == p[k] && q[k + 1] == p[k + 1]);
        } else {
            assert(q[k] == x && q[k + 1] == d);
        }
    }
    assert(is_walk(info, root, q));
}

proof fn lemma_walk_root(info: &ModulesInfo, root: Seq<char>)
    ensures
        walk_reaches(info, root, root),
{
    assert(is_walk(info, root, seq![root]));
}

proof fn lemma_walk_in(info: &ModulesInfo, root: Seq<char>, vis: Seq<Seq<char>>, p: Seq<Seq<char>>, k: int)
    requires
        checked(info, vis, seq![], None),
        vis.contains(root),
        is_walk(info, root, p),
        0 <= k < p.len(),
        k < p.len() - 1 || !info.builtin_set().contains(p[k]),
    ensures
        vis.contains(p[k]),
    decreases k,
{
    if k > 0 {
        assert(!info.builtin_set().contains(p[k - 1]));
        lemma_walk_in(info, root, vis, p, k - 1);
        assert(info.dep_list(p[k - 1]).contains(p[k]));
        if k < p.len() - 1 {
            assert(!info.builtin_set().contains(p[k]));
        }
    }
}

proof fn lemma_checked_present(info: &ModulesInfo, root: Seq<char>, vis: Seq<Seq<char>>)
    requires
        checked(info, vis, seq![], None),
        vis.contains(root),
    ensures
        deps_present(info, root),
{
    assert forall|x: Seq<char>, d: Seq<char>|
        walk_reaches(info, root, x) && !info.builtin_set().contains(x) && info.dep_list(x).contains(d)
            && !info.builtin_set().contains(d) implies info.paths_map().dom().contains(d) by {
        let p = choose|p: Seq<Seq<char>>| #[trigger] is_walk(info, root, p) && p.last() == x;
        lemma_walk_in(info, root, vis, p, p.len() - 1);
        assert(vis.contains(x));
    }
}

/// An error that checking the files of the modules `root` needs can give: `root` without
/// a file, a dependency without a file (with the module that needs it), or a name or the
/// walk outgrowing its room.
pub open spec fn validation_error(info: &ModulesInfo, root: Seq<char>, e: ModprobeErrorView) -> bool {
    match e {
        ModprobeErrorView::ModuleNotFound(m) => m == root && !info.builtin_set().contains(root)
            && !info.paths_map().dom().contains(root),
        ModprobeErrorView::DependencyNotFound(d, o) => walk_reaches(info, root, o)
            && !info.builtin_set().contains(o) && info.paths_map().dom().contains(o)
            && info.dep_list(o).contains(d) && !info.builtin_set().contains(d)
            && !info.paths_map().dom().contains(d),
        ModprobeErrorView::PushStrFailed => true,
        _ => false,
    }
}

/// Putting the dependencies `deps` of `owner` on the walk's `stack`, in order: a built-in
/// one is passed over, one without a file stops the walk, and one whose name outgrows
/// `MODULE_NAME_CAP` bytes, or that finds the stack holding `WALK_CAP` names, overflows it.
pub open spec fn push_deps(
    info: &ModulesInfo,
    owner: Seq<char>,
    deps: Seq<Seq<char>>,
    stack: Seq<Seq<char>>,
) -> Result<Seq<Seq<char>>, ModprobeErrorView>
    decreases deps.len(),
{
    if deps.len() == 0 {
        Ok(stack)
    } else {
        let d = deps[0];
        if info.builtin_set().contains(d) {
            push_deps(info, owner, deps.drop_first(), stack)
        } else if !info.paths_map().dom().contains(d) {
            Err(ModprobeErrorView::DependencyNotFound(d, owner))
        } else if byte_len(d) > MODULE_NAME_CAP || stack.len() >= WALK_CAP {
            Err(ModprobeErrorView::PushStrFailed)
        } else {
            push_deps(info, owner, deps.drop_first(), stack.push(d))
        }
    }
}

/// The rest of the depth-first check, from the names still on `stack` (the last on top)
/// and those already `visited`: a visited name is passed over; a new one is recorded
/// (overflowing once `WALK_CAP` names are), and unless it is built in it must have a
/// file and its dependencies go on the stack.
pub open spec fn check_walk(info: &ModulesInfo, stack: Seq<Seq<char>>, visited: Seq<Seq<char>>) -> Result<
    (),
    ModprobeErrorView,
>
    decreases WALK_CAP - visited.len(), stack.len(),
{
    if stack.len() == 0 {
        Ok(())
    } else {
        let owner = stack.last();
        let rest = stack.drop_last();
        if visited.contains(owner) {
            check_walk(info, rest, visited)
        } else if visited.len() >= WALK_CAP {
            Err(ModprobeErrorView::PushStrFailed)
        } else if info.builtin_set().contains(owner) {
            check_walk(info, rest, visited.push(owner))
        } else if !info.paths_map().dom().contains(owner) {
            Err(ModprobeErrorView::ModuleNotFound(owner))
        } else {
            match push_deps(info, owner, info.dep_list(owner), rest) {
                Ok(st) => check_walk(info, st, visited.push(owner)),
                Err(e) => Err(e),
            }
        }
    }
}

/// The walk continued from what putting one module's dependencies on the stack gave.
pub open spec fn walk_after(
    info: &ModulesInfo,
    pushed: Result<Seq<Seq<char>>, ModprobeErrorView>,
    visited: Seq<Seq<char>>,
) -> Result<(), ModprobeErrorView> {
    match pushed {
        Ok(st) => check_walk(info, st, visited),
        Err(e) => Err(e),
    }
}

/// What checking the files of the modules `root` needs gives: an overflow for a name
/// longer than `MODULE_NAME_CAP` bytes, else the depth-first walk from `root` alone.
pub open spec fn validation_outcome(info: &ModulesInfo, root: Seq<char>) -> Result<(), ModprobeErrorView> {
    if byte_len(root) > MODULE_NAME_CAP {
        Err(ModprobeErrorView::PushStrFailed)
    } else {
        check_walk(info, seq![root], seq![])
    }
}

/// Checks that every module that loading `root` needs has a file, walking the
/// dependencies depth first; fails for `root` without a file, for the first dependency
/// found without a file, or when a name or the walk outgrows its room.
pub fn validate_dependency_paths(info: &ModulesInfo, root: &str) -> (r: Result<(), ModprobeError>)
    ensures
        r is Ok <==> validation_outcome(info, root@) is Ok,
        r matches Err(e) ==> validation_outcome(info, root@) == Err::<(), ModprobeErrorView>(e@),
        r is Ok ==> deps_present(info, root@),
        r matches Err(e) ==> validation_error(info, root@, e@),
{
    if root.len() > MODULE_NAME_CAP {
        return Err(ModprobeError::PushStrFailed);
    }
    let ghost rt = root@;
    let ghost goal = validation_outcome(info, rt);
    let mut stack: Vec<String> = Vec::new();
    let mut visited: Vec<String> = Vec::new();
    stack.push(root.to_owned());
    proof {
        lemma_walk_root(info, rt);
        assert(strs(stack@)[0] == rt);
        assert(strs(stack@) =~= seq![rt]);
        assert(strs(visited@) =~= Seq::<Seq<char>>::empty());
    }
    while stack.len() > 0
        invariant
            rt == root@,
            goal == validation_outcome(info, rt),
            goal == check_walk(info, strs(stack@), strs(visited@)),
            forall|x: Seq<char>| #[trigger] strs(stack@).contains(x) ==> walk_reaches(info, rt, x),
            forall|x: Seq<char>| #[trigger] strs(visited@).contains(x) ==> walk_reaches(info, rt, x),
            forall|x: Seq<char>|
                #[trigger] strs(stack@).contains(x) && x != rt ==> !info.builtin_set().contains(x)
                    && info.paths_map().dom().contains(x),
            forall|x: Seq<char>|
                #[trigger] strs(visited@).contains(x) && x != rt ==> !info.builtin_set().contains(x)
                    && info.paths_map().dom().contains(x),
            strs(stack@).contains(rt) || strs(visited@).contains(rt),
            checked(info, strs(visited@), strs(stack@), None),
            visited@.len() <= WALK_CAP,
        decreases WALK_CAP - visited@.len(), stack@.len(),
    {
        let ghost st0 = strs(stack@);
        let ghost vi0 = strs(visited@);
        let owner = stack.pop().unwrap();
        let ghost ov = owner@;
        proof {
            assert(st0 =~= strs(stack@).push(ov));
            assert(st0[st0.len() - 1] == ov);
            assert(st0.contains(ov));
            assert(st0.drop_last() =~= strs(stack@));
            assert(st0.last() == ov);
            assert forall|x: Seq<char>| #[trigger] st0.contains(x) <==> strs(stack@).contains(x) || x == ov by {
                vstd::seq_lib::lemma_seq_contains_after_push(strs(stack@), ov, x);
            }
            assert forall|x: Seq<char>| #[trigger] strs(stack@).contains(x) implies st0.contains(x) by {
                vstd::seq_lib::lemma_seq_contains_after_push(strs(stack@), ov, x);
            }
        }
        if contains_string(&visited, &owner) {
            continue;
        }
        if visited.len() >= WALK_CAP {
            return Err(ModprobeError::PushStrFailed);
        }
        visited.push(owner.clone());
        proof {
            assert(strs(visited@) =~= vi0.push(ov));
            assert forall|x: Seq<char>| #[trigger] strs(visited@).contains(x) <==> vi0.contains(x) || x == ov by {
                vstd::seq_lib::lemma_seq_contains_after_push(vi0, ov, x);
            }
            assert forall|x: Seq<char>| #[trigger] vi0.contains(x) implies strs(visited@).contains(x) by {
                vstd::seq_lib::lemma_seq_contains_after_push(vi0, ov, x);
            }
            assert(strs(visited@)[vi0.len() as int] == ov);
        }
        if info.is_builtin(owner.as_str()) {
            continue;
        }
        if info.resolve_path(owner.as_str()).is_none() {
            return Err(ModprobeError::ModuleNotFound(owner));
        }
        let deps = match info.deps_of(owner.as_str()) {
            None => {
                continue;
            },
            Some(d) => d,
        };
        let ghost dv = strs(deps@);
        assert(dv == info.dep_list(ov));
        assert(dv.skip(0) =~= dv);
        let mut j: usize = 0;
        while j < deps.len()
            invariant
                rt == root@,
                goal == validation_outcome(info, rt),
                goal == walk_after(info, push_deps(info, ov, dv.skip(j as int), strs(stack@)), strs(visited@)),
                ov == owner@,
                dv == strs(deps@),
                dv == info.dep_list(ov),
                !info.builtin_set().contains(ov),
                info.paths_map().dom().contains(ov),
                strs(visited@).contains(ov),
                visited@.len() <= WALK_CAP,
                j <= deps@.len(),
                forall|x: Seq<char>| #[trigger] strs(stack@).contains(x) ==> walk_reaches(info, rt, x),
                forall|x: Seq<char>| #[trigger] strs(visited@).contains(x) ==> walk_reaches(info, rt, x),
                forall|x: Seq<char>|
                    #[trigger] strs(stack@).contains(x) && x != rt ==> !info.builtin_set().contains(x)
                        && info.paths_map().dom().contains(x),
                forall|x: Seq<char>|
                    #[trigger] strs(visited@).contains(x) && x != rt ==> !info.builtin_set().contains(x)
                        && info.paths_map().dom().contains(x),
                strs(stack@).contains(rt) || strs(visited@).contains(rt),
                checked(info, strs(visited@), strs(stack@), Some(ov)),
                forall|k: int|
                    0 <= k < j ==> info.builtin_set().contains(#[trigger] dv[k]) || (
                    info.paths_map().dom().contains(dv[k]) && (strs(visited@).contains(dv[k]) || strs(
                        stack@,
                    ).contains(dv[k]))),
            decreases deps@.len() - j,
        {
            let dep = &deps[j];
            assert(dep@ == dv[j as int]);
            proof {
                assert(dv.skip(j as int)[0] == dv[j as int]);
                assert(dv.skip(j as int).drop_first() =~= dv.skip(j + 1));
            }
            if info.is_builtin(dep.as_str()) {
                j = j + 1;
                continue;
            }
            if info.resolve_path(dep.as_str()).is_none() {
                proof {
                    assert(info.dep_list(ov).contains(dv[j as int]));
                    assert(push_deps(info, ov, dv.skip(j as int), strs(stack@)) == Err::<Seq<Seq<char>>, ModprobeErrorView>(
                        ModprobeErrorView::DependencyNotFound(dv[j as int], ov),
                    ));
                }
                return Err(
                    ModprobeError::DependencyNotFound {
                        dependency: dep.clone(),
                        for_module: owner.clone(),
                    },
                );
            }
            let dep_len = dep.as_str().len();
            assert(dep_len == byte_len(dv[j as int]));
            if dep_len > MODULE_NAME_CAP {
                assert(push_deps(info, ov, dv.skip(j as int), strs(stack@)) == Err::<Seq<Seq<char>>, ModprobeErrorView>(
                    ModprobeErrorView::PushStrFailed,
                ));
                return Err(ModprobeError::PushStrFailed);
            }
            if stack.len() >= WALK_CAP {
                return Err(ModprobeError::PushStrFailed);
            }
            let ghost sb = strs(stack@);
            stack.push(dep.clone());
            proof {
                let d = dv[j as int];
                assert(strs(stack@) =~= sb.push(d));
                assert forall|x: Seq<char>| #[trigger] strs(stack@).contains(x) <==> sb.contains(x) || x == d by {
                    vstd::seq_lib::lemma_seq_contains_after_push(sb, d, x);
                }
                assert forall|x: Seq<char>| #[trigger] sb.contains(x) implies strs(stack@).contains(x) by {
                    vstd::seq_lib::lemma_seq_contains_after_push(sb, d, x);
                }
                assert(info.dep_list(ov).contains(d));
                lemma_walk_extend(info, rt, ov, d);
                assert(strs(stack@)[sb.len() as int] == d);
                assert(strs(stack@).contains(d));
            }
            j = j + 1;
        }
        proof {
            assert(dv.skip(j as int) =~= Seq::<Seq<char>>::empty());
            assert forall|d: Seq<char>| #[trigger] info.dep_list(ov).contains(d) implies info.builtin_set().contains(d)
                || (info.paths_map().dom().contains(d) && (strs(visited@).contains(d) || strs(
                stack@,
            ).contains(d))) by {
                let k = choose|k: int| 0 <= k < dv.len() && dv[k] == d;
            }
        }
    }
    proof {
        assert(strs(stack@) =~= Seq::<Seq<char>>::empty());
        lemma_checked_present(info, rt, strs(visited@));
    }
    Ok(())
}

/// The file of a module to load, or why it cannot be loaded: no path listed, a
/// compressed file (`.ko.` in its name), or a path longer than `MODULE_PATH_CAP` bytes.
pub open spec fn item_result(info: &ModulesInfo, root: Seq<char>, dep: Seq<char>) -> Result<
    Seq<char>,
    ModprobeErrorView,
> {
    if !info.paths_map().dom().contains(dep) {
        Err(ModprobeErrorView::ModuleNotFound(dep))
    } else if contains_sub(info.paths_map()[dep], ".ko."@) {
        Err(ModprobeErrorView::ModuleCompressed(dep))
    } else {
        join_check(root, info.paths_map()[dep], MODULE_PATH_CAP as int)
    }
}

/// The modules to load follow `order` with their files, up to the first one that cannot
/// be loaded, whose error is `err`.
pub open spec fn items_follow(
    info: &ModulesInfo,
    root: Seq<char>,
    order: Seq<Seq<char>>,
    items: Seq<(Seq<char>, Seq<char>)>,
    err: Option<ModprobeErrorView>,
) -> bool {
    &&& items.len() <= order.len()
    &&& forall|k: int|
        0 <= k < items.len() ==> (#[trigger] items[k]).0 == order[k] && item_result(
            info,
            root,
            order[k],
        ) == Ok::<Seq<char>, ModprobeErrorView>(items[k].1)
    &&& err is None ==> items.len() == order.len()
    &&& err matches Some(e) ==> items.len() < order.len() && item_result(info, root, order[items.len() as int])
        == Err::<Seq<char>, ModprobeErrorView>(e)
}

/// What loading `module` with its dependencies does, before any module is loaded: the
/// modules to load in order with their files, then the error to report, if any.
pub open spec fn load_plan(
    info: &ModulesInfo,
    root: Seq<char>,
    module: Seq<char>,
    items: Seq<(Seq<char>, Seq<char>)>,
    err: Option<ModprobeErrorView>,
) -> bool {
    match normalize_check(module) {
        Err(e) => items.len() == 0 && err == Some(e),
        Ok(n) => if info.builtin_set().contains(n) {
            items.len() == 0 && err is None
        } else if !info.paths_map().dom().contains(n) {
            items.len() == 0 && err == Some(ModprobeErrorView::ModuleNotFound(n))
        } else {
            match validation_outcome(info, n) {
                Err(e) => items.len() == 0 && err == Some(e) && validation_error(info, n, e),
                Ok(_) => deps_present(info, n) && match load_order_outcome(info, n) {
                    DfsOutcome::Done(s) => info.is_load_order(n, s.out) && items_follow(
                        info,
                        root,
                        s.out,
                        items,
                        err,
                    ),
                    _ => items.len() == 0 && err == Some(
                        ModprobeErrorView::ModuleLoadFailed(n, "dependency cycle detected"),
                    ) && info.has_cycle_from(n),
                },
            }
        },
    }
}

/// The names and files of a list of modules to load.
pub open spec fn items_view(v: Seq<(String, String)>) -> Seq<(Seq<char>, Seq<char>)> {
    Seq::new(v.len(), |i: int| (v[i].0@, v[i].1@))
}

fn item_exec(info: &ModulesInfo, root: &str, dep: &String) -> (r: Result<String, ModprobeError>)
    ensures
        match item_result(info, root@, dep@) {
            Ok(p) => r matches Ok(s) && s@ == p,
            Err(e) => r matches Err(x) && x@ == e,
        },
{
    let rel = match info.resolve_path(dep.as_str()) {
        Some(p) => p,
        None => {
            return Err(ModprobeError::ModuleNotFound(dep.clone()));
        },
    };
    let rc = chars_of(rel.as_str());
    let pat = chars_of(".ko.");
    if find_sub_from_exec(rc.as_slice(), pat.as_slice(), 0).is_some() {
        return Err(ModprobeError::ModuleCompressed(dep.clone()));
    }
    join_path(root, rel.as_str(), MODULE_PATH_CAP)
}

impl ModprobeUtil {
    /// Plans loading `module` with its dependencies, given the module database and the
    /// modules directory: the modules to load, in order, with their files, and the error
    /// to report once they are loaded (the one that stopped the plan), if any.
    pub fn dependency_modules(info: &ModulesInfo, modules_root: &str, module: &str) -> (r: (
        Vec<(String, String)>,
        Option<ModprobeError>,
    ))
        ensures
            load_plan(
                info,
                modules_root@,
                module@,
                items_view(r.0@),
                err_view(r.1),
            ),
    {
        let mut items: Vec<(String, String)> = Vec::new();
        assert(items_view(items@) =~= Seq::<(Seq<char>, Seq<char>)>::empty());
        let name = match normalize_module_name(module) {
            Ok(n) => n,
            Err(e) => {
                return (items, Some(e));
            },
        };
        if info.is_builtin(name.as_str()) {
            return (items, None);
        }
        if info.resolve_path(name.as_str()).is_none() {
            return (items, Some(ModprobeError::ModuleNotFound(name.clone())));
        }
        match validate_dependency_paths(info, name.as_str()) {
            Err(e) => {
                return (items, Some(e));
            },
            Ok(()) => {},
        }
        let order = match info.resolve_load_order(name.as_str()) {
            Ok(o) => o,
            Err(_) => {
                return (
                    items,
                    Some(
                        ModprobeError::ModuleLoadFailed {
                            module: name.clone(),
                            error: "dependency cycle detected",
                        },
                    ),
                );
            },
        };
        let ghost ov = strs(order@);
        assert(load_order_outcome(info, name@) is Done && load_order_outcome(info, name@)->Done_0.out == ov);
        let mut k: usize = 0;
        while k < order.len()
            invariant
                k <= order@.len(),
                ov == strs(order@),
                info.is_load_order(name@, ov),
                load_order_outcome(info, name@) is Done && load_order_outcome(info, name@)->Done_0.out
                    == ov,
                deps_present(info, name@),
                validation_outcome(info, name@) is Ok,
                normalize_check(module@) == Ok::<Seq<char>, ModprobeErrorView>(name@),
                !info.builtin_set().contains(name@),
                info.paths_map().dom().contains(name@),
                items@.len() == k,
                forall|j: int|
                    0 <= j < k ==> (#[trigger] items_view(items@)[j]).0 == ov[j] && item_result(
                        info,
                        modules_root@,
                        ov[j],
                    ) == Ok::<Seq<char>, ModprobeErrorView>(items_view(items@)[j].1),
            decreases order@.len() - k,
        {
            let dep = &order[k];
            assert(dep@ == ov[k as int]);
            if info.is_builtin(dep.as_str()) {
                proof {
                    assert(!info.builtin_set().contains(ov[k as int]));
                }
                k = k + 1;
                continue;
            }
            match item_exec(info, modules_root, dep) {
                Err(e) => {
                    proof {
                        assert(items_follow(
                            info,
                            modules_root@,
                            ov,
                            items_view(items@),
                            Some(e@),
                        ));
                    }
                    return (items, Some(e));
                },
                Ok(path) => {
                    let ghost before = items_view(items@);
                    items.push((dep.clone(), path));
                    assert(items_view(items@) =~= before.push(items_view(items@)[k as int]));
                },
            }
            k = k + 1;
        }
        assert(items_follow(info, modules_root@, ov, items_view(items@), None));
        (items, None)
    }
}

/// Names paired with the texts of paths.
pub open spec fn zip_names(names: Seq<Seq<char>>, paths: Seq<String>) -> Seq<(Seq<char>, Seq<char>)> {
    Seq::new(paths.len(), |i: int| (names[i], paths[i]@))
}

/// An optional error as a mathematical value.
pub open spec fn err_view(e: Option<ModprobeError>) -> Option<ModprobeErrorView> {
    match e {
        Some(x) => Some(x@),
        None => None,
    }
}

impl ModprobeUtil {
    /// Plans loading `module` and its dependencies with `params` for `module` itself
    /// (none for its dependencies): each module's name, file and parameters, in order,
    /// and the error to report once they are loaded, if any.
    pub fn modprobe_with_params(
        info: &ModulesInfo,
        modules_root: &str,
        module: &str,
        params: &str,
    ) -> (r: (Vec<(String, String, String)>, Option<ModprobeError>))
        ensures
            load_plan(
                info,
                modules_root@,
                module@,
                Seq::new(r.0@.len(), |i: int| (r.0@[i].0@, r.0@[i].1@)),
                err_view(r.1),
            ),
            forall|i: int|
                0 <= i < r.0@.len() ==> (#[trigger] r.0@[i]).2@ == if normalize_check(module@)
                    == Ok::<Seq<char>, ModprobeErrorView>(r.0@[i].0@) {
                    params@
                } else {
                    Seq::<char>::empty()
                },
    {
        let mut out: Vec<(String, String, String)> = Vec::new();
        let name = match normalize_module_name(module) {
            Ok(n) => n,
            Err(e) => {
                assert(Seq::new(out@.len(), |i: int| (out@[i].0@, out@[i].1@)) =~= Seq::<
                    (Seq<char>, Seq<char>),
                >::empty());
                return (out, Some(e));
            },
        };
        let (items, err) = Self::dependency_modules(info, modules_root, module);
        let mut k: usize = 0;
        while k < items.len()
            invariant
                k <= items@.len(),
                out@.len() == k,
                normalize_check(module@) == Ok::<Seq<char>, ModprobeErrorView>(name@),
                forall|i: int|
                    0 <= i < k ==> (#[trigger] out@[i]).0@ == items@[i].0@ && out@[i].1@
                        == items@[i].1@ && out@[i].2@ == if name@ == items@[i].0@ {
                        params@
                    } else {
                        Seq::<char>::empty()
                    },
            decreases items@.len() - k,
        {
            let dep = items[k].0.clone();
            let path = items[k].1.clone();
            let p = if dep == name {
                params.to_owned()
            } else {
                String::new()
            };
            out.push((dep, path, p));
            k = k + 1;
        }
        assert(Seq::new(out@.len(), |i: int| (out@[i].0@, out@[i].1@)) =~= items_view(items@));
        (out, err)
    }

    /// Plans loading `module` and its dependencies without parameters.
    pub fn modprobe(info: &ModulesInfo, modules_root: &str, module: &str) -> (r: (
        Vec<(String, String, String)>,
        Option<ModprobeError>,
    ))
        ensures
            load_plan(
                info,
                modules_root@,
                module@,
                Seq::new(r.0@.len(), |i: int| (r.0@[i].0@, r.0@[i].1@)),
                err_view(r.1),
            ),
            forall|i: int| 0 <= i < r.0@.len() ==> (#[trigger] r.0@[i]).2@ == Seq::<char>::empty(),
    {
        let r = Self::modprobe_with_params(info, modules_root, module, "");
        proof {
            reveal_strlit("");
        }
        r
    }

    /// The files of `module` and its dependencies, in load order, and the error that
    /// stopped the list, if any.
    pub fn for_each_dependency_module_path(info: &ModulesInfo, modules_root: &str, module: &str) -> (r: (
        Vec<String>,
        Option<ModprobeError>,
    ))
        ensures
            exists|names: Seq<Seq<char>>|
                names.len() == r.0@.len() && #[trigger] load_plan(
                    info,
                    modules_root@,
                    module@,
                    zip_names(names, r.0@),
                    err_view(r.1),
                ),
    {
        let (items, err) = Self::dependency_modules(info, modules_root, module);
        let mut paths: Vec<String> = Vec::new();
        let mut k: usize = 0;
        while k < items.len()
            invariant
                k <= items@.len(),
                paths@.len() == k,
                forall|i: int| 0 <= i < k ==> (#[trigger] paths@[i])@ == items@[i].1@,
            decreases items@.len() - k,
        {
            paths.push(items[k].1.clone());
            k = k + 1;
        }
        let ghost names = Seq::new(items@.len(), |i: int| items@[i].0@);
        assert(zip_names(names, paths@) =~= items_view(items@));
        assert(load_plan(info, modules_root@, module@, zip_names(names, paths@), err_view(err)));
        assert(names.len() == paths@.len());
        let r = (paths, err);
        assert(names.len() == r.0@.len() && load_plan(info, modules_root@, module@, zip_names(names, r.0@), err_view(r.1)));
        r
    }
}

} // verus!
