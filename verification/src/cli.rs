//! Command lines: `--key value` flags, and names of snapshots.

use vstd::prelude::*;
use vstd::string::*;

verus! {

/// Number of workers where a command does not say.
pub fn default_threads() -> (n: usize)
    ensures
        n == 16,
{
    16
}

/// The key stands at place `i` of the arguments, and nowhere before.
pub open spec fn first_at(args: Seq<String>, key: Seq<char>, i: int) -> bool {
    &&& 0 <= i < args.len()
    &&& args[i]@ == key
    &&& forall|k: int| 0 <= k < i ==> (#[trigger] args[k])@ != key
}

/// The key is among the arguments.
pub open spec fn is_given(args: Seq<String>, key: Seq<char>) -> bool {
    exists|k: int| 0 <= k < args.len() && (#[trigger] args[k])@ == key
}

/// The value of a flag is the argument behind the first place where its key stands; without
/// one it is the default.
pub open spec fn is_value(
    args: Seq<String>,
    key: Seq<char>,
    default: Seq<char>,
    value: Seq<char>,
) -> bool {
    if exists|i: int| #[trigger] first_at(args, key, i) && i + 1 < args.len() {
        exists|i: int| #[trigger] first_at(args, key, i) && i + 1 < args.len() && value
            == args[i + 1]@
    } else {
        value == default
    }
}

fn find_key(args: &[String], key: &str) -> (at: Option<usize>)
    ensures
        match at {
            Some(i) => first_at(args@, key@, i as int),
            None => !is_given(args@, key@),
        },
{
    let wanted = String::from_str(key);
    let mut i: usize = 0;
    while i < args.len()
        invariant
            0 <= i <= args@.len(),
            wanted@ == key@,
            forall|k: int| 0 <= k < i ==> (#[trigger] args@[k])@ != key@,
        decreases args@.len() - i,
    {
        if args[i] == wanted {
            return Some(i);
        }
        i += 1;
    }
    None
}

/// The value of a `--key value` flag, or the default.
pub fn flag(args: &[String], key: &str, default: &str) -> (value: String)
    ensures
        is_value(args@, key@, default@, value@),
{
    match find_key(args, key) {
        Some(i) => {
            if i < args.len() - 1 {
                let value = args[i + 1].clone();
                assert(first_at(args@, key@, i as int) && i + 1 < args@.len());
                value
            } else {
                proof {
                    assert forall|j: int| #[trigger] first_at(args@, key@, j) implies j + 1
                        >= args@.len() by {
                        assert(j >= i) by {
                            if j < i {
                                assert(args@[j]@ != key@);
                            }
                        }
                    }
                }
                String::from_str(default)
            }
        },
        None => {
            proof {
                assert forall|j: int| !#[trigger] first_at(args@, key@, j) by {
                    if first_at(args@, key@, j) {
                        assert(args@[j]@ == key@);
                    }
                }
            }
            String::from_str(default)
        },
    }
}

/// The value of a flag that has to be given; `None` where it is missing or empty.
pub fn require(args: &[String], key: &str) -> (value: Option<String>)
    ensures
        match value {
            Some(v) => v@.len() > 0 && is_value(args@, key@, Seq::empty(), v@),
            None => is_value(args@, key@, Seq::empty(), Seq::empty()),
        },
{
    proof {
        reveal_strlit("");
    }
    assert(""@ =~= Seq::<char>::empty());
    let value = flag(args, key, "");
    if value.as_str().unicode_len() == 0 {
        assert(value@ =~= Seq::<char>::empty());
        return None;
    }
    Some(value)
}

/// Whether a switch is among the arguments.
pub fn has_switch(args: &[String], key: &str) -> (given: bool)
    ensures
        given == is_given(args@, key@),
{
    match find_key(args, key) {
        Some(i) => {
            assert(args@[i as int]@ == key@);
            true
        },
        None => false,
    }
}

/// The value of a flag is unique.
pub proof fn flags_have_one_value(
    args: Seq<String>,
    key: Seq<char>,
    default: Seq<char>,
    v: Seq<char>,
    w: Seq<char>,
)
    requires
        is_value(args, key, default, v),
        is_value(args, key, default, w),
    ensures
        v == w,
{
    if exists|i: int| #[trigger] first_at(args, key, i) && i + 1 < args.len() {
        let i = choose|i: int|
            #[trigger] first_at(args, key, i) && i + 1 < args.len() && v == args[i + 1]@;
        let j = choose|j: int|
            #[trigger] first_at(args, key, j) && j + 1 < args.len() && w == args[j + 1]@;
        if i < j {
            assert(args[i]@ != key);
        }
        if j < i {
            assert(args[j]@ != key);
        }
    }
}

// --- snapshots ---------------------------------------------------------------

/// The path is read alike on every platform: no backslash and no colon in it, and not two
/// slashes at its start.
pub open spec fn is_portable(path: Seq<char>) -> bool {
    &&& forall|i: int| 0 <= i < path.len() ==> #[trigger] path[i] != '\\' && path[i] != ':'
    &&& !(path.len() >= 2 && path[0] == '/' && path[1] == '/')
}

/// The part of a path behind its last slash.
pub open spec fn last_part(path: Seq<char>) -> Seq<char>
    decreases path.len(),
{
    if path.len() == 0 || path.last() == '/' {
        Seq::empty()
    } else {
        last_part(path.drop_last()).push(path.last())
    }
}

/// The last component of a path, where that is a name. Slashes at the end do not count, nor
/// do parts that are a single dot.
pub open spec fn name_of(path: Seq<char>) -> Option<Seq<char>>
    decreases path.len(),
{
    let part = last_part(path);
    if path.len() == 0 {
        None
    } else if part.len() == 0 || part == seq!['.'] {
        name_of(path.drop_last())
    } else if part == seq!['.', '.'] {
        None
    } else {
        Some(part)
    }
}

/// A name without its extension: what comes before its last dot, unless that is nothing.
pub open spec fn stem_of(name: Seq<char>) -> Seq<char> {
    let dot = last_dot(name);
    if dot > 0 {
        name.take(dot)
    } else {
        name
    }
}

/// Place of the last dot of a name; minus one where there is none.
pub open spec fn last_dot(name: Seq<char>) -> int
    decreases name.len(),
{
    if name.len() == 0 {
        -1
    } else if name.last() == '.' {
        name.len() - 1
    } else {
        last_dot(name.drop_last())
    }
}

/// The stem of the file that a path names.
pub open spec fn path_stem(path: Seq<char>) -> Option<Seq<char>> {
    match name_of(path) {
        Some(name) => Some(stem_of(name)),
        None => None,
    }
}

/// `std::path::Path::file_stem`: the last component of the path, where it is a name, without
/// its extension. What it gives for a path that is not portable depends on the platform and is left
/// unsaid.
#[verifier::external_body]
fn file_stem(path: &str) -> (stem: Option<String>)
    ensures
        is_portable(path@) ==> match stem {
            Some(s) => path_stem(path@) == Some(s@),
            None => path_stem(path@) is None,
        },
{
    std::path::Path::new(path).file_stem().map(|s| s.to_string_lossy().to_string())
}

/// Name of the snapshot in a file: the stem of the path, or else the path itself.
pub fn snapshot_stem(path: &str) -> (name: String)
    ensures
        is_portable(path@) ==> name@ == match path_stem(path@) {
            Some(stem) => stem,
            None => path@,
        },
{
    match file_stem(path) {
        Some(stem) => stem,
        None => String::from_str(path),
    }
}

/// Name of the snapshot in a file; `None` where the path names no file.
pub fn candidate_name(path: &str) -> (name: Option<String>)
    ensures
        is_portable(path@) ==> match name {
            Some(s) => path_stem(path@) == Some(s@),
            None => path_stem(path@) is None,
        },
{
    file_stem(path)
}

// --- paths -------------------------------------------------------------------

/// Position `i` begins a part of the path that is a single dot.
pub open spec fn dot_at(path: Seq<char>, i: int) -> bool {
    &&& 0 <= i < path.len()
    &&& path[i] == '.'
    &&& i == 0 || path[i - 1] == '/'
    &&& i + 1 == path.len() || path[i + 1] == '/'
}

/// The path is read alike on every platform and says nothing twice: no slash at its end, no two
/// slashes in a row, and no part that is a single dot.
pub open spec fn is_tidy(path: Seq<char>) -> bool {
    &&& is_portable(path)
    &&& path.len() > 0
    &&& path.last() != '/'
    &&& forall|i: int| 0 <= i < path.len() - 1 && #[trigger] path[i] == '/' ==> path[i + 1] != '/'
    &&& forall|i: int| !#[trigger] dot_at(path, i)
}

/// What is left of a tidy path below a tidy directory; `None` where the path is not below it.
pub open spec fn below(dir: Seq<char>, path: Seq<char>) -> Option<Seq<char>> {
    if path == dir {
        Some(Seq::empty())
    } else if path.len() > dir.len() && path.take(dir.len() as int) == dir && path[dir.len() as int]
        == '/' {
        Some(path.skip((dir.len() + 1) as int))
    } else {
        None
    }
}

/// `std::path::Path::strip_prefix`: what is left of the path when the components of the base are
/// taken off its front, if it begins with them. What it gives for paths that are not tidy is
/// left unsaid.
#[verifier::external_body]
fn strip_prefix(path: &str, base: &str) -> (rest: Option<String>)
    ensures
        is_tidy(path@) && is_tidy(base@) ==> match rest {
            Some(r) => below(base@, path@) == Some(r@),
            None => below(base@, path@) is None,
        },
{
    std::path::Path::new(path).strip_prefix(base).ok().map(|r| r.to_string_lossy().to_string())
}

/// The path as it is written down for a run: from the run's directory on, where it lies below
/// that, and else as it is.
pub fn relative_to(run_dir: &str, path: &str) -> (rest: String)
    ensures
        is_tidy(run_dir@) && is_tidy(path@) ==> rest@ == match below(run_dir@, path@) {
            Some(r) => r,
            None => path@,
        },
{
    match strip_prefix(path, run_dir) {
        Some(rest) => rest,
        None => String::from_str(path),
    }
}

/// What comes before the extension of the file that a tidy path names.
pub open spec fn without_extension(path: Seq<char>) -> Seq<char> {
    let part = last_part(path);
    path.take(path.len() - part.len()) + stem_of(part)
}

/// `std::path::Path::with_extension`: the path with the given extension in place of the one
/// that it has, or behind its name if it has none; unchanged where it names no file. What it
/// gives for a path that is not tidy is left unsaid.
#[verifier::external_body]
fn with_extension(path: &str, extension: &str) -> (out: String)
    requires
        forall|i: int|
            0 <= i < extension@.len() ==> #[trigger] extension@[i] != '/' && extension@[i] != '\\',
    ensures
        is_tidy(path@) && extension@.len() > 0 ==> out@ == if name_of(path@) is None {
            path@
        } else {
            without_extension(path@).push('.') + extension@
        },
{
    std::path::Path::new(path).with_extension(extension).to_string_lossy().to_string()
}

/// The file beside a snapshot that is served in its place.
pub fn served_file(path: &str) -> (out: String)
    ensures
        is_tidy(path@) ==> out@ == if name_of(path@) is None {
            path@
        } else {
            without_extension(path@) + seq!['.', 'o', 'n', 'n', 'x']
        },
{
    let extension = "onnx";
    proof {
        reveal_strlit("onnx");
        assert(extension@ =~= seq!['o', 'n', 'n', 'x']);
        let front = without_extension(path@);
        assert(front.push('.') + extension@ =~= front + seq!['.', 'o', 'n', 'n', 'x']);
    }
    with_extension(path, extension)
}

/// A flag has the argument behind the first place of its key, whatever stands behind later ones,
/// and its default where there is no such argument.
pub proof fn flags_take_the_argument_behind_them(
    args: Seq<String>,
    key: Seq<char>,
    default: Seq<char>,
    value: Seq<char>,
    i: int,
)
    requires
        is_value(args, key, default, value),
        0 <= i <= args.len(),
        i < args.len() ==> args[i]@ == key,
        forall|k: int| 0 <= k < i ==> (#[trigger] args[k])@ != key,
    ensures
        i + 1 < args.len() ==> value == args[i + 1]@,
        i + 1 >= args.len() ==> value == default,
{
    if i + 1 < args.len() {
        assert(first_at(args, key, i));
        let j = choose|j: int|
            #[trigger] first_at(args, key, j) && j + 1 < args.len() && value == args[j + 1]@;
        if i < j {
            assert(args[i]@ != key);
        }
        if j < i {
            assert(args[j]@ != key);
        }
    } else if exists|j: int| #[trigger] first_at(args, key, j) && j + 1 < args.len() {
        let j = choose|j: int| #[trigger] first_at(args, key, j) && j + 1 < args.len();
        assert(args[j]@ == key);
    }
}

} // verus!
