//! Which names are left out of the tree.
//!
//! Precedence, strongest first: a name on the caller's ignore list is always
//! left out; otherwise, with `show_all`, nothing is left out; otherwise a name
//! on the built-in list is left out unless the caller's include list names it;
//! every other name is shown.

use crate::text::str_eq;
use vstd::prelude::*;

verus! {

/// The built-in list: version-control directories, desktop metadata, and the
/// dependency, build and cache directories of common toolchains.
pub open spec fn default_ignored(name: Seq<char>) -> bool {
    ||| name == ".git"@
    ||| name == ".hg"@
    ||| name == ".svn"@
    ||| name == ".DS_Store"@
    ||| name == "node_modules"@
    ||| name == "target"@
    ||| name == "dist"@
    ||| name == "build"@
    ||| name == ".cache"@
    ||| name == ".next"@
    ||| name == ".turbo"@
    ||| name == ".vercel"@
    ||| name == ".idea"@
    ||| name == ".vscode"@
    ||| name == "venv"@
    ||| name == "__pycache__"@
    ||| name == ".pytest_cache"@
    ||| name == ".mypy_cache"@
    ||| name == ".tox"@
    ||| name == "out"@
    ||| name == "coverage"@
    ||| name == ".parcel-cache"@
}

/// The names that a list of strings holds.
pub open spec fn names_of(list: Seq<String>) -> Set<Seq<char>> {
    Set::new(|n: Seq<char>| exists|i: int| 0 <= i < list.len() && #[trigger] list[i]@ == n)
}

/// The filter decision over the name, the flag and the two name sets.
pub open spec fn ignored(
    name: Seq<char>,
    show_all: bool,
    ignores: Set<Seq<char>>,
    includes: Set<Seq<char>>,
) -> bool {
    if ignores.contains(name) {
        true
    } else if show_all {
        false
    } else {
        default_ignored(name) && !includes.contains(name)
    }
}

/// Whether `name` is on the built-in list.
pub fn is_default_ignored(name: &str) -> (r: bool)
    ensures
        r == default_ignored(name@),
{
    str_eq(name, ".git")
        || str_eq(name, ".hg")
        || str_eq(name, ".svn")
        || str_eq(name, ".DS_Store")
        || str_eq(name, "node_modules")
        || str_eq(name, "target")
        || str_eq(name, "dist")
        || str_eq(name, "build")
        || str_eq(name, ".cache")
        || str_eq(name, ".next")
        || str_eq(name, ".turbo")
        || str_eq(name, ".vercel")
        || str_eq(name, ".idea")
        || str_eq(name, ".vscode")
        || str_eq(name, "venv")
        || str_eq(name, "__pycache__")
        || str_eq(name, ".pytest_cache")
        || str_eq(name, ".mypy_cache")
        || str_eq(name, ".tox")
        || str_eq(name, "out")
        || str_eq(name, "coverage")
        || str_eq(name, ".parcel-cache")
}

/// Whether `list` holds `name`.
pub fn contains_name(list: &[String], name: &str) -> (r: bool)
    ensures
        r == names_of(list@).contains(name@),
{
    let mut i: usize = 0;
    while i < list.len()
        invariant
            i <= list.len(),
            forall|k: int| 0 <= k < i ==> list@[k]@ != name@,
        decreases list.len() - i,
    {
        if str_eq(list[i].as_str(), name) {
            return true;
        }
        i += 1;
    }
    false
}

/// Whether the entry called `name` is left out of the tree.
pub fn is_ignored(
    name: &str,
    show_all: bool,
    custom_ignores: &[String],
    force_includes: &[String],
) -> (r: bool)
    ensures
        r == ignored(name@, show_all, names_of(custom_ignores@), names_of(force_includes@)),
{
    if contains_name(custom_ignores, name) {
        return true;
    }
    if show_all {
        return false;
    }
    if is_default_ignored(name) {
        !contains_name(force_includes, name)
    } else {
        false
    }
}

/// A name on the ignore list is left out, whatever the flag and the include
/// list say.
pub proof fn lemma_custom_ignore_wins(
    name: Seq<char>,
    show_all: bool,
    ignores: Set<Seq<char>>,
    includes: Set<Seq<char>>,
)
    requires
        ignores.contains(name),
    ensures
        ignored(name, show_all, ignores, includes),
{
}

/// With `show_all`, exactly the names on the ignore list are left out: the
/// built-in list and the include list play no part.
pub proof fn lemma_show_all_keeps_custom_only(
    name: Seq<char>,
    ignores: Set<Seq<char>>,
    includes: Set<Seq<char>>,
)
    ensures
        ignored(name, true, ignores, includes) == ignores.contains(name),
{
}

/// The include list matters only for a name that the built-in list would
/// leave out: for every other name the decision is the same with any two
/// include lists, and a name that is shown without the include list is shown
/// with it.
pub proof fn lemma_include_rescues_defaults_only(
    name: Seq<char>,
    show_all: bool,
    ignores: Set<Seq<char>>,
    includes: Set<Seq<char>>,
    other: Set<Seq<char>>,
)
    ensures
        !default_ignored(name) || show_all || ignores.contains(name) ==> ignored(
            name,
            show_all,
            ignores,
            includes,
        ) == ignored(name, show_all, ignores, other),
        !ignored(name, show_all, ignores, Set::empty()) ==> !ignored(
            name,
            show_all,
            ignores,
            includes,
        ),
        default_ignored(name) && !show_all && !ignores.contains(name) ==> ignored(
            name,
            show_all,
            ignores,
            includes,
        ) == !includes.contains(name),
{
}

/// A name that no rule mentions is shown.
pub proof fn lemma_plain_name_is_shown(
    name: Seq<char>,
    show_all: bool,
    ignores: Set<Seq<char>>,
    includes: Set<Seq<char>>,
)
    requires
        !ignores.contains(name),
        !default_ignored(name),
    ensures
        !ignored(name, show_all, ignores, includes),
{
}

} // verus!
