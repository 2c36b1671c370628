//! The parts of the `ignore` crate that the key filter calls, with the
//! contracts this library relies on. Builders and matchers are modelled by
//! the globs and type selections they hold; whether one glob or one type
//! matches a path is named, and how the matchers combine those answers is
//! stated.
use std::path::Path;

use ignore::overrides::{Override, OverrideBuilder};
use ignore::types::{Types, TypesBuilder};
use ignore::Match;
use vstd::prelude::*;

verus! {

/// `ignore::overrides::OverrideBuilder`.
#[verifier::external_type_specification]
#[verifier::external_body]
pub struct OverrideBuilderDecl(OverrideBuilder);

/// `ignore::overrides::Override`.
#[verifier::external_type_specification]
#[verifier::external_body]
pub struct OverrideDecl(Override);

/// `ignore::types::TypesBuilder`.
#[verifier::external_type_specification]
#[verifier::external_body]
pub struct TypesBuilderDecl(TypesBuilder);

/// `ignore::types::Types`.
#[verifier::external_type_specification]
#[verifier::external_body]
pub struct TypesDecl(Types);

/// `ignore::Error`.
#[verifier::external_type_specification]
#[verifier::external_body]
pub struct IgnoreErrorDecl(ignore::Error);

/// How a glob matcher classified a path (`ignore::Match` without its glob).
#[derive(Clone, Copy, Debug, PartialEq, Eq, Structural)]
pub enum GlobMatch {
    /// No glob matched.
    Unmatched,
    /// The highest-precedence match says to leave the path out.
    Ignored,
    /// The highest-precedence match says to keep the path.
    Whitelisted,
}

/// The directory an override builder matches relative to.
pub uninterp spec fn override_builder_root(b: OverrideBuilder) -> Seq<char>;

/// The globs an override builder has recorded, in order, each as its line
/// was kept (see `kept_glob`).
pub uninterp spec fn override_builder_globs(b: OverrideBuilder) -> Seq<Seq<char>>;

/// The directory an override matcher matches relative to.
pub uninterp spec fn override_root(o: Override) -> Seq<char>;

/// The globs an override matcher holds, in order.
pub uninterp spec fn override_globs(o: Override) -> Seq<Seq<char>>;

/// Whether `OverrideBuilder::add` (on a builder from `OverrideBuilder::new`)
/// parses this kept glob.
pub uninterp spec fn override_glob_accepted(glob: Seq<char>) -> bool;

/// Whether `OverrideBuilder::build` builds a glob set from these globs.
pub uninterp spec fn override_set_builds(globs: Seq<Seq<char>>) -> bool;

/// Whether the override glob `glob`, matched relative to `root`, matches the
/// file path `path` (a glob ending in `/` matches directories only, so never
/// here).
pub uninterp spec fn override_glob_hits(root: Seq<char>, glob: Seq<char>, path: Seq<char>) -> bool;

/// Unicode `White_Space`, the whitespace that `str::trim_end` removes.
pub open spec fn is_white_space(c: char) -> bool {
    let u = c as u32;
    ||| 0x09 <= u <= 0x0D
    ||| u == 0x20
    ||| u == 0x85
    ||| u == 0xA0
    ||| u == 0x1680
    ||| 0x2000 <= u <= 0x200A
    ||| u == 0x2028
    ||| u == 0x2029
    ||| u == 0x202F
    ||| u == 0x205F
    ||| u == 0x3000
}

/// `line` with trailing whitespace removed.
pub open spec fn trim_end(line: Seq<char>) -> Seq<char>
    decreases line.len(),
{
    if line.len() > 0 && is_white_space(line.last()) {
        trim_end(line.drop_last())
    } else {
        line
    }
}

/// What `OverrideBuilder::add` records of a line: nothing for a comment (a
/// line starting with `#`) or a line that is blank once trailing whitespace
/// is trimmed (trimming is skipped for a line ending in an escaped space);
/// else the trimmed line.
pub open spec fn kept_glob(line: Seq<char>) -> Option<Seq<char>> {
    if line.len() > 0 && line[0] == '#' {
        None
    } else {
        let escaped_space = line.len() >= 2 && line[line.len() - 2] == '\\' && line.last() == ' ';
        let t = if escaped_space {
            line
        } else {
            trim_end(line)
        };
        if t.len() == 0 {
            None
        } else {
            Some(t)
        }
    }
}

/// A glob that ignores what it matches in an override set: one starting with
/// `!`.
pub open spec fn is_negated_glob(glob: Seq<char>) -> bool {
    glob.len() > 0 && glob[0] == '!'
}

/// How many of `globs` are negated.
pub open spec fn negated_count(globs: Seq<Seq<char>>) -> nat
    decreases globs.len(),
{
    if globs.len() == 0 {
        0
    } else {
        negated_count(globs.drop_last()) + if is_negated_glob(globs.last()) {
            1nat
        } else {
            0nat
        }
    }
}

/// Index of the last of `globs` that matches `path`, or -1.
pub open spec fn last_glob_hit(root: Seq<char>, globs: Seq<Seq<char>>, path: Seq<char>) -> int
    decreases globs.len(),
{
    if globs.len() == 0 {
        -1
    } else if override_glob_hits(root, globs.last(), path) {
        globs.len() - 1
    } else {
        last_glob_hit(root, globs.drop_last(), path)
    }
}

/// What `Override::matched(path, false)` answers: nothing for no globs; else
/// the last matching glob decides (a negated one ignores, another
/// whitelists); with no match, the path is ignored when some glob
/// whitelists, and unmatched otherwise.
pub open spec fn override_verdict(root: Seq<char>, globs: Seq<Seq<char>>, path: Seq<char>) -> GlobMatch {
    let i = last_glob_hit(root, globs, path);
    if globs.len() == 0 {
        GlobMatch::Unmatched
    } else if i >= 0 {
        if is_negated_glob(globs[i]) {
            GlobMatch::Ignored
        } else {
            GlobMatch::Whitelisted
        }
    } else if negated_count(globs) < globs.len() {
        GlobMatch::Ignored
    } else {
        GlobMatch::Unmatched
    }
}

/// The selections a types builder holds, in order: `(true, name)` selects
/// type `name`, `(false, name)` negates it.
pub uninterp spec fn types_builder_selections(b: TypesBuilder) -> Seq<(bool, Seq<char>)>;

/// Whether the built-in type definitions were added to a types builder.
pub uninterp spec fn types_builder_defaults(b: TypesBuilder) -> bool;

/// The names of the types a types builder defines.
pub uninterp spec fn types_builder_names(b: TypesBuilder) -> Set<Seq<char>>;

/// The type names defined once the built-in definitions are added to a
/// builder that defines `names`.
pub uninterp spec fn with_default_type_names(names: Set<Seq<char>>) -> Set<Seq<char>>;

/// The selections a types matcher was built from.
pub uninterp spec fn types_selections(t: Types) -> Seq<(bool, Seq<char>)>;

/// Whether a types matcher was built with the built-in definitions.
pub uninterp spec fn types_defaults(t: Types) -> bool;

/// Whether `TypesBuilder::build` succeeds for these definitions and selections.
pub uninterp spec fn type_selections_build(defaults: bool, selections: Seq<(bool, Seq<char>)>) -> bool;

/// Whether some glob of type `name` (from the built-in definitions when
/// `defaults`) matches the file name of `path`; false when the path has no
/// file name.
pub uninterp spec fn type_hits(defaults: bool, name: Seq<char>, path: Seq<char>) -> bool;

/// What one `select(name)` (`polarity` true) or `negate(name)` call appends
/// to the selections: for `all`, one selection per defined type name, each
/// once, in an order the source leaves open; else the one selection.
pub open spec fn selection_block(
    block: Seq<(bool, Seq<char>)>,
    polarity: bool,
    name: Seq<char>,
    names: Set<Seq<char>>,
) -> bool {
    if name == "all"@ {
        &&& forall|i: int| 0 <= i < block.len() ==> (#[trigger] block[i]).0 == polarity
        &&& block.map_values(|s: (bool, Seq<char>)| s.1).no_duplicates()
        &&& block.map_values(|s: (bool, Seq<char>)| s.1).to_set() == names
    } else {
        block == seq![(polarity, name)]
    }
}

/// Index of the last selection whose type matches `path`, or -1.
pub open spec fn last_type_hit(defaults: bool, selections: Seq<(bool, Seq<char>)>, path: Seq<char>) -> int
    decreases selections.len(),
{
    if selections.len() == 0 {
        -1
    } else if type_hits(defaults, selections.last().1, path) {
        selections.len() - 1
    } else {
        last_type_hit(defaults, selections.drop_last(), path)
    }
}

/// Some selection selects (rather than negates).
pub open spec fn has_selected(selections: Seq<(bool, Seq<char>)>) -> bool {
    exists|i: int| 0 <= i < selections.len() && (#[trigger] selections[i]).0
}

/// What `Types::matched(path, false)` answers: the last selection whose type
/// matches decides (selected whitelists, negated ignores); with no match,
/// the path is ignored when some type was selected, and unmatched otherwise.
pub open spec fn type_verdict(defaults: bool, selections: Seq<(bool, Seq<char>)>, path: Seq<char>) -> GlobMatch {
    let i = last_type_hit(defaults, selections, path);
    if i >= 0 {
        if selections[i].0 {
            GlobMatch::Whitelisted
        } else {
            GlobMatch::Ignored
        }
    } else if has_selected(selections) {
        GlobMatch::Ignored
    } else {
        GlobMatch::Unmatched
    }
}

/// `OverrideBuilder::new(root)`: an empty builder matching relative to
/// `root`. (A leading `./` would be stripped from the root; roots starting
/// with `.` are left out.)
#[verifier::external_body]
pub(crate) fn override_builder_new(root: &str) -> (b: OverrideBuilder)
    requires
        root@.len() == 0 || root@[0] != '.',
    ensures
        override_builder_root(b) == root@,
        override_builder_globs(b) == Seq::<Seq<char>>::empty(),
{
    OverrideBuilder::new(root)
}

/// `OverrideBuilder::add(line)`: a comment or blank line is accepted and
/// recorded as nothing; another line is accepted exactly when its kept glob
/// parses, and then that glob is recorded. On failure nothing changes.
#[verifier::external_body]
pub(crate) fn override_builder_add(b: &mut OverrideBuilder, line: &str) -> (r: Result<(), ignore::Error>)
    ensures
        r is Ok <==> match kept_glob(line@) {
            Some(g) => override_glob_accepted(g),
            None => true,
        },
        override_builder_root(*final(b)) == override_builder_root(*old(b)),
        override_builder_globs(*final(b)) == match (r, kept_glob(line@)) {
            (Ok(_), Some(g)) => override_builder_globs(*old(b)).push(g),
            _ => override_builder_globs(*old(b)),
        },
{
    match b.add(line) {
        Ok(_) => Ok(()),
        Err(e) => Err(e),
    }
}

/// `OverrideBuilder::build()`: with no globs recorded it returns the empty
/// matcher (no root, no globs); else it succeeds exactly when the globs build
/// into a glob set, and the matcher keeps the builder's root and globs.
#[verifier::external_body]
pub(crate) fn override_builder_build(b: &OverrideBuilder) -> (r: Result<Override, ignore::Error>)
    ensures
        r is Ok <==> override_set_builds(override_builder_globs(*b)),
        override_builder_globs(*b).len() == 0 ==> r is Ok,
        r matches Ok(o) ==> {
            &&& override_globs(o) == override_builder_globs(*b)
            &&& override_root(o) == if override_builder_globs(*b).len() == 0 {
                Seq::<char>::empty()
            } else {
                override_builder_root(*b)
            }
        },
{
    b.build()
}

/// `Override::matched(Path::new(key), false)`, by its variant.
#[verifier::external_body]
pub(crate) fn override_matched(o: &Override, key: &str) -> (m: GlobMatch)
    ensures
        m == override_verdict(override_root(*o), override_globs(*o), key@),
        m == GlobMatch::Whitelisted ==> exists|i: int|
            0 <= i < override_globs(*o).len() && override_glob_hits(
                override_root(*o),
                #[trigger] override_globs(*o)[i],
                key@,
            ),
{
    match o.matched(Path::new(key), false) {
        Match::None => GlobMatch::Unmatched,
        Match::Ignore(_) => GlobMatch::Ignored,
        Match::Whitelist(_) => GlobMatch::Whitelisted,
    }
}

/// `Override::num_ignores()`: the negated globs.
#[verifier::external_body]
pub(crate) fn override_num_ignores(o: &Override) -> (n: u64)
    ensures
        n == negated_count(override_globs(*o)),
{
    o.num_ignores()
}

/// `Override::num_whitelists()`: the globs that are not negated.
#[verifier::external_body]
pub(crate) fn override_num_whitelists(o: &Override) -> (n: u64)
    ensures
        n == override_globs(*o).len() - negated_count(override_globs(*o)),
{
    o.num_whitelists()
}

/// `TypesBuilder::new()`: no definitions and no selections.
#[verifier::external_body]
pub(crate) fn types_builder_new() -> (b: TypesBuilder)
    ensures
        types_builder_selections(b) == Seq::<(bool, Seq<char>)>::empty(),
        !types_builder_defaults(b),
        types_builder_names(b) == Set::<Seq<char>>::empty(),
{
    TypesBuilder::new()
}

/// `TypesBuilder::add_defaults()`: adds the built-in definitions, leaving the
/// selections as they were.
#[verifier::external_body]
pub(crate) fn types_builder_add_defaults(b: &mut TypesBuilder)
    ensures
        types_builder_defaults(*final(b)),
        types_builder_names(*final(b)) == with_default_type_names(types_builder_names(*old(b))),
        types_builder_selections(*final(b)) == types_builder_selections(*old(b)),
{
    b.add_defaults();
}

/// `TypesBuilder::select(name)`: appends the selections `selection_block`
/// describes; the definitions stay.
#[verifier::external_body]
pub(crate) fn types_builder_select(b: &mut TypesBuilder, name: &str)
    ensures
        types_builder_defaults(*final(b)) == types_builder_defaults(*old(b)),
        types_builder_names(*final(b)) == types_builder_names(*old(b)),
        types_builder_selections(*old(b)).len() <= types_builder_selections(*final(b)).len(),
        types_builder_selections(*final(b)).take(types_builder_selections(*old(b)).len() as int)
            == types_builder_selections(*old(b)),
        selection_block(
            types_builder_selections(*final(b)).skip(types_builder_selections(*old(b)).len() as int),
            true,
            name@,
            types_builder_names(*old(b)),
        ),
{
    b.select(name);
}

/// `TypesBuilder::negate(name)`: appends the negations `selection_block`
/// describes; the definitions stay.
#[verifier::external_body]
pub(crate) fn types_builder_negate(b: &mut TypesBuilder, name: &str)
    ensures
        types_builder_defaults(*final(b)) == types_builder_defaults(*old(b)),
        types_builder_names(*final(b)) == types_builder_names(*old(b)),
        types_builder_selections(*old(b)).len() <= types_builder_selections(*final(b)).len(),
        types_builder_selections(*final(b)).take(types_builder_selections(*old(b)).len() as int)
            == types_builder_selections(*old(b)),
        selection_block(
            types_builder_selections(*final(b)).skip(types_builder_selections(*old(b)).len() as int),
            false,
            name@,
            types_builder_names(*old(b)),
        ),
{
    b.negate(name);
}

/// `TypesBuilder::build()`: succeeds exactly when the definitions and
/// selections build, and fails in any case when a selection names a type
/// the builder does not define; the matcher keeps both.
#[verifier::external_body]
pub(crate) fn types_builder_build(b: &TypesBuilder) -> (r: Result<Types, ignore::Error>)
    ensures
        r is Ok <==> type_selections_build(types_builder_defaults(*b), types_builder_selections(*b)),
        (exists|i: int|
            0 <= i < types_builder_selections(*b).len() && !types_builder_names(*b).contains(
                (#[trigger] types_builder_selections(*b)[i]).1,
            )) ==> r is Err,
        r matches Ok(t) ==> types_selections(t) == types_builder_selections(*b) && types_defaults(t)
            == types_builder_defaults(*b),
{
    b.build()
}

/// `Types::matched(Path::new(key), false)`, by its variant.
#[verifier::external_body]
pub(crate) fn types_matched(t: &Types, key: &str) -> (m: GlobMatch)
    ensures
        m == type_verdict(types_defaults(*t), types_selections(*t), key@),
        m == GlobMatch::Whitelisted ==> exists|i: int|
            0 <= i < types_selections(*t).len() && type_hits(
                types_defaults(*t),
                (#[trigger] types_selections(*t)[i]).1,
                key@,
            ),
{
    match t.matched(Path::new(key), false) {
        Match::None => GlobMatch::Unmatched,
        Match::Ignore(_) => GlobMatch::Ignored,
        Match::Whitelist(_) => GlobMatch::Whitelisted,
    }
}

} // verus!
