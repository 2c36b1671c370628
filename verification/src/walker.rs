//! Key filtering and selection for an object listing.
use ignore::overrides::Override;
use ignore::types::Types;
use vstd::prelude::*;

use crate::ignore_glue as glue;
use crate::key_order::{key_le_exec, lemma_bytes_le_total, lemma_bytes_le_transitive};
use crate::key_order as order;
use crate::ignore_glue::{
    override_builder_add, override_builder_build, override_builder_new, override_matched,
    override_num_ignores, override_num_whitelists, types_builder_add_defaults, types_builder_build,
    types_builder_negate, types_builder_new, types_builder_select, types_matched, GlobMatch,
};

verus! {

/// The views of a sequence of strings.
pub open spec fn views(v: Seq<String>) -> Seq<Seq<char>> {
    v.map_values(|s: String| s@)
}

/// The root override globs are matched relative to: `/`, so that globs apply
/// to the whole key.
pub open spec fn glob_root() -> Seq<char> {
    seq!['/']
}

/// The type requests of `--type` names followed by `--type-not` names:
/// `(true, name)` to select, `(false, name)` to negate.
pub open spec fn type_requests(types: Seq<Seq<char>>, types_not: Seq<Seq<char>>) -> Seq<(bool, Seq<char>)> {
    types.map_values(|t: Seq<char>| (true, t)) + types_not.map_values(|t: Seq<char>| (false, t))
}

/// `OverrideBuilder::add` accepts the glob line.
pub open spec fn line_accepted(line: Seq<char>) -> bool {
    match glue::kept_glob(line) {
        Some(g) => glue::override_glob_accepted(g),
        None => true,
    }
}

/// Every glob line before index `n` is accepted.
pub open spec fn lines_accepted_before(lines: Seq<Seq<char>>, n: int) -> bool {
    forall|i: int| 0 <= i < n ==> line_accepted(#[trigger] lines[i])
}

/// The globs kept of glob lines, in order.
pub open spec fn kept_globs(lines: Seq<Seq<char>>) -> Seq<Seq<char>>
    decreases lines.len(),
{
    if lines.len() == 0 {
        Seq::empty()
    } else {
        let before = kept_globs(lines.drop_last());
        match glue::kept_glob(lines.last()) {
            Some(g) => before.push(g),
            None => before,
        }
    }
}

/// The glob part of a filter builds: there are no glob lines, or every one
/// is accepted and the kept globs build together.
pub open spec fn globs_build(lines: Seq<Seq<char>>) -> bool {
    lines.len() == 0 || (lines_accepted_before(lines, lines.len() as int)
        && glue::override_set_builds(kept_globs(lines)))
}

/// `selections` is what the type requests expand to, given the defined type
/// names: one block per request, in order (see `selection_block`).
pub open spec fn expands_to(
    requests: Seq<(bool, Seq<char>)>,
    selections: Seq<(bool, Seq<char>)>,
    names: Set<Seq<char>>,
) -> bool {
    exists|blocks: Seq<Seq<(bool, Seq<char>)>>|
        #![trigger blocks.flatten()]
        blocks.len() == requests.len() && blocks.flatten() == selections && forall|i: int|
            0 <= i < blocks.len() ==> glue::selection_block(
                #[trigger] blocks[i],
                requests[i].0,
                requests[i].1,
                names,
            )
}

/// The names of the built-in file types.
pub open spec fn default_type_names() -> Set<Seq<char>> {
    glue::with_default_type_names(Set::empty())
}

/// Some type a request stands for matches `key`: for `all`, some type of
/// `names`; else the named type.
pub open spec fn request_hits(names: Set<Seq<char>>, request: (bool, Seq<char>), key: Seq<char>) -> bool {
    if request.1 == "all"@ {
        exists|n: Seq<char>| names.contains(n) && #[trigger] glue::type_hits(true, n, key)
    } else {
        glue::type_hits(true, request.1, key)
    }
}

/// A request selects some type: it selects rather than negates, and for
/// `all`, some type is defined.
pub open spec fn request_selects(names: Set<Seq<char>>, request: (bool, Seq<char>)) -> bool {
    request.0 && (request.1 == "all"@ ==> names != Set::<Seq<char>>::empty())
}

/// Index of the last request some type of which matches `key`, or -1.
pub open spec fn last_request_hit(
    names: Set<Seq<char>>,
    requests: Seq<(bool, Seq<char>)>,
    key: Seq<char>,
) -> int
    decreases requests.len(),
{
    if requests.len() == 0 {
        -1
    } else if request_hits(names, requests.last(), key) {
        requests.len() - 1
    } else {
        last_request_hit(names, requests.drop_last(), key)
    }
}

/// Some request selects some type.
pub open spec fn some_request_selects(names: Set<Seq<char>>, requests: Seq<(bool, Seq<char>)>) -> bool {
    exists|i: int| 0 <= i < requests.len() && request_selects(names, #[trigger] requests[i])
}

/// How type requests classify `key`, given the defined type names: the last
/// request that matches decides (a selection whitelists, a negation
/// ignores); with no match, the key is ignored when some type was selected,
/// and unmatched otherwise.
pub open spec fn requests_verdict(
    names: Set<Seq<char>>,
    requests: Seq<(bool, Seq<char>)>,
    key: Seq<char>,
) -> GlobMatch {
    let i = last_request_hit(names, requests, key);
    if i >= 0 {
        if requests[i].0 {
            GlobMatch::Whitelisted
        } else {
            GlobMatch::Ignored
        }
    } else if some_request_selects(names, requests) {
        GlobMatch::Ignored
    } else {
        GlobMatch::Unmatched
    }
}

/// The last matching selection is a match, and no later selection matches.
proof fn lemma_last_type_hit_spec(s: Seq<(bool, Seq<char>)>, key: Seq<char>)
    ensures
        -1 <= glue::last_type_hit(true, s, key) < s.len(),
        glue::last_type_hit(true, s, key) >= 0 ==> glue::type_hits(
            true,
            s[glue::last_type_hit(true, s, key)].1,
            key,
        ),
        forall|j: int|
            glue::last_type_hit(true, s, key) < j < s.len() ==> !glue::type_hits(
                true,
                (#[trigger] s[j]).1,
                key,
            ),
    decreases s.len(),
{
    if s.len() > 0 && !glue::type_hits(true, s.last().1, key) {
        let init = s.drop_last();
        lemma_last_type_hit_spec(init, key);
        assert forall|j: int| glue::last_type_hit(true, s, key) < j < s.len() implies !glue::type_hits(
            true,
            (#[trigger] s[j]).1,
            key,
        ) by {
            if j < s.len() - 1 {
                assert(s[j] == init[j]);
            }
        }
        if glue::last_type_hit(true, s, key) >= 0 {
            assert(s[glue::last_type_hit(true, s, key)] == init[glue::last_type_hit(true, s, key)]);
        }
    }
}

/// What one request's block of selections says of `key`: every selection
/// has the request's polarity, some selection matches exactly when the
/// request does, and some selection selects exactly when the request does.
proof fn lemma_block_of_request(
    block: Seq<(bool, Seq<char>)>,
    request: (bool, Seq<char>),
    names: Set<Seq<char>>,
    key: Seq<char>,
)
    requires
        glue::selection_block(block, request.0, request.1, names),
    ensures
        forall|j: int| 0 <= j < block.len() ==> (#[trigger] block[j]).0 == request.0,
        (exists|j: int| 0 <= j < block.len() && glue::type_hits(true, (#[trigger] block[j]).1, key))
            == request_hits(names, request, key),
        (exists|j: int| 0 <= j < block.len() && (#[trigger] block[j]).0) == request_selects(
            names,
            request,
        ),
{
    if request.1 == "all"@ {
        let ns = block.map_values(|s: (bool, Seq<char>)| s.1);
        assert(ns.to_set() == names);
        if exists|j: int| 0 <= j < block.len() && glue::type_hits(true, (#[trigger] block[j]).1, key) {
            let j = choose|j: int| 0 <= j < block.len() && glue::type_hits(true, (#[trigger] block[j]).1, key);
            assert(ns[j] == block[j].1);
            assert(ns.contains(ns[j]));
            assert(names.contains(block[j].1));
        }
        if request_hits(names, request, key) {
            let n = choose|n: Seq<char>| names.contains(n) && #[trigger] glue::type_hits(true, n, key);
            assert(ns.to_set().contains(n));
            let j = choose|j: int| 0 <= j < ns.len() && ns[j] == n;
            assert(block[j].1 == n);
        }
        if block.len() > 0 {
            assert(ns.contains(ns[0]));
            assert(names.contains(ns[0]));
            assert(!Set::<Seq<char>>::empty().contains(ns[0]));
        } else {
            assert(ns.len() == 0);
            assert(names =~= Set::<Seq<char>>::empty());
        }
    } else {
        assert(block == seq![(request.0, request.1)]);
        assert(block[0] == request);
    }
}

/// The selections a list of requests expands to classify every key as the
/// requests do, whatever order each `all` came out in.
pub proof fn lemma_expansion_verdict(
    requests: Seq<(bool, Seq<char>)>,
    selections: Seq<(bool, Seq<char>)>,
    names: Set<Seq<char>>,
    key: Seq<char>,
)
    requires
        expands_to(requests, selections, names),
    ensures
        glue::type_verdict(true, selections, key) == requests_verdict(names, requests, key),
{
    let blocks = choose|blocks: Seq<Seq<(bool, Seq<char>)>>|
        #![trigger blocks.flatten()]
        blocks.len() == requests.len() && blocks.flatten() == selections && forall|i: int|
            0 <= i < blocks.len() ==> glue::selection_block(
                #[trigger] blocks[i],
                requests[i].0,
                requests[i].1,
                names,
            );
    lemma_blocks_verdict(requests, blocks, names, key);
}

proof fn lemma_blocks_verdict(
    requests: Seq<(bool, Seq<char>)>,
    blocks: Seq<Seq<(bool, Seq<char>)>>,
    names: Set<Seq<char>>,
    key: Seq<char>,
)
    requires
        blocks.len() == requests.len(),
        forall|i: int|
            0 <= i < blocks.len() ==> glue::selection_block(
                #[trigger] blocks[i],
                requests[i].0,
                requests[i].1,
                names,
            ),
    ensures
        (glue::last_type_hit(true, blocks.flatten(), key) >= 0) == (last_request_hit(names, requests, key)
            >= 0),
        last_request_hit(names, requests, key) >= 0 ==> blocks.flatten()[glue::last_type_hit(
            true,
            blocks.flatten(),
            key,
        )].0 == requests[last_request_hit(names, requests, key)].0,
        glue::has_selected(blocks.flatten()) == some_request_selects(names, requests),
    decreases requests.len(),
{
    let sel = blocks.flatten();
    if requests.len() == 0 {
        assert(sel =~= Seq::<(bool, Seq<char>)>::empty());
    } else {
        let rs = requests.drop_last();
        let bs = blocks.drop_last();
        let rq = requests.last();
        let b = blocks.last();
        assert forall|i: int| 0 <= i < bs.len() implies glue::selection_block(
            #[trigger] bs[i],
            rs[i].0,
            rs[i].1,
            names,
        ) by {
            assert(bs[i] == blocks[i] && rs[i] == requests[i]);
        }
        lemma_blocks_verdict(rs, bs, names, key);
        assert(blocks == bs.push(b));
        lemma_flatten_push(bs, b);
        let s = bs.flatten();
        assert(sel == s + b);
        assert(glue::selection_block(b, rq.0, rq.1, names));
        lemma_block_of_request(b, rq, names, key);
        lemma_last_type_hit_spec(sel, key);
        lemma_last_type_hit_spec(s, key);
        let i = glue::last_type_hit(true, sel, key);
        let i0 = glue::last_type_hit(true, s, key);
        if request_hits(names, rq, key) {
            let j = choose|j: int| 0 <= j < b.len() && glue::type_hits(true, (#[trigger] b[j]).1, key);
            assert(sel[s.len() + j] == b[j]);
            assert(i >= s.len() + j);
            assert(sel[i] == b[i - s.len()]);
        } else {
            if i >= s.len() {
                assert(sel[i] == b[i - s.len()]);
            }
            assert(i < s.len());
            assert forall|k: int| i < k < s.len() implies !glue::type_hits(true, (#[trigger] s[k]).1, key) by {
                assert(sel[k] == s[k]);
            }
            if i >= 0 {
                assert(sel[i] == s[i]);
            }
            if i0 > i {
                assert(sel[i0] == s[i0]);
            }
            if i > i0 {
                assert(sel[i] == s[i]);
            }
            assert(i == i0);
            if i >= 0 {
                assert(sel[i] == s[i]);
            }
            assert(last_request_hit(names, requests, key) == last_request_hit(names, rs, key));
            lemma_last_request_hit_range(names, rs, key);
            if last_request_hit(names, rs, key) >= 0 {
                assert(requests[last_request_hit(names, rs, key)] == rs[last_request_hit(names, rs, key)]);
            }
        }
        if glue::has_selected(sel) {
            let k = choose|k: int| 0 <= k < sel.len() && (#[trigger] sel[k]).0;
            if k < s.len() {
                assert(sel[k] == s[k]);
                let m = choose|m: int| 0 <= m < rs.len() && request_selects(names, #[trigger] rs[m]);
                assert(requests[m] == rs[m]);
            } else {
                assert(sel[k] == b[k - s.len()]);
                assert(requests[requests.len() - 1] == rq);
            }
        }
        if some_request_selects(names, requests) {
            let m = choose|m: int| 0 <= m < requests.len() && request_selects(names, #[trigger] requests[m]);
            if m < rs.len() {
                assert(rs[m] == requests[m]);
                let k = choose|k: int| 0 <= k < s.len() && (#[trigger] s[k]).0;
                assert(sel[k] == s[k]);
            } else {
                let k = choose|k: int| 0 <= k < b.len() && (#[trigger] b[k]).0;
                assert(sel[s.len() + k] == b[k]);
            }
        }
    }
}

/// What a key filter decides by: its kept globs, whether it has a type part,
/// that part's type requests, and whether any type was selected.
pub struct FilterModel {
    pub globs: Seq<Seq<char>>,
    pub types_present: bool,
    pub requests: Seq<(bool, Seq<char>)>,
    pub has_positive_types: bool,
}

impl FilterModel {
    /// The filter built from `--glob` lines and `--type` / `--type-not` names.
    pub open spec fn of(lines: Seq<Seq<char>>, types: Seq<Seq<char>>, types_not: Seq<Seq<char>>) -> FilterModel {
        FilterModel {
            globs: kept_globs(lines),
            types_present: types.len() > 0 || types_not.len() > 0,
            requests: type_requests(types, types_not),
            has_positive_types: types.len() > 0,
        }
    }

    /// The globs let `key` through: always when there are none; else the key
    /// is not ignored, and when some glob whitelists, it is whitelisted.
    pub open spec fn globs_admit(self, key: Seq<char>) -> bool {
        self.globs.len() > 0 ==> {
            let m = glue::override_verdict(glob_root(), self.globs, key);
            &&& m != GlobMatch::Ignored
            &&& glue::negated_count(self.globs) < self.globs.len() ==> m == GlobMatch::Whitelisted
        }
    }

    /// The type part lets `key` through: always when there is none; else the
    /// key is not ignored, and when a type was selected, it is whitelisted.
    pub open spec fn types_admit(self, key: Seq<char>) -> bool {
        self.types_present ==> {
            let m = requests_verdict(default_type_names(), self.requests, key);
            &&& m != GlobMatch::Ignored
            &&& self.has_positive_types ==> m == GlobMatch::Whitelisted
        }
    }

    /// The filter lets `key` through.
    pub open spec fn admits(self, key: Seq<char>) -> bool {
        self.globs_admit(key) && self.types_admit(key)
    }
}

/// Why a key filter could not be built.
#[derive(Debug)]
pub enum FilterError {
    /// The glob line at `index` was rejected.
    InvalidGlob { index: usize, source: ignore::Error },
    /// The glob lines were each accepted but do not build together.
    GlobSet { source: ignore::Error },
    /// The type selections do not build, as for an unknown type name.
    Types { source: ignore::Error },
}

/// At most as many globs are kept as there are lines.
pub proof fn lemma_kept_globs_len(lines: Seq<Seq<char>>)
    ensures
        kept_globs(lines).len() <= lines.len(),
    decreases lines.len(),
{
    if lines.len() > 0 {
        lemma_kept_globs_len(lines.drop_last());
    }
}

/// At most all globs are negated.
pub proof fn lemma_negated_count_bound(globs: Seq<Seq<char>>)
    ensures
        glue::negated_count(globs) <= globs.len(),
    decreases globs.len(),
{
    if globs.len() > 0 {
        lemma_negated_count_bound(globs.drop_last());
    }
}

/// Some selection is of type `name`.
pub open spec fn named_in(selections: Seq<(bool, Seq<char>)>, name: Seq<char>) -> bool {
    exists|m: int| 0 <= m < selections.len() && (#[trigger] selections[m]).1 == name
}

/// Appending a request's block keeps the types named before, and names the
/// request's type unless it is `all`.
proof fn lemma_named_in_grows(
    before: Seq<(bool, Seq<char>)>,
    block: Seq<(bool, Seq<char>)>,
    request: (bool, Seq<char>),
)
    requires
        request.1 != "all"@ ==> block == seq![request],
    ensures
        forall|n: Seq<char>| named_in(before, n) ==> #[trigger] named_in(before + block, n),
        request.1 != "all"@ ==> named_in(before + block, request.1),
{
    assert forall|n: Seq<char>| named_in(before, n) implies #[trigger] named_in(before + block, n) by {
        let m = choose|m: int| 0 <= m < before.len() && (#[trigger] before[m]).1 == n;
        assert((before + block)[m] == before[m]);
    }
    if request.1 != "all"@ {
        assert((before + block)[before.len() as int] == block[0]);
    }
}

/// Adding one block at the end of an expansion.
proof fn lemma_flatten_push(
    blocks: Seq<Seq<(bool, Seq<char>)>>,
    block: Seq<(bool, Seq<char>)>,
)
    ensures
        blocks.push(block).flatten() == blocks.flatten() + block,
{
    vstd::seq_lib::lemma_flatten_concat(blocks, seq![block]);
    assert(blocks.push(block) =~= blocks + seq![block]);
    let one = seq![block];
    assert(one.drop_first() =~= Seq::<Seq<(bool, Seq<char>)>>::empty());
    assert(one.drop_first().flatten() =~= Seq::<(bool, Seq<char>)>::empty());
    assert(one.first() == block);
    assert(one.flatten() == one.first() + one.drop_first().flatten());
    assert(one.flatten() =~= block);
}

/// Decides which object keys a search visits, from `--glob`, `--type` and
/// `--type-not`. Built once, then asked once per listed key.
pub struct WalkFilter {
    overrides: Option<Override>,
    types: Option<Types>,
    has_positive_types: bool,
    requests: Ghost<Seq<(bool, Seq<char>)>>,
}

impl WalkFilter {
    #[verifier::type_invariant]
    spec fn well_formed(self) -> bool {
        &&& self.overrides matches Some(o) ==> {
            &&& glue::override_globs(o).len() > 0 ==> glue::override_root(o) == glob_root()
            &&& glue::override_globs(o).len() <= usize::MAX
        }
        &&& self.types matches Some(t) ==> {
            &&& glue::types_defaults(t)
            &&& expands_to(self.requests@, glue::types_selections(t), default_type_names())
        }
    }

    /// The filter as a model.
    pub closed spec fn model(&self) -> FilterModel {
        FilterModel {
            globs: match self.overrides {
                Some(o) => glue::override_globs(o),
                None => Seq::empty(),
            },
            types_present: self.types is Some,
            requests: self.requests@,
            has_positive_types: self.has_positive_types,
        }
    }

    /// Builds the filter. Glob lines are added in order, anchored at `/`; the
    /// first rejected line fails the build, then kept globs that do not build
    /// together, then type selections (built-in definitions, `types`
    /// selected, then `types_not` negated, `all` standing for every built-in
    /// type) that do not build, which they never do when a name is neither
    /// `all` nor a built-in type.
    pub fn new(globs: &[String], types: &[String], types_not: &[String]) -> (r: Result<Self, FilterError>)
        ensures
            ({
                let ls = views(globs@);
                let reqs = type_requests(views(types@), views(types_not@));
                let present = types@.len() > 0 || types_not@.len() > 0;
                &&& (r is Ok || r->Err_0 is Types) <==> globs_build(ls)
                &&& r matches Ok(f) ==> f.model() == FilterModel::of(ls, views(types@), views(types_not@))
                &&& r matches Err(FilterError::InvalidGlob { index, .. }) ==> {
                    &&& index < ls.len()
                    &&& lines_accepted_before(ls, index as int)
                    &&& !line_accepted(ls[index as int])
                }
                &&& !lines_accepted_before(ls, ls.len() as int) ==> r is Err && r->Err_0 is InvalidGlob
                &&& (r is Err && r->Err_0 is GlobSet) <==> (ls.len() > 0 && lines_accepted_before(
                    ls,
                    ls.len() as int,
                ) && !glue::override_set_builds(kept_globs(ls)))
                &&& globs_build(ls) && !present ==> r is Ok
                &&& globs_build(ls) && present ==> exists|sels: Seq<(bool, Seq<char>)>|
                    expands_to(reqs, sels, default_type_names()) && (r is Ok
                        <==> glue::type_selections_build(true, sels))
                &&& globs_build(ls) && (exists|k: int|
                    0 <= k < reqs.len() && (#[trigger] reqs[k]).1 != "all"@
                        && !default_type_names().contains(reqs[k].1)) ==> r is Err
            }),
    {
        let ghost ls = views(globs@);
        let overrides = if globs.len() == 0 {
            proof {
                assert(ls =~= Seq::<Seq<char>>::empty());
            }
            None
        } else {
            proof {
                reveal_strlit("/");
            }
            let mut b = override_builder_new("/");
            let mut i: usize = 0;
            while i < globs.len()
                invariant
                    0 <= i <= globs.len(),
                    ls == views(globs@),
                    glue::override_builder_root(b) == glob_root(),
                    glue::override_builder_globs(b) == kept_globs(ls.take(i as int)),
                    lines_accepted_before(ls, i as int),
                decreases globs.len() - i,
            {
                proof {
                    assert(ls.take(i + 1).drop_last() =~= ls.take(i as int));
                    assert(ls.take(i + 1).last() == ls[i as int]);
                    assert(ls[i as int] == globs@[i as int]@);
                }
                match override_builder_add(&mut b, globs[i].as_str()) {
                    Ok(()) => {},
                    Err(source) => {
                        return Err(FilterError::InvalidGlob { index: i, source });
                    },
                }
                i = i + 1;
            }
            proof {
                assert(ls.take(i as int) =~= ls);
                lemma_kept_globs_len(ls);
            }
            match override_builder_build(&b) {
                Ok(o) => Some(o),
                Err(source) => {
                    return Err(FilterError::GlobSet { source });
                },
            }
        };
        let has_positive_types = types.len() > 0;
        let ghost ts = views(types@);
        let ghost tn = views(types_not@);
        let ghost reqs = type_requests(ts, tn);
        let types_matcher = if types.len() == 0 && types_not.len() == 0 {
            None
        } else {
            let mut b = types_builder_new();
            types_builder_add_defaults(&mut b);
            let ghost names = glue::types_builder_names(b);
            let ghost mut blocks: Seq<Seq<(bool, Seq<char>)>> = Seq::empty();
            proof {
                assert(blocks.flatten() =~= Seq::<(bool, Seq<char>)>::empty());
            }
            let mut i: usize = 0;
            while i < types.len()
                invariant
                    0 <= i <= types.len(),
                    ts == views(types@),
                    tn == views(types_not@),
                    reqs == type_requests(ts, tn),
                    glue::types_builder_defaults(b),
                    glue::types_builder_names(b) == names,
                    blocks.len() == i,
                    blocks.flatten() == glue::types_builder_selections(b),
                    forall|k: int|
                        0 <= k < i ==> glue::selection_block(
                            #[trigger] blocks[k],
                            reqs[k].0,
                            reqs[k].1,
                            names,
                        ),
                    forall|k: int|
                        0 <= k < i && (#[trigger] reqs[k]).1 != "all"@ ==> named_in(
                            glue::types_builder_selections(b),
                            reqs[k].1,
                        ),
                decreases types.len() - i,
            {
                let ghost before = glue::types_builder_selections(b);
                types_builder_select(&mut b, types[i].as_str());
                proof {
                    let after = glue::types_builder_selections(b);
                    let block = after.skip(before.len() as int);
                    assert(after =~= before + block);
                    lemma_flatten_push(blocks, block);
                    assert(reqs[i as int] == (true, ts[i as int]));
                    assert(ts[i as int] == types@[i as int]@);
                    blocks = blocks.push(block);
                    lemma_named_in_grows(before, block, reqs[i as int]);
                }
                i = i + 1;
            }
            let mut j: usize = 0;
            while j < types_not.len()
                invariant
                    0 <= j <= types_not.len(),
                    i == types@.len(),
                    ts == views(types@),
                    tn == views(types_not@),
                    reqs == type_requests(ts, tn),
                    glue::types_builder_defaults(b),
                    glue::types_builder_names(b) == names,
                    blocks.len() == i + j,
                    blocks.flatten() == glue::types_builder_selections(b),
                    forall|k: int|
                        0 <= k < i + j ==> glue::selection_block(
                            #[trigger] blocks[k],
                            reqs[k].0,
                            reqs[k].1,
                            names,
                        ),
                    forall|k: int|
                        0 <= k < i + j && (#[trigger] reqs[k]).1 != "all"@ ==> named_in(
                            glue::types_builder_selections(b),
                            reqs[k].1,
                        ),
                decreases types_not.len() - j,
            {
                let ghost before = glue::types_builder_selections(b);
                types_builder_negate(&mut b, types_not[j].as_str());
                proof {
                    let after = glue::types_builder_selections(b);
                    let block = after.skip(before.len() as int);
                    assert(after =~= before + block);
                    lemma_flatten_push(blocks, block);
                    assert(reqs[i + j] == (false, tn[j as int]));
                    assert(tn[j as int] == types_not@[j as int]@);
                    blocks = blocks.push(block);
                    lemma_named_in_grows(before, block, reqs[i + j]);
                }
                j = j + 1;
            }
            let ghost sels = glue::types_builder_selections(b);
            proof {
                assert(blocks.len() == reqs.len());
                assert(names == default_type_names());
                assert(expands_to(reqs, sels, default_type_names()));
                if exists|k: int|
                    0 <= k < reqs.len() && (#[trigger] reqs[k]).1 != "all"@
                        && !default_type_names().contains(reqs[k].1) {
                    let k = choose|k: int|
                        0 <= k < reqs.len() && (#[trigger] reqs[k]).1 != "all"@
                            && !default_type_names().contains(reqs[k].1);
                    let m = choose|m: int| 0 <= m < sels.len() && (#[trigger] sels[m]).1 == reqs[k].1;
                    assert(!glue::types_builder_names(b).contains(sels[m].1));
                }
            }
            match types_builder_build(&b) {
                Ok(t) => Some(t),
                Err(source) => {
                    return Err(FilterError::Types { source });
                },
            }
        };
        let f = WalkFilter { overrides, types: types_matcher, has_positive_types, requests: Ghost(reqs) };
        proof {
            assert(kept_globs(Seq::<Seq<char>>::empty()) =~= Seq::<Seq<char>>::empty());
            assert(f.model().globs == kept_globs(ls));
            if !(types@.len() > 0 || types_not@.len() > 0) {
                assert(reqs =~= Seq::<(bool, Seq<char>)>::empty());
            }
            assert(f.model() == FilterModel::of(ls, ts, tn));
        }
        Ok(f)
    }

    /// Whether `key` passes the filter: the glob part first (an ignored key
    /// fails; with any whitelist glob, only whitelisted keys pass), then the
    /// type part (an ignored key fails; with any selected type, only
    /// whitelisted keys pass).
    pub fn matches(&self, key: &str) -> (r: bool)
        ensures
            r == self.model().admits(key@),
            r && self.model().globs.len() > 0 ==> glue::override_verdict(glob_root(), self.model().globs, key@)
                != GlobMatch::Ignored,
            r && (exists|i: int|
                0 <= i < self.model().globs.len() && !glue::is_negated_glob(
                    #[trigger] self.model().globs[i],
                )) ==> glue::override_verdict(glob_root(), self.model().globs, key@)
                == GlobMatch::Whitelisted,
    {
        proof {
            use_type_invariant(self);
            lemma_has_positive_glob(self.model().globs);
        }
        if let Some(ov) = &self.overrides {
            let m = override_matched(ov, key);
            if m == GlobMatch::Ignored {
                return false;
            }
            proof {
                lemma_negated_count_bound(glue::override_globs(*ov));
            }
            let ignores = override_num_ignores(ov);
            let whitelists = override_num_whitelists(ov);
            let has_positive = ignores < whitelists + ignores && whitelists > 0;
            if has_positive && m != GlobMatch::Whitelisted {
                return false;
            }
        }
        if let Some(ts) = &self.types {
            let m = types_matched(ts, key);
            proof {
                lemma_expansion_verdict(self.requests@, glue::types_selections(*ts), default_type_names(), key@);
            }
            if m == GlobMatch::Ignored {
                return false;
            }
            if self.has_positive_types && m != GlobMatch::Whitelisted {
                return false;
            }
        }
        true
    }
}

/// A key that names a directory marker (a zero-byte object ending in `/`).
pub open spec fn is_dir_marker(key: Seq<char>) -> bool {
    key.len() > 0 && key.last() == '/'
}

/// The model of an optional filter.
pub open spec fn filter_model(filter: Option<&WalkFilter>) -> Option<FilterModel> {
    match filter {
        Some(f) => Some(f.model()),
        None => None,
    }
}

/// A listed key is searched: it is not a directory marker, and the filter,
/// if any, admits it.
pub open spec fn key_selected(filter: Option<FilterModel>, key: Seq<char>) -> bool {
    &&& !is_dir_marker(key)
    &&& filter matches Some(f) ==> f.admits(key)
}

/// Whether `key` ends in `/`.
pub(crate) fn ends_with_slash(key: &str) -> (r: bool)
    ensures
        r == is_dir_marker(key@),
{
    let len = key.unicode_len();
    len > 0 && key.get_char(len - 1) == '/'
}

/// Where `key` goes in the sorted `keys`: after every key ordered before or
/// equal to it, before every key ordered after it.
fn insertion_point(keys: &Vec<String>, key: &str) -> (p: usize)
    requires
        order::keys_sorted(views(keys@)),
    ensures
        p <= keys@.len(),
        forall|k: int| 0 <= k < p ==> order::key_le(#[trigger] keys@[k]@, key@),
        forall|k: int| p <= k < keys@.len() ==> !order::key_le(#[trigger] keys@[k]@, key@),
{
    let ghost vs = views(keys@);
    let mut lo: usize = 0;
    let mut hi: usize = keys.len();
    while lo < hi
        invariant
            0 <= lo <= hi <= keys@.len(),
            vs == views(keys@),
            order::keys_sorted(vs),
            forall|k: int| 0 <= k < lo ==> order::key_le(#[trigger] keys@[k]@, key@),
            forall|k: int| hi <= k < keys@.len() ==> !order::key_le(#[trigger] keys@[k]@, key@),
        decreases hi - lo,
    {
        let mid = lo + (hi - lo) / 2;
        if key_le_exec(keys[mid].as_str(), key) {
            proof {
                assert forall|k: int| 0 <= k <= mid implies order::key_le(#[trigger] keys@[k]@, key@) by {
                    if k < mid {
                        assert(vs[k] == keys@[k]@ && vs[mid as int] == keys@[mid as int]@);
                        assert(order::key_le(vs[k], vs[mid as int]));
                        lemma_bytes_le_transitive(
                            vstd::utf8::encode_utf8(keys@[k]@),
                            vstd::utf8::encode_utf8(keys@[mid as int]@),
                            vstd::utf8::encode_utf8(key@),
                        );
                    }
                }
            }
            lo = mid + 1;
        } else {
            proof {
                assert forall|k: int| mid <= k < keys@.len() implies !order::key_le(
                    #[trigger] keys@[k]@,
                    key@,
                ) by {
                    if k > mid && order::key_le(keys@[k]@, key@) {
                        assert(vs[k] == keys@[k]@ && vs[mid as int] == keys@[mid as int]@);
                        assert(order::key_le(vs[mid as int], vs[k]));
                        lemma_bytes_le_transitive(
                            vstd::utf8::encode_utf8(keys@[mid as int]@),
                            vstd::utf8::encode_utf8(keys@[k]@),
                            vstd::utf8::encode_utf8(key@),
                        );
                    }
                }
            }
            hi = mid;
        }
    }
    lo
}

/// The keys a search visits, from a listing: directory markers and keys the
/// filter refuses are left out, and the rest come in ascending order, each
/// as often as it was listed.
pub fn select_keys(listed: &Vec<String>, filter: Option<&WalkFilter>) -> (keys: Vec<String>)
    ensures
        order::keys_sorted(views(keys@)),
        views(keys@).to_multiset() == views(listed@).filter(
            |k: Seq<char>| key_selected(filter_model(filter), k),
        ).to_multiset(),
        filter is None ==> views(keys@).to_multiset() == views(listed@).filter(
            |k: Seq<char>| !(k.len() > 0 && k.last() == '/'),
        ).to_multiset(),
        filter matches Some(f) ==> views(keys@).to_multiset() == views(listed@).filter(
            |k: Seq<char>| !(k.len() > 0 && k.last() == '/') && f.model().admits(k),
        ).to_multiset(),
{
    let ghost fm = filter_model(filter);
    let ghost sel = |k: Seq<char>| key_selected(fm, k);
    let mut keys: Vec<String> = Vec::new();
    let mut i: usize = 0;
    proof {
        let none = views(listed@.take(0));
        assert(none =~= Seq::<Seq<char>>::empty());
        none.lemma_filter_len(sel);
        assert(none.filter(sel) =~= Seq::<Seq<char>>::empty());
        assert(views(keys@) =~= Seq::<Seq<char>>::empty());
    }
    while i < listed.len()
        invariant
            0 <= i <= listed@.len(),
            fm == filter_model(filter),
            sel == (|k: Seq<char>| key_selected(fm, k)),
            order::keys_sorted(views(keys@)),
            views(keys@).to_multiset() == views(listed@.take(i as int)).filter(sel).to_multiset(),
        decreases listed@.len() - i,
    {
        let key = listed[i].as_str();
        let keep = !ends_with_slash(key) && match filter {
            Some(f) => f.matches(key),
            None => true,
        };
        let ghost before = views(keys@);
        let ghost prefix = views(listed@.take(i as int));
        proof {
            assert(views(listed@.take(i + 1)) =~= prefix.push(key@));
            prefix.lemma_filter_push(key@, sel);
        }
        if keep {
            let p = insertion_point(&keys, key);
            keys.insert(p, listed[i].clone());
            proof {
                assert(views(keys@) =~= before.insert(p as int, key@));
                vstd::seq_lib::to_multiset_insert(before, p as int, key@);
                vstd::seq_lib::to_multiset_build(prefix.filter(sel), key@);
                let after = views(keys@);
                assert forall|a: int, b: int| 0 <= a < b < after.len() implies order::key_le(
                    #[trigger] after[a],
                    #[trigger] after[b],
                ) by {
                    if a < p && b == p {
                    } else if a == p {
                        lemma_bytes_le_total(
                            vstd::utf8::encode_utf8(key@),
                            vstd::utf8::encode_utf8(before[b - 1]),
                        );
                        assert(before[b - 1] == keys@[b]@);
                    } else {
                        let a0 = if a < p { a } else { a - 1 };
                        let b0 = if b < p { b } else { b - 1 };
                        assert(after[a] == before[a0] && after[b] == before[b0]);
                    }
                }
            }
        }
        i = i + 1;
    }
    proof {
        assert(listed@.take(i as int) =~= listed@);
        match filter {
            None => {
                assert(sel =~= (|k: Seq<char>| !(k.len() > 0 && k.last() == '/')));
            },
            Some(f) => {
                assert(sel =~= (|k: Seq<char>| !(k.len() > 0 && k.last() == '/') && f.model().admits(k)));
            },
        }
    }
    keys
}

/// A listed key is searched exactly when it does not end in `/` and, with a
/// filter, the filter admits it: however deep it is nested, and nothing else
/// about it counts.
pub proof fn law_selection_keeps_file_keys_only(filter: Option<FilterModel>)
    ensures
        forall|k: Seq<char>|
            #[trigger] key_selected(filter, k) == (!(k.len() > 0 && k.last() == '/') && match filter {
                Some(f) => f.admits(k),
                None => true,
            }),
{
}


/// How often `x` occurs in what `pred` keeps of `s`: as often as in `s` when
/// `pred` holds of it, else never.
pub proof fn lemma_filter_count(s: Seq<Seq<char>>, pred: spec_fn(Seq<char>) -> bool, x: Seq<char>)
    ensures
        s.filter(pred).to_multiset().count(x) == if pred(x) {
            s.to_multiset().count(x)
        } else {
            0
        },
    decreases s.len(),
{
    broadcast use vstd::seq_lib::group_to_multiset_ensures;
    broadcast use vstd::multiset::group_multiset_axioms;

    if s.len() == 0 {
        s.lemma_filter_len(pred);
        assert(s.filter(pred) =~= Seq::<Seq<char>>::empty());
        assert(s.to_multiset() =~= vstd::multiset::Multiset::empty());
        assert(s.filter(pred).to_multiset() =~= vstd::multiset::Multiset::empty());
    } else {
        let init = s.drop_last();
        let last = s.last();
        assert(s =~= init.push(last));
        init.lemma_filter_push(last, pred);
        lemma_filter_count(init, pred, x);
    }
}

/// Filtering keeps two listings of the same keys listings of the same keys.
pub proof fn lemma_filter_same_keys(
    a: Seq<Seq<char>>,
    b: Seq<Seq<char>>,
    pred: spec_fn(Seq<char>) -> bool,
)
    requires
        a.to_multiset() == b.to_multiset(),
    ensures
        a.filter(pred).to_multiset() == b.filter(pred).to_multiset(),
{
    assert forall|x: Seq<char>| a.filter(pred).to_multiset().count(x) == b.filter(
        pred,
    ).to_multiset().count(x) by {
        lemma_filter_count(a, pred, x);
        lemma_filter_count(b, pred, x);
    }
    assert(a.filter(pred).to_multiset() =~= b.filter(pred).to_multiset());
}

/// With no globs, no types and no negated types, the glob part builds, there
/// is no type part, and the filter lets every key through.
pub proof fn law_empty_filter_admits_every_key(key: Seq<char>)
    ensures
        globs_build(Seq::empty()),
        FilterModel::of(Seq::empty(), Seq::empty(), Seq::empty()).admits(key),
{
    assert(kept_globs(Seq::empty()).len() == 0);
}

/// Every key of a selection was listed, is not a directory marker, and is
/// admitted by the filter.
pub proof fn law_selected_keys_were_listed_and_pass(
    listed: Seq<Seq<char>>,
    filter: Option<FilterModel>,
    keys: Seq<Seq<char>>,
)
    requires
        keys.to_multiset() == listed.filter(|k: Seq<char>| key_selected(filter, k)).to_multiset(),
    ensures
        forall|i: int|
            0 <= i < keys.len() ==> key_selected(filter, #[trigger] keys[i]) && listed.contains(
                keys[i],
            ),
{
    broadcast use vstd::seq_lib::group_to_multiset_ensures;

    let pred = |k: Seq<char>| key_selected(filter, k);
    assert forall|i: int| 0 <= i < keys.len() implies key_selected(filter, #[trigger] keys[i])
        && listed.contains(keys[i]) by {
        let x = keys[i];
        assert(keys.contains(x));
        assert(keys.to_multiset().count(x) > 0);
        lemma_filter_count(listed, pred, x);
        assert(listed.to_multiset().count(x) > 0);
    }
}

/// The selection does not depend on the order of the listing: two listings
/// of the same keys, however ordered, select the same sorted keys.
pub proof fn law_selection_ignores_listing_order(
    listed_a: Seq<Seq<char>>,
    listed_b: Seq<Seq<char>>,
    filter: Option<FilterModel>,
    keys_a: Seq<Seq<char>>,
    keys_b: Seq<Seq<char>>,
)
    requires
        listed_a.to_multiset() == listed_b.to_multiset(),
        order::keys_sorted(keys_a),
        order::keys_sorted(keys_b),
        keys_a.to_multiset() == listed_a.filter(|k: Seq<char>| key_selected(filter, k)).to_multiset(),
        keys_b.to_multiset() == listed_b.filter(|k: Seq<char>| key_selected(filter, k)).to_multiset(),
    ensures
        keys_a == keys_b,
{
    lemma_filter_same_keys(listed_a, listed_b, |k: Seq<char>| key_selected(filter, k));
    order::lemma_sorted_keys_unique(keys_a, keys_b);
}


/// The last matching glob of `g + n` lies in `n`, or is the last matching
/// glob of `g`.
pub proof fn lemma_last_glob_hit_append(
    root: Seq<char>,
    g: Seq<Seq<char>>,
    n: Seq<Seq<char>>,
    key: Seq<char>,
)
    ensures
        -1 <= glue::last_glob_hit(root, g + n, key) < g.len() + n.len(),
        glue::last_glob_hit(root, g + n, key) < g.len() ==> glue::last_glob_hit(root, g + n, key)
            == glue::last_glob_hit(root, g, key),
        -1 <= glue::last_glob_hit(root, g, key) < g.len(),
    decreases n.len(),
{
    if n.len() == 0 {
        assert(g + n =~= g);
        lemma_last_glob_hit_range(root, g, key);
    } else {
        assert((g + n).drop_last() =~= g + n.drop_last());
        assert((g + n).last() == n.last());
        lemma_last_glob_hit_append(root, g, n.drop_last(), key);
    }
}

proof fn lemma_last_glob_hit_range(root: Seq<char>, g: Seq<Seq<char>>, key: Seq<char>)
    ensures
        -1 <= glue::last_glob_hit(root, g, key) < g.len(),
    decreases g.len(),
{
    if g.len() > 0 {
        lemma_last_glob_hit_range(root, g.drop_last(), key);
    }
}

/// The last matching request of `r + n` lies in `n`, or is the last
/// matching request of `r`.
pub proof fn lemma_last_request_hit_append(
    names: Set<Seq<char>>,
    r: Seq<(bool, Seq<char>)>,
    n: Seq<(bool, Seq<char>)>,
    key: Seq<char>,
)
    ensures
        -1 <= last_request_hit(names, r + n, key) < r.len() + n.len(),
        last_request_hit(names, r + n, key) < r.len() ==> last_request_hit(names, r + n, key)
            == last_request_hit(names, r, key),
        -1 <= last_request_hit(names, r, key) < r.len(),
    decreases n.len(),
{
    if n.len() == 0 {
        assert(r + n =~= r);
        lemma_last_request_hit_range(names, r, key);
    } else {
        assert((r + n).drop_last() =~= r + n.drop_last());
        assert((r + n).last() == n.last());
        lemma_last_request_hit_append(names, r, n.drop_last(), key);
    }
}

proof fn lemma_last_request_hit_range(names: Set<Seq<char>>, r: Seq<(bool, Seq<char>)>, key: Seq<char>)
    ensures
        -1 <= last_request_hit(names, r, key) < r.len(),
    decreases r.len(),
{
    if r.len() > 0 {
        lemma_last_request_hit_range(names, r.drop_last(), key);
    }
}

/// Appending only negated globs adds exactly that many negated globs.
pub proof fn lemma_negated_count_append(g: Seq<Seq<char>>, n: Seq<Seq<char>>)
    requires
        forall|i: int| 0 <= i < n.len() ==> glue::is_negated_glob(#[trigger] n[i]),
    ensures
        glue::negated_count(g + n) == glue::negated_count(g) + n.len(),
    decreases n.len(),
{
    if n.len() == 0 {
        assert(g + n =~= g);
    } else {
        assert((g + n).drop_last() =~= g + n.drop_last());
        assert((g + n).last() == n.last());
        assert(glue::is_negated_glob(n[n.len() - 1]));
        lemma_negated_count_append(g, n.drop_last());
    }
}

/// The globs kept of two runs of glob lines are those kept of the first,
/// then those kept of the second.
pub proof fn lemma_kept_globs_append(lines: Seq<Seq<char>>, more: Seq<Seq<char>>)
    ensures
        kept_globs(lines + more) == kept_globs(lines) + kept_globs(more),
    decreases more.len(),
{
    if more.len() == 0 {
        assert(lines + more =~= lines);
        assert(kept_globs(lines) + kept_globs(more) =~= kept_globs(lines));
    } else {
        assert((lines + more).drop_last() =~= lines + more.drop_last());
        assert((lines + more).last() == more.last());
        lemma_kept_globs_append(lines, more.drop_last());
        match glue::kept_glob(more.last()) {
            Some(g) => {
                assert(kept_globs(lines) + kept_globs(more.drop_last()).push(g) =~= (kept_globs(lines)
                    + kept_globs(more.drop_last())).push(g));
            },
            None => {},
        }
    }
}

/// Glob lines that each start with `!` are kept as negated globs only.
proof fn lemma_negated_lines_kept(more: Seq<Seq<char>>)
    requires
        forall|i: int| 0 <= i < more.len() ==> (#[trigger] more[i]).len() > 0 && more[i][0] == '!',
    ensures
        forall|i: int|
            0 <= i < kept_globs(more).len() ==> glue::is_negated_glob(#[trigger] kept_globs(more)[i]),
    decreases more.len(),
{
    if more.len() > 0 {
        let init = more.drop_last();
        assert forall|i: int| 0 <= i < init.len() implies (#[trigger] init[i]).len() > 0 && init[i][0]
            == '!' by {
            assert(init[i] == more[i]);
        }
        lemma_negated_lines_kept(init);
        assert(more[more.len() - 1] == more.last());
        lemma_negated_line_kept(more.last());
        let before = kept_globs(init);
        assert forall|i: int|
            0 <= i < kept_globs(more).len() implies glue::is_negated_glob(#[trigger] kept_globs(more)[i]) by {
            if i < before.len() {
                assert(kept_globs(more)[i] == before[i]);
            }
        }
    }
}

/// Appending negated globs never lets a key through the glob part that was
/// not let through before.
proof fn lemma_negated_globs_narrow(g: Seq<Seq<char>>, negated: Seq<Seq<char>>, key: Seq<char>)
    requires
        forall|i: int| 0 <= i < negated.len() ==> glue::is_negated_glob(#[trigger] negated[i]),
        (FilterModel { globs: g + negated, types_present: false, requests: Seq::empty(), has_positive_types: false }).globs_admit(key),
    ensures
        (FilterModel { globs: g, types_present: false, requests: Seq::empty(), has_positive_types: false }).globs_admit(key),
{
    let root = glob_root();
    if g.len() > 0 {
        lemma_last_glob_hit_append(root, g, negated, key);
        lemma_negated_count_append(g, negated);
        let i2 = glue::last_glob_hit(root, g + negated, key);
        if i2 >= g.len() {
            assert((g + negated)[i2] == negated[i2 - g.len()]);
            assert(glue::is_negated_glob(negated[i2 - g.len()]));
        } else if i2 >= 0 {
            assert((g + negated)[i2] == g[i2]);
        }
    }
}

/// Appending negations never lets a key through the type requests that was
/// not let through before.
proof fn lemma_negated_requests_narrow(
    r: Seq<(bool, Seq<char>)>,
    negated: Seq<(bool, Seq<char>)>,
    has_positive_types: bool,
    key: Seq<char>,
)
    requires
        forall|i: int| 0 <= i < negated.len() ==> !(#[trigger] negated[i]).0,
        (FilterModel { globs: Seq::empty(), types_present: true, requests: r + negated, has_positive_types }).types_admit(key),
    ensures
        (FilterModel { globs: Seq::empty(), types_present: true, requests: r, has_positive_types }).types_admit(key),
{
    let names = default_type_names();
    let rn = r + negated;
    lemma_last_request_hit_append(names, r, negated, key);
    let i2 = last_request_hit(names, rn, key);
    if i2 >= r.len() {
        assert(rn[i2] == negated[i2 - r.len()]);
    } else if i2 >= 0 {
        assert(rn[i2] == r[i2]);
    }
    if some_request_selects(names, rn) {
        let k = choose|k: int| 0 <= k < rn.len() && request_selects(names, #[trigger] rn[k]);
        if k >= r.len() {
            assert(rn[k] == negated[k - r.len()]);
        } else {
            assert(rn[k] == r[k]);
        }
    }
    if some_request_selects(names, r) {
        let k = choose|k: int| 0 <= k < r.len() && request_selects(names, #[trigger] r[k]);
        assert(rn[k] == r[k]);
    }
}

/// Some glob is not negated exactly when fewer globs are negated than there
/// are globs.
pub proof fn lemma_has_positive_glob(globs: Seq<Seq<char>>)
    ensures
        (exists|i: int| 0 <= i < globs.len() && !glue::is_negated_glob(#[trigger] globs[i]))
            == (glue::negated_count(globs) < globs.len()),
    decreases globs.len(),
{
    if globs.len() > 0 {
        let init = globs.drop_last();
        lemma_has_positive_glob(init);
        lemma_negated_count_bound(init);
        if exists|i: int| 0 <= i < init.len() && !glue::is_negated_glob(#[trigger] init[i]) {
            let i = choose|i: int| 0 <= i < init.len() && !glue::is_negated_glob(#[trigger] init[i]);
            assert(globs[i] == init[i]);
        }
        if exists|i: int| 0 <= i < globs.len() && !glue::is_negated_glob(#[trigger] globs[i]) {
            let i = choose|i: int| 0 <= i < globs.len() && !glue::is_negated_glob(#[trigger] globs[i]);
            if i < init.len() {
                assert(globs[i] == init[i]);
            }
        }
        assert(globs[globs.len() - 1] == globs.last());
    }
}

/// The last glob that matches a key matches it, and no later glob does.
proof fn lemma_last_glob_hit_spec(globs: Seq<Seq<char>>, key: Seq<char>)
    ensures
        -1 <= glue::last_glob_hit(glob_root(), globs, key) < globs.len(),
        glue::last_glob_hit(glob_root(), globs, key) >= 0 ==> glue::override_glob_hits(
            glob_root(),
            globs[glue::last_glob_hit(glob_root(), globs, key)],
            key,
        ),
        forall|j: int|
            glue::last_glob_hit(glob_root(), globs, key) < j < globs.len() ==> !glue::override_glob_hits(
                glob_root(),
                #[trigger] globs[j],
                key,
            ),
    decreases globs.len(),
{
    if globs.len() > 0 && !glue::override_glob_hits(glob_root(), globs.last(), key) {
        let init = globs.drop_last();
        lemma_last_glob_hit_spec(init, key);
        let h = glue::last_glob_hit(glob_root(), globs, key);
        assert forall|j: int| h < j < globs.len() implies !glue::override_glob_hits(
            glob_root(),
            #[trigger] globs[j],
            key,
        ) by {
            if j < globs.len() - 1 {
                assert(globs[j] == init[j]);
            }
        }
        if h >= 0 {
            assert(globs[h] == init[h]);
        }
    }
}

/// With a glob that is not negated, a filter lets a key through only when
/// such a glob matches it, however deep the key is nested: the last glob
/// matching it whitelists it.
pub proof fn law_positive_glob_admits_only_matching_keys(
    lines: Seq<Seq<char>>,
    types: Seq<Seq<char>>,
    types_not: Seq<Seq<char>>,
    key: Seq<char>,
)
    requires
        exists|i: int| 0 <= i < kept_globs(lines).len() && !glue::is_negated_glob(#[trigger] kept_globs(lines)[i]),
        FilterModel::of(lines, types, types_not).admits(key),
    ensures
        exists|i: int|
            0 <= i < kept_globs(lines).len() && glue::override_glob_hits(glob_root(), #[trigger] kept_globs(lines)[i], key)
                && !glue::is_negated_glob(kept_globs(lines)[i]),
        glue::override_verdict(glob_root(), kept_globs(lines), key) == GlobMatch::Whitelisted,
{
    let g = kept_globs(lines);
    lemma_has_positive_glob(g);
    lemma_last_glob_hit_spec(g, key);
    let h = glue::last_glob_hit(glob_root(), g, key);
    assert(h >= 0);
    assert(glue::override_glob_hits(glob_root(), g[h], key) && !glue::is_negated_glob(g[h]));
}

/// With globs none of which is negated, and no types, a key is let through
/// exactly when some glob matches it.
pub proof fn law_positive_globs_admit_exactly_matching_keys(lines: Seq<Seq<char>>, key: Seq<char>)
    requires
        kept_globs(lines).len() > 0,
        forall|i: int| 0 <= i < kept_globs(lines).len() ==> !glue::is_negated_glob(#[trigger] kept_globs(lines)[i]),
    ensures
        FilterModel::of(lines, Seq::empty(), Seq::empty()).admits(key) == exists|i: int|
            0 <= i < kept_globs(lines).len() && #[trigger] glue::override_glob_hits(
                glob_root(),
                kept_globs(lines)[i],
                key,
            ),
{
    let g = kept_globs(lines);
    assert(!glue::is_negated_glob(g[0]));
    lemma_has_positive_glob(g);
    lemma_last_glob_hit_spec(g, key);
    let h = glue::last_glob_hit(glob_root(), g, key);
    if exists|i: int| 0 <= i < g.len() && #[trigger] glue::override_glob_hits(glob_root(), g[i], key) {
        let i = choose|i: int| 0 <= i < g.len() && #[trigger] glue::override_glob_hits(glob_root(), g[i], key);
        assert(h >= i);
        assert(!glue::is_negated_glob(g[h]));
    }
    if h >= 0 {
        assert(glue::override_glob_hits(glob_root(), g[h], key));
    }
}

/// A key whose last matching glob is negated is refused, whatever else the
/// filter holds.
pub proof fn law_negated_last_match_refuses(
    lines: Seq<Seq<char>>,
    types: Seq<Seq<char>>,
    types_not: Seq<Seq<char>>,
    key: Seq<char>,
    i: int,
)
    requires
        0 <= i < kept_globs(lines).len(),
        glue::is_negated_glob(kept_globs(lines)[i]),
        glue::override_glob_hits(glob_root(), kept_globs(lines)[i], key),
        forall|j: int|
            i < j < kept_globs(lines).len() ==> !glue::override_glob_hits(glob_root(), #[trigger] kept_globs(lines)[j], key),
    ensures
        !FilterModel::of(lines, types, types_not).admits(key),
{
    let g = kept_globs(lines);
    lemma_last_glob_hit_spec(g, key);
    let h = glue::last_glob_hit(glob_root(), g, key);
    assert(h >= i);
    if h > i {
        assert(!glue::override_glob_hits(glob_root(), g[h], key));
    }
}

/// With one `--type` name (not `all`) and nothing else, a key is let through
/// exactly when that type matches it.
pub proof fn law_single_type_admits_exactly_its_files(t: Seq<char>, key: Seq<char>)
    requires
        t != "all"@,
    ensures
        FilterModel::of(Seq::empty(), seq![t], Seq::empty()).admits(key) == glue::type_hits(true, t, key),
{
    let names = default_type_names();
    let reqs = type_requests(seq![t], Seq::empty());
    assert(reqs =~= seq![(true, t)]);
    assert(reqs.drop_last() =~= Seq::<(bool, Seq<char>)>::empty());
    assert(reqs.last() == (true, t));
    assert(request_hits(names, reqs.last(), key) == glue::type_hits(true, t, key));
    assert(last_request_hit(names, reqs.drop_last(), key) == -1);
    assert(request_selects(names, reqs[0]));
    assert(some_request_selects(names, reqs));
    assert(kept_globs(Seq::<Seq<char>>::empty()).len() == 0);
    let f = FilterModel::of(Seq::empty(), seq![t], Seq::empty());
    assert(f.requests == reqs && f.types_present && f.has_positive_types && f.globs.len() == 0);
}

/// With one `--type-not` name (not `all`) and nothing else, a key is let
/// through exactly when that type does not match it.
pub proof fn law_single_negated_type_refuses_exactly_its_files(t: Seq<char>, key: Seq<char>)
    requires
        t != "all"@,
    ensures
        FilterModel::of(Seq::empty(), Seq::empty(), seq![t]).admits(key) == !glue::type_hits(true, t, key),
{
    let names = default_type_names();
    let reqs = type_requests(Seq::empty(), seq![t]);
    assert(reqs =~= seq![(false, t)]);
    assert(reqs.drop_last() =~= Seq::<(bool, Seq<char>)>::empty());
    assert(reqs.last() == (false, t));
    assert(request_hits(names, reqs.last(), key) == glue::type_hits(true, t, key));
    assert(last_request_hit(names, reqs.drop_last(), key) == -1);
    assert(!request_selects(names, reqs[0]));
    assert(!some_request_selects(names, reqs));
    assert(kept_globs(Seq::<Seq<char>>::empty()).len() == 0);
    let f = FilterModel::of(Seq::empty(), Seq::empty(), seq![t]);
    assert(f.requests == reqs && f.types_present && !f.has_positive_types && f.globs.len() == 0);
}

/// With `--type all` and nothing else, a key is let through exactly when some
/// built-in type matches it.
pub proof fn law_all_types_admit_files_of_some_type(key: Seq<char>)
    ensures
        FilterModel::of(Seq::empty(), seq!["all"@], Seq::empty()).admits(key) == exists|n: Seq<char>|
            default_type_names().contains(n) && #[trigger] glue::type_hits(true, n, key),
{
    let names = default_type_names();
    let reqs = type_requests(seq!["all"@], Seq::empty());
    assert(reqs =~= seq![(true, "all"@)]);
    assert(reqs.drop_last() =~= Seq::<(bool, Seq<char>)>::empty());
    assert(reqs.last() == (true, "all"@));
    assert(last_request_hit(names, reqs.drop_last(), key) == -1);
    assert(kept_globs(Seq::<Seq<char>>::empty()).len() == 0);
    let f = FilterModel::of(Seq::empty(), seq!["all"@], Seq::empty());
    assert(f.requests == reqs && f.types_present && f.has_positive_types && f.globs.len() == 0);
}

/// Negations never widen a filter: adding glob lines that start with `!` and
/// more `--type-not` names to a filter's inputs leaves out every key the
/// filter left out.
pub proof fn law_negations_only_narrow(
    lines: Seq<Seq<char>>,
    types: Seq<Seq<char>>,
    types_not: Seq<Seq<char>>,
    more_lines: Seq<Seq<char>>,
    more_types_not: Seq<Seq<char>>,
    key: Seq<char>,
)
    requires
        forall|i: int| 0 <= i < more_lines.len() ==> (#[trigger] more_lines[i]).len() > 0 && more_lines[i][0] == '!',
        FilterModel::of(lines + more_lines, types, types_not + more_types_not).admits(key),
    ensures
        FilterModel::of(lines, types, types_not).admits(key),
{
    let wide = FilterModel::of(lines, types, types_not);
    let narrow = FilterModel::of(lines + more_lines, types, types_not + more_types_not);
    lemma_kept_globs_append(lines, more_lines);
    lemma_negated_lines_kept(more_lines);
    lemma_negated_globs_narrow(kept_globs(lines), kept_globs(more_lines), key);
    let extra = more_types_not.map_values(|t: Seq<char>| (false, t));
    assert(narrow.requests =~= wide.requests + extra);
    if wide.types_present {
        lemma_negated_requests_narrow(wide.requests, extra, wide.has_positive_types, key);
    }
}

/// A filter lets a key through exactly when the filter of its globs alone
/// and the filter of its type names alone both do.
pub proof fn law_filter_is_glob_part_and_type_part(
    lines: Seq<Seq<char>>,
    types: Seq<Seq<char>>,
    types_not: Seq<Seq<char>>,
    key: Seq<char>,
)
    ensures
        FilterModel::of(lines, types, types_not).admits(key) == (FilterModel::of(
            lines,
            Seq::empty(),
            Seq::empty(),
        ).admits(key) && FilterModel::of(Seq::empty(), types, types_not).admits(key)),
{
    assert(kept_globs(Seq::empty()).len() == 0);
}

/// A glob line `!x` is kept as a negated glob.
pub proof fn lemma_negated_line_kept(line: Seq<char>)
    requires
        line.len() > 0,
        line[0] == '!',
    ensures
        glue::kept_glob(line) matches Some(g) && glue::is_negated_glob(g),
{
    lemma_trim_end_prefix(line);
}

/// Trimming only removes characters from the end.
proof fn lemma_trim_end_prefix(line: Seq<char>)
    requires
        line.len() > 0,
        !glue::is_white_space(line[0]),
    ensures
        glue::trim_end(line).len() > 0,
        glue::trim_end(line)[0] == line[0],
    decreases line.len(),
{
    if line.len() > 0 && glue::is_white_space(line.last()) {
        assert(line.len() > 1);
        assert(line.drop_last()[0] == line[0]);
        lemma_trim_end_prefix(line.drop_last());
    }
}


/// What a predicate keeps of sorted keys is sorted.
pub proof fn lemma_filter_keeps_sorted(keys: Seq<Seq<char>>, pred: spec_fn(Seq<char>) -> bool)
    requires
        order::keys_sorted(keys),
    ensures
        order::keys_sorted(keys.filter(pred)),
    decreases keys.len(),
{
    broadcast use vstd::seq_lib::group_to_multiset_ensures;

    if keys.len() == 0 {
        keys.lemma_filter_len(pred);
    } else {
        let init = keys.drop_last();
        let last = keys.last();
        assert(keys =~= init.push(last));
        init.lemma_filter_push(last, pred);
        assert forall|i: int, j: int| 0 <= i < j < init.len() implies order::key_le(
            #[trigger] init[i],
            #[trigger] init[j],
        ) by {
            assert(init[i] == keys[i] && init[j] == keys[j]);
        }
        lemma_filter_keeps_sorted(init, pred);
        if pred(last) {
            let f = init.filter(pred);
            let fl = f.push(last);
            assert forall|i: int, j: int| 0 <= i < j < fl.len() implies order::key_le(
                #[trigger] fl[i],
                #[trigger] fl[j],
            ) by {
                if j == f.len() {
                    let x = f[i];
                    assert(f.contains(x));
                    lemma_filter_count(init, pred, x);
                    assert(init.contains(x));
                    let k = choose|k: int| 0 <= k < init.len() && init[k] == x;
                    assert(keys[k] == x && keys[keys.len() - 1] == last);
                } else {
                    assert(fl[i] == f[i] && fl[j] == f[j]);
                }
            }
        }
    }
}

/// Selecting with a filter is selecting without one and then keeping what
/// the filter admits.
pub proof fn law_filtered_selection_is_selection_filtered(
    listed: Seq<Seq<char>>,
    filter: FilterModel,
    all_keys: Seq<Seq<char>>,
    filtered_keys: Seq<Seq<char>>,
)
    requires
        order::keys_sorted(all_keys),
        all_keys.to_multiset() == listed.filter(|k: Seq<char>| key_selected(None, k)).to_multiset(),
        order::keys_sorted(filtered_keys),
        filtered_keys.to_multiset() == listed.filter(
            |k: Seq<char>| key_selected(Some(filter), k),
        ).to_multiset(),
    ensures
        filtered_keys == all_keys.filter(|k: Seq<char>| filter.admits(k)),
{
    let admits = |k: Seq<char>| filter.admits(k);
    let unfiltered = |k: Seq<char>| key_selected(None, k);
    let filtered = |k: Seq<char>| key_selected(Some(filter), k);
    lemma_filter_keeps_sorted(all_keys, admits);
    let kept = all_keys.filter(admits);
    assert forall|x: Seq<char>| kept.to_multiset().count(x) == filtered_keys.to_multiset().count(
        x,
    ) by {
        lemma_filter_count(all_keys, admits, x);
        lemma_filter_count(listed, unfiltered, x);
        lemma_filter_count(listed, filtered, x);
    }
    assert(kept.to_multiset() =~= filtered_keys.to_multiset());
    order::lemma_sorted_keys_unique(kept, filtered_keys);
}

} // verus!
