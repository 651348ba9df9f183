//! The two-level directory scan, as decisions over a top-down walk.
//!
//! The walk itself (listing directories, skipping subtrees) belongs to the
//! caller: it hands each entry to [`Scanner::visit`] and acts on the decision.
//! While outside any project, directories are tested against the target
//! rules; the first target that recognises a directory makes it the current
//! project root, and everything below it is only searched for that target's
//! artifact directories, which are reported and not entered.
use crate::models::{names_of, TargetInfo};
use vstd::prelude::*;

verus! {

/// One entry of a top-down walk; the walk's starting directory has depth 0.
#[derive(Clone, Debug)]
pub struct WalkEntry {
    pub depth: usize,
    pub name: String,
    pub is_dir: bool,
    pub is_symlink: bool,
}

impl WalkEntry {
    /// A directory that is not reached through a symbolic link.
    pub open spec fn is_plain_dir(&self) -> bool {
        self.is_dir && !self.is_symlink
    }

    /// Below the walk's start and named with a leading dot.
    pub open spec fn is_hidden(&self) -> bool {
        self.depth > 0 && self.name@.len() > 0 && self.name@[0] == '.'
    }
}

/// What the walker does with the entry it just handed over.
#[derive(Clone, Copy, Debug, PartialEq, Eq, Structural)]
pub enum ScanDecision {
    /// Go on; a directory is entered.
    Continue,
    /// Do not enter this directory.
    SkipDir,
    /// Report this directory as an artifact and do not enter it.
    Emit,
}

/// `t` is the first of `targets` that recognises a directory with entries `listing`.
pub open spec fn first_root(targets: Seq<TargetInfo>, listing: Seq<Seq<char>>, t: int) -> bool {
    &&& 0 <= t < targets.len()
    &&& targets[t].spec_is_project_root(listing)
    &&& forall|u: int| 0 <= u < t ==> !targets[u].spec_is_project_root(listing)
}

pub open spec fn no_root(targets: Seq<TargetInfo>, listing: Seq<Seq<char>>) -> bool {
    forall|u: int| 0 <= u < targets.len() ==> !targets[u].spec_is_project_root(listing)
}

pub struct Scanner {
    pub targets: Vec<TargetInfo>,
    /// The project being searched: its root's depth and the index of its target.
    pub project: Option<(usize, usize)>,
}

impl Scanner {
    pub open spec fn wf(&self) -> bool {
        match self.project {
            Some((_, t)) => t < self.targets@.len(),
            None => true,
        }
    }

    /// `e` lies strictly below the current project root.
    pub open spec fn spec_inside_project(&self, e: WalkEntry) -> bool {
        match self.project {
            Some((d, _)) => e.depth > d,
            None => false,
        }
    }

    /// The decision for an entry below the current project root: the
    /// project's artifact directories are reported, all else is walked.
    pub open spec fn decide_inside(&self, e: WalkEntry) -> ScanDecision {
        let t = self.project.unwrap().1 as int;
        if e.is_plain_dir() && self.targets@[t].spec_is_artifact(e.name@) {
            ScanDecision::Emit
        } else {
            ScanDecision::Continue
        }
    }

    /// Whether `visit` tests `e` against the target rules (and so needs its listing).
    pub open spec fn spec_tests_markers(&self, e: WalkEntry) -> bool {
        !self.spec_inside_project(e) && e.is_plain_dir() && !e.is_hidden()
    }

    pub fn new(targets: Vec<TargetInfo>) -> (r: Scanner)
        ensures
            r.targets@ == targets@,
            r.project is None,
            r.wf(),
    {
        Scanner { targets, project: None }
    }

    fn inside_project(&self, e: &WalkEntry) -> (r: bool)
        ensures
            r == self.spec_inside_project(*e),
    {
        match self.project {
            Some((d, _)) => e.depth > d,
            None => false,
        }
    }

    /// Whether `visit` will look at the listing of `e`; when it will not, the
    /// caller may pass an empty one.
    pub fn tests_markers(&self, e: &WalkEntry) -> (r: bool)
        ensures
            r == self.spec_tests_markers(*e),
    {
        let hidden = e.depth > 0 && e.name.as_str().unicode_len() > 0 && e.name.as_str().get_char(0) == '.';
        !self.inside_project(e) && e.is_dir && !e.is_symlink && !hidden
    }

    /// The first target that recognises a directory with entries `listing`.
    pub fn find_target(&self, listing: &Vec<String>) -> (r: Option<usize>)
        ensures
            match r {
                Some(t) => first_root(self.targets@, names_of(listing@), t as int),
                None => no_root(self.targets@, names_of(listing@)),
            },
    {
        let mut t: usize = 0;
        while t < self.targets.len()
            invariant
                t <= self.targets@.len(),
                forall|u: int| 0 <= u < t ==> !self.targets@[u].spec_is_project_root(names_of(listing@)),
            decreases self.targets@.len() - t,
        {
            if self.targets[t].is_project_root(listing) {
                return Some(t);
            }
            t += 1;
        }
        None
    }

    /// Takes the next entry of the walk, with the names of its immediate
    /// entries when `tests_markers` asks for them.
    ///
    /// Below the current project root only artifact names are looked at
    /// (no marker is tested there). Elsewhere a hidden directory is skipped,
    /// and a directory that some target recognises becomes the current
    /// project root and is entered.
    pub fn visit(&mut self, e: &WalkEntry, listing: &Vec<String>) -> (r: ScanDecision)
        requires
            old(self).wf(),
        ensures
            final(self).wf(),
            final(self).targets@ == old(self).targets@,
            old(self).spec_inside_project(*e) ==> r == old(self).decide_inside(*e)
                && final(self).project == old(self).project,
            !old(self).spec_inside_project(*e) ==> {
                if !e.is_plain_dir() {
                    r == ScanDecision::Continue && final(self).project is None
                } else if e.is_hidden() {
                    r == ScanDecision::SkipDir && final(self).project is None
                } else {
                    r == ScanDecision::Continue && match final(self).project {
                        Some((d, t)) => d == e.depth && first_root(
                            old(self).targets@,
                            names_of(listing@),
                            t as int,
                        ),
                        None => no_root(old(self).targets@, names_of(listing@)),
                    }
                }
            },
    {
        if self.inside_project(e) {
            let t = self.project.unwrap().1;
            if e.is_dir && !e.is_symlink && self.targets[t].is_artifact(&e.name) {
                return ScanDecision::Emit;
            }
            return ScanDecision::Continue;
        }
        self.project = None;
        if !e.is_dir || e.is_symlink {
            return ScanDecision::Continue;
        }
        if !self.tests_markers(e) {
            return ScanDecision::SkipDir;
        }
        match self.find_target(listing) {
            Some(t) => {
                self.project = Some((e.depth, t));
            },
            None => {},
        }
        ScanDecision::Continue
    }
}

/// Entry `j` of a walk is still open before entry `i`: every entry between
/// them lies deeper than it, so it is an ancestor of `i` when shallower.
pub open spec fn open_at(w: Seq<WalkEntry>, j: int, i: int) -> bool {
    &&& 0 <= j < i
    &&& forall|k: int| j < k < i ==> #[trigger] w[k].depth > w[j].depth
}

/// Entry `j` is a directory above entry `i` in the walk's tree.
pub open spec fn is_ancestor(w: Seq<WalkEntry>, j: int, i: int) -> bool {
    open_at(w, j, i) && w[j].depth < w[i].depth
}

/// Entry `j`, if a directory, is walked into while searching for projects:
/// it is not hidden and no target recognises it.
pub open spec fn searched(
    w: Seq<WalkEntry>,
    ls: Seq<Seq<Seq<char>>>,
    targets: Seq<TargetInfo>,
    j: int,
) -> bool {
    w[j].is_plain_dir() ==> !w[j].is_hidden() && no_root(targets, ls[j])
}

/// Entry `p` is a project root of target `t`: a visible directory that `t`
/// recognises first, below no hidden directory and no other project root.
pub open spec fn root_at(
    w: Seq<WalkEntry>,
    ls: Seq<Seq<Seq<char>>>,
    targets: Seq<TargetInfo>,
    p: int,
    t: int,
) -> bool {
    &&& w[p].is_plain_dir()
    &&& !w[p].is_hidden()
    &&& first_root(targets, ls[p], t)
    &&& forall|a: int| #[trigger] is_ancestor(w, a, p) ==> searched(w, ls, targets, a)
}

/// Entry `a` is an artifact directory of target `t`.
pub open spec fn artifact_of(w: Seq<WalkEntry>, targets: Seq<TargetInfo>, a: int, t: int) -> bool {
    w[a].is_plain_dir() && targets[t].spec_is_artifact(w[a].name@)
}

/// Entry `i` is reported: an artifact directory of the target of a project
/// root above it, with no artifact directory of that target in between.
pub open spec fn is_reported(
    w: Seq<WalkEntry>,
    ls: Seq<Seq<Seq<char>>>,
    targets: Seq<TargetInfo>,
    i: int,
) -> bool {
    exists|p: int, t: int|
        #![trigger root_at(w, ls, targets, p, t), is_ancestor(w, p, i)]
        {
            &&& is_ancestor(w, p, i)
            &&& root_at(w, ls, targets, p, t)
            &&& artifact_of(w, targets, i, t)
            &&& forall|a: int|
                #![trigger is_ancestor(w, a, i)]
                is_ancestor(w, a, i) && p < a ==> !artifact_of(w, targets, a, t)
        }
}

pub open spec fn listings_of(listings: Seq<Vec<String>>) -> Seq<Seq<Seq<char>>> {
    listings.map_values(|v: Vec<String>| names_of(v@))
}

proof fn lemma_open_step(w: Seq<WalkEntry>, j: int, i: int)
    requires
        0 <= i < w.len(),
        0 <= j <= i,
    ensures
        open_at(w, j, i + 1) <==> (j == i || (open_at(w, j, i) && w[j].depth < w[i].depth)),
{
    if j < i && open_at(w, j, i + 1) {
        assert(w[i].depth > w[j].depth);
    }
}

proof fn lemma_open_same_depth(w: Seq<WalkEntry>, j1: int, j2: int, i: int)
    requires
        open_at(w, j1, i),
        open_at(w, j2, i),
        w[j1].depth == w[j2].depth,
    ensures
        j1 == j2,
{
    if j1 < j2 {
        assert(w[j2].depth > w[j1].depth);
    } else if j2 < j1 {
        assert(w[j1].depth > w[j2].depth);
    }
}

proof fn lemma_open_nested(w: Seq<WalkEntry>, j: int, p: int, i: int)
    requires
        open_at(w, j, i),
        open_at(w, p, i),
        w[j].depth < w[p].depth,
    ensures
        is_ancestor(w, j, p),
{
    if p < j {
        assert(w[j].depth > w[p].depth);
    }
    assert(j != p);
    assert forall|k: int| j < k < p implies #[trigger] w[k].depth > w[j].depth by {
        assert(j < k < i);
    }
}

/// An entry has at most one project root above it, of one target.
proof fn lemma_root_unique(
    w: Seq<WalkEntry>,
    ls: Seq<Seq<Seq<char>>>,
    targets: Seq<TargetInfo>,
    p1: int,
    t1: int,
    p2: int,
    t2: int,
    i: int,
)
    requires
        is_ancestor(w, p1, i),
        is_ancestor(w, p2, i),
        root_at(w, ls, targets, p1, t1),
        root_at(w, ls, targets, p2, t2),
    ensures
        p1 == p2 && t1 == t2,
{
    if w[p1].depth < w[p2].depth {
        lemma_open_nested(w, p1, p2, i);
        assert(searched(w, ls, targets, p1));
        assert(targets[t1].spec_is_project_root(ls[p1]));
    } else if w[p2].depth < w[p1].depth {
        lemma_open_nested(w, p2, p1, i);
        assert(searched(w, ls, targets, p2));
        assert(targets[t2].spec_is_project_root(ls[p2]));
    } else {
        lemma_open_same_depth(w, p1, p2, i);
        if t1 < t2 {
            assert(targets[t1].spec_is_project_root(ls[p1]));
        } else if t2 < t1 {
            assert(targets[t2].spec_is_project_root(ls[p2]));
        }
    }
}

/// What the walk so far leaves for the entries still to come, before entry
/// `i`: the open project root `p` (when there is a project) and the open
/// directory `q` whose subtree is being skipped (when there is one).
pub open spec fn walk_state(
    w: Seq<WalkEntry>,
    ls: Seq<Seq<Seq<char>>>,
    targets: Seq<TargetInfo>,
    i: int,
    project: Option<(usize, usize)>,
    skip: Option<usize>,
    p: int,
    q: int,
) -> bool {
    &&& match project {
        None => forall|j: int|
            #![trigger open_at(w, j, i)]
            open_at(w, j, i) && (skip is None || w[j].depth < skip.unwrap()) ==> searched(
                w,
                ls,
                targets,
                j,
            ),
        Some((d, t)) => {
            &&& open_at(w, p, i)
            &&& w[p].depth == d
            &&& root_at(w, ls, targets, p, t as int)
            &&& forall|j: int|
                #![trigger open_at(w, j, i)]
                open_at(w, j, i) && d < w[j].depth && (skip is None || w[j].depth
                    < skip.unwrap()) ==> !artifact_of(w, targets, j, t as int)
        },
    }
    &&& match skip {
        None => true,
        Some(s) => {
            &&& open_at(w, q, i)
            &&& w[q].depth == s
            &&& match project {
                None => w[q].is_plain_dir() && w[q].is_hidden(),
                Some((d, t)) => d < s && artifact_of(w, targets, q, t as int),
            }
        },
    }
}

/// Scans a whole walk held in memory, entries in top-down order with the
/// listing of each, and skips the subtrees that the decisions skip. Marks
/// each entry reported or not.
pub fn scan_walk(targets: Vec<TargetInfo>, walk: &Vec<WalkEntry>, listings: &Vec<Vec<String>>) -> (r:
    Vec<bool>)
    requires
        walk@.len() == listings@.len(),
    ensures
        r@.len() == walk@.len(),
        forall|k: int|
            0 <= k < walk@.len() ==> r@[k] == is_reported(
                walk@,
                listings_of(listings@),
                targets@,
                k,
            ),
{
    let ghost tg = targets@;
    let ghost w = walk@;
    let ghost ls = listings_of(listings@);
    let mut scanner = Scanner::new(targets);
    let mut skip: Option<usize> = None;
    let mut r: Vec<bool> = Vec::new();
    let ghost mut p: int = 0;
    let ghost mut q: int = 0;
    let mut i: usize = 0;
    while i < walk.len()
        invariant
            w == walk@,
            ls == listings_of(listings@),
            w.len() == ls.len(),
            scanner.wf(),
            scanner.targets@ == tg,
            i <= w.len(),
            r@.len() == i,
            forall|k: int| 0 <= k < i ==> r@[k] == is_reported(w, ls, tg, k),
            walk_state(w, ls, tg, i as int, scanner.project, skip, p, q),
        decreases w.len() - i,
    {
        let e = &walk[i];
        let ghost ii = i as int;
        assert(ls[ii] == names_of(listings@[ii]@));
        let skipped = match skip {
            Some(s) => e.depth > s,
            None => false,
        };
        let ghost old_project = scanner.project;
        let ghost old_skip = skip;
        if skipped {
            proof {
                let s = skip.unwrap();
                assert(is_ancestor(w, q, ii));
                assert(!is_reported(w, ls, tg, ii)) by {
                    if is_reported(w, ls, tg, ii) {
                        let (p2, t2) = choose|p2: int, t2: int|
                            {
                                &&& is_ancestor(w, p2, ii)
                                &&& root_at(w, ls, tg, p2, t2)
                                &&& artifact_of(w, tg, ii, t2)
                                &&& forall|a: int|
                                    #![trigger is_ancestor(w, a, ii)]
                                    is_ancestor(w, a, ii) && p2 < a ==> !artifact_of(w, tg, a, t2)
                            };
                        match scanner.project {
                            None => {
                                if w[p2].depth < s {
                                    assert(open_at(w, p2, ii));
                                    assert(searched(w, ls, tg, p2));
                                    assert(tg[t2].spec_is_project_root(ls[p2]));
                                } else if w[p2].depth == s {
                                    lemma_open_same_depth(w, p2, q, ii);
                                } else {
                                    lemma_open_nested(w, q, p2, ii);
                                    assert(searched(w, ls, tg, q));
                                }
                            },
                            Some((d, t)) => {
                                assert(is_ancestor(w, p, ii));
                                lemma_root_unique(w, ls, tg, p, t as int, p2, t2, ii);
                                assert(p < q) by {
                                    if q < p {
                                        assert(w[p].depth > w[q].depth);
                                    }
                                    if q == p {
                                        assert(w[q].depth == d);
                                    }
                                }
                                assert(!artifact_of(w, tg, q, t2));
                            },
                        }
                    }
                }
            }
            r.push(false);
            proof {
                assert forall|j: int| #[trigger] open_at(w, j, ii + 1) implies (j == ii || (open_at(w, j, ii) && w[j].depth < w[ii].depth)) by {
                    lemma_open_step(w, j, ii);
                }
                lemma_open_step(w, q, ii);
                if scanner.project is Some {
                    lemma_open_step(w, p, ii);
                }
                assert(walk_state(w, ls, tg, ii + 1, scanner.project, skip, p, q));
            }
        } else {
            let listing = &listings[i];
            proof {
                assert(names_of(listing@) == ls[ii]);
            }
            let inside = scanner.inside_project(e);
            let decision = scanner.visit(e, listing);
            let reported = decision == ScanDecision::Emit;
            proof {
                // the ancestors of entry i lie above the skipped directory, if any
                assert forall|a: int| #[trigger] is_ancestor(w, a, ii) implies (old_skip is None || w[a].depth < old_skip.unwrap()) by {}
                if inside {
                    let (d, t) = old_project.unwrap();
                    assert(is_ancestor(w, p, ii));
                    if reported {
                        assert forall|a: int|
                            #![trigger is_ancestor(w, a, ii)]
                            is_ancestor(w, a, ii) && p < a implies !artifact_of(w, tg, a, t as int) by {
                            assert(w[a].depth > w[p].depth);
                        }
                        assert(is_reported(w, ls, tg, ii));
                    } else {
                        assert(!is_reported(w, ls, tg, ii)) by {
                            if is_reported(w, ls, tg, ii) {
                                let (p2, t2) = choose|p2: int, t2: int|
                                    {
                                        &&& is_ancestor(w, p2, ii)
                                        &&& root_at(w, ls, tg, p2, t2)
                                        &&& artifact_of(w, tg, ii, t2)
                                        &&& forall|a: int|
                                            #![trigger is_ancestor(w, a, ii)]
                                            is_ancestor(w, a, ii) && p2 < a ==> !artifact_of(
                                                w,
                                                tg,
                                                a,
                                                t2,
                                            )
                                    };
                                lemma_root_unique(w, ls, tg, p, t as int, p2, t2, ii);
                            }
                        }
                    }
                } else {
                    assert forall|a: int| #[trigger] is_ancestor(w, a, ii) implies searched(w, ls, tg, a) by {
                        match old_project {
                            None => {},
                            Some((d, t)) => {
                                lemma_open_nested(w, a, p, ii);
                            },
                        }
                    }
                    assert(!is_reported(w, ls, tg, ii)) by {
                        if is_reported(w, ls, tg, ii) {
                            let (p2, t2) = choose|p2: int, t2: int|
                                {
                                    &&& is_ancestor(w, p2, ii)
                                    &&& root_at(w, ls, tg, p2, t2)
                                    &&& artifact_of(w, tg, ii, t2)
                                    &&& forall|a: int|
                                        #![trigger is_ancestor(w, a, ii)]
                                        is_ancestor(w, a, ii) && p2 < a ==> !artifact_of(w, tg, a, t2)
                                };
                            assert(searched(w, ls, tg, p2));
                            assert(tg[t2].spec_is_project_root(ls[p2]));
                        }
                    }
                }
            }
            r.push(reported);
            match decision {
                ScanDecision::Continue => {
                    skip = None;
                },
                _ => {
                    skip = Some(e.depth);
                },
            }
            proof {
                assert forall|j: int| #[trigger] open_at(w, j, ii + 1) implies (j == ii || is_ancestor(w, j, ii)) by {
                    lemma_open_step(w, j, ii);
                }
                if decision != ScanDecision::Continue {
                    q = ii;
                    lemma_open_step(w, q, ii);
                }
                if !inside && scanner.project is Some {
                    p = ii;
                }
                if scanner.project is Some {
                    lemma_open_step(w, p, ii);
                }
                if !inside && scanner.project is Some {
                    assert forall|a: int| #[trigger] is_ancestor(w, a, p) implies searched(w, ls, tg, a) by {}
                }
                assert(walk_state(w, ls, tg, ii + 1, scanner.project, skip, p, q));
            }
        }
        i += 1;
    }
    r
}

/// No project root lies inside another: below a recognised root, no
/// directory counts as a root again.
pub proof fn lemma_no_nested_roots(
    w: Seq<WalkEntry>,
    ls: Seq<Seq<Seq<char>>>,
    targets: Seq<TargetInfo>,
    outer: int,
    outer_target: int,
    inner: int,
    inner_target: int,
)
    requires
        is_ancestor(w, outer, inner),
        root_at(w, ls, targets, outer, outer_target),
    ensures
        !root_at(w, ls, targets, inner, inner_target),
{
    if root_at(w, ls, targets, inner, inner_target) {
        assert(searched(w, ls, targets, outer));
        assert(targets[outer_target].spec_is_project_root(ls[outer]));
    }
}

proof fn lemma_ancestor_trans(w: Seq<WalkEntry>, a: int, b: int, c: int)
    requires
        is_ancestor(w, a, b),
        is_ancestor(w, b, c),
    ensures
        is_ancestor(w, a, c),
{
    assert forall|k: int| a < k < c implies #[trigger] w[k].depth > w[a].depth by {
        if k < b {
        } else if k == b {
        } else {
            assert(w[k].depth > w[b].depth);
        }
    }
}

/// Nothing inside a reported artifact directory is reported: of two
/// reported entries, neither lies below the other (so no directory is
/// reported twice either).
pub proof fn lemma_reported_not_nested(
    w: Seq<WalkEntry>,
    ls: Seq<Seq<Seq<char>>>,
    targets: Seq<TargetInfo>,
    i: int,
    j: int,
)
    requires
        is_reported(w, ls, targets, i),
        is_reported(w, ls, targets, j),
    ensures
        !is_ancestor(w, i, j),
{
    if is_ancestor(w, i, j) {
        let (p, t) = choose|p: int, t: int|
            {
                &&& is_ancestor(w, p, j)
                &&& root_at(w, ls, targets, p, t)
                &&& artifact_of(w, targets, j, t)
                &&& forall|a: int|
                    #![trigger is_ancestor(w, a, j)]
                    is_ancestor(w, a, j) && p < a ==> !artifact_of(w, targets, a, t)
            };
        let (p2, t2) = choose|p2: int, t2: int|
            {
                &&& is_ancestor(w, p2, i)
                &&& root_at(w, ls, targets, p2, t2)
                &&& artifact_of(w, targets, i, t2)
                &&& forall|a: int|
                    #![trigger is_ancestor(w, a, i)]
                    is_ancestor(w, a, i) && p2 < a ==> !artifact_of(w, targets, a, t2)
            };
        lemma_ancestor_trans(w, p2, i, j);
        lemma_root_unique(w, ls, targets, p, t, p2, t2, j);
        assert(!artifact_of(w, targets, i, t));
    }
}

} // verus!
