//! Bounded-depth directory discovery, as a state machine driven by the
//! embedding program.
//!
//! The walk always includes each processed directory itself; a directory at
//! the depth limit is recorded without listing it. Listing is the driver's
//! job: `step` asks for the next directory to list, and the driver answers
//! with the immediate subdirectories (`on_listing`) or with a failure
//! (`on_list_error`). A subtree whose root fails to list contributes
//! nothing, and the walk of the other branches continues; only a failure on
//! the walk's own root is treated as fatal, by the driver, as the run's sole
//! hard error.
//!
//! The laws below relate a complete run of the machine to a mathematical
//! model of the filesystem: a map from directory path to either its
//! immediate subdirectories or a listing failure. Whatever order the driver
//! processes directories in, the recorded set equals the set of directories
//! reachable from the root by at most the requested number of subdirectory
//! links, excluding any subtree rooted at a directory that fails to list.

use vstd::prelude::*;

verus! {

/// A discovered directory awaiting processing: its path and how many levels
/// below it the walk may still descend.
pub struct PendingDir {
    /// The directory path.
    pub path: String,
    /// Remaining depth below this directory.
    pub levels: usize,
}

/// What the walk asks of its driver next.
pub enum WalkAction {
    /// List the immediate subdirectories of this directory, then answer
    /// with `on_listing` or `on_list_error`.
    List(String),
    /// A directory at the depth limit was recorded without listing; step
    /// again.
    Recorded,
    /// The walk is complete.
    Done,
}

/// The discovery state machine.
pub struct Walker {
    /// Directories discovered but not yet processed.
    pub frontier: Vec<PendingDir>,
    /// Directories included in the result so far.
    pub found: Vec<String>,
    /// The directory whose listing was requested and not yet answered.
    pub pending: Option<PendingDir>,
}

/// The set of directories reachable from `p` by at most `levels`
/// subdirectory links, under filesystem model `m` (for each path, its
/// immediate subdirectories, or `None` where listing fails). A directory at
/// the depth limit is reached without being listed; one that fails to list
/// contributes nothing, itself included.
pub open spec fn reach(
    m: Map<Seq<char>, Option<Seq<Seq<char>>>>,
    p: Seq<char>,
    levels: nat,
) -> Set<Seq<char>>
    decreases levels, 0nat,
{
    if levels == 0 {
        set![p]
    } else if m.contains_key(p) && m[p] is Some {
        set![p].union(reach_children(m, m[p]->Some_0, (levels - 1) as nat))
    } else {
        Set::empty()
    }
}

/// The union of the reachable sets of a sequence of sibling directories.
pub open spec fn reach_children(
    m: Map<Seq<char>, Option<Seq<Seq<char>>>>,
    cs: Seq<Seq<char>>,
    levels: nat,
) -> Set<Seq<char>>
    decreases levels, cs.len() + 1,
{
    if cs.len() == 0 {
        Set::empty()
    } else {
        reach(m, cs[0], levels).union(reach_children(m, cs.drop_first(), levels))
    }
}

/// The union of the reachable sets of the frontier's entries.
pub open spec fn frontier_reach(
    m: Map<Seq<char>, Option<Seq<Seq<char>>>>,
    fr: Seq<PendingDir>,
) -> Set<Seq<char>>
    decreases fr.len(),
{
    if fr.len() == 0 {
        Set::empty()
    } else {
        frontier_reach(m, fr.drop_last()).union(
            reach(m, fr.last().path@, fr.last().levels as nat),
        )
    }
}

/// The reachable set still owed by an outstanding listing request.
pub open spec fn pending_reach(
    m: Map<Seq<char>, Option<Seq<Seq<char>>>>,
    p: Option<PendingDir>,
) -> Set<Seq<char>> {
    match p {
        Some(pd) => reach(m, pd.path@, pd.levels as nat),
        None => Set::empty(),
    }
}

/// The path views of a sequence of paths.
pub open spec fn path_views(ps: Seq<String>) -> Seq<Seq<char>> {
    ps.map_values(|s: String| s@)
}

/// The set of paths recorded so far.
pub open spec fn found_set(ps: Seq<String>) -> Set<Seq<char>> {
    Set::new(|x: Seq<char>| exists|i: int| 0 <= i < ps.len() && ps[i]@ == x)
}

/// The machine's invariant against model `m`: what was recorded, together
/// with everything the unprocessed state can still contribute, is exactly
/// the reachable set of the walk's root.
pub open spec fn walk_inv(
    m: Map<Seq<char>, Option<Seq<Seq<char>>>>,
    w: Walker,
    root: Seq<char>,
    depth: nat,
) -> bool {
    found_set(w.found@).union(frontier_reach(m, w.frontier@)).union(
        pending_reach(m, w.pending),
    ) == reach(m, root, depth)
}

impl Walker {
    /// Starts a walk of `root`, descending at most `depth` levels below it.
    pub fn new(root: String, depth: usize) -> (w: Walker)
        ensures
            w.found@ == Seq::<String>::empty(),
            w.frontier@.len() == 1,
            w.frontier@[0].path == root,
            w.frontier@[0].levels == depth,
            w.pending is None,
    {
        let mut frontier: Vec<PendingDir> = Vec::new();
        frontier.push(PendingDir { path: root, levels: depth });
        Walker { frontier, found: Vec::new(), pending: None }
    }

    /// Processes one frontier entry: records a directory at the depth
    /// limit, asks the driver to list one below it, or reports completion.
    pub fn step(&mut self) -> (r: WalkAction)
        requires
            old(self).pending is None,
        ensures
            match r {
                WalkAction::Done => {
                    &&& old(self).frontier@.len() == 0
                    &&& final(self).frontier@ == old(self).frontier@
                    &&& final(self).found@ == old(self).found@
                    &&& final(self).pending is None
                },
                WalkAction::Recorded => {
                    &&& old(self).frontier@.len() > 0
                    &&& old(self).frontier@.last().levels == 0
                    &&& final(self).frontier@ == old(self).frontier@.drop_last()
                    &&& final(self).found@ == old(self).found@.push(
                        old(self).frontier@.last().path,
                    )
                    &&& final(self).pending is None
                },
                WalkAction::List(p) => {
                    &&& old(self).frontier@.len() > 0
                    &&& old(self).frontier@.last().levels >= 1
                    &&& p == old(self).frontier@.last().path
                    &&& final(self).frontier@ == old(self).frontier@.drop_last()
                    &&& final(self).found@ == old(self).found@
                    &&& final(self).pending == Some(old(self).frontier@.last())
                },
            },
    {
        match self.frontier.pop() {
            None => WalkAction::Done,
            Some(pd) => {
                if pd.levels == 0 {
                    self.found.push(pd.path);
                    WalkAction::Recorded
                } else {
                    let p = pd.path.clone();
                    self.pending = Some(pd);
                    WalkAction::List(p)
                }
            },
        }
    }

    /// Answers an outstanding listing request: the listed directory is
    /// recorded, and each immediate subdirectory joins the frontier with one
    /// level less to descend.
    pub fn on_listing(&mut self, subdirs: Vec<String>)
        requires
            old(self).pending is Some,
            old(self).pending->Some_0.levels >= 1,
        ensures
            final(self).pending is None,
            final(self).found@ == old(self).found@.push(old(self).pending->Some_0.path),
            final(self).frontier@.len() == old(self).frontier@.len() + subdirs@.len(),
            forall|j: int|
                0 <= j < old(self).frontier@.len() ==> final(self).frontier@[j] == old(
                    self,
                ).frontier@[j],
            forall|j: int|
                0 <= j < subdirs@.len() ==> {
                    let e = final(self).frontier@[old(self).frontier@.len() + j];
                    e.path == #[trigger] subdirs@[j] && e.levels == (old(
                        self,
                    ).pending->Some_0.levels - 1) as usize
                },
    {
        let pd = self.pending.take().unwrap();
        let ghost pd0 = pd;
        let lv = pd.levels - 1;
        proof {
            assert(lv == (pd0.levels - 1) as usize);
        }
        self.found.push(pd.path);
        let ghost orig = subdirs@;
        let mut children: Vec<PendingDir> = Vec::new();
        let mut i: usize = 0;
        while i < subdirs.len()
            invariant
                i <= orig.len(),
                subdirs@ == orig,
                children@.len() == i,
                forall|j: int|
                    0 <= j < i ==> (#[trigger] children@[j]).path == orig[j] && children@[j].levels
                        == lv,
            decreases orig.len() - i,
        {
            let s = subdirs[i].clone();
            children.push(PendingDir { path: s, levels: lv });
            proof {
                assert(children@[i as int].path == orig[i as int]);
                assert(children@[i as int].levels == lv);
            }
            i += 1;
        }
        let ghost cs = children@;
        self.frontier.append(&mut children);
        proof {
            assert forall|j: int| 0 <= j < subdirs@.len() implies self.frontier@[old(
                self,
            ).frontier@.len() + j] == cs[j] by {}
            assert forall|j: int| 0 <= j < subdirs@.len() implies #[trigger] subdirs@[j]
                == cs[j].path by {}
            assert(pd0 == old(self).pending->Some_0);
            assert forall|j: int| 0 <= j < subdirs@.len() implies cs[j].levels == (old(
                self,
            ).pending->Some_0.levels - 1) as usize by {
                assert(cs[j].path == subdirs@[j]);
                assert(cs[j].levels == lv);
            }
        }
    }

    /// Answers an outstanding listing request with a failure: the directory
    /// and its subtree contribute nothing, and the walk continues.
    pub fn on_list_error(&mut self)
        requires
            old(self).pending is Some,
        ensures
            final(self).pending is None,
            final(self).found@ == old(self).found@,
            final(self).frontier@ == old(self).frontier@,
    {
        self.pending = None;
    }

    /// Whether the walk is complete.
    pub fn is_done(&self) -> (r: bool)
        ensures
            r == (self.frontier@.len() == 0 && self.pending is None),
    {
        self.frontier.len() == 0 && self.pending.is_none()
    }

    /// The recorded directories, consuming the machine.
    pub fn into_found(self) -> (r: Vec<String>)
        ensures
            r == self.found,
    {
        self.found
    }
}

/// Law: at depth zero the reachable set is exactly the root itself.
pub proof fn lemma_reach_depth_zero(m: Map<Seq<char>, Option<Seq<Seq<char>>>>, root: Seq<char>)
    ensures
        reach(m, root, 0) == set![root],
{
}

/// Law: the reachable set includes the root itself whenever the root's own
/// listing succeeds or the depth is zero. (A root whose listing fails is the
/// walk's one fatal case, surfaced by the driver.)
pub proof fn lemma_reach_contains_root(
    m: Map<Seq<char>, Option<Seq<Seq<char>>>>,
    root: Seq<char>,
    depth: nat,
)
    requires
        depth == 0 || (m.contains_key(root) && m[root] is Some),
    ensures
        reach(m, root, depth).contains(root),
{
    assert(set![root].contains(root));
}

proof fn lemma_reach_children_snoc(
    m: Map<Seq<char>, Option<Seq<Seq<char>>>>,
    cs: Seq<Seq<char>>,
    levels: nat,
)
    requires
        cs.len() > 0,
    ensures
        reach_children(m, cs, levels) == reach_children(m, cs.drop_last(), levels).union(
            reach(m, cs.last(), levels),
        ),
    decreases cs.len(),
{
    if cs.len() == 1 {
        assert(cs.drop_first().len() == 0);
        assert(cs.drop_last().len() == 0);
        assert(reach_children(m, cs.drop_first(), levels) == Set::<Seq<char>>::empty());
        assert(reach_children(m, cs.drop_last(), levels) == Set::<Seq<char>>::empty());
        assert(cs.last() == cs[0]);
        assert(reach_children(m, cs, levels) =~= reach_children(m, cs.drop_last(), levels).union(
            reach(m, cs.last(), levels),
        ));
    } else {
        lemma_reach_children_snoc(m, cs.drop_first(), levels);
        assert(cs.drop_first().drop_last() =~= cs.drop_last().drop_first());
        assert(cs.drop_first().last() == cs.last());
        assert(cs.drop_last()[0] == cs[0]);
        assert(cs.drop_last().len() > 0);
        assert(reach_children(m, cs, levels) == reach(m, cs[0], levels).union(
            reach_children(m, cs.drop_first(), levels),
        ));
        assert(reach_children(m, cs.drop_last(), levels) == reach(m, cs[0], levels).union(
            reach_children(m, cs.drop_last().drop_first(), levels),
        ));
        assert(reach_children(m, cs.drop_first(), levels) == reach_children(
            m,
            cs.drop_last().drop_first(),
            levels,
        ).union(reach(m, cs.last(), levels)));
        assert(reach_children(m, cs, levels) =~= reach_children(m, cs.drop_last(), levels).union(
            reach(m, cs.last(), levels),
        ));
    }
}

proof fn lemma_frontier_reach_append(
    m: Map<Seq<char>, Option<Seq<Seq<char>>>>,
    a: Seq<PendingDir>,
    b: Seq<PendingDir>,
)
    ensures
        frontier_reach(m, a + b) == frontier_reach(m, a).union(frontier_reach(m, b)),
    decreases b.len(),
{
    if b.len() == 0 {
        assert(a + b =~= a);
        assert(frontier_reach(m, a + b) =~= frontier_reach(m, a).union(frontier_reach(m, b)));
    } else {
        lemma_frontier_reach_append(m, a, b.drop_last());
        assert((a + b).drop_last() =~= a + b.drop_last());
        assert((a + b).last() == b.last());
        assert(frontier_reach(m, a + b) =~= frontier_reach(m, a).union(frontier_reach(m, b)));
    }
}

proof fn lemma_frontier_reach_uniform(
    m: Map<Seq<char>, Option<Seq<Seq<char>>>>,
    fr: Seq<PendingDir>,
    cs: Seq<Seq<char>>,
    levels: nat,
)
    requires
        fr.len() == cs.len(),
        forall|j: int|
            0 <= j < fr.len() ==> (#[trigger] fr[j]).path@ == cs[j] && fr[j].levels == levels,
    ensures
        frontier_reach(m, fr) == reach_children(m, cs, levels),
    decreases fr.len(),
{
    if fr.len() == 0 {
        assert(frontier_reach(m, fr) =~= reach_children(m, cs, levels));
    } else {
        assert forall|j: int|
            0 <= j < fr.drop_last().len() implies (#[trigger] fr.drop_last()[j]).path@
            == cs.drop_last()[j] && fr.drop_last()[j].levels == levels by {
            assert(fr[j].path@ == cs[j]);
        }
        lemma_frontier_reach_uniform(m, fr.drop_last(), cs.drop_last(), levels);
        lemma_reach_children_snoc(m, cs, levels);
        assert(fr[fr.len() - 1].path@ == cs[fr.len() - 1]);
        assert(frontier_reach(m, fr) =~= reach_children(m, cs, levels));
    }
}

proof fn lemma_found_set_push(ps: Seq<String>, s: String)
    ensures
        found_set(ps.push(s)) == found_set(ps).insert(s@),
{
    assert forall|x: Seq<char>| found_set(ps.push(s)).contains(x) implies found_set(ps).insert(
        s@,
    ).contains(x) by {
        let i = choose|i: int| 0 <= i < ps.push(s).len() && ps.push(s)[i]@ == x;
        if i < ps.len() {
            assert(ps[i]@ == x);
        } else {
            assert(x == s@);
        }
    }
    assert forall|x: Seq<char>| found_set(ps).insert(s@).contains(x) implies found_set(
        ps.push(s),
    ).contains(x) by {
        if found_set(ps).contains(x) {
            let i = choose|i: int| 0 <= i < ps.len() && ps[i]@ == x;
            assert(ps.push(s)[i]@ == x);
        } else {
            assert(ps.push(s)[ps.len() as int]@ == x);
        }
    }
    assert(found_set(ps.push(s)) =~= found_set(ps).insert(s@));
}

/// Law: a fresh walk satisfies the invariant — nothing is recorded yet, and
/// the frontier owes exactly the root's reachable set.
pub proof fn lemma_walk_init(
    m: Map<Seq<char>, Option<Seq<Seq<char>>>>,
    w: Walker,
    root: Seq<char>,
    depth: nat,
)
    requires
        w.found@.len() == 0,
        w.frontier@.len() == 1,
        w.frontier@[0].path@ == root,
        w.frontier@[0].levels == depth,
        w.pending is None,
    ensures
        walk_inv(m, w, root, depth),
{
    assert(w.frontier@.drop_last() =~= Seq::<PendingDir>::empty());
    assert(w.frontier@.last() == w.frontier@[0]);
    assert(frontier_reach(m, w.frontier@) == frontier_reach(m, w.frontier@.drop_last()).union(
        reach(m, w.frontier@.last().path@, w.frontier@.last().levels as nat),
    ));
    assert(frontier_reach(m, Seq::<PendingDir>::empty()) == Set::<Seq<char>>::empty());
    assert(reach(m, w.frontier@.last().path@, w.frontier@.last().levels as nat) == reach(
        m,
        root,
        depth,
    ));
    assert(found_set(w.found@).union(frontier_reach(m, w.frontier@)).union(
        pending_reach(m, w.pending),
    ) =~= reach(m, root, depth));
}

/// Law: recording a depth-limit directory preserves the invariant — the
/// directory moves from the frontier's promise into the recorded set.
pub proof fn lemma_walk_step_recorded(
    m: Map<Seq<char>, Option<Seq<Seq<char>>>>,
    w1: Walker,
    w2: Walker,
    root: Seq<char>,
    depth: nat,
)
    requires
        walk_inv(m, w1, root, depth),
        w1.pending is None,
        w1.frontier@.len() > 0,
        w1.frontier@.last().levels == 0,
        w2.frontier@ == w1.frontier@.drop_last(),
        w2.found@ == w1.found@.push(w1.frontier@.last().path),
        w2.pending is None,
    ensures
        walk_inv(m, w2, root, depth),
{
    let p = w1.frontier@.last().path@;
    assert(reach(m, p, 0) == set![p]);
    lemma_found_set_push(w1.found@, w1.frontier@.last().path);
    assert(found_set(w2.found@).union(frontier_reach(m, w2.frontier@)).union(
        pending_reach(m, w2.pending),
    ) =~= found_set(w1.found@).union(frontier_reach(m, w1.frontier@)).union(
        pending_reach(m, w1.pending),
    ));
}

/// Law: asking for a listing preserves the invariant — the directory's
/// promise moves from the frontier to the outstanding request.
pub proof fn lemma_walk_step_list(
    m: Map<Seq<char>, Option<Seq<Seq<char>>>>,
    w1: Walker,
    w2: Walker,
    root: Seq<char>,
    depth: nat,
)
    requires
        walk_inv(m, w1, root, depth),
        w1.pending is None,
        w1.frontier@.len() > 0,
        w1.frontier@.last().levels >= 1,
        w2.frontier@ == w1.frontier@.drop_last(),
        w2.found@ == w1.found@,
        w2.pending == Some(w1.frontier@.last()),
    ensures
        walk_inv(m, w2, root, depth),
{
    assert(found_set(w2.found@).union(frontier_reach(m, w2.frontier@)).union(
        pending_reach(m, w2.pending),
    ) =~= found_set(w1.found@).union(frontier_reach(m, w1.frontier@)).union(
        pending_reach(m, w1.pending),
    ));
}

/// Law: a successful listing preserves the invariant, provided the answer
/// agrees with the model — the listed directory is recorded and its
/// immediate subdirectories take over its remaining promise.
pub proof fn lemma_walk_on_listing(
    m: Map<Seq<char>, Option<Seq<Seq<char>>>>,
    w1: Walker,
    w2: Walker,
    root: Seq<char>,
    depth: nat,
    subdirs: Seq<String>,
)
    requires
        walk_inv(m, w1, root, depth),
        w1.pending is Some,
        w1.pending->Some_0.levels >= 1,
        m.contains_key(w1.pending->Some_0.path@),
        m[w1.pending->Some_0.path@] == Some(path_views(subdirs)),
        w2.pending is None,
        w2.found@ == w1.found@.push(w1.pending->Some_0.path),
        w2.frontier@.len() == w1.frontier@.len() + subdirs.len(),
        forall|j: int| 0 <= j < w1.frontier@.len() ==> w2.frontier@[j] == w1.frontier@[j],
        forall|j: int|
            0 <= j < subdirs.len() ==> {
                let e = w2.frontier@[w1.frontier@.len() + j];
                e.path == #[trigger] subdirs[j] && e.levels == (w1.pending->Some_0.levels
                    - 1) as usize
            },
    ensures
        walk_inv(m, w2, root, depth),
{
    let pd = w1.pending->Some_0;
    let lv = (pd.levels - 1) as nat;
    let suffix = w2.frontier@.skip(w1.frontier@.len() as int);
    assert(w2.frontier@ =~= w1.frontier@ + suffix);
    lemma_frontier_reach_append(m, w1.frontier@, suffix);
    assert forall|j: int|
        0 <= j < suffix.len() implies (#[trigger] suffix[j]).path@ == path_views(subdirs)[j]
        && suffix[j].levels == lv by {
        assert(suffix[j] == w2.frontier@[w1.frontier@.len() + j]);
        assert(w2.frontier@[w1.frontier@.len() + j].path == subdirs[j]);
    }
    lemma_frontier_reach_uniform(m, suffix, path_views(subdirs), lv);
    assert(reach(m, pd.path@, pd.levels as nat) == set![pd.path@].union(
        reach_children(m, path_views(subdirs), lv),
    ));
    lemma_found_set_push(w1.found@, pd.path);
    assert(found_set(w2.found@).union(frontier_reach(m, w2.frontier@)).union(
        pending_reach(m, w2.pending),
    ) =~= found_set(w1.found@).union(frontier_reach(m, w1.frontier@)).union(
        pending_reach(m, w1.pending),
    ));
}

/// Law: a failed listing preserves the invariant — under the model, a
/// directory that fails to list contributes nothing, itself included.
pub proof fn lemma_walk_on_error(
    m: Map<Seq<char>, Option<Seq<Seq<char>>>>,
    w1: Walker,
    w2: Walker,
    root: Seq<char>,
    depth: nat,
)
    requires
        walk_inv(m, w1, root, depth),
        w1.pending is Some,
        w1.pending->Some_0.levels >= 1,
        !(m.contains_key(w1.pending->Some_0.path@) && m[w1.pending->Some_0.path@] is Some),
        w2.pending is None,
        w2.found@ == w1.found@,
        w2.frontier@ == w1.frontier@,
    ensures
        walk_inv(m, w2, root, depth),
{
    let pd = w1.pending->Some_0;
    assert(reach(m, pd.path@, pd.levels as nat) == Set::<Seq<char>>::empty());
    assert(found_set(w2.found@).union(frontier_reach(m, w2.frontier@)).union(
        pending_reach(m, w2.pending),
    ) =~= found_set(w1.found@).union(frontier_reach(m, w1.frontier@)).union(
        pending_reach(m, w1.pending),
    ));
}

/// Law: when the walk is complete, the recorded set is exactly the set of
/// directories reachable from the root by at most `depth` subdirectory
/// links, excluding any subtree rooted at a directory that fails to list.
pub proof fn lemma_walk_complete(
    m: Map<Seq<char>, Option<Seq<Seq<char>>>>,
    w: Walker,
    root: Seq<char>,
    depth: nat,
)
    requires
        walk_inv(m, w, root, depth),
        w.frontier@.len() == 0,
        w.pending is None,
    ensures
        found_set(w.found@) == reach(m, root, depth),
{
    assert(found_set(w.found@) =~= found_set(w.found@).union(frontier_reach(m, w.frontier@)).union(
        pending_reach(m, w.pending),
    ));
}

/// Law: a complete walk has recorded the root itself, whatever the depth,
/// unless the root's own listing failed (which the driver treats as fatal).
pub proof fn lemma_walk_root_recorded(
    m: Map<Seq<char>, Option<Seq<Seq<char>>>>,
    w: Walker,
    root: Seq<char>,
    depth: nat,
)
    requires
        walk_inv(m, w, root, depth),
        w.frontier@.len() == 0,
        w.pending is None,
        depth == 0 || (m.contains_key(root) && m[root] is Some),
    ensures
        found_set(w.found@).contains(root),
{
    lemma_walk_complete(m, w, root, depth);
    lemma_reach_contains_root(m, root, depth);
}

} // verus!
