//! Walking the commit history of the tracked file.  Reading objects from
//! the repository is left to the caller; this module decides which commit to
//! read next, which commits are new, and in which order they are reported.
use vstd::prelude::*;
use vstd::hash_map::StringHashMap;

verus! {

broadcast use vstd::hash_map::group_hash_map_axioms;

/// A commit in which the tracked file exists, with the file's content.
#[derive(Debug)]
pub struct CommitInfo {
    pub hash: String,
    /// Commit time, in seconds since the Unix epoch (UTC).
    pub timestamp: i64,
    pub blob_content: Vec<u8>,
}

/// A commit as plain values: its hash, time and the file's content.
pub open spec fn commit_view(c: CommitInfo) -> (Seq<char>, int, Seq<u8>) {
    (c.hash@, c.timestamp as int, c.blob_content@)
}

/// No element occurs twice.
pub open spec fn no_repeats(s: Seq<Seq<char>>) -> bool {
    forall|i: int, j: int| 0 <= i < j < s.len() ==> #[trigger] s[i] != #[trigger] s[j]
}

/// The parents recorded for each commit read, as a graph.
pub type Graph = Map<Seq<char>, Seq<Seq<char>>>;

/// `p` is a recorded parent of `c`.
pub open spec fn is_parent(g: Graph, c: Seq<char>, p: Seq<char>) -> bool {
    g.contains_key(c) && g[c].contains(p)
}

/// `s` follows parents: each commit of it is followed by one of its parents.
pub open spec fn chain(g: Graph, s: Seq<Seq<char>>) -> bool {
    s.len() >= 1 && forall|i: int| 0 <= i < s.len() - 1 ==> #[trigger] link(g, s, i)
}

/// The commit at `i + 1` is a parent of the one at `i`.
pub open spec fn link(g: Graph, s: Seq<Seq<char>>, i: int) -> bool {
    is_parent(g, s[i], s[i + 1])
}

/// Every commit of `x` was read, and its parents are in `x` too.
pub open spec fn closed(g: Graph, x: Set<Seq<char>>) -> bool {
    forall|c: Seq<char>| #[trigger] x.contains(c) ==> g.contains_key(c)
        && forall|i: int| 0 <= i < g[c].len() ==> x.contains(#[trigger] g[c][i])
}

/// Every commit of `c` was read, and its parents are in `c` or in `x`.
pub open spec fn closed_beside(g: Graph, c: Set<Seq<char>>, x: Set<Seq<char>>) -> bool {
    forall|a: Seq<char>| #[trigger] c.contains(a) ==> g.contains_key(a)
        && forall|i: int| 0 <= i < g[a].len() ==> c.contains(#[trigger] g[a][i]) || x.contains(g[a][i])
}

/// The first `k` commits of `o` come after their parents that `o` holds.
pub open spec fn parents_first(g: Graph, o: Seq<Seq<char>>, k: int) -> bool {
    forall|i: int, p: Seq<char>| 0 <= i < k && #[trigger] is_parent(g, o[i], p) && o.contains(p)
        ==> exists|j: int| 0 <= j < i && #[trigger] o[j] == p
}

/// Every parent of `x` that is in `c` is in `s`.
pub open spec fn ready(g: Graph, c: Set<Seq<char>>, s: Seq<Seq<char>>, x: Seq<char>) -> bool {
    forall|p: Seq<char>| #[trigger] is_parent(g, x, p) && c.contains(p) ==> s.contains(p)
}

/// `o` orders the commits of `c`, each once: the first `k` after their
/// parents; each commit after them has a parent in `c` that is not among the
/// first `k` (so they lie on or above a cycle of parents, which a Git
/// history does not have).
pub open spec fn walk_order(g: Graph, c: Set<Seq<char>>, o: Seq<Seq<char>>, k: int) -> bool {
    &&& no_repeats(o)
    &&& forall|h: Seq<char>| o.contains(h) <==> c.contains(h)
    &&& 0 <= k <= o.len()
    &&& parents_first(g, o, k)
    &&& forall|i: int| k <= i < o.len() ==> !ready(g, c, o.take(k), #[trigger] o[i])
}

/// The commits of `o` in which the file exists, with its content, in order.
pub open spec fn reported_of(o: Seq<Seq<char>>, files: Map<Seq<char>, Option<(int, Seq<u8>)>>) -> Seq<(Seq<char>, int, Seq<u8>)>
    decreases o.len(),
{
    if o.len() == 0 {
        Seq::empty()
    } else {
        let prev = reported_of(o.drop_last(), files);
        match files[o.last()] {
            Some(f) => prev.push((o.last(), f.0, f.1)),
            None => prev,
        }
    }
}

/// `path` runs from `a` to `b` through recorded parents and touches no
/// commit of `avoid`.
pub open spec fn path_from(g: Graph, path: Seq<Seq<char>>, a: Seq<char>, b: Seq<char>, avoid: Set<Seq<char>>) -> bool {
    &&& chain(g, path)
    &&& path[0] == a
    &&& path.last() == b
    &&& forall|i: int| 0 <= i < path.len() ==> !avoid.contains(#[trigger] path[i])
}

/// `b` is `a` or an ancestor of `a` through recorded parents, along a path
/// that touches no commit of `avoid`.
pub open spec fn reaches(g: Graph, a: Seq<char>, b: Seq<char>, avoid: Set<Seq<char>>) -> bool {
    exists|path: Seq<Seq<char>>| #[trigger] path_from(g, path, a, b, avoid)
}

/// Every commit of `x` is reached from `a` while avoiding `avoid`.
pub open spec fn all_reached(g: Graph, a: Seq<char>, x: Set<Seq<char>>, avoid: Set<Seq<char>>) -> bool {
    forall|y: Seq<char>| #[trigger] x.contains(y) ==> reaches(g, a, y, avoid)
}

proof fn lemma_reaches_self(g: Graph, a: Seq<char>, avoid: Set<Seq<char>>)
    requires
        !avoid.contains(a),
    ensures
        reaches(g, a, a, avoid),
{
    let path = seq![a];
    assert(path_from(g, path, a, a, avoid));
}

/// Recording a commit that was not read before keeps every path.
proof fn lemma_reaches_keep(g: Graph, c: Seq<char>, ps: Seq<Seq<char>>, a: Seq<char>, b: Seq<char>, avoid: Set<Seq<char>>)
    requires
        !g.contains_key(c),
        reaches(g, a, b, avoid),
    ensures
        reaches(g.insert(c, ps), a, b, avoid),
{
    let path = choose|path: Seq<Seq<char>>| #[trigger] path_from(g, path, a, b, avoid);
    let g2 = g.insert(c, ps);
    assert forall|i: int| 0 <= i < path.len() - 1 implies #[trigger] link(g2, path, i) by {
        assert(link(g, path, i));
    }
    assert(path_from(g2, path, a, b, avoid));
}

proof fn lemma_all_reached_keep(g: Graph, c: Seq<char>, ps: Seq<Seq<char>>, a: Seq<char>, x: Set<Seq<char>>, avoid: Set<Seq<char>>)
    requires
        !g.contains_key(c),
        all_reached(g, a, x, avoid),
    ensures
        all_reached(g.insert(c, ps), a, x, avoid),
{
    assert forall|y: Seq<char>| #[trigger] x.contains(y) implies reaches(g.insert(c, ps), a, y, avoid) by {
        lemma_reaches_keep(g, c, ps, a, y, avoid);
    }
}

/// A path to `b` goes on to any recorded parent of `b` outside `avoid`.
proof fn lemma_reaches_extend(g: Graph, a: Seq<char>, b: Seq<char>, p: Seq<char>, avoid: Set<Seq<char>>)
    requires
        reaches(g, a, b, avoid),
        is_parent(g, b, p),
        !avoid.contains(p),
    ensures
        reaches(g, a, p, avoid),
{
    let path = choose|path: Seq<Seq<char>>| #[trigger] path_from(g, path, a, b, avoid);
    let q = path.push(p);
    assert forall|i: int| 0 <= i < q.len() - 1 implies #[trigger] link(g, q, i) by {
        if i < path.len() - 1 {
            assert(link(g, path, i));
            assert(q[i] == path[i] && q[i + 1] == path[i + 1]);
        } else {
            assert(q[i] == b && q[i + 1] == p);
        }
    }
    assert forall|i: int| 0 <= i < q.len() implies !avoid.contains(#[trigger] q[i]) by {
        if i < path.len() {
            assert(q[i] == path[i]);
        }
    }
    assert(path_from(g, q, a, p, avoid));
}

/// Where a walk is.
#[derive(Debug, Clone, Copy, PartialEq, Eq, Structural)]
pub enum Phase {
    /// Reading the last processed commit and its ancestors, which are not new.
    Excluding,
    /// Reading the commits reachable from HEAD that are new.
    Collecting,
    /// Every commit needed has been read.
    Done,
}

/// A commit read while collecting: its parents and, if the file exists in
/// it, the commit time and the file's content.
struct Collected {
    hash: String,
    file: Option<(i64, Vec<u8>)>,
    parents: Vec<String>,
}

pub open spec fn opt_file_view(f: Option<(i64, Vec<u8>)>) -> Option<(int, Seq<u8>)> {
    match f {
        Some(x) => Some((x.0 as int, x.1@)),
        None => None,
    }
}

/// A walk over the commit graph.  The last processed commit and all its
/// ancestors are read first and set aside; then every commit reachable from
/// HEAD that is not set aside is read once.  Every commit read that way in
/// which the file exists is reported, whether or not it changed the file
/// (a commit that leaves the file as it was yields no new versions later),
/// with ancestors before descendants.
pub struct HistoryWalk {
    head: String,
    stop_at: Option<String>,
    phase: Phase,
    stack: Vec<String>,
    excluded: StringHashMap<bool>,
    visited: StringHashMap<bool>,
    current: Option<String>,
    collected: Vec<Collected>,
    graph: Ghost<Graph>,
}

impl HistoryWalk {
    pub closed spec fn head(&self) -> Seq<char> {
        self.head@
    }

    pub closed spec fn stop_at(&self) -> Option<Seq<char>> {
        match self.stop_at {
            Some(c) => Some(c@),
            None => None,
        }
    }

    pub closed spec fn phase(&self) -> Phase {
        self.phase
    }

    /// Commits still to read, the next one last.
    pub closed spec fn stack(&self) -> Seq<Seq<char>> {
        self.stack@.map_values(|s: String| s@)
    }

    /// The last processed commit and the ancestors of it found so far.
    pub closed spec fn excluded(&self) -> Set<Seq<char>> {
        self.excluded@.dom()
    }

    /// Commits met while collecting.
    pub closed spec fn visited(&self) -> Set<Seq<char>> {
        self.visited@.dom()
    }

    /// The commit handed out by `next` and not yet recorded.
    pub closed spec fn current(&self) -> Option<Seq<char>> {
        match self.current {
            Some(c) => Some(c@),
            None => None,
        }
    }

    /// The parents recorded for each commit read.
    pub closed spec fn graph(&self) -> Graph {
        self.graph@
    }

    /// The commits read while collecting, in the order they were read.
    pub closed spec fn collected(&self) -> Seq<Seq<char>> {
        self.collected@.map_values(|c: Collected| c.hash@)
    }

    /// For each commit read while collecting, the time and file content if
    /// the file exists in it.
    pub closed spec fn files(&self) -> Map<Seq<char>, Option<(int, Seq<u8>)>> {
        Map::new(
            |h: Seq<char>| self.collected().contains(h),
            |h: Seq<char>| opt_file_view(self.collected@[self.collected().index_of(h)].file),
        )
    }

    /// Each collected commit keeps the parents recorded for it.
    pub closed spec fn parents_stored(&self) -> bool {
        forall|i: int| 0 <= i < self.collected().len() ==> #[trigger] self.graph().contains_key(self.collected()[i])
            && self.graph()[self.collected()[i]] == self.collected@[i].parents@.map_values(|p: String| p@)
    }

    /// The collected commits as a set.
    pub open spec fn collected_set(&self) -> Set<Seq<char>> {
        self.collected().to_set()
    }

    /// The walk's invariant.
    pub open spec fn wf(&self) -> bool {
        &&& self.stop_at() matches Some(s) ==> self.excluded().contains(s)
        &&& match self.stop_at() {
            Some(s) => all_reached(self.graph(), s, self.excluded(), Set::empty()),
            None => self.excluded() == Set::<Seq<char>>::empty(),
        }
        &&& no_repeats(self.collected())
        &&& no_repeats(self.stack())
        &&& forall|i: int| 0 <= i < self.stack().len() ==> !self.graph().contains_key(#[trigger] self.stack()[i])
        &&& (self.current() matches Some(c) ==> !self.stack().contains(c) && !self.graph().contains_key(c))
        &&& self.phase() == Phase::Excluding ==> {
            &&& self.collected().len() == 0
            &&& self.visited().is_empty()
            &&& forall|k: Seq<char>| #[trigger] self.graph().contains_key(k) ==> self.excluded().contains(k)
            &&& forall|i: int| 0 <= i < self.stack().len() ==> self.excluded().contains(#[trigger] self.stack()[i])
            &&& (self.current() matches Some(c) ==> self.excluded().contains(c))
            &&& forall|x: Seq<char>| #[trigger] self.excluded().contains(x) ==> self.stack().contains(x)
                || self.current() == Some(x)
                || (self.graph().contains_key(x) && forall|i: int| 0 <= i < self.graph()[x].len()
                    ==> self.excluded().contains(#[trigger] self.graph()[x][i]))
        }
        &&& self.phase() != Phase::Excluding ==> {
            &&& closed(self.graph(), self.excluded())
            &&& self.visited().disjoint(self.excluded())
            &&& self.visited().contains(self.head()) || self.excluded().contains(self.head())
            &&& all_reached(self.graph(), self.head(), self.visited(), self.excluded())
            &&& forall|k: Seq<char>| #[trigger] self.graph().contains_key(k) ==> self.excluded().contains(k)
                || self.collected().contains(k)
            &&& forall|i: int| 0 <= i < self.stack().len() ==> self.visited().contains(#[trigger] self.stack()[i])
            &&& forall|i: int| 0 <= i < self.stack().len() ==> !self.collected().contains(#[trigger] self.stack()[i])
            &&& forall|v: Seq<char>| #[trigger] self.visited().contains(v) ==> self.stack().contains(v)
                || self.current() == Some(v) || self.collected().contains(v)
            &&& forall|i: int| 0 <= i < self.collected().len() ==> self.visited().contains(#[trigger] self.collected()[i])
            &&& closed_beside(self.graph(), self.collected_set(), self.visited().union(self.excluded()))
            &&& self.parents_stored()
            &&& (self.current() matches Some(c) ==> self.visited().contains(c) && !self.collected().contains(c))
            &&& self.phase() == Phase::Done ==> self.stack().len() == 0 && self.current() is None
        }
    }
}

impl HistoryWalk {
    /// Starts a walk at `head`; the commits that are `last_processed` or its
    /// ancestors are not new.
    pub fn new(head: String, last_processed: Option<String>) -> (w: HistoryWalk)
        ensures
            w.wf(),
            w.head() == head@,
            w.stop_at() == (match last_processed { Some(c) => Some(c@), None => None }),
            w.phase() == Phase::Excluding,
            w.current() is None,
            w.graph() == Map::<Seq<char>, Seq<Seq<char>>>::empty(),
    {
        let mut excluded = StringHashMap::<bool>::new();
        let mut stack: Vec<String> = Vec::new();
        match &last_processed {
            Some(s) => {
                excluded.insert(s.clone(), true);
                stack.push(s.clone());
            },
            None => {},
        }
        let w = HistoryWalk {
            head,
            stop_at: last_processed,
            phase: Phase::Excluding,
            stack,
            excluded,
            visited: StringHashMap::<bool>::new(),
            current: None,
            collected: Vec::new(),
            graph: Ghost(Map::empty()),
        };
        proof {
            assert forall|x: Seq<char>| #[trigger] w.excluded().contains(x) implies w.stack().contains(x) by {
                assert(w.stack()[0] == x);
            }
            assert(w.collected() =~= Seq::<Seq<char>>::empty());
            match w.stop_at() {
                Some(s) => {
                    assert forall|y: Seq<char>| #[trigger] w.excluded().contains(y)
                        implies reaches(w.graph(), s, y, Set::empty()) by {
                        lemma_reaches_self(w.graph(), s, Set::empty());
                    }
                },
                None => {
                    assert(w.excluded() =~= Set::<Seq<char>>::empty());
                },
            }
        }
        w
    }

    /// Whether the caller should read the tracked file of the commit handed
    /// out: only while collecting.
    pub fn wants_file(&self) -> (b: bool)
        ensures
            b == (self.phase() == Phase::Collecting),
    {
        self.phase == Phase::Collecting
    }

    /// Starts collecting: from HEAD, unless HEAD is set aside.
    fn start_collecting(&mut self)
        requires
            old(self).wf(),
            old(self).phase() == Phase::Excluding,
            old(self).stack().len() == 0,
            old(self).current() is None,
        ensures
            final(self).wf(),
            final(self).phase() != Phase::Excluding,
            final(self).graph() == old(self).graph(),
            final(self).excluded() == old(self).excluded(),
            final(self).head() == old(self).head(),
            final(self).stop_at() == old(self).stop_at(),
            final(self).current() is None,
            final(self).collected().len() == 0,
    {
        if self.excluded.contains_key(self.head.as_str()) {
            self.phase = Phase::Done;
            assert(self.visited().disjoint(self.excluded()));
        } else {
            let h = self.head.clone();
            self.visited.insert(h.clone(), true);
            self.stack.push(h);
            self.phase = Phase::Collecting;
            proof {
                assert(self.stack() =~= seq![self.head()]);
                assert(self.visited() =~= set![self.head()]);
                assert forall|v: Seq<char>| #[trigger] self.visited().contains(v) implies self.stack().contains(v)
                    || self.current() == Some(v) || self.collected().contains(v) by {
                    assert(self.stack()[0] == v);
                }
                assert(!self.graph().contains_key(self.head())) by {
                    if old(self).graph().contains_key(self.head()) {
                        assert(old(self).excluded().contains(self.head()));
                    }
                }
                assert(!self.graph().contains_key(self.stack()[0]));
                assert forall|y: Seq<char>| #[trigger] self.visited().contains(y)
                    implies reaches(self.graph(), self.head(), y, self.excluded()) by {
                    lemma_reaches_self(self.graph(), self.head(), self.excluded());
                }
            }
        }
        proof {
            assert(self.collected_set() =~= Set::<Seq<char>>::empty());
            assert(self.collected().len() == 0);
            assert(self.excluded() == old(self).excluded() && self.graph() == old(self).graph());
            assert forall|x: Seq<char>| #[trigger] self.excluded().contains(x) implies self.graph().contains_key(x)
                && forall|i: int| 0 <= i < self.graph()[x].len() ==> self.excluded().contains(#[trigger] self.graph()[x][i]) by {
                assert(old(self).excluded().contains(x));
                assert(!old(self).stack().contains(x));
            }
            assert(closed(self.graph(), self.excluded()));
            assert(self.visited().disjoint(self.excluded()));
            assert(self.visited().contains(self.head()) || self.excluded().contains(self.head()));
            assert(no_repeats(self.stack()));
            assert(self.parents_stored());
            assert(closed_beside(self.graph(), self.collected_set(), self.visited().union(self.excluded())));
        }
    }

    /// The next commit to read, or `None` when every commit needed has been
    /// read.
    pub fn next(&mut self) -> (r: Option<String>)
        requires
            old(self).wf(),
            old(self).current() is None,
        ensures
            final(self).wf(),
            final(self).graph() == old(self).graph(),
            final(self).head() == old(self).head(),
            final(self).stop_at() == old(self).stop_at(),
            final(self).collected() == old(self).collected(),
            r is None <==> final(self).phase() == Phase::Done,
            r matches Some(c) ==> final(self).current() == Some(c@),
            r is None ==> final(self).current() is None,
    {
        if self.phase == Phase::Excluding {
            let ghost before = self.stack();
            match self.stack.pop() {
                Some(id) => {
                    proof {
                        assert(self.stack() =~= before.drop_last());
                        assert(before[before.len() - 1] == id@);
                    }
                    self.current = Some(id.clone());
                    proof {
                        assert forall|x: Seq<char>| #[trigger] self.excluded().contains(x) implies self.stack().contains(x)
                            || self.current() == Some(x)
                            || (self.graph().contains_key(x) && forall|i: int| 0 <= i < self.graph()[x].len()
                                ==> self.excluded().contains(#[trigger] self.graph()[x][i])) by {
                            if before.contains(x) && x != id@ {
                                let j = choose|j: int| 0 <= j < before.len() && before[j] == x;
                                assert(self.stack()[j] == x);
                            }
                        }
                        assert forall|i: int| 0 <= i < self.stack().len() implies self.excluded().contains(#[trigger] self.stack()[i]) by {
                            assert(self.stack()[i] == before[i]);
                        }
                    }
                    return Some(id);
                },
                None => {
                    proof {
                        assert(self.stack() =~= before);
                        assert(self.excluded() == old(self).excluded() && self.graph() == old(self).graph());
                        assert forall|x: Seq<char>| #[trigger] self.excluded().contains(x) implies self.stack().contains(x)
                            || self.current() == Some(x)
                            || (self.graph().contains_key(x) && forall|i: int| 0 <= i < self.graph()[x].len()
                                ==> self.excluded().contains(#[trigger] self.graph()[x][i])) by {
                            assert(old(self).excluded().contains(x));
                        }
                    }
                    self.start_collecting();
                },
            }
        }
        if self.phase == Phase::Done {
            return None;
        }
        let ghost before = self.stack();
        match self.stack.pop() {
            None => {
                self.phase = Phase::Done;
                proof {
                    assert(self.stack() =~= before);
                }
                None
            },
            Some(id) => {
                proof {
                    assert(self.stack() =~= before.drop_last());
                    assert(before[before.len() - 1] == id@);
                }
                self.current = Some(id.clone());
                proof {
                    assert forall|v: Seq<char>| #[trigger] self.visited().contains(v) implies self.stack().contains(v)
                        || self.current() == Some(v) || self.collected().contains(v) by {
                        if before.contains(v) && v != id@ {
                            let j = choose|j: int| 0 <= j < before.len() && before[j] == v;
                            assert(j != before.len() - 1);
                            assert(self.stack()[j] == v);
                        }
                    }
                    assert forall|i: int, j: int| 0 <= i < j < self.stack().len() implies #[trigger] self.stack()[i] != #[trigger] self.stack()[j] by {
                        assert(self.stack()[i] == before[i] && self.stack()[j] == before[j]);
                    }
                    assert forall|i: int| 0 <= i < self.stack().len() implies self.visited().contains(#[trigger] self.stack()[i])
                        && !self.collected().contains(self.stack()[i]) by {
                        assert(self.stack()[i] == before[i]);
                    }
                    assert(!self.stack().contains(id@)) by {
                        if self.stack().contains(id@) {
                            let j = choose|j: int| 0 <= j < self.stack().len() && self.stack()[j] == id@;
                            assert(before[j] == before[before.len() - 1]);
                        }
                    }
                    assert(!self.collected().contains(id@)) by {
                        assert(before[before.len() - 1] == id@);
                    }
                }
                Some(id)
            },
        }
    }
}

impl HistoryWalk {
    /// Records the commit handed out by `next`: its parents and, while
    /// collecting, whether the tracked file exists in it (with the commit
    /// time and the file's content).  Parents not read yet are queued.
    pub fn record(&mut self, parents: Vec<String>, file: Option<(i64, Vec<u8>)>)
        requires
            old(self).wf(),
            old(self).current() is Some,
        ensures
            final(self).wf(),
            final(self).current() is None,
            final(self).phase() == old(self).phase(),
            final(self).head() == old(self).head(),
            final(self).stop_at() == old(self).stop_at(),
            !old(self).graph().contains_key(old(self).current()->0),
            final(self).graph() == old(self).graph().insert(old(self).current()->0, parents@.map_values(|p: String| p@)),
            final(self).collected() == if old(self).phase() == Phase::Collecting {
                old(self).collected().push(old(self).current()->0)
            } else {
                old(self).collected()
            },
            final(self).files() == if old(self).phase() == Phase::Collecting {
                old(self).files().insert(old(self).current()->0, opt_file_view(file))
            } else {
                old(self).files()
            },
    {
        let ghost c = self.current()->0;
        let id = match self.current.take() {
            Some(id) => id,
            None => {
                assert(false);
                String::new()
            },
        };
        assert(id@ == c);
        let ghost pv = parents@.map_values(|p: String| p@);
        let ghost g0 = self.graph@;
        let ghost x0 = self.excluded();
        self.graph = Ghost(self.graph@.insert(id@, pv));
        assert(self.stack() == old(self).stack());
        assert(self.collected() == old(self).collected());
        assert(self.visited() == old(self).visited());
        proof {
            assert(!g0.contains_key(id@));
            assert forall|j: int| 0 <= j < self.stack().len() implies !self.graph().contains_key(#[trigger] self.stack()[j]) by {
                assert(!g0.contains_key(old(self).stack()[j]));
                assert(old(self).stack()[j] != id@);
            }
            match self.stop_at() {
                Some(s) => lemma_all_reached_keep(g0, id@, pv, s, x0, Set::empty()),
                None => {},
            }
        }
        if self.phase == Phase::Excluding {
            proof {
                assert(self.stop_at() is Some) by {
                    if self.stop_at() is None {
                        assert(x0.contains(id@));
                    }
                }
                assert forall|k: Seq<char>| #[trigger] self.graph().contains_key(k) implies self.excluded().contains(k) by {
                    if k != id@ {
                        assert(g0.contains_key(k));
                    }
                }
                assert forall|j: int| 0 <= j < self.stack().len() implies self.excluded().contains(#[trigger] self.stack()[j]) by {
                    assert(old(self).excluded().contains(old(self).stack()[j]));
                }
                assert forall|x: Seq<char>| #[trigger] self.excluded().contains(x) implies self.stack().contains(x)
                    || x == id@
                    || (self.graph().contains_key(x) && forall|k: int| 0 <= k < self.graph()[x].len()
                        ==> self.excluded().contains(#[trigger] self.graph()[x][k])) by {
                    assert(old(self).excluded().contains(x));
                    if x != id@ && !self.stack().contains(x) {
                        assert(g0[x] == self.graph()[x]);
                    }
                }
            }
            let mut i: usize = 0;
            while i < parents.len()
                invariant
                    i <= parents@.len(),
                    pv == parents@.map_values(|p: String| p@),
                    self.phase() == Phase::Excluding,
                    self.current() is None,
                    self.graph() == g0.insert(id@, pv),
                    self.head() == old(self).head(),
                    self.stop_at() == old(self).stop_at(),
                    self.stop_at() matches Some(s) ==> self.excluded().contains(s),
                    self.collected().len() == 0,
                    self.visited().is_empty(),
                    x0.subset_of(self.excluded()),
                    self.excluded().contains(id@),
                    no_repeats(self.stack()),
                    forall|j: int| 0 <= j < self.stack().len() ==> !self.graph().contains_key(#[trigger] self.stack()[j]),
                    forall|k: Seq<char>| #[trigger] self.graph().contains_key(k) ==> self.excluded().contains(k),
                    self.stop_at() is Some,
                    all_reached(self.graph(), self.stop_at()->0, self.excluded(), Set::empty()),
                    forall|j: int| 0 <= j < self.stack().len() ==> self.excluded().contains(#[trigger] self.stack()[j]),
                    forall|j: int| 0 <= j < i ==> self.excluded().contains(#[trigger] pv[j]),
                    forall|x: Seq<char>| #[trigger] self.excluded().contains(x) ==> self.stack().contains(x)
                        || x == id@
                        || (self.graph().contains_key(x) && forall|k: int| 0 <= k < self.graph()[x].len()
                            ==> self.excluded().contains(#[trigger] self.graph()[x][k])),
                decreases parents@.len() - i,
            {
                let p = &parents[i];
                assert(pv[i as int] == p@);
                if !self.excluded.contains_key(p.as_str()) {
                    let ghost before = self.stack();
                    let ghost ex = self.excluded();
                    self.excluded.insert(p.clone(), true);
                    self.stack.push(p.clone());
                    proof {
                        assert(self.stack() =~= before.push(p@));
                        assert(pv.contains(p@)) by {
                            assert(pv[i as int] == p@);
                        }
                        lemma_reaches_extend(self.graph(), self.stop_at()->0, id@, p@, Set::empty());
                        assert forall|y: Seq<char>| #[trigger] self.excluded().contains(y)
                            implies reaches(self.graph(), self.stop_at()->0, y, Set::empty()) by {
                            if y != p@ {
                                assert(ex.contains(y));
                            }
                        }
                        assert(!self.graph().contains_key(p@));
                        assert forall|a: int, b: int| 0 <= a < b < self.stack().len() implies #[trigger] self.stack()[a] != #[trigger] self.stack()[b] by {
                            if b == before.len() {
                                assert(self.stack()[a] == before[a]);
                                assert(ex.contains(before[a]));
                            } else {
                                assert(self.stack()[a] == before[a] && self.stack()[b] == before[b]);
                            }
                        }
                        assert forall|j: int| 0 <= j < self.stack().len() implies !self.graph().contains_key(#[trigger] self.stack()[j]) by {
                            if j < before.len() {
                                assert(self.stack()[j] == before[j]);
                            }
                        }
                        assert forall|x: Seq<char>| #[trigger] self.excluded().contains(x) implies self.stack().contains(x)
                            || x == id@
                            || (self.graph().contains_key(x) && forall|k: int| 0 <= k < self.graph()[x].len()
                                ==> self.excluded().contains(#[trigger] self.graph()[x][k])) by {
                            if x == p@ {
                                assert(self.stack()[before.len() as int] == x);
                            } else {
                                assert(ex.contains(x));
                                if before.contains(x) {
                                    let j = choose|j: int| 0 <= j < before.len() && before[j] == x;
                                    assert(self.stack()[j] == x);
                                }
                            }
                        }
                        assert forall|j: int| 0 <= j < self.stack().len() implies self.excluded().contains(#[trigger] self.stack()[j]) by {
                            if j < before.len() {
                                assert(self.stack()[j] == before[j]);
                            }
                        }
                    }
                }
                i = i + 1;
            }
            proof {
                assert forall|x: Seq<char>| #[trigger] self.excluded().contains(x) implies self.stack().contains(x)
                    || self.current() == Some(x)
                    || (self.graph().contains_key(x) && forall|k: int| 0 <= k < self.graph()[x].len()
                        ==> self.excluded().contains(#[trigger] self.graph()[x][k])) by {
                    if x == id@ {
                        assert(self.graph()[x] == pv);
                    }
                }
                assert(self.collected() =~= old(self).collected());
            }
        } else {
            let ghost col0 = self.collected();
            proof {
                lemma_all_reached_keep(g0, id@, pv, self.head(), self.visited(), x0);
                assert forall|k: Seq<char>| #[trigger] self.graph().contains_key(k) implies x0.contains(k)
                    || col0.contains(k) || k == id@ by {
                    if k != id@ {
                        assert(g0.contains_key(k));
                    }
                }
            }
            let mut copy: Vec<String> = Vec::new();
            let mut i: usize = 0;
            while i < parents.len()
                invariant
                    i <= parents@.len(),
                    pv == parents@.map_values(|p: String| p@),
                    self.phase() == old(self).phase(),
                    self.phase() == Phase::Collecting,
                    self.current() is None,
                    self.graph() == g0.insert(id@, pv),
                    self.head() == old(self).head(),
                    self.stop_at() == old(self).stop_at(),
                    self.stop_at() matches Some(s) ==> self.excluded().contains(s),
                    self.excluded() == x0,
                    self.collected() == col0,
                    self.collected@ == old(self).collected@,
                    no_repeats(col0),
                    closed(g0, x0),
                    !x0.contains(id@),
                    !col0.contains(id@),
                    self.visited().contains(id@),
                    self.visited().disjoint(self.excluded()),
                    self.visited().contains(self.head()) || self.excluded().contains(self.head()),
                    no_repeats(self.stack()),
                    !self.stack().contains(id@),
                    forall|j: int| 0 <= j < self.stack().len() ==> !self.graph().contains_key(#[trigger] self.stack()[j]),
                    forall|k: Seq<char>| #[trigger] self.graph().contains_key(k) ==> x0.contains(k)
                        || col0.contains(k) || k == id@,
                    all_reached(self.graph(), self.head(), self.visited(), x0),
                    match self.stop_at() {
                        Some(s) => all_reached(self.graph(), s, x0, Set::empty()),
                        None => x0 == Set::<Seq<char>>::empty(),
                    },
                    forall|j: int| 0 <= j < self.stack().len() ==> self.visited().contains(#[trigger] self.stack()[j]),
                    forall|j: int| 0 <= j < self.stack().len() ==> !col0.contains(#[trigger] self.stack()[j]),
                    forall|v: Seq<char>| #[trigger] self.visited().contains(v) ==> self.stack().contains(v)
                        || v == id@ || col0.contains(v),
                    forall|j: int| 0 <= j < col0.len() ==> self.visited().contains(#[trigger] col0[j]),
                    closed_beside(g0, col0.to_set(), self.visited().union(x0)),
                    self.parents_stored(),
                    forall|j: int| 0 <= j < i ==> self.visited().contains(#[trigger] pv[j]) || x0.contains(pv[j]),
                    copy@.map_values(|p: String| p@) == pv.take(i as int),
                decreases parents@.len() - i,
            {
                let p = &parents[i];
                assert(pv[i as int] == p@);
                let ghost cb = copy@;
                copy.push(p.clone());
                assert(copy@.map_values(|p: String| p@) =~= cb.map_values(|p: String| p@).push(p@));
                assert(pv.take(i + 1) =~= pv.take(i as int).push(p@));
                if !self.excluded.contains_key(p.as_str()) && !self.visited.contains_key(p.as_str()) {
                    let ghost before = self.stack();
                    let ghost vis = self.visited();
                    self.visited.insert(p.clone(), true);
                    self.stack.push(p.clone());
                    proof {
                        assert(self.stack() =~= before.push(p@));
                        assert(!col0.contains(p@));
                        assert(!self.graph().contains_key(p@));
                        assert(pv.contains(p@)) by {
                            assert(pv[i as int] == p@);
                        }
                        lemma_reaches_extend(self.graph(), self.head(), id@, p@, x0);
                        assert forall|y: Seq<char>| #[trigger] self.visited().contains(y)
                            implies reaches(self.graph(), self.head(), y, x0) by {
                            if y != p@ {
                                assert(vis.contains(y));
                            }
                        }
                        assert forall|j: int| 0 <= j < self.stack().len() implies !self.graph().contains_key(#[trigger] self.stack()[j]) by {
                            if j < before.len() {
                                assert(self.stack()[j] == before[j]);
                            }
                        }
                        assert forall|v: Seq<char>| #[trigger] self.visited().contains(v) implies self.stack().contains(v)
                            || v == id@ || col0.contains(v) by {
                            if v == p@ {
                                assert(self.stack()[before.len() as int] == v);
                            } else {
                                assert(vis.contains(v));
                                if before.contains(v) {
                                    let j = choose|j: int| 0 <= j < before.len() && before[j] == v;
                                    assert(self.stack()[j] == v);
                                }
                            }
                        }
                        assert forall|a: int, b: int| 0 <= a < b < self.stack().len() implies #[trigger] self.stack()[a] != #[trigger] self.stack()[b] by {
                            if b == before.len() {
                                assert(self.stack()[a] == before[a]);
                                assert(vis.contains(before[a]));
                            } else {
                                assert(self.stack()[a] == before[a] && self.stack()[b] == before[b]);
                            }
                        }
                        assert forall|j: int| 0 <= j < self.stack().len() implies self.visited().contains(#[trigger] self.stack()[j])
                            && !col0.contains(self.stack()[j]) by {
                            if j < before.len() {
                                assert(self.stack()[j] == before[j]);
                            }
                        }
                        assert(!self.stack().contains(id@)) by {
                            if self.stack().contains(id@) {
                                let j = choose|j: int| 0 <= j < self.stack().len() && self.stack()[j] == id@;
                                if j < before.len() {
                                    assert(self.stack()[j] == before[j]);
                                }
                            }
                        }
                        assert forall|a: Seq<char>| #[trigger] col0.to_set().contains(a) implies g0.contains_key(a)
                            && forall|k: int| 0 <= k < g0[a].len() ==> col0.to_set().contains(#[trigger] g0[a][k])
                                || self.visited().union(x0).contains(g0[a][k]) by {
                            assert(vis.union(x0).subset_of(self.visited().union(x0)));
                        }
                    }
                }
                i = i + 1;
            }
            let ghost before_col = self.collected@;
            let ghost fv = opt_file_view(file);
            assert(before_col == old(self).collected@);
            self.collected.push(Collected { hash: id.clone(), file, parents: copy });
            proof {
                assert(pv.take(parents@.len() as int) =~= pv);
                assert(self.collected() =~= col0.push(id@));
                assert forall|a: Seq<char>| self.collected().contains(a) <==> col0.contains(a) || a == id@ by {
                    if self.collected().contains(a) {
                        let k = choose|k: int| 0 <= k < self.collected().len() && self.collected()[k] == a;
                        if k < col0.len() {
                            assert(self.collected()[k] == col0[k]);
                        }
                    }
                    if col0.contains(a) {
                        let k = choose|k: int| 0 <= k < col0.len() && col0[k] == a;
                        assert(self.collected()[k] == a);
                    }
                    if a == id@ {
                        assert(self.collected()[col0.len() as int] == a);
                    }
                }
                assert(self.collected_set() =~= col0.to_set().insert(id@));
                assert forall|k: Seq<char>| #[trigger] self.graph().contains_key(k) implies self.excluded().contains(k)
                    || self.collected().contains(k) by {
                    if col0.contains(k) || k == id@ {
                        assert(col0.to_set().insert(id@).contains(k));
                    }
                }
                assert forall|a: int, b: int| 0 <= a < b < self.collected().len() implies #[trigger] self.collected()[a] != #[trigger] self.collected()[b] by {
                    if b == col0.len() {
                        assert(self.collected()[a] == col0[a]);
                    } else {
                        assert(self.collected()[a] == col0[a] && self.collected()[b] == col0[b]);
                    }
                }
                assert forall|j: int| 0 <= j < self.stack().len() implies !self.collected().contains(#[trigger] self.stack()[j]) by {
                    if self.collected().contains(self.stack()[j]) {
                        let k = choose|k: int| 0 <= k < self.collected().len() && self.collected()[k] == self.stack()[j];
                        if k < col0.len() {
                            assert(self.collected()[k] == col0[k]);
                        }
                    }
                }
                assert forall|v: Seq<char>| #[trigger] self.visited().contains(v) implies self.stack().contains(v)
                    || self.current() == Some(v) || self.collected().contains(v) by {
                    if v == id@ {
                        assert(self.collected()[col0.len() as int] == v);
                    } else if col0.contains(v) {
                        let k = choose|k: int| 0 <= k < col0.len() && col0[k] == v;
                        assert(self.collected()[k] == v);
                    }
                }
                assert forall|j: int| 0 <= j < self.collected().len() implies self.visited().contains(#[trigger] self.collected()[j]) by {
                    if j < col0.len() {
                        assert(self.collected()[j] == col0[j]);
                    }
                }
                assert forall|a: Seq<char>| #[trigger] self.collected_set().contains(a) implies self.graph().contains_key(a)
                    && forall|k: int| 0 <= k < self.graph()[a].len() ==> self.collected_set().contains(#[trigger] self.graph()[a][k])
                        || self.visited().union(self.excluded()).contains(self.graph()[a][k]) by {
                    if a == id@ {
                        assert(self.graph()[a] == pv);
                    } else {
                        assert(col0.to_set().contains(a));
                        assert(self.graph()[a] == g0[a]);
                    }
                }
                assert forall|j: int| 0 <= j < self.collected().len() implies #[trigger] self.graph().contains_key(self.collected()[j])
                    && self.graph()[self.collected()[j]] == self.collected@[j].parents@.map_values(|p: String| p@) by {
                    if j < col0.len() {
                        assert(self.collected@[j] == before_col[j]);
                        assert(self.collected()[j] == col0[j]);
                        assert(col0[j] != id@);
                    } else {
                        assert(self.collected@[j].parents@.map_values(|p: String| p@) =~= pv);
                    }
                }
                assert(self.parents_stored());
                assert forall|h: Seq<char>| #[trigger] self.files().contains_key(h) implies
                    self.files()[h] == old(self).files().insert(id@, fv)[h] by {
                    if h == id@ {
                        lemma_index_of_unique(self.collected(), col0.len() as int);
                    } else {
                        assert(col0.contains(h));
                        let k = col0.index_of(h);
                        assert(col0[k] == h);
                        assert(self.collected()[k] == col0[k]);
                        lemma_index_of_unique(self.collected(), k);
                        assert(self.collected@[k] == before_col[k]);
                    }
                }
                assert(self.files() =~= old(self).files().insert(id@, fv));
            }
        }
    }
}

proof fn lemma_index_of_unique(s: Seq<Seq<char>>, k: int)
    requires
        no_repeats(s),
        0 <= k < s.len(),
    ensures
        s.index_of(s[k]) == k,
{
    assert(s.contains(s[k]));
    let i = s.index_of(s[k]);
    if i < k {
        assert(s[i] != s[k]);
    } else if i > k {
        assert(s[k] != s[i]);
    }
}

proof fn lemma_fewer(o: Seq<Seq<char>>, cs: Seq<Seq<char>>, h: Seq<char>)
    requires
        no_repeats(o),
        no_repeats(cs),
        forall|x: Seq<char>| o.contains(x) ==> #[trigger] cs.contains(x),
        cs.contains(h),
        !o.contains(h),
    ensures
        o.len() < cs.len(),
{
    assert(o.no_duplicates()) by {
        assert forall|i: int, j: int| 0 <= i < o.len() && 0 <= j < o.len() && i != j implies o[i] != o[j] by {
            if i < j { assert(o[i] != o[j]); } else { assert(o[j] != o[i]); }
        }
    }
    assert(cs.no_duplicates()) by {
        assert forall|i: int, j: int| 0 <= i < cs.len() && 0 <= j < cs.len() && i != j implies cs[i] != cs[j] by {
            if i < j { assert(cs[i] != cs[j]); } else { assert(cs[j] != cs[i]); }
        }
    }
    o.unique_seq_to_set();
    cs.unique_seq_to_set();
    vstd::seq_lib::seq_to_set_is_finite(cs);
    let b = cs.to_set().remove(h);
    assert(o.to_set().subset_of(b));
    vstd::set_lib::lemma_len_subset(o.to_set(), b);
    vstd::set::axiom_set_remove_len(cs.to_set(), h);
}

proof fn lemma_same_elements(o: Seq<Seq<char>>, cs: Seq<Seq<char>>)
    requires
        forall|h: Seq<char>| #[trigger] o.contains(h) ==> cs.contains(h),
        forall|j: int| 0 <= j < cs.len() ==> o.contains(#[trigger] cs[j]),
    ensures
        forall|h: Seq<char>| o.contains(h) <==> #[trigger] cs.to_set().contains(h),
{
    assert forall|h: Seq<char>| o.contains(h) <==> #[trigger] cs.to_set().contains(h) by {
        if cs.contains(h) {
            let j = choose|j: int| 0 <= j < cs.len() && cs[j] == h;
            assert(o.contains(cs[j]));
        }
    }
}

proof fn lemma_append(g: Graph, cs: Seq<Seq<char>>, ob: Seq<Seq<char>>, k: int, h: Seq<char>)
    requires
        0 <= k <= ob.len(),
        no_repeats(ob),
        !ob.contains(h),
        cs.contains(h),
        parents_first(g, ob, k),
        forall|a: int, p: Seq<char>| 0 <= a < k && #[trigger] is_parent(g, ob[a], p) && cs.contains(p) ==> ob.take(k).contains(p),
        forall|m: int| k <= m < ob.len() ==> !ob.take(k).contains(#[trigger] ob[m]),
        forall|m: int| k <= m < ob.len() ==> !ready(g, cs.to_set(), ob.take(k), #[trigger] ob[m]),
        !ready(g, cs.to_set(), ob.take(k), h),
        forall|x: Seq<char>| ob.contains(x) ==> #[trigger] cs.contains(x),
    ensures
        ob.push(h).take(k) == ob.take(k),
        no_repeats(ob.push(h)),
        parents_first(g, ob.push(h), k),
        forall|a: int, p: Seq<char>| 0 <= a < k && #[trigger] is_parent(g, ob.push(h)[a], p) && cs.contains(p)
            ==> ob.push(h).take(k).contains(p),
        forall|m: int| k <= m < ob.push(h).len() ==> !ob.push(h).take(k).contains(#[trigger] ob.push(h)[m]),
        forall|m: int| k <= m < ob.push(h).len() ==> !ready(g, cs.to_set(), ob.push(h).take(k), #[trigger] ob.push(h)[m]),
        forall|x: Seq<char>| ob.push(h).contains(x) ==> #[trigger] cs.contains(x),
{
    let o = ob.push(h);
    assert(o.take(k) =~= ob.take(k));
    assert forall|a: int, b: int| 0 <= a < b < o.len() implies #[trigger] o[a] != #[trigger] o[b] by {
        if b == o.len() - 1 {
            assert(o[a] == ob[a]);
            assert(ob.contains(o[a]));
        } else {
            assert(o[a] == ob[a] && o[b] == ob[b]);
        }
    }
    assert forall|a: int, p: Seq<char>| 0 <= a < k && #[trigger] is_parent(g, o[a], p) && o.contains(p)
        implies exists|j: int| 0 <= j < a && #[trigger] o[j] == p by {
        assert(o[a] == ob[a]);
        if ob.contains(p) {
            let j = choose|j: int| 0 <= j < a && #[trigger] ob[j] == p;
            assert(o[j] == p);
        } else {
            assert(o[o.len() - 1] == p || ob.contains(p)) by {
                let q = choose|q: int| 0 <= q < o.len() && o[q] == p;
                if q < ob.len() {
                    assert(ob[q] == p);
                }
            }
            assert(p == h);
            assert(is_parent(g, ob[a], h));
            assert(ob.take(k).contains(h));
            let q = choose|q: int| 0 <= q < k && ob.take(k)[q] == h;
            assert(ob[q] == h);
        }
    }
    assert forall|a: int, p: Seq<char>| 0 <= a < k && #[trigger] is_parent(g, o[a], p) && cs.contains(p)
        implies o.take(k).contains(p) by {
        assert(o[a] == ob[a]);
    }
    assert forall|m: int| k <= m < o.len() implies !o.take(k).contains(#[trigger] o[m]) by {
        if m < ob.len() {
            assert(o[m] == ob[m]);
        } else {
            if ob.take(k).contains(h) {
                let q = choose|q: int| 0 <= q < k && ob.take(k)[q] == h;
                assert(ob[q] == h);
            }
        }
    }
    assert forall|m: int| k <= m < o.len() implies !ready(g, cs.to_set(), o.take(k), #[trigger] o[m]) by {
        if m < ob.len() {
            assert(o[m] == ob[m]);
        } else {
            assert(o[m] == h);
        }
    }
    assert forall|x: Seq<char>| o.contains(x) implies #[trigger] cs.contains(x) by {
        let q = choose|q: int| 0 <= q < o.len() && o[q] == x;
        if q < ob.len() {
            assert(ob[q] == x);
        }
    }
}

fn copy_bytes(v: &Vec<u8>) -> (r: Vec<u8>)
    ensures
        r@ == v@,
{
    let r = v.clone();
    assert(r@ =~= v@);
    r
}

/// Every parent that `parents` lists and the walk collected is placed.
fn all_placed(parents: &Vec<String>, visited: &StringHashMap<bool>, placed: &StringHashMap<usize>) -> (b: bool)
    ensures
        b == forall|j: int| 0 <= j < parents@.len() ==> !visited@.contains_key(#[trigger] parents@[j]@)
            || placed@.contains_key(parents@[j]@),
{
    let mut i: usize = 0;
    while i < parents.len()
        invariant
            i <= parents@.len(),
            forall|j: int| 0 <= j < i ==> !visited@.contains_key(#[trigger] parents@[j]@) || placed@.contains_key(parents@[j]@),
        decreases parents@.len() - i,
    {
        if visited.contains_key(parents[i].as_str()) && !placed.contains_key(parents[i].as_str()) {
            return false;
        }
        i = i + 1;
    }
    true
}

impl HistoryWalk {
    /// At the end of a walk: the commits set aside are exactly the last
    /// processed commit and its ancestors (none without a last processed
    /// commit); the collected commits are exactly those reached from HEAD by
    /// parents along a path that touches no commit set aside; the commits
    /// read are those two sets, each with its parents recorded, and nothing
    /// is in both.
    pub proof fn lemma_walk_done(&self)
        requires
            self.wf(),
            self.phase() == Phase::Done,
        ensures
            closed(self.graph(), self.excluded()),
            closed_beside(self.graph(), self.collected_set(), self.excluded()),
            self.collected_set().disjoint(self.excluded()),
            self.collected_set().contains(self.head()) || self.excluded().contains(self.head()),
            self.stop_at() matches Some(s) ==> self.excluded().contains(s),
            self.stop_at() matches Some(s) ==> forall|y: Seq<char>|
                #![trigger self.excluded().contains(y)]
                #![trigger reaches(self.graph(), s, y, Set::empty())]
                self.excluded().contains(y) <==> reaches(self.graph(), s, y, Set::empty()),
            self.stop_at() is None ==> self.excluded() == Set::<Seq<char>>::empty(),
            forall|y: Seq<char>|
                #![trigger self.collected_set().contains(y)]
                #![trigger reaches(self.graph(), self.head(), y, self.excluded())]
                self.collected_set().contains(y) <==> reaches(self.graph(), self.head(), y, self.excluded()),
            forall|y: Seq<char>| #[trigger] self.graph().contains_key(y)
                <==> self.excluded().contains(y) || self.collected_set().contains(y),
    {
        assert forall|v: Seq<char>| self.visited().contains(v) <==> #[trigger] self.collected_set().contains(v) by {
            if self.collected().contains(v) {
                let k = choose|k: int| 0 <= k < self.collected().len() && self.collected()[k] == v;
                assert(self.visited().contains(self.collected()[k]));
            }
        }
        assert forall|a: Seq<char>| #[trigger] self.collected_set().contains(a) implies self.graph().contains_key(a)
            && forall|i: int| 0 <= i < self.graph()[a].len() ==> self.collected_set().contains(#[trigger] self.graph()[a][i])
                || self.excluded().contains(self.graph()[a][i]) by {
        }
        let g = self.graph();
        let x = self.excluded();
        let c = self.collected_set();
        if let Some(s) = self.stop_at() {
            assert forall|y: Seq<char>| #[trigger] reaches(g, s, y, Set::empty()) implies x.contains(y) by {
                let path = choose|path: Seq<Seq<char>>| #[trigger] path_from(g, path, s, y, Set::empty());
                lemma_chain_stays(g, x, path);
            }
        }
        assert forall|y: Seq<char>| #[trigger] reaches(g, self.head(), y, x) implies c.contains(y) by {
            let path = choose|path: Seq<Seq<char>>| #[trigger] path_from(g, path, self.head(), y, x);
            assert(!x.contains(path[0]));
            assert(!x.contains(path[path.len() - 1]));
            law_walk_complete(g, x, c, path);
        }
        assert forall|y: Seq<char>| #[trigger] g.contains_key(y) implies x.contains(y) || c.contains(y) by {
            assert(self.collected().contains(y) ==> c.contains(y));
        }
    }

    /// The commits of `order` in which the file exists, in that order.
    fn report(&self, order: &Vec<usize>, Ghost(o): Ghost<Seq<Seq<char>>>) -> (out: Vec<CommitInfo>)
        requires
            self.wf(),
            o.len() == order@.len(),
            forall|m: int| 0 <= m < order@.len() ==> (#[trigger] order@[m]) < self.collected@.len()
                && o[m] == self.collected()[order@[m] as int],
        ensures
            out@.map_values(|c: CommitInfo| commit_view(c)) == reported_of(o, self.files()),
    {
        let n = self.collected.len();
        let ghost cs = self.collected();
        let mut out: Vec<CommitInfo> = Vec::new();
        let mut t: usize = 0;
        while t < order.len()
            invariant
                t <= order@.len(),
                n == self.collected@.len(),
                cs == self.collected(),
                self.wf(),
                o.len() == order@.len(),
                forall|m: int| 0 <= m < order@.len() ==> (#[trigger] order@[m]) < n && o[m] == cs[order@[m] as int],
                out@.map_values(|c: CommitInfo| commit_view(c)) == reported_of(o.take(t as int), self.files()),
            decreases order@.len() - t,
        {
            let ci = order[t];
            let c = &self.collected[ci];
            proof {
                assert(o.take(t + 1).drop_last() =~= o.take(t as int));
                assert(o.take(t + 1).last() == cs[ci as int]);
                assert(self.collected().contains(cs[ci as int]));
                assert(self.collected().index_of(cs[ci as int]) == ci as int) by {
                    let q = self.collected().index_of(cs[ci as int]);
                    assert(self.collected()[q] == cs[ci as int]);
                    if q != ci as int {
                        if q < ci as int {
                            assert(cs[q] != cs[ci as int]);
                        } else {
                            assert(cs[ci as int] != cs[q]);
                        }
                    }
                }
                assert(self.files()[cs[ci as int]] == opt_file_view(c.file));
            }
            let ghost before = out@;
            match &c.file {
                Some((time, blob)) => {
                    out.push(CommitInfo { hash: c.hash.clone(), timestamp: *time, blob_content: copy_bytes(blob) });
                    proof {
                        assert(out@.map_values(|c: CommitInfo| commit_view(c))
                            =~= before.map_values(|c: CommitInfo| commit_view(c)).push((cs[ci as int], *time as int, blob@)));
                    }
                },
                None => {},
            }
            t = t + 1;
        }
        assert(o.take(order@.len() as int) =~= o);
        out
    }

    /// The reported commits, ancestors before descendants: the collected
    /// commits are ordered so that each comes after its collected parents,
    /// and those in which the file exists are reported in that order.
    #[verifier::rlimit(100)]
    pub fn finish(self) -> (commits: Vec<CommitInfo>)
        requires
            self.wf(),
            self.phase() == Phase::Done,
        ensures
            exists|o: Seq<Seq<char>>, k: int| #[trigger] walk_order(self.graph(), self.collected_set(), o, k)
                && commits@.map_values(|c: CommitInfo| commit_view(c)) == reported_of(o, self.files()),
            self.stop_at() matches Some(s) ==> forall|y: Seq<char>|
                #![trigger self.excluded().contains(y)]
                #![trigger reaches(self.graph(), s, y, Set::empty())]
                self.excluded().contains(y) <==> reaches(self.graph(), s, y, Set::empty()),
            self.stop_at() is None ==> self.excluded() == Set::<Seq<char>>::empty(),
            forall|y: Seq<char>|
                #![trigger self.collected_set().contains(y)]
                #![trigger reaches(self.graph(), self.head(), y, self.excluded())]
                self.collected_set().contains(y) <==> reaches(self.graph(), self.head(), y, self.excluded()),
    {
        proof {
            self.lemma_walk_done();
        }
        let ghost g = self.graph();
        let ghost cs = self.collected();
        let n = self.collected.len();
        let mut placed = StringHashMap::<usize>::new();
        let mut order: Vec<usize> = Vec::new();
        let ghost mut o: Seq<Seq<char>> = Seq::empty();
        let mut progress = true;
        while progress
            invariant
                n == self.collected@.len(),
                cs == self.collected(),
                g == self.graph(),
                self.wf(),
                self.phase() == Phase::Done,
                order@.len() <= n,
                o.len() == order@.len(),
                forall|m: int| 0 <= m < order@.len() ==> (#[trigger] order@[m]) < n && o[m] == cs[order@[m] as int],
                no_repeats(o),
                forall|h: Seq<char>| #[trigger] placed@.contains_key(h) <==> o.contains(h),
                forall|m: int| 0 <= m < o.len() ==> placed@[#[trigger] o[m]] == m,
                parents_first(g, o, o.len() as int),
                forall|a: int, p: Seq<char>| 0 <= a < o.len() && #[trigger] is_parent(g, o[a], p) && cs.contains(p) ==> o.contains(p),
                forall|h: Seq<char>| o.contains(h) ==> #[trigger] cs.contains(h),
                !progress ==> forall|j: int| 0 <= j < n && !o.contains(#[trigger] cs[j])
                    ==> exists|p: Seq<char>| #[trigger] is_parent(g, cs[j], p) && cs.contains(p) && !o.contains(p),
            decreases n - order@.len() + (if progress { 1int } else { 0int }),
        {
            progress = false;
            let ghost len0 = order@.len();
            let mut i: usize = 0;
            while i < n
                invariant
                    n == self.collected@.len(),
                    cs == self.collected(),
                    g == self.graph(),
                    self.wf(),
                    self.phase() == Phase::Done,
                    i <= n,
                    order@.len() <= n,
                    o.len() == order@.len(),
                    forall|m: int| 0 <= m < order@.len() ==> (#[trigger] order@[m]) < n && o[m] == cs[order@[m] as int],
                    no_repeats(o),
                    forall|h: Seq<char>| #[trigger] placed@.contains_key(h) <==> o.contains(h),
                    forall|m: int| 0 <= m < o.len() ==> placed@[#[trigger] o[m]] == m,
                    parents_first(g, o, o.len() as int),
                    forall|a: int, p: Seq<char>| 0 <= a < o.len() && #[trigger] is_parent(g, o[a], p) && cs.contains(p) ==> o.contains(p),
                    forall|h: Seq<char>| o.contains(h) ==> #[trigger] cs.contains(h),
                    order@.len() >= len0,
                    progress ==> order@.len() > len0,
                    !progress ==> forall|j: int| 0 <= j < i && !o.contains(#[trigger] cs[j])
                        ==> exists|p: Seq<char>| #[trigger] is_parent(g, cs[j], p) && cs.contains(p) && !o.contains(p),
                decreases n - i,
            {
                let c = &self.collected[i];
                let ghost h = cs[i as int];
                assert(c.hash@ == h);
                if !placed.contains_key(c.hash.as_str()) {
                    let ready = all_placed(&c.parents, &self.visited, &placed);
                    proof {
                        assert(self.parents_stored());
                        assert(g.contains_key(cs[i as int]));
                        assert(g[h] == c.parents@.map_values(|p: String| p@));
                        assert forall|v: Seq<char>| self.visited().contains(v) <==> cs.contains(v) by {
                            if cs.contains(v) {
                                let k = choose|k: int| 0 <= k < cs.len() && cs[k] == v;
                                assert(self.visited().contains(cs[k]));
                            }
                        }
                    }
                    if ready {
                        proof {
                            lemma_fewer(o, cs, h);
                        }
                        if order.len() < n {
                            let ghost o_before = o;
                            let pos = order.len();
                            placed.insert(c.hash.clone(), pos);
                            order.push(i);
                            proof {
                                o = o.push(h);
                                assert forall|h2: Seq<char>| #[trigger] placed@.contains_key(h2) <==> o.contains(h2) by {
                                    if o.contains(h2) && h2 != h {
                                        let m = choose|m: int| 0 <= m < o.len() && o[m] == h2;
                                        assert(o_before[m] == h2);
                                    }
                                    if o_before.contains(h2) {
                                        let m = choose|m: int| 0 <= m < o_before.len() && o_before[m] == h2;
                                        assert(o[m] == h2);
                                    }
                                    if h2 == h {
                                        assert(o[o.len() - 1] == h);
                                    }
                                }
                                assert forall|a: int, b: int| 0 <= a < b < o.len() implies #[trigger] o[a] != #[trigger] o[b] by {
                                    if b == o.len() - 1 {
                                        assert(o[a] == o_before[a]);
                                        assert(o_before.contains(o[a]));
                                    } else {
                                        assert(o[a] == o_before[a] && o[b] == o_before[b]);
                                    }
                                }
                                assert forall|m: int| 0 <= m < o.len() implies placed@[#[trigger] o[m]] == m by {
                                    if m < o_before.len() {
                                        assert(o[m] == o_before[m]);
                                        assert(o_before[m] != h);
                                    }
                                }
                                assert forall|m: int| 0 <= m < order@.len() implies (#[trigger] order@[m]) < n && o[m] == cs[order@[m] as int] by {
                                    if m < o_before.len() {
                                        assert(o[m] == o_before[m]);
                                    }
                                }
                                assert forall|a: int, p: Seq<char>| 0 <= a < o.len() && #[trigger] is_parent(g, o[a], p) && o.contains(p)
                                    implies exists|j: int| 0 <= j < a && #[trigger] o[j] == p by {
                                    if a < o_before.len() {
                                        assert(o[a] == o_before[a]);
                                        if !o_before.contains(p) {
                                            assert(p == h);
                                            assert(cs.contains(h));
                                            assert(is_parent(g, o_before[a], h));
                                            assert(false);
                                        }
                                        let j = choose|j: int| 0 <= j < a && #[trigger] o_before[j] == p;
                                        assert(o[j] == p);
                                    } else {
                                        let jj = choose|jj: int| 0 <= jj < g[h].len() && g[h][jj] == p;
                                        assert(c.parents@[jj]@ == p);
                                        assert(cs.contains(p)) by {
                                            let m = choose|m: int| 0 <= m < o.len() && o[m] == p;
                                            if m < o_before.len() {
                                                assert(o_before[m] == p);
                                            }
                                        }
                                        assert(placed@.contains_key(p) || p == h);
                                        if p == h {
                                            assert(false) by {
                                                assert(!o_before.contains(h));
                                                assert(!placed@.contains_key(c.parents@[jj]@) || true);
                                            }
                                        }
                                        let j = choose|j: int| 0 <= j < o_before.len() && o_before[j] == p;
                                        assert(o[j] == p);
                                    }
                                }
                                assert forall|h2: Seq<char>| o.contains(h2) implies #[trigger] cs.contains(h2) by {
                                    if h2 != h {
                                        let m = choose|m: int| 0 <= m < o.len() && o[m] == h2;
                                        assert(o_before[m] == h2);
                                    } else {
                                        assert(cs[i as int] == h);
                                    }
                                }
                                assert forall|a: int, p: Seq<char>| 0 <= a < o.len() && #[trigger] is_parent(g, o[a], p) && cs.contains(p)
                                    implies o.contains(p) by {
                                    if a < o_before.len() {
                                        assert(o[a] == o_before[a]);
                                        assert(o_before.contains(p));
                                        let m = choose|m: int| 0 <= m < o_before.len() && o_before[m] == p;
                                        assert(o[m] == p);
                                    } else {
                                        let jj = choose|jj: int| 0 <= jj < g[h].len() && g[h][jj] == p;
                                        assert(c.parents@[jj]@ == p);
                                        assert(self.visited().contains(p));
                                        assert(placed@.contains_key(p) || p == h);
                                        if p != h {
                                            let m = choose|m: int| 0 <= m < o_before.len() && o_before[m] == p;
                                            assert(o[m] == p);
                                        } else {
                                            assert(o[o.len() - 1] == p);
                                        }
                                    }
                                }
                            }
                            progress = true;
                        }
                    } else {
                        proof {
                            if !progress {
                                let jj = choose|jj: int| 0 <= jj < c.parents@.len() && !(!self.visited@.contains_key(#[trigger] c.parents@[jj]@)
                                    || placed@.contains_key(c.parents@[jj]@));
                                let p = c.parents@[jj]@;
                                assert(g[h][jj] == p);
                                assert(is_parent(g, cs[i as int], p));
                            }
                        }
                    }
                }
                i = i + 1;
            }
        }
        let ghost k = o.len() as int;
        assert(o.take(k) =~= o);
        let mut i: usize = 0;
        while i < n
            invariant
                n == self.collected@.len(),
                cs == self.collected(),
                g == self.graph(),
                self.wf(),
                self.phase() == Phase::Done,
                0 <= k <= o.len(),
                i <= n,
                o.len() == order@.len(),
                forall|m: int| 0 <= m < order@.len() ==> (#[trigger] order@[m]) < n && o[m] == cs[order@[m] as int],
                no_repeats(o),
                forall|h: Seq<char>| #[trigger] placed@.contains_key(h) <==> o.contains(h),
                parents_first(g, o, k),
                forall|h: Seq<char>| o.contains(h) ==> #[trigger] cs.contains(h),
                forall|j: int| 0 <= j < i ==> o.contains(#[trigger] cs[j]),
                forall|m: int| k <= m < o.len() ==> !o.take(k).contains(#[trigger] o[m]),
                forall|m: int| k <= m < o.len() ==> !ready(g, cs.to_set(), o.take(k), #[trigger] o[m]),
                forall|a: int, p: Seq<char>| 0 <= a < k && #[trigger] is_parent(g, o[a], p) && cs.contains(p) ==> o.take(k).contains(p),
                forall|j: int| 0 <= j < n && !o.take(k).contains(#[trigger] cs[j])
                    ==> exists|p: Seq<char>| #[trigger] is_parent(g, cs[j], p) && cs.contains(p) && !o.take(k).contains(p),
            decreases n - i,
        {
            let c = &self.collected[i];
            let ghost h = cs[i as int];
            assert(c.hash@ == h);
            if !placed.contains_key(c.hash.as_str()) {
                let ghost o_before = o;
                proof {
                    lemma_fewer(o, cs, h);
                }
                let pos = order.len();
                placed.insert(c.hash.clone(), pos);
                order.push(i);
                proof {
                    assert(!o_before.take(k).contains(cs[i as int])) by {
                        if o_before.take(k).contains(h) {
                            let q = choose|q: int| 0 <= q < k && o_before.take(k)[q] == h;
                            assert(o_before[q] == h);
                        }
                    }
                    assert(!ready(g, cs.to_set(), o_before.take(k), h)) by {
                        let p = choose|p: Seq<char>| #[trigger] is_parent(g, cs[i as int], p) && cs.contains(p)
                            && !o_before.take(k).contains(p);
                        assert(cs.to_set().contains(p));
                    }
                    lemma_append(g, cs, o_before, k, h);
                    o = o.push(h);
                    assert forall|h2: Seq<char>| #[trigger] placed@.contains_key(h2) <==> o.contains(h2) by {
                        if o.contains(h2) && h2 != h {
                            let m = choose|m: int| 0 <= m < o.len() && o[m] == h2;
                            assert(o_before[m] == h2);
                        }
                        if o_before.contains(h2) {
                            let m = choose|m: int| 0 <= m < o_before.len() && o_before[m] == h2;
                            assert(o[m] == h2);
                        }
                        if h2 == h {
                            assert(o[o.len() - 1] == h);
                        }
                    }
                    assert forall|m: int| 0 <= m < order@.len() implies (#[trigger] order@[m]) < n && o[m] == cs[order@[m] as int] by {
                        if m < o_before.len() {
                            assert(o[m] == o_before[m]);
                        }
                    }
                    assert forall|j: int| 0 <= j < i + 1 implies o.contains(#[trigger] cs[j]) by {
                        if j < i {
                            let m = choose|m: int| 0 <= m < o_before.len() && o_before[m] == cs[j];
                            assert(o[m] == cs[j]);
                        } else {
                            assert(o[o.len() - 1] == cs[j]);
                        }
                    }
                }
            } else {
                proof {
                    assert forall|j: int| 0 <= j < i + 1 implies o.contains(#[trigger] cs[j]) by {
                        if j == i {
                            assert(placed@.contains_key(h));
                        }
                    }
                }
            }
            i = i + 1;
        }
        proof {
            lemma_same_elements(o, cs);
            assert(walk_order(g, self.collected_set(), o, k)) by {
                assert(self.collected_set() == cs.to_set());
            }
        }
        let out = self.report(&order, Ghost(o));
        proof {
            self.lemma_walk_done();
        }
        out
    }
}

/// Each reported commit carries what was recorded for it: its time and the
/// file's content in that commit, as `files` holds them; and every commit of
/// `o` in which the file exists is reported.
pub proof fn law_reported_carry_recorded_file(o: Seq<Seq<char>>, files: Map<Seq<char>, Option<(int, Seq<u8>)>>)
    ensures
        forall|i: int| 0 <= i < reported_of(o, files).len() ==>
            files[#[trigger] reported_of(o, files)[i].0] == Some((reported_of(o, files)[i].1, reported_of(o, files)[i].2)),
        forall|j: int| 0 <= j < o.len() && (#[trigger] files[o[j]]) is Some ==>
            exists|i: int| #![trigger reported_of(o, files)[i]] 0 <= i < reported_of(o, files).len()
                && reported_of(o, files)[i].0 == o[j]
                && files[o[j]] == Some((reported_of(o, files)[i].1, reported_of(o, files)[i].2)),
    decreases o.len(),
{
    if o.len() > 0 {
        let init = o.drop_last();
        law_reported_carry_recorded_file(init, files);
        let prev = reported_of(init, files);
        let r = reported_of(o, files);
        assert forall|i: int| 0 <= i < r.len() implies
            files[#[trigger] r[i].0] == Some((r[i].1, r[i].2)) by {
            if i < prev.len() {
                assert(r[i] == prev[i]);
            }
        }
        assert forall|j: int| 0 <= j < o.len() && (#[trigger] files[o[j]]) is Some implies
            exists|i: int| #![trigger r[i]] 0 <= i < r.len() && r[i].0 == o[j]
                && files[o[j]] == Some((r[i].1, r[i].2)) by {
            if j < o.len() - 1 {
                assert(o[j] == init[j]);
                let i = choose|i: int| #![trigger prev[i]] 0 <= i < prev.len() && prev[i].0 == init[j]
                    && files[init[j]] == Some((prev[i].1, prev[i].2));
                assert(r[i] == prev[i]);
            } else {
                assert(r[prev.len() as int] == (o.last(), (files[o.last()]->0).0, (files[o.last()]->0).1));
            }
        }
    }
}

/// Nothing is new when HEAD is the last processed commit: a finished walk
/// collects no commit.
pub proof fn law_walk_nothing_new_at_head(w: &HistoryWalk)
    requires
        w.wf(),
        w.phase() == Phase::Done,
        w.stop_at() == Some(w.head()),
    ensures
        w.collected_set() == Set::<Seq<char>>::empty(),
{
    w.lemma_walk_done();
    let g = w.graph();
    let x = w.excluded();
    assert forall|y: Seq<char>| !#[trigger] w.collected_set().contains(y) by {
        if w.collected_set().contains(y) {
            assert(reaches(g, w.head(), y, x));
            let path = choose|path: Seq<Seq<char>>| #[trigger] path_from(g, path, w.head(), y, x);
            assert(!x.contains(path[0]));
        }
    }
    assert(w.collected_set() =~= Set::<Seq<char>>::empty());
}

proof fn lemma_chain_stays(g: Graph, x: Set<Seq<char>>, path: Seq<Seq<char>>)
    requires
        closed(g, x),
        chain(g, path),
        x.contains(path[0]),
    ensures
        x.contains(path.last()),
    decreases path.len(),
{
    if path.len() > 1 {
        assert(link(g, path, 0));
        let q = choose|q: int| 0 <= q < g[path[0]].len() && g[path[0]][q] == path[1];
        assert(x.contains(g[path[0]][q]));
        let rest = path.drop_first();
        assert forall|i: int| 0 <= i < rest.len() - 1 implies #[trigger] link(g, rest, i) by {
            assert(link(g, path, i + 1));
        }
        lemma_chain_stays(g, x, rest);
    }
}

/// Only new commits: once the last processed commit and its ancestors are
/// set aside (closed under parents), no commit reached from it by parents
/// is collected.
pub proof fn law_walk_skips_ancestors_of_stop(g: Graph, x: Set<Seq<char>>, c: Set<Seq<char>>, path: Seq<Seq<char>>)
    requires
        closed(g, x),
        c.disjoint(x),
        chain(g, path),
        x.contains(path[0]),
    ensures
        x.contains(path.last()),
        !c.contains(path.last()),
{
    lemma_chain_stays(g, x, path);
}

/// Every commit reached from HEAD by parents is collected, unless it is set
/// aside.
pub proof fn law_walk_complete(g: Graph, x: Set<Seq<char>>, c: Set<Seq<char>>, path: Seq<Seq<char>>)
    requires
        closed(g, x),
        closed_beside(g, c, x),
        chain(g, path),
        c.contains(path[0]) || x.contains(path[0]),
        !x.contains(path.last()),
    ensures
        c.contains(path.last()),
    decreases path.len(),
{
    if x.contains(path[0]) {
        lemma_chain_stays(g, x, path);
    } else if path.len() > 1 {
        assert(link(g, path, 0));
        let q = choose|q: int| 0 <= q < g[path[0]].len() && g[path[0]][q] == path[1];
        assert(c.contains(g[path[0]][q]) || x.contains(g[path[0]][q]));
        let rest = path.drop_first();
        assert forall|i: int| 0 <= i < rest.len() - 1 implies #[trigger] link(g, rest, i) by {
            assert(link(g, path, i + 1));
        }
        law_walk_complete(g, x, c, rest);
    }
}

/// Ancestors first: in a complete order of the collected commits, a commit
/// reached from another by parents comes before it.
pub proof fn law_walk_ancestors_first(g: Graph, x: Set<Seq<char>>, c: Set<Seq<char>>, o: Seq<Seq<char>>, path: Seq<Seq<char>>)
    requires
        closed(g, x),
        closed_beside(g, c, x),
        c.disjoint(x),
        walk_order(g, c, o, o.len() as int),
        chain(g, path),
        path.len() >= 2,
        c.contains(path[0]),
        c.contains(path.last()),
    ensures
        exists|a: int, b: int| 0 <= b < a < o.len() && #[trigger] o[a] == path[0] && #[trigger] o[b] == path.last(),
    decreases path.len(),
{
    assert(link(g, path, 0));
    let q = choose|q: int| 0 <= q < g[path[0]].len() && g[path[0]][q] == path[1];
    assert(c.contains(g[path[0]][q]) || x.contains(g[path[0]][q]));
    let rest = path.drop_first();
    assert forall|i: int| 0 <= i < rest.len() - 1 implies #[trigger] link(g, rest, i) by {
        assert(link(g, path, i + 1));
    }
    if x.contains(path[1]) {
        lemma_chain_stays(g, x, rest);
        assert(false);
    }
    assert(o.contains(path[0]) && o.contains(path[1]));
    let a = choose|a: int| 0 <= a < o.len() && o[a] == path[0];
    assert(is_parent(g, o[a], path[1]));
    let j = choose|j: int| 0 <= j < a && #[trigger] o[j] == path[1];
    if path.len() == 2 {
        assert(o[j] == path.last());
    } else {
        law_walk_ancestors_first(g, x, c, o, rest);
        let (a2, b2) = choose|a2: int, b2: int| 0 <= b2 < a2 < o.len() && #[trigger] o[a2] == rest[0] && #[trigger] o[b2] == rest.last();
        assert(a2 == j) by {
            if a2 != j {
                if a2 < j { assert(o[a2] != o[j]); } else { assert(o[j] != o[a2]); }
            }
        }
        assert(o[b2] == path.last());
    }
}

} // verus!
