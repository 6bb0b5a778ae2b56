//! Lane assignment for the commit graph.
//!
//! Commits arrive newest first, as git logs them. Each row occupies a column
//! ("lane"); a lane stays alive from the row that opens it down to the row of
//! the commit it is waiting for. Merges open extra lanes, and a lane closes
//! when its awaited commit is drawn.
//!
//! This is pure: it takes shas and parent shas and returns geometry, so the
//! topology can be tested without a repository.

use vstd::prelude::*;

use crate::text::{chars_of, same, slice_of, vecs_view};

verus! {

/// One row of the commit graph.
#[derive(Debug, Clone, PartialEq)]
pub struct Node {
    /// Column this commit is drawn in.
    pub lane: usize,
    /// One edge per parent, as (this lane -> the lane the parent will occupy).
    pub edges: Vec<(usize, usize)>,
    /// Lanes that pass straight through this row without touching it.
    pub through: Vec<usize>,
    /// Widest lane index in play on this row, so the renderer can size itself.
    pub width: usize,
}

/// A row of the graph with its lists as sequences.
pub struct NodeView {
    pub lane: usize,
    pub edges: Seq<(usize, usize)>,
    pub through: Seq<usize>,
    pub width: usize,
}

impl View for Node {
    type V = NodeView;

    open spec fn view(&self) -> NodeView {
        NodeView { lane: self.lane, edges: self.edges@, through: self.through@, width: self.width }
    }
}

/// The views of a list of rows.
pub open spec fn nodes_view(v: Seq<Node>) -> Seq<NodeView> {
    v.map_values(|n: Node| n@)
}

/// Lanes, each waiting for a sha or free.
pub type Lanes = Seq<Option<Seq<char>>>;

/// The first lane at or after `k` waiting for `sha`.
pub open spec fn find_lane_from(lanes: Lanes, sha: Seq<char>, k: int) -> Option<int>
    decreases lanes.len() - k,
{
    if k < 0 || k >= lanes.len() {
        None
    } else if lanes[k] == Some(sha) {
        Some(k)
    } else {
        find_lane_from(lanes, sha, k + 1)
    }
}

/// The first free lane at or after `k`.
pub open spec fn free_lane_from(lanes: Lanes, k: int) -> Option<int>
    decreases lanes.len() - k,
{
    if k < 0 || k >= lanes.len() {
        None
    } else if lanes[k] is None {
        Some(k)
    } else {
        free_lane_from(lanes, k + 1)
    }
}

pub proof fn lemma_find_lane(lanes: Lanes, sha: Seq<char>, k: int)
    requires
        0 <= k,
    ensures
        match find_lane_from(lanes, sha, k) {
            Some(i) => k <= i < lanes.len() && lanes[i] == Some(sha) && forall|t: int|
                k <= t < i ==> lanes[t] != Some(sha),
            None => forall|t: int| k <= t < lanes.len() ==> lanes[t] != Some(sha),
        },
    decreases lanes.len() - k,
{
    if k < lanes.len() && lanes[k] != Some(sha) {
        lemma_find_lane(lanes, sha, k + 1);
    }
}

pub proof fn lemma_free_lane(lanes: Lanes, k: int)
    requires
        0 <= k,
    ensures
        match free_lane_from(lanes, k) {
            Some(i) => k <= i < lanes.len() && lanes[i] is None && forall|t: int|
                k <= t < i ==> lanes[t] is Some,
            None => forall|t: int| k <= t < lanes.len() ==> lanes[t] is Some,
        },
    decreases lanes.len() - k,
{
    if k < lanes.len() && lanes[k] is Some {
        lemma_free_lane(lanes, k + 1);
    }
}

/// The lane a commit is drawn in: the one already waiting for it, else the
/// first free one, else a new one at the end. Returns the lanes (with the
/// new one added) and the lane.
pub open spec fn pick_lane(lanes: Lanes, sha: Seq<char>) -> (Lanes, int) {
    match find_lane_from(lanes, sha, 0) {
        Some(i) => (lanes, i),
        None => match free_lane_from(lanes, 0) {
            Some(i) => (lanes, i),
            None => (lanes.push(None), lanes.len() as int),
        },
    }
}

/// Edges from every lane below `k` other than `lane` still waiting for `sha`
/// into `lane`: a merge arriving from the side.
pub open spec fn collapse_edges(lanes: Lanes, sha: Seq<char>, lane: int, k: int) -> Seq<
    (usize, usize),
>
    decreases k,
{
    if k <= 0 {
        Seq::empty()
    } else {
        let rest = collapse_edges(lanes, sha, lane, k - 1);
        if k - 1 != lane && k - 1 < lanes.len() && lanes[k - 1] == Some(sha) {
            rest.push(((k - 1) as usize, lane as usize))
        } else {
            rest
        }
    }
}

/// The lanes once every lane other than `lane` waiting for `sha` is freed.
pub open spec fn collapse_lanes(lanes: Lanes, sha: Seq<char>, lane: int) -> Lanes {
    Seq::new(
        lanes.len(),
        |i: int|
            if i != lane && lanes[i] == Some(sha) {
                None
            } else {
                lanes[i]
            },
    )
}

/// The busy lanes below `k` other than `lane`, in order.
pub open spec fn through_lanes(lanes: Lanes, lane: int, k: int) -> Seq<usize>
    decreases k,
{
    if k <= 0 {
        Seq::empty()
    } else {
        let rest = through_lanes(lanes, lane, k - 1);
        if k - 1 != lane && k - 1 < lanes.len() && lanes[k - 1] is Some {
            rest.push((k - 1) as usize)
        } else {
            rest
        }
    }
}

/// Placing the `n`-th parent of a commit drawn in `lane`. A parent that a
/// lane already waits for joins that lane, where it will be drawn. Otherwise
/// the first parent keeps the straight line in `lane`, and the others take
/// the first free lane, else a new one.
pub open spec fn place_parent(lanes: Lanes, lane: int, n: int, parent: Seq<char>) -> (Lanes, int) {
    match find_lane_from(lanes, parent, 0) {
        Some(i) => (lanes, i),
        None => if n == 0 {
            (lanes.update(lane, Some(parent)), lane)
        } else {
            match free_lane_from(lanes, 0) {
                Some(i) => (lanes.update(i, Some(parent)), i),
                None => (lanes.push(Some(parent)), lanes.len() as int),
            }
        },
    }
}

/// The lanes and edges once `parents` are placed, in order.
pub open spec fn place_parents(lanes: Lanes, lane: int, parents: Seq<Seq<char>>) -> (
    Lanes,
    Seq<(usize, usize)>,
)
    decreases parents.len(),
{
    if parents.len() == 0 {
        (lanes, Seq::empty())
    } else {
        let (l, e) = place_parents(lanes, lane, parents.drop_last());
        let (l2, t) = place_parent(l, lane, parents.len() - 1, parents.last());
        (l2, e.push((lane as usize, t as usize)))
    }
}

/// Lanes with the free ones at the end dropped.
pub open spec fn trim_lanes(lanes: Lanes) -> Lanes
    decreases lanes.len(),
{
    if lanes.len() > 0 && lanes.last() is None {
        trim_lanes(lanes.drop_last())
    } else {
        lanes
    }
}

/// One past the largest lane any edge touches, or 0.
pub open spec fn edges_width(edges: Seq<(usize, usize)>) -> int
    decreases edges.len(),
{
    if edges.len() == 0 {
        0
    } else {
        let rest = edges_width(edges.drop_last());
        let (a, b) = edges.last();
        let w = if a >= b {
            a + 1
        } else {
            b + 1
        };
        if w >= rest {
            w
        } else {
            rest
        }
    }
}

/// The largest of three numbers.
pub open spec fn max3(a: int, b: int, c: int) -> int {
    let m = if a >= b {
        a
    } else {
        b
    };
    if m >= c {
        m
    } else {
        c
    }
}

/// One row of the graph: the lanes after it, and its node.
pub open spec fn row(lanes: Lanes, sha: Seq<char>, parents: Seq<Seq<char>>) -> (Lanes, NodeView) {
    let (l1, lane) = pick_lane(lanes, sha);
    let ce = collapse_edges(l1, sha, lane, l1.len() as int);
    let l2 = collapse_lanes(l1, sha, lane);
    let through = through_lanes(l2, lane, l2.len() as int);
    let l3 = l2.update(lane, None);
    let (l4, pe) = place_parents(l3, lane, parents);
    let edges = ce + pe;
    let l5 = trim_lanes(l4);
    let width = max3(l4.len() as int, lane + 1, edges_width(edges));
    (l5, NodeView { lane: lane as usize, edges, through, width: width as usize })
}

/// The lanes after the rows for `commits`, and their nodes.
pub open spec fn lay_out_spec(commits: Seq<(Seq<char>, Seq<Seq<char>>)>) -> (Lanes, Seq<NodeView>)
    decreases commits.len(),
{
    if commits.len() == 0 {
        (Seq::empty(), Seq::empty())
    } else {
        let (lanes, nodes) = lay_out_spec(commits.drop_last());
        let (sha, parents) = commits.last();
        let (l2, node) = row(lanes, sha, parents);
        (l2, nodes.push(node))
    }
}

/// The view of an optional character vector.
pub open spec fn opt_chars_view(o: Option<Vec<char>>) -> Option<Seq<char>> {
    match o {
        Some(x) => Some(x@),
        None => None,
    }
}

/// The lanes over character sequences.
pub open spec fn lanes_view(v: Seq<Option<Vec<char>>>) -> Lanes {
    v.map_values(|o: Option<Vec<char>>| opt_chars_view(o))
}

fn copy_chars(v: &Vec<char>) -> (r: Vec<char>)
    ensures
        r@ == v@,
{
    let r = slice_of(v, 0, v.len());
    assert(r@ =~= v@);
    r
}

fn waits_for(slot: &Option<Vec<char>>, sha: &Vec<char>) -> (b: bool)
    ensures
        b == (opt_chars_view(*slot) == Some(sha@)),
{
    match slot {
        Some(x) => same(x, sha),
        None => false,
    }
}

fn find_lane(lanes: &Vec<Option<Vec<char>>>, sha: &Vec<char>) -> (r: Option<usize>)
    ensures
        match r {
            Some(i) => find_lane_from(lanes_view(lanes@), sha@, 0) == Some(i as int),
            None => find_lane_from(lanes_view(lanes@), sha@, 0) is None,
        },
{
    let mut k: usize = 0;
    while k < lanes.len()
        invariant
            k <= lanes.len(),
            find_lane_from(lanes_view(lanes@), sha@, 0) == find_lane_from(
                lanes_view(lanes@),
                sha@,
                k as int,
            ),
        decreases lanes.len() - k,
    {
        assert(lanes_view(lanes@)[k as int] == opt_chars_view(lanes@[k as int]));
        if waits_for(&lanes[k], sha) {
            return Some(k);
        }
        k += 1;
    }
    None
}

fn free_lane(lanes: &Vec<Option<Vec<char>>>) -> (r: Option<usize>)
    ensures
        match r {
            Some(i) => free_lane_from(lanes_view(lanes@), 0) == Some(i as int),
            None => free_lane_from(lanes_view(lanes@), 0) is None,
        },
{
    let mut k: usize = 0;
    while k < lanes.len()
        invariant
            k <= lanes.len(),
            free_lane_from(lanes_view(lanes@), 0) == free_lane_from(lanes_view(lanes@), k as int),
        decreases lanes.len() - k,
    {
        assert(lanes_view(lanes@)[k as int] == opt_chars_view(lanes@[k as int]));
        if lanes[k].is_none() {
            return Some(k);
        }
        k += 1;
    }
    None
}

/// Sets lane `i` to `v`.
fn set_lane(lanes: &mut Vec<Option<Vec<char>>>, i: usize, v: Option<Vec<char>>)
    requires
        i < old(lanes).len(),
    ensures
        lanes_view(final(lanes)@) == lanes_view(old(lanes)@).update(i as int, opt_chars_view(v)),
        final(lanes).len() == old(lanes).len(),
{
    let ghost before = lanes_view(lanes@);
    lanes.set(i, v);
    assert(lanes_view(lanes@) =~= before.update(i as int, opt_chars_view(v)));
}

fn push_lane(lanes: &mut Vec<Option<Vec<char>>>, v: Option<Vec<char>>)
    ensures
        lanes_view(final(lanes)@) == lanes_view(old(lanes)@).push(opt_chars_view(v)),
        final(lanes).len() == old(lanes).len() + 1,
{
    let ghost before = lanes_view(lanes@);
    lanes.push(v);
    assert(lanes_view(lanes@) =~= before.push(opt_chars_view(v)));
}

fn place_parent_exec(lanes: &mut Vec<Option<Vec<char>>>, lane: usize, n: usize, parent: &Vec<char>) -> (t: usize)
    requires
        lane < old(lanes).len(),
    ensures
        (lanes_view(final(lanes)@), t as int) == place_parent(
            lanes_view(old(lanes)@),
            lane as int,
            n as int,
            parent@,
        ),
        final(lanes).len() >= old(lanes).len(),
        t < final(lanes).len(),
{
    proof {
        lemma_find_lane(lanes_view(lanes@), parent@, 0);
        lemma_free_lane(lanes_view(lanes@), 0);
    }
    match find_lane(lanes, parent) {
        Some(i) => i,
        None => {
            if n == 0 {
                set_lane(lanes, lane, Some(copy_chars(parent)));
                lane
            } else {
                match free_lane(lanes) {
                    Some(i) => {
                        set_lane(lanes, i, Some(copy_chars(parent)));
                        i
                    },
                    None => {
                        push_lane(lanes, Some(copy_chars(parent)));
                        lanes.len() - 1
                    },
                }
            }
        },
    }
}

fn row_exec(lanes: &mut Vec<Option<Vec<char>>>, sha: &Vec<char>, parents: &Vec<Vec<char>>) -> (node: Node)
    ensures
        (lanes_view(final(lanes)@), node@) == row(lanes_view(old(lanes)@), sha@, vecs_view(parents@)),
{
    proof {
        lemma_find_lane(lanes_view(lanes@), sha@, 0);
        lemma_free_lane(lanes_view(lanes@), 0);
    }
    let lane = match find_lane(lanes, sha) {
        Some(i) => i,
        None => match free_lane(lanes) {
            Some(i) => i,
            None => {
                push_lane(lanes, None);
                lanes.len() - 1
            },
        },
    };
    let ghost l1 = lanes_view(lanes@);
    assert((l1, lane as int) == pick_lane(lanes_view(old(lanes)@), sha@));
    // Every other lane still waiting for this same sha is a merge arriving
    // from the side: it collapses into `lane` rather than staying open.
    let mut edges: Vec<(usize, usize)> = Vec::new();
    let mut i: usize = 0;
    while i < lanes.len()
        invariant
            lane < lanes.len(),
            i <= lanes.len(),
            l1.len() == lanes.len(),
            edges@ == collapse_edges(l1, sha@, lane as int, i as int),
            forall|t: int| 0 <= t < edges.len() ==> edges@[t].0 < lanes.len() && edges@[t].1 < lanes.len(),
            forall|t: int| 0 <= t < i ==> lanes_view(lanes@)[t] == collapse_lanes(l1, sha@, lane as int)[t],
            forall|t: int| i <= t < lanes.len() ==> lanes_view(lanes@)[t] == l1[t],
        decreases lanes.len() - i,
    {
        assert(lanes_view(lanes@)[i as int] == opt_chars_view(lanes@[i as int]));
        if i != lane && waits_for(&lanes[i], sha) {
            set_lane(lanes, i, None);
            edges.push((i, lane));
        }
        i += 1;
    }
    let ghost l2 = lanes_view(lanes@);
    assert(l2 =~= collapse_lanes(l1, sha@, lane as int));
    let mut through: Vec<usize> = Vec::new();
    let mut k: usize = 0;
    while k < lanes.len()
        invariant
            k <= lanes.len(),
            l2 == lanes_view(lanes@),
            through@ == through_lanes(l2, lane as int, k as int),
            lane < lanes.len(),
            forall|t: int| 0 <= t < edges.len() ==> edges@[t].0 < lanes.len() && edges@[t].1 < lanes.len(),
        decreases lanes.len() - k,
    {
        assert(l2[k as int] == opt_chars_view(lanes@[k as int]));
        if k != lane && lanes[k].is_some() {
            through.push(k);
        }
        k += 1;
    }
    // The first parent continues in this lane; the rest branch out.
    set_lane(lanes, lane, None);
    let ghost l3 = lanes_view(lanes@);
    let ghost ce = edges@;
    let mut n: usize = 0;
    while n < parents.len()
        invariant
            lane < lanes.len(),
            n <= parents.len(),
            ce.len() <= edges.len(),
            edges@.take(ce.len() as int) == ce,
            (lanes_view(lanes@), edges@.skip(ce.len() as int)) == place_parents(
                l3,
                lane as int,
                vecs_view(parents@).take(n as int),
            ),
            forall|t: int| 0 <= t < edges.len() ==> edges@[t].0 < lanes.len() && edges@[t].1 < lanes.len(),
        decreases parents.len() - n,
    {
        let ghost before_edges = edges@;
        let t = place_parent_exec(lanes, lane, n, &parents[n]);
        edges.push((lane, t));
        n += 1;
        proof {
            let ps = vecs_view(parents@).take(n as int);
            assert(ps.drop_last() =~= vecs_view(parents@).take(n - 1));
            assert(ps.last() == parents@[n - 1]@);
            assert(edges@.take(ce.len() as int) =~= before_edges.take(ce.len() as int));
            assert(edges@.skip(ce.len() as int) =~= before_edges.skip(ce.len() as int).push((lane, t)));
        }
    }
    assert(vecs_view(parents@).take(parents.len() as int) =~= vecs_view(parents@));
    assert(edges@ =~= ce + edges@.skip(ce.len() as int));
    let ghost l4 = lanes_view(lanes@);
    // The width counts every lane in play on this row, so it is taken
    // before the free lanes at the end are dropped.
    let in_play = lanes.len();
    while lanes.len() > 0 && lanes[lanes.len() - 1].is_none()
        invariant
            trim_lanes(l4) == trim_lanes(lanes_view(lanes@)),
        decreases lanes.len(),
    {
        let ghost before = lanes_view(lanes@);
        lanes.pop();
        assert(lanes_view(lanes@) =~= before.drop_last());
    }
    assert(trim_lanes(lanes_view(lanes@)) == lanes_view(lanes@));
    let mut ew: usize = 0;
    let mut e: usize = 0;
    while e < edges.len()
        invariant
            e <= edges.len(),
            ew == edges_width(edges@.take(e as int)),
            forall|t: int| 0 <= t < edges.len() ==> edges@[t].0 < usize::MAX && edges@[t].1 < usize::MAX,
        decreases edges.len() - e,
    {
        assert(edges@.take(e + 1).drop_last() =~= edges@.take(e as int));
        let (a, b) = edges[e];
        let w = if a >= b {
            a + 1
        } else {
            b + 1
        };
        if w >= ew {
            ew = w;
        }
        e += 1;
    }
    assert(edges@.take(edges.len() as int) =~= edges@);
    let mut width = in_play;
    if lane + 1 > width {
        width = lane + 1;
    }
    if ew > width {
        width = ew;
    }
    Node { lane, edges, through, width }
}

/// The commits over character sequences.
pub open spec fn commits_view(c: Seq<(String, Vec<String>)>) -> Seq<(Seq<char>, Seq<Seq<char>>)> {
    c.map_values(
        |x: (String, Vec<String>)| (x.0@, x.1@.map_values(|p: String| p@)),
    )
}

/// Lays the commits out in lanes. `commits` is (sha, parent shas), newest
/// first; the result has one node per commit, in the same order.
pub fn lay_out(commits: &[(String, Vec<String>)]) -> (out: Vec<Node>)
    ensures
        nodes_view(out@) == lay_out_spec(commits_view(commits@)).1,
{
    let mut lanes: Vec<Option<Vec<char>>> = Vec::new();
    let mut out: Vec<Node> = Vec::new();
    let mut c: usize = 0;
    assert(lanes_view(lanes@) =~= Seq::<Option<Seq<char>>>::empty());
    assert(nodes_view(out@) =~= Seq::<NodeView>::empty());
    while c < commits.len()
        invariant
            c <= commits.len(),
            (lanes_view(lanes@), nodes_view(out@)) == lay_out_spec(
                commits_view(commits@).take(c as int),
            ),
        decreases commits.len() - c,
    {
        let sha = chars_of(commits[c].0.as_str());
        let mut parents: Vec<Vec<char>> = Vec::new();
        let mut p: usize = 0;
        while p < commits[c].1.len()
            invariant
                c < commits.len(),
                p <= commits@[c as int].1.len(),
                vecs_view(parents@) == commits@[c as int].1@.take(p as int).map_values(
                    |x: String| x@,
                ),
            decreases commits@[c as int].1.len() - p,
        {
            let ghost before = parents@;
            let pc = chars_of(commits[c].1[p].as_str());
            parents.push(pc);
            p += 1;
            proof {
                let cs = commits@[c as int].1@;
                assert(vecs_view(parents@) =~= vecs_view(before).push(pc@));
                assert(cs.take(p as int).map_values(|x: String| x@) =~= cs.take(p - 1).map_values(
                    |x: String| x@,
                ).push(cs[p - 1]@));
            }
        }
        assert(commits@[c as int].1@.take(p as int) =~= commits@[c as int].1@);
        let ghost before = out@;
        let node = row_exec(&mut lanes, &sha, &parents);
        out.push(node);
        c += 1;
        proof {
            let cv = commits_view(commits@).take(c as int);
            assert(cv.drop_last() =~= commits_view(commits@).take(c - 1));
            assert(cv.last() == (sha@, vecs_view(parents@)));
            assert(nodes_view(out@) =~= nodes_view(before).push(node@));
        }
    }
    assert(commits_view(commits@).take(commits.len() as int) =~= commits_view(commits@));
    out
}

/// No sha waits in two lanes.
pub open spec fn distinct(l: Lanes) -> bool {
    forall|i: int, j: int|
        0 <= i < l.len() && 0 <= j < l.len() && i != j && (#[trigger] l[i]) is Some ==> l[i]
            != #[trigger] l[j]
}

proof fn lemma_no_collapse(l: Lanes, sha: Seq<char>, lane: int, k: int)
    requires
        forall|t: int| 0 <= t < l.len() && t != lane ==> l[t] != Some(sha),
    ensures
        collapse_edges(l, sha, lane, k) == Seq::<(usize, usize)>::empty(),
    decreases k,
{
    if k > 0 {
        lemma_no_collapse(l, sha, lane, k - 1);
    }
}

proof fn lemma_through(l: Lanes, lane: int, k: int)
    requires
        0 <= k <= l.len(),
        l.len() <= usize::MAX,
    ensures
        forall|t: int| 0 <= t < through_lanes(l, lane, k).len() ==> {
            &&& #[trigger] through_lanes(l, lane, k)[t] < k
            &&& through_lanes(l, lane, k)[t] != lane
            &&& l[through_lanes(l, lane, k)[t] as int] is Some
        },
        forall|t: int|
            0 <= t < through_lanes(l, lane, k).len() - 1 ==> #[trigger] through_lanes(
                l,
                lane,
                k,
            )[t] < through_lanes(l, lane, k)[t + 1],
    decreases k,
{
    if k > 0 {
        lemma_through(l, lane, k - 1);
        let rest = through_lanes(l, lane, k - 1);
        let all = through_lanes(l, lane, k);
        if k - 1 != lane && l[k - 1] is Some {
            assert(all == rest.push((k - 1) as usize));
            assert forall|t: int| 0 <= t < all.len() - 1 implies #[trigger] all[t] < all[t + 1] by {
                if t < rest.len() - 1 {
                    assert(all[t] == rest[t] && all[t + 1] == rest[t + 1]);
                } else {
                    assert(all[t] == rest[t]);
                    assert(rest[t] < k - 1);
                }
            }
            assert forall|t: int| 0 <= t < all.len() implies {
                &&& #[trigger] all[t] < k
                &&& all[t] != lane
                &&& l[all[t] as int] is Some
            } by {
                if t < rest.len() {
                    assert(all[t] == rest[t]);
                }
            }
        }
    }
}

proof fn lemma_trim(l: Lanes)
    ensures
        trim_lanes(l).len() <= l.len(),
        forall|t: int| 0 <= t < trim_lanes(l).len() ==> #[trigger] trim_lanes(l)[t] == l[t],
        forall|t: int| 0 <= t < l.len() && l[t] is Some ==> t < trim_lanes(l).len(),
    decreases l.len(),
{
    if l.len() > 0 && l.last() is None {
        lemma_trim(l.drop_last());
        assert forall|t: int| 0 <= t < l.len() && l[t] is Some implies t < trim_lanes(l).len() by {
            assert(t != l.len() - 1);
            assert(l.drop_last()[t] == l[t]);
        }
        assert forall|t: int| 0 <= t < trim_lanes(l).len() implies #[trigger] trim_lanes(l)[t]
            == l[t] by {
            assert(l.drop_last()[t] == l[t]);
        }
    }
}

/// What placing parents keeps: no sha waits twice, lanes only grow, a lane
/// waiting for a sha keeps waiting for it, and every placed parent waits in
/// its edge's target lane.
spec fn placed_ok(l: Lanes, lane: int, ps: Seq<Seq<char>>, out: Lanes, edges: Seq<(usize, usize)>) -> bool {
    &&& distinct(out)
    &&& out.len() >= l.len()
    &&& out.len() <= l.len() + ps.len()
    &&& lane < out.len()
    &&& forall|s: int| 0 <= s < l.len() && (#[trigger] l[s]) is Some ==> out[s] == l[s]
    &&& edges.len() == ps.len()
    &&& forall|k: int| 0 <= k < edges.len() ==> (#[trigger] edges[k]).0 == lane
    &&& forall|k: int|
        0 <= k < edges.len() ==> (#[trigger] edges[k]).1 < out.len() && out[edges[k].1 as int]
            == Some(ps[k])
}

proof fn lemma_place_parents(l: Lanes, lane: int, ps: Seq<Seq<char>>)
    requires
        distinct(l),
        0 <= lane < l.len(),
        l[lane] is None,
        l.len() + ps.len() <= usize::MAX,
    ensures
        placed_ok(l, lane, ps, place_parents(l, lane, ps).0, place_parents(l, lane, ps).1),
    decreases ps.len(),
{
    if ps.len() > 0 {
        let pre = ps.drop_last();
        lemma_place_parents(l, lane, pre);
        let (l1, e1) = place_parents(l, lane, pre);
        let n = ps.len() - 1;
        let p = ps.last();
        let (l2, t) = place_parent(l1, lane, n, p);
        lemma_find_lane(l1, p, 0);
        lemma_free_lane(l1, 0);
        if n == 0 {
            assert(l1 == l);
        }
        assert(forall|k: int| 0 <= k < e1.len() ==> e1[k].1 < l2.len() && l2[e1[k].1 as int]
            == Some(pre[k])) by {
            assert forall|k: int| 0 <= k < e1.len() implies e1[k].1 < l2.len() && l2[e1[k].1 as int]
                == Some(pre[k]) by {
                assert(l1[e1[k].1 as int] == Some(pre[k]));
            }
        }
        assert(t < l2.len() && l2[t] == Some(p));
        assert(l2.len() <= l1.len() + 1);
        let e2 = e1.push((lane as usize, t as usize));
        assert(e2[n] == (lane as usize, t as usize));
        assert forall|k: int| 0 <= k < e2.len() implies (#[trigger] e2[k]).1 < l2.len() && l2[e2[k].1 as int]
            == Some(ps[k]) by {
            if k < e1.len() {
                assert(e2[k] == e1[k]);
                assert(ps[k] == pre[k]);
            }
        }
        assert(distinct(l2)) by {
            assert forall|i: int, j: int|
                0 <= i < l2.len() && 0 <= j < l2.len() && i != j && (#[trigger] l2[i]) is Some implies l2[i]
                    != #[trigger] l2[j] by {
                if i < l1.len() && j < l1.len() {
                    if l1[i] is Some && l1[j] is Some {
                        assert(l1[i] != l1[j]);
                    }
                }
            }
        }
    }
}

/// What every row draws: one edge per parent, in parent order, each from
/// the commit's own lane to a lane inside the row's width that, once the row
/// is drawn, waits for that parent; the commit's lane lies inside the width;
/// the lanes passing through are in order, inside the width and not the
/// commit's lane;
/// and afterwards no sha waits in two lanes.
pub open spec fn row_ok(parents: Seq<Seq<char>>, after: Lanes, node: NodeView) -> bool {
    &&& distinct(after)
    &&& node.lane < node.width
    &&& after.len() <= node.width
    &&& node.edges.len() == parents.len()
    &&& forall|k: int| 0 <= k < node.edges.len() ==> (#[trigger] node.edges[k]).0 == node.lane
    &&& forall|k: int|
        0 <= k < node.edges.len() ==> (#[trigger] node.edges[k]).1 < after.len() && after[node.edges[k].1 as int]
            == Some(parents[k])
    &&& forall|t: int|
        0 <= t < node.through.len() ==> #[trigger] node.through[t] != node.lane && node.through[t]
            < node.width
    &&& forall|t: int| 0 <= t < node.through.len() - 1 ==> #[trigger] node.through[t] < node.through[t + 1]
}

proof fn lemma_edges_width(edges: Seq<(usize, usize)>, bound: int)
    requires
        forall|k: int| 0 <= k < edges.len() ==> (#[trigger] edges[k]).0 < bound && edges[k].1 < bound,
        bound >= 0,
    ensures
        edges_width(edges) <= bound,
        forall|k: int| 0 <= k < edges.len() ==> (#[trigger] edges[k]).0 < edges_width(edges) && edges[k].1 < edges_width(edges),
        edges_width(edges) >= 0,
    decreases edges.len(),
{
    if edges.len() > 0 {
        assert forall|k: int| 0 <= k < edges.len() - 1 implies (#[trigger] edges.drop_last()[k]).0 < bound && edges.drop_last()[k].1 < bound by {
            assert(edges.drop_last()[k] == edges[k]);
        }
        lemma_edges_width(edges.drop_last(), bound);
        assert forall|k: int| 0 <= k < edges.len() implies (#[trigger] edges[k]).0 < edges_width(edges) && edges[k].1 < edges_width(edges) by {
            if k < edges.len() - 1 {
                assert(edges[k] == edges.drop_last()[k]);
            }
        }
    }
}

proof fn lemma_row_ok(lanes: Lanes, sha: Seq<char>, parents: Seq<Seq<char>>)
    requires
        distinct(lanes),
        lanes.len() + 1 + parents.len() <= usize::MAX,
    ensures
        row_ok(parents, row(lanes, sha, parents).0, row(lanes, sha, parents).1),
        row(lanes, sha, parents).0.len() <= lanes.len() + 1 + parents.len(),
{
    lemma_find_lane(lanes, sha, 0);
    lemma_free_lane(lanes, 0);
    let (l1, lane) = pick_lane(lanes, sha);
    assert(distinct(l1)) by {
        assert forall|i: int, j: int|
            0 <= i < l1.len() && 0 <= j < l1.len() && i != j && (#[trigger] l1[i]) is Some implies l1[i]
                != #[trigger] l1[j] by {
            if i < lanes.len() && j < lanes.len() {
                assert(lanes[i] != lanes[j]);
            }
        }
    }
    assert(forall|t: int| 0 <= t < l1.len() && t != lane ==> l1[t] != Some(sha));
    lemma_no_collapse(l1, sha, lane, l1.len() as int);
    let l2 = collapse_lanes(l1, sha, lane);
    assert(l2 =~= l1);
    lemma_through(l2, lane, l2.len() as int);
    let l3 = l2.update(lane, None);
    assert(distinct(l3)) by {
        assert forall|i: int, j: int|
            0 <= i < l3.len() && 0 <= j < l3.len() && i != j && (#[trigger] l3[i]) is Some implies l3[i]
                != #[trigger] l3[j] by {
            assert(l1[i] != l1[j]);
        }
    }
    lemma_place_parents(l3, lane, parents);
    let (l4, pe) = place_parents(l3, lane, parents);
    let l5 = trim_lanes(l4);
    lemma_trim(l4);
    let (after, node) = row(lanes, sha, parents);
    assert(node.edges =~= pe);
    assert forall|k: int| 0 <= k < node.edges.len() implies (#[trigger] node.edges[k]).0 < l4.len() && node.edges[k].1 < l4.len() by {
        assert(pe[k].1 < l4.len());
    }
    lemma_edges_width(node.edges, l4.len() as int);
    assert(distinct(l5)) by {
        assert forall|i: int, j: int|
            0 <= i < l5.len() && 0 <= j < l5.len() && i != j && (#[trigger] l5[i]) is Some implies l5[i]
                != #[trigger] l5[j] by {
            assert(l5[i] == l4[i] && l5[j] == l4[j]);
        }
    }
    assert forall|k: int| 0 <= k < node.edges.len() implies (#[trigger] node.edges[k]).1 < after.len() && after[node.edges[k].1 as int]
        == Some(parents[k]) by {
        assert(pe[k].1 < l4.len() && l4[pe[k].1 as int] == Some(parents[k]));
    }
}

/// Each commit counts once, plus once per parent.
pub open spec fn weight(commits: Seq<(Seq<char>, Seq<Seq<char>>)>) -> nat
    decreases commits.len(),
{
    if commits.len() == 0 {
        0
    } else {
        weight(commits.drop_last()) + 1 + commits.last().1.len()
    }
}

/// The shape of the laid-out graph: one node per commit, each row as
/// `row_ok` describes against the lanes it leaves behind, and no sha ever
/// waiting in two lanes.
pub proof fn law_lay_out_rows(commits: Seq<(Seq<char>, Seq<Seq<char>>)>)
    requires
        weight(commits) < usize::MAX,
    ensures
        lay_out_spec(commits).1.len() == commits.len(),
        lay_out_spec(commits).0.len() <= weight(commits),
        distinct(lay_out_spec(commits).0),
        forall|c: int|
            0 <= c < commits.len() ==> row_ok(
                commits[c].1,
                lay_out_spec(commits.take(c + 1)).0,
                #[trigger] lay_out_spec(commits).1[c],
            ),
    decreases commits.len(),
{
    if commits.len() > 0 {
        let pre = commits.drop_last();
        law_lay_out_rows(pre);
        let (lanes, nodes) = lay_out_spec(pre);
        let (sha, parents) = commits.last();
        lemma_row_ok(lanes, sha, parents);
        assert forall|c: int| 0 <= c < commits.len() implies row_ok(
            commits[c].1,
            lay_out_spec(commits.take(c + 1)).0,
            #[trigger] lay_out_spec(commits).1[c],
        ) by {
            if c < commits.len() - 1 {
                assert(commits.take(c + 1) =~= pre.take(c + 1));
                assert(lay_out_spec(commits).1[c] == nodes[c]);
                assert(commits[c] == pre[c]);
            } else {
                assert(commits.take(c + 1) =~= commits);
            }
        }
    } else {
        assert(distinct(lay_out_spec(commits).0));
    }
}

/// A row for another sha leaves a lane waiting for `p` as it is.
proof fn lemma_row_keeps(lanes: Lanes, sha: Seq<char>, parents: Seq<Seq<char>>, t: int, p: Seq<char>)
    requires
        distinct(lanes),
        lanes.len() + 1 + parents.len() <= usize::MAX,
        0 <= t < lanes.len(),
        lanes[t] == Some(p),
        sha != p,
    ensures
        t < row(lanes, sha, parents).0.len(),
        row(lanes, sha, parents).0[t] == Some(p),
{
    lemma_find_lane(lanes, sha, 0);
    lemma_free_lane(lanes, 0);
    let (l1, lane) = pick_lane(lanes, sha);
    assert(lane != t);
    assert(distinct(l1)) by {
        assert forall|i: int, j: int|
            0 <= i < l1.len() && 0 <= j < l1.len() && i != j && (#[trigger] l1[i]) is Some implies l1[i]
                != #[trigger] l1[j] by {
            if i < lanes.len() && j < lanes.len() {
                assert(lanes[i] != lanes[j]);
            }
        }
    }
    let l2 = collapse_lanes(l1, sha, lane);
    assert(l2[t] == Some(p));
    let l3 = l2.update(lane, None);
    assert(distinct(l3)) by {
        assert forall|i: int, j: int|
            0 <= i < l3.len() && 0 <= j < l3.len() && i != j && (#[trigger] l3[i]) is Some implies l3[i]
                != #[trigger] l3[j] by {
            assert(l1[i] != l1[j]);
        }
    }
    lemma_place_parents(l3, lane, parents);
    let l4 = place_parents(l3, lane, parents).0;
    assert(l3[t] is Some);
    assert(l4[t] == Some(p));
    lemma_trim(l4);
}

/// The weight of a prefix is at most the whole weight.
proof fn lemma_weight_prefix(commits: Seq<(Seq<char>, Seq<Seq<char>>)>, n: int)
    requires
        0 <= n <= commits.len(),
    ensures
        weight(commits.take(n)) <= weight(commits),
    decreases commits.len(),
{
    if n < commits.len() {
        lemma_weight_prefix(commits.drop_last(), n);
        assert(commits.drop_last().take(n) =~= commits.take(n));
    } else {
        assert(commits.take(n) =~= commits);
    }
}

/// The node of row `c` is the row drawn on the lanes the earlier rows left.
proof fn lemma_node_of_row(commits: Seq<(Seq<char>, Seq<Seq<char>>)>, c: int)
    requires
        0 <= c < commits.len(),
    ensures
        lay_out_spec(commits).1.len() == commits.len(),
        lay_out_spec(commits).1[c] == row(
            lay_out_spec(commits.take(c)).0,
            commits[c].0,
            commits[c].1,
        ).1,
        lay_out_spec(commits.take(c + 1)).0 == row(
            lay_out_spec(commits.take(c)).0,
            commits[c].0,
            commits[c].1,
        ).0,
    decreases commits.len(),
{
    let pre = commits.drop_last();
    assert(commits.take(c + 1).drop_last() =~= commits.take(c));
    assert(commits.take(c + 1).last() == commits[c]);
    if c < commits.len() - 1 {
        lemma_node_of_row(pre, c);
        assert(pre.take(c) =~= commits.take(c));
        assert(pre[c] == commits[c]);
    } else {
        assert(pre =~= commits.take(c));
        lemma_lay_out_len(pre);
    }
}

proof fn lemma_lay_out_len(commits: Seq<(Seq<char>, Seq<Seq<char>>)>)
    ensures
        lay_out_spec(commits).1.len() == commits.len(),
    decreases commits.len(),
{
    if commits.len() > 0 {
        lemma_lay_out_len(commits.drop_last());
    }
}

/// Once row `i` leaves lane `t` waiting for `p`, the lane keeps waiting for
/// it through every later row that draws another sha.
proof fn lemma_lane_kept(
    commits: Seq<(Seq<char>, Seq<Seq<char>>)>,
    i: int,
    n: int,
    t: int,
    p: Seq<char>,
)
    requires
        weight(commits) < usize::MAX,
        0 <= i < n <= commits.len(),
        0 <= t < lay_out_spec(commits.take(i + 1)).0.len(),
        lay_out_spec(commits.take(i + 1)).0[t] == Some(p),
        forall|m: int| i < m < n ==> (#[trigger] commits[m]).0 != p,
    ensures
        t < lay_out_spec(commits.take(n)).0.len(),
        lay_out_spec(commits.take(n)).0[t] == Some(p),
    decreases n - i,
{
    if n > i + 1 {
        lemma_lane_kept(commits, i, n - 1, t, p);
        let m = n - 1;
        lemma_node_of_row(commits, m);
        law_lay_out_rows(commits);
        assert(row_ok(
            commits[m - 1].1,
            lay_out_spec(commits.take(m)).0,
            lay_out_spec(commits).1[m - 1],
        ));
        assert(commits.take(m - 1 + 1) =~= commits.take(m));
        lemma_weight_prefix(commits, m);
        lemma_weight_prefix(commits, n);
        law_lay_out_rows(commits.take(m));
        assert(commits.take(n).drop_last() =~= commits.take(m));
        assert(commits.take(n).last() == commits[m]);
        lemma_row_keeps(lay_out_spec(commits.take(m)).0, commits[m].0, commits[m].1, t, p);
    }
}

/// Every commit is drawn in the lane its child's edge points at: where the
/// shas are distinct and every parent comes after its child, the edge from
/// row `i` to its `k`-th parent ends in the lane of the row that draws that
/// parent.
pub proof fn law_edges_land(commits: Seq<(Seq<char>, Seq<Seq<char>>)>)
    requires
        weight(commits) < usize::MAX,
        forall|a: int, b: int|
            0 <= a < b < commits.len() ==> (#[trigger] commits[a]).0 != (#[trigger] commits[b]).0,
        forall|i: int, k: int, j: int|
            0 <= i < commits.len() && 0 <= k < commits[i].1.len() && 0 <= j < commits.len()
                && #[trigger] commits[i].1[k] == #[trigger] commits[j].0 ==> i < j,
    ensures
        forall|i: int, k: int, j: int|
            0 <= i < commits.len() && 0 <= k < commits[i].1.len() && 0 <= j < commits.len()
                && #[trigger] commits[i].1[k] == #[trigger] commits[j].0 ==> (
            lay_out_spec(commits).1[i].edges[k].1 == lay_out_spec(commits).1[j].lane),
{
    law_lay_out_rows(commits);
    assert forall|i: int, k: int, j: int|
        0 <= i < commits.len() && 0 <= k < commits[i].1.len() && 0 <= j < commits.len()
            && #[trigger] commits[i].1[k] == #[trigger] commits[j].0 implies (
        lay_out_spec(commits).1[i].edges[k].1 == lay_out_spec(commits).1[j].lane) by {
        let p = commits[j].0;
        let node = lay_out_spec(commits).1[i];
        assert(row_ok(commits[i].1, lay_out_spec(commits.take(i + 1)).0, node));
        assert(node.edges[k].1 < lay_out_spec(commits.take(i + 1)).0.len());
        let t = node.edges[k].1 as int;
        assert forall|m: int| i < m < j implies (#[trigger] commits[m]).0 != p by {
            assert(commits[m].0 != commits[j].0);
        }
        lemma_lane_kept(commits, i, j, t, p);
        let lanes = lay_out_spec(commits.take(j)).0;
        lemma_node_of_row(commits, j);
        lemma_weight_prefix(commits, j);
        law_lay_out_rows(commits.take(j));
        lemma_find_lane(lanes, p, 0);
        if let Some(f) = find_lane_from(lanes, p, 0) {
            if f != t {
                assert(lanes[f] == lanes[t]);
            }
        }
    }
}

/// Every lane left after placing parents waits for a sha it waited for
/// before, or for one of the parents.
proof fn lemma_place_sources(l: Lanes, lane: int, ps: Seq<Seq<char>>)
    requires
        distinct(l),
        0 <= lane < l.len(),
        l[lane] is None,
        l.len() + ps.len() <= usize::MAX,
    ensures
        forall|s: int|
            0 <= s < place_parents(l, lane, ps).0.len() && (#[trigger] place_parents(
                l,
                lane,
                ps,
            ).0[s]) is Some ==> (s < l.len() && place_parents(l, lane, ps).0[s] == l[s]) || exists|
                k: int,
            |
                0 <= k < ps.len() && place_parents(l, lane, ps).0[s] == Some(#[trigger] ps[k]),
    decreases ps.len(),
{
    if ps.len() > 0 {
        let pre = ps.drop_last();
        lemma_place_sources(l, lane, pre);
        lemma_place_parents(l, lane, pre);
        let (l1, e1) = place_parents(l, lane, pre);
        let n = ps.len() - 1;
        let p = ps.last();
        let l2 = place_parent(l1, lane, n, p).0;
        lemma_find_lane(l1, p, 0);
        lemma_free_lane(l1, 0);
        if n == 0 {
            assert(l1 == l);
        }
        assert forall|s: int| 0 <= s < l2.len() && (#[trigger] l2[s]) is Some implies (s < l.len()
            && l2[s] == l[s]) || exists|k: int| 0 <= k < ps.len() && l2[s] == Some(#[trigger] ps[k]) by {
            if l2[s] == Some(p) {
                assert(ps[n] == p);
            } else {
                assert(s < l1.len() && l2[s] == l1[s]);
                if !(s < l.len() && l1[s] == l[s]) {
                    let k = choose|k: int| 0 <= k < pre.len() && l1[s] == Some(#[trigger] pre[k]);
                    assert(ps[k] == pre[k]);
                }
            }
        }
    }
}

/// Every lane a row leaves busy waits for a sha some lane waited for
/// before, other than the row's own, or for one of the row's parents.
proof fn lemma_row_sources(lanes: Lanes, sha: Seq<char>, parents: Seq<Seq<char>>)
    requires
        distinct(lanes),
        lanes.len() + 1 + parents.len() <= usize::MAX,
    ensures
        forall|s: int|
            0 <= s < row(lanes, sha, parents).0.len() && (#[trigger] row(lanes, sha, parents).0[s]) is Some
                ==> (row(lanes, sha, parents).0[s] != Some(sha) && exists|u: int|
                0 <= u < lanes.len() && #[trigger] lanes[u] == row(lanes, sha, parents).0[s]) || exists|
                k: int,
            |
                0 <= k < parents.len() && row(lanes, sha, parents).0[s] == Some(#[trigger] parents[k]),
{
    lemma_find_lane(lanes, sha, 0);
    lemma_free_lane(lanes, 0);
    let (l1, lane) = pick_lane(lanes, sha);
    assert(distinct(l1)) by {
        assert forall|i: int, j: int|
            0 <= i < l1.len() && 0 <= j < l1.len() && i != j && (#[trigger] l1[i]) is Some implies l1[i]
                != #[trigger] l1[j] by {
            if i < lanes.len() && j < lanes.len() {
                assert(lanes[i] != lanes[j]);
            }
        }
    }
    let l2 = collapse_lanes(l1, sha, lane);
    assert(l2 =~= l1);
    let l3 = l2.update(lane, None);
    assert(distinct(l3)) by {
        assert forall|i: int, j: int|
            0 <= i < l3.len() && 0 <= j < l3.len() && i != j && (#[trigger] l3[i]) is Some implies l3[i]
                != #[trigger] l3[j] by {
            assert(l1[i] != l1[j]);
        }
    }
    lemma_place_sources(l3, lane, parents);
    lemma_place_parents(l3, lane, parents);
    let l4 = place_parents(l3, lane, parents).0;
    lemma_trim(l4);
    let after = row(lanes, sha, parents).0;
    assert forall|s: int| 0 <= s < after.len() && (#[trigger] after[s]) is Some implies (after[s]
        != Some(sha) && exists|u: int| 0 <= u < lanes.len() && #[trigger] lanes[u] == after[s]) || exists|
        k: int,
    | 0 <= k < parents.len() && after[s] == Some(#[trigger] parents[k]) by {
        assert(after[s] == l4[s]);
        if s < l3.len() && l4[s] == l3[s] {
            assert(s != lane);
            assert(l1[s] is Some);
            assert(s < lanes.len());
            assert(lanes[s] == after[s]);
            if after[s] == Some(sha) {
                assert(l1[s] == Some(sha) && l1[lane] == Some(sha));
            }
        }
    }
}

/// Every parent a commit names is a later entry of the list.
pub open spec fn parents_later(commits: Seq<(Seq<char>, Seq<Seq<char>>)>) -> bool {
    forall|i: int, k: int|
        #![trigger commits[i].1[k]]
        0 <= i < commits.len() && 0 <= k < commits[i].1.len() ==> exists|j: int|
            #![trigger commits[j]]
            i < j < commits.len() && commits[j].0 == commits[i].1[k]
}

/// Whether `q` is a parent named by one of the first `n` rows and drawn by
/// none of them.
spec fn pending(commits: Seq<(Seq<char>, Seq<Seq<char>>)>, n: int, q: Seq<char>) -> bool {
    &&& exists|i: int, k: int|
        0 <= i < n && 0 <= k < commits[i].1.len() && #[trigger] commits[i].1[k] == q
    &&& forall|m: int| 0 <= m < n ==> (#[trigger] commits[m]).0 != q
}

/// Where the shas are distinct and every parent is a later entry, each
/// lane left after the first `n` rows waits for a parent that they named
/// and did not draw.
proof fn lemma_lanes_pending(commits: Seq<(Seq<char>, Seq<Seq<char>>)>, n: int)
    requires
        weight(commits) < usize::MAX,
        0 <= n <= commits.len(),
        forall|a: int, b: int|
            0 <= a < b < commits.len() ==> (#[trigger] commits[a]).0 != (#[trigger] commits[b]).0,
        parents_later(commits),
    ensures
        forall|s: int|
            0 <= s < lay_out_spec(commits.take(n)).0.len() && (#[trigger] lay_out_spec(
                commits.take(n),
            ).0[s]) is Some ==> pending(commits, n, lay_out_spec(commits.take(n)).0[s]->0),
    decreases n,
{
    if n > 0 {
        let m = n - 1;
        lemma_lanes_pending(commits, m);
        lemma_node_of_row(commits, m);
        lemma_weight_prefix(commits, m);
        lemma_weight_prefix(commits, n);
        law_lay_out_rows(commits.take(m));
        assert(commits.take(n).drop_last() =~= commits.take(m));
        assert(commits.take(n).last() == commits[m]);
        let lanes = lay_out_spec(commits.take(m)).0;
        let (sha, ps) = commits[m];
        lemma_row_sources(lanes, sha, ps);
        let after = lay_out_spec(commits.take(n)).0;
        assert forall|s: int| 0 <= s < after.len() && (#[trigger] after[s]) is Some implies pending(
            commits,
            n,
            after[s]->0,
        ) by {
            let q = after[s]->0;
            if exists|k: int| 0 <= k < ps.len() && after[s] == Some(#[trigger] ps[k]) {
                let k = choose|k: int| 0 <= k < ps.len() && after[s] == Some(#[trigger] ps[k]);
                assert(commits[m].1[k] == q);
                let j = choose|j: int| m < j < commits.len() && (#[trigger] commits[j]).0 == commits[m].1[k];
                assert forall|t: int| 0 <= t < n implies (#[trigger] commits[t]).0 != q by {
                    assert(commits[t].0 != commits[j].0);
                }
            } else {
                let u = choose|u: int| 0 <= u < lanes.len() && #[trigger] lanes[u] == after[s];
                assert(pending(commits, m, lanes[u]->0));
                let (i, k) = choose|i: int, k: int|
                    0 <= i < m && 0 <= k < commits[i].1.len() && #[trigger] commits[i].1[k] == q;
                assert(commits[i].1[k] == q);
            }
        }
    }
}

/// Every lane is closed by the root: where the shas are distinct and every
/// parent is a later entry of the list, the last row has nothing passing
/// through it and draws no edges.
pub proof fn law_lanes_close_at_root(commits: Seq<(Seq<char>, Seq<Seq<char>>)>)
    requires
        commits.len() > 0,
        weight(commits) < usize::MAX,
        forall|a: int, b: int|
            0 <= a < b < commits.len() ==> (#[trigger] commits[a]).0 != (#[trigger] commits[b]).0,
        parents_later(commits),
    ensures
        lay_out_spec(commits).1.last().through.len() == 0,
        lay_out_spec(commits).1.last().edges.len() == 0,
{
    let n = commits.len() - 1;
    lemma_lanes_pending(commits, n);
    lemma_node_of_row(commits, n);
    lemma_weight_prefix(commits, n);
    law_lay_out_rows(commits.take(n));
    let lanes = lay_out_spec(commits.take(n)).0;
    let (sha, ps) = commits[n];
    assert(lay_out_spec(commits).1.last() == row(lanes, sha, ps).1);
    if ps.len() > 0 {
        let j = choose|j: int| n < j < commits.len() && (#[trigger] commits[j]).0 == commits[n].1[0];
    }
    // Each busy lane waits for the last sha.
    assert forall|s: int| 0 <= s < lanes.len() && (#[trigger] lanes[s]) is Some implies lanes[s] == Some(sha) by {
        let q = lanes[s]->0;
        assert(pending(commits, n, q));
        let (i, k) = choose|i: int, k: int|
            0 <= i < n && 0 <= k < commits[i].1.len() && #[trigger] commits[i].1[k] == q;
        let j = choose|j: int| i < j < commits.len() && (#[trigger] commits[j]).0 == commits[i].1[k];
        if j < n {
            assert(commits[j].0 != q);
        }
    }
    lemma_find_lane(lanes, sha, 0);
    lemma_free_lane(lanes, 0);
    let (l1, lane) = pick_lane(lanes, sha);
    assert(forall|t: int| 0 <= t < l1.len() && t != lane ==> l1[t] != Some(sha));
    lemma_no_collapse(l1, sha, lane, l1.len() as int);
    let l2 = collapse_lanes(l1, sha, lane);
    assert(l2 =~= l1);
    lemma_through(l2, lane, l2.len() as int);
    let th = through_lanes(l2, lane, l2.len() as int);
    if th.len() > 0 {
        let t = th[0] as int;
        assert(l2[t] is Some && t != lane);
        assert(t < lanes.len());
        assert(lanes[t] == Some(sha));
    }
}

} // verus!
