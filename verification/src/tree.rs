use vstd::prelude::*;

verus! {

/// An edge `(pid, parent)` of a process table: the process `pid` was started
/// by `parent`.
pub type Edge = (u32, u32);

/// The children of `p`, in the order in which their edges are listed.
pub open spec fn children_of(edges: Seq<Edge>, p: u32) -> Seq<u32>
    decreases edges.len(),
{
    if edges.len() == 0 {
        seq![]
    } else {
        let rest = children_of(edges.drop_last(), p);
        if edges.last().1 == p {
            rest.push(edges.last().0)
        } else {
            rest
        }
    }
}

/// The next generation: the children of each process of `level`, in turn.
pub open spec fn expand(edges: Seq<Edge>, level: Seq<u32>) -> Seq<u32>
    decreases level.len(),
{
    if level.len() == 0 {
        seq![]
    } else {
        expand(edges, level.drop_last()) + children_of(edges, level.last())
    }
}

/// Generation `k` below `root`, as a breadth-first walk meets it
/// (a process listed twice as a child is met twice).
pub open spec fn level(edges: Seq<Edge>, root: u32, k: nat) -> Seq<u32>
    decreases k,
{
    if k == 0 {
        seq![root]
    } else {
        expand(edges, level(edges, root, (k - 1) as nat))
    }
}

/// The first `k` generations, one after the other: the order in which a
/// breadth-first walk from `root` meets the processes.
pub open spec fn walk_upto(edges: Seq<Edge>, root: u32, k: nat) -> Seq<u32>
    decreases k,
{
    if k == 0 {
        seq![]
    } else {
        walk_upto(edges, root, (k - 1) as nat) + level(edges, root, (k - 1) as nat)
    }
}

/// The walk ends: some generation is empty. A walk that does not end
/// goes round a cycle of parent links for ever.
pub open spec fn walk_ends(edges: Seq<Edge>, root: u32) -> bool {
    exists|k: nat| #[trigger] level(edges, root, k).len() == 0
}

/// `walk` read backwards, without `root`: the processes to signal before
/// the root, deepest generation first.
pub open spec fn kill_order(walk: Seq<u32>, root: u32) -> Seq<u32>
    decreases walk.len(),
{
    if walk.len() == 0 {
        seq![]
    } else {
        let rest = kill_order(walk.drop_first(), root);
        if walk[0] != root {
            rest.push(walk[0])
        } else {
            rest
        }
    }
}

/// The processes of a tree in the order in which they are to be signalled:
/// every one of `children`, best effort, then `root`, whose outcome counts.
pub struct KillPlan {
    pub children: Vec<u32>,
    pub root: u32,
}

impl KillPlan {
    /// The processes in the order in which they are signalled: the children,
    /// then the root.
    pub fn signals(&self) -> (r: Vec<u32>)
        ensures
            r@ == self.children@.push(self.root),
    {
        let mut r: Vec<u32> = Vec::new();
        let mut i: usize = 0;
        while i < self.children.len()
            invariant
                i <= self.children.len(),
                r@ =~= self.children@.take(i as int),
            decreases self.children.len() - i,
        {
            r.push(self.children[i]);
            i = i + 1;
        }
        r.push(self.root);
        assert(r@ =~= self.children@.push(self.root));
        r
    }

    /// The answer of a tree kill, from the outcomes of the signals in the
    /// order of `signals`: the root's outcome. The children are signalled
    /// best effort; their outcomes do not count.
    pub fn answer(&self, outcomes: &Vec<bool>) -> (r: bool)
        requires
            outcomes.len() == self.children.len() + 1,
        ensures
            r == outcomes@.last(),
    {
        outcomes[self.children.len()]
    }
}

/// The plan for the walk from `root` through `edges`, bounded by as many
/// generations as there are edges, plus one.
pub open spec fn planned(edges: Seq<Edge>, root: u32, plan: KillPlan) -> bool {
    &&& plan.root == root
    &&& plan.children@ == kill_order(walk_upto(edges, root, (edges.len() + 1) as nat), root)
}

fn children_into(edges: &Vec<Edge>, p: u32, out: &mut Vec<u32>)
    ensures
        final(out)@ == old(out)@ + children_of(edges@, p),
{
    let mut j: usize = 0;
    let ghost start = out@;
    assert(edges@.take(0) =~= seq![]);
    while j < edges.len()
        invariant
            j <= edges.len(),
            out@ == start + children_of(edges@.take(j as int), p),
        decreases edges.len() - j,
    {
        let (c, q) = edges[j];
        assert(edges@.take(j + 1).drop_last() =~= edges@.take(j as int));
        if q == p {
            out.push(c);
            assert(out@ =~= start + children_of(edges@.take(j + 1), p));
        }
        j = j + 1;
    }
    assert(edges@.take(edges.len() as int) =~= edges@);
}

/// The children of the processes of `lvl`, in turn.
fn expand_exec(edges: &Vec<Edge>, lvl: &Vec<u32>) -> (r: Vec<u32>)
    ensures
        r@ == expand(edges@, lvl@),
{
    let mut out: Vec<u32> = Vec::new();
    let mut i: usize = 0;
    assert(lvl@.take(0) =~= seq![]);
    while i < lvl.len()
        invariant
            i <= lvl.len(),
            out@ == expand(edges@, lvl@.take(i as int)),
        decreases lvl.len() - i,
    {
        assert(lvl@.take(i + 1).drop_last() =~= lvl@.take(i as int));
        children_into(edges, lvl[i], &mut out);
        i = i + 1;
    }
    assert(lvl@.take(lvl.len() as int) =~= lvl@);
    out
}

proof fn lemma_expand_empty(edges: Seq<Edge>, lvl: Seq<u32>)
    requires
        lvl.len() == 0,
    ensures
        expand(edges, lvl).len() == 0,
{
}

/// Once a generation is empty, every later one is.
pub proof fn lemma_level_empty_stays(edges: Seq<Edge>, root: u32, k: nat, m: nat)
    requires
        level(edges, root, k).len() == 0,
        k <= m,
    ensures
        level(edges, root, m).len() == 0,
        walk_upto(edges, root, m) == walk_upto(edges, root, k + 1),
    decreases m - k,
{
    if m > k {
        lemma_level_empty_stays(edges, root, k, (m - 1) as nat);
        lemma_expand_empty(edges, level(edges, root, (m - 1) as nat));
        if m > k + 1 {
            assert(walk_upto(edges, root, m) =~= walk_upto(edges, root, (m - 1) as nat));
        }
    } else {
        assert(walk_upto(edges, root, k + 1) =~= walk_upto(edges, root, k));
    }
}

fn kill_order_exec(walk: &Vec<u32>, root: u32) -> (r: Vec<u32>)
    ensures
        r@ == kill_order(walk@, root),
{
    let mut out: Vec<u32> = Vec::new();
    let mut j: usize = walk.len();
    assert(walk@.skip(walk.len() as int) =~= seq![]);
    while j > 0
        invariant
            j <= walk.len(),
            out@ == kill_order(walk@.skip(j as int), root),
        decreases j,
    {
        assert(walk@.skip(j - 1).drop_first() =~= walk@.skip(j as int));
        let p = walk[j - 1];
        if p != root {
            out.push(p);
        }
        j = j - 1;
    }
    assert(walk@.skip(0) =~= walk@);
    out
}

/// Plans the signals that take down `root` and every process below it:
/// the breadth-first walk from `root`, read backwards without the root,
/// then the root. `None` when the walk is still going after as many
/// generations as there are edges (a cycle of parent links; see
/// `law_deep_walk_never_ends`).
pub fn kill_plan(root: u32, edges: &Vec<Edge>) -> (r: Option<KillPlan>)
    ensures
        r is None <==> level(edges@, root, (edges@.len() + 1) as nat).len() > 0,
        r matches Some(plan) ==> planned(edges@, root, plan),
{
    let n = edges.len();
    let mut walk: Vec<u32> = Vec::new();
    let mut lvl: Vec<u32> = Vec::new();
    lvl.push(root);
    let mut k: usize = 0;
    assert(lvl@ =~= level(edges@, root, 0));
    assert(walk@ =~= walk_upto(edges@, root, 0));
    loop
        invariant
            k <= n,
            n == edges.len(),
            lvl@ == level(edges@, root, k as nat),
            walk@ == walk_upto(edges@, root, k as nat),
        decreases n - k,
    {
        if lvl.len() == 0 {
            proof {
                lemma_level_empty_stays(edges@, root, k as nat, (n + 1) as nat);
                lemma_level_empty_stays(edges@, root, k as nat, k as nat);
            }
            let children = kill_order_exec(&walk, root);
            return Some(KillPlan { children, root });
        }
        let mut i: usize = 0;
        let ghost w0 = walk@;
        while i < lvl.len()
            invariant
                i <= lvl.len(),
                walk@ == w0 + lvl@.take(i as int),
            decreases lvl.len() - i,
        {
            walk.push(lvl[i]);
            assert(walk@ =~= w0 + lvl@.take(i + 1));
            i = i + 1;
        }
        assert(lvl@.take(lvl.len() as int) =~= lvl@);
        let next = expand_exec(edges, &lvl);
        lvl = next;
        if k == n {
            if lvl.len() > 0 {
                return None;
            }
            assert(walk@ =~= walk_upto(edges@, root, (n + 1) as nat));
            let children = kill_order_exec(&walk, root);
            return Some(KillPlan { children, root });
        }
        k = k + 1;
    }
}

} // verus!

verus! {

// ---------------------------------------------------------------------------
// Facts about generations
// ---------------------------------------------------------------------------

proof fn lemma_children_are_edges(edges: Seq<Edge>, p: u32, m: int)
    requires
        0 <= m < children_of(edges, p).len(),
    ensures
        edges.contains((children_of(edges, p)[m], p)),
    decreases edges.len(),
{
    let rest = children_of(edges.drop_last(), p);
    if edges.last().1 == p && m == rest.len() {
        assert(edges[edges.len() - 1] == (children_of(edges, p)[m], p));
    } else {
        lemma_children_are_edges(edges.drop_last(), p, m);
        let k = choose|k: int| 0 <= k < edges.drop_last().len() && edges.drop_last()[k] == (rest[m], p);
        assert(edges[k] == (rest[m], p));
    }
}

proof fn lemma_edges_are_children(edges: Seq<Edge>, c: u32, p: u32)
    requires
        edges.contains((c, p)),
    ensures
        children_of(edges, p).contains(c),
    decreases edges.len(),
{
    let k = choose|k: int| 0 <= k < edges.len() && edges[k] == (c, p);
    let rest = children_of(edges.drop_last(), p);
    if k == edges.len() - 1 {
        assert(children_of(edges, p).last() == c);
    } else {
        assert(edges.drop_last()[k] == (c, p));
        lemma_edges_are_children(edges.drop_last(), c, p);
        let m = choose|m: int| 0 <= m < rest.len() && rest[m] == c;
        assert(children_of(edges, p)[m] == c);
    }
}

/// Each process of the next generation is a child of one of `lvl`.
proof fn lemma_expand_parent(edges: Seq<Edge>, lvl: Seq<u32>, m: int)
    requires
        0 <= m < expand(edges, lvl).len(),
    ensures
        exists|t: int| 0 <= t < lvl.len() && edges.contains((expand(edges, lvl)[m], lvl[t])),
    decreases lvl.len(),
{
    let front = expand(edges, lvl.drop_last());
    let back = children_of(edges, lvl.last());
    if m < front.len() {
        lemma_expand_parent(edges, lvl.drop_last(), m);
        let t = choose|t: int|
            0 <= t < lvl.drop_last().len() && edges.contains((front[m], lvl.drop_last()[t]));
        assert(lvl[t] == lvl.drop_last()[t]);
    } else {
        lemma_children_are_edges(edges, lvl.last(), m - front.len());
        assert(edges.contains((expand(edges, lvl)[m], lvl[lvl.len() - 1])));
    }
}

/// The next generation holds every child of every process of `lvl`.
proof fn lemma_expand_child(edges: Seq<Edge>, lvl: Seq<u32>, t: int, c: u32)
    requires
        0 <= t < lvl.len(),
        edges.contains((c, lvl[t])),
    ensures
        expand(edges, lvl).contains(c),
    decreases lvl.len(),
{
    let front = expand(edges, lvl.drop_last());
    let back = children_of(edges, lvl.last());
    if t == lvl.len() - 1 {
        lemma_edges_are_children(edges, c, lvl.last());
        let m = choose|m: int| 0 <= m < back.len() && back[m] == c;
        assert(expand(edges, lvl)[front.len() + m] == c);
    } else {
        assert(lvl.drop_last()[t] == lvl[t]);
        lemma_expand_child(edges, lvl.drop_last(), t, c);
        let m = choose|m: int| 0 <= m < front.len() && front[m] == c;
        assert(expand(edges, lvl)[m] == c);
    }
}

/// A child of a process of generation `k` belongs to generation `k + 1`.
proof fn lemma_child_in_next_level(edges: Seq<Edge>, root: u32, k: nat, p: u32, c: u32)
    requires
        level(edges, root, k).contains(p),
        edges.contains((c, p)),
    ensures
        level(edges, root, k + 1).contains(c),
{
    let lvl = level(edges, root, k);
    let t = choose|t: int| 0 <= t < lvl.len() && lvl[t] == p;
    lemma_expand_child(edges, lvl, t, c);
}

/// The walk of the first `k` generations holds exactly their processes.
pub proof fn lemma_walk_members(edges: Seq<Edge>, root: u32, k: nat, x: u32)
    ensures
        walk_upto(edges, root, k).contains(x) <==> exists|g: nat|
            g < k && #[trigger] level(edges, root, g).contains(x),
    decreases k,
{
    if k > 0 {
        let km = (k - 1) as nat;
        let wp = walk_upto(edges, root, km);
        let l = level(edges, root, km);
        lemma_walk_members(edges, root, km, x);
        let w = walk_upto(edges, root, k);
        assert(w == wp + l);
        if w.contains(x) {
            let i = choose|i: int| 0 <= i < w.len() && w[i] == x;
            if i < wp.len() {
                assert(wp[i] == x);
            } else {
                assert(l[i - wp.len()] == x);
                assert(level(edges, root, km).contains(x));
            }
        }
        if exists|g: nat| g < k && #[trigger] level(edges, root, g).contains(x) {
            let g = choose|g: nat| g < k && #[trigger] level(edges, root, g).contains(x);
            if g < km {
                let i = choose|i: int| 0 <= i < wp.len() && wp[i] == x;
                assert(w[i] == x);
            } else {
                let i = choose|i: int| 0 <= i < l.len() && l[i] == x;
                assert(w[wp.len() + i] == x);
            }
        }
    }
}

// ---------------------------------------------------------------------------
// Laws of the walk
// ---------------------------------------------------------------------------

/// Every process that the walk meets after the root is a child of one that
/// it met before.
pub proof fn law_walk_meets_parents_first(edges: Seq<Edge>, root: u32, k: nat, i: int)
    requires
        1 <= i < walk_upto(edges, root, k).len(),
    ensures
        walk_upto(edges, root, k)[0] == root,
        exists|j: int|
            0 <= j < i && edges.contains(
                (walk_upto(edges, root, k)[i], #[trigger] walk_upto(edges, root, k)[j]),
            ),
    decreases k,
{
    let w = walk_upto(edges, root, k);
    let km = (k - 1) as nat;
    let wp = walk_upto(edges, root, km);
    let l = level(edges, root, km);
    assert(w == wp + l);
    if km == 0 {
        assert(wp.len() == 0);
        assert(false);
    }
    let kmm = (km - 1) as nat;
    let wpp = walk_upto(edges, root, kmm);
    let p = level(edges, root, kmm);
    assert(wp == wpp + p);
    if kmm == 0 {
        assert(wpp.len() == 0);
        assert(w[0] == root);
    } else {
        law_walk_meets_parents_first(edges, root, km, 1);
        assert(w[0] == wp[0]);
    }
    if i < wp.len() {
        law_walk_meets_parents_first(edges, root, km, i);
        let j = choose|j: int| 0 <= j < i && edges.contains((wp[i], #[trigger] wp[j]));
        assert(w[i] == wp[i] && w[j] == wp[j]);
    } else {
        let m = i - wp.len();
        assert(w[i] == l[m]);
        lemma_expand_parent(edges, p, m);
        let t = choose|t: int| 0 <= t < p.len() && edges.contains((l[m], p[t]));
        let j = wpp.len() + t;
        assert(w[j] == wp[j]);
        assert(wp[j] == p[t]);
    }
}

/// Once a generation is empty, the walk before it has met every child of
/// every process it met.
pub proof fn law_finished_walk_is_complete(edges: Seq<Edge>, root: u32, k: nat, x: u32, c: u32)
    requires
        level(edges, root, k).len() == 0,
        walk_upto(edges, root, k).contains(x),
        edges.contains((c, x)),
    ensures
        walk_upto(edges, root, k).contains(c),
{
    lemma_walk_members(edges, root, k, x);
    let g = choose|g: nat| g < k && #[trigger] level(edges, root, g).contains(x);
    lemma_child_in_next_level(edges, root, g, x, c);
    if g + 1 == k {
        assert(level(edges, root, k).contains(c));
        assert(false);
    }
    lemma_walk_members(edges, root, k, c);
    assert(level(edges, root, (g + 1) as nat).contains(c));
}

} // verus!

verus! {

// ---------------------------------------------------------------------------
// A walk deeper than the number of edges never ends
// ---------------------------------------------------------------------------

/// A chain of parent links from a process `x` of generation `k` back to
/// the root: the processes `xs` (one per generation) and the positions `es`
/// of the edges that join them.
proof fn lemma_chain(edges: Seq<Edge>, root: u32, k: nat, x: u32) -> (r: (Seq<int>, Seq<u32>))
    requires
        level(edges, root, k).contains(x),
    ensures
        r.1.len() == k + 1,
        r.0.len() == k,
        r.1[0] == root,
        r.1[k as int] == x,
        forall|g: int| 0 <= g <= k ==> level(edges, root, g as nat).contains(#[trigger] r.1[g]),
        forall|g: int|
            0 <= g < k ==> 0 <= #[trigger] r.0[g] < edges.len() && edges[r.0[g]] == (
                r.1[g + 1],
                r.1[g],
            ),
    decreases k,
{
    if k == 0 {
        let l = level(edges, root, 0);
        let i = choose|i: int| 0 <= i < l.len() && l[i] == x;
        assert(x == root);
        let xs = seq![root];
        assert(level(edges, root, 0).contains(xs[0]));
        (Seq::<int>::empty(), xs)
    } else {
        let km = (k - 1) as nat;
        let lvl = level(edges, root, km);
        let nxt = expand(edges, lvl);
        let m = choose|m: int| 0 <= m < nxt.len() && nxt[m] == x;
        lemma_expand_parent(edges, lvl, m);
        let t = choose|t: int| 0 <= t < lvl.len() && edges.contains((nxt[m], lvl[t]));
        let p = lvl[t];
        let e = choose|e: int| 0 <= e < edges.len() && edges[e] == (x, p);
        assert(lvl.contains(p));
        let (es, xs) = lemma_chain(edges, root, km, p);
        let es2 = es.push(e);
        let xs2 = xs.push(x);
        assert forall|g: int| 0 <= g <= k implies level(edges, root, g as nat).contains(
            #[trigger] xs2[g],
        ) by {
            if g < k {
                assert(xs2[g] == xs[g]);
            }
        }
        assert forall|g: int| 0 <= g < k implies 0 <= #[trigger] es2[g] < edges.len() && edges[es2[g]]
            == (xs2[g + 1], xs2[g]) by {
            if g < km {
                assert(es2[g] == es[g]);
                assert(xs2[g + 1] == xs[g + 1]);
                assert(xs2[g] == xs[g]);
            } else {
                assert(xs2[g] == xs[g]);
            }
        }
        (es2, xs2)
    }
}

/// Among more than `n` positions of edges below `n`, one repeats.
proof fn lemma_repeated_edge(es: Seq<int>, n: nat) -> (r: (int, int))
    requires
        es.len() > n,
        forall|i: int| 0 <= i < es.len() ==> 0 <= #[trigger] es[i] < n,
    ensures
        0 <= r.0 < r.1 < es.len(),
        es[r.0] == es[r.1],
{
    if es.no_duplicates() {
        es.unique_seq_to_set();
        vstd::set_lib::lemma_int_range(0, n as int);
        assert(es.to_set().subset_of(vstd::set_lib::set_int_range(0, n as int)));
        vstd::set_lib::lemma_len_subset(es.to_set(), vstd::set_lib::set_int_range(0, n as int));
        assert(false);
        (0, 0)
    } else {
        let (i, j) = choose|i: int, j: int|
            0 <= i < es.len() && 0 <= j < es.len() && i != j && es[i] == es[j];
        if i < j {
            (i, j)
        } else {
            (j, i)
        }
    }
}

/// Going round the cycle `xs[a] -> ... -> xs[b] == xs[a]`: every generation
/// from `a` on holds one of its processes.
proof fn lemma_round_the_cycle(
    edges: Seq<Edge>,
    root: u32,
    es: Seq<int>,
    xs: Seq<u32>,
    a: int,
    b: int,
    m: nat,
)
    requires
        0 <= a < b < es.len(),
        xs.len() == es.len() + 1,
        es[a] == es[b],
        level(edges, root, a as nat).contains(xs[a]),
        forall|g: int|
            0 <= g < es.len() ==> 0 <= #[trigger] es[g] < edges.len() && edges[es[g]] == (
                xs[g + 1],
                xs[g],
            ),
    ensures
        exists|r: int| 0 <= r < b - a && level(edges, root, (a + m) as nat).contains(#[trigger] xs[a + r]),
    decreases m,
{
    if m == 0 {
        assert(level(edges, root, (a + 0) as nat).contains(xs[a + 0]));
    } else {
        lemma_round_the_cycle(edges, root, es, xs, a, b, (m - 1) as nat);
        let r = choose|r: int|
            0 <= r < b - a && level(edges, root, (a + m - 1) as nat).contains(#[trigger] xs[a + r]);
        assert(edges.contains((xs[a + r + 1], xs[a + r]))) by {
            assert(edges[es[a + r]] == (xs[a + r + 1], xs[a + r]));
        }
        lemma_child_in_next_level(edges, root, (a + m - 1) as nat, xs[a + r], xs[a + r + 1]);
        if r + 1 < b - a {
            assert(level(edges, root, (a + m) as nat).contains(xs[a + (r + 1)]));
        } else {
            assert(edges[es[a]] == (xs[a + 1], xs[a]));
            assert(edges[es[b]] == (xs[b + 1], xs[b]));
            assert(xs[a + r + 1] == xs[a + 0]);
            assert(level(edges, root, (a + m) as nat).contains(xs[a + 0]));
        }
    }
}

/// A walk that is still going after as many generations as there are edges
/// goes round a cycle of parent links and never ends: every generation after
/// it is non-empty too.
pub proof fn law_deep_walk_never_ends(edges: Seq<Edge>, root: u32, k: nat)
    requires
        level(edges, root, (edges.len() + 1) as nat).len() > 0,
    ensures
        level(edges, root, k).len() > 0,
        !walk_ends(edges, root),
{
    assert forall|g: nat| level(edges, root, g).len() > 0 by {
        lemma_every_generation(edges, root, g);
    }
    lemma_every_generation(edges, root, k);
}

proof fn lemma_every_generation(edges: Seq<Edge>, root: u32, k: nat)
    requires
        level(edges, root, (edges.len() + 1) as nat).len() > 0,
    ensures
        level(edges, root, k).len() > 0,
{
    let n = edges.len();
    let deep = level(edges, root, (n + 1) as nat);
    let x = deep[0];
    assert(deep.contains(x));
    let (es, xs) = lemma_chain(edges, root, (n + 1) as nat, x);
    let (a, b) = lemma_repeated_edge(es, n);
    if k <= n + 1 {
        assert(level(edges, root, k).contains(xs[k as int]));
    } else {
        assert(level(edges, root, a as nat).contains(xs[a]));
        lemma_round_the_cycle(edges, root, es, xs, a, b, (k - a) as nat);
        let r = choose|r: int|
            0 <= r < b - a && level(edges, root, (a + (k - a)) as nat).contains(#[trigger] xs[a + r]);
        assert((a + (k - a)) as nat == k);
    }
}

/// The plan's answer: `None` exactly when the walk below the root never
/// ends.
pub proof fn law_no_plan_iff_endless(edges: Seq<Edge>, root: u32)
    ensures
        level(edges, root, (edges.len() + 1) as nat).len() > 0 <==> !walk_ends(edges, root),
{
    if level(edges, root, (edges.len() + 1) as nat).len() > 0 {
        law_deep_walk_never_ends(edges, root, 0);
    } else {
        assert(level(edges, root, (edges.len() + 1) as nat).len() == 0);
    }
}

} // verus!

verus! {

// ---------------------------------------------------------------------------
// The signalling order
// ---------------------------------------------------------------------------

/// How many processes other than `root` the walk holds from position `k` on.
pub open spec fn others_from(w: Seq<u32>, root: u32, k: int) -> nat
    decreases w.len() - k,
{
    if k >= w.len() || k < 0 {
        0
    } else {
        others_from(w, root, k + 1) + (if w[k] != root {
            1nat
        } else {
            0nat
        })
    }
}

/// Where the `i`-th process of the walk stands in its kill order.
pub open spec fn signal_pos(w: Seq<u32>, root: u32, i: int) -> nat {
    others_from(w, root, i + 1)
}

proof fn lemma_others_shift(w: Seq<u32>, root: u32, k: int)
    requires
        1 <= k,
        w.len() > 0,
    ensures
        others_from(w, root, k) == others_from(w.drop_first(), root, k - 1),
    decreases w.len() - k,
{
    if k < w.len() {
        lemma_others_shift(w, root, k + 1);
        assert(w.drop_first()[k - 1] == w[k]);
    }
}

proof fn lemma_others_shrink(w: Seq<u32>, root: u32, a: int, b: int)
    requires
        0 <= a <= b,
    ensures
        others_from(w, root, a) >= others_from(w, root, b),
    decreases b - a,
{
    if a < b {
        lemma_others_shrink(w, root, a + 1, b);
    }
}

proof fn lemma_kill_order_pos(w: Seq<u32>, root: u32, i: int)
    requires
        0 <= i < w.len(),
        w[i] != root,
    ensures
        kill_order(w, root).len() == others_from(w, root, 0),
        signal_pos(w, root, i) < kill_order(w, root).len(),
        kill_order(w, root)[signal_pos(w, root, i) as int] == w[i],
    decreases w.len(),
{
    let w1 = w.drop_first();
    lemma_others_shift(w, root, 1);
    if i == 0 {
        lemma_kill_order_len(w1, root);
    } else {
        lemma_kill_order_pos(w1, root, i - 1);
        lemma_others_shift(w, root, i + 1);
    }
}

proof fn lemma_kill_order_len(w: Seq<u32>, root: u32)
    ensures
        kill_order(w, root).len() == others_from(w, root, 0),
    decreases w.len(),
{
    if w.len() > 0 {
        lemma_kill_order_len(w.drop_first(), root);
        lemma_others_shift(w, root, 1);
    }
}

/// The kill order of a walk holds every process of the walk except the
/// root, and never the root.
pub proof fn law_kill_order_members(w: Seq<u32>, root: u32, x: u32)
    ensures
        kill_order(w, root).contains(x) <==> x != root && w.contains(x),
    decreases w.len(),
{
    if w.len() > 0 {
        let w1 = w.drop_first();
        law_kill_order_members(w1, root, x);
        let ko = kill_order(w, root);
        let ko1 = kill_order(w1, root);
        if ko.contains(x) {
            let m = choose|m: int| 0 <= m < ko.len() && ko[m] == x;
            if m < ko1.len() {
                assert(ko1[m] == x);
                let q = choose|q: int| 0 <= q < w1.len() && w1[q] == x;
                assert(w[q + 1] == x);
            } else {
                assert(x == w[0]);
            }
        }
        if x != root && w.contains(x) {
            let q = choose|q: int| 0 <= q < w.len() && w[q] == x;
            if q == 0 {
                assert(ko[ko.len() - 1] == x);
            } else {
                assert(w1[q - 1] == x);
                let m = choose|m: int| 0 <= m < ko1.len() && ko1[m] == x;
                assert(ko[m] == x);
            }
        }
    }
}

/// Every process of `w` after the first is a child of one that comes
/// before it in `w`.
pub open spec fn parents_first(edges: Seq<Edge>, w: Seq<u32>) -> bool {
    forall|i: int| 1 <= i < w.len() ==> #[trigger] parent_before(edges, w, i)
}

/// The `i`-th process of `w` is a child of one that comes before it.
pub open spec fn parent_before(edges: Seq<Edge>, w: Seq<u32>, i: int) -> bool {
    exists|j: int| 0 <= j < i && edges.contains((w[i], #[trigger] w[j]))
}

/// Children before parents, for any walk that meets parents first: in the
/// order of signals (the kill order, then the root), every process of the
/// walk other than the root has a parent that is signalled after it, later
/// in the kill order or as the root.
pub proof fn law_parents_signalled_after(edges: Seq<Edge>, w: Seq<u32>, root: u32, i: int)
    requires
        parents_first(edges, w),
        1 <= i < w.len(),
        w[i] != root,
    ensures
        ({
            let ko = kill_order(w, root);
            &&& signal_pos(w, root, i) < ko.len()
            &&& ko[signal_pos(w, root, i) as int] == w[i]
            &&& exists|j: int|
                0 <= j < i && edges.contains((w[i], #[trigger] w[j])) && (w[j] == root || (
                signal_pos(w, root, j) < ko.len() && ko[signal_pos(w, root, j) as int] == w[j]
                    && signal_pos(w, root, j) > signal_pos(w, root, i)))
        }),
{
    let ko = kill_order(w, root);
    lemma_kill_order_pos(w, root, i);
    assert(parent_before(edges, w, i));
    let j = choose|j: int| 0 <= j < i && edges.contains((w[i], #[trigger] w[j]));
    if w[j] != root {
        lemma_kill_order_pos(w, root, j);
        lemma_others_shrink(w, root, j + 1, i);
        assert(others_from(w, root, i) == others_from(w, root, i + 1) + 1);
    }
}

/// The breadth-first walk meets parents first, so a plan signals every
/// process before its parent.
pub proof fn law_walk_parents_first(edges: Seq<Edge>, root: u32, k: nat)
    ensures
        parents_first(edges, walk_upto(edges, root, k)),
{
    let w = walk_upto(edges, root, k);
    assert forall|i: int| 1 <= i < w.len() implies #[trigger] parent_before(edges, w, i) by {
        law_walk_meets_parents_first(edges, root, k, i);
        let j = choose|j: int|
            0 <= j < i && edges.contains((walk_upto(edges, root, k)[i], #[trigger] walk_upto(edges, root, k)[j]));
        assert(0 <= j < i && edges.contains((w[i], w[j])));
    }
}

} // verus!

verus! {

// ---------------------------------------------------------------------------
// The generations are what a first-in first-out queue meets
// ---------------------------------------------------------------------------

/// A walk with a queue: take the process at the front, record it, and queue
/// its children at the back; stop when the queue is empty (or after `fuel`
/// steps).
pub open spec fn fifo_walk(edges: Seq<Edge>, queue: Seq<u32>, fuel: nat) -> Seq<u32>
    decreases fuel,
{
    if fuel == 0 || queue.len() == 0 {
        seq![]
    } else {
        seq![queue[0]] + fifo_walk(edges, queue.drop_first() + children_of(edges, queue[0]), (fuel - 1) as nat)
    }
}

proof fn lemma_expand_concat(edges: Seq<Edge>, a: Seq<u32>, b: Seq<u32>)
    ensures
        expand(edges, a + b) == expand(edges, a) + expand(edges, b),
    decreases b.len(),
{
    if b.len() == 0 {
        assert(a + b =~= a);
        assert(expand(edges, a) + expand(edges, b) =~= expand(edges, a));
    } else {
        assert((a + b).drop_last() =~= a + b.drop_last());
        assert((a + b).last() == b.last());
        lemma_expand_concat(edges, a, b.drop_last());
        assert(expand(edges, a + b) =~= expand(edges, a) + expand(edges, b));
    }
}

proof fn lemma_fifo_split(edges: Seq<Edge>, l: Seq<u32>, r: Seq<u32>, fuel: nat)
    requires
        fuel >= l.len(),
    ensures
        fifo_walk(edges, l + r, fuel) == l + fifo_walk(edges, r + expand(edges, l), (fuel - l.len()) as nat),
    decreases l.len(),
{
    if l.len() == 0 {
        assert(l + r =~= r);
        assert(r + expand(edges, l) =~= r);
        assert(l + fifo_walk(edges, r, fuel) =~= fifo_walk(edges, r, fuel));
    } else {
        let x = l[0];
        let l1 = l.drop_first();
        let r1 = r + children_of(edges, x);
        assert((l + r)[0] == x);
        assert((l + r).drop_first() + children_of(edges, x) =~= l1 + r1);
        lemma_fifo_split(edges, l1, r1, (fuel - 1) as nat);
        lemma_expand_concat(edges, seq![x], l1);
        assert(seq![x] + l1 =~= l);
        assert(expand(edges, seq![x]) =~= children_of(edges, x)) by {
            assert(seq![x].drop_last() =~= Seq::<u32>::empty());
            assert(expand(edges, Seq::<u32>::empty()) == Seq::<u32>::empty());
            assert(seq![x].last() == x);
            assert(Seq::<u32>::empty() + children_of(edges, x) =~= children_of(edges, x));
        }
        assert(r1 + expand(edges, l1) =~= r + expand(edges, l));
        assert(seq![x] + (l1 + fifo_walk(edges, r + expand(edges, l), (fuel - l.len()) as nat))
            =~= l + fifo_walk(edges, r + expand(edges, l), (fuel - l.len()) as nat));
    }
}

proof fn lemma_walk_prefix(edges: Seq<Edge>, root: u32, g: nat, k: nat)
    requires
        g <= k,
    ensures
        walk_upto(edges, root, g).len() <= walk_upto(edges, root, k).len(),
        walk_upto(edges, root, k).take(walk_upto(edges, root, g).len() as int) == walk_upto(edges, root, g),
    decreases k - g,
{
    if g < k {
        lemma_walk_prefix(edges, root, g, (k - 1) as nat);
        let wk = walk_upto(edges, root, k);
        let wk1 = walk_upto(edges, root, (k - 1) as nat);
        assert(wk == wk1 + level(edges, root, (k - 1) as nat));
        assert(wk.take(walk_upto(edges, root, g).len() as int) =~= wk1.take(
            walk_upto(edges, root, g).len() as int,
        ));
    } else {
        assert(walk_upto(edges, root, k).take(walk_upto(edges, root, k).len() as int) =~= walk_upto(edges, root, k));
    }
}

proof fn lemma_fifo_from_level(edges: Seq<Edge>, root: u32, g: nat, k: nat, fuel: nat)
    requires
        g <= k,
        level(edges, root, k).len() == 0,
        fuel >= walk_upto(edges, root, k).len() - walk_upto(edges, root, g).len(),
    ensures
        walk_upto(edges, root, g).len() <= walk_upto(edges, root, k).len(),
        fifo_walk(edges, level(edges, root, g), fuel) == walk_upto(edges, root, k).subrange(
            walk_upto(edges, root, g).len() as int,
            walk_upto(edges, root, k).len() as int,
        ),
    decreases k - g,
{
    lemma_walk_prefix(edges, root, g, k);
    let wk = walk_upto(edges, root, k);
    let wg = walk_upto(edges, root, g);
    if g == k {
        assert(wk.subrange(wg.len() as int, wk.len() as int) =~= Seq::<u32>::empty());
    } else {
        let lg = level(edges, root, g);
        let wg1 = walk_upto(edges, root, g + 1);
        assert(wg1 == wg + lg);
        lemma_walk_prefix(edges, root, g + 1, k);
        lemma_fifo_from_level(edges, root, g + 1, k, (fuel - lg.len()) as nat);
        lemma_fifo_split(edges, lg, Seq::<u32>::empty(), fuel);
        assert(Seq::<u32>::empty() + expand(edges, lg) =~= level(edges, root, g + 1));
        assert(lg + Seq::<u32>::empty() =~= lg);
        assert(wk.subrange(wg.len() as int, wk.len() as int) =~= lg + wk.subrange(
            wg1.len() as int,
            wk.len() as int,
        )) by {
            assert(wk.take(wg1.len() as int) == wg1);
            assert forall|m: int| 0 <= m < lg.len() implies wk[wg.len() + m] == lg[m] by {
                assert(wk.take(wg1.len() as int)[wg.len() + m] == wg1[wg.len() + m]);
            }
        }
    }
}

/// The walk generation by generation is what a first-in first-out queue
/// meets: start with the root alone in the queue, take the front process,
/// record it and queue its children at the back, until the queue is empty.
pub proof fn law_walk_is_fifo(edges: Seq<Edge>, root: u32, k: nat, fuel: nat)
    requires
        level(edges, root, k).len() == 0,
        fuel >= walk_upto(edges, root, k).len(),
    ensures
        fifo_walk(edges, seq![root], fuel) == walk_upto(edges, root, k),
{
    lemma_fifo_from_level(edges, root, 0, k, fuel);
    assert(level(edges, root, 0) == seq![root]);
    assert(walk_upto(edges, root, 0).len() == 0);
    assert(walk_upto(edges, root, k).subrange(0, walk_upto(edges, root, k).len() as int)
        =~= walk_upto(edges, root, k));
}

} // verus!
