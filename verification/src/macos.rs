//! The text that `lsof` and `pgrep` print: pids by port, by name, and the
//! children of a process, gathered into a tree.
use vstd::prelude::*;
use crate::pids::first_of;
use crate::text::{decode_utf8_lossy, lines_of, parse_u32, parse_u32_spec, split_lines, trim, trim_spec, utf8_lossy_of, views};
use crate::tree::{kill_order, parent_before, parents_first, Edge, KillPlan};

verus! {

/// The pids that `f` reads from the lines from the `i`-th on, in line order.
pub open spec fn line_pids(lines: Seq<Seq<char>>, f: spec_fn(Seq<char>) -> Option<u32>, i: nat) -> Seq<u32>
    decreases lines.len() - i,
{
    if i >= lines.len() {
        seq![]
    } else {
        let rest = line_pids(lines, f, i + 1);
        match f(lines[i as int]) {
            Some(p) => seq![p] + rest,
            None => rest,
        }
    }
}

/// A line of `lsof -F p` output that names a process: `p` and the pid.
pub open spec fn lsof_line_pid(line: Seq<char>) -> Option<u32> {
    if line.len() > 0 && line[0] == 'p' {
        parse_u32_spec(trim_spec(line.drop_first()))
    } else {
        None
    }
}

/// A line of `pgrep` output: a pid, perhaps with white space around it.
pub open spec fn pgrep_line_pid(line: Seq<char>) -> Option<u32> {
    parse_u32_spec(trim_spec(line))
}

pub open spec fn lsof_pids(text: Seq<char>) -> Seq<u32> {
    line_pids(lines_of(text), |l: Seq<char>| lsof_line_pid(l), 0)
}

pub open spec fn pgrep_pids(text: Seq<char>) -> Seq<u32> {
    line_pids(lines_of(text), |l: Seq<char>| pgrep_line_pid(l), 0)
}

/// The pids that `lsof -F p` printed, in the order printed.
pub fn pids_from_lsof(text: &Vec<char>) -> (r: Vec<u32>)
    ensures
        r@ == lsof_pids(text@),
{
    let lines = split_lines(text);
    let ghost ls = views(lines@);
    let ghost f = |l: Seq<char>| lsof_line_pid(l);
    let mut result: Vec<u32> = Vec::new();
    let mut i: usize = 0;
    while i < lines.len()
        invariant
            i <= lines.len(),
            ls == views(lines@),
            ls == lines_of(text@),
            f == (|l: Seq<char>| lsof_line_pid(l)),
            line_pids(ls, f, 0) == result@ + line_pids(ls, f, i as nat),
        decreases lines.len() - i,
    {
        let line = &lines[i];
        assert(ls[i as int] == line@);
        let ghost rest = line_pids(ls, f, (i + 1) as nat);
        if line.len() > 0 && line[0] == 'p' {
            let mut body: Vec<char> = Vec::new();
            let mut k: usize = 1;
            while k < line.len()
                invariant
                    1 <= k <= line.len(),
                    body@ =~= line@.subrange(1, k as int),
                decreases line.len() - k,
            {
                body.push(line[k]);
                k = k + 1;
            }
            assert(body@ =~= line@.drop_first());
            if let Some(pid) = parse_u32(&trim(&body)) {
                result.push(pid);
                assert(line_pids(ls, f, 0) =~= result@ + rest);
            }
        }
        i = i + 1;
    }
    result
}

/// The pids that `pgrep` printed, in the order printed.
pub fn pids_from_pgrep(text: &Vec<char>) -> (r: Vec<u32>)
    ensures
        r@ == pgrep_pids(text@),
{
    let lines = split_lines(text);
    let ghost ls = views(lines@);
    let ghost f = |l: Seq<char>| pgrep_line_pid(l);
    let mut result: Vec<u32> = Vec::new();
    let mut i: usize = 0;
    while i < lines.len()
        invariant
            i <= lines.len(),
            ls == views(lines@),
            ls == lines_of(text@),
            f == (|l: Seq<char>| pgrep_line_pid(l)),
            line_pids(ls, f, 0) == result@ + line_pids(ls, f, i as nat),
        decreases lines.len() - i,
    {
        assert(ls[i as int] == lines@[i as int]@);
        let ghost rest = line_pids(ls, f, (i + 1) as nat);
        if let Some(pid) = parse_u32(&trim(&lines[i])) {
            result.push(pid);
            assert(line_pids(ls, f, 0) =~= result@ + rest);
        }
        i = i + 1;
    }
    result
}

/// The processes that `lsof` reported listening on a port, from the bytes
/// it printed.
pub fn find_pid_by_port_all(lsof_output: &Vec<u8>) -> (r: Vec<u32>)
    ensures
        r@ == lsof_pids(utf8_lossy_of(lsof_output@)),
        vstd::utf8::valid_utf8(lsof_output@) ==> r@ == lsof_pids(vstd::utf8::decode_utf8(lsof_output@)),
{
    pids_from_lsof(&decode_utf8_lossy(lsof_output))
}

/// The first process that `lsof` reported listening on a port.
pub fn find_pid_by_port(lsof_output: &Vec<u8>) -> (r: Option<u32>)
    ensures
        r == first_of(lsof_pids(utf8_lossy_of(lsof_output@))),
        vstd::utf8::valid_utf8(lsof_output@) ==> r == first_of(lsof_pids(vstd::utf8::decode_utf8(lsof_output@))),
{
    let all = find_pid_by_port_all(lsof_output);
    if all.len() > 0 {
        Some(all[0])
    } else {
        None
    }
}

/// The two port lookups agree: `find_pid_by_port` gives the first pid of
/// `find_pid_by_port_all`, and nothing exactly when that is empty, which is
/// when the port is available.
pub proof fn law_port_lookups_agree(lsof_output: Seq<u8>)
    ensures
        first_of(lsof_pids(utf8_lossy_of(lsof_output))) is None <==> lsof_pids(
            utf8_lossy_of(lsof_output),
        ).len() == 0,
        first_of(lsof_pids(utf8_lossy_of(lsof_output))) matches Some(p) ==> lsof_pids(
            utf8_lossy_of(lsof_output),
        )[0] == p,
{
}

/// Whether `lsof` reported no process on a port.
pub fn is_port_available(lsof_output: &Vec<u8>) -> (r: bool)
    ensures
        r == (lsof_pids(utf8_lossy_of(lsof_output@)).len() == 0),
{
    find_pid_by_port(lsof_output).is_none()
}

/// The processes that `pgrep` matched by name, from the bytes it printed.
pub fn find_pids_by_name(pgrep_output: &Vec<u8>) -> (r: Vec<u32>)
    ensures
        r@ == pgrep_pids(utf8_lossy_of(pgrep_output@)),
        vstd::utf8::valid_utf8(pgrep_output@) ==> r@ == pgrep_pids(vstd::utf8::decode_utf8(pgrep_output@)),
{
    pids_from_pgrep(&decode_utf8_lossy(pgrep_output))
}

/// The children of a process, from the bytes that `pgrep -P` printed.
pub fn find_children(pgrep_output: &Vec<u8>) -> (r: Vec<u32>)
    ensures
        r@ == pgrep_pids(utf8_lossy_of(pgrep_output@)),
        vstd::utf8::valid_utf8(pgrep_output@) ==> r@ == pgrep_pids(vstd::utf8::decode_utf8(pgrep_output@)),
{
    pids_from_pgrep(&decode_utf8_lossy(pgrep_output))
}

// ---------------------------------------------------------------------------
// Gathering a tree one `pgrep -P` at a time
// ---------------------------------------------------------------------------

/// A depth-first walk of a process tree whose children are asked for one
/// process at a time: `tree` holds the processes met so far, in the order
/// met (each before its children); `pending` holds those still to visit,
/// the next one last; `links` records each reported child with the process
/// it was reported for.
pub struct TreeWalk {
    pub tree: Vec<u32>,
    pub pending: Vec<u32>,
    pub links: Ghost<Seq<Edge>>,
}

/// `c` was reported as a child of a process of `tree`.
pub open spec fn reported_child(links: Seq<Edge>, tree: Seq<u32>, c: u32) -> bool {
    exists|j: int| 0 <= j < tree.len() && links.contains((c, #[trigger] tree[j]))
}

impl TreeWalk {
    /// The walk's bookkeeping: every process met after the first was
    /// reported as a child of one met before it; every pending process was
    /// reported as a child of one met (before the first visit, only the root
    /// is pending).
    pub open spec fn wf(&self) -> bool {
        &&& parents_first(self.links@, self.tree@)
        &&& self.tree@.len() == 0 ==> self.pending@.len() <= 1
        &&& self.tree@.len() > 0 ==> forall|k: int|
            0 <= k < self.pending@.len() ==> reported_child(
                self.links@,
                self.tree@,
                #[trigger] self.pending@[k],
            )
    }

    /// A walk that starts at `root`.
    pub fn new(root: u32) -> (r: TreeWalk)
        ensures
            r.wf(),
            r.tree@ == Seq::<u32>::empty(),
            r.pending@ == seq![root],
            r.links@ == Seq::<Edge>::empty(),
    {
        let mut pending: Vec<u32> = Vec::new();
        pending.push(root);
        assert(pending@ =~= seq![root]);
        TreeWalk { tree: Vec::new(), pending, links: Ghost(Seq::empty()) }
    }

    /// The next process to visit, whose children are to be asked for next:
    /// taken off `pending` and added to `tree`. `None` once nothing is pending.
    pub fn next(&mut self) -> (r: Option<u32>)
        requires
            old(self).wf(),
        ensures
            final(self).wf(),
            final(self).links@ == old(self).links@,
            old(self).pending@.len() == 0 ==> {
                &&& r is None
                &&& final(self).pending@ == old(self).pending@
                &&& final(self).tree@ == old(self).tree@
            },
            old(self).pending@.len() > 0 ==> {
                &&& r == Some(old(self).pending@.last())
                &&& final(self).pending@ == old(self).pending@.drop_last()
                &&& final(self).tree@ == old(self).tree@.push(old(self).pending@.last())
            },
    {
        let ghost t0 = self.tree@;
        let ghost p0 = self.pending@;
        let ghost links = self.links@;
        match self.pending.pop() {
            None => None,
            Some(p) => {
                self.tree.push(p);
                proof {
                    let t = self.tree@;
                    assert forall|i: int| 1 <= i < t.len() implies #[trigger] parent_before(
                        links,
                        t,
                        i,
                    ) by {
                        if i < t0.len() {
                            assert(parent_before(links, t0, i));
                            let j = choose|j: int| 0 <= j < i && links.contains((t0[i], #[trigger] t0[j]));
                            assert(t[j] == t0[j] && t[i] == t0[i]);
                        } else {
                            assert(p0[p0.len() - 1] == p);
                            assert(reported_child(links, t0, p));
                            let j = choose|j: int| 0 <= j < t0.len() && links.contains((p, #[trigger] t0[j]));
                            assert(t[j] == t0[j]);
                        }
                    }
                    assert forall|k: int| 0 <= k < self.pending@.len() implies reported_child(
                        links,
                        t,
                        #[trigger] self.pending@[k],
                    ) by {
                        assert(self.pending@[k] == p0[k]);
                        assert(t0.len() > 0);
                        let j = choose|j: int|
                            0 <= j < t0.len() && links.contains((p0[k], #[trigger] t0[j]));
                        assert(t[j] == t0[j]);
                    }
                }
                Some(p)
            },
        }
    }

    /// Takes the children reported for the process just visited (the last
    /// of `tree`): they are visited next, in the order given.
    pub fn add_children(&mut self, children: &Vec<u32>)
        requires
            old(self).wf(),
            old(self).tree@.len() > 0,
        ensures
            final(self).wf(),
            final(self).tree@ == old(self).tree@,
            final(self).pending@ == old(self).pending@ + children@.reverse(),
            final(self).links@ == old(self).links@ + children@.map_values(
                |c: u32| (c, old(self).tree@.last()),
            ),
    {
        let ghost parent = self.tree@.last();
        let ghost links0 = self.links@;
        let ghost links = links0 + children@.map_values(|c: u32| (c, parent));
        let ghost t = self.tree@;
        proof {
            self.links = Ghost(links);
            assert forall|i: int| 1 <= i < t.len() implies #[trigger] parent_before(links, t, i) by {
                assert(parent_before(links0, t, i));
                let j = choose|j: int| 0 <= j < i && links0.contains((t[i], #[trigger] t[j]));
                let m = choose|m: int| 0 <= m < links0.len() && links0[m] == (t[i], t[j]);
                assert(links[m] == links0[m]);
            }
        }
        let mut j: usize = children.len();
        let ghost start = self.pending@;
        while j > 0
            invariant
                j <= children.len(),
                self.tree@ == t,
                t.len() > 0,
                parent == t.last(),
                self.links@ == links,
                links == links0 + children@.map_values(|c: u32| (c, parent)),
                parents_first(links, t),
                start == old(self).pending@,
                forall|k: int| 0 <= k < start.len() ==> reported_child(links0, t, #[trigger] start[k]),
                self.pending@ =~= start + children@.skip(j as int).reverse(),
            decreases j,
        {
            self.pending.push(children[j - 1]);
            assert(children@.skip(j - 1).reverse() =~= children@.skip(j as int).reverse().push(
                children@[j - 1],
            ));
            j = j - 1;
        }
        assert(children@.skip(0) =~= children@);
        proof {
            let pend = self.pending@;
            assert forall|k: int| 0 <= k < pend.len() implies reported_child(links, t, #[trigger] pend[k]) by {
                if k < start.len() {
                    assert(pend[k] == start[k]);
                    let jj = choose|jj: int| 0 <= jj < t.len() && links0.contains((start[k], #[trigger] t[jj]));
                    let m = choose|m: int| 0 <= m < links0.len() && links0[m] == (start[k], t[jj]);
                    assert(links[m] == links0[m]);
                } else {
                    let q = k - start.len();
                    let rev = children@.reverse();
                    assert(pend[k] == rev[q]);
                    let c_idx = children@.len() - 1 - q;
                    assert(rev[q] == children@[c_idx]);
                    assert(links[links0.len() + c_idx] == (children@[c_idx], parent));
                    assert(t[t.len() - 1] == parent);
                }
            }
        }
    }

    /// Every process that the walk met after the first was reported as a
    /// child of one it met before: the tree is met parents first, so its
    /// plan signals every process before its parent (see
    /// `tree::law_parents_signalled_after`).
    pub proof fn law_walk_meets_parents_first(&self)
        requires
            self.wf(),
        ensures
            parents_first(self.links@, self.tree@),
    {
    }

    /// The signals that take down the gathered tree of `root`: the tree
    /// read backwards without `root`, then `root`.
    pub fn kill_tree(&self, root: u32) -> (r: KillPlan)
        ensures
            r.root == root,
            r.children@ == kill_order(self.tree@, root),
    {
        let mut out: Vec<u32> = Vec::new();
        let mut j: usize = self.tree.len();
        assert(self.tree@.skip(self.tree.len() as int) =~= seq![]);
        while j > 0
            invariant
                j <= self.tree.len(),
                out@ == kill_order(self.tree@.skip(j as int), root),
            decreases j,
        {
            assert(self.tree@.skip(j - 1).drop_first() =~= self.tree@.skip(j as int));
            let p = self.tree[j - 1];
            if p != root {
                out.push(p);
            }
            j = j - 1;
        }
        assert(self.tree@.skip(0) =~= self.tree@);
        KillPlan { children: out, root }
    }
}

} // verus!

verus! {

// ---------------------------------------------------------------------------
// Laws of the printed lines
// ---------------------------------------------------------------------------

proof fn lemma_digits_trim(pre: Seq<char>, d: Seq<char>, post: Seq<char>)
    requires
        forall|k: int| 0 <= k < pre.len() ==> crate::text::is_ws(#[trigger] pre[k]),
        forall|k: int| 0 <= k < post.len() ==> crate::text::is_ws(#[trigger] post[k]),
        d.len() > 0,
        crate::text::all_digits(d),
        crate::text::digits_value(d) <= u32::MAX,
    ensures
        parse_u32_spec(trim_spec(pre + d + post)) == Some(crate::text::digits_value(d) as u32),
{
    assert(crate::text::is_digit(d[0]));
    assert(crate::text::is_digit(d.last()));
    crate::text::law_trim_drops_surrounding_space(pre, d, post);
}

/// A process line of `lsof -F p` is `p` and the pid: for decimal digits `d`
/// whose value fits in 32 bits, the line `p`, `d` (with any white space
/// after it) names the process `d`; a line that does not begin with `p`
/// (the fields of an open file, such as `f`) names none.
pub proof fn law_lsof_process_line(d: Seq<char>, post: Seq<char>, other: Seq<char>)
    requires
        forall|k: int| 0 <= k < post.len() ==> crate::text::is_ws(#[trigger] post[k]),
        d.len() > 0,
        crate::text::all_digits(d),
        crate::text::digits_value(d) <= u32::MAX,
    ensures
        lsof_line_pid(seq!['p'] + d + post) == Some(crate::text::digits_value(d) as u32),
        other.len() == 0 || other[0] != 'p' ==> lsof_line_pid(other) is None,
{
    let line = seq!['p'] + d + post;
    assert(line.drop_first() =~= Seq::<char>::empty() + d + post);
    lemma_digits_trim(Seq::<char>::empty(), d, post);
}

/// A line of `pgrep` is a pid: for decimal digits `d` whose value fits in
/// 32 bits, with any white space before and after them, the line names the
/// process `d`.
pub proof fn law_pgrep_line(pre: Seq<char>, d: Seq<char>, post: Seq<char>)
    requires
        forall|k: int| 0 <= k < pre.len() ==> crate::text::is_ws(#[trigger] pre[k]),
        forall|k: int| 0 <= k < post.len() ==> crate::text::is_ws(#[trigger] post[k]),
        d.len() > 0,
        crate::text::all_digits(d),
        crate::text::digits_value(d) <= u32::MAX,
    ensures
        pgrep_line_pid(pre + d + post) == Some(crate::text::digits_value(d) as u32),
{
    lemma_digits_trim(pre, d, post);
}

} // verus!
