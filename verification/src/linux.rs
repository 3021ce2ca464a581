//! The kernel's text tables under `/proc`: sockets by port, processes by
//! name, and the parent links of the process tree.
use vstd::prelude::*;
use crate::pids::{first_of, same_members, sort_dedup, strictly_increasing};
use crate::text::{
    after_last, all_digits, contains, contains_spec, copy_from, hex4, hex4_spec, is_all_digits,
    lowercase_of, parse_u32, parse_u32_spec, rfind, split_lines, split_whitespace,
    text_eq, to_lowercase, trim, trim_spec, views, words_of,
    lines_of,
};
use crate::tree::{kill_plan, level, planned, Edge, KillPlan};

verus! {

/// A directory under `/proc`: its name as text (`None` where the name is
/// not valid UTF-8) and the targets of the links under its `fd` directory
/// that could be read, as text.
pub struct ProcFds {
    pub name: Option<Vec<char>>,
    pub links: Vec<Vec<char>>,
}

/// A directory under `/proc` (its name as text, `None` where the name is not
/// valid UTF-8) and the text of one file in it (`None` where it could not
/// be read).
pub struct ProcFile {
    pub name: Option<Vec<char>>,
    pub text: Option<Vec<char>>,
}

/// The texts of `/proc/net/tcp`, `tcp6`, `udp` and `udp6` (`None` where a
/// table could not be read).
pub struct NetTables {
    pub tcp: Option<Vec<char>>,
    pub tcp6: Option<Vec<char>>,
    pub udp: Option<Vec<char>>,
    pub udp6: Option<Vec<char>>,
}

// ---------------------------------------------------------------------------
// Socket inode to process
// ---------------------------------------------------------------------------

pub open spec fn socket_prefix() -> Seq<char> {
    seq!['s', 'o', 'c', 'k', 'e', 't', ':', '[']
}

/// The link text of a descriptor open on the socket `inode`:
/// `socket:[inode]`.
pub open spec fn socket_link(inode: Seq<char>) -> Seq<char> {
    socket_prefix() + inode + seq![']']
}

/// A descriptor link that names the socket `inode`.
pub open spec fn link_names_inode(link: Seq<char>, inode: Seq<char>) -> bool {
    link == socket_link(inode)
}

pub open spec fn has_inode_link(e: ProcFds, inode: Seq<char>) -> bool {
    exists|j: int| 0 <= j < e.links@.len() && link_names_inode(#[trigger] e.links@[j]@, inode)
}

/// The owner of `inode` found by reading the directories from the `i`-th on:
/// the first directory with a numeric name that holds a link to the socket
/// gives its name read as a number; directories whose name is not text, or
/// not a number, are passed over.
pub open spec fn owner_from(procs: Seq<ProcFds>, inode: Seq<char>, i: nat) -> Option<u32>
    decreases procs.len() - i,
{
    if i >= procs.len() {
        None
    } else {
        match procs[i as int].name {
            Some(n) => if all_digits(n@) && has_inode_link(procs[i as int], inode) {
                parse_u32_spec(n@)
            } else {
                owner_from(procs, inode, i + 1)
            },
            None => owner_from(procs, inode, i + 1),
        }
    }
}

pub open spec fn inode_owner(procs: Seq<ProcFds>, inode: Seq<char>) -> Option<u32> {
    owner_from(procs, inode, 0)
}

fn socket_link_exec(inode: &Vec<char>) -> (r: Vec<char>)
    ensures
        r@ == socket_link(inode@),
{
    let mut r = vec!['s', 'o', 'c', 'k', 'e', 't', ':', '['];
    assert(r@ =~= socket_prefix());
    let mut k: usize = 0;
    while k < inode.len()
        invariant
            k <= inode.len(),
            r@ =~= socket_prefix() + inode@.take(k as int),
        decreases inode.len() - k,
    {
        r.push(inode[k]);
        k = k + 1;
    }
    assert(inode@.take(inode.len() as int) =~= inode@);
    r.push(']');
    assert(r@ =~= socket_link(inode@));
    r
}

/// The process that holds the socket `inode`, looked up in `procs`.
pub fn inode_to_pid(procs: &Vec<ProcFds>, inode: &Vec<char>) -> (r: Option<u32>)
    ensures
        r == inode_owner(procs@, inode@),
{
    let target = socket_link_exec(inode);
    let mut i: usize = 0;
    while i < procs.len()
        invariant
            i <= procs.len(),
            target@ == socket_link(inode@),
            inode_owner(procs@, inode@) == owner_from(procs@, inode@, i as nat),
        decreases procs.len() - i,
    {
        let e = &procs[i];
        if let Some(n) = &e.name {
            if is_all_digits(n) {
                let mut j: usize = 0;
                while j < e.links.len()
                    invariant
                        j <= e.links.len(),
                        i < procs.len(),
                        *e == procs@[i as int],
                        e.name == Some(*n),
                        all_digits(n@),
                        inode_owner(procs@, inode@) == owner_from(procs@, inode@, i as nat),
                        target@ == socket_link(inode@),
                        forall|m: int|
                            0 <= m < j ==> !link_names_inode(#[trigger] e.links@[m]@, inode@),
                    decreases e.links.len() - j,
                {
                    if text_eq(&e.links[j], &target) {
                        assert(has_inode_link(procs@[i as int], inode@));
                        return parse_u32(n);
                    }
                    j = j + 1;
                }
            }
        }
        i = i + 1;
    }
    None
}

// ---------------------------------------------------------------------------
// Socket tables
// ---------------------------------------------------------------------------

pub open spec fn listen_state() -> Seq<char> {
    seq!['0', 'A']
}

/// A protocol name that starts with `t` is TCP.
pub open spec fn is_tcp_proto(proto: Seq<char>) -> bool {
    proto.len() > 0 && proto[0] == 't'
}

/// The socket inode of a table row that is bound to `port` (the text after
/// the last `:` of the local address is the port in four upper-case hex
/// digits) and, for TCP, in the listening state `0A`. A row needs ten
/// white-space separated columns.
pub open spec fn row_inode(line: Seq<char>, port: u16, is_tcp: bool) -> Option<Seq<char>> {
    let cols = words_of(line);
    if cols.len() >= 10 && after_last(cols[1], ':') == Some(hex4_spec(port)) && (!is_tcp
        || cols[3] == listen_state()) {
        Some(cols[9])
    } else {
        None
    }
}

/// The owners of the sockets of the rows from the `i`-th on, in row order;
/// a row whose socket has no owner in `procs` gives nothing.
pub open spec fn pids_from(
    lines: Seq<Seq<char>>,
    i: nat,
    port: u16,
    is_tcp: bool,
    procs: Seq<ProcFds>,
) -> Seq<u32>
    decreases lines.len() - i,
{
    if i >= lines.len() {
        seq![]
    } else {
        let rest = pids_from(lines, i + 1, port, is_tcp, procs);
        match row_inode(lines[i as int], port, is_tcp) {
            Some(inode) => match inode_owner(procs, inode) {
                Some(p) => seq![p] + rest,
                None => rest,
            },
            None => rest,
        }
    }
}

/// The processes behind the rows of a socket table that match `port`; the
/// first line of the table is its header.
pub open spec fn socket_pids(content: Seq<char>, port: u16, is_tcp: bool, procs: Seq<ProcFds>) -> Seq<u32> {
    pids_from(lines_of(content), 1, port, is_tcp, procs)
}

/// At most the first element of `s`.
pub open spec fn at_most_first(s: Seq<u32>) -> Seq<u32> {
    if s.len() > 0 {
        s.take(1)
    } else {
        s
    }
}

/// The socket inode of one table row (see `row_inode`).
fn row_inode_exec(
    line: &Vec<char>,
    port: u16,
    port_hex: &Vec<char>,
    zero_a: &Vec<char>,
    is_tcp: bool,
) -> (r: Option<Vec<char>>)
    requires
        port_hex@ == hex4_spec(port),
        zero_a@ == listen_state(),
    ensures
        match r {
            Some(v) => row_inode(line@, port, is_tcp) == Some(v@),
            None => row_inode(line@, port, is_tcp) is None,
        },
{
    let cols = split_whitespace(line);
    if cols.len() < 10 {
        return None;
    }
    assert(views(cols@)[1] == cols@[1]@);
    assert(views(cols@)[3] == cols@[3]@);
    assert(views(cols@)[9] == cols@[9]@);
    match rfind(&cols[1], ':') {
        None => None,
        Some(colon) => {
            let local_len = cols[1].len();
            assert(colon < local_len);
            let suffix = copy_from(&cols[1], colon + 1);
            if text_eq(&suffix, port_hex) && (!is_tcp || text_eq(&cols[3], zero_a)) {
                let mut inode: Vec<char> = Vec::new();
                let c9 = &cols[9];
                let mut k: usize = 0;
                while k < c9.len()
                    invariant
                        k <= c9.len(),
                        inode@ =~= c9@.take(k as int),
                    decreases c9.len() - k,
                {
                    inode.push(c9[k]);
                    k = k + 1;
                }
                assert(c9@.take(c9.len() as int) =~= c9@);
                Some(inode)
            } else {
                None
            }
        },
    }
}

/// Scans the socket table `content` of protocol `proto` for sockets bound
/// to `port` (TCP ones only when listening) and returns their processes in
/// row order; with `first_only`, at most the first of them.
pub fn scan_proc_net(
    proto: &Vec<char>,
    content: &Vec<char>,
    port: u16,
    first_only: bool,
    procs: &Vec<ProcFds>,
) -> (r: Vec<u32>)
    ensures
        !first_only ==> r@ == socket_pids(content@, port, is_tcp_proto(proto@), procs@),
        first_only ==> r@ == at_most_first(socket_pids(content@, port, is_tcp_proto(proto@), procs@)),
{
    let is_tcp = proto.len() > 0 && proto[0] == 't';
    let port_hex = hex4(port);
    let zero_a = vec!['0', 'A'];
    assert(zero_a@ =~= listen_state());
    let lines = split_lines(content);
    let ghost ls = views(lines@);
    let ghost all = pids_from(ls, 1, port, is_tcp, procs@);
    let mut result: Vec<u32> = Vec::new();
    let mut i: usize = 1;
    if lines.len() == 0 {
        return result;
    }
    while i < lines.len()
        invariant
            1 <= i <= lines.len(),
            ls == views(lines@),
            ls == lines_of(content@),
            port_hex@ == hex4_spec(port),
            zero_a@ == listen_state(),
            is_tcp == is_tcp_proto(proto@),
            all == pids_from(ls, 1, port, is_tcp, procs@),
            all == result@ + pids_from(ls, i as nat, port, is_tcp, procs@),
            first_only ==> result@.len() == 0,
        decreases lines.len() - i,
    {
        assert(ls[i as int] == lines@[i as int]@);
        let ghost rest = pids_from(ls, (i + 1) as nat, port, is_tcp, procs@);
        let found = match row_inode_exec(&lines[i], port, &port_hex, &zero_a, is_tcp) {
            Some(inode) => inode_to_pid(procs, &inode),
            None => None,
        };
        match found {
            Some(pid) => {
                result.push(pid);
                assert(all =~= result@ + rest);
                if first_only {
                    assert(at_most_first(all) =~= result@);
                    return result;
                }
            },
            None => {
                assert(all =~= result@ + rest);
            },
        }
        i = i + 1;
    }
    assert(all =~= result@);
    result
}

// ---------------------------------------------------------------------------
// Port lookups
// ---------------------------------------------------------------------------

pub open spec fn table_pids(t: Option<Vec<char>>, port: u16, is_tcp: bool, procs: Seq<ProcFds>) -> Seq<u32> {
    match t {
        Some(c) => socket_pids(c@, port, is_tcp, procs),
        None => seq![],
    }
}

/// The processes behind `port` in the tables TCP, TCP6, UDP, UDP6, in that
/// order, each table in row order.
pub open spec fn port_pids(tables: NetTables, port: u16, procs: Seq<ProcFds>) -> Seq<u32> {
    table_pids(tables.tcp, port, true, procs) + table_pids(tables.tcp6, port, true, procs)
        + table_pids(tables.udp, port, false, procs) + table_pids(tables.udp6, port, false, procs)
}

fn scan_table(
    t: &Option<Vec<char>>,
    is_tcp: bool,
    port: u16,
    first_only: bool,
    procs: &Vec<ProcFds>,
) -> (r: Vec<u32>)
    ensures
        !first_only ==> r@ == table_pids(*t, port, is_tcp, procs@),
        first_only ==> r@ == at_most_first(table_pids(*t, port, is_tcp, procs@)),
{
    match t {
        None => Vec::new(),
        Some(content) => {
            let proto = if is_tcp {
                vec!['t', 'c', 'p']
            } else {
                vec!['u', 'd', 'p']
            };
            scan_proc_net(&proto, content, port, first_only, procs)
        },
    }
}

/// The process listening on `port`: the first found in the tables TCP,
/// TCP6, UDP, UDP6, in that order.
pub fn find_pid_by_port(port: u16, tables: &NetTables, procs: &Vec<ProcFds>) -> (r: Option<u32>)
    ensures
        r == first_of(port_pids(*tables, port, procs@)),
{
    let ghost a = table_pids(tables.tcp, port, true, procs@);
    let ghost b = table_pids(tables.tcp6, port, true, procs@);
    let ghost c = table_pids(tables.udp, port, false, procs@);
    let ghost d = table_pids(tables.udp6, port, false, procs@);
    let mut r = scan_table(&tables.tcp, true, port, true, procs);
    if r.len() == 0 {
        r = scan_table(&tables.tcp6, true, port, true, procs);
    }
    if r.len() == 0 {
        r = scan_table(&tables.udp, false, port, true, procs);
    }
    if r.len() == 0 {
        r = scan_table(&tables.udp6, false, port, true, procs);
    }
    proof {
        let all = port_pids(*tables, port, procs@);
        assert(all == a + b + c + d);
        if a.len() > 0 {
            assert(all[0] == a[0]);
        } else if b.len() > 0 {
            assert(all[0] == b[0]);
        } else if c.len() > 0 {
            assert(all[0] == c[0]);
        } else if d.len() > 0 {
            assert(all[0] == d[0]);
        } else {
            assert(all.len() == 0);
        }
    }
    if r.len() > 0 {
        Some(r[0])
    } else {
        None
    }
}

/// Every process behind `port` in the four tables, in increasing order,
/// each once.
pub fn find_pid_by_port_all(port: u16, tables: &NetTables, procs: &Vec<ProcFds>) -> (r: Vec<u32>)
    ensures
        strictly_increasing(r@),
        same_members(r@, port_pids(*tables, port, procs@)),
{
    let mut all = scan_table(&tables.tcp, true, port, false, procs);
    let mut more = scan_table(&tables.tcp6, true, port, false, procs);
    all.append(&mut more);
    let mut more = scan_table(&tables.udp, false, port, false, procs);
    all.append(&mut more);
    let mut more = scan_table(&tables.udp6, false, port, false, procs);
    all.append(&mut more);
    sort_dedup(&all)
}

/// Some row from the `i`-th on is bound to `port` (and, for TCP, listening),
/// whoever owns it.
pub open spec fn row_from(lines: Seq<Seq<char>>, i: nat, port: u16, is_tcp: bool) -> bool
    decreases lines.len() - i,
{
    if i >= lines.len() {
        false
    } else {
        row_inode(lines[i as int], port, is_tcp) is Some || row_from(lines, i + 1, port, is_tcp)
    }
}

pub open spec fn table_has_row(t: Option<Vec<char>>, port: u16, is_tcp: bool) -> bool {
    match t {
        Some(c) => row_from(lines_of(c@), 1, port, is_tcp),
        None => false,
    }
}

/// A row of one of the four tables is bound to `port`: a TCP socket in the
/// listening state, or a UDP socket.
pub open spec fn port_in_use(tables: NetTables, port: u16) -> bool {
    ||| table_has_row(tables.tcp, port, true)
    ||| table_has_row(tables.tcp6, port, true)
    ||| table_has_row(tables.udp, port, false)
    ||| table_has_row(tables.udp6, port, false)
}

fn has_row(t: &Option<Vec<char>>, is_tcp: bool, port: u16) -> (r: bool)
    ensures
        r == table_has_row(*t, port, is_tcp),
{
    match t {
        None => false,
        Some(content) => {
            let port_hex = hex4(port);
            let zero_a = vec!['0', 'A'];
            assert(zero_a@ =~= listen_state());
            let lines = split_lines(content);
            let ghost ls = views(lines@);
            let mut i: usize = 1;
            if lines.len() == 0 {
                return false;
            }
            while i < lines.len()
                invariant
                    1 <= i <= lines.len(),
                    ls == views(lines@),
                    ls == lines_of(content@),
                    *t == Some(*content),
                    port_hex@ == hex4_spec(port),
                    zero_a@ == listen_state(),
                    row_from(ls, 1, port, is_tcp) == row_from(ls, i as nat, port, is_tcp),
                decreases lines.len() - i,
            {
                assert(ls[i as int] == lines@[i as int]@);
                if row_inode_exec(&lines[i], port, &port_hex, &zero_a, is_tcp).is_some() {
                    assert(row_inode(ls[i as int], port, is_tcp) is Some);
                    assert(row_from(ls, i as nat, port, is_tcp));
                    return true;
                }
                i = i + 1;
            }
            false
        },
    }
}

/// Whether no socket is bound to `port`: no listening TCP socket and no UDP
/// socket in the four tables, whether or not its owner can be found.
pub fn is_port_available(port: u16, tables: &NetTables) -> (r: bool)
    ensures
        r == !port_in_use(*tables, port),
{
    !(has_row(&tables.tcp, true, port) || has_row(&tables.tcp6, true, port) || has_row(
        &tables.udp,
        false,
        port,
    ) || has_row(&tables.udp6, false, port))
}

proof fn lemma_no_row_no_pids(lines: Seq<Seq<char>>, i: nat, port: u16, is_tcp: bool, procs: Seq<ProcFds>)
    requires
        !row_from(lines, i, port, is_tcp),
    ensures
        pids_from(lines, i, port, is_tcp, procs).len() == 0,
    decreases lines.len() - i,
{
    if i < lines.len() {
        lemma_no_row_no_pids(lines, i + 1, port, is_tcp, procs);
    }
}

/// A port that is available has no process behind it, whatever processes
/// there are.
pub proof fn law_free_port_has_no_owner(tables: NetTables, port: u16, procs: Seq<ProcFds>)
    requires
        !port_in_use(tables, port),
    ensures
        port_pids(tables, port, procs).len() == 0,
{
    if let Some(c) = tables.tcp {
        lemma_no_row_no_pids(lines_of(c@), 1, port, true, procs);
    }
    if let Some(c) = tables.tcp6 {
        lemma_no_row_no_pids(lines_of(c@), 1, port, true, procs);
    }
    if let Some(c) = tables.udp {
        lemma_no_row_no_pids(lines_of(c@), 1, port, false, procs);
    }
    if let Some(c) = tables.udp6 {
        lemma_no_row_no_pids(lines_of(c@), 1, port, false, procs);
    }
}

} // verus!

verus! {

// ---------------------------------------------------------------------------
// Processes by name
// ---------------------------------------------------------------------------

/// The lower-cased, trimmed text of a directory's `comm` file, where it
/// could be read.
pub open spec fn lowered_comm(e: ProcFile) -> Option<Seq<char>> {
    match e.text {
        Some(t) => Some(lowercase_of(trim_spec(t@))),
        None => None,
    }
}

/// The lowered `comm` text of each directory.
pub open spec fn lowered_comms(entries: Seq<ProcFile>) -> Seq<Option<Seq<char>>> {
    entries.map_values(|e: ProcFile| lowered_comm(e))
}

/// The views of optional character vectors.
pub open spec fn opt_views(v: Seq<Option<Vec<char>>>) -> Seq<Option<Seq<char>>> {
    v.map_values(
        |o: Option<Vec<char>>|
            match o {
                Some(x) => Some(x@),
                None => None,
            },
    )
}

/// The `i`-th lowered name, where there is one.
pub open spec fn lowered_at(lowered: Seq<Option<Seq<char>>>, i: int) -> Option<Seq<char>> {
    if 0 <= i < lowered.len() {
        lowered[i]
    } else {
        None
    }
}

/// The pids of the directories from the `i`-th on whose name is a number,
/// that have a lowered name, and whose lowered name contains `needle`; in
/// directory order.
pub open spec fn chosen_from(
    entries: Seq<ProcFile>,
    lowered: Seq<Option<Seq<char>>>,
    needle: Seq<char>,
    i: nat,
) -> Seq<u32>
    decreases entries.len() - i,
{
    if i >= entries.len() {
        seq![]
    } else {
        let rest = chosen_from(entries, lowered, needle, i + 1);
        match (entries[i as int].name, lowered_at(lowered, i as int)) {
            (Some(n), Some(l)) => if all_digits(n@) && contains_spec(l, needle) && parse_u32_spec(
                n@,
            ) is Some {
                seq![parse_u32_spec(n@).unwrap()] + rest
            } else {
                rest
            },
            _ => rest,
        }
    }
}

/// The pids of the directories from the `i`-th on whose name is a number
/// and that have a lowered name: those that any needle can match.
pub open spec fn eligible_from(entries: Seq<ProcFile>, lowered: Seq<Option<Seq<char>>>, i: nat) -> Seq<u32>
    decreases entries.len() - i,
{
    if i >= entries.len() {
        seq![]
    } else {
        let rest = eligible_from(entries, lowered, i + 1);
        match (entries[i as int].name, lowered_at(lowered, i as int)) {
            (Some(n), Some(l)) => if all_digits(n@) && parse_u32_spec(n@) is Some {
                seq![parse_u32_spec(n@).unwrap()] + rest
            } else {
                rest
            },
            _ => rest,
        }
    }
}

/// Picks the processes whose lowered name (`lowered[i]` for the `i`-th
/// directory of `entries`) contains the lowered `needle`.
pub fn pids_with_names(
    entries: &Vec<ProcFile>,
    lowered: &Vec<Option<Vec<char>>>,
    needle: &Vec<char>,
) -> (r: Vec<u32>)
    ensures
        r@ == chosen_from(entries@, opt_views(lowered@), needle@, 0),
{
    let ghost lw = opt_views(lowered@);
    let mut result: Vec<u32> = Vec::new();
    let mut i: usize = 0;
    while i < entries.len()
        invariant
            i <= entries.len(),
            lw == opt_views(lowered@),
            chosen_from(entries@, lw, needle@, 0) == result@ + chosen_from(entries@, lw, needle@, i as nat),
        decreases entries.len() - i,
    {
        let e = &entries[i];
        let ghost rest = chosen_from(entries@, lw, needle@, (i + 1) as nat);
        if i < lowered.len() {
            if let (Some(n), Some(l)) = (&e.name, &lowered[i]) {
                assert(lowered_at(lw, i as int) == Some(l@));
                if is_all_digits(n) && contains(l, needle) {
                    if let Some(pid) = parse_u32(n) {
                        result.push(pid);
                        assert(chosen_from(entries@, lw, needle@, 0) =~= result@ + rest);
                    }
                }
            }
        }
        i = i + 1;
    }
    result
}

/// The processes whose name contains `name`, ignoring case: `entries` holds
/// each `/proc` directory with the text of its `comm` file. For an ASCII
/// `name`, the needle is `name` with `A`-`Z` lowered.
pub fn find_pids_by_name(name: &Vec<char>, entries: &Vec<ProcFile>) -> (r: Vec<u32>)
    ensures
        r@ == chosen_from(entries@, lowered_comms(entries@), lowercase_of(name@), 0),
        crate::text::is_ascii_text(name@) ==> r@ == chosen_from(
            entries@,
            lowered_comms(entries@),
            crate::text::ascii_lower(name@),
            0,
        ),
{
    let needle = to_lowercase(name);
    let mut lowered: Vec<Option<Vec<char>>> = Vec::new();
    let mut i: usize = 0;
    while i < entries.len()
        invariant
            i <= entries.len(),
            opt_views(lowered@) =~= lowered_comms(entries@).take(i as int),
        decreases entries.len() - i,
    {
        let ghost before = lowered@;
        match &entries[i].text {
            Some(comm) => {
                let lc = to_lowercase(&trim(comm));
                lowered.push(Some(lc));
            },
            None => lowered.push(None),
        }
        assert(opt_views(lowered@) =~= opt_views(before).push(lowered_comm(entries@[i as int])));
        assert(lowered_comms(entries@).take(i + 1) =~= lowered_comms(entries@).take(i as int).push(
            lowered_comm(entries@[i as int]),
        ));
        i = i + 1;
    }
    assert(opt_views(lowered@) =~= lowered_comms(entries@));
    pids_with_names(entries, &lowered, &needle)
}

/// A longer needle picks no more: when the lowered needle `b` contains the
/// lowered needle `a`, every process picked for `b` is picked for `a`.
pub proof fn law_name_lookup_narrows(
    entries: Seq<ProcFile>,
    lowered: Seq<Option<Seq<char>>>,
    a: Seq<char>,
    b: Seq<char>,
    i: nat,
)
    requires
        contains_spec(b, a),
    ensures
        forall|x: u32|
            chosen_from(entries, lowered, b, i).contains(x) ==> chosen_from(entries, lowered, a, i).contains(x),
    decreases entries.len() - i,
{
    if i < entries.len() {
        law_name_lookup_narrows(entries, lowered, a, b, i + 1);
        let rb = chosen_from(entries, lowered, b, i + 1);
        let ra = chosen_from(entries, lowered, a, i + 1);
        let cb = chosen_from(entries, lowered, b, i);
        let ca = chosen_from(entries, lowered, a, i);
        let picked = match (entries[i as int].name, lowered_at(lowered, i as int)) {
            (Some(n), Some(l)) => all_digits(n@) && contains_spec(l, b) && parse_u32_spec(n@) is Some,
            _ => false,
        };
        if picked {
            let n = entries[i as int].name.unwrap();
            let l = lowered_at(lowered, i as int).unwrap();
            crate::text::lemma_contains_trans(l, b, a);
            let p = parse_u32_spec(n@).unwrap();
            assert(cb == seq![p] + rb);
            assert(ca == seq![p] + ra);
        } else {
            assert(cb == rb);
        }
        assert forall|x: u32| cb.contains(x) implies ca.contains(x) by {
            let k = choose|k: int| 0 <= k < cb.len() && cb[k] == x;
            if picked && k == 0 {
                assert(ca[0] == x);
            } else {
                if picked {
                    assert(rb[k - 1] == x);
                } else {
                    assert(rb[k] == x);
                }
                assert(rb.contains(x));
                let m = choose|m: int| 0 <= m < ra.len() && ra[m] == x;
                if ca.len() == ra.len() + 1 {
                    assert(ca[m + 1] == x);
                } else {
                    assert(ca[m] == x);
                }
            }
        }
    }
}

/// The empty needle picks every process that has a numeric name and a
/// lowered name.
pub proof fn law_empty_name_picks_all(entries: Seq<ProcFile>, lowered: Seq<Option<Seq<char>>>, i: nat)
    ensures
        chosen_from(entries, lowered, Seq::<char>::empty(), i) == eligible_from(entries, lowered, i),
    decreases entries.len() - i,
{
    if i < entries.len() {
        law_empty_name_picks_all(entries, lowered, i + 1);
        if let Some(l) = lowered_at(lowered, i as int) {
            crate::text::lemma_contains_empty(l);
        }
    }
}

// ---------------------------------------------------------------------------
// Parent links
// ---------------------------------------------------------------------------

/// Whether the field list of a `stat` text can be cut out: it begins two
/// bytes after the last `)`, so the `)` must be followed by a one-byte
/// (ASCII) character. A text without `)` has no field list and is fine.
pub open spec fn stat_sliceable(stat: Seq<char>) -> bool {
    match crate::text::rfind_spec(stat, ')') {
        None => true,
        Some(i) => i + 1 < stat.len() && (stat[i + 1] as u32) < 128,
    }
}

/// The parent pid of a `stat` text `pid (comm) state ppid ...`: the second
/// of the white-space separated fields after the last `)` (and the one
/// character that follows it), when there are more than two of them and it
/// reads as a number.
pub open spec fn stat_ppid(stat: Seq<char>) -> Option<u32> {
    match crate::text::rfind_spec(stat, ')') {
        None => None,
        Some(i) => {
            let f = words_of(stat.skip(i + 2));
            if f.len() > 2 {
                parse_u32_spec(f[1])
            } else {
                None
            }
        },
    }
}

/// No pid occurs twice in `t`.
pub open spec fn keys_distinct(t: Seq<Edge>) -> bool {
    forall|a: int, b: int| 0 <= a < t.len() && 0 <= b < t.len() && t[a].0 == t[b].0 ==> a == b
}

/// The position of an entry of `pid` in `t`, where it has one.
pub open spec fn parent_slot(t: Seq<Edge>, pid: u32) -> int {
    choose|k: int| 0 <= k < t.len() && t[k].0 == pid
}

/// `t` with the parent of `pid` set to `ppid`: in place where `pid` has an
/// entry, else as a new last entry.
pub open spec fn with_parent(t: Seq<Edge>, pid: u32, ppid: u32) -> Seq<Edge> {
    if exists|k: int| 0 <= k < t.len() && t[k].0 == pid {
        t.update(parent_slot(t, pid), (pid, ppid))
    } else {
        t.push((pid, ppid))
    }
}

/// The table after one more directory: `None` where its `stat` cannot be
/// cut (see `stat_sliceable`).
pub open spec fn entry_step(t: Seq<Edge>, e: ProcFile) -> Option<Seq<Edge>> {
    match e.name {
        None => Some(t),
        Some(n) => if !all_digits(n@) {
            Some(t)
        } else {
            match parse_u32_spec(n@) {
                None => Some(t),
                Some(pid) => match e.text {
                    None => Some(t),
                    Some(st) => if !stat_sliceable(st@) {
                        None
                    } else {
                        match stat_ppid(st@) {
                            Some(pp) => Some(with_parent(t, pid, pp)),
                            None => Some(t),
                        }
                    },
                },
            }
        },
    }
}

/// The parent table after the first `k` directories of `entries`.
pub open spec fn parent_table(entries: Seq<ProcFile>, k: nat) -> Option<Seq<Edge>>
    decreases k,
{
    if k == 0 {
        Some(seq![])
    } else {
        match parent_table(entries, (k - 1) as nat) {
            None => None,
            Some(t) => if k - 1 < entries.len() {
                entry_step(t, entries[k - 1])
            } else {
                Some(t)
            },
        }
    }
}

/// Reads the parent pid out of a `stat` text; `Err(())` where the field list
/// cannot be cut out of it.
fn parse_stat_ppid(stat: &Vec<char>) -> (r: Result<Option<u32>, ()>)
    ensures
        r is Err <==> !stat_sliceable(stat@),
        r matches Ok(p) ==> p == stat_ppid(stat@),
{
    match rfind(stat, ')') {
        None => Ok(None),
        Some(i) => {
            let len = stat.len();
            if i + 1 >= len || stat[i + 1] as u32 >= 128 {
                return Err(());
            }
            let after = copy_from(stat, i + 2);
            let fields = split_whitespace(&after);
            if fields.len() > 2 {
                assert(views(fields@)[1] == fields@[1]@);
                Ok(parse_u32(&fields[1]))
            } else {
                Ok(None)
            }
        },
    }
}

fn set_parent(t: &mut Vec<Edge>, pid: u32, ppid: u32)
    requires
        keys_distinct(old(t)@),
    ensures
        final(t)@ == with_parent(old(t)@, pid, ppid),
        keys_distinct(final(t)@),
{
    let mut k: usize = 0;
    while k < t.len()
        invariant
            k <= t.len(),
            t@ == old(t)@,
            keys_distinct(t@),
            forall|m: int| 0 <= m < k ==> t@[m].0 != pid,
        decreases t.len() - k,
    {
        if t[k].0 == pid {
            proof {
                let c = choose|m: int| 0 <= m < t@.len() && t@[m].0 == pid;
                assert(c == k);
            }
            t.set(k, (pid, ppid));
            return;
        }
        k = k + 1;
    }
    t.push((pid, ppid));
}

/// The parent links read from the `stat` files of `entries`: one per pid,
/// the last read winning; `None` where a `stat` text cannot be cut.
pub fn parent_links(entries: &Vec<ProcFile>) -> (r: Option<Vec<Edge>>)
    ensures
        r is None <==> parent_table(entries@, entries@.len()) is None,
        r matches Some(t) ==> parent_table(entries@, entries@.len()) == Some(t@),
        r matches Some(t) ==> keys_distinct(t@),
{
    let mut t: Vec<Edge> = Vec::new();
    let mut i: usize = 0;
    while i < entries.len()
        invariant
            i <= entries.len(),
            parent_table(entries@, i as nat) == Some(t@),
            keys_distinct(t@),
        decreases entries.len() - i,
    {
        let e = &entries[i];
        if let Some(n) = &e.name {
            if is_all_digits(n) {
                if let Some(pid) = parse_u32(n) {
                    if let Some(st) = &e.text {
                        match parse_stat_ppid(st) {
                            Err(()) => {
                                proof {
                                    lemma_parent_table_stays_none(entries@, (i + 1) as nat, entries@.len());
                                }
                                return None;
                            },
                            Ok(Some(pp)) => {
                                set_parent(&mut t, pid, pp);
                            },
                            Ok(None) => {},
                        }
                    }
                }
            }
        }
        i = i + 1;
    }
    Some(t)
}

proof fn lemma_parent_table_stays_none(entries: Seq<ProcFile>, k: nat, m: nat)
    requires
        parent_table(entries, k) is None,
        k <= m,
    ensures
        parent_table(entries, m) is None,
    decreases m - k,
{
    if m > k {
        lemma_parent_table_stays_none(entries, k, (m - 1) as nat);
    }
}

/// What planning a tree kill from the `stat` files comes to.
pub enum TreeOutcome {
    /// The signals to send.
    Plan(KillPlan),
    /// The walk below the root goes round a cycle of parent links.
    Endless,
    /// A `stat` text cannot be cut (see `stat_sliceable`).
    BadStat,
}

/// Plans the signals that take down `pid` and all its descendants, from the
/// parent links in the `stat` files of `entries`: children deepest first,
/// the root last.
pub fn kill_tree(pid: u32, entries: &Vec<ProcFile>) -> (r: TreeOutcome)
    ensures
        parent_table(entries@, entries@.len()) is None <==> r is BadStat,
        parent_table(entries@, entries@.len()) matches Some(t) ==> {
            &&& r is Endless <==> level(t, pid, (t.len() + 1) as nat).len() > 0
            &&& r matches TreeOutcome::Plan(plan) ==> planned(t, pid, plan)
        },
{
    match parent_links(entries) {
        None => TreeOutcome::BadStat,
        Some(t) => match kill_plan(pid, &t) {
            None => TreeOutcome::Endless,
            Some(plan) => TreeOutcome::Plan(plan),
        },
    }
}

} // verus!

verus! {

/// The two port lookups agree: `find_pid_by_port` finds nothing exactly when
/// `find_pid_by_port_all` (here `all`) is empty, and otherwise finds one of
/// the pids of `all`.
pub proof fn law_port_lookups_agree(port: u16, tables: NetTables, procs: Seq<ProcFds>, all: Seq<u32>)
    requires
        strictly_increasing(all),
        same_members(all, port_pids(tables, port, procs)),
    ensures
        first_of(port_pids(tables, port, procs)) is None <==> all.len() == 0,
        (port_pids(tables, port, procs).len() == 0) <==> all.len() == 0,
        first_of(port_pids(tables, port, procs)) matches Some(p) ==> all.contains(p),
{
    crate::pids::law_first_among_all(port_pids(tables, port, procs), all);
}

} // verus!

verus! {

// ---------------------------------------------------------------------------
// Laws of the socket tables, stated over the table text
// ---------------------------------------------------------------------------

/// The TCP state column of a listening socket.
pub open spec fn listening_column() -> Seq<char> {
    seq!['0', 'A']
}

/// A row of a TCP table counts (holds the port, and may give it an owner)
/// only when it has ten columns and its state column is `0A`, listening: a
/// socket in any other state, such as TIME_WAIT (`06`), never counts. A row
/// of any table counts only when the text after the last `:` of its local
/// address is the port in four upper-case hex digits, and what it gives is
/// its tenth column.
pub proof fn law_counted_rows(line: Seq<char>, port: u16, is_tcp: bool)
    ensures
        row_inode(line, port, is_tcp) matches Some(inode) ==> {
            let w = words_of(line);
            &&& w.len() >= 10
            &&& after_last(w[1], ':') == Some(hex4_spec(port))
            &&& is_tcp ==> w[3] == listening_column()
            &&& inode == w[9]
        },
{
}

/// No line from the `k`-th on counts.
pub open spec fn no_row_counts_from(lines: Seq<Seq<char>>, k: nat, port: u16, is_tcp: bool) -> bool {
    forall|j: int| k <= j < lines.len() ==> row_inode(#[trigger] lines[j], port, is_tcp) is None
}

proof fn lemma_no_counted_row(lines: Seq<Seq<char>>, i: nat, port: u16, is_tcp: bool, procs: Seq<ProcFds>)
    requires
        no_row_counts_from(lines, i, port, is_tcp),
    ensures
        !row_from(lines, i, port, is_tcp),
        pids_from(lines, i, port, is_tcp, procs).len() == 0,
    decreases lines.len() - i,
{
    if i < lines.len() {
        assert(row_inode(lines[i as int], port, is_tcp) is None);
        lemma_no_counted_row(lines, i + 1, port, is_tcp, procs);
    }
}

/// Every data line of a TCP table (after its header) is not listening: it
/// has fewer than four columns, or a state other than `0A`.
pub open spec fn tcp_table_not_listening(t: Option<Vec<char>>) -> bool {
    t matches Some(c) ==> forall|k: int|
        1 <= k < lines_of(c@).len() ==> {
            let w = #[trigger] words_of(lines_of(c@)[k]);
            w.len() < 4 || w[3] != listening_column()
        }
}

/// A table without data lines: every line after the header has fewer than
/// ten columns (a table with only its header is one).
pub open spec fn table_without_rows(t: Option<Vec<char>>) -> bool {
    t matches Some(c) ==> forall|k: int| 1 <= k < lines_of(c@).len() ==> (#[trigger] words_of(lines_of(c@)[k])).len() < 10
}

proof fn lemma_table_quiet(t: Option<Vec<char>>, port: u16, is_tcp: bool, procs: Seq<ProcFds>)
    requires
        (is_tcp && tcp_table_not_listening(t)) || table_without_rows(t),
    ensures
        !table_has_row(t, port, is_tcp),
        table_pids(t, port, is_tcp, procs).len() == 0,
{
    if let Some(c) = t {
        let lines = lines_of(c@);
        assert forall|j: int| 1 <= j < lines.len() implies row_inode(#[trigger] lines[j], port, is_tcp) is None by {
            let w = words_of(lines[j]);
            if is_tcp && tcp_table_not_listening(t) {
                assert(w.len() < 4 || w[3] != listening_column());
            } else {
                assert(w.len() < 10);
            }
        }
        lemma_no_counted_row(lines, 1, port, is_tcp, procs);
    }
}

/// Sockets that are not listening do not hold a port: when no TCP line is
/// in the listening state (after a server has exited, its sockets linger in
/// TIME_WAIT) and the UDP tables have no data lines, the port is available
/// and has no owner, whatever processes there are.
pub proof fn law_closed_sockets_leave_port_free(tables: NetTables, port: u16, procs: Seq<ProcFds>)
    requires
        tcp_table_not_listening(tables.tcp),
        tcp_table_not_listening(tables.tcp6),
        table_without_rows(tables.udp),
        table_without_rows(tables.udp6),
    ensures
        !port_in_use(tables, port),
        port_pids(tables, port, procs).len() == 0,
{
    lemma_table_quiet(tables.tcp, port, true, procs);
    lemma_table_quiet(tables.tcp6, port, true, procs);
    lemma_table_quiet(tables.udp, port, false, procs);
    lemma_table_quiet(tables.udp6, port, false, procs);
}

proof fn lemma_row_owner_found(
    lines: Seq<Seq<char>>,
    i: nat,
    k: int,
    port: u16,
    is_tcp: bool,
    procs: Seq<ProcFds>,
    p: u32,
)
    requires
        i <= k < lines.len(),
        row_inode(lines[k], port, is_tcp) matches Some(inode) && inode_owner(procs, inode) == Some(p),
    ensures
        pids_from(lines, i, port, is_tcp, procs).contains(p),
    decreases k - i,
{
    let here = pids_from(lines, i, port, is_tcp, procs);
    let rest = pids_from(lines, i + 1, port, is_tcp, procs);
    if i == k {
        assert(here[0] == p);
    } else {
        lemma_row_owner_found(lines, i + 1, k, port, is_tcp, procs, p);
        let m = choose|m: int| 0 <= m < rest.len() && rest[m] == p;
        if here.len() == rest.len() + 1 {
            assert(here[m + 1] == p);
        } else {
            assert(here[m] == p);
        }
    }
}

/// A listener in the IPv4 TCP table is found: a data line of `tables.tcp`
/// bound to `port` (the text after the last `:` of its local address is the
/// port in four hex digits), listening (`0A`), whose socket (tenth column)
/// has an owner `p`, makes `p` one of the port's owners, so the port has a
/// first owner.
pub proof fn law_tcp_listener_is_found(tables: NetTables, port: u16, procs: Seq<ProcFds>, k: int, p: u32)
    requires
        tables.tcp matches Some(c) && 1 <= k < lines_of(c@).len() && {
            let w = words_of(lines_of(c@)[k]);
            &&& w.len() >= 10
            &&& after_last(w[1], ':') == Some(hex4_spec(port))
            &&& w[3] == listening_column()
            &&& inode_owner(procs, w[9]) == Some(p)
        },
    ensures
        port_pids(tables, port, procs).contains(p),
        first_of(port_pids(tables, port, procs)) is Some,
{
    let c = tables.tcp.unwrap();
    let lines = lines_of(c@);
    assert(listen_state() == listening_column());
    lemma_row_owner_found(lines, 1, k, port, true, procs, p);
    let a = table_pids(tables.tcp, port, true, procs);
    let all = port_pids(tables, port, procs);
    let m = choose|m: int| 0 <= m < a.len() && a[m] == p;
    assert(all == a + (table_pids(tables.tcp6, port, true, procs) + table_pids(tables.udp, port, false, procs)
        + table_pids(tables.udp6, port, false, procs)));
    assert(all[m] == p);
}

/// The tables are read in the order TCP, TCP6, UDP, UDP6: the owners found
/// in the IPv4 TCP table come first, followed by those of the other three.
pub proof fn law_tcp_table_comes_first(tables: NetTables, port: u16, procs: Seq<ProcFds>)
    requires
        tables.tcp is Some,
    ensures
        port_pids(tables, port, procs) == socket_pids(tables.tcp.unwrap()@, port, true, procs)
            + port_pids(NetTables { tcp: None, tcp6: tables.tcp6, udp: tables.udp, udp6: tables.udp6 }, port, procs),
{
    let rest = NetTables { tcp: None, tcp6: tables.tcp6, udp: tables.udp, udp6: tables.udp6 };
    assert(table_pids(rest.tcp, port, true, procs) =~= Seq::<u32>::empty());
    assert(port_pids(tables, port, procs) =~= socket_pids(tables.tcp.unwrap()@, port, true, procs)
        + port_pids(rest, port, procs));
}

// ---------------------------------------------------------------------------
// Who holds a socket
// ---------------------------------------------------------------------------

proof fn lemma_owner_from_holds(procs: Seq<ProcFds>, inode: Seq<char>, i: nat, p: u32)
    requires
        owner_from(procs, inode, i) == Some(p),
    ensures
        exists|m: int, j: int|
            i <= m < procs.len() && procs[m].name is Some && all_digits(procs[m].name.unwrap()@)
                && parse_u32_spec(procs[m].name.unwrap()@) == Some(p) && 0 <= j
                < procs[m].links@.len() && #[trigger] procs[m].links@[j]@ == socket_link(inode),
    decreases procs.len() - i,
{
    let n = procs[i as int].name;
    if n is Some && all_digits(n.unwrap()@) && has_inode_link(procs[i as int], inode) {
        let j = choose|j: int|
            0 <= j < procs[i as int].links@.len() && link_names_inode(
                #[trigger] procs[i as int].links@[j]@,
                inode,
            );
        assert(procs[i as int].links@[j]@ == socket_link(inode));
    } else {
        lemma_owner_from_holds(procs, inode, i + 1, p);
    }
}

/// A socket's owner holds it: when the owner of `inode` is `p`, some
/// directory whose name is all digits and reads as the number `p` has a
/// descriptor link that reads exactly `socket:[`, the inode, and `]`.
pub proof fn law_owner_holds_the_socket(procs: Seq<ProcFds>, inode: Seq<char>, p: u32)
    requires
        inode_owner(procs, inode) == Some(p),
    ensures
        exists|m: int, j: int|
            0 <= m < procs.len() && procs[m].name is Some && all_digits(procs[m].name.unwrap()@)
                && parse_u32_spec(procs[m].name.unwrap()@) == Some(p) && 0 <= j
                < procs[m].links@.len() && #[trigger] procs[m].links@[j]@ == seq![
                's',
                'o',
                'c',
                'k',
                'e',
                't',
                ':',
                '[',
            ] + inode + seq![']'],
{
    lemma_owner_from_holds(procs, inode, 0, p);
    assert(socket_link(inode) =~= seq!['s', 'o', 'c', 'k', 'e', 't', ':', '['] + inode + seq![']']);
}

proof fn lemma_first_holder(procs: Seq<ProcFds>, inode: Seq<char>, k: int, i: nat)
    requires
        i <= k < procs.len(),
        procs[k].name is Some,
        all_digits(procs[k].name.unwrap()@),
        has_inode_link(procs[k], inode),
        forall|m: int|
            0 <= m < k && #[trigger] procs[m].name is Some && all_digits(procs[m].name.unwrap()@)
                ==> !has_inode_link(procs[m], inode),
    ensures
        owner_from(procs, inode, i) == parse_u32_spec(procs[k].name.unwrap()@),
    decreases k - i,
{
    if i < k {
        lemma_first_holder(procs, inode, k, i + 1);
    }
}

/// The first holder is the owner: when the `k`-th directory has a name of
/// digits and a descriptor link that reads `socket:[`, the inode, and `]`,
/// and no earlier directory with a name of digits has such a link, the
/// owner of `inode` is the `k`-th name read as a number.
pub proof fn law_first_holder_is_owner(procs: Seq<ProcFds>, inode: Seq<char>, k: int, j: int)
    requires
        0 <= k < procs.len(),
        procs[k].name is Some,
        all_digits(procs[k].name.unwrap()@),
        0 <= j < procs[k].links@.len(),
        procs[k].links@[j]@ == seq!['s', 'o', 'c', 'k', 'e', 't', ':', '['] + inode + seq![']'],
        forall|m: int, l: int|
            0 <= m < k && procs[m].name is Some && all_digits(procs[m].name.unwrap()@) && 0 <= l
                < procs[m].links@.len() ==> #[trigger] procs[m].links@[l]@ != seq![
                's',
                'o',
                'c',
                'k',
                'e',
                't',
                ':',
                '[',
            ] + inode + seq![']'],
    ensures
        inode_owner(procs, inode) == parse_u32_spec(procs[k].name.unwrap()@),
{
    let lit = seq!['s', 'o', 'c', 'k', 'e', 't', ':', '['] + inode + seq![']'];
    assert(socket_link(inode) =~= lit);
    assert(link_names_inode(procs[k].links@[j]@, inode));
    assert forall|m: int|
        0 <= m < k && #[trigger] procs[m].name is Some && all_digits(procs[m].name.unwrap()@)
            implies !has_inode_link(procs[m], inode) by {
        if has_inode_link(procs[m], inode) {
            let l = choose|l: int|
                0 <= l < procs[m].links@.len() && link_names_inode(#[trigger] procs[m].links@[l]@, inode);
            assert(procs[m].links@[l]@ == lit);
        }
    }
    lemma_first_holder(procs, inode, k, 0);
}

// ---------------------------------------------------------------------------
// Laws of the parent links, stated over the `stat` text
// ---------------------------------------------------------------------------

/// The parent pid is the field after the state: in a `stat` text made of any
/// text `head` (the pid and the command, which may itself hold `)`), a `)`,
/// one space, and a text `tail` without `)`, the parent is the second of
/// the white-space separated fields of `tail` read as a number, when `tail`
/// has more than two fields; such a text can always be cut.
pub proof fn law_parent_is_field_after_state(head: Seq<char>, tail: Seq<char>)
    requires
        forall|k: int| 0 <= k < tail.len() ==> tail[k] != ')',
    ensures
        stat_sliceable(head + seq![')', ' '] + tail),
        stat_ppid(head + seq![')', ' '] + tail) == (if words_of(tail).len() > 2 {
            parse_u32_spec(words_of(tail)[1])
        } else {
            None
        }),
{
    let s = head + seq![')', ' '] + tail;
    let i = head.len() as int;
    assert(s[i] == ')');
    assert forall|k: int| i < k < s.len() implies s[k] != ')' by {
        if k > i + 1 {
            assert(s[k] == tail[k - i - 2]);
        }
    }
    assert(crate::text::is_last_index(s, ')', i));
    let j = choose|j: int| crate::text::is_last_index(s, ')', j);
    assert(j == i);
    assert(crate::text::rfind_spec(s, ')') == Some(i));
    assert(s.skip(i + 2) =~= tail);
}

proof fn lemma_with_parent_sets(t: Seq<Edge>, pid: u32, ppid: u32)
    ensures
        with_parent(t, pid, ppid).contains((pid, ppid)),
{
    let w = with_parent(t, pid, ppid);
    if exists|k: int| 0 <= k < t.len() && t[k].0 == pid {
        let k = parent_slot(t, pid);
        assert(w[k] == (pid, ppid));
    } else {
        assert(w[t.len() as int] == (pid, ppid));
    }
}

proof fn lemma_with_parent_keeps(t: Seq<Edge>, pid: u32, ppid: u32, e: Edge)
    requires
        t.contains(e),
        e.0 != pid,
    ensures
        with_parent(t, pid, ppid).contains(e),
{
    let w = with_parent(t, pid, ppid);
    let i = choose|i: int| 0 <= i < t.len() && t[i] == e;
    if exists|k: int| 0 <= k < t.len() && t[k].0 == pid {
        let k = parent_slot(t, pid);
        assert(k != i);
        assert(w[i] == e);
    } else {
        assert(w[i] == e);
    }
}

/// The `k`-th directory is the only one whose name is digits that read as
/// `c`, and its `stat` text gives `pp` as the parent pid.
pub open spec fn sole_entry_with_parent(entries: Seq<ProcFile>, k: int, c: u32, pp: u32) -> bool {
    &&& 0 <= k < entries.len()
    &&& entries[k].name is Some
    &&& all_digits(entries[k].name.unwrap()@)
    &&& parse_u32_spec(entries[k].name.unwrap()@) == Some(c)
    &&& entries[k].text is Some
    &&& stat_ppid(entries[k].text.unwrap()@) == Some(pp)
    &&& forall|m: int|
        0 <= m < entries.len() && m != k && #[trigger] entries[m].name is Some && all_digits(
            entries[m].name.unwrap()@,
        ) ==> parse_u32_spec(entries[m].name.unwrap()@) != Some(c)
}

proof fn lemma_link_kept(entries: Seq<ProcFile>, k: int, c: u32, pp: u32, j: nat)
    requires
        sole_entry_with_parent(entries, k, c, pp),
        k < j <= entries.len(),
        parent_table(entries, j) is Some,
    ensures
        parent_table(entries, j).unwrap().contains((c, pp)),
    decreases j,
{
    let prev = parent_table(entries, (j - 1) as nat);
    assert(prev is Some);
    let t = prev.unwrap();
    let e = entries[j - 1];
    if j - 1 == k {
        assert(entry_step(t, e) == Some(with_parent(t, c, pp)));
        lemma_with_parent_sets(t, c, pp);
    } else {
        lemma_link_kept(entries, k, c, pp, (j - 1) as nat);
        match entry_step(t, e) {
            Some(t2) => {
                if t2 != t {
                    let pid2 = parse_u32_spec(e.name.unwrap()@).unwrap();
                    let pp2 = stat_ppid(e.text.unwrap()@).unwrap();
                    assert(t2 == with_parent(t, pid2, pp2));
                    assert(pid2 != c);
                    lemma_with_parent_keeps(t, pid2, pp2, (c, pp));
                }
            },
            None => {},
        }
    }
}

/// Every child read from the `stat` files is planned: when the table is read
/// (every `stat` text can be cut), the walk below `pid` ends and the plan is
/// made, a directory other than `pid`, the only one whose name reads as its
/// pid `c`, whose `stat` text gives as parent `pid` or one of the plan's
/// children, is among the plan's children, whatever the order of the
/// directories and of the pids.
pub proof fn law_plan_takes_every_child(
    entries: Seq<ProcFile>,
    pid: u32,
    t: Seq<Edge>,
    plan: KillPlan,
    k: int,
    c: u32,
    pp: u32,
)
    requires
        parent_table(entries, entries.len()) == Some(t),
        level(t, pid, (t.len() + 1) as nat).len() == 0,
        planned(t, pid, plan),
        sole_entry_with_parent(entries, k, c, pp),
        c != pid,
        pp == pid || plan.children@.contains(pp),
    ensures
        plan.children@.contains(c),
{
    lemma_link_kept(entries, k, c, pp, entries.len());
    let n = (t.len() + 1) as nat;
    let w = crate::tree::walk_upto(t, pid, n);
    if pp == pid {
        assert(level(t, pid, 0) == seq![pid]);
        assert(level(t, pid, 0)[0] == pid);
        assert(level(t, pid, 0).contains(pid));
        crate::tree::lemma_walk_members(t, pid, n, pid);
    } else {
        crate::tree::law_kill_order_members(w, pid, pp);
    }
    assert(w.contains(pp));
    crate::tree::law_finished_walk_is_complete(t, pid, n, pp, c);
    crate::tree::law_kill_order_members(w, pid, c);
}

// ---------------------------------------------------------------------------
// Laws of the name lookup, stated over the `comm` text
// ---------------------------------------------------------------------------

proof fn lemma_chosen_has(
    entries: Seq<ProcFile>,
    lowered: Seq<Option<Seq<char>>>,
    needle: Seq<char>,
    i: nat,
    k: int,
)
    requires
        i <= k < entries.len(),
        entries[k].name is Some,
        all_digits(entries[k].name.unwrap()@),
        parse_u32_spec(entries[k].name.unwrap()@) is Some,
        lowered_at(lowered, k) is Some,
        contains_spec(lowered_at(lowered, k).unwrap(), needle),
    ensures
        chosen_from(entries, lowered, needle, i).contains(
            parse_u32_spec(entries[k].name.unwrap()@).unwrap(),
        ),
    decreases k - i,
{
    let x = parse_u32_spec(entries[k].name.unwrap()@).unwrap();
    let here = chosen_from(entries, lowered, needle, i);
    let rest = chosen_from(entries, lowered, needle, i + 1);
    if i == k {
        assert(here[0] == x);
    } else {
        lemma_chosen_has(entries, lowered, needle, i + 1, k);
        let m = choose|m: int| 0 <= m < rest.len() && rest[m] == x;
        if here.len() == rest.len() + 1 {
            assert(here[m + 1] == x);
        } else {
            assert(here[m] == x);
        }
    }
}

/// A process is found by the name in its `comm` file, which the kernel
/// writes followed by a line feed that is no part of the name: when the
/// `k`-th directory's name is digits that read as a number, its `comm` text
/// is a name `w` (neither beginning nor ending in white space) and `\n`,
/// and the lowered `w` contains the needle, that number is picked.
pub proof fn law_comm_name_is_matched(entries: Seq<ProcFile>, needle: Seq<char>, k: int, w: Seq<char>)
    requires
        0 <= k < entries.len(),
        entries[k].name is Some,
        all_digits(entries[k].name.unwrap()@),
        parse_u32_spec(entries[k].name.unwrap()@) is Some,
        entries[k].text is Some,
        entries[k].text.unwrap()@ == w + seq!['\n'],
        w.len() > 0,
        !crate::text::is_ws(w[0]),
        !crate::text::is_ws(w.last()),
        contains_spec(lowercase_of(w), needle),
    ensures
        chosen_from(entries, lowered_comms(entries), needle, 0).contains(
            parse_u32_spec(entries[k].name.unwrap()@).unwrap(),
        ),
{
    let post = seq!['\n'];
    assert(crate::text::is_ws(post[0]));
    crate::text::law_trim_drops_surrounding_space(Seq::<char>::empty(), w, post);
    assert(Seq::<char>::empty() + w + post =~= w + post);
    assert(lowered_comms(entries)[k] == Some(lowercase_of(w)));
    lemma_chosen_has(entries, lowered_comms(entries), needle, 0, k);
}

} // verus!
