//! The tables that the IP helper and tool-help interfaces hand out: owner
//! pids of sockets by port, processes by executable name, parent links.
use vstd::prelude::*;
use crate::pids::{first_of, same_members, sort_dedup, strictly_increasing};
use crate::text::{contains, contains_spec, decode_utf8_lossy, lowercase_of, to_lowercase, utf8_lossy_of, views};
use crate::tree::{kill_plan, level, planned, walk_upto, Edge, KillPlan};

verus! {

// ---------------------------------------------------------------------------
// Socket tables
// ---------------------------------------------------------------------------

/// The little-endian 32-bit word at byte `at` of `b` (the tables are laid
/// out in the machine's order, which is little-endian on Windows).
pub open spec fn u32_le(b: Seq<u8>, at: int) -> int {
    b[at] + b[at + 1] * 256 + b[at + 2] * 65536 + b[at + 3] * 16777216
}

/// Where the fields of a table row lie: the row's size, the byte offsets of
/// its local port and owning pid, and, for TCP, of its state.
pub struct RowLayout {
    pub size: usize,
    pub port_at: usize,
    pub pid_at: usize,
    pub state_at: Option<usize>,
}

/// `MIB_TCPROW_OWNER_PID`: state, local address, local port, remote
/// address, remote port, owning pid.
pub open spec fn tcp_layout() -> RowLayout {
    RowLayout { size: 24, port_at: 8, pid_at: 20, state_at: Some(0) }
}

/// `MIB_UDPROW_OWNER_PID`: local address, local port, owning pid.
pub open spec fn udp_layout() -> RowLayout {
    RowLayout { size: 12, port_at: 4, pid_at: 8, state_at: None }
}

/// `MIB_TCP6ROW_OWNER_PID`: local address (16 bytes), scope, local port,
/// remote address (16 bytes), scope, remote port, state, owning pid.
pub open spec fn tcp6_layout() -> RowLayout {
    RowLayout { size: 56, port_at: 20, pid_at: 52, state_at: Some(48) }
}

/// `MIB_UDP6ROW_OWNER_PID`: local address (16 bytes), scope, local port,
/// owning pid.
pub open spec fn udp6_layout() -> RowLayout {
    RowLayout { size: 28, port_at: 20, pid_at: 24, state_at: None }
}

pub open spec fn layout_ok(l: RowLayout) -> bool {
    &&& l.port_at + 4 <= l.size
    &&& l.pid_at + 4 <= l.size
    &&& l.state_at matches Some(s) ==> s + 4 <= l.size
    &&& l.size <= 64
}

/// `MIB_TCP_STATE_LISTEN`.
pub open spec fn listen_state() -> int {
    2
}

/// The number of rows a table announces in its first word.
pub open spec fn row_count(buf: Seq<u8>) -> nat {
    u32_le(buf, 0) as nat
}

/// The table holds the rows it announces: a 4-byte count, then that many
/// rows of `size` bytes.
pub open spec fn holds_rows(buf: Seq<u8>, size: nat) -> bool {
    buf.len() >= 4 && 4 + row_count(buf) * size <= buf.len()
}

/// The row at byte `base` is bound to the port `port_be` (the port in
/// network byte order, which the low 16 bits of the port word hold; the
/// upper bits may be left uninitialised) and, for TCP, listening.
pub open spec fn row_matches(buf: Seq<u8>, l: RowLayout, base: int, port_be: u32) -> bool {
    &&& u32_le(buf, base + l.port_at) % 65536 == port_be
    &&& l.state_at matches Some(s) ==> u32_le(buf, base + s) == listen_state()
}

/// The owning pids of the matching rows from the `i`-th on, in row order.
pub open spec fn rows_from(buf: Seq<u8>, l: RowLayout, port_be: u32, i: nat) -> Seq<u32>
    decreases row_count(buf) - i,
{
    if i >= row_count(buf) {
        seq![]
    } else {
        let base = 4 + i * l.size;
        let rest = rows_from(buf, l, port_be, i + 1);
        if row_matches(buf, l, base, port_be) {
            seq![u32_le(buf, base + l.pid_at) as u32] + rest
        } else {
            rest
        }
    }
}

/// The owning pids of the rows of `buf` that match `port_be`.
pub open spec fn table_pids(buf: Seq<u8>, l: RowLayout, port_be: u32) -> Seq<u32> {
    rows_from(buf, l, port_be, 0)
}

/// At most the first element of `s`.
pub open spec fn at_most_first(s: Seq<u32>) -> Seq<u32> {
    if s.len() > 0 {
        s.take(1)
    } else {
        s
    }
}

fn read_u32_le(b: &Vec<u8>, at: usize) -> (r: u32)
    requires
        at + 4 <= b.len(),
    ensures
        r == u32_le(b@, at as int),
{
    b[at] as u32 + b[at + 1] as u32 * 256 + b[at + 2] as u32 * 65536 + b[at + 3] as u32 * 16777216
}

proof fn lemma_row_bounds(i: nat, n: nat, size: nat)
    requires
        i < n,
    ensures
        (i + 1) * size <= n * size,
        (i + 1) * size == i * size + size,
{
    assert((i + 1) * size <= n * size) by (nonlinear_arith)
        requires
            i < n,
    ;
    assert((i + 1) * size == i * size + size) by (nonlinear_arith);
}

/// The owning pids of the rows of the table `buf` that are bound to
/// `port_be` (and, where the rows have a state, listening); with
/// `first_only`, at most the first of them.
fn pids_from_table(buf: &Vec<u8>, l: &RowLayout, port_be: u32, first_only: bool) -> (r: Vec<u32>)
    requires
        layout_ok(*l),
        holds_rows(buf@, l.size as nat),
    ensures
        !first_only ==> r@ == table_pids(buf@, *l, port_be),
        first_only ==> r@ == at_most_first(table_pids(buf@, *l, port_be)),
{
    let n = read_u32_le(buf, 0) as usize;
    let ghost all = table_pids(buf@, *l, port_be);
    let mut result: Vec<u32> = Vec::new();
    let mut i: usize = 0;
    let mut base: usize = 4;
    while i < n
        invariant
            layout_ok(*l),
            holds_rows(buf@, l.size as nat),
            n == row_count(buf@),
            i <= n,
            base == 4 + i * l.size,
            all == table_pids(buf@, *l, port_be),
            all == result@ + rows_from(buf@, *l, port_be, i as nat),
            first_only ==> result@.len() == 0,
        decreases n - i,
    {
        proof {
            lemma_row_bounds(i as nat, n as nat, l.size as nat);
            assert(4 + (i + 1) * l.size <= 4 + n * l.size);
            assert(base + l.size <= buf.len());
        }
        let ghost rest = rows_from(buf@, *l, port_be, (i + 1) as nat);
        let port_ok = read_u32_le(buf, base + l.port_at) % 65536 == port_be;
        let state_ok = match l.state_at {
            Some(s) => read_u32_le(buf, base + s) == 2,
            None => true,
        };
        if port_ok && state_ok {
            let pid = read_u32_le(buf, base + l.pid_at);
            result.push(pid);
            assert(all =~= result@ + rest);
            if first_only {
                assert(at_most_first(all) =~= result@);
                return result;
            }
        }
        i = i + 1;
        base = base + l.size;
    }
    result
}

fn tcp_layout_exec() -> (r: RowLayout)
    ensures
        r == tcp_layout(),
{
    RowLayout { size: 24, port_at: 8, pid_at: 20, state_at: Some(0) }
}

fn udp_layout_exec() -> (r: RowLayout)
    ensures
        r == udp_layout(),
{
    RowLayout { size: 12, port_at: 4, pid_at: 8, state_at: None }
}

fn tcp6_layout_exec() -> (r: RowLayout)
    ensures
        r == tcp6_layout(),
{
    RowLayout { size: 56, port_at: 20, pid_at: 52, state_at: Some(48) }
}

fn udp6_layout_exec() -> (r: RowLayout)
    ensures
        r == udp6_layout(),
{
    RowLayout { size: 28, port_at: 20, pid_at: 24, state_at: None }
}

/// The owning pids of the listening IPv4 TCP sockets on `port_be` in the
/// table `buf` (`MIB_TCPTABLE_OWNER_PID`); with `first_only`, at most the
/// first.
pub fn tcp_pids_from_buf(buf: &Vec<u8>, port_be: u32, first_only: bool) -> (r: Vec<u32>)
    requires
        holds_rows(buf@, 24),
    ensures
        !first_only ==> r@ == table_pids(buf@, tcp_layout(), port_be),
        first_only ==> r@ == at_most_first(table_pids(buf@, tcp_layout(), port_be)),
{
    pids_from_table(buf, &tcp_layout_exec(), port_be, first_only)
}

/// The owning pids of the IPv4 UDP sockets on `port_be` in the table `buf`
/// (`MIB_UDPTABLE_OWNER_PID`); with `first_only`, at most the first.
pub fn udp_pids_from_buf(buf: &Vec<u8>, port_be: u32, first_only: bool) -> (r: Vec<u32>)
    requires
        holds_rows(buf@, 12),
    ensures
        !first_only ==> r@ == table_pids(buf@, udp_layout(), port_be),
        first_only ==> r@ == at_most_first(table_pids(buf@, udp_layout(), port_be)),
{
    pids_from_table(buf, &udp_layout_exec(), port_be, first_only)
}

/// The owning pids of the listening IPv6 TCP sockets on `port_be` in the
/// table `buf` (`MIB_TCP6TABLE_OWNER_PID`); with `first_only`, at most the
/// first.
pub fn tcp6_pids_from_buf(buf: &Vec<u8>, port_be: u32, first_only: bool) -> (r: Vec<u32>)
    requires
        holds_rows(buf@, 56),
    ensures
        !first_only ==> r@ == table_pids(buf@, tcp6_layout(), port_be),
        first_only ==> r@ == at_most_first(table_pids(buf@, tcp6_layout(), port_be)),
{
    pids_from_table(buf, &tcp6_layout_exec(), port_be, first_only)
}

/// The owning pids of the IPv6 UDP sockets on `port_be` in the table `buf`
/// (`MIB_UDP6TABLE_OWNER_PID`); with `first_only`, at most the first.
pub fn udp6_pids_from_buf(buf: &Vec<u8>, port_be: u32, first_only: bool) -> (r: Vec<u32>)
    requires
        holds_rows(buf@, 28),
    ensures
        !first_only ==> r@ == table_pids(buf@, udp6_layout(), port_be),
        first_only ==> r@ == at_most_first(table_pids(buf@, udp6_layout(), port_be)),
{
    pids_from_table(buf, &udp6_layout_exec(), port_be, first_only)
}

// ---------------------------------------------------------------------------
// Port lookups
// ---------------------------------------------------------------------------

/// The four socket tables (`None` where a table could not be had).
pub struct SocketTables {
    pub tcp: Option<Vec<u8>>,
    pub tcp6: Option<Vec<u8>>,
    pub udp: Option<Vec<u8>>,
    pub udp6: Option<Vec<u8>>,
}

pub open spec fn opt_holds_rows(t: Option<Vec<u8>>, size: nat) -> bool {
    t matches Some(b) ==> holds_rows(b@, size)
}

/// Every table holds the rows it announces.
pub open spec fn tables_ok(t: SocketTables) -> bool {
    &&& opt_holds_rows(t.tcp, 24)
    &&& opt_holds_rows(t.tcp6, 56)
    &&& opt_holds_rows(t.udp, 12)
    &&& opt_holds_rows(t.udp6, 28)
}

/// `port` in network byte order, as `port.to_be() as u32` gives it on a
/// little-endian machine.
pub open spec fn network_port(port: u16) -> u32 {
    ((port as int % 256) * 256 + port as int / 256) as u32
}

pub open spec fn opt_table_pids(t: Option<Vec<u8>>, l: RowLayout, port: u16) -> Seq<u32> {
    match t {
        Some(b) => table_pids(b@, l, network_port(port)),
        None => seq![],
    }
}

/// The owners of `port` in the tables TCP, TCP6, UDP, UDP6, in that order,
/// each table in row order.
pub open spec fn port_pids(t: SocketTables, port: u16) -> Seq<u32> {
    opt_table_pids(t.tcp, tcp_layout(), port) + opt_table_pids(t.tcp6, tcp6_layout(), port)
        + opt_table_pids(t.udp, udp_layout(), port) + opt_table_pids(t.udp6, udp6_layout(), port)
}

fn network_port_exec(port: u16) -> (r: u32)
    ensures
        r == network_port(port),
{
    (port % 256) as u32 * 256 + (port / 256) as u32
}

/// Whether every table holds the rows it announces.
pub fn tables_hold_rows(t: &SocketTables) -> (r: bool)
    ensures
        r == tables_ok(*t),
{
    holds(&t.tcp, 24) && holds(&t.tcp6, 56) && holds(&t.udp, 12) && holds(&t.udp6, 28)
}

fn holds(t: &Option<Vec<u8>>, size: usize) -> (r: bool)
    requires
        size <= 64,
    ensures
        r == opt_holds_rows(*t, size as nat),
{
    match t {
        None => true,
        Some(b) => {
            if b.len() < 4 {
                return false;
            }
            let n = read_u32_le(b, 0) as u64;
            assert(n * size <= 0xffff_ffff * 64) by (nonlinear_arith)
                requires
                    n <= 0xffff_ffff,
                    size <= 64,
            ;
            4 + n * (size as u64) <= b.len() as u64
        },
    }
}

fn scan(t: &Option<Vec<u8>>, l: &RowLayout, port: u16, first_only: bool) -> (r: Vec<u32>)
    requires
        layout_ok(*l),
        opt_holds_rows(*t, l.size as nat),
    ensures
        !first_only ==> r@ == opt_table_pids(*t, *l, port),
        first_only ==> r@ == at_most_first(opt_table_pids(*t, *l, port)),
{
    match t {
        None => Vec::new(),
        Some(b) => pids_from_table(b, l, network_port_exec(port), first_only),
    }
}

/// The process on `port`: the first owner found in the tables TCP, TCP6,
/// UDP, UDP6, in that order.
pub fn find_pid_by_port(port: u16, tables: &SocketTables) -> (r: Option<u32>)
    requires
        tables_ok(*tables),
    ensures
        r == first_of(port_pids(*tables, port)),
{
    let ghost a = opt_table_pids(tables.tcp, tcp_layout(), port);
    let ghost b = opt_table_pids(tables.tcp6, tcp6_layout(), port);
    let ghost c = opt_table_pids(tables.udp, udp_layout(), port);
    let ghost d = opt_table_pids(tables.udp6, udp6_layout(), port);
    let mut r = scan(&tables.tcp, &tcp_layout_exec(), port, true);
    if r.len() == 0 {
        r = scan(&tables.tcp6, &tcp6_layout_exec(), port, true);
    }
    if r.len() == 0 {
        r = scan(&tables.udp, &udp_layout_exec(), port, true);
    }
    if r.len() == 0 {
        r = scan(&tables.udp6, &udp6_layout_exec(), port, true);
    }
    proof {
        let all = port_pids(*tables, port);
        assert(all == a + b + c + d);
        if a.len() > 0 {
            assert(all[0] == a[0]);
        } else if b.len() > 0 {
            assert(all[0] == b[0]);
        } else if c.len() > 0 {
            assert(all[0] == c[0]);
        } else if d.len() > 0 {
            assert(all[0] == d[0]);
        } else {
            assert(all.len() == 0);
        }
    }
    if r.len() > 0 {
        Some(r[0])
    } else {
        None
    }
}

/// Every owner of `port` in the four tables, in increasing order, each once.
pub fn find_pid_by_port_all(port: u16, tables: &SocketTables) -> (r: Vec<u32>)
    requires
        tables_ok(*tables),
    ensures
        strictly_increasing(r@),
        same_members(r@, port_pids(*tables, port)),
{
    let mut all = scan(&tables.tcp, &tcp_layout_exec(), port, false);
    let mut more = scan(&tables.tcp6, &tcp6_layout_exec(), port, false);
    all.append(&mut more);
    let mut more = scan(&tables.udp, &udp_layout_exec(), port, false);
    all.append(&mut more);
    let mut more = scan(&tables.udp6, &udp6_layout_exec(), port, false);
    all.append(&mut more);
    sort_dedup(&all)
}

/// Whether no process owns `port`.
pub fn is_port_available(port: u16, tables: &SocketTables) -> (r: bool)
    requires
        tables_ok(*tables),
    ensures
        r == (port_pids(*tables, port).len() == 0),
{
    find_pid_by_port(port, tables).is_none()
}

// ---------------------------------------------------------------------------
// Process snapshot
// ---------------------------------------------------------------------------

/// A process of a tool-help snapshot: its pid, its parent's pid, and the
/// bytes of its executable file name field.
pub struct ProcessEntry {
    pub pid: u32,
    pub parent: u32,
    pub exe_file: Vec<u8>,
}

/// The bytes of `b` before its first zero byte (all of them if none is).
pub open spec fn until_nul(b: Seq<u8>) -> Seq<u8>
    decreases b.len(),
{
    if b.len() == 0 {
        b
    } else if b[0] == 0 {
        seq![]
    } else {
        seq![b[0]] + until_nul(b.drop_first())
    }
}

/// The executable name of a snapshot entry, as text.
pub open spec fn exe_name(e: ProcessEntry) -> Seq<char> {
    utf8_lossy_of(until_nul(e.exe_file@))
}

/// The lower-cased executable name of each entry.
pub open spec fn lowered_names(procs: Seq<ProcessEntry>) -> Seq<Seq<char>> {
    procs.map_values(|e: ProcessEntry| lowercase_of(exe_name(e)))
}

/// The pids of the entries from the `i`-th on whose lowered name (the
/// `i`-th of `lowered`) contains `needle`, in snapshot order.
pub open spec fn chosen_from(
    procs: Seq<ProcessEntry>,
    lowered: Seq<Seq<char>>,
    needle: Seq<char>,
    i: nat,
) -> Seq<u32>
    decreases procs.len() - i,
{
    if i >= procs.len() {
        seq![]
    } else {
        let rest = chosen_from(procs, lowered, needle, i + 1);
        if i < lowered.len() && contains_spec(lowered[i as int], needle) {
            seq![procs[i as int].pid] + rest
        } else {
            rest
        }
    }
}

/// The pids of the entries from the `i`-th on that have a lowered name.
pub open spec fn eligible_from(procs: Seq<ProcessEntry>, lowered: Seq<Seq<char>>, i: nat) -> Seq<u32>
    decreases procs.len() - i,
{
    if i >= procs.len() {
        seq![]
    } else {
        let rest = eligible_from(procs, lowered, i + 1);
        if i < lowered.len() {
            seq![procs[i as int].pid] + rest
        } else {
            rest
        }
    }
}

fn name_bytes(b: &Vec<u8>) -> (r: Vec<u8>)
    ensures
        r@ == until_nul(b@),
{
    let mut k: usize = 0;
    while k < b.len() && b[k] != 0
        invariant
            k <= b.len(),
            forall|m: int| 0 <= m < k ==> b@[m] != 0,
        decreases b.len() - k,
    {
        k = k + 1;
    }
    let mut r: Vec<u8> = Vec::new();
    let mut j: usize = k;
    proof {
        lemma_until_nul_at(b@, k as int);
    }
    while j > 0
        invariant
            j <= k <= b.len(),
            forall|m: int| 0 <= m < k ==> b@[m] != 0,
            until_nul(b@) == b@.subrange(0, j as int) + until_nul(b@.skip(j as int)),
            r@ == until_nul(b@.skip(j as int)),
        decreases j,
    {
        proof {
            let s = b@.skip(j - 1);
            assert(s.drop_first() =~= b@.skip(j as int));
            assert(s[0] == b@[j - 1]);
            assert(b@.subrange(0, j - 1) + seq![b@[j - 1]] + until_nul(b@.skip(j as int))
                =~= b@.subrange(0, j as int) + until_nul(b@.skip(j as int)));
        }
        r.insert(0, b[j - 1]);
        assert(r@ =~= seq![b@[j - 1]] + until_nul(b@.skip(j as int)));
        j = j - 1;
    }
    assert(b@.subrange(0, 0) =~= seq![]);
    assert(b@.skip(0) =~= b@);
    r
}

proof fn lemma_until_nul_at(b: Seq<u8>, k: int)
    requires
        0 <= k <= b.len(),
        forall|m: int| 0 <= m < k ==> b[m] != 0,
        k == b.len() || b[k] == 0,
    ensures
        until_nul(b.skip(k)) == Seq::<u8>::empty(),
        until_nul(b) == b.subrange(0, k) + until_nul(b.skip(k)),
    decreases k,
{
    if k == 0 {
        assert(b.skip(0) =~= b);
        assert(b.subrange(0, 0) =~= seq![]);
        assert(seq![] + until_nul(b) =~= until_nul(b));
    } else {
        let t = b.drop_first();
        assert forall|m: int| 0 <= m < k - 1 implies t[m] != 0 by {
            assert(t[m] == b[m + 1]);
        }
        lemma_until_nul_at(t, k - 1);
        assert(t.skip(k - 1) =~= b.skip(k));
        assert(b.subrange(0, k) =~= seq![b[0]] + t.subrange(0, k - 1));
    }
}

/// Picks the entries whose lowered name (`lowered[i]` for the `i`-th entry
/// of `procs`) contains the lowered `needle`.
pub fn pids_with_names(procs: &Vec<ProcessEntry>, lowered: &Vec<Vec<char>>, needle: &Vec<char>) -> (r: Vec<u32>)
    ensures
        r@ == chosen_from(procs@, views(lowered@), needle@, 0),
{
    let ghost lw = views(lowered@);
    let mut result: Vec<u32> = Vec::new();
    let mut i: usize = 0;
    while i < procs.len()
        invariant
            i <= procs.len(),
            lw == views(lowered@),
            chosen_from(procs@, lw, needle@, 0) == result@ + chosen_from(procs@, lw, needle@, i as nat),
        decreases procs.len() - i,
    {
        let ghost rest = chosen_from(procs@, lw, needle@, (i + 1) as nat);
        if i < lowered.len() {
            assert(lw[i as int] == lowered@[i as int]@);
            if contains(&lowered[i], needle) {
                result.push(procs[i].pid);
                assert(chosen_from(procs@, lw, needle@, 0) =~= result@ + rest);
            }
        }
        i = i + 1;
    }
    result
}

/// The processes whose executable name contains `name`, ignoring case, in
/// snapshot order. For an ASCII `name`, the needle is `name` with `A`-`Z`
/// lowered.
pub fn find_pids_by_name(name: &Vec<char>, procs: &Vec<ProcessEntry>) -> (r: Vec<u32>)
    ensures
        r@ == chosen_from(procs@, lowered_names(procs@), lowercase_of(name@), 0),
        crate::text::is_ascii_text(name@) ==> r@ == chosen_from(
            procs@,
            lowered_names(procs@),
            crate::text::ascii_lower(name@),
            0,
        ),
{
    let needle = to_lowercase(name);
    let mut lowered: Vec<Vec<char>> = Vec::new();
    let mut i: usize = 0;
    while i < procs.len()
        invariant
            i <= procs.len(),
            views(lowered@) =~= lowered_names(procs@).take(i as int),
        decreases procs.len() - i,
    {
        let exe = decode_utf8_lossy(&name_bytes(&procs[i].exe_file));
        let lc = to_lowercase(&exe);
        let ghost before = lowered@;
        lowered.push(lc);
        assert(views(lowered@) =~= views(before).push(lowercase_of(exe_name(procs@[i as int]))));
        assert(lowered_names(procs@).take(i + 1) =~= lowered_names(procs@).take(i as int).push(
            lowercase_of(exe_name(procs@[i as int])),
        ));
        i = i + 1;
    }
    assert(views(lowered@) =~= lowered_names(procs@));
    pids_with_names(procs, &lowered, &needle)
}

/// A longer needle picks no more: when the lowered needle `b` contains the
/// lowered needle `a`, every process picked for `b` is picked for `a`.
pub proof fn law_name_lookup_narrows(
    procs: Seq<ProcessEntry>,
    lowered: Seq<Seq<char>>,
    a: Seq<char>,
    b: Seq<char>,
    i: nat,
)
    requires
        contains_spec(b, a),
    ensures
        forall|x: u32|
            chosen_from(procs, lowered, b, i).contains(x) ==> chosen_from(procs, lowered, a, i).contains(x),
    decreases procs.len() - i,
{
    if i < procs.len() {
        law_name_lookup_narrows(procs, lowered, a, b, i + 1);
        let rb = chosen_from(procs, lowered, b, i + 1);
        let ra = chosen_from(procs, lowered, a, i + 1);
        let cb = chosen_from(procs, lowered, b, i);
        let ca = chosen_from(procs, lowered, a, i);
        let picked = i < lowered.len() && contains_spec(lowered[i as int], b);
        if picked {
            crate::text::lemma_contains_trans(lowered[i as int], b, a);
            assert(cb == seq![procs[i as int].pid] + rb);
            assert(ca == seq![procs[i as int].pid] + ra);
        } else {
            assert(cb == rb);
        }
        assert forall|x: u32| cb.contains(x) implies ca.contains(x) by {
            let k = choose|k: int| 0 <= k < cb.len() && cb[k] == x;
            if picked && k == 0 {
                assert(ca[0] == x);
            } else {
                if picked {
                    assert(rb[k - 1] == x);
                } else {
                    assert(rb[k] == x);
                }
                assert(rb.contains(x));
                let m = choose|m: int| 0 <= m < ra.len() && ra[m] == x;
                if ca.len() == ra.len() + 1 {
                    assert(ca[m + 1] == x);
                } else {
                    assert(ca[m] == x);
                }
            }
        }
    }
}

/// The empty needle picks every entry.
pub proof fn law_empty_name_picks_all(procs: Seq<ProcessEntry>, lowered: Seq<Seq<char>>, i: nat)
    ensures
        chosen_from(procs, lowered, Seq::<char>::empty(), i) == eligible_from(procs, lowered, i),
    decreases procs.len() - i,
{
    if i < procs.len() {
        law_empty_name_picks_all(procs, lowered, i + 1);
        if i < lowered.len() {
            crate::text::lemma_contains_empty(lowered[i as int]);
        }
    }
}

// ---------------------------------------------------------------------------
// Process tree
// ---------------------------------------------------------------------------

/// The parent links of a snapshot, in snapshot order.
pub open spec fn snapshot_edges(procs: Seq<ProcessEntry>) -> Seq<Edge> {
    procs.map_values(|e: ProcessEntry| (e.pid, e.parent))
}

/// Plans the signals that take down `pid` and every process below it in the
/// snapshot `procs`: children deepest first, the root last. `None` when the
/// walk below `pid` goes round a cycle of parent links.
pub fn kill_tree(pid: u32, procs: &Vec<ProcessEntry>) -> (r: Option<KillPlan>)
    ensures
        r is None <==> level(snapshot_edges(procs@), pid, (procs@.len() + 1) as nat).len() > 0,
        r matches Some(plan) ==> planned(snapshot_edges(procs@), pid, plan),
{
    let mut edges: Vec<Edge> = Vec::new();
    let mut i: usize = 0;
    while i < procs.len()
        invariant
            i <= procs.len(),
            edges@ =~= snapshot_edges(procs@).take(i as int),
        decreases procs.len() - i,
    {
        edges.push((procs[i].pid, procs[i].parent));
        i = i + 1;
    }
    assert(edges@ =~= snapshot_edges(procs@));
    kill_plan(pid, &edges)
}

} // verus!

verus! {

/// The two port lookups agree: `find_pid_by_port` finds nothing exactly when
/// `find_pid_by_port_all` (here `all`) is empty, which is when the port is
/// available, and otherwise finds one of the pids of `all`.
pub proof fn law_port_lookups_agree(port: u16, tables: SocketTables, all: Seq<u32>)
    requires
        strictly_increasing(all),
        same_members(all, port_pids(tables, port)),
    ensures
        first_of(port_pids(tables, port)) is None <==> all.len() == 0,
        (port_pids(tables, port).len() == 0) <==> all.len() == 0,
        first_of(port_pids(tables, port)) matches Some(p) ==> all.contains(p),
{
    crate::pids::law_first_among_all(port_pids(tables, port), all);
}

} // verus!

verus! {

// ---------------------------------------------------------------------------
// Laws stated over the raw tables and the snapshot
// ---------------------------------------------------------------------------

proof fn lemma_rows_not_listening(buf: Seq<u8>, l: RowLayout, s: usize, port_be: u32, i: nat)
    requires
        l.state_at == Some(s),
        forall|j: int| i <= j < row_count(buf) ==> #[trigger] u32_le(buf, 4 + j * l.size + s) != 2,
    ensures
        rows_from(buf, l, port_be, i).len() == 0,
    decreases row_count(buf) - i,
{
    if i < row_count(buf) {
        assert(u32_le(buf, 4 + i * l.size + s) != 2);
        lemma_rows_not_listening(buf, l, s, port_be, i + 1);
    }
}

/// The table has no rows, or is missing.
pub open spec fn no_rows(t: Option<Vec<u8>>) -> bool {
    t matches Some(b) ==> row_count(b@) == 0
}

/// Every row of an IPv4 TCP table (24-byte rows, state in the first word)
/// has a state other than MIB_TCP_STATE_LISTEN (2).
pub open spec fn tcp_rows_not_listening(t: Option<Vec<u8>>) -> bool {
    t matches Some(b) ==> forall|j: int| 0 <= j < row_count(b@) ==> #[trigger] u32_le(b@, 4 + j * 24) != 2
}

/// Every row of an IPv6 TCP table (56-byte rows, state at byte 48) has a
/// state other than MIB_TCP_STATE_LISTEN (2).
pub open spec fn tcp6_rows_not_listening(t: Option<Vec<u8>>) -> bool {
    t matches Some(b) ==> forall|j: int|
        0 <= j < row_count(b@) ==> #[trigger] u32_le(b@, 4 + j * 56 + 48) != 2
}

/// A TCP row counts only when its state word is MIB_TCP_STATE_LISTEN (2):
/// when no TCP row listens (after a server has exited its sockets linger in
/// TIME_WAIT, state 11) and the UDP tables have no rows, no process owns the
/// port, so it is available.
pub proof fn law_closed_sockets_leave_port_free(tables: SocketTables, port: u16)
    requires
        tcp_rows_not_listening(tables.tcp),
        tcp6_rows_not_listening(tables.tcp6),
        no_rows(tables.udp),
        no_rows(tables.udp6),
    ensures
        port_pids(tables, port).len() == 0,
{
    let pb = network_port(port);
    if let Some(b) = tables.tcp {
        let l = tcp_layout();
        assert forall|j: int| 0 <= j < row_count(b@) implies #[trigger] u32_le(b@, 4 + j * l.size + 0) != 2 by {
            assert(4 + j * l.size + 0 == 4 + j * 24);
            assert(u32_le(b@, 4 + j * 24) != 2);
        }
        lemma_rows_not_listening(b@, l, 0, pb, 0);
    }
    if let Some(b) = tables.tcp6 {
        let l = tcp6_layout();
        assert forall|j: int| 0 <= j < row_count(b@) implies #[trigger] u32_le(b@, 4 + j * l.size + 48) != 2 by {
            assert(u32_le(b@, 4 + j * 56 + 48) != 2);
        }
        lemma_rows_not_listening(b@, l, 48, pb, 0);
    }
}

/// The bytes of `b` before its first zero byte: a prefix of `b` without a
/// zero byte, ending where `b` ends or at a zero byte.
pub proof fn law_name_ends_at_first_nul(b: Seq<u8>)
    ensures
        until_nul(b).len() <= b.len(),
        until_nul(b) == b.take(until_nul(b).len() as int),
        forall|k: int| 0 <= k < until_nul(b).len() ==> until_nul(b)[k] != 0,
        until_nul(b).len() == b.len() || b[until_nul(b).len() as int] == 0,
    decreases b.len(),
{
    if b.len() > 0 && b[0] != 0 {
        let t = b.drop_first();
        law_name_ends_at_first_nul(t);
        let r = until_nul(b);
        assert(r == seq![b[0]] + until_nul(t));
        assert(r =~= b.take(r.len() as int));
        assert forall|k: int| 0 <= k < r.len() implies r[k] != 0 by {
            if k > 0 {
                assert(r[k] == until_nul(t)[k - 1]);
            }
        }
        if r.len() < b.len() {
            assert(b[r.len() as int] == t[until_nul(t).len() as int]);
        }
    } else if b.len() > 0 {
        assert(b.take(0) =~= Seq::<u8>::empty());
    } else {
        assert(b.take(0) =~= b);
    }
}

/// The whole executable name is matched: an entry is picked exactly when
/// the lowered text of all the bytes of its name field before the first
/// zero byte contains the needle.
pub proof fn law_whole_exe_name_is_matched(procs: Seq<ProcessEntry>, needle: Seq<char>, i: nat, k: int)
    requires
        i <= k < procs.len(),
    ensures
        contains_spec(lowercase_of(utf8_lossy_of(until_nul(procs[k].exe_file@))), needle)
            ==> chosen_from(procs, lowered_names(procs), needle, i).contains(procs[k].pid),
    decreases k - i,
{
    let lw = lowered_names(procs);
    let here = chosen_from(procs, lw, needle, i);
    let rest = chosen_from(procs, lw, needle, i + 1);
    if contains_spec(lowercase_of(utf8_lossy_of(until_nul(procs[k].exe_file@))), needle) {
        if i == k {
            assert(lw[k] == lowercase_of(utf8_lossy_of(until_nul(procs[k].exe_file@))));
            assert(here[0] == procs[k].pid);
        } else {
            law_whole_exe_name_is_matched(procs, needle, i + 1, k);
            let m = choose|m: int| 0 <= m < rest.len() && rest[m] == procs[k].pid;
            if here.len() == rest.len() + 1 {
                assert(here[m + 1] == procs[k].pid);
            } else {
                assert(here[m] == procs[k].pid);
            }
        }
    }
}

/// Only matching entries are picked: every pid picked belongs to an entry
/// whose whole lowered executable name contains the needle.
pub proof fn law_only_matching_exe_names(procs: Seq<ProcessEntry>, needle: Seq<char>, i: nat, x: u32)
    ensures
        chosen_from(procs, lowered_names(procs), needle, i).contains(x) ==> exists|k: int|
            i <= k < procs.len() && procs[k].pid == x && contains_spec(
                lowercase_of(utf8_lossy_of(until_nul(#[trigger] procs[k].exe_file@))),
                needle,
            ),
    decreases procs.len() - i,
{
    let lw = lowered_names(procs);
    let here = chosen_from(procs, lw, needle, i);
    let rest = chosen_from(procs, lw, needle, i + 1);
    if i < procs.len() && here.contains(x) {
        law_only_matching_exe_names(procs, needle, i + 1, x);
        let m = choose|m: int| 0 <= m < here.len() && here[m] == x;
        let picked = contains_spec(lw[i as int], needle);
        if picked && m == 0 {
            assert(lw[i as int] == lowercase_of(utf8_lossy_of(until_nul(procs[i as int].exe_file@))));
            assert(procs[i as int].pid == x);
        } else {
            if picked {
                assert(rest[m - 1] == x);
            } else {
                assert(rest[m] == x);
            }
            assert(rest.contains(x));
        }
    }
}

/// A plan takes every child: when the walk below `pid` ends (the plan is
/// made), every snapshot entry other than `pid` whose parent is `pid`, or is
/// itself among the plan's children, is among the plan's children, whatever
/// the order of the entries and of the pids.
pub proof fn law_plan_takes_every_child(procs: Seq<ProcessEntry>, pid: u32, plan: KillPlan, i: int)
    requires
        level(snapshot_edges(procs), pid, (procs.len() + 1) as nat).len() == 0,
        planned(snapshot_edges(procs), pid, plan),
        0 <= i < procs.len(),
        procs[i].pid != pid,
        procs[i].parent == pid || plan.children@.contains(procs[i].parent),
    ensures
        plan.children@.contains(procs[i].pid),
{
    let edges = snapshot_edges(procs);
    let k = (edges.len() + 1) as nat;
    let w = walk_upto(edges, pid, k);
    assert(edges.len() == procs.len());
    let parent = procs[i].parent;
    let child = procs[i].pid;
    assert(edges[i] == (child, parent));
    assert(edges.contains((child, parent)));
    if parent == pid {
        assert(level(edges, pid, 0) == seq![pid]);
        assert(level(edges, pid, 0)[0] == pid);
        assert(level(edges, pid, 0).contains(pid));
        crate::tree::lemma_walk_members(edges, pid, k, pid);
    } else {
        crate::tree::law_kill_order_members(w, pid, parent);
    }
    assert(w.contains(parent));
    crate::tree::law_finished_walk_is_complete(edges, pid, k, parent, child);
    crate::tree::law_kill_order_members(w, pid, child);
}

} // verus!

verus! {

proof fn lemma_row_found(buf: Seq<u8>, l: RowLayout, port_be: u32, i: nat, j: nat)
    requires
        i <= j < row_count(buf),
        row_matches(buf, l, 4 + j * l.size, port_be),
    ensures
        rows_from(buf, l, port_be, i).contains(u32_le(buf, 4 + j * l.size + l.pid_at) as u32),
    decreases j - i,
{
    let x = u32_le(buf, 4 + j * l.size + l.pid_at) as u32;
    let here = rows_from(buf, l, port_be, i);
    let rest = rows_from(buf, l, port_be, i + 1);
    if i == j {
        assert(here[0] == x);
    } else {
        lemma_row_found(buf, l, port_be, i + 1, j);
        let m = choose|m: int| 0 <= m < rest.len() && rest[m] == x;
        if here.len() == rest.len() + 1 {
            assert(here[m + 1] == x);
        } else {
            assert(here[m] == x);
        }
    }
}

/// A listener in the IPv4 TCP table is found: a row whose state word is
/// MIB_TCP_STATE_LISTEN (2) and whose port word holds the port in network
/// byte order in its low 16 bits (whatever its upper bits) makes the row's
/// owning pid one of the port's owners.
pub proof fn law_tcp_listener_is_found(tables: SocketTables, port: u16, j: int)
    requires
        tables.tcp matches Some(b) && 0 <= j < row_count(b@) && u32_le(b@, 4 + j * 24) == 2 && u32_le(
            b@,
            4 + j * 24 + 8,
        ) % 65536 == network_port(port),
    ensures
        port_pids(tables, port).contains(u32_le(tables.tcp.unwrap()@, 4 + j * 24 + 20) as u32),
{
    let b = tables.tcp.unwrap();
    let l = tcp_layout();
    assert(4 + j * l.size == 4 + j * 24);
    lemma_row_found(b@, l, network_port(port), 0, j as nat);
    let a = opt_table_pids(tables.tcp, tcp_layout(), port);
    let x = u32_le(b@, 4 + j * 24 + 20) as u32;
    let m = choose|m: int| 0 <= m < a.len() && a[m] == x;
    let all = port_pids(tables, port);
    assert(all == a + (opt_table_pids(tables.tcp6, tcp6_layout(), port) + opt_table_pids(
        tables.udp,
        udp_layout(),
        port,
    ) + opt_table_pids(tables.udp6, udp6_layout(), port)));
    assert(all[m] == x);
}

/// A UDP row counts whatever its other fields: a row of the IPv4 UDP table
/// whose port word holds the port in network byte order in its low 16 bits
/// makes the row's owning pid one of the port's owners.
pub proof fn law_udp_socket_is_found(tables: SocketTables, port: u16, j: int)
    requires
        tables.udp matches Some(b) && 0 <= j < row_count(b@) && u32_le(b@, 4 + j * 12 + 4) % 65536
            == network_port(port),
    ensures
        port_pids(tables, port).contains(u32_le(tables.udp.unwrap()@, 4 + j * 12 + 8) as u32),
{
    let b = tables.udp.unwrap();
    let l = udp_layout();
    assert(4 + j * l.size == 4 + j * 12);
    lemma_row_found(b@, l, network_port(port), 0, j as nat);
    let a = opt_table_pids(tables.udp, udp_layout(), port);
    let x = u32_le(b@, 4 + j * 12 + 8) as u32;
    let m = choose|m: int| 0 <= m < a.len() && a[m] == x;
    let pre = opt_table_pids(tables.tcp, tcp_layout(), port) + opt_table_pids(tables.tcp6, tcp6_layout(), port);
    let all = port_pids(tables, port);
    assert(all == pre + a + opt_table_pids(tables.udp6, udp6_layout(), port));
    assert(all[pre.len() + m] == x);
}

} // verus!

verus! {

// ---------------------------------------------------------------------------
// Laws of the IPv6 tables, stated over the bytes of the rows
// ---------------------------------------------------------------------------

/// The two bytes at `at` hold `port` in network byte order: the high byte
/// first.
pub open spec fn port_bytes_at(b: Seq<u8>, at: int, port: u16) -> bool {
    b[at] == port / 256 && b[at + 1] == port % 256
}

/// The four bytes at `at` hold MIB_TCP_STATE_LISTEN (2), least significant
/// byte first.
pub open spec fn listen_bytes_at(b: Seq<u8>, at: int) -> bool {
    b[at] == 2 && b[at + 1] == 0 && b[at + 2] == 0 && b[at + 3] == 0
}

/// The number that the four bytes at `at` hold, least significant first.
pub open spec fn le_bytes_value(b: Seq<u8>, at: int) -> int {
    b[at] + 256 * b[at + 1] + 65536 * b[at + 2] + 16777216 * b[at + 3]
}

proof fn lemma_port_word(b: Seq<u8>, at: int, port: u16)
    requires
        port_bytes_at(b, at, port),
    ensures
        u32_le(b, at) % 65536 == network_port(port),
{
    let x = b[at] + b[at + 1] * 256;
    let y = b[at + 2] + b[at + 3] * 256;
    assert(0 <= x < 65536);
    assert(y >= 0);
    assert(u32_le(b, at) == x + y * 65536);
    assert((x + y * 65536) % 65536 == x) by (nonlinear_arith)
        requires
            0 <= x < 65536,
            y >= 0,
    ;
    assert(network_port(port) == (port as int % 256) * 256 + port as int / 256);
}

/// A listener in the IPv6 TCP table is found: in a table whose first four
/// bytes count more than `j` rows of 56 bytes, a row whose state (bytes 48
/// to 51) is MIB_TCP_STATE_LISTEN and whose local port (bytes 20 and 21)
/// holds the port high byte first makes its owning pid (bytes 52 to 55)
/// one of the port's owners.
pub proof fn law_tcp6_listener_is_found(tables: SocketTables, port: u16, j: int)
    requires
        tables.tcp6 matches Some(b) && 0 <= j < le_bytes_value(b@, 0) && listen_bytes_at(
            b@,
            4 + j * 56 + 48,
        ) && port_bytes_at(b@, 4 + j * 56 + 20, port),
    ensures
        port_pids(tables, port).contains(le_bytes_value(tables.tcp6.unwrap()@, 4 + j * 56 + 52) as u32),
{
    let b = tables.tcp6.unwrap();
    let l = tcp6_layout();
    let base = 4 + j * 56;
    assert(4 + j * l.size == base);
    lemma_port_word(b@, base + 20, port);
    assert(row_matches(b@, l, base, network_port(port)));
    lemma_row_found(b@, l, network_port(port), 0, j as nat);
    let a = opt_table_pids(tables.tcp6, tcp6_layout(), port);
    let x = u32_le(b@, base + 52) as u32;
    assert(x == le_bytes_value(b@, base + 52) as u32);
    let m = choose|m: int| 0 <= m < a.len() && a[m] == x;
    let pre = opt_table_pids(tables.tcp, tcp_layout(), port);
    let all = port_pids(tables, port);
    assert(all == pre + a + (opt_table_pids(tables.udp, udp_layout(), port) + opt_table_pids(
        tables.udp6,
        udp6_layout(),
        port,
    )));
    assert(all[pre.len() + m] == x);
}

/// A socket in the IPv6 UDP table is found: in a table whose first four
/// bytes count more than `j` rows of 28 bytes, a row whose local port
/// (bytes 20 and 21) holds the port high byte first makes its owning pid
/// (bytes 24 to 27) one of the port's owners.
pub proof fn law_udp6_socket_is_found(tables: SocketTables, port: u16, j: int)
    requires
        tables.udp6 matches Some(b) && 0 <= j < le_bytes_value(b@, 0) && port_bytes_at(
            b@,
            4 + j * 28 + 20,
            port,
        ),
    ensures
        port_pids(tables, port).contains(le_bytes_value(tables.udp6.unwrap()@, 4 + j * 28 + 24) as u32),
{
    let b = tables.udp6.unwrap();
    let l = udp6_layout();
    let base = 4 + j * 28;
    assert(4 + j * l.size == base);
    lemma_port_word(b@, base + 20, port);
    assert(row_matches(b@, l, base, network_port(port)));
    lemma_row_found(b@, l, network_port(port), 0, j as nat);
    let a = opt_table_pids(tables.udp6, udp6_layout(), port);
    let x = u32_le(b@, base + 24) as u32;
    assert(x == le_bytes_value(b@, base + 24) as u32);
    let m = choose|m: int| 0 <= m < a.len() && a[m] == x;
    let pre = opt_table_pids(tables.tcp, tcp_layout(), port) + opt_table_pids(tables.tcp6, tcp6_layout(), port)
        + opt_table_pids(tables.udp, udp_layout(), port);
    let all = port_pids(tables, port);
    assert(all == pre + a);
    assert(all[pre.len() + m] == x);
}

/// The port is compared in network byte order: a port word whose two low
/// bytes hold the port high byte first (whatever its upper bytes) is what a
/// row bound to the port holds.
pub proof fn law_port_word_is_network_order(b: Seq<u8>, at: int, port: u16)
    requires
        0 <= at,
        at + 4 <= b.len(),
        port_bytes_at(b, at, port),
    ensures
        u32_le(b, at) % 65536 == network_port(port),
{
    lemma_port_word(b, at, port);
}

} // verus!
