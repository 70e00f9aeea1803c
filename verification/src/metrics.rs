//! Values that the monitor samples and shows: memory figures read from
//! `/proc/meminfo`, the keys by which the process list is sorted, and the
//! integer arithmetic and text behind the figures on the dashboard (memory in
//! use, network totals, disk usage, uptimes and timestamps, per-process
//! shared memory and priority).
use vstd::prelude::*;
use crate::parsers::{
    find_char_from, find_char_in, parse_priority_from_stat, parse_statm_shared_pages,
    priority_of_stat, range_equals, sat_add, sat_mul, saturating_mul_u64, statm_shared_pages,
};
use crate::text::{
    chars_of, dec, extend_str, line_ranges, lines, pad_left, parse_u64, push_dec, push_padded_left,
    ranges_in, slices, string_from_chars, trim, trim_range, u64_of, word_ranges, words, dec_chars,
};

verus! {

/// Memory information from /proc/meminfo, in bytes.
pub struct MemInfo {
    pub total: u64,
    pub free: u64,
    pub buffers: u64,
    pub cached: u64,
    pub sreclaimable: u64,
    pub shmem: u64,
    pub available: u64,
}

/// Process sorting keys
#[derive(Clone, Copy, PartialEq, Eq, Debug, Structural)]
pub enum SortKey {
    Cpu,
    Mem,
    Power,
}

// ---------------------------------------------------------------------------
// Arithmetic
// ---------------------------------------------------------------------------
/// `a - b`, or zero where `b` is larger (`u64::saturating_sub`).
pub open spec fn sat_sub(a: u64, b: u64) -> u64 {
    if a >= b {
        (a - b) as u64
    } else {
        0
    }
}

fn saturating_sub_u64(a: u64, b: u64) -> (r: u64)
    ensures
        r == sat_sub(a, b),
{
    if a >= b {
        a - b
    } else {
        0
    }
}

fn saturating_add_u64(a: u64, b: u64) -> (r: u64)
    ensures
        r == sat_add(a as nat, b as nat),
{
    match a.checked_add(b) {
        Some(v) => v,
        None => u64::MAX,
    }
}

// ---------------------------------------------------------------------------
// Memory
// ---------------------------------------------------------------------------
/// The memory in use: total less free, buffers and the cache that can be
/// reclaimed (cached plus reclaimable slabs, less shared memory), all
/// saturated; where that comes out as zero (or above the total) and the
/// kernel reports available memory, total less available.
pub open spec fn used_memory(m: MemInfo) -> u64 {
    let effective_cache = sat_sub(sat_add(m.cached as nat, m.sreclaimable as nat), m.shmem);
    let used = sat_sub(
        m.total,
        sat_add(sat_add(m.free as nat, m.buffers as nat) as nat, effective_cache as nat),
    );
    if m.available > 0 && (used == 0 || used > m.total) {
        sat_sub(m.total, m.available)
    } else {
        used
    }
}

/// The memory in use, in bytes, by the figures of `/proc/meminfo`.
pub fn memory_used(mi: &MemInfo) -> (r: u64)
    ensures
        r == used_memory(*mi),
{
    let effective_cache = saturating_sub_u64(saturating_add_u64(mi.cached, mi.sreclaimable), mi.shmem);
    let mut used = saturating_sub_u64(
        mi.total,
        saturating_add_u64(saturating_add_u64(mi.free, mi.buffers), effective_cache),
    );
    if mi.available > 0 && (used == 0 || used > mi.total) {
        used = saturating_sub_u64(mi.total, mi.available);
    }
    used
}

/// The memory in use never exceeds the total.
pub proof fn lemma_used_within_total(m: MemInfo)
    ensures
        used_memory(m) <= m.total,
{
}

// ---------------------------------------------------------------------------
// Network
// ---------------------------------------------------------------------------
/// The bytes received and sent that one line of `/proc/net/dev` counts: an
/// interface other than `lo` with at least sixteen figures, whose first and
/// ninth figures are numbers.
pub open spec fn net_line_counts(line: Seq<char>) -> Option<(u64, u64)> {
    let l = trim(line);
    if l.len() == 0 || !l.contains(':') {
        None
    } else {
        let c1 = find_char_from(l, ':', 0);
        let c2 = find_char_from(l, ':', c1 + 1);
        let iface = trim(l.take(c1));
        let stats = words(l.subrange(c1 + 1, c2));
        if iface == seq!['l', 'o'] || stats.len() < 16 {
            None
        } else {
            match (u64_of(stats[0]), u64_of(stats[8])) {
                (Some(r), Some(s)) => Some((r, s)),
                _ => None,
            }
        }
    }
}

/// The received and sent totals of the lines `ls`, each saturated.
pub open spec fn net_fold(ls: Seq<Seq<char>>) -> (u64, u64)
    decreases ls.len(),
{
    if ls.len() == 0 {
        (0, 0)
    } else {
        let t = net_fold(ls.drop_last());
        match net_line_counts(ls.last()) {
            None => t,
            Some((r, s)) => (sat_add(t.0 as nat, r as nat), sat_add(t.1 as nat, s as nat)),
        }
    }
}

/// The network totals that the text of `/proc/net/dev` gives: the sums over
/// the interface lines (after the two header lines).
pub open spec fn net_totals_of(content: Seq<char>) -> (u64, u64) {
    let ls = lines(content);
    if ls.len() <= 2 {
        (0, 0)
    } else {
        net_fold(ls.skip(2))
    }
}

/// Whether `chars[a..b]` holds `c`.
fn range_has(chars: &Vec<char>, a: usize, b: usize, c: char) -> (r: bool)
    requires
        a <= b <= chars.len(),
    ensures
        r == chars@.subrange(a as int, b as int).contains(c),
{
    let ghost l = chars@.subrange(a as int, b as int);
    let mut i = a;
    while i < b
        invariant
            a <= i <= b <= chars.len(),
            l == chars@.subrange(a as int, b as int),
            forall|k: int| a <= k < i ==> chars@[k] != c,
        decreases b - i,
    {
        if chars[i] == c {
            assert(l[i - a] == c);
            return true;
        }
        i = i + 1;
    }
    assert forall|k: int| 0 <= k < l.len() implies l[k] != c by {
        assert(l[k] == chars@[a + k]);
    }
    false
}

/// The counts of line `chars[a..b]` of `/proc/net/dev`.
fn net_line(chars: &Vec<char>, a: usize, b: usize) -> (r: Option<(u64, u64)>)
    requires
        a <= b <= chars.len(),
    ensures
        r == net_line_counts(chars@.subrange(a as int, b as int)),
{
    let ghost line = chars@.subrange(a as int, b as int);
    let (la, lb) = trim_range(chars, a, b);
    let ghost l = chars@.subrange(la as int, lb as int);
    assert(l == trim(line));
    if la == lb || !range_has(chars, la, lb, ':') {
        return None;
    }
    let c1 = find_char_in(chars, la, lb, ':', la);
    assert(c1 - la == find_char_from(l, ':', 0));
    assert(c1 < lb) by {
        let k = choose|k: int| 0 <= k < l.len() && l[k] == ':';
        lemma_find_char_found(l, ':', 0, k);
    }
    let c2 = find_char_in(chars, la, lb, ':', c1 + 1);
    assert(c2 - la == find_char_from(l, ':', c1 - la + 1));
    assert(l.take(c1 - la) =~= chars@.subrange(la as int, c1 as int));
    assert(l.subrange(c1 - la + 1, c2 - la) =~= chars@.subrange(c1 + 1, c2 as int));
    let (ia, ib) = trim_range(chars, la, c1);
    let ws = word_ranges(chars, c1 + 1, c2);
    let ghost w = slices(chars@, ws@);
    let lo: Vec<char> = vec!['l', 'o'];
    if range_equals(chars, ia, ib, &lo) || ws.len() < 16 {
        return None;
    }
    let (x0, y0) = ws[0];
    let (x8, y8) = ws[8];
    assert(w[0] == chars@.subrange(x0 as int, y0 as int));
    assert(w[8] == chars@.subrange(x8 as int, y8 as int));
    match (parse_u64(chars, x0, y0), parse_u64(chars, x8, y8)) {
        (Some(r), Some(s)) => Some((r, s)),
        _ => None,
    }
}

/// `find_char_from` finds a character that occurs at or after its start.
proof fn lemma_find_char_found(s: Seq<char>, c: char, k: int, at: int)
    requires
        0 <= k <= at < s.len(),
        s[at] == c,
    ensures
        k <= find_char_from(s, c, k) <= at,
    decreases at - k,
{
    if s[k] != c {
        lemma_find_char_found(s, c, k + 1, at);
    }
}

/// The bytes received and sent over all interfaces but `lo`, from the text
/// of `/proc/net/dev`.
pub fn parse_net_totals(content: &str) -> (r: (u64, u64))
    ensures
        r == net_totals_of(content@),
{
    let chars = chars_of(content);
    let ls = line_ranges(&chars);
    let ghost all = slices(chars@, ls@);
    let ghost body = all.skip(2);
    let mut recv: u64 = 0;
    let mut sent: u64 = 0;
    let mut i: usize = 2;
    if ls.len() <= 2 {
        return (0, 0);
    }
    assert(body.take(0) =~= seq![]);
    while i < ls.len()
        invariant
            2 <= i <= ls.len(),
            ranges_in(ls@, 0, chars.len() as int),
            all == slices(chars@, ls@),
            body == all.skip(2),
            (recv, sent) == net_fold(body.take(i - 2)),
        decreases ls.len() - i,
    {
        let (a, b) = ls[i];
        assert(all[i as int] == chars@.subrange(a as int, b as int));
        let ghost t = body.take(i - 1);
        assert(t.drop_last() =~= body.take(i - 2));
        assert(t.last() == all[i as int]);
        match net_line(&chars, a, b) {
            None => {},
            Some((r, s)) => {
                recv = saturating_add_u64(recv, r);
                sent = saturating_add_u64(sent, s);
            },
        }
        i = i + 1;
    }
    assert(body.take(ls.len() - 2) =~= body);
    (recv, sent)
}

// ---------------------------------------------------------------------------
// Disk
// ---------------------------------------------------------------------------
/// Whether a line of `/proc/mounts` mounts the root filesystem: its second
/// word is `/`.
pub open spec fn mounts_root(line: Seq<char>) -> bool {
    words(line).len() >= 2 && words(line)[1] == seq!['/']
}

/// The number of the lines `ls` that mount the root filesystem.
pub open spec fn root_count(ls: Seq<Seq<char>>) -> nat
    decreases ls.len(),
{
    if ls.len() == 0 {
        0
    } else {
        root_count(ls.drop_last()) + if mounts_root(ls.last()) {
            1nat
        } else {
            0nat
        }
    }
}

/// How many lines of the text of `/proc/mounts` mount the root filesystem
/// (each is a chance to ask the filesystem for its size).
pub fn root_mount_lines(mounts: &str) -> (r: usize)
    ensures
        r == root_count(lines(mounts@)),
{
    let chars = chars_of(mounts);
    let ls = line_ranges(&chars);
    let ghost all = slices(chars@, ls@);
    let slash: Vec<char> = vec!['/'];
    let mut n: usize = 0;
    let mut i: usize = 0;
    while i < ls.len()
        invariant
            i <= ls.len(),
            ranges_in(ls@, 0, chars.len() as int),
            all == slices(chars@, ls@),
            slash@ == seq!['/'],
            n == root_count(all.take(i as int)),
            n <= i,
        decreases ls.len() - i,
    {
        let (a, b) = ls[i];
        assert(all[i as int] == chars@.subrange(a as int, b as int));
        let ghost t = all.take(i + 1);
        assert(t.drop_last() =~= all.take(i as int));
        assert(t.last() == all[i as int]);
        let ws = word_ranges(&chars, a, b);
        let ghost w = slices(chars@, ws@);
        if ws.len() >= 2 {
            let (x, y) = ws[1];
            assert(w[1] == chars@.subrange(x as int, y as int));
            if range_equals(&chars, x, y, &slash) {
                n = n + 1;
            }
        }
        i = i + 1;
    }
    assert(all.take(ls.len() as int) =~= all);
    n
}

/// The size and the used space of a filesystem with `blocks` blocks of
/// `frsize` bytes, `bavail` of them available: `(total, used)`, saturated.
pub open spec fn disk_figures(blocks: u64, bavail: u64, frsize: u64) -> (u64, u64) {
    let total = sat_mul(blocks, frsize);
    (total, sat_sub(total, sat_mul(bavail, frsize)))
}

/// The size and the used space of the root filesystem from its block counts.
pub fn disk_totals(blocks: u64, bavail: u64, frsize: u64) -> (r: (u64, u64))
    ensures
        r == disk_figures(blocks, bavail, frsize),
{
    let total = saturating_mul_u64(blocks, frsize);
    let available = saturating_mul_u64(bavail, frsize);
    (total, saturating_sub_u64(total, available))
}

// ---------------------------------------------------------------------------
// Per-process figures
// ---------------------------------------------------------------------------
/// The page size that the system reports, or 4096 where it reports none.
pub fn page_size_from(reported: i64) -> (r: u64)
    ensures
        r == if reported <= 0 {
            4096
        } else {
            reported as u64
        },
{
    if reported <= 0 {
        4096
    } else {
        reported as u64
    }
}

/// The shared memory of a process from the text of its `/proc/<pid>/statm`:
/// the shared pages times the page size, saturated, or zero where the text
/// gives no page count.
pub fn shared_bytes(content: &str, page_size: u64) -> (r: u64)
    ensures
        r == match statm_shared_pages(content@) {
            Ok(p) => sat_mul(p, page_size),
            Err(_) => 0,
        },
{
    match parse_statm_shared_pages(content) {
        Ok(p) => saturating_mul_u64(p, page_size),
        Err(_) => 0,
    }
}

/// The priority of a process from the text of its `/proc/<pid>/stat`, or
/// zero where the text gives none.
pub fn process_priority(content: &str) -> (r: i64)
    ensures
        r == match priority_of_stat(content@) {
            Ok(v) => v,
            Err(_) => 0,
        },
{
    match parse_priority_from_stat(content) {
        Ok(v) => v,
        Err(_) => 0,
    }
}

// ---------------------------------------------------------------------------
// Times
// ---------------------------------------------------------------------------
/// `{:02}` of a number.
pub open spec fn two_digits(n: nat) -> Seq<char> {
    pad_left(dec(n), 2, '0')
}

/// A span of seconds as the dashboard shows it: `D d HH:MM:SS` where it
/// lasts a day or more, else `HH:MM:SS`.
pub open spec fn uptime_text(seconds: nat) -> Seq<char> {
    let days = seconds / 86400;
    let rem = seconds % 86400;
    let clock = two_digits(rem / 3600) + seq![':'] + two_digits((rem % 3600) / 60) + seq![':']
        + two_digits(rem % 60);
    if days > 0 {
        dec(days) + seq!['d', ' '] + clock
    } else {
        clock
    }
}

/// Appends `{:02}` of `n`.
fn push_two_digits(out: &mut Vec<char>, n: u64)
    ensures
        final(out)@ == old(out)@ + two_digits(n as nat),
{
    let d = dec_chars(n);
    push_padded_left(out, &d, 2, '0');
}

/// The uptime of `seconds` as the dashboard shows it.
pub fn human_uptime(seconds: u64) -> (r: String)
    ensures
        r@ == uptime_text(seconds as nat),
{
    let days = seconds / 86400;
    let rem = seconds % 86400;
    let mut out: Vec<char> = Vec::new();
    if days > 0 {
        push_dec(&mut out, days);
        out.push('d');
        out.push(' ');
    }
    push_two_digits(&mut out, rem / 3600);
    out.push(':');
    push_two_digits(&mut out, (rem % 3600) / 60);
    out.push(':');
    push_two_digits(&mut out, rem % 60);
    assert(out@ =~= uptime_text(seconds as nat));
    string_from_chars(&out)
}

/// The timestamp shown in the title bar for `secs` seconds since the epoch.
pub fn now_text(secs: u64) -> (r: String)
    ensures
        r@ == "unix:"@ + dec(secs as nat),
{
    let mut out: Vec<char> = Vec::new();
    extend_str(&mut out, "unix:");
    push_dec(&mut out, secs);
    string_from_chars(&out)
}

// ---------------------------------------------------------------------------
// Layout
// ---------------------------------------------------------------------------
/// The number of columns of the CPU core grid for a panel `panel_width` wide:
/// one per 18 columns inside the border, at least one, at most four and at
/// most one per core.
pub open spec fn core_columns(panel_width: nat, core_count: nat) -> nat {
    let inner = if panel_width >= 2 {
        (panel_width - 2) as nat
    } else {
        0
    };
    let by_width = if inner / 18 >= 1 {
        inner / 18
    } else {
        1
    };
    let cores = if core_count >= 1 {
        core_count
    } else {
        1
    };
    let cap = if by_width <= 4 {
        by_width
    } else {
        4
    };
    if cores <= cap {
        cores
    } else {
        cap
    }
}

/// The number of columns of the CPU core grid.
pub fn cpu_core_columns(panel_width: usize, core_count: usize) -> (r: usize)
    ensures
        r == core_columns(panel_width as nat, core_count as nat),
        1 <= r <= 4,
{
    let inner = if panel_width >= 2 {
        panel_width - 2
    } else {
        0
    };
    let by_width = if inner / 18 >= 1 {
        inner / 18
    } else {
        1
    };
    let cores = if core_count >= 1 {
        core_count
    } else {
        1
    };
    let cap = if by_width <= 4 {
        by_width
    } else {
        4
    };
    if cores <= cap {
        cores
    } else {
        cap
    }
}

/// The cells of a usage bar: `fill` full cells (clamped to the bar) then
/// empty ones, in a bar at least ten cells wide.
pub open spec fn bar_cells(fill: int, width: nat) -> Seq<char> {
    let w: nat = if width >= 10 {
        width
    } else {
        10
    };
    let f: nat = if fill <= 0 {
        0
    } else if fill >= w {
        w
    } else {
        fill as nat
    };
    Seq::new(f, |i: int| '█') + Seq::new((w - f) as nat, |i: int| '░')
}

/// The width of a usage bar asked to be `width` cells: at least ten.
pub fn bar_width(width: usize) -> (r: usize)
    ensures
        r == if width >= 10 {
            width
        } else {
            10
        },
{
    if width >= 10 {
        width
    } else {
        10
    }
}

/// A usage bar `width` cells wide (at least ten) with `fill` of them full.
pub fn progress_bar_text(fill: isize, width: usize) -> (r: String)
    ensures
        r@ == bar_cells(fill as int, width as nat),
{
    let w = bar_width(width);
    let f: usize = if fill <= 0 {
        0
    } else if fill as usize >= w {
        w
    } else {
        fill as usize
    };
    let mut out: Vec<char> = Vec::new();
    let mut i: usize = 0;
    while i < w
        invariant
            i <= w,
            f <= w,
            out@ == Seq::new(if i <= f {
                i as nat
            } else {
                f as nat
            }, |k: int| '█') + Seq::new(if i <= f {
                0nat
            } else {
                (i - f) as nat
            }, |k: int| '░'),
        decreases w - i,
    {
        let ghost before = out@;
        if i < f {
            out.push('█');
            assert(out@ =~= Seq::new((i + 1) as nat, |k: int| '█') + Seq::new(0nat, |k: int| '░'));
        } else {
            out.push('░');
            assert(out@ =~= Seq::new(f as nat, |k: int| '█') + Seq::new((i + 1 - f) as nat, |k: int| '░'));
        }
        i = i + 1;
    }
    assert(out@ =~= bar_cells(fill as int, width as nat));
    string_from_chars(&out)
}

/// The width of the bar of a meter line `width` columns wide: what the
/// label, the figure and the detail leave, at least ten.
pub fn meter_bar_width(width: usize) -> (r: usize)
    ensures
        r == if width >= 80 + 10 {
            (width - 80) as usize
        } else {
            10
        },
{
    if width >= 90 {
        width - 80
    } else {
        10
    }
}

/// The width of the bar of a CPU core cell `width` columns wide: what the
/// label and the figure leave, at least four.
pub fn core_bar_width(width: usize) -> (r: usize)
    ensures
        r == if width >= 11 + 4 {
            (width - 11) as usize
        } else {
            4
        },
{
    if width >= 15 {
        width - 11
    } else {
        4
    }
}

/// The width of a cell of the CPU core grid: the panel's inner width shared
/// among `cols` columns, at least thirteen.
pub fn core_cell_width(inner_width: usize, cols: usize) -> (r: usize)
    requires
        cols >= 1,
    ensures
        r == if inner_width / cols >= 13 {
            inner_width / cols
        } else {
            13
        },
{
    if inner_width / cols >= 13 {
        inner_width / cols
    } else {
        13
    }
}

/// The label of CPU core `idx`: `C`, the number in at least two digits, a
/// space.
pub fn core_label(idx: usize) -> (r: String)
    ensures
        r@ == seq!['C'] + two_digits(idx as nat) + seq![' '],
{
    let mut out: Vec<char> = Vec::new();
    out.push('C');
    push_two_digits(&mut out, idx as u64);
    out.push(' ');
    string_from_chars(&out)
}

/// The first `width` characters of `s`.
pub fn truncate_to_width(s: &str, width: usize) -> (r: String)
    ensures
        r@ == if width < s@.len() {
            s@.take(width as int)
        } else {
            s@
        },
{
    let chars = chars_of(s);
    let mut out: Vec<char> = Vec::new();
    let mut i: usize = 0;
    while i < chars.len() && i < width
        invariant
            i <= chars.len(),
            i <= width,
            chars@ == s@,
            out@ == chars@.take(i as int),
        decreases chars.len() - i,
    {
        out.push(chars[i]);
        assert(chars@.take(i as int).push(chars@[i as int]) =~= chars@.take(i + 1));
        i = i + 1;
    }
    if width >= chars.len() {
        assert(i == chars.len());
        assert(chars@.take(chars.len() as int) =~= chars@);
    } else {
        assert(i == width);
    }
    string_from_chars(&out)
}

} // verus!
