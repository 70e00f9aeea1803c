//! Process control: reading whether a process is stopped, building the
//! parent/child map of `/proc`, collecting a process's descendants, sending a
//! signal to a whole process tree, and the warnings shown before a suspend or
//! resume.
//!
//! Every function that talks to the system goes through a `SystemInterface`.
//! Its contract says what holds of every answer the system may give (through
//! the interface's `*_gives` relations); the decisions taken on those answers
//! are separate functions with exact contracts.
use vstd::prelude::*;
use std::collections::HashMap;
use crate::parsers::{
    first_state_line, lemma_status_stopped_iff_state_t, process_status,
    parent_pid_of_stat, status_stopped, stopped_state, status_state,
};
use crate::system_interface::{
    read_view, list_view, names_view, sent_view, SignalKind, SysFailure, SystemError,
    SystemInterface,
};
use crate::text::{
    chars_of, dec, dec_int, extend_chars, extend_str, i32_of, parse_i32, push_dec, push_dec_i64,
    string_from_chars, word_ranges, words, slices, lines,
};

verus! {

broadcast use vstd::std_specs::hash::group_hash_axioms;

/// Why a process could not be inspected or signalled.
#[derive(Debug, Clone)]
pub enum ProcessError {
    PermissionDenied(i32),
    ProcessNotFound(i32),
    StatusReadError(String),
    InvalidStatus(String),
}

/// A `ProcessError` with its text taken as characters.
pub enum ProcFailure {
    PermissionDenied(i32),
    ProcessNotFound(i32),
    StatusReadError(Seq<char>),
    InvalidStatus(Seq<char>),
}

impl View for ProcessError {
    type V = ProcFailure;

    open spec fn view(&self) -> ProcFailure {
        match self {
            ProcessError::PermissionDenied(p) => ProcFailure::PermissionDenied(*p),
            ProcessError::ProcessNotFound(p) => ProcFailure::ProcessNotFound(*p),
            ProcessError::StatusReadError(s) => ProcFailure::StatusReadError(s@),
            ProcessError::InvalidStatus(s) => ProcFailure::InvalidStatus(s@),
        }
    }
}

/// A result with its error taken by its view.
pub open spec fn proc_res<T>(r: Result<T, ProcessError>) -> Result<T, ProcFailure> {
    match r {
        Ok(v) => Ok(v),
        Err(e) => Err(e@),
    }
}

/// The text of a process error, as it is shown to the user.
pub open spec fn process_error_text(e: ProcFailure) -> Seq<char> {
    match e {
        ProcFailure::PermissionDenied(p) => "Permission denied for PID "@ + dec_int(p as int),
        ProcFailure::ProcessNotFound(p) => "Process "@ + dec_int(p as int) + " not found"@,
        ProcFailure::StatusReadError(m) => "Error reading status: "@ + m,
        ProcFailure::InvalidStatus(m) => "Invalid status: "@ + m,
    }
}

impl ProcessError {
    /// The message of this error, as it is shown to the user.
    pub fn message(&self) -> (r: String)
        ensures
            r@ == process_error_text(self@),
    {
        let mut out: Vec<char> = Vec::new();
        match self {
            ProcessError::PermissionDenied(p) => {
                extend_str(&mut out, "Permission denied for PID ");
                push_dec_i64(&mut out, *p as i64);
            },
            ProcessError::ProcessNotFound(p) => {
                extend_str(&mut out, "Process ");
                push_dec_i64(&mut out, *p as i64);
                extend_str(&mut out, " not found");
            },
            ProcessError::StatusReadError(m) => {
                extend_str(&mut out, "Error reading status: ");
                extend_str(&mut out, m.as_str());
            },
            ProcessError::InvalidStatus(m) => {
                extend_str(&mut out, "Invalid status: ");
                extend_str(&mut out, m.as_str());
            },
        }
        string_from_chars(&out)
    }
}

/// How a failed system access about process `pid` is reported.
pub open spec fn map_sys_err(pid: i32, e: SysFailure) -> ProcFailure {
    match e {
        SysFailure::NotFound(_) => ProcFailure::ProcessNotFound(pid),
        SysFailure::PermissionDenied(_) => ProcFailure::PermissionDenied(pid),
        SysFailure::InvalidData(m) => ProcFailure::InvalidStatus(m),
        SysFailure::Io(m) => ProcFailure::StatusReadError(m),
    }
}

fn map_system_error(pid: i32, error: SystemError) -> (r: ProcessError)
    ensures
        r@ == map_sys_err(pid, error@),
{
    match error {
        SystemError::NotFound(_) => ProcessError::ProcessNotFound(pid),
        SystemError::PermissionDenied(_) => ProcessError::PermissionDenied(pid),
        SystemError::InvalidData(message) => ProcessError::InvalidStatus(message),
        SystemError::Io(message) => ProcessError::StatusReadError(message),
    }
}

/// The path of the file `leaf` of process `pid` under `/proc`.
pub open spec fn proc_path(pid: i32, leaf: Seq<char>) -> Seq<char> {
    "/proc/"@ + dec_int(pid as int) + "/"@ + leaf
}

/// The path of the file `leaf` of process `pid` under `/proc`.
pub fn proc_file_path(pid: i32, leaf: &str) -> (r: String)
    ensures
        r@ == proc_path(pid, leaf@),
{
    let mut out: Vec<char> = Vec::new();
    extend_str(&mut out, "/proc/");
    push_dec_i64(&mut out, pid as i64);
    extend_str(&mut out, "/");
    extend_str(&mut out, leaf);
    string_from_chars(&out)
}

// ---------------------------------------------------------------------------
// Process status
// ---------------------------------------------------------------------------
/// What `ProcessController::parse_process_status` gives for the text of
/// `/proc/<pid>/status`.
pub open spec fn controller_status(content: Seq<char>) -> Result<bool, ProcFailure> {
    match stopped_state(status_state(content)) {
        None => Err(ProcFailure::InvalidStatus("State field not found in status content"@)),
        Some(None) => Err(ProcFailure::InvalidStatus("Could not parse state"@)),
        Some(Some(b)) => Ok(b),
    }
}

/// The status of process `pid` after reading its status file gave `rd`.
pub open spec fn status_after_read(pid: i32, rd: Result<Seq<char>, SysFailure>) -> Result<
    bool,
    ProcFailure,
> {
    match rd {
        Err(e) => Err(map_sys_err(pid, e)),
        Ok(c) => controller_status(c),
    }
}

/// `r` is a status that `get_process_status_with(system, pid)` may give: the
/// status file of `pid` was read and gave some answer, and `r` follows from it.
pub open spec fn status_gives<S: SystemInterface + ?Sized>(
    system: &S,
    pid: i32,
    r: Result<bool, ProcFailure>,
) -> bool {
    exists|rd: Result<Seq<char>, SysFailure>|
        #[trigger] system.read_file_gives(proc_path(pid, "status"@), rd) && r
            == status_after_read(pid, rd)
}

/// Suspends, resumes and inspects processes.
pub struct ProcessController;

impl ProcessController {
    /// Parses `/proc/<pid>/status` into whether the process is stopped.
    pub fn parse_process_status(content: &str) -> (r: Result<bool, ProcessError>)
        ensures
            proc_res(r) == controller_status(content@),
    {
        match status_stopped(content) {
            None => Err(
                ProcessError::InvalidStatus("State field not found in status content".to_owned()),
            ),
            Some(None) => Err(ProcessError::InvalidStatus("Could not parse state".to_owned())),
            Some(Some(b)) => Ok(b),
        }
    }

    /// Whether process `pid` is stopped, given what reading its status file gave.
    pub fn status_from_read(pid: i32, read: Result<String, SystemError>) -> (r: Result<
        bool,
        ProcessError,
    >)
        ensures
            proc_res(r) == status_after_read(pid, read_view(read)),
    {
        match read {
            Err(e) => Err(map_system_error(pid, e)),
            Ok(content) => Self::parse_process_status(content.as_str()),
        }
    }

    /// Whether process `pid` is stopped, read from `system`.
    pub fn get_process_status_with<S: SystemInterface + ?Sized>(system: &S, pid: i32) -> (r:
        Result<bool, ProcessError>)
        ensures
            status_gives(system, pid, proc_res(r)),
    {
        let path = proc_file_path(pid, "status");
        let read = system.read_file(path.as_str());
        let ghost rd = read_view(read);
        let r = Self::status_from_read(pid, read);
        assert(system.read_file_gives(proc_path(pid, "status"@), rd));
        r
    }
}

// ---------------------------------------------------------------------------
// Parent process ids and the parent/child map
// ---------------------------------------------------------------------------
/// The parent pid that a `/proc/<pid>/stat` line names after the command
/// name, if it names one.
pub open spec fn ppid_option(content: Seq<char>) -> Option<i32> {
    match parent_pid_of_stat(content) {
        Ok(v) => Some(v),
        Err(_) => None,
    }
}

/// Parses the parent process id out of a `/proc/<pid>/stat` line, if it has one.
pub fn parse_parent_pid_from_stat(content: &str) -> (r: Option<i32>)
    ensures
        r == ppid_option(content@),
{
    match crate::parsers::parse_parent_pid_from_stat(content) {
        Ok(v) => Some(v),
        Err(_) => None,
    }
}

/// The parent pid that the fourth whitespace-separated field of a
/// `/proc/<pid>/stat` line names, when the line has at least five fields.
pub open spec fn ppid_by_words(content: Seq<char>) -> Option<i32> {
    let ws = words(content);
    if ws.len() < 5 {
        None
    } else {
        i32_of(ws[3])
    }
}

/// The parent pid of a stat line, read after the command name or, when
/// `by_words`, as its fourth field.
pub open spec fn stat_parent(content: Seq<char>, by_words: bool) -> Option<i32> {
    if by_words {
        ppid_by_words(content)
    } else {
        ppid_option(content)
    }
}

/// The fourth whitespace-separated field of a stat line, as a pid, when the
/// line has at least five fields.
fn parse_ppid_by_words(content: &str) -> (r: Option<i32>)
    ensures
        r == ppid_by_words(content@),
{
    let chars = chars_of(content);
    let ws = word_ranges(&chars, 0, chars.len());
    assert(chars@.subrange(0, chars.len() as int) =~= chars@);
    let ghost w = slices(chars@, ws@);
    if ws.len() < 5 {
        return None;
    }
    let (x, y) = ws[3];
    assert(w[3] == chars@.subrange(x as int, y as int));
    parse_i32(&chars, x, y)
}

/// The parent pid after reading a stat file gave `rd`.
pub open spec fn parent_after_read(rd: Result<Seq<char>, SysFailure>) -> Option<i32> {
    match rd {
        Ok(c) => ppid_option(c),
        Err(_) => None,
    }
}

/// `r` is what `read_parent_pid_with(system, pid)` may give.
pub open spec fn parent_gives<S: SystemInterface + ?Sized>(system: &S, pid: i32, r: Option<i32>) -> bool {
    if pid <= 0 {
        r == None::<i32>
    } else {
        exists|rd: Result<Seq<char>, SysFailure>|
            #[trigger] system.read_file_gives(proc_path(pid, "stat"@), rd) && r == parent_after_read(
                rd,
            )
    }
}

/// The parent process id of `pid`, read from its stat file.
pub fn read_parent_pid_with<S: SystemInterface + ?Sized>(system: &S, pid: i32) -> (r: Option<i32>)
    ensures
        parent_gives(system, pid, r),
{
    if pid <= 0 {
        return None;
    }
    let path = proc_file_path(pid, "stat");
    let read = system.read_file(path.as_str());
    let ghost rd = read_view(read);
    assert(system.read_file_gives(proc_path(pid, "stat"@), rd));
    match read {
        Ok(stat) => parse_parent_pid_from_stat(stat.as_str()),
        Err(_) => None,
    }
}

/// `m` with `v` appended to the children of `k`.
pub open spec fn map_push(m: Map<i32, Seq<i32>>, k: i32, v: i32) -> Map<i32, Seq<i32>> {
    m.insert(
        k,
        if m.contains_key(k) {
            m[k].push(v)
        } else {
            seq![v]
        },
    )
}

/// The parent/child map built from the `/proc` entries `names` and the
/// answers `stats` to reading each entry's stat file: every entry that is a
/// pid and whose stat file names a parent is appended to that parent's
/// children, in the order of the listing.
pub open spec fn ppid_map_spec(
    names: Seq<Seq<char>>,
    stats: Seq<Result<Seq<char>, SysFailure>>,
    by_words: bool,
) -> Map<i32, Seq<i32>>
    decreases names.len(),
{
    if names.len() == 0 {
        Map::empty()
    } else {
        let m = ppid_map_spec(names.drop_last(), stats.drop_last(), by_words);
        match i32_of(names.last()) {
            None => m,
            Some(pid) => match stats[names.len() - 1] {
                Err(_) => m,
                Ok(c) => match stat_parent(c, by_words) {
                    None => m,
                    Some(pp) => map_push(m, pp, pid),
                },
            },
        }
    }
}

/// `stats` are answers that `system` may give to reading the stat file of
/// each entry of `names` that is a pid.
pub open spec fn stats_read_by<S: SystemInterface + ?Sized>(
    system: &S,
    names: Seq<Seq<char>>,
    stats: Seq<Result<Seq<char>, SysFailure>>,
) -> bool {
    &&& stats.len() == names.len()
    &&& forall|i: int|
        0 <= i < names.len() && i32_of(names[i]) is Some ==> system.read_file_gives(
            proc_path(i32_of(names[i])->0, "stat"@),
            #[trigger] stats[i],
        )
}

/// `m` is the parent/child map built from the listing answer `d` and stat
/// file answers that `system` may give.
pub open spec fn listing_gives_map<S: SystemInterface + ?Sized>(
    system: &S,
    d: Result<Seq<Seq<char>>, SysFailure>,
    by_words: bool,
    m: Map<i32, Seq<i32>>,
) -> bool {
    match d {
        Err(_) => m == Map::<i32, Seq<i32>>::empty(),
        Ok(names) => exists|stats: Seq<Result<Seq<char>, SysFailure>>|
            #[trigger] stats_read_by(system, names, stats) && m == ppid_map_spec(
                names,
                stats,
                by_words,
            ),
    }
}

/// `m` is a parent/child map that reading `/proc` from `system` may give.
pub open spec fn ppid_map_gives<S: SystemInterface + ?Sized>(
    system: &S,
    by_words: bool,
    m: Map<i32, Seq<i32>>,
) -> bool {
    exists|d: Result<Seq<Seq<char>>, SysFailure>|
        #[trigger] system.read_dir_gives("/proc"@, d) && listing_gives_map(system, d, by_words, m)
}

/// A map of child lists taken by views.
pub open spec fn children_view(m: Map<i32, Vec<i32>>) -> Map<i32, Seq<i32>> {
    m.map_values(|v: Vec<i32>| v@)
}

/// Appends `pid` to the children of `ppid`.
fn add_child(map: &mut HashMap<i32, Vec<i32>>, ppid: i32, pid: i32)
    ensures
        children_view(final(map)@) == map_push(children_view(old(map)@), ppid, pid),
{
    let ghost before = children_view(map@);
    match map.remove(&ppid) {
        Some(v) => {
            let mut v = v;
            v.push(pid);
            map.insert(ppid, v);
        },
        None => {
            let mut v: Vec<i32> = Vec::new();
            v.push(pid);
            map.insert(ppid, v);
            assert(v@ =~= seq![pid]);
        },
    }
    assert(children_view(map@) =~= map_push(before, ppid, pid));
}

/// Builds the parent/child map of `/proc` through `system`; the parent is
/// read after the command name or, when `by_words`, as the fourth field.
fn read_ppid_map_by<S: SystemInterface + ?Sized>(system: &S, by_words: bool) -> (r: HashMap<
    i32,
    Vec<i32>,
>)
    ensures
        ppid_map_gives(system, by_words, children_view(r@)),
{
    let mut map: HashMap<i32, Vec<i32>> = HashMap::new();
    assert(children_view(map@) =~= Map::<i32, Seq<i32>>::empty());
    let listing = system.read_dir("/proc");
    let ghost d = list_view(listing);
    assert(system.read_dir_gives("/proc"@, d));
    let entries = match listing {
        Ok(e) => e,
        Err(_) => {
            assert(listing_gives_map(system, d, by_words, children_view(map@)));
            return map;
        },
    };
    let ghost names = names_view(entries@);
    assert(d == Ok::<Seq<Seq<char>>, SysFailure>(names));
    let ghost mut stats: Seq<Result<Seq<char>, SysFailure>> = seq![];
    let mut i: usize = 0;
    while i < entries.len()
        invariant
            i <= entries.len(),
            names == names_view(entries@),
            system.read_dir_gives("/proc"@, d),
            d == Ok::<Seq<Seq<char>>, SysFailure>(names),
            stats.len() == i,
            stats_read_by(system, names.take(i as int), stats),
            children_view(map@) == ppid_map_spec(names.take(i as int), stats, by_words),
        decreases entries.len() - i,
    {
        let ghost before = stats;
        let ghost t = names.take(i + 1);
        assert(t.drop_last() =~= names.take(i as int));
        assert(t.last() == entries@[i as int]@);
        let name_chars = chars_of(entries[i].as_str());
        assert(name_chars@.subrange(0, name_chars.len() as int) =~= name_chars@);
        match parse_i32(&name_chars, 0, name_chars.len()) {
            None => {
                proof {
                    stats = stats.push(Err(SysFailure::NotFound(seq![])));
                }
            },
            Some(pid) => {
                let path = proc_file_path(pid, "stat");
                let read = system.read_file(path.as_str());
                proof {
                    stats = stats.push(read_view(read));
                }
                match read {
                    Err(_) => {},
                    Ok(stat) => {
                        let parent = if by_words {
                            parse_ppid_by_words(stat.as_str())
                        } else {
                            parse_parent_pid_from_stat(stat.as_str())
                        };
                        match parent {
                            None => {},
                            Some(pp) => {
                                add_child(&mut map, pp, pid);
                            },
                        }
                    },
                }
            },
        }
        assert(stats.drop_last() =~= before);
        assert(stats_read_by(system, t, stats)) by {
            assert forall|j: int|
                0 <= j < t.len() && i32_of(t[j]) is Some implies system.read_file_gives(
                proc_path(i32_of(t[j])->0, "stat"@),
                #[trigger] stats[j],
            ) by {
                if j < i {
                    assert(t[j] == names.take(i as int)[j]);
                    assert(stats[j] == before[j]);
                }
            }
        }
        i = i + 1;
    }
    assert(names.take(entries.len() as int) =~= names);
    assert(stats_read_by(system, names, stats));
    assert(children_view(map@) == ppid_map_spec(names, stats, by_words));
    assert(exists|st: Seq<Result<Seq<char>, SysFailure>>|
        #[trigger] stats_read_by(system, names, st) && children_view(map@) == ppid_map_spec(
            names,
            st,
            by_words,
        ));
    assert(d is Ok);
    assert(d->Ok_0 == names);
    assert(stats_read_by(system, d->Ok_0, stats));
    assert(listing_gives_map(system, d, by_words, children_view(map@)));
    map
}

/// The parent/child map of `/proc`, read through `system`: for every
/// process, its children in the order of the directory listing.
pub fn read_ppid_map_with<S: SystemInterface + ?Sized>(system: &S) -> (r: HashMap<i32, Vec<i32>>)
    ensures
        ppid_map_gives(system, false, children_view(r@)),
{
    read_ppid_map_by(system, false)
}

// ---------------------------------------------------------------------------
// Descendants
// ---------------------------------------------------------------------------
/// The descendants of `pid` in the child lists `m`, each child after its own
/// descendants, going at most `fuel` generations deep.
pub open spec fn descendants(m: Map<i32, Seq<i32>>, pid: i32, fuel: nat) -> Seq<i32>
    decreases fuel, 0nat,
{
    if fuel == 0 || !m.contains_key(pid) {
        seq![]
    } else {
        kids(m, m[pid], (fuel - 1) as nat)
    }
}

/// The children `ch` each preceded by its descendants, going at most `fuel`
/// generations deep.
pub open spec fn kids(m: Map<i32, Seq<i32>>, ch: Seq<i32>, fuel: nat) -> Seq<i32>
    decreases fuel, ch.len(),
{
    if ch.len() == 0 {
        seq![]
    } else {
        kids(m, ch.drop_last(), fuel) + descendants(m, ch.last(), fuel) + seq![ch.last()]
    }
}

/// All descendants of `pid`: as many generations as `m` has parents.
pub open spec fn all_descendants(m: Map<i32, Seq<i32>>, pid: i32) -> Seq<i32> {
    descendants(m, pid, m.dom().len())
}

fn collect_with_fuel(pid: i32, map: &HashMap<i32, Vec<i32>>, out: &mut Vec<i32>, fuel: usize)
    ensures
        final(out)@ == old(out)@ + descendants(children_view(map@), pid, fuel as nat),
    decreases fuel,
{
    let ghost cv = children_view(map@);
    if fuel == 0 {
        assert(old(out)@ + descendants(cv, pid, 0) =~= old(out)@);
        return ;
    }
    match map.get(&pid) {
        None => {
            assert(!cv.contains_key(pid));
            assert(old(out)@ + descendants(cv, pid, fuel as nat) =~= old(out)@);
        },
        Some(children) => {
            assert(cv.contains_key(pid) && cv[pid] == children@);
            let ghost f = (fuel - 1) as nat;
            let mut i: usize = 0;
            assert(children@.take(0) =~= seq![]);
            assert(old(out)@ + kids(cv, children@.take(0), f) =~= old(out)@);
            while i < children.len()
                invariant
                    i <= children.len(),
                    fuel > 0,
                    f == fuel - 1,
                    cv == children_view(map@),
                    out@ == old(out)@ + kids(cv, children@.take(i as int), f),
                decreases children.len() - i,
            {
                let c = children[i];
                collect_with_fuel(c, map, out, fuel - 1);
                out.push(c);
                let ghost t = children@.take(i + 1);
                assert(t.drop_last() =~= children@.take(i as int));
                assert(t.last() == c);
                assert(out@ =~= old(out)@ + kids(cv, t, f));
                i = i + 1;
            }
            assert(children@.take(children.len() as int) =~= children@);
        },
    }
}

/// Appends all descendants of `pid` to `out`, each child after its own
/// descendants.
fn collect_descendants(pid: i32, map: &HashMap<i32, Vec<i32>>, out: &mut Vec<i32>)
    ensures
        final(out)@ == old(out)@ + all_descendants(children_view(map@), pid),
{
    assert(children_view(map@).dom() =~= map@.dom());
    collect_with_fuel(pid, map, out, map.len());
}

// ---------------------------------------------------------------------------
// Stopped ancestors
// ---------------------------------------------------------------------------
/// `r` is what walking up from `current` for at most `left` generations may
/// give: the first ancestor, above `current` and below pid 1, whose status
/// reads as stopped; none when a parent cannot be read, the walk reaches pid
/// 1 or a process that is its own parent, or the steps run out.
pub open spec fn ancestor_gives<S: SystemInterface + ?Sized>(
    system: &S,
    current: i32,
    left: nat,
    r: Option<i32>,
) -> bool
    decreases left,
{
    if left == 0 {
        r == None::<i32>
    } else {
        exists|p: Option<i32>| #[trigger]
            parent_gives(system, current, p) && match p {
                None => r == None::<i32>,
                Some(parent) => if parent <= 1 || parent == current {
                    r == None::<i32>
                } else {
                    exists|st: Result<bool, ProcFailure>| #[trigger]
                        status_gives(system, parent, st) && if st == Ok::<bool, ProcFailure>(
                            true,
                        ) {
                            r == Some(parent)
                        } else {
                            ancestor_gives(system, parent, (left - 1) as nat, r)
                        }
                },
            }
    }
}

/// The nearest stopped ancestor of `pid`, looking at most 128 generations up.
pub fn find_stopped_ancestor_with<S: SystemInterface + ?Sized>(system: &S, pid: i32) -> (r:
    Option<i32>)
    ensures
        ancestor_gives(system, pid, 128, r),
{
    let mut current = pid;
    let mut step: usize = 0;
    while step < 128
        invariant
            step <= 128,
            forall|x: Option<i32>|
                #[trigger] ancestor_gives(system, current, (128 - step) as nat, x)
                    ==> ancestor_gives(system, pid, 128, x),
        decreases 128 - step,
    {
        let ghost left = (128 - step) as nat;
        let parent = read_parent_pid_with(system, current);
        let parent_pid = match parent {
            None => {
                assert(ancestor_gives(system, current, left, None));
                return None;
            },
            Some(p) => p,
        };
        if parent_pid <= 1 || parent_pid == current {
            assert(ancestor_gives(system, current, left, None));
            return None;
        }
        let st = ProcessController::get_process_status_with(system, parent_pid);
        let ghost stv = proc_res(st);
        match st {
            Ok(true) => {
                assert(stv == Ok::<bool, ProcFailure>(true));
                assert(ancestor_gives(system, current, left, Some(parent_pid)));
                return Some(parent_pid);
            },
            _ => {},
        }
        assert(stv != Ok::<bool, ProcFailure>(true));
        assert forall|x: Option<i32>|
            #[trigger] ancestor_gives(system, parent_pid, (left - 1) as nat, x) implies ancestor_gives(
            system,
            current,
            left,
            x,
        ) by {
            assert(parent_gives(system, current, Some(parent_pid)));
            assert(status_gives(system, parent_pid, stv));
        }
        current = parent_pid;
        step = step + 1;
    }
    assert(ancestor_gives(system, current, (128 - step) as nat, None));
    None
}

// ---------------------------------------------------------------------------
// Signalling a process tree
// ---------------------------------------------------------------------------
/// The numbers of processes signalled and refused among the delivery
/// results `rs`, or the first error that stops the signalling (data or I/O
/// errors; a vanished process is skipped).
pub open spec fn tally(rs: Seq<Result<(), SysFailure>>) -> Result<(nat, nat), ProcFailure>
    decreases rs.len(),
{
    if rs.len() == 0 {
        Ok((0, 0))
    } else {
        match tally(rs.drop_last()) {
            Err(e) => Err(e),
            Ok((s, d)) => match rs.last() {
                Ok(()) => Ok((s + 1, d)),
                Err(SysFailure::PermissionDenied(_)) => Ok((s, d + 1)),
                Err(SysFailure::NotFound(_)) => Ok((s, d)),
                Err(SysFailure::InvalidData(m)) => Err(ProcFailure::InvalidStatus(m)),
                Err(SysFailure::Io(m)) => Err(ProcFailure::StatusReadError(m)),
            },
        }
    }
}

/// The outcome of signalling the tree of `pid`: success when at least one
/// process was signalled and none refused; refused when any was refused;
/// not found when none was signalled or refused.
pub open spec fn signal_decision(pid: i32, t: Result<(nat, nat), ProcFailure>) -> Result<
    (),
    ProcFailure,
> {
    match t {
        Err(e) => Err(e),
        Ok((s, d)) => if s == 0 {
            if d > 0 {
                Err(ProcFailure::PermissionDenied(pid))
            } else {
                Err(ProcFailure::ProcessNotFound(pid))
            }
        } else if d > 0 {
            Err(ProcFailure::PermissionDenied(pid))
        } else {
            Ok(())
        },
    }
}

/// Delivery results taken by views.
pub open spec fn sent_views(v: Seq<Result<(), SystemError>>) -> Seq<Result<(), SysFailure>> {
    v.map_values(|r: Result<(), SystemError>| sent_view(r))
}

/// The outcome of signalling the tree of `pid`, given the delivery results
/// of the signals that were sent, in order.
pub fn signal_tree_outcome(pid: i32, results: &Vec<Result<(), SystemError>>) -> (r: Result<
    (),
    ProcessError,
>)
    ensures
        proc_res(r) == signal_decision(pid, tally(sent_views(results@))),
{
    let ghost rs = sent_views(results@);
    let mut signaled: usize = 0;
    let mut denied: usize = 0;
    let mut i: usize = 0;
    assert(rs.take(0) =~= seq![]);
    while i < results.len()
        invariant
            i <= results.len(),
            rs == sent_views(results@),
            signaled + denied <= i,
            tally(rs.take(i as int)) == Ok::<(nat, nat), ProcFailure>(
                (signaled as nat, denied as nat),
            ),
        decreases results.len() - i,
    {
        let ghost t = rs.take(i + 1);
        assert(t.drop_last() =~= rs.take(i as int));
        assert(t.last() == sent_view(results@[i as int]));
        match &results[i] {
            Ok(()) => {
                signaled = signaled + 1;
            },
            Err(SystemError::PermissionDenied(_)) => {
                denied = denied + 1;
            },
            Err(SystemError::NotFound(_)) => {},
            Err(SystemError::InvalidData(m)) => {
                proof {
                    lemma_tally_error_stays(rs, i as int + 1);
                }
                assert(rs.take(rs.len() as int) =~= rs);
                return Err(ProcessError::InvalidStatus(m.clone()));
            },
            Err(SystemError::Io(m)) => {
                proof {
                    lemma_tally_error_stays(rs, i as int + 1);
                }
                assert(rs.take(rs.len() as int) =~= rs);
                return Err(ProcessError::StatusReadError(m.clone()));
            },
        }
        i = i + 1;
    }
    assert(rs.take(results.len() as int) =~= rs);
    if signaled == 0 {
        if denied > 0 {
            return Err(ProcessError::PermissionDenied(pid));
        }
        return Err(ProcessError::ProcessNotFound(pid));
    }
    if denied > 0 {
        return Err(ProcessError::PermissionDenied(pid));
    }
    Ok(())
}

/// Once the tally of a prefix is an error, every longer prefix tallies to
/// the same error.
proof fn lemma_tally_error_stays(rs: Seq<Result<(), SysFailure>>, k: int)
    requires
        0 <= k <= rs.len(),
        tally(rs.take(k)) is Err,
    ensures
        tally(rs) == tally(rs.take(k)),
    decreases rs.len() - k,
{
    if k < rs.len() {
        let t = rs.take(k + 1);
        assert(t.drop_last() =~= rs.take(k));
        lemma_tally_error_stays(rs, k + 1);
    } else {
        assert(rs.take(k) =~= rs);
    }
}

/// `rs` are delivery answers that `system` may give to sending `signal` to
/// the first `rs.len()` of `targets`, one after the other, stopping right
/// after the first error that stops the signalling.
pub open spec fn sent_in_order<S: SystemInterface + ?Sized>(
    system: &S,
    targets: Seq<i32>,
    signal: SignalKind,
    rs: Seq<Result<(), SysFailure>>,
) -> bool {
    &&& rs.len() <= targets.len()
    &&& forall|k: int| 0 <= k < rs.len() ==> system.send_signal_gives(targets[k], signal, #[trigger] rs[k])
    &&& rs.len() > 0 ==> tally(rs.drop_last()) is Ok
    &&& rs.len() < targets.len() ==> tally(rs) is Err
}

/// The processes that signalling the tree of `pid` reaches, given the
/// parent/child map `m`: its descendants, then `pid` itself.
pub open spec fn tree_targets(m: Map<i32, Seq<i32>>, pid: i32) -> Seq<i32> {
    all_descendants(m, pid).push(pid)
}

/// `r` follows from signalling the tree of `pid` in the map `m`.
pub open spec fn tree_sends_give<S: SystemInterface + ?Sized>(
    system: &S,
    m: Map<i32, Seq<i32>>,
    pid: i32,
    signal: SignalKind,
    r: Result<(), ProcFailure>,
) -> bool {
    exists|rs: Seq<Result<(), SysFailure>>|
        #[trigger] sent_in_order(system, tree_targets(m, pid), signal, rs) && r == signal_decision(
            pid,
            tally(rs),
        )
}

/// `r` is what `send_signal_tree_with(system, pid, signal)` may give.
pub open spec fn tree_signal_gives<S: SystemInterface + ?Sized>(
    system: &S,
    pid: i32,
    signal: SignalKind,
    r: Result<(), ProcFailure>,
) -> bool {
    if pid <= 0 {
        r == Err::<(), ProcFailure>(ProcFailure::InvalidStatus("Invalid process id"@))
    } else {
        exists|m: Map<i32, Seq<i32>>| #[trigger]
            ppid_map_gives(system, false, m) && tree_sends_give(system, m, pid, signal, r)
    }
}

/// Whether a delivery result stops the signalling of a tree.
fn stops_signalling(r: &Result<(), SystemError>) -> (b: bool)
    ensures
        b == match sent_view(*r) {
            Err(SysFailure::InvalidData(_)) => true,
            Err(SysFailure::Io(_)) => true,
            _ => false,
        },
{
    match r {
        Err(SystemError::InvalidData(_)) => true,
        Err(SystemError::Io(_)) => true,
        _ => false,
    }
}

/// Sends `signal` to each of `targets` in order, stopping after the first
/// data or I/O error; gives the delivery results.
fn send_in_order<S: SystemInterface + ?Sized>(system: &S, targets: &Vec<i32>, signal: SignalKind) -> (r:
    Vec<Result<(), SystemError>>)
    ensures
        sent_in_order(system, targets@, signal, sent_views(r@)),
{
    let mut results: Vec<Result<(), SystemError>> = Vec::new();
    let mut i: usize = 0;
    while i < targets.len()
        invariant_except_break
            results.len() == i,
            tally(sent_views(results@)) is Ok,
        invariant
            i <= targets.len(),
            results.len() <= targets.len(),
            forall|k: int|
                0 <= k < results.len() ==> system.send_signal_gives(
                    targets@[k],
                    signal,
                    #[trigger] sent_views(results@)[k],
                ),
        ensures
            results.len() <= targets.len(),
            forall|k: int|
                0 <= k < results.len() ==> system.send_signal_gives(
                    targets@[k],
                    signal,
                    #[trigger] sent_views(results@)[k],
                ),
            results.len() > 0 ==> tally(sent_views(results@).drop_last()) is Ok,
            results.len() < targets.len() ==> tally(sent_views(results@)) is Err,
        decreases targets.len() - i,
    {
        let res = system.send_signal(targets[i], signal);
        let stop = stops_signalling(&res);
        let ghost before = results@;
        results.push(res);
        assert(sent_views(results@).drop_last() =~= sent_views(before));
        assert(sent_views(results@)[i as int] == sent_view(res));
        assert forall|k: int| 0 <= k < results.len() implies system.send_signal_gives(
            targets@[k],
            signal,
            #[trigger] sent_views(results@)[k],
        ) by {
            if k < i {
                assert(sent_views(results@)[k] == sent_views(before)[k]);
            }
        }
        if stop {
            assert(tally(sent_views(results@)) is Err);
            break ;
        }
        i = i + 1;
    }
    results
}

impl ProcessController {
    /// Sends `signal` to process `pid` and all its descendants, descendants
    /// first; fails when the signal reached none, was refused for any, or
    /// met a data or I/O error.
    pub fn send_signal_tree_with<S: SystemInterface + ?Sized>(
        system: &S,
        pid: i32,
        signal: SignalKind,
    ) -> (r: Result<(), ProcessError>)
        ensures
            tree_signal_gives(system, pid, signal, proc_res(r)),
    {
        if pid <= 0 {
            return Err(ProcessError::InvalidStatus("Invalid process id".to_owned()));
        }
        let ppid_map = read_ppid_map_with(system);
        let ghost m = children_view(ppid_map@);
        let mut targets: Vec<i32> = Vec::new();
        collect_descendants(pid, &ppid_map, &mut targets);
        targets.push(pid);
        assert(targets@ =~= tree_targets(m, pid));
        let results = send_in_order(system, &targets, signal);
        let r = signal_tree_outcome(pid, &results);
        assert(sent_in_order(system, tree_targets(m, pid), signal, sent_views(results@)));
        assert(tree_sends_give(system, m, pid, signal, proc_res(r)));
        assert(ppid_map_gives(system, false, m));
        r
    }

    /// Stops process `pid` and its descendants with `SIGSTOP`.
    pub fn suspend_process_with<S: SystemInterface + ?Sized>(system: &S, pid: i32) -> (r: Result<
        (),
        ProcessError,
    >)
        ensures
            tree_signal_gives(system, pid, SignalKind::Stop, proc_res(r)),
    {
        let s = SignalKind::Stop;
        let r = Self::send_signal_tree_with(system, pid, s);
        assert(tree_signal_gives(system, pid, s, proc_res(r)));
        r
    }

    /// Continues process `pid` and its descendants with `SIGCONT`.
    pub fn resume_process_with<S: SystemInterface + ?Sized>(system: &S, pid: i32) -> (r: Result<
        (),
        ProcessError,
    >)
        ensures
            tree_signal_gives(system, pid, SignalKind::Cont, proc_res(r)),
    {
        let s = SignalKind::Cont;
        let r = Self::send_signal_tree_with(system, pid, s);
        assert(tree_signal_gives(system, pid, s, proc_res(r)));
        r
    }
}

// ---------------------------------------------------------------------------
// Warnings before a suspend or a resume
// ---------------------------------------------------------------------------
/// An optional text taken by its characters.
pub open spec fn opt_text(r: Option<String>) -> Option<Seq<char>> {
    match r {
        Some(s) => Some(s@),
        None => None,
    }
}

/// The warning shown before suspending `pid`, which has `n` descendants and
/// the parent `parent` (if it could be read).
pub open spec fn suspend_conflict_text(pid: i32, n: nat, parent: Option<i32>) -> Option<Seq<char>> {
    if parent is Some && parent->0 > 0 {
        let pp = parent->0;
        if n > 0 {
            Some(
                "PID "@ + dec_int(pid as int) + " has "@ + dec(n) + " child(ren) and parent PID "@
                    + dec_int(pp as int) + " exists; suspend will apply to subtree"@,
            )
        } else {
            Some(
                "PID "@ + dec_int(pid as int) + " has parent PID "@ + dec_int(pp as int)
                    + "; suspending the child without parent may be unintended"@,
            )
        }
    } else if n > 0 {
        Some(
            "PID "@ + dec_int(pid as int) + " has "@ + dec(n)
                + " child(ren); suspend will affect subtree"@,
        )
    } else {
        None
    }
}

/// The warning shown before suspending `pid`, given the number of its
/// descendants and its parent (if it could be read).
pub fn suspend_conflict_message(pid: i32, descendant_count: usize, parent: Option<i32>) -> (r:
    Option<String>)
    ensures
        opt_text(r) == suspend_conflict_text(pid, descendant_count as nat, parent),
{
    let mut out: Vec<char> = Vec::new();
    match parent {
        Some(pp) => {
            if pp > 0 {
                extend_str(&mut out, "PID ");
                push_dec_i64(&mut out, pid as i64);
                if descendant_count > 0 {
                    extend_str(&mut out, " has ");
                    push_dec(&mut out, descendant_count as u64);
                    extend_str(&mut out, " child(ren) and parent PID ");
                    push_dec_i64(&mut out, pp as i64);
                    extend_str(&mut out, " exists; suspend will apply to subtree");
                } else {
                    extend_str(&mut out, " has parent PID ");
                    push_dec_i64(&mut out, pp as i64);
                    extend_str(&mut out, "; suspending the child without parent may be unintended");
                }
                return Some(string_from_chars(&out));
            }
        },
        None => {},
    }
    if descendant_count > 0 {
        extend_str(&mut out, "PID ");
        push_dec_i64(&mut out, pid as i64);
        extend_str(&mut out, " has ");
        push_dec(&mut out, descendant_count as u64);
        extend_str(&mut out, " child(ren); suspend will affect subtree");
        Some(string_from_chars(&out))
    } else {
        None
    }
}

/// `r` follows from the map `m` and the parent answers that `system` may give.
pub open spec fn suspend_conflict_from_map<S: SystemInterface + ?Sized>(
    system: &S,
    m: Map<i32, Seq<i32>>,
    pid: i32,
    r: Option<Seq<char>>,
) -> bool {
    exists|p: Option<i32>|
        #[trigger] parent_gives(system, pid, p) && r == suspend_conflict_text(
            pid,
            all_descendants(m, pid).len(),
            p,
        )
}

/// `r` is a warning that `suspend_conflict(system, pid)` may give.
pub open spec fn suspend_conflict_gives<S: SystemInterface + ?Sized>(
    system: &S,
    pid: i32,
    r: Option<Seq<char>>,
) -> bool {
    if pid <= 0 {
        r == None::<Seq<char>>
    } else {
        exists|m: Map<i32, Seq<i32>>| #[trigger]
            ppid_map_gives(system, false, m) && suspend_conflict_from_map(system, m, pid, r)
    }
}

/// The warning to show before suspending `pid`, read through `system`: the
/// children that the suspend will reach and the parent it leaves running.
pub fn suspend_conflict<S: SystemInterface + ?Sized>(system: &S, pid: i32) -> (r: Option<String>)
    ensures
        suspend_conflict_gives(system, pid, opt_text(r)),
{
    if pid <= 0 {
        return None;
    }
    let ppid_map = read_ppid_map_with(system);
    let ghost m = children_view(ppid_map@);
    let mut descendants: Vec<i32> = Vec::new();
    collect_descendants(pid, &ppid_map, &mut descendants);
    assert(descendants@ =~= all_descendants(m, pid));
    let parent = read_parent_pid_with(system, pid);
    let r = suspend_conflict_message(pid, descendants.len(), parent);
    assert(parent_gives(system, pid, parent));
    assert(suspend_conflict_from_map(system, m, pid, opt_text(r)));
    assert(ppid_map_gives(system, false, m));
    r
}

/// The warning shown before resuming a process whose nearest stopped
/// ancestor is `ancestor` (if any) and which has `n` descendants.
pub open spec fn resume_conflict_text(ancestor: Option<i32>, n: nat) -> Option<Seq<char>> {
    let b = "resume will apply to "@ + dec(n) + " descendant(s)"@;
    match ancestor {
        Some(a) => {
            let t = "ancestor PID "@ + dec_int(a as int) + " is stopped"@;
            if n > 0 {
                Some(t + "; "@ + b)
            } else {
                Some(t)
            }
        },
        None => if n > 0 {
            Some(b)
        } else {
            None
        },
    }
}

/// The warning shown before resuming a process, given its nearest stopped
/// ancestor (if any) and the number of its descendants.
pub fn resume_conflict_message(ancestor: Option<i32>, descendant_count: usize) -> (r: Option<
    String,
>)
    ensures
        opt_text(r) == resume_conflict_text(ancestor, descendant_count as nat),
{
    let mut out: Vec<char> = Vec::new();
    match ancestor {
        Some(a) => {
            extend_str(&mut out, "ancestor PID ");
            push_dec_i64(&mut out, a as i64);
            extend_str(&mut out, " is stopped");
            if descendant_count > 0 {
                extend_str(&mut out, "; ");
            }
        },
        None => {},
    }
    if descendant_count > 0 {
        extend_str(&mut out, "resume will apply to ");
        push_dec(&mut out, descendant_count as u64);
        extend_str(&mut out, " descendant(s)");
    }
    if ancestor.is_none() && descendant_count == 0 {
        return None;
    }
    Some(string_from_chars(&out))
}

/// `r` follows from the ancestor answer `anc` and a map that `system` may give.
pub open spec fn resume_conflict_from_ancestor<S: SystemInterface + ?Sized>(
    system: &S,
    anc: Option<i32>,
    pid: i32,
    r: Option<Seq<char>>,
) -> bool {
    exists|m: Map<i32, Seq<i32>>|
        #[trigger] ppid_map_gives(system, false, m) && r == resume_conflict_text(
            anc,
            all_descendants(m, pid).len(),
        )
}

/// `r` is a warning that `resume_conflict(system, pid)` may give.
pub open spec fn resume_conflict_gives<S: SystemInterface + ?Sized>(
    system: &S,
    pid: i32,
    r: Option<Seq<char>>,
) -> bool {
    if pid <= 0 {
        r == None::<Seq<char>>
    } else {
        exists|anc: Option<i32>| #[trigger]
            ancestor_gives(system, pid, 128, anc) && resume_conflict_from_ancestor(
                system,
                anc,
                pid,
                r,
            )
    }
}

/// The warning to show before resuming `pid`, read through `system`: a
/// stopped ancestor that stays stopped and the descendants that the resume
/// will reach.
pub fn resume_conflict<S: SystemInterface + ?Sized>(system: &S, pid: i32) -> (r: Option<String>)
    ensures
        resume_conflict_gives(system, pid, opt_text(r)),
{
    if pid <= 0 {
        return None;
    }
    let ancestor = find_stopped_ancestor_with(system, pid);
    let ppid_map = read_ppid_map_with(system);
    let ghost m = children_view(ppid_map@);
    let mut descendants: Vec<i32> = Vec::new();
    collect_descendants(pid, &ppid_map, &mut descendants);
    assert(descendants@ =~= all_descendants(m, pid));
    let r = resume_conflict_message(ancestor, descendants.len());
    assert(ppid_map_gives(system, false, m));
    assert(resume_conflict_from_ancestor(system, ancestor, pid, opt_text(r)));
    assert(ancestor_gives(system, pid, 128, ancestor));
    r
}

// ---------------------------------------------------------------------------
// Killing a process tree
// ---------------------------------------------------------------------------
/// The numbers of processes killed and refused among the delivery results `rs`.
pub open spec fn kill_counts(rs: Seq<Result<(), SysFailure>>) -> (nat, nat)
    decreases rs.len(),
{
    if rs.len() == 0 {
        (0, 0)
    } else {
        let (k, d) = kill_counts(rs.drop_last());
        match rs.last() {
            Ok(()) => (k + 1, d),
            Err(SysFailure::PermissionDenied(_)) => (k, d + 1),
            Err(_) => (k, d),
        }
    }
}

/// Whether the kill of the tree of `pid` succeeded, and the status line that
/// reports it, given how many processes were killed and refused.
pub open spec fn kill_report(pid: i32, killed: nat, denied: nat) -> (bool, Seq<char>) {
    if killed == 0 {
        if denied > 0 {
            (false, "Permission denied for PID "@ + dec_int(pid as int))
        } else {
            (true, "PID "@ + dec_int(pid as int) + " no longer exists"@)
        }
    } else if denied > 0 {
        (
            false,
            "Killed "@ + dec(killed) + " proc(s), denied "@ + dec(denied) + " for PID "@ + dec_int(
                pid as int,
            ),
        )
    } else {
        (
            true,
            "Killed PID "@ + dec_int(pid as int) + " (and "@ + dec((killed - 1) as nat)
                + " child proc(s))"@,
        )
    }
}

/// Whether the kill of the tree of `pid` succeeded and its status line,
/// given the delivery results of the kill signals.
pub fn kill_outcome(pid: i32, results: &Vec<Result<(), SystemError>>) -> (r: (bool, String))
    ensures
        ({
            let (k, d) = kill_counts(sent_views(results@));
            (r.0, r.1@) == kill_report(pid, k, d)
        }),
{
    let ghost rs = sent_views(results@);
    let mut killed: usize = 0;
    let mut denied: usize = 0;
    let mut i: usize = 0;
    assert(rs.take(0) =~= seq![]);
    while i < results.len()
        invariant
            i <= results.len(),
            rs == sent_views(results@),
            killed + denied <= i,
            kill_counts(rs.take(i as int)) == (killed as nat, denied as nat),
        decreases results.len() - i,
    {
        let ghost t = rs.take(i + 1);
        assert(t.drop_last() =~= rs.take(i as int));
        assert(t.last() == sent_view(results@[i as int]));
        match &results[i] {
            Ok(()) => {
                killed = killed + 1;
            },
            Err(SystemError::PermissionDenied(_)) => {
                denied = denied + 1;
            },
            Err(_) => {},
        }
        i = i + 1;
    }
    assert(rs.take(results.len() as int) =~= rs);
    let mut out: Vec<char> = Vec::new();
    if killed == 0 {
        if denied > 0 {
            extend_str(&mut out, "Permission denied for PID ");
            push_dec_i64(&mut out, pid as i64);
            return (false, string_from_chars(&out));
        }
        extend_str(&mut out, "PID ");
        push_dec_i64(&mut out, pid as i64);
        extend_str(&mut out, " no longer exists");
        return (true, string_from_chars(&out));
    }
    if denied > 0 {
        extend_str(&mut out, "Killed ");
        push_dec(&mut out, killed as u64);
        extend_str(&mut out, " proc(s), denied ");
        push_dec(&mut out, denied as u64);
        extend_str(&mut out, " for PID ");
        push_dec_i64(&mut out, pid as i64);
        return (false, string_from_chars(&out));
    }
    extend_str(&mut out, "Killed PID ");
    push_dec_i64(&mut out, pid as i64);
    extend_str(&mut out, " (and ");
    push_dec(&mut out, (killed - 1) as u64);
    extend_str(&mut out, " child proc(s))");
    (true, string_from_chars(&out))
}

/// `rs` are delivery answers that `system` may give to sending `s` to each of `targets`.
pub open spec fn sent_each<S: SystemInterface + ?Sized>(
    system: &S,
    targets: Seq<i32>,
    s: SignalKind,
    rs: Seq<Result<(), SysFailure>>,
) -> bool {
    &&& rs.len() == targets.len()
    &&& forall|k: int| 0 <= k < rs.len() ==> system.send_signal_gives(targets[k], s, #[trigger] rs[k])
}

/// `r` follows from killing the tree of `pid` in the map `m`.
pub open spec fn kill_sends_give<S: SystemInterface + ?Sized>(
    system: &S,
    m: Map<i32, Seq<i32>>,
    pid: i32,
    r: (bool, Seq<char>),
) -> bool {
    exists|rs: Seq<Result<(), SysFailure>>|
        #[trigger] sent_each(system, tree_targets(m, pid), SignalKind::Kill, rs) && r == kill_report(
            pid,
            kill_counts(rs).0,
            kill_counts(rs).1,
        )
}

/// `r` is what `kill_process_tree_with(system, pid)` may give.
pub open spec fn kill_tree_gives<S: SystemInterface + ?Sized>(
    system: &S,
    pid: i32,
    r: (bool, Seq<char>),
) -> bool {
    if pid <= 0 {
        r == (false, "Invalid process id"@)
    } else {
        exists|m: Map<i32, Seq<i32>>| #[trigger]
            ppid_map_gives(system, true, m) && kill_sends_give(system, m, pid, r)
    }
}

/// Kills process `pid` and all its descendants (found through the fourth
/// field of each stat line), descendants first, and reports the outcome as
/// a success flag and a status line.
pub fn kill_process_tree_with<S: SystemInterface + ?Sized>(system: &S, pid: i32) -> (r: (
    bool,
    String,
))
    ensures
        kill_tree_gives(system, pid, (r.0, r.1@)),
{
    if pid <= 0 {
        return (false, "Invalid process id".to_owned());
    }
    let ppid_map = read_ppid_map_by(system, true);
    let ghost m = children_view(ppid_map@);
    let mut targets: Vec<i32> = Vec::new();
    collect_descendants(pid, &ppid_map, &mut targets);
    targets.push(pid);
    assert(targets@ =~= tree_targets(m, pid));
    let s = SignalKind::Kill;
    let mut results: Vec<Result<(), SystemError>> = Vec::new();
    let mut i: usize = 0;
    while i < targets.len()
        invariant
            i <= targets.len(),
            results.len() == i,
            forall|k: int|
                0 <= k < i ==> system.send_signal_gives(
                    targets@[k],
                    s,
                    #[trigger] sent_views(results@)[k],
                ),
        decreases targets.len() - i,
    {
        let res = system.send_signal(targets[i], s);
        let ghost before = results@;
        results.push(res);
        assert forall|k: int| 0 <= k < i + 1 implies system.send_signal_gives(
            targets@[k],
            s,
            #[trigger] sent_views(results@)[k],
        ) by {
            if k < i {
                assert(sent_views(results@)[k] == sent_views(before)[k]);
            }
        }
        i = i + 1;
    }
    let r = kill_outcome(pid, &results);
    assert(sent_each(system, tree_targets(m, pid), s, sent_views(results@)));
    assert(sent_each(system, tree_targets(m, pid), SignalKind::Kill, sent_views(results@)));
    assert(kill_sends_give(system, m, pid, (r.0, r.1@)));
    assert(ppid_map_gives(system, true, m));
    r
}

// ---------------------------------------------------------------------------
// Laws of signalling and killing
// ---------------------------------------------------------------------------
/// A delivery that lets the signalling of a tree go on: the process got the
/// signal, refused it, or was gone.
pub open spec fn delivery_goes_on(r: Result<(), SysFailure>) -> bool {
    match r {
        Ok(()) => true,
        Err(SysFailure::PermissionDenied(_)) => true,
        Err(SysFailure::NotFound(_)) => true,
        _ => false,
    }
}

/// The tally of deliveries that all go on counts the signalled and the
/// refused ones.
proof fn lemma_tally_counts(rs: Seq<Result<(), SysFailure>>)
    requires
        forall|k: int| 0 <= k < rs.len() ==> delivery_goes_on(#[trigger] rs[k]),
    ensures
        tally(rs) is Ok,
        tally(rs)->Ok_0.0 > 0 <==> exists|k: int| 0 <= k < rs.len() && (#[trigger] rs[k]) is Ok,
        tally(rs)->Ok_0.1 > 0 <==> exists|k: int| 0 <= k < rs.len() && (#[trigger] rs[k]) is Err && rs[k]->Err_0 is PermissionDenied,
    decreases rs.len(),
{
    if rs.len() > 0 {
        let init = rs.drop_last();
        assert forall|k: int| 0 <= k < init.len() implies delivery_goes_on(#[trigger] init[k]) by {
            assert(init[k] == rs[k]);
        }
        lemma_tally_counts(init);
        let last = rs.len() - 1;
        if exists|k: int| 0 <= k < init.len() && (#[trigger] init[k]) is Ok {
            let k = choose|k: int| 0 <= k < init.len() && (#[trigger] init[k]) is Ok;
            assert(rs[k] == init[k]);
        }
        if exists|k: int| 0 <= k < rs.len() && (#[trigger] rs[k]) is Ok {
            let k = choose|k: int| 0 <= k < rs.len() && (#[trigger] rs[k]) is Ok;
            if k < last {
                assert(init[k] == rs[k]);
            }
        }
        if exists|k: int| 0 <= k < init.len() && (#[trigger] init[k]) is Err && init[k]->Err_0 is PermissionDenied {
            let k = choose|k: int| 0 <= k < init.len() && (#[trigger] init[k]) is Err && init[k]->Err_0 is PermissionDenied;
            assert(rs[k] == init[k]);
        }
        if exists|k: int| 0 <= k < rs.len() && (#[trigger] rs[k]) is Err && rs[k]->Err_0 is PermissionDenied {
            let k = choose|k: int| 0 <= k < rs.len() && (#[trigger] rs[k]) is Err && rs[k]->Err_0 is PermissionDenied;
            if k < last {
                assert(init[k] == rs[k]);
            }
        }
        assert(delivery_goes_on(rs[last]));
        match rs[last] {
            Ok(()) => {
                assert(rs[last] is Ok);
            },
            Err(e) => {
                assert(!(rs[last] is Ok));
                if e is PermissionDenied {
                    assert(rs[last] is Err && rs[last]->Err_0 is PermissionDenied);
                }
            },
        }
    }
}

/// A delivery that stops the signalling makes the tally an error.
proof fn lemma_tally_stops(rs: Seq<Result<(), SysFailure>>, k: int)
    requires
        0 <= k < rs.len(),
        !delivery_goes_on(rs[k]),
    ensures
        tally(rs) is Err,
    decreases rs.len(),
{
    if k < rs.len() - 1 {
        let init = rs.drop_last();
        assert(init[k] == rs[k]);
        lemma_tally_stops(init, k);
    }
}

/// Signalling a process tree succeeds exactly when every delivery went
/// through or found the process gone, and at least one went through.
pub proof fn lemma_signal_tree_succeeds(pid: i32, rs: Seq<Result<(), SysFailure>>)
    ensures
        signal_decision(pid, tally(rs)) == Ok::<(), ProcFailure>(()) <==> (
            (forall|k: int| 0 <= k < rs.len() ==> ((#[trigger] rs[k]) is Ok || (rs[k] is Err && rs[k]->Err_0 is NotFound)))
            && exists|k: int| 0 <= k < rs.len() && (#[trigger] rs[k]) is Ok),
{
    if forall|k: int| 0 <= k < rs.len() ==> delivery_goes_on(#[trigger] rs[k]) {
        lemma_tally_counts(rs);
        if signal_decision(pid, tally(rs)) == Ok::<(), ProcFailure>(()) {
            assert forall|k: int| 0 <= k < rs.len() implies ((#[trigger] rs[k]) is Ok || (rs[k] is Err && rs[k]->Err_0 is NotFound)) by {
                assert(delivery_goes_on(rs[k]));
                if rs[k] is Err && rs[k]->Err_0 is PermissionDenied {
                    assert(exists|j: int| 0 <= j < rs.len() && (#[trigger] rs[j]) is Err && rs[j]->Err_0 is PermissionDenied);
                    assert(tally(rs)->Ok_0.1 > 0);
                    assert(false);
                }
                match rs[k] {
                    Ok(()) => {},
                    Err(e) => {
                        assert(e is NotFound || e is PermissionDenied);
                    },
                }
            }
        }
        if (forall|k: int| 0 <= k < rs.len() ==> ((#[trigger] rs[k]) is Ok || (rs[k] is Err && rs[k]->Err_0 is NotFound))) {
            if exists|k: int| 0 <= k < rs.len() && (#[trigger] rs[k]) is Err && rs[k]->Err_0 is PermissionDenied {
                let k = choose|k: int| 0 <= k < rs.len() && (#[trigger] rs[k]) is Err && rs[k]->Err_0 is PermissionDenied;
                assert(rs[k] is Ok || (rs[k] is Err && rs[k]->Err_0 is NotFound));
            }
        }
    } else {
        let k = choose|k: int| 0 <= k < rs.len() && !delivery_goes_on(#[trigger] rs[k]);
        lemma_tally_stops(rs, k);
        assert(!(rs[k] is Ok || (rs[k] is Err && rs[k]->Err_0 is NotFound)));
    }
}

/// Killing a process tree is reported as a success exactly when no process
/// refused the signal.
pub proof fn lemma_kill_succeeds_without_refusal(pid: i32, rs: Seq<Result<(), SysFailure>>)
    ensures
        kill_report(pid, kill_counts(rs).0, kill_counts(rs).1).0 <==> kill_counts(rs).1 == 0,
        kill_counts(rs).1 == 0 <==> forall|k: int| 0 <= k < rs.len() ==> !((#[trigger] rs[k]) is Err && rs[k]->Err_0 is PermissionDenied),
    decreases rs.len(),
{
    if rs.len() > 0 {
        let init = rs.drop_last();
        lemma_kill_succeeds_without_refusal(pid, init);
        if kill_counts(init).1 == 0 {
            assert forall|k: int| 0 <= k < init.len() implies !((#[trigger] init[k]) is Err && init[k]->Err_0 is PermissionDenied) by {}
        }
        if forall|k: int| 0 <= k < rs.len() ==> !((#[trigger] rs[k]) is Err && rs[k]->Err_0 is PermissionDenied) {
            assert forall|k: int| 0 <= k < init.len() implies !((#[trigger] init[k]) is Err && init[k]->Err_0 is PermissionDenied) by {
                assert(init[k] == rs[k]);
            }
            assert(!(rs[rs.len() - 1] is Err && rs[rs.len() - 1]->Err_0 is PermissionDenied));
        } else {
            let k = choose|k: int| 0 <= k < rs.len() && ((#[trigger] rs[k]) is Err && rs[k]->Err_0 is PermissionDenied);
            if k < rs.len() - 1 {
                assert(init[k] == rs[k]);
            }
        }
    }
}

// ---------------------------------------------------------------------------
// Law of the status reading
// ---------------------------------------------------------------------------
/// The controller reports a process stopped exactly when the second word of
/// the first `State:` line of its status is `T`; the status parses exactly
/// when such a line with a second word exists.
pub proof fn lemma_controller_status_stopped_iff_state_t(content: Seq<char>)
    ensures
        controller_status(content) is Ok <==> exists|k: int|
            first_state_line(lines(content), k) && words(#[trigger] lines(content)[k]).len() >= 2,
        forall|k: int|
            first_state_line(lines(content), k) && words(#[trigger] lines(content)[k]).len() >= 2
                ==> controller_status(content) == Ok::<bool, ProcFailure>(
                words(lines(content)[k])[1] == seq!['T'],
            ),
{
    lemma_status_stopped_iff_state_t(content);
    assert(controller_status(content) is Ok <==> process_status(content) is Ok);
    if process_status(content) is Ok {
        assert(controller_status(content) == Ok::<bool, ProcFailure>(process_status(content)->Ok_0));
    }
}

// ---------------------------------------------------------------------------
// Laws of the processes a tree signal reaches
// ---------------------------------------------------------------------------
/// The parent map has no cycles: `rank` falls from each parent to each of
/// its children, and `pid` ranks no higher than the number of parents.
pub open spec fn ranked_below(m: Map<i32, Seq<i32>>, rank: spec_fn(i32) -> nat, pid: i32) -> bool {
    &&& forall|t: i32, c: i32|
        #![trigger m[t].contains(c)]
        m.contains_key(t) && m[t].contains(c) ==> rank(c) < rank(t)
    &&& rank(pid) <= m.dom().len()
}

/// Every child of a process in `targets` is in `targets`.
pub open spec fn closed_under_children(m: Map<i32, Seq<i32>>, targets: Seq<i32>) -> bool {
    forall|t: i32, c: i32|
        #![trigger targets.contains(t), m[t].contains(c)]
        targets.contains(t) && m.contains_key(t) && m[t].contains(c) ==> targets.contains(c)
}

/// Every process in `targets` other than `pid` is a child of a process in
/// `targets`.
pub open spec fn hangs_from(m: Map<i32, Seq<i32>>, targets: Seq<i32>, pid: i32) -> bool {
    forall|x: i32|
        #![trigger targets.contains(x)]
        targets.contains(x) && x != pid ==> exists|p: i32|
            targets.contains(p) && m.contains_key(p) && #[trigger] m[p].contains(x)
}

/// What the children `ch` and their descendants hold.
proof fn lemma_kids_members(m: Map<i32, Seq<i32>>, ch: Seq<i32>, f: nat, x: i32)
    ensures
        kids(m, ch, f).contains(x) <==> exists|i: int|
            0 <= i < ch.len() && (ch[i] == x || descendants(m, #[trigger] ch[i], f).contains(x)),
    decreases ch.len(),
{
    if ch.len() > 0 {
        let init = ch.drop_last();
        lemma_kids_members(m, init, f, x);
        let a = kids(m, init, f);
        let d = descendants(m, ch.last(), f);
        let k = kids(m, ch, f);
        assert(k == a + d + seq![ch.last()]);
        if k.contains(x) {
            let j = choose|j: int| 0 <= j < k.len() && k[j] == x;
            if j < a.len() {
                assert(a[j] == x);
                let i = choose|i: int| 0 <= i < init.len() && (init[i] == x || descendants(m, #[trigger] init[i], f).contains(x));
                assert(ch[i] == init[i]);
            } else if j < a.len() + d.len() {
                assert(d[j - a.len()] == x);
                assert(ch[ch.len() - 1] == ch.last());
            } else {
                assert(ch[ch.len() - 1] == x);
            }
        }
        if exists|i: int| 0 <= i < ch.len() && (ch[i] == x || descendants(m, #[trigger] ch[i], f).contains(x)) {
            let i = choose|i: int| 0 <= i < ch.len() && (ch[i] == x || descendants(m, #[trigger] ch[i], f).contains(x));
            if i < ch.len() - 1 {
                assert(init[i] == ch[i]);
                assert(a.contains(x));
                let j = choose|j: int| 0 <= j < a.len() && a[j] == x;
                assert(k[j] == x);
            } else if ch[i] == x {
                assert(k[k.len() - 1] == x);
            } else {
                let j = choose|j: int| 0 <= j < d.len() && d[j] == x;
                assert(k[a.len() + j] == x);
            }
        }
    }
}

/// The descendants of `v`, with `v`, hold every child of each of them, as far
/// as `f` generations reach, and each of them but `v` is a child of one of
/// them.
proof fn lemma_descendants_closed(m: Map<i32, Seq<i32>>, v: i32, f: nat, rank: spec_fn(i32) -> nat)
    requires
        forall|t: i32, c: i32|
            #![trigger m[t].contains(c)]
            m.contains_key(t) && m[t].contains(c) ==> rank(c) < rank(t),
        rank(v) <= f,
    ensures
        forall|t: i32, c: i32|
            #![trigger m[t].contains(c)]
            (descendants(m, v, f).contains(t) || t == v) && m.contains_key(t) && m[t].contains(c)
                ==> descendants(m, v, f).contains(c),
    decreases f,
{
    let d = descendants(m, v, f);
    if f == 0 || !m.contains_key(v) {
        assert forall|t: i32, c: i32|
            #![trigger m[t].contains(c)]
            (d.contains(t) || t == v) && m.contains_key(t) && m[t].contains(c) implies d.contains(c) by {
            if d.contains(t) {
                let j = choose|j: int| 0 <= j < d.len() && d[j] == t;
            }
        }
        return;
    }
    let ch = m[v];
    let g = (f - 1) as nat;
    assert forall|t: i32, c: i32|
        #![trigger m[t].contains(c)]
        (d.contains(t) || t == v) && m.contains_key(t) && m[t].contains(c) implies d.contains(c) by {
        lemma_kids_members(m, ch, g, c);
        if t == v {
            let i = choose|i: int| 0 <= i < ch.len() && ch[i] == c;
            assert(ch[i] == c);
        } else {
            lemma_kids_members(m, ch, g, t);
            let i = choose|i: int| 0 <= i < ch.len() && (ch[i] == t || descendants(m, #[trigger] ch[i], g).contains(t));
            assert(m[v].contains(ch[i]));
            assert(rank(ch[i]) < rank(v));
            lemma_descendants_closed(m, ch[i], g, rank);
            assert(descendants(m, ch[i], g).contains(c));
        }
    }
}

/// Each descendant of `v` is a child of `v` or of another descendant.
proof fn lemma_descendants_hang(m: Map<i32, Seq<i32>>, v: i32, f: nat)
    ensures
        forall|x: i32|
            #![trigger descendants(m, v, f).contains(x)]
            descendants(m, v, f).contains(x) ==> exists|p: i32|
                (descendants(m, v, f).contains(p) || p == v) && m.contains_key(p) && #[trigger] m[p].contains(x),
    decreases f,
{
    let d = descendants(m, v, f);
    if f == 0 || !m.contains_key(v) {
        assert forall|x: i32| #![trigger d.contains(x)] d.contains(x) implies exists|p: i32|
            (d.contains(p) || p == v) && m.contains_key(p) && #[trigger] m[p].contains(x) by {
            let j = choose|j: int| 0 <= j < d.len() && d[j] == x;
        }
        return;
    }
    let ch = m[v];
    let g = (f - 1) as nat;
    assert forall|x: i32| #![trigger d.contains(x)] d.contains(x) implies exists|p: i32|
        (d.contains(p) || p == v) && m.contains_key(p) && #[trigger] m[p].contains(x) by {
        lemma_kids_members(m, ch, g, x);
        let i = choose|i: int| 0 <= i < ch.len() && (ch[i] == x || descendants(m, #[trigger] ch[i], g).contains(x));
        if ch[i] == x {
            assert(m[v].contains(x));
        } else {
            lemma_descendants_hang(m, ch[i], g);
            let p = choose|p: i32|
                (descendants(m, ch[i], g).contains(p) || p == ch[i]) && m.contains_key(p) && #[trigger] m[p].contains(x);
            lemma_kids_members(m, ch, g, p);
            assert(d.contains(p));
        }
    }
}

/// The processes of the tree of `pid` (its descendants, then `pid`): every
/// one but `pid` is a child of another, and, without cycles, every child of
/// one of them is one of them.
proof fn lemma_tree_targets(m: Map<i32, Seq<i32>>, pid: i32, rank: spec_fn(i32) -> nat)
    ensures
        tree_targets(m, pid).len() > 0,
        tree_targets(m, pid).last() == pid,
        hangs_from(m, tree_targets(m, pid), pid),
        ranked_below(m, rank, pid) ==> closed_under_children(m, tree_targets(m, pid)),
{
    let f = m.dom().len();
    let d = descendants(m, pid, f);
    let tt = tree_targets(m, pid);
    assert(tt == d.push(pid));
    assert forall|x: i32| tt.contains(x) implies (d.contains(x) || x == pid) by {
        let j = choose|j: int| 0 <= j < tt.len() && tt[j] == x;
        if j < d.len() {
            assert(d[j] == x);
        }
    }
    assert forall|x: i32| d.contains(x) || x == pid implies tt.contains(x) by {
        if x == pid {
            assert(tt[d.len() as int] == pid);
        } else {
            let j = choose|j: int| 0 <= j < d.len() && d[j] == x;
            assert(tt[j] == x);
        }
    }
    lemma_descendants_hang(m, pid, f);
    assert forall|x: i32| #![trigger tt.contains(x)] tt.contains(x) && x != pid implies exists|p: i32|
        tt.contains(p) && m.contains_key(p) && #[trigger] m[p].contains(x) by {
        assert(d.contains(x));
        let p = choose|p: i32| (d.contains(p) || p == pid) && m.contains_key(p) && #[trigger] m[p].contains(x);
        assert(tt.contains(p));
    }
    if ranked_below(m, rank, pid) {
        lemma_descendants_closed(m, pid, f, rank);
        assert forall|t: i32, c: i32|
            #![trigger tt.contains(t), m[t].contains(c)]
            tt.contains(t) && m.contains_key(t) && m[t].contains(c) implies tt.contains(c) by {
            assert(d.contains(t) || t == pid);
            assert(d.contains(c));
        }
    }
}

/// Signalling the tree of `pid` (suspend, resume) sends the signal, in
/// order, to processes of the parent map that was read, ending with `pid`,
/// each of them but `pid` a child of another, and (where the map has no
/// cycles) including every child of each of them; the result follows from
/// the answers.
pub proof fn lemma_signal_tree_reaches_whole_tree<S: SystemInterface + ?Sized>(
    system: &S,
    pid: i32,
    signal: SignalKind,
    r: Result<(), ProcFailure>,
    rank: spec_fn(i32) -> nat,
)
    requires
        pid > 0,
        tree_signal_gives(system, pid, signal, r),
    ensures
        exists|m: Map<i32, Seq<i32>>, targets: Seq<i32>, rs: Seq<Result<(), SysFailure>>|
            #![trigger ppid_map_gives(system, false, m), sent_in_order(system, targets, signal, rs)]
            ppid_map_gives(system, false, m) && sent_in_order(system, targets, signal, rs) && r
                == signal_decision(pid, tally(rs)) && targets.len() > 0 && targets.last() == pid
                && hangs_from(m, targets, pid) && (ranked_below(m, rank, pid) ==> closed_under_children(
                m,
                targets,
            )),
{
    let m = choose|m: Map<i32, Seq<i32>>| #[trigger]
        ppid_map_gives(system, false, m) && tree_sends_give(system, m, pid, signal, r);
    let tt = tree_targets(m, pid);
    let rs = choose|rs: Seq<Result<(), SysFailure>>|
        #[trigger] sent_in_order(system, tt, signal, rs) && r == signal_decision(pid, tally(rs));
    lemma_tree_targets(m, pid, rank);
}

/// Killing the tree of `pid` sends the kill signal to each process of the
/// parent map that was read, ending with `pid`, each of them but `pid` a
/// child of another, and (where the map has no cycles) including every child
/// of each of them; the report follows from the answers.
pub proof fn lemma_kill_reaches_whole_tree<S: SystemInterface + ?Sized>(
    system: &S,
    pid: i32,
    r: (bool, Seq<char>),
    rank: spec_fn(i32) -> nat,
)
    requires
        pid > 0,
        kill_tree_gives(system, pid, r),
    ensures
        exists|m: Map<i32, Seq<i32>>, targets: Seq<i32>, rs: Seq<Result<(), SysFailure>>|
            #![trigger ppid_map_gives(system, true, m), sent_each(system, targets, SignalKind::Kill, rs)]
            ppid_map_gives(system, true, m) && sent_each(system, targets, SignalKind::Kill, rs) && r
                == kill_report(pid, kill_counts(rs).0, kill_counts(rs).1) && targets.len() > 0
                && targets.last() == pid && hangs_from(m, targets, pid) && (ranked_below(m, rank, pid)
                ==> closed_under_children(m, targets)) && ((forall|k: int|
                0 <= k < rs.len() ==> (#[trigger] rs[k]) is Ok) ==> r == (
                true,
                "Killed PID "@ + dec_int(pid as int) + " (and "@ + dec((targets.len() - 1) as nat)
                    + " child proc(s))"@,
            )),
{
    let m = choose|m: Map<i32, Seq<i32>>| #[trigger]
        ppid_map_gives(system, true, m) && kill_sends_give(system, m, pid, r);
    let tt = tree_targets(m, pid);
    let rs = choose|rs: Seq<Result<(), SysFailure>>|
        #[trigger] sent_each(system, tt, SignalKind::Kill, rs) && r == kill_report(
            pid,
            kill_counts(rs).0,
            kill_counts(rs).1,
        );
    lemma_tree_targets(m, pid, rank);
    if forall|k: int| 0 <= k < rs.len() ==> (#[trigger] rs[k]) is Ok {
        lemma_kill_counts_all_ok(rs);
    }
}

/// When every kill signal went through, all were counted as killed.
proof fn lemma_kill_counts_all_ok(rs: Seq<Result<(), SysFailure>>)
    requires
        forall|k: int| 0 <= k < rs.len() ==> (#[trigger] rs[k]) is Ok,
    ensures
        kill_counts(rs) == (rs.len(), 0nat),
    decreases rs.len(),
{
    if rs.len() > 0 {
        let init = rs.drop_last();
        assert forall|k: int| 0 <= k < init.len() implies (#[trigger] init[k]) is Ok by {
            assert(init[k] == rs[k]);
        }
        lemma_kill_counts_all_ok(init);
        assert(rs[rs.len() - 1] is Ok);
    }
}

/// The kill of a tree counts as killed the answers that went through and as
/// denied those refused for want of permission; the other answers count in
/// neither.
pub proof fn lemma_kill_counts_answers(rs: Seq<Result<(), SysFailure>>)
    ensures
        kill_counts(rs).0 == rs.filter(|x: Result<(), SysFailure>| x is Ok).len(),
        kill_counts(rs).1 == rs.filter(
            |x: Result<(), SysFailure>| x matches Err(SysFailure::PermissionDenied(_)),
        ).len(),
    decreases rs.len(),
{
    let ok = |x: Result<(), SysFailure>| x is Ok;
    let denied = |x: Result<(), SysFailure>| x matches Err(SysFailure::PermissionDenied(_));
    if rs.len() == 0 {
        assert(rs.filter(ok) =~= Seq::<Result<(), SysFailure>>::empty()) by {
            reveal(Seq::filter);
        }
        assert(rs.filter(denied) =~= Seq::<Result<(), SysFailure>>::empty()) by {
            reveal(Seq::filter);
        }
    } else {
        let init = rs.drop_last();
        lemma_kill_counts_answers(init);
        assert(init.push(rs.last()) =~= rs);
        init.lemma_filter_len_push(ok, rs.last());
        init.lemma_filter_len_push(denied, rs.last());
    }
}

} // verus!
