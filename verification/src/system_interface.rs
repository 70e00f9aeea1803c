//! The operating-system access that the process controller needs: reading a
//! file, listing a directory and sending a signal, behind the
//! `SystemInterface` trait, and `MockSystem`, an in-memory system whose
//! answers are set up in advance.
use vstd::prelude::*;

verus! {

/// The signals that the process controls send: stop (`SIGSTOP`), continue
/// (`SIGCONT`) and kill (`SIGKILL`).
#[derive(Clone, Copy, PartialEq, Eq, Debug, Structural)]
pub enum SignalKind {
    Stop,
    Cont,
    Kill,
}

/// Why an access to the operating system failed.
#[derive(Debug, Clone, PartialEq, Eq)]
pub enum SystemError {
    NotFound(String),
    PermissionDenied(String),
    InvalidData(String),
    Io(String),
}

/// A `SystemError` with its text taken as characters.
pub enum SysFailure {
    NotFound(Seq<char>),
    PermissionDenied(Seq<char>),
    InvalidData(Seq<char>),
    Io(Seq<char>),
}

impl View for SystemError {
    type V = SysFailure;

    open spec fn view(&self) -> SysFailure {
        match self {
            SystemError::NotFound(s) => SysFailure::NotFound(s@),
            SystemError::PermissionDenied(s) => SysFailure::PermissionDenied(s@),
            SystemError::InvalidData(s) => SysFailure::InvalidData(s@),
            SystemError::Io(s) => SysFailure::Io(s@),
        }
    }
}

/// The text of a system error, as it is shown to the user.
pub open spec fn system_error_text(e: SysFailure) -> Seq<char> {
    match e {
        SysFailure::NotFound(p) => "not found: "@ + p,
        SysFailure::PermissionDenied(m) => "permission denied: "@ + m,
        SysFailure::InvalidData(m) => "invalid data: "@ + m,
        SysFailure::Io(m) => "io error: "@ + m,
    }
}

impl SystemError {
    /// A copy of this error.
    pub fn duplicate(&self) -> (r: SystemError)
        ensures
            r@ == self@,
    {
        match self {
            SystemError::NotFound(s) => SystemError::NotFound(s.clone()),
            SystemError::PermissionDenied(s) => SystemError::PermissionDenied(s.clone()),
            SystemError::InvalidData(s) => SystemError::InvalidData(s.clone()),
            SystemError::Io(s) => SystemError::Io(s.clone()),
        }
    }

    /// The message of this error, as it is shown to the user.
    pub fn message(&self) -> (r: String)
        ensures
            r@ == system_error_text(self@),
    {
        let mut out: Vec<char> = Vec::new();
        match self {
            SystemError::NotFound(s) => {
                crate::text::extend_str(&mut out, "not found: ");
                crate::text::extend_str(&mut out, s.as_str());
            },
            SystemError::PermissionDenied(s) => {
                crate::text::extend_str(&mut out, "permission denied: ");
                crate::text::extend_str(&mut out, s.as_str());
            },
            SystemError::InvalidData(s) => {
                crate::text::extend_str(&mut out, "invalid data: ");
                crate::text::extend_str(&mut out, s.as_str());
            },
            SystemError::Io(s) => {
                crate::text::extend_str(&mut out, "io error: ");
                crate::text::extend_str(&mut out, s.as_str());
            },
        }
        crate::text::string_from_chars(&out)
    }
}

/// A file read, taken by views.
pub open spec fn read_view(r: Result<String, SystemError>) -> Result<Seq<char>, SysFailure> {
    match r {
        Ok(s) => Ok(s@),
        Err(e) => Err(e@),
    }
}

/// A list of names taken by their characters.
pub open spec fn names_view(v: Seq<String>) -> Seq<Seq<char>> {
    v.map_values(|s: String| s@)
}

/// A directory listing, taken by views.
pub open spec fn list_view(r: Result<Vec<String>, SystemError>) -> Result<
    Seq<Seq<char>>,
    SysFailure,
> {
    match r {
        Ok(v) => Ok(names_view(v@)),
        Err(e) => Err(e@),
    }
}

/// A signal delivery, taken by views.
pub open spec fn sent_view(r: Result<(), SystemError>) -> Result<(), SysFailure> {
    match r {
        Ok(()) => Ok(()),
        Err(e) => Err(e@),
    }
}

/// Access to the operating system: files under `/proc`, the `/proc`
/// directory and signals.
///
/// Each method's answer is described by a relation of the implementing type
/// (`*_gives`): it holds of every answer that the method may give for those
/// arguments.
pub trait SystemInterface {
    /// `r` is an answer that `read_file(path)` may give. An implementation
    /// that does not describe its answers admits every answer.
    open spec fn read_file_gives(&self, path: Seq<char>, r: Result<Seq<char>, SysFailure>) -> bool {
        true
    }

    /// `r` is an answer that `read_dir(path)` may give (every answer, unless
    /// the implementation says otherwise).
    open spec fn read_dir_gives(&self, path: Seq<char>, r: Result<Seq<Seq<char>>, SysFailure>) -> bool {
        true
    }

    /// `r` is an answer that `send_signal(pid, signal)` may give (every
    /// answer, unless the implementation says otherwise).
    open spec fn send_signal_gives(&self, pid: i32, signal: SignalKind, r: Result<(), SysFailure>) -> bool {
        true
    }

    /// Reads the whole file at `path` as text.
    fn read_file(&self, path: &str) -> (r: Result<String, SystemError>)
        ensures
            self.read_file_gives(path@, read_view(r)),
    ;

    /// Lists the names in the directory at `path`.
    fn read_dir(&self, path: &str) -> (r: Result<Vec<String>, SystemError>)
        ensures
            self.read_dir_gives(path@, list_view(r)),
    ;

    /// Sends `signal` to the process `pid`.
    fn send_signal(&self, pid: i32, signal: SignalKind) -> (r: Result<(), SystemError>)
        ensures
            self.send_signal_gives(pid, signal, sent_view(r)),
    ;

    /// Sends `SIGKILL` to the process `pid`.
    fn kill_process(&self, pid: i32) -> (r: Result<(), SystemError>)
        ensures
            self.send_signal_gives(pid, SignalKind::Kill, sent_view(r)),
    {
        self.send_signal(pid, SignalKind::Kill)
    }
}

// ---------------------------------------------------------------------------
// MockSystem
// ---------------------------------------------------------------------------
/// The answers that a `MockSystem` holds, taken by views, in the order in
/// which they were set up.
pub struct MockView {
    pub files: Seq<(Seq<char>, Result<Seq<char>, SysFailure>)>,
    pub dirs: Seq<(Seq<char>, Result<Seq<Seq<char>>, SysFailure>)>,
    pub signals: Seq<(i32, SignalKind, Result<(), SysFailure>)>,
}

/// The value most recently set up for `key`, if any.
pub open spec fn last_value<K, V>(entries: Seq<(K, V)>, key: K) -> Option<V>
    decreases entries.len(),
{
    if entries.len() == 0 {
        None
    } else if entries.last().0 == key {
        Some(entries.last().1)
    } else {
        last_value(entries.drop_last(), key)
    }
}

/// The delivery result most recently set up for `pid` and `signal`, if any.
pub open spec fn last_signal(
    entries: Seq<(i32, SignalKind, Result<(), SysFailure>)>,
    pid: i32,
    signal: SignalKind,
) -> Option<Result<(), SysFailure>>
    decreases entries.len(),
{
    if entries.len() == 0 {
        None
    } else if entries.last().0 == pid && entries.last().1 == signal {
        Some(entries.last().2)
    } else {
        last_signal(entries.drop_last(), pid, signal)
    }
}

impl MockView {
    /// What reading `path` gives: the answer set up last for it, else not found.
    pub open spec fn file_result(self, path: Seq<char>) -> Result<Seq<char>, SysFailure> {
        match last_value(self.files, path) {
            Some(r) => r,
            None => Err(SysFailure::NotFound(path)),
        }
    }

    /// What listing `path` gives: the answer set up last for it, else not found.
    pub open spec fn dir_result(self, path: Seq<char>) -> Result<Seq<Seq<char>>, SysFailure> {
        match last_value(self.dirs, path) {
            Some(r) => r,
            None => Err(SysFailure::NotFound(path)),
        }
    }

    /// What sending `signal` to `pid` gives: the answer set up last for the
    /// pair, else success.
    pub open spec fn signal_result(self, pid: i32, signal: SignalKind) -> Result<(), SysFailure> {
        match last_signal(self.signals, pid, signal) {
            Some(r) => r,
            None => Ok(()),
        }
    }
}

/// An in-memory system: files, directories and signal results are set up in
/// advance and handed back on request.
pub struct MockSystem {
    files: Vec<(String, Result<String, SystemError>)>,
    dirs: Vec<(String, Result<Vec<String>, SystemError>)>,
    signals: Vec<(i32, SignalKind, Result<(), SystemError>)>,
}

impl View for MockSystem {
    type V = MockView;

    closed spec fn view(&self) -> MockView {
        MockView {
            files: self.files@.map_values(
                |e: (String, Result<String, SystemError>)| (e.0@, read_view(e.1)),
            ),
            dirs: self.dirs@.map_values(
                |e: (String, Result<Vec<String>, SystemError>)| (e.0@, list_view(e.1)),
            ),
            signals: self.signals@.map_values(
                |e: (i32, SignalKind, Result<(), SystemError>)| (e.0, e.1, sent_view(e.2)),
            ),
        }
    }
}

/// A copy of a list of names.
fn copy_names(v: &Vec<String>) -> (r: Vec<String>)
    ensures
        names_view(r@) == names_view(v@),
{
    let mut out: Vec<String> = Vec::new();
    let mut i: usize = 0;
    while i < v.len()
        invariant
            i <= v.len(),
            names_view(out@) == names_view(v@).take(i as int),
        decreases v.len() - i,
    {
        let s = v[i].clone();
        let ghost before = out@;
        out.push(s);
        assert(names_view(out@) =~= names_view(before).push(s@));
        assert(names_view(v@).take(i + 1) =~= names_view(v@).take(i as int).push(v@[i as int]@));
        i = i + 1;
    }
    assert(names_view(v@).take(v.len() as int) =~= names_view(v@));
    out
}

impl MockSystem {
    /// A system with nothing set up: every file and directory is missing and
    /// every signal is delivered.
    pub fn new() -> (r: Self)
        ensures
            r@.files.len() == 0,
            r@.dirs.len() == 0,
            r@.signals.len() == 0,
    {
        MockSystem { files: Vec::new(), dirs: Vec::new(), signals: Vec::new() }
    }

    /// This system, where reading `path` gives `content`.
    pub fn with_file(self, path: &str, content: &str) -> (r: Self)
        ensures
            r@ == (MockView { files: self@.files.push((path@, Ok(content@))), ..self@ }),
    {
        let mut s = self;
        let ghost before = s@;
        s.files.push((path.to_owned(), Ok(content.to_owned())));
        assert(s@.files =~= before.files.push((path@, Ok(content@))));
        assert(s@.dirs =~= before.dirs);
        assert(s@.signals =~= before.signals);
        s
    }

    /// This system, where reading `path` fails with `error`.
    pub fn with_file_error(self, path: &str, error: SystemError) -> (r: Self)
        ensures
            r@ == (MockView { files: self@.files.push((path@, Err(error@))), ..self@ }),
    {
        let mut s = self;
        let ghost before = s@;
        s.files.push((path.to_owned(), Err(error)));
        assert(s@.files =~= before.files.push((path@, Err(error@))));
        assert(s@.dirs =~= before.dirs);
        assert(s@.signals =~= before.signals);
        s
    }

    /// This system, where listing `path` gives `entries`.
    pub fn with_dir(self, path: &str, entries: Vec<String>) -> (r: Self)
        ensures
            r@ == (MockView { dirs: self@.dirs.push((path@, Ok(names_view(entries@)))), ..self@ }),
    {
        let mut s = self;
        let ghost before = s@;
        let ghost ev = names_view(entries@);
        s.dirs.push((path.to_owned(), Ok(entries)));
        assert(s@.dirs =~= before.dirs.push((path@, Ok(ev))));
        assert(s@.files =~= before.files);
        assert(s@.signals =~= before.signals);
        s
    }

    /// This system, where listing `path` fails with `error`.
    pub fn with_dir_error(self, path: &str, error: SystemError) -> (r: Self)
        ensures
            r@ == (MockView { dirs: self@.dirs.push((path@, Err(error@))), ..self@ }),
    {
        let mut s = self;
        let ghost before = s@;
        s.dirs.push((path.to_owned(), Err(error)));
        assert(s@.dirs =~= before.dirs.push((path@, Err(error@))));
        assert(s@.files =~= before.files);
        assert(s@.signals =~= before.signals);
        s
    }

    /// This system, where sending `signal` to `pid` gives `result`.
    pub fn with_signal_result(self, pid: i32, signal: SignalKind, result: Result<(), SystemError>) -> (r:
        Self)
        ensures
            r@ == (MockView {
                signals: self@.signals.push((pid, signal, sent_view(result))),
                ..self@
            }),
    {
        let mut s = self;
        let ghost before = s@;
        let ghost rv = sent_view(result);
        s.signals.push((pid, signal, result));
        assert(s@.signals =~= before.signals.push((pid, signal, rv)));
        assert(s@.files =~= before.files);
        assert(s@.dirs =~= before.dirs);
        s
    }
}

/// A copy of a file read.
fn copy_read(r: &Result<String, SystemError>) -> (c: Result<String, SystemError>)
    ensures
        read_view(c) == read_view(*r),
{
    match r {
        Ok(s) => Ok(s.clone()),
        Err(e) => Err(e.duplicate()),
    }
}

/// A copy of a directory listing.
fn copy_list(r: &Result<Vec<String>, SystemError>) -> (c: Result<Vec<String>, SystemError>)
    ensures
        list_view(c) == list_view(*r),
{
    match r {
        Ok(v) => Ok(copy_names(v)),
        Err(e) => Err(e.duplicate()),
    }
}

/// A copy of a signal delivery result.
fn copy_sent(r: &Result<(), SystemError>) -> (c: Result<(), SystemError>)
    ensures
        sent_view(c) == sent_view(*r),
{
    match r {
        Ok(()) => Ok(()),
        Err(e) => Err(e.duplicate()),
    }
}

impl SystemInterface for MockSystem {
    open spec fn read_file_gives(&self, path: Seq<char>, r: Result<Seq<char>, SysFailure>) -> bool {
        r == self@.file_result(path)
    }

    open spec fn read_dir_gives(&self, path: Seq<char>, r: Result<Seq<Seq<char>>, SysFailure>) -> bool {
        r == self@.dir_result(path)
    }

    open spec fn send_signal_gives(&self, pid: i32, signal: SignalKind, r: Result<(), SysFailure>) -> bool {
        r == self@.signal_result(pid, signal)
    }

    fn read_file(&self, path: &str) -> (r: Result<String, SystemError>) {
        let ghost fv = self@.files;
        let p = path.to_owned();
        let mut k = self.files.len();
        assert(fv.take(k as int) =~= fv);
        while k > 0
            invariant
                k <= self.files.len(),
                fv == self@.files,
                p@ == path@,
                fv.len() == self.files.len(),
                last_value(fv, path@) == last_value(fv.take(k as int), path@),
            decreases k,
        {
            let ghost t = fv.take(k as int);
            assert(t.drop_last() =~= fv.take(k - 1));
            assert(t.last() == fv[k - 1]);
            assert(fv[k - 1] == (self.files@[k - 1].0@, read_view(self.files@[k - 1].1)));
            if self.files[k - 1].0 == p {
                assert(fv[k - 1].0 == path@);
                assert(last_value(t, path@) == Some(fv[k - 1].1));
                return copy_read(&self.files[k - 1].1);
            }
            assert(fv[k - 1].0 != path@);
            assert(last_value(t, path@) == last_value(t.drop_last(), path@));
            k = k - 1;
        }
        assert(fv.take(0) =~= seq![]);
        Err(SystemError::NotFound(path.to_owned()))
    }

    fn read_dir(&self, path: &str) -> (r: Result<Vec<String>, SystemError>) {
        let ghost dv = self@.dirs;
        let p = path.to_owned();
        let mut k = self.dirs.len();
        assert(dv.take(k as int) =~= dv);
        while k > 0
            invariant
                k <= self.dirs.len(),
                dv == self@.dirs,
                p@ == path@,
                dv.len() == self.dirs.len(),
                last_value(dv, path@) == last_value(dv.take(k as int), path@),
            decreases k,
        {
            let ghost t = dv.take(k as int);
            assert(t.drop_last() =~= dv.take(k - 1));
            assert(t.last() == dv[k - 1]);
            assert(dv[k - 1] == (self.dirs@[k - 1].0@, list_view(self.dirs@[k - 1].1)));
            if self.dirs[k - 1].0 == p {
                assert(dv[k - 1].0 == path@);
                assert(last_value(t, path@) == Some(dv[k - 1].1));
                return copy_list(&self.dirs[k - 1].1);
            }
            assert(dv[k - 1].0 != path@);
            assert(last_value(t, path@) == last_value(t.drop_last(), path@));
            k = k - 1;
        }
        assert(dv.take(0) =~= seq![]);
        Err(SystemError::NotFound(path.to_owned()))
    }

    fn send_signal(&self, pid: i32, signal: SignalKind) -> (r: Result<(), SystemError>) {
        let ghost sv = self@.signals;
        let mut k = self.signals.len();
        assert(sv.take(k as int) =~= sv);
        while k > 0
            invariant
                k <= self.signals.len(),
                sv == self@.signals,
                sv.len() == self.signals.len(),
                last_signal(sv, pid, signal) == last_signal(sv.take(k as int), pid, signal),
            decreases k,
        {
            let ghost t = sv.take(k as int);
            assert(t.drop_last() =~= sv.take(k - 1));
            assert(t.last() == sv[k - 1]);
            let e = &self.signals[k - 1];
            assert(sv[k - 1] == (e.0, e.1, sent_view(e.2)));
            if e.0 == pid && e.1 == signal {
                return copy_sent(&e.2);
            }
            k = k - 1;
        }
        assert(sv.take(0) =~= seq![]);
        Ok(())
    }
}

// ---------------------------------------------------------------------------
// Laws of the in-memory system
// ---------------------------------------------------------------------------
/// A mock with nothing set up: every file and directory is missing (with its
/// path as the error text) and every signal is delivered.
pub proof fn lemma_mock_empty(path: Seq<char>, pid: i32, signal: SignalKind)
    ensures
        (MockView { files: seq![], dirs: seq![], signals: seq![] }).file_result(path) == Err::<
            Seq<char>,
            SysFailure,
        >(SysFailure::NotFound(path)),
        (MockView { files: seq![], dirs: seq![], signals: seq![] }).dir_result(path) == Err::<
            Seq<Seq<char>>,
            SysFailure,
        >(SysFailure::NotFound(path)),
        (MockView { files: seq![], dirs: seq![], signals: seq![] }).signal_result(pid, signal) == Ok::<
            (),
            SysFailure,
        >(()),
{
}

/// Reading a path gives what was set up for it last; setting up a path
/// leaves what other paths give unchanged.
pub proof fn lemma_mock_file_read_back(
    m: MockView,
    path: Seq<char>,
    r: Result<Seq<char>, SysFailure>,
    other: Seq<char>,
)
    ensures
        (MockView { files: m.files.push((path, r)), ..m }).file_result(path) == r,
        other != path ==> (MockView { files: m.files.push((path, r)), ..m }).file_result(other)
            == m.file_result(other),
{
    let f = m.files.push((path, r));
    assert(f.drop_last() =~= m.files);
}

/// Listing a directory gives what was set up for it last; setting up a
/// directory leaves what other directories give unchanged.
pub proof fn lemma_mock_dir_read_back(
    m: MockView,
    path: Seq<char>,
    r: Result<Seq<Seq<char>>, SysFailure>,
    other: Seq<char>,
)
    ensures
        (MockView { dirs: m.dirs.push((path, r)), ..m }).dir_result(path) == r,
        other != path ==> (MockView { dirs: m.dirs.push((path, r)), ..m }).dir_result(other)
            == m.dir_result(other),
{
    let d = m.dirs.push((path, r));
    assert(d.drop_last() =~= m.dirs);
}

/// Sending a signal to a process gives what was set up last for the pair;
/// setting up a pair leaves what other pairs give unchanged.
pub proof fn lemma_mock_signal_read_back(
    m: MockView,
    pid: i32,
    signal: SignalKind,
    r: Result<(), SysFailure>,
    other_pid: i32,
    other_signal: SignalKind,
)
    ensures
        (MockView { signals: m.signals.push((pid, signal, r)), ..m }).signal_result(pid, signal) == r,
        (other_pid != pid || other_signal != signal) ==> (MockView {
            signals: m.signals.push((pid, signal, r)),
            ..m
        }).signal_result(other_pid, other_signal) == m.signal_result(other_pid, other_signal),
{
    let g = m.signals.push((pid, signal, r));
    assert(g.drop_last() =~= m.signals);
}

} // verus!
