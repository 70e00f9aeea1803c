//! Parsers for the text files under `/proc` that the monitor reads:
//! `/proc/stat`, `/proc/<pid>/stat`, `/proc/<pid>/status`,
//! `/proc/<pid>/statm` and `/proc/meminfo`.
//!
//! Each parser is stated against a spec function over the characters of the
//! file (`content@`) that says which value or which error comes out.
use vstd::prelude::*;
use vstd::string::*;
use crate::metrics::MemInfo;
use crate::text::{
    flush, is_ws, lines_from, strip_cr, trim_end, trim_start,
    chars_occur_at, chars_of, extend_str, i32_of, i64_of, line_ranges, lines, occurs_at, parse_i32,
    parse_i64, parse_u64, ranges_in, slices, starts_with, string_from_chars, trim, trim_range,
    u64_of, word_ranges, words, words_from, dec, is_digit, lemma_dec_digits, lemma_u64_of_dec,
};

verus! {

/// Why a `/proc` file could not be parsed.
#[derive(Debug, Clone, PartialEq, Eq)]
pub enum ParseError {
    MissingField(&'static str),
    InvalidNumber(String),
    InvalidFormat(String),
}

/// A `ParseError` with its text payload taken as characters.
pub enum ParseFailure {
    MissingField(Seq<char>),
    InvalidNumber(Seq<char>),
    InvalidFormat(Seq<char>),
}

impl View for ParseError {
    type V = ParseFailure;

    open spec fn view(&self) -> ParseFailure {
        match self {
            ParseError::MissingField(f) => ParseFailure::MissingField(f@),
            ParseError::InvalidNumber(s) => ParseFailure::InvalidNumber(s@),
            ParseError::InvalidFormat(s) => ParseFailure::InvalidFormat(s@),
        }
    }
}

/// A parse result with its error taken by its view.
pub open spec fn res_view<T>(r: Result<T, ParseError>) -> Result<T, ParseFailure> {
    match r {
        Ok(v) => Ok(v),
        Err(e) => Err(e@),
    }
}

/// The text of a parse error, as it is shown to the user.
pub open spec fn parse_error_text(e: ParseFailure) -> Seq<char> {
    match e {
        ParseFailure::MissingField(f) => "missing field: "@ + f,
        ParseFailure::InvalidNumber(v) => "invalid number: "@ + v,
        ParseFailure::InvalidFormat(m) => "invalid format: "@ + m,
    }
}

impl ParseError {
    /// The message of this error, as it is shown to the user.
    pub fn message(&self) -> (r: String)
        ensures
            r@ == parse_error_text(self@),
    {
        let mut out: Vec<char> = Vec::new();
        match self {
            ParseError::MissingField(f) => {
                extend_str(&mut out, "missing field: ");
                extend_str(&mut out, f);
            },
            ParseError::InvalidNumber(s) => {
                extend_str(&mut out, "invalid number: ");
                extend_str(&mut out, s.as_str());
            },
            ParseError::InvalidFormat(s) => {
                extend_str(&mut out, "invalid format: ");
                extend_str(&mut out, s.as_str());
            },
        }
        string_from_chars(&out)
    }
}

// ---------------------------------------------------------------------------
// Specifications
// ---------------------------------------------------------------------------
/// The index of the first of `ls[k..]` that begins with `p`.
pub open spec fn first_prefixed(ls: Seq<Seq<char>>, p: Seq<char>, k: int) -> Option<int>
    decreases ls.len() - k,
{
    if k < 0 || k >= ls.len() {
        None
    } else if starts_with(ls[k], p) {
        Some(k)
    } else {
        first_prefixed(ls, p, k + 1)
    }
}

/// Every word parsed as a `u64`, or the first word that is not one.
pub open spec fn parse_all_u64(ws: Seq<Seq<char>>) -> Result<Seq<u64>, Seq<char>>
    decreases ws.len(),
{
    if ws.len() == 0 {
        Ok(seq![])
    } else {
        match u64_of(ws[0]) {
            None => Err(ws[0]),
            Some(v) => match parse_all_u64(ws.drop_first()) {
                Ok(rest) => Ok(seq![v] + rest),
                Err(w) => Err(w),
            },
        }
    }
}

/// The exact sum of some numbers.
pub open spec fn sum_u64(ns: Seq<u64>) -> nat
    decreases ns.len(),
{
    if ns.len() == 0 {
        0
    } else {
        sum_u64(ns.drop_last()) + ns.last() as nat
    }
}

/// `a + b`, saturated at `u64::MAX`.
pub open spec fn sat_add(a: nat, b: nat) -> u64 {
    if a + b > u64::MAX {
        u64::MAX
    } else {
        (a + b) as u64
    }
}

/// `a * b`, saturated at `u64::MAX` (`u64::saturating_mul`).
pub open spec fn sat_mul(a: u64, b: u64) -> u64 {
    if a * b > u64::MAX {
        u64::MAX
    } else {
        (a * b) as u64
    }
}

/// `a * b`, saturated at `u64::MAX`.
pub fn saturating_mul_u64(a: u64, b: u64) -> (r: u64)
    ensures
        r == sat_mul(a, b),
{
    match a.checked_mul(b) {
        Some(v) => v,
        None => u64::MAX,
    }
}

/// What `parse_proc_stat_totals` gives for the text of `/proc/stat`: the
/// total of the aggregate `cpu ` line and its idle time (idle plus iowait),
/// both saturated at `u64::MAX`.
pub open spec fn proc_stat_totals(content: Seq<char>) -> Result<(u64, u64), ParseFailure> {
    let ls = lines(content);
    match first_prefixed(ls, "cpu "@, 0) {
        None => Err(ParseFailure::MissingField("cpu"@)),
        Some(k) => cpu_line_totals(words(ls[k])),
    }
}

/// The totals of the words `ws` of the aggregate `cpu ` line.
pub open spec fn cpu_line_totals(ws: Seq<Seq<char>>) -> Result<(u64, u64), ParseFailure> {
    if ws.len() == 0 {
        Err(ParseFailure::MissingField("cpu label"@))
    } else {
        match parse_all_u64(ws.drop_first()) {
            Err(w) => Err(ParseFailure::InvalidNumber(w)),
            Ok(nums) => if nums.len() < 4 {
                Err(
                    ParseFailure::InvalidFormat(
                        "cpu line must include at least four numeric fields"@,
                    ),
                )
            } else {
                let iowait: nat = if nums.len() > 4 {
                    nums[4] as nat
                } else {
                    0
                };
                Ok((sat_add(sum_u64(nums), 0), sat_add(nums[3] as nat, iowait)))
            },
        }
    }
}

/// The index of the last occurrence of `pat` in `s` that starts before `k`.
pub open spec fn rfind_below(s: Seq<char>, pat: Seq<char>, k: int) -> Option<int>
    decreases k,
{
    if k <= 0 {
        None
    } else if occurs_at(s, k - 1, pat) {
        Some(k - 1)
    } else {
        rfind_below(s, pat, k - 1)
    }
}

/// The index of the last occurrence of `pat` in `s` (`str::rfind`).
pub open spec fn rfind(s: Seq<char>, pat: Seq<char>) -> Option<int> {
    rfind_below(s, pat, s.len() as int)
}

/// The fields of a `/proc/<pid>/stat` line after the command name: the words
/// after the last `") "`.
pub open spec fn stat_tail_fields(content: Seq<char>) -> Result<Seq<Seq<char>>, ParseFailure> {
    match rfind(content, ") "@) {
        None => Err(ParseFailure::InvalidFormat("missing command terminator"@)),
        Some(i) => {
            let fields = words(content.skip(i + 2));
            if fields.len() == 0 {
                Err(ParseFailure::InvalidFormat("proc stat tail has no fields"@))
            } else {
                Ok(fields)
            }
        },
    }
}

/// What `parse_parent_pid_from_stat` gives: the second field after the
/// command name, as an `i32`.
pub open spec fn parent_pid_of_stat(content: Seq<char>) -> Result<i32, ParseFailure> {
    match stat_tail_fields(content) {
        Err(e) => Err(e),
        Ok(fields) => if fields.len() < 2 {
            Err(ParseFailure::MissingField("ppid"@))
        } else {
            match i32_of(fields[1]) {
                Some(v) => Ok(v),
                None => Err(ParseFailure::InvalidNumber(fields[1])),
            }
        },
    }
}

/// What `parse_priority_from_stat` gives: the sixteenth field after the
/// command name, as an `i64`.
pub open spec fn priority_of_stat(content: Seq<char>) -> Result<i64, ParseFailure> {
    match stat_tail_fields(content) {
        Err(e) => Err(e),
        Ok(fields) => if fields.len() < 16 {
            Err(ParseFailure::MissingField("priority"@))
        } else {
            match i64_of(fields[15]) {
                Some(v) => Ok(v),
                None => Err(ParseFailure::InvalidNumber(fields[15])),
            }
        },
    }
}

/// The state word of `/proc/<pid>/status`: none when no line begins with
/// `State:`, a missing word when the first such line has no second word, and
/// otherwise that second word.
pub open spec fn status_state(content: Seq<char>) -> Option<Option<Seq<char>>> {
    let ls = lines(content);
    match first_prefixed(ls, "State:"@, 0) {
        None => None,
        Some(k) => {
            let ws = words(ls[k]);
            if ws.len() < 2 {
                Some(None)
            } else {
                Some(Some(ws[1]))
            }
        },
    }
}

/// Whether a state word names the stopped state `T`.
pub open spec fn stopped_state(state: Option<Option<Seq<char>>>) -> Option<Option<bool>> {
    match state {
        None => None,
        Some(None) => Some(None),
        Some(Some(w)) => Some(Some(w == "T"@)),
    }
}

/// What `parse_process_status` gives for `/proc/<pid>/status`: whether the
/// first `State:` line names the state `T` (stopped).
pub open spec fn process_status(content: Seq<char>) -> Result<bool, ParseFailure> {
    match stopped_state(status_state(content)) {
        None => Err(ParseFailure::MissingField("State"@)),
        Some(None) => Err(ParseFailure::MissingField("state"@)),
        Some(Some(b)) => Ok(b),
    }
}

/// What `parse_statm_shared_pages` gives for `/proc/<pid>/statm`: its third
/// field.
pub open spec fn statm_shared_pages(content: Seq<char>) -> Result<u64, ParseFailure> {
    let parts = words(content);
    if parts.len() < 3 {
        Err(ParseFailure::MissingField("statm shared pages"@))
    } else {
        match u64_of(parts[2]) {
            Some(v) => Ok(v),
            None => Err(ParseFailure::InvalidNumber(parts[2])),
        }
    }
}

/// The first index at or after `k` where `s` holds `c`, or `s.len()`.
pub open spec fn find_char_from(s: Seq<char>, c: char, k: int) -> int
    decreases s.len() - k,
{
    if k < 0 || k >= s.len() {
        s.len() as int
    } else if s[k] == c {
        k
    } else {
        find_char_from(s, c, k + 1)
    }
}

/// The key and the value text of a `/proc/meminfo` line: the two first
/// pieces of `line.split(':')`, trimmed, if there are two.
pub open spec fn meminfo_key_value(line: Seq<char>) -> Option<(Seq<char>, Seq<char>)> {
    let c1 = find_char_from(line, ':', 0);
    if c1 >= line.len() {
        None
    } else {
        let c2 = find_char_from(line, ':', c1 + 1);
        Some((trim(line.take(c1)), trim(line.subrange(c1 + 1, c2))))
    }
}

/// The byte count that a `/proc/meminfo` line gives, if it gives one: the
/// first word of the value in KiB, times 1024, saturated.
pub open spec fn meminfo_line_bytes(line: Seq<char>) -> Option<(Seq<char>, u64)> {
    match meminfo_key_value(line) {
        None => None,
        Some((key, val)) => {
            let ws = words(val);
            if ws.len() == 0 {
                None
            } else {
                match u64_of(ws[0]) {
                    None => None,
                    Some(kb) => Some((key, sat_mul(kb, 1024))),
                }
            }
        },
    }
}

/// The memory figures that the lines `ls` set, starting from `m`: each line
/// with a known key sets its figure, later lines overriding earlier ones.
pub open spec fn meminfo_fold(ls: Seq<Seq<char>>) -> MemInfo
    decreases ls.len(),
{
    if ls.len() == 0 {
        MemInfo { total: 0, free: 0, buffers: 0, cached: 0, sreclaimable: 0, shmem: 0, available: 0 }
    } else {
        let m = meminfo_fold(ls.drop_last());
        match meminfo_line_bytes(ls.last()) {
            None => m,
            Some((key, b)) => meminfo_set(m, key, b),
        }
    }
}

/// `m` with the figure named `key` set to `b`, if `key` names one.
pub open spec fn meminfo_set(m: MemInfo, key: Seq<char>, b: u64) -> MemInfo {
    if key == "MemTotal"@ {
        MemInfo { total: b, ..m }
    } else if key == "MemFree"@ {
        MemInfo { free: b, ..m }
    } else if key == "Buffers"@ {
        MemInfo { buffers: b, ..m }
    } else if key == "Cached"@ {
        MemInfo { cached: b, ..m }
    } else if key == "SReclaimable"@ {
        MemInfo { sreclaimable: b, ..m }
    } else if key == "Shmem"@ {
        MemInfo { shmem: b, ..m }
    } else if key == "MemAvailable"@ {
        MemInfo { available: b, ..m }
    } else {
        m
    }
}

/// What `parse_meminfo` gives: the figures of `/proc/meminfo`, or a missing
/// `MemTotal` when the total is zero.
pub open spec fn meminfo_of(content: Seq<char>) -> Result<MemInfo, ParseFailure> {
    let m = meminfo_fold(lines(content));
    if m.total == 0 {
        Err(ParseFailure::MissingField("MemTotal"@))
    } else {
        Ok(m)
    }
}

/// A list of fields taken by their characters.
pub open spec fn strs_view(v: Seq<&str>) -> Seq<Seq<char>> {
    v.map_values(|s: &str| s@)
}

/// A list of fields or an error, taken by views.
pub open spec fn fields_res_view(r: Result<Vec<&str>, ParseError>) -> Result<
    Seq<Seq<char>>,
    ParseFailure,
> {
    match r {
        Ok(v) => Ok(strs_view(v@)),
        Err(e) => Err(e@),
    }
}

// ---------------------------------------------------------------------------
// Helpers
// ---------------------------------------------------------------------------
/// Whether `chars[a..b]` begins with `pat`.
fn range_starts_with(chars: &Vec<char>, a: usize, b: usize, pat: &Vec<char>) -> (r: bool)
    requires
        a <= b <= chars.len(),
    ensures
        r == starts_with(chars@.subrange(a as int, b as int), pat@),
{
    if pat.len() > b - a {
        return false;
    }
    assert(chars@.subrange(a as int, b as int).take(pat.len() as int) =~= chars@.subrange(
        a as int,
        a + pat.len(),
    ));
    chars_occur_at(chars, a, pat)
}

/// Whether `chars[a..b]` is exactly `pat`.
pub(crate) fn range_equals(chars: &Vec<char>, a: usize, b: usize, pat: &Vec<char>) -> (r: bool)
    requires
        a <= b <= chars.len(),
    ensures
        r == (chars@.subrange(a as int, b as int) == pat@),
{
    if pat.len() != b - a {
        return false;
    }
    chars_occur_at(chars, a, pat)
}

/// The index of the first line that begins with `pat`.
fn find_prefixed_line(chars: &Vec<char>, ls: &Vec<(usize, usize)>, pat: &Vec<char>) -> (r: Option<
    usize,
>)
    requires
        ranges_in(ls@, 0, chars.len() as int),
    ensures
        match r {
            Some(k) => k < ls.len() && first_prefixed(slices(chars@, ls@), pat@, 0) == Some(
                k as int,
            ),
            None => first_prefixed(slices(chars@, ls@), pat@, 0) == None::<int>,
        },
{
    let ghost all = slices(chars@, ls@);
    let mut k: usize = 0;
    while k < ls.len()
        invariant
            k <= ls.len(),
            all == slices(chars@, ls@),
            ranges_in(ls@, 0, chars.len() as int),
            first_prefixed(all, pat@, 0) == first_prefixed(all, pat@, k as int),
        decreases ls.len() - k,
    {
        let (a, b) = ls[k];
        assert(all[k as int] == chars@.subrange(a as int, b as int));
        if range_starts_with(chars, a, b, pat) {
            return Some(k);
        }
        k = k + 1;
    }
    None
}

/// The string made of `chars[a..b]`.
pub(crate) fn string_of_range(chars: &Vec<char>, a: usize, b: usize) -> (r: String)
    requires
        a <= b <= chars.len(),
    ensures
        r@ == chars@.subrange(a as int, b as int),
{
    let mut v: Vec<char> = Vec::new();
    let mut i = a;
    while i < b
        invariant
            a <= i <= b <= chars.len(),
            v@ == chars@.subrange(a as int, i as int),
        decreases b - i,
    {
        v.push(chars[i]);
        assert(chars@.subrange(a as int, i as int).push(chars@[i as int]) =~= chars@.subrange(
            a as int,
            i + 1,
        ));
        i = i + 1;
    }
    string_from_chars(&v)
}

/// A list of numbers or the first failing word, with `done` put in front.
pub open spec fn prepend_nums(done: Seq<u64>, r: Result<Seq<u64>, Seq<char>>) -> Result<
    Seq<u64>,
    Seq<char>,
> {
    match r {
        Ok(rest) => Ok(done + rest),
        Err(w) => Err(w),
    }
}

// ---------------------------------------------------------------------------
// Parsers
// ---------------------------------------------------------------------------
/// Parses the aggregate `cpu ` line of `/proc/stat` into its total and idle
/// jiffies.
pub fn parse_proc_stat_totals(content: &str) -> (r: Result<(u64, u64), ParseError>)
    ensures
        res_view(r) == proc_stat_totals(content@),
{
    let chars = chars_of(content);
    let ls = line_ranges(&chars);
    let ghost lsv = slices(chars@, ls@);
    let cpu = chars_of("cpu ");
    let k = match find_prefixed_line(&chars, &ls, &cpu) {
        None => {
            return Err(ParseError::MissingField("cpu"));
        },
        Some(k) => k,
    };
    let (a, b) = ls[k];
    assert(lsv[k as int] == chars@.subrange(a as int, b as int));
    let ws = word_ranges(&chars, a, b);
    let ghost w = slices(chars@, ws@);
    assert(proc_stat_totals(content@) == cpu_line_totals(w));
    if ws.len() == 0 {
        return Err(ParseError::MissingField("cpu label"));
    }
    let mut nums: Vec<u64> = Vec::new();
    let mut j: usize = 1;
    assert(w.drop_first() =~= w.skip(1));
    assert(prepend_nums(nums@, parse_all_u64(w.skip(1))) =~= parse_all_u64(w.skip(1))) by {
        match parse_all_u64(w.skip(1)) {
            Ok(rest) => {
                assert(nums@ + rest =~= rest);
            },
            Err(_) => {},
        }
    }
    while j < ws.len()
        invariant
            1 <= j <= ws.len(),
            w == slices(chars@, ws@),
            proc_stat_totals(content@) == cpu_line_totals(w),
            ranges_in(ws@, a as int, b as int),
            b <= chars.len(),
            parse_all_u64(w.drop_first()) == prepend_nums(nums@, parse_all_u64(w.skip(j as int))),
        decreases ws.len() - j,
    {
        let (x, y) = ws[j];
        assert(w[j as int] == chars@.subrange(x as int, y as int));
        let ghost t = w.skip(j as int);
        assert(t[0] == w[j as int]);
        assert(t.drop_first() =~= w.skip(j + 1));
        match parse_u64(&chars, x, y) {
            None => {
                assert(parse_all_u64(t) == Err::<Seq<u64>, Seq<char>>(t[0]));
                assert(parse_all_u64(w.drop_first()) == Err::<Seq<u64>, Seq<char>>(w[j as int]));
                let e = string_of_range(&chars, x, y);
                assert(e@ == w[j as int]);
                return Err(ParseError::InvalidNumber(e));
            },
            Some(v) => {
                let ghost before = nums@;
                nums.push(v);
                assert(prepend_nums(nums@, parse_all_u64(w.skip(j + 1))) == prepend_nums(
                    before,
                    parse_all_u64(t),
                )) by {
                    match parse_all_u64(w.skip(j + 1)) {
                        Ok(rest) => {
                            assert(nums@ + rest =~= before + (seq![v] + rest));
                        },
                        Err(_) => {},
                    }
                }
            },
        }
        j = j + 1;
    }
    assert(w.skip(j as int) =~= seq![]);
    assert(nums@ + seq![] =~= nums@);
    if nums.len() < 4 {
        return Err(
            ParseError::InvalidFormat(
                "cpu line must include at least four numeric fields".to_owned(),
            ),
        );
    }
    let mut total: u64 = 0;
    let mut i: usize = 0;
    assert(nums@.take(0) =~= seq![]);
    while i < nums.len()
        invariant
            i <= nums.len(),
            total == sat_add(sum_u64(nums@.take(i as int)), 0),
        decreases nums.len() - i,
    {
        assert(nums@.take(i + 1).drop_last() =~= nums@.take(i as int));
        total = total.saturating_add(nums[i]);
        i = i + 1;
    }
    assert(nums@.take(nums.len() as int) =~= nums@);
    let iowait = if nums.len() > 4 {
        nums[4]
    } else {
        0
    };
    let idle = nums[3].saturating_add(iowait);
    Ok((total, idle))
}

/// The index of the last occurrence of `pat` in `chars`.
fn rfind_chars(chars: &Vec<char>, pat: &Vec<char>) -> (r: Option<usize>)
    ensures
        match r {
            Some(i) => rfind(chars@, pat@) == Some(i as int) && occurs_at(chars@, i as int, pat@),
            None => rfind(chars@, pat@) == None::<int>,
        },
{
    let mut k = chars.len();
    while k > 0
        invariant
            k <= chars.len(),
            rfind(chars@, pat@) == rfind_below(chars@, pat@, k as int),
        decreases k,
    {
        if chars_occur_at(chars, k - 1, pat) {
            return Some(k - 1);
        }
        k = k - 1;
    }
    None
}

/// Splits a `/proc/<pid>/stat` line into the fields that follow the command
/// name (which may hold spaces and parentheses).
pub fn parse_proc_stat_tail_fields<'a>(content: &'a str) -> (r: Result<Vec<&'a str>, ParseError>)
    ensures
        fields_res_view(r) == stat_tail_fields(content@),
{
    let chars = chars_of(content);
    let pat = chars_of(") ");
    proof {
        reveal_strlit(") ");
    }
    let i = match rfind_chars(&chars, &pat) {
        None => {
            return Err(ParseError::InvalidFormat("missing command terminator".to_owned()));
        },
        Some(i) => i,
    };
    assert(pat@.len() == 2);
    assert(i + 2 <= chars.len());
    let ws = word_ranges(&chars, i + 2, chars.len());
    assert(chars@.skip(i + 2) =~= chars@.subrange(i + 2, chars.len() as int));
    let ghost w = slices(chars@, ws@);
    if ws.len() == 0 {
        return Err(ParseError::InvalidFormat("proc stat tail has no fields".to_owned()));
    }
    let mut out: Vec<&'a str> = Vec::new();
    let mut j: usize = 0;
    while j < ws.len()
        invariant
            j <= ws.len(),
            w == slices(chars@, ws@),
            chars@ == content@,
            ranges_in(ws@, 0, chars.len() as int),
            strs_view(out@) == w.take(j as int),
        decreases ws.len() - j,
    {
        let (x, y) = ws[j];
        let f = content.substring_char(x, y);
        assert(w[j as int] == chars@.subrange(x as int, y as int));
        assert(f@ == w[j as int]);
        let ghost before = out@;
        out.push(f);
        assert(strs_view(out@) =~= strs_view(before).push(f@));
        assert(strs_view(out@) =~= w.take(j + 1));
        j = j + 1;
    }
    assert(w.take(ws.len() as int) =~= w);
    Ok(out)
}

/// The value of `f` parsed as an `i32`, or the number error for `f`.
fn field_i32(f: &str) -> (r: Result<i32, ParseError>)
    ensures
        res_view(r) == match i32_of(f@) {
            Some(v) => Ok(v),
            None => Err(ParseFailure::InvalidNumber(f@)),
        },
{
    let fc = chars_of(f);
    assert(fc@.subrange(0, fc.len() as int) =~= fc@);
    match parse_i32(&fc, 0, fc.len()) {
        Some(v) => Ok(v),
        None => Err(ParseError::InvalidNumber(f.to_owned())),
    }
}

/// The value of `f` parsed as an `i64`, or the number error for `f`.
fn field_i64(f: &str) -> (r: Result<i64, ParseError>)
    ensures
        res_view(r) == match i64_of(f@) {
            Some(v) => Ok(v),
            None => Err(ParseFailure::InvalidNumber(f@)),
        },
{
    let fc = chars_of(f);
    assert(fc@.subrange(0, fc.len() as int) =~= fc@);
    match parse_i64(&fc, 0, fc.len()) {
        Some(v) => Ok(v),
        None => Err(ParseError::InvalidNumber(f.to_owned())),
    }
}

/// Parses the parent process id out of a `/proc/<pid>/stat` line.
pub fn parse_parent_pid_from_stat(content: &str) -> (r: Result<i32, ParseError>)
    ensures
        res_view(r) == parent_pid_of_stat(content@),
{
    let fields = match parse_proc_stat_tail_fields(content) {
        Ok(f) => f,
        Err(e) => {
            return Err(e);
        },
    };
    if fields.len() < 2 {
        return Err(ParseError::MissingField("ppid"));
    }
    assert(strs_view(fields@)[1] == fields@[1]@);
    field_i32(fields[1])
}

/// Parses the scheduling priority out of a `/proc/<pid>/stat` line.
pub fn parse_priority_from_stat(content: &str) -> (r: Result<i64, ParseError>)
    ensures
        res_view(r) == priority_of_stat(content@),
{
    let fields = match parse_proc_stat_tail_fields(content) {
        Ok(f) => f,
        Err(e) => {
            return Err(e);
        },
    };
    if fields.len() < 16 {
        return Err(ParseError::MissingField("priority"));
    }
    assert(strs_view(fields@)[15] == fields@[15]@);
    field_i64(fields[15])
}

/// Whether the state word of `/proc/<pid>/status` is `T`, when there is one.
pub fn status_stopped(content: &str) -> (r: Option<Option<bool>>)
    ensures
        r == stopped_state(status_state(content@)),
{
    let chars = chars_of(content);
    let ls = line_ranges(&chars);
    let ghost lsv = slices(chars@, ls@);
    let pat = chars_of("State:");
    let k = match find_prefixed_line(&chars, &ls, &pat) {
        None => {
            return None;
        },
        Some(k) => k,
    };
    let (a, b) = ls[k];
    assert(lsv[k as int] == chars@.subrange(a as int, b as int));
    let ws = word_ranges(&chars, a, b);
    let ghost w = slices(chars@, ws@);
    if ws.len() < 2 {
        return Some(None);
    }
    let (x, y) = ws[1];
    assert(w[1] == chars@.subrange(x as int, y as int));
    let t = chars_of("T");
    Some(Some(range_equals(&chars, x, y, &t)))
}

/// Parses `/proc/<pid>/status` into whether the process is stopped.
pub fn parse_process_status(content: &str) -> (r: Result<bool, ParseError>)
    ensures
        res_view(r) == process_status(content@),
{
    match status_stopped(content) {
        None => Err(ParseError::MissingField("State")),
        Some(None) => Err(ParseError::MissingField("state")),
        Some(Some(b)) => Ok(b),
    }
}

/// Parses the number of shared pages out of `/proc/<pid>/statm`.
pub fn parse_statm_shared_pages(content: &str) -> (r: Result<u64, ParseError>)
    ensures
        res_view(r) == statm_shared_pages(content@),
{
    let chars = chars_of(content);
    let ws = word_ranges(&chars, 0, chars.len());
    assert(chars@.subrange(0, chars.len() as int) =~= chars@);
    let ghost w = slices(chars@, ws@);
    if ws.len() < 3 {
        return Err(ParseError::MissingField("statm shared pages"));
    }
    let (x, y) = ws[2];
    assert(w[2] == chars@.subrange(x as int, y as int));
    match parse_u64(&chars, x, y) {
        Some(v) => Ok(v),
        None => Err(ParseError::InvalidNumber(string_of_range(&chars, x, y))),
    }
}

/// The first index in `from..b` where `chars` holds `c`, or `b`.
pub(crate) fn find_char_in(chars: &Vec<char>, a: usize, b: usize, c: char, from: usize) -> (r: usize)
    requires
        a <= from <= b <= chars.len(),
    ensures
        r == a + find_char_from(chars@.subrange(a as int, b as int), c, from - a),
        from <= r <= b,
{
    let ghost l = chars@.subrange(a as int, b as int);
    let mut i = from;
    while i < b
        invariant
            a <= from <= i <= b <= chars.len(),
            l == chars@.subrange(a as int, b as int),
            find_char_from(l, c, from - a) == find_char_from(l, c, i - a),
        decreases b - i,
    {
        assert(l[i - a] == chars@[i as int]);
        if chars[i] == c {
            return i;
        }
        i = i + 1;
    }
    i
}

/// The key range and byte count that line `chars[a..b]` of `/proc/meminfo` gives.
fn meminfo_line(chars: &Vec<char>, a: usize, b: usize) -> (r: Option<(usize, usize, u64)>)
    requires
        a <= b <= chars.len(),
    ensures
        match r {
            Some((ka, kb, v)) => ka <= kb <= chars.len() && meminfo_line_bytes(
                chars@.subrange(a as int, b as int),
            ) == Some((chars@.subrange(ka as int, kb as int), v)),
            None => meminfo_line_bytes(chars@.subrange(a as int, b as int)) == None::<
                (Seq<char>, u64),
            >,
        },
{
    let ghost l = chars@.subrange(a as int, b as int);
    let c1 = find_char_in(chars, a, b, ':', a);
    if c1 == b {
        return None;
    }
    let c2 = find_char_in(chars, a, b, ':', c1 + 1);
    assert(l.take(c1 - a) =~= chars@.subrange(a as int, c1 as int));
    assert(l.subrange(c1 - a + 1, c2 - a) =~= chars@.subrange(c1 + 1, c2 as int));
    let (ka, kb) = trim_range(chars, a, c1);
    let (va, vb) = trim_range(chars, c1 + 1, c2);
    let ws = word_ranges(chars, va, vb);
    let ghost w = slices(chars@, ws@);
    if ws.len() == 0 {
        return None;
    }
    let (x, y) = ws[0];
    assert(w[0] == chars@.subrange(x as int, y as int));
    match parse_u64(chars, x, y) {
        None => None,
        Some(kb_val) => Some((ka, kb, saturating_mul_u64(kb_val, 1024))),
    }
}

/// Parses `/proc/meminfo` into its memory figures, in bytes.
pub fn parse_meminfo(content: &str) -> (r: Result<MemInfo, ParseError>)
    ensures
        res_view(r) == meminfo_of(content@),
{
    let chars = chars_of(content);
    let ls = line_ranges(&chars);
    let ghost lsv = slices(chars@, ls@);
    let k_total = chars_of("MemTotal");
    let k_free = chars_of("MemFree");
    let k_buffers = chars_of("Buffers");
    let k_cached = chars_of("Cached");
    let k_srec = chars_of("SReclaimable");
    let k_shmem = chars_of("Shmem");
    let k_avail = chars_of("MemAvailable");
    let mut m = MemInfo {
        total: 0,
        free: 0,
        buffers: 0,
        cached: 0,
        sreclaimable: 0,
        shmem: 0,
        available: 0,
    };
    let mut k: usize = 0;
    assert(lsv.take(0) =~= seq![]);
    while k < ls.len()
        invariant
            k <= ls.len(),
            lsv == slices(chars@, ls@),
            ranges_in(ls@, 0, chars.len() as int),
            k_total@ == "MemTotal"@,
            k_free@ == "MemFree"@,
            k_buffers@ == "Buffers"@,
            k_cached@ == "Cached"@,
            k_srec@ == "SReclaimable"@,
            k_shmem@ == "Shmem"@,
            k_avail@ == "MemAvailable"@,
            m == meminfo_fold(lsv.take(k as int)),
        decreases ls.len() - k,
    {
        let (a, b) = ls[k];
        assert(lsv[k as int] == chars@.subrange(a as int, b as int));
        assert(lsv.take(k + 1).drop_last() =~= lsv.take(k as int));
        assert(lsv.take(k + 1).last() == lsv[k as int]);
        match meminfo_line(&chars, a, b) {
            None => {},
            Some((ka, kb, v)) => {
                if range_equals(&chars, ka, kb, &k_total) {
                    m.total = v;
                } else if range_equals(&chars, ka, kb, &k_free) {
                    m.free = v;
                } else if range_equals(&chars, ka, kb, &k_buffers) {
                    m.buffers = v;
                } else if range_equals(&chars, ka, kb, &k_cached) {
                    m.cached = v;
                } else if range_equals(&chars, ka, kb, &k_srec) {
                    m.sreclaimable = v;
                } else if range_equals(&chars, ka, kb, &k_shmem) {
                    m.shmem = v;
                } else if range_equals(&chars, ka, kb, &k_avail) {
                    m.available = v;
                }
            },
        }
        k = k + 1;
    }
    assert(lsv.take(ls.len() as int) =~= lsv);
    if m.total == 0 {
        return Err(ParseError::MissingField("MemTotal"));
    }
    Ok(m)
}

// ---------------------------------------------------------------------------
// Laws of the meminfo parser
// ---------------------------------------------------------------------------
/// Whether `key` names one of the memory figures.
pub open spec fn meminfo_key(key: Seq<char>) -> bool {
    key == "MemTotal"@ || key == "MemFree"@ || key == "Buffers"@ || key == "Cached"@ || key
        == "SReclaimable"@ || key == "Shmem"@ || key == "MemAvailable"@
}

/// A line of `/proc/meminfo` that sets no figure: it has no `:`, its value
/// does not start with a number, or its key names no figure.
pub open spec fn meminfo_ignores(line: Seq<char>) -> bool {
    match meminfo_line_bytes(line) {
        None => true,
        Some((key, _)) => !meminfo_key(key),
    }
}

/// Lines that set no figure can be dropped from anywhere in the lines.
proof fn lemma_fold_skips_line(ls1: Seq<Seq<char>>, x: Seq<char>, ls2: Seq<Seq<char>>)
    requires
        meminfo_ignores(x),
    ensures
        meminfo_fold(ls1 + seq![x] + ls2) == meminfo_fold(ls1 + ls2),
    decreases ls2.len(),
{
    if ls2.len() == 0 {
        assert((ls1 + seq![x] + ls2).drop_last() =~= ls1);
        assert(ls1 + ls2 =~= ls1);
    } else {
        lemma_fold_skips_line(ls1, x, ls2.drop_last());
        assert((ls1 + seq![x] + ls2).drop_last() =~= ls1 + seq![x] + ls2.drop_last());
        assert((ls1 + ls2).drop_last() =~= ls1 + ls2.drop_last());
        assert((ls1 + seq![x] + ls2).last() == ls2.last());
        assert((ls1 + ls2).last() == ls2.last());
    }
}

/// The lines of a text that ends with a line feed, followed by more text,
/// are its lines followed by the lines of the rest.
proof fn lemma_lines_split(a: Seq<char>, b: Seq<char>, cur: Seq<char>)
    requires
        a.len() > 0,
        a.last() == '\n',
    ensures
        lines_from(a + b, cur) == lines_from(a, cur) + lines_from(b, seq![]),
    decreases a.len(),
{
    assert((a + b)[0] == a[0]);
    assert((a + b).drop_first() =~= a.drop_first() + b);
    if a.len() == 1 {
        assert(a.drop_first() =~= Seq::<char>::empty());
        assert(lines_from(a.drop_first(), seq![]) =~= seq![]);
        assert(a.drop_first() + b =~= b);
    } else if a[0] == '\n' {
        lemma_lines_split(a.drop_first(), b, seq![]);
    } else {
        lemma_lines_split(a.drop_first(), b, cur.push(a[0]));
    }
}

/// A line without a line feed, ended by one, is one line.
proof fn lemma_one_line(x: Seq<char>, cur: Seq<char>)
    requires
        !x.contains('\n'),
    ensures
        lines_from(x + seq!['\n'], cur) == seq![strip_cr(cur + x)],
    decreases x.len(),
{
    if x.len() == 0 {
        assert(x + seq!['\n'] =~= seq!['\n']);
        assert(seq!['\n'].drop_first() =~= Seq::<char>::empty());
        assert(cur + x =~= cur);
        assert(lines_from(Seq::<char>::empty(), seq![]) =~= seq![]);
        assert(seq!['\n'][0] == '\n');
        assert(lines_from(seq!['\n'], cur) == seq![strip_cr(cur)] + lines_from(
            Seq::<char>::empty(),
            seq![],
        ));
        assert(seq![strip_cr(cur)] + Seq::<Seq<char>>::empty() =~= seq![strip_cr(cur)]);
    } else {
        assert((x + seq!['\n'])[0] == x[0]);
        assert((x + seq!['\n']).drop_first() =~= x.drop_first() + seq!['\n']);
        assert(!x.drop_first().contains('\n')) by {
            if x.drop_first().contains('\n') {
                let i = choose|i: int| 0 <= i < x.drop_first().len() && x.drop_first()[i] == '\n';
                assert(x[i + 1] == '\n');
            }
        }
        assert(x[0] != '\n') by {
            if x[0] == '\n' {
                assert(x.contains('\n'));
            }
        }
        lemma_one_line(x.drop_first(), cur.push(x[0]));
        assert(cur.push(x[0]) + x.drop_first() =~= cur + x);
    }
}

/// Trimming at the front carries a trailing character along, unless nothing
/// is left.
proof fn lemma_trim_start_push(s: Seq<char>, c: char)
    requires
        is_ws(c),
    ensures
        trim_start(s.push(c)) == if trim_start(s).len() > 0 {
            trim_start(s).push(c)
        } else {
            seq![]
        },
    decreases s.len(),
{
    let t = s.push(c);
    if s.len() == 0 {
        assert(t[0] == c);
        assert(t.drop_first() =~= Seq::<char>::empty());
        assert(trim_start(t) == trim_start(t.drop_first()));
        assert(trim_start(Seq::<char>::empty()) =~= Seq::<char>::empty());
        assert(trim_start(s) =~= Seq::<char>::empty());
    } else {
        assert(t[0] == s[0]);
        if is_ws(s[0]) {
            assert(t.drop_first() =~= s.drop_first().push(c));
            lemma_trim_start_push(s.drop_first(), c);
            assert(trim_start(t) == trim_start(t.drop_first()));
            assert(trim_start(s) == trim_start(s.drop_first()));
        } else {
            assert(trim_start(t) == t);
            assert(trim_start(s) == s);
        }
    }
}

/// White space at the end does not change a trimmed text.
proof fn lemma_trim_push_ws(s: Seq<char>, c: char)
    requires
        is_ws(c),
    ensures
        trim(s.push(c)) == trim(s),
{
    lemma_trim_start_push(s, c);
    let t = trim_start(s);
    if t.len() > 0 {
        assert(t.push(c).drop_last() =~= t);
        assert(t.push(c).last() == c);
    }
}

/// Looking for `c` in a text with one more character, that is not `c`, at
/// the end.
proof fn lemma_find_char_push(m: Seq<char>, c: char, x: char, k: int)
    requires
        x != c,
        0 <= k <= m.len(),
    ensures
        find_char_from(m.push(x), c, k) == if find_char_from(m, c, k) < m.len() {
            find_char_from(m, c, k)
        } else {
            m.len() + 1int
        },
    decreases m.len() - k,
{
    let l = m.push(x);
    if k == m.len() {
        assert(l[k] == x);
        assert(find_char_from(l, c, k + 1) == l.len());
    } else {
        assert(l[k] == m[k]);
        lemma_find_char_push(m, c, x, k + 1);
    }
}

/// A carriage return at the end of a `/proc/meminfo` line changes nothing
/// the parser takes from it.
proof fn lemma_meminfo_line_strip_cr(l: Seq<char>)
    ensures
        meminfo_line_bytes(strip_cr(l)) == meminfo_line_bytes(l),
{
    if l.len() > 0 && l.last() == '\r' {
        let m = l.drop_last();
        assert(l =~= m.push('\r'));
        assert(strip_cr(l) == m);
        lemma_find_char_push(m, ':', '\r', 0);
        lemma_find_char_bound(m, ':', 0);
        let c1 = find_char_from(m, ':', 0);
        if c1 < m.len() {
            lemma_find_char_push(m, ':', '\r', c1 + 1);
            lemma_find_char_bound(m, ':', c1 + 1);
            let c2 = find_char_from(m, ':', c1 + 1);
            assert(l.take(c1) =~= m.take(c1));
            if c2 < m.len() {
                assert(l.subrange(c1 + 1, c2) =~= m.subrange(c1 + 1, c2));
            } else {
                assert(c2 == m.len()) by {
                    lemma_find_char_bound(m, ':', c1 + 1);
                }
                assert(l.subrange(c1 + 1, l.len() as int) =~= m.subrange(c1 + 1, m.len() as int).push(
                    '\r',
                ));
                lemma_trim_push_ws(m.subrange(c1 + 1, m.len() as int), '\r');
            }
            assert(meminfo_key_value(l) == meminfo_key_value(m));
        } else {
            assert(c1 == m.len()) by {
                lemma_find_char_bound(m, ':', 0);
            }
        }
    }
}

/// `find_char_from` stays within the text.
proof fn lemma_find_char_bound(s: Seq<char>, c: char, k: int)
    requires
        0 <= k <= s.len(),
    ensures
        k <= find_char_from(s, c, k) <= s.len(),
    decreases s.len() - k,
{
    if k < s.len() && s[k] != c {
        lemma_find_char_bound(s, c, k + 1);
    }
}

/// Whether a line sets no figure does not depend on a carriage return at
/// its end.
proof fn lemma_ignores_strip_cr(l: Seq<char>)
    ensures
        meminfo_ignores(strip_cr(l)) == meminfo_ignores(l),
{
    lemma_meminfo_line_strip_cr(l);
}

/// The lines of a text, and of the same text with a line feed added: the
/// same lines before the last piece `x`, which becomes a line of its own,
/// without a carriage return at its end.
proof fn lemma_lines_newline(s: Seq<char>, cur: Seq<char>) -> (r: (Seq<Seq<char>>, Seq<char>))
    ensures
        lines_from(s, cur) == r.0 + flush(r.1),
        lines_from(s + seq!['\n'], cur) == r.0 + seq![strip_cr(r.1)],
    decreases s.len(),
{
    let t = s + seq!['\n'];
    if s.len() == 0 {
        assert(t =~= seq!['\n']);
        assert(t[0] == '\n');
        assert(t.drop_first() =~= Seq::<char>::empty());
        assert(lines_from(Seq::<char>::empty(), seq![]) =~= seq![]);
        assert(seq![strip_cr(cur)] + Seq::<Seq<char>>::empty() =~= seq![strip_cr(cur)]);
        assert(Seq::<Seq<char>>::empty() + flush(cur) =~= flush(cur));
        assert(Seq::<Seq<char>>::empty() + seq![strip_cr(cur)] =~= seq![strip_cr(cur)]);
        (seq![], cur)
    } else {
        assert(t[0] == s[0]);
        assert(t.drop_first() =~= s.drop_first() + seq!['\n']);
        if s[0] == '\n' {
            let r = lemma_lines_newline(s.drop_first(), seq![]);
            let p = seq![strip_cr(cur)] + r.0;
            assert(seq![strip_cr(cur)] + (r.0 + flush(r.1)) =~= p + flush(r.1));
            assert(seq![strip_cr(cur)] + (r.0 + seq![strip_cr(r.1)]) =~= p + seq![strip_cr(r.1)]);
            (p, r.1)
        } else {
            lemma_lines_newline(s.drop_first(), cur.push(s[0]))
        }
    }
}

/// A text without a line feed is at most one line.
proof fn lemma_no_newline_lines(x: Seq<char>, cur: Seq<char>)
    requires
        !x.contains('\n'),
    ensures
        lines_from(x, cur) == flush(cur + x),
    decreases x.len(),
{
    if x.len() == 0 {
        assert(cur + x =~= cur);
    } else {
        assert(x[0] != '\n') by {
            if x[0] == '\n' {
                assert(x.contains('\n'));
            }
        }
        assert(!x.drop_first().contains('\n')) by {
            if x.drop_first().contains('\n') {
                let i = choose|i: int| 0 <= i < x.drop_first().len() && x.drop_first()[i] == '\n';
                assert(x[i + 1] == '\n');
            }
        }
        lemma_no_newline_lines(x.drop_first(), cur.push(x[0]));
        assert(cur.push(x[0]) + x.drop_first() =~= cur + x);
    }
}

/// Ending the last piece of the lines with a line feed leaves the figures
/// unchanged.
proof fn lemma_fold_last_line(p: Seq<Seq<char>>, x: Seq<char>)
    ensures
        meminfo_fold(p + seq![strip_cr(x)]) == meminfo_fold(p + flush(x)),
{
    if x.len() == 0 {
        assert(strip_cr(x) == x);
        assert(meminfo_line_bytes(x) is None);
        lemma_fold_skips_line(p, x, seq![]);
        assert(p + seq![x] + Seq::<Seq<char>>::empty() =~= p + seq![x]);
        assert(p + flush(x) =~= p);
        assert(p + Seq::<Seq<char>>::empty() =~= p);
    } else {
        lemma_meminfo_line_strip_cr(x);
        assert((p + seq![strip_cr(x)]).drop_last() =~= p);
        assert((p + flush(x)).drop_last() =~= p);
        assert((p + seq![strip_cr(x)]).last() == strip_cr(x));
        assert((p + flush(x)).last() == x);
    }
}

/// Inserting a line that sets no figure into `/proc/meminfo` text, at a line
/// boundary (the start, or just after a line feed), leaves what the parser
/// gives unchanged.
pub proof fn lemma_meminfo_ignores_inserted_line(before: Seq<char>, extra: Seq<char>, after: Seq<char>)
    requires
        before.len() == 0 || before.last() == '\n',
        !extra.contains('\n'),
        meminfo_ignores(extra),
    ensures
        meminfo_of(before + extra + seq!['\n'] + after) == meminfo_of(before + after),
{
    let e = extra + seq!['\n'];
    let x = strip_cr(extra);
    lemma_one_line(extra, seq![]);
    assert(seq![] + extra =~= extra);
    lemma_ignores_strip_cr(extra);
    lemma_lines_split(e, after, seq![]);
    assert(lines(e + after) == seq![x] + lines(after));
    if before.len() == 0 {
        assert(before + extra + seq!['\n'] + after =~= e + after);
        assert(before + after =~= after);
        lemma_fold_skips_line(seq![], x, lines(after));
        assert(seq![] + seq![x] + lines(after) =~= seq![x] + lines(after));
        assert(Seq::<Seq<char>>::empty() + lines(after) =~= lines(after));
    } else {
        assert(before + extra + seq!['\n'] + after =~= before + (e + after));
        lemma_lines_split(before, e + after, seq![]);
        lemma_lines_split(before, after, seq![]);
        lemma_fold_skips_line(lines(before), x, lines(after));
        assert(lines(before) + (seq![x] + lines(after)) =~= lines(before) + seq![x] + lines(after));
    }
}

/// Appending a line feed and a line that sets no figure to `/proc/meminfo`
/// text leaves what the parser gives unchanged.
pub proof fn lemma_meminfo_ignores_appended_line(content: Seq<char>, extra: Seq<char>)
    requires
        !extra.contains('\n'),
        meminfo_ignores(extra),
    ensures
        meminfo_of(content + seq!['\n'] + extra) == meminfo_of(content),
{
    let r = lemma_lines_newline(content, seq![]);
    let p = r.0;
    let x = r.1;
    let c = content + seq!['\n'];
    lemma_lines_split(c, extra, seq![]);
    lemma_no_newline_lines(extra, seq![]);
    assert(seq![] + extra =~= extra);
    assert(lines(c + extra) == p + seq![strip_cr(x)] + flush(extra));
    lemma_fold_last_line(p, x);
    if extra.len() > 0 {
        lemma_fold_skips_line(p + seq![strip_cr(x)], extra, seq![]);
        assert(p + seq![strip_cr(x)] + seq![extra] + Seq::<Seq<char>>::empty() =~= p + seq![strip_cr(x)]
            + flush(extra));
        assert(p + seq![strip_cr(x)] + Seq::<Seq<char>>::empty() =~= p + seq![strip_cr(x)]);
    } else {
        assert(p + seq![strip_cr(x)] + flush(extra) =~= p + seq![strip_cr(x)]);
    }
}

// ---------------------------------------------------------------------------
// Laws of the status parser
// ---------------------------------------------------------------------------
/// Line `k` of `ls` is the first that begins with `State:`.
pub open spec fn first_state_line(ls: Seq<Seq<char>>, k: int) -> bool {
    &&& 0 <= k < ls.len()
    &&& starts_with(ls[k], seq!['S', 't', 'a', 't', 'e', ':'])
    &&& forall|j: int| 0 <= j < k ==> !starts_with(ls[j], seq!['S', 't', 'a', 't', 'e', ':'])
}

/// What `first_prefixed` finds: the first line from `k0` on with the prefix.
proof fn lemma_first_prefixed(ls: Seq<Seq<char>>, p: Seq<char>, k0: int)
    requires
        0 <= k0,
    ensures
        first_prefixed(ls, p, k0) matches Some(k) ==> k0 <= k < ls.len() && starts_with(ls[k], p)
            && forall|j: int| k0 <= j < k ==> !starts_with(ls[j], p),
        first_prefixed(ls, p, k0) is None ==> forall|j: int| k0 <= j < ls.len() ==> !starts_with(
            ls[j],
            p,
        ),
    decreases ls.len() - k0,
{
    if k0 < ls.len() && !starts_with(ls[k0], p) {
        lemma_first_prefixed(ls, p, k0 + 1);
    }
}

/// A process is reported stopped exactly when the second word of the first
/// `State:` line of its status is `T`; the status parses exactly when such a
/// line with a second word exists.
pub proof fn lemma_status_stopped_iff_state_t(content: Seq<char>)
    ensures
        process_status(content) is Ok <==> exists|k: int|
            first_state_line(lines(content), k) && words(#[trigger] lines(content)[k]).len() >= 2,
        forall|k: int|
            first_state_line(lines(content), k) && words(#[trigger] lines(content)[k]).len() >= 2
                ==> process_status(content) == Ok::<bool, ParseFailure>(
                words(lines(content)[k])[1] == seq!['T'],
            ),
{
    reveal_strlit("State:");
    reveal_strlit("T");
    let ls = lines(content);
    let p = "State:"@;
    assert(p =~= seq!['S', 't', 'a', 't', 'e', ':']);
    assert("T"@ =~= seq!['T']);
    lemma_first_prefixed(ls, p, 0);
    match first_prefixed(ls, p, 0) {
        Some(k) => {
            assert(first_state_line(ls, k));
            assert forall|k2: int| first_state_line(ls, k2) implies k2 == k by {
                if k2 < k {
                    assert(!starts_with(ls[k2], p));
                } else if k2 > k {
                    assert(!starts_with(ls[k], p));
                }
            }
        },
        None => {
            assert forall|k2: int| !first_state_line(ls, k2) by {
                if 0 <= k2 < ls.len() {
                    assert(!starts_with(ls[k2], p));
                }
            }
        },
    }
}

/// The figure of `m` that `key` names.
spec fn figure(m: MemInfo, key: Seq<char>) -> u64 {
    if key == "MemTotal"@ {
        m.total
    } else if key == "MemFree"@ {
        m.free
    } else if key == "Buffers"@ {
        m.buffers
    } else if key == "Cached"@ {
        m.cached
    } else if key == "SReclaimable"@ {
        m.sreclaimable
    } else if key == "Shmem"@ {
        m.shmem
    } else {
        m.available
    }
}

/// Line `l` sets the figure named `key`.
spec fn sets_key(l: Seq<char>, key: Seq<char>) -> bool {
    meminfo_line_bytes(l) matches Some((k, _)) && k == key
}

/// Lines that do not set a figure leave it as it was.
proof fn lemma_fold_keeps_figure(p: Seq<Seq<char>>, q: Seq<Seq<char>>, key: Seq<char>)
    requires
        meminfo_key(key),
        forall|i: int| 0 <= i < q.len() ==> !sets_key(#[trigger] q[i], key),
    ensures
        figure(meminfo_fold(p + q), key) == figure(meminfo_fold(p), key),
    decreases q.len(),
{
    if q.len() == 0 {
        assert(p + q =~= p);
    } else {
        let q0 = q.drop_last();
        assert forall|i: int| 0 <= i < q0.len() implies !sets_key(#[trigger] q0[i], key) by {
            assert(q0[i] == q[i]);
        }
        lemma_fold_keeps_figure(p, q0, key);
        assert((p + q).drop_last() =~= p + q0);
        assert((p + q).last() == q.last());
        assert(!sets_key(q[q.len() - 1], key));
    }
}

/// In `/proc/meminfo` text, the last line that sets a figure decides it: a
/// line (at a line boundary) whose key names a figure and whose value gives
/// `b` bytes, with no later line setting that figure, sets it to `b`; a
/// total of `b > 0` bytes so set makes the text parse.
pub proof fn lemma_meminfo_last_line_decides(
    before: Seq<char>,
    line: Seq<char>,
    after: Seq<char>,
    key: Seq<char>,
    b: u64,
)
    requires
        before.len() == 0 || before.last() == '\n',
        !line.contains('\n'),
        meminfo_line_bytes(line) == Some((key, b)),
        forall|i: int| 0 <= i < lines(after).len() ==> !(meminfo_line_bytes(#[trigger] lines(after)[i]) matches Some((k, _)) && k == key),
    ensures
        key == seq!['M', 'e', 'm', 'T', 'o', 't', 'a', 'l'] && b > 0 ==> meminfo_of(before + line + seq!['\n'] + after) is Ok,
        meminfo_of(before + line + seq!['\n'] + after) matches Ok(mi) ==> {
            &&& key == seq!['M', 'e', 'm', 'T', 'o', 't', 'a', 'l'] ==> mi.total == b
            &&& key == seq!['M', 'e', 'm', 'F', 'r', 'e', 'e'] ==> mi.free == b
            &&& key == seq!['B', 'u', 'f', 'f', 'e', 'r', 's'] ==> mi.buffers == b
            &&& key == seq!['C', 'a', 'c', 'h', 'e', 'd'] ==> mi.cached == b
            &&& key == seq!['S', 'R', 'e', 'c', 'l', 'a', 'i', 'm', 'a', 'b', 'l', 'e'] ==> mi.sreclaimable == b
            &&& key == seq!['S', 'h', 'm', 'e', 'm'] ==> mi.shmem == b
            &&& key == seq!['M', 'e', 'm', 'A', 'v', 'a', 'i', 'l', 'a', 'b', 'l', 'e'] ==> mi.available == b
        },
{
    reveal_strlit("MemTotal");
    reveal_strlit("MemFree");
    reveal_strlit("Buffers");
    reveal_strlit("Cached");
    reveal_strlit("SReclaimable");
    reveal_strlit("Shmem");
    reveal_strlit("MemAvailable");
    assert("MemTotal"@ =~= seq!['M', 'e', 'm', 'T', 'o', 't', 'a', 'l']);
    assert("MemFree"@ =~= seq!['M', 'e', 'm', 'F', 'r', 'e', 'e']);
    assert("Buffers"@ =~= seq!['B', 'u', 'f', 'f', 'e', 'r', 's']);
    assert("Cached"@ =~= seq!['C', 'a', 'c', 'h', 'e', 'd']);
    assert("SReclaimable"@ =~= seq!['S', 'R', 'e', 'c', 'l', 'a', 'i', 'm', 'a', 'b', 'l', 'e']);
    assert("Shmem"@ =~= seq!['S', 'h', 'm', 'e', 'm']);
    assert("MemAvailable"@ =~= seq!['M', 'e', 'm', 'A', 'v', 'a', 'i', 'l', 'a', 'b', 'l', 'e']);
    let content = before + line + seq!['\n'] + after;
    let e = line + seq!['\n'];
    let x = strip_cr(line);
    lemma_one_line(line, seq![]);
    assert(seq![] + line =~= line);
    lemma_meminfo_line_strip_cr(line);
    lemma_lines_split(e, after, seq![]);
    let la = lines(after);
    let pre = if before.len() == 0 {
        Seq::<Seq<char>>::empty()
    } else {
        lines(before)
    };
    if before.len() == 0 {
        assert(content =~= e + after);
        assert(lines(content) =~= pre + seq![x] + la);
    } else {
        assert(content =~= before + (e + after));
        lemma_lines_split(before, e + after, seq![]);
        assert(lines(content) =~= pre + seq![x] + la);
    }
    if meminfo_key(key) {
        assert forall|i: int| 0 <= i < la.len() implies !sets_key(#[trigger] la[i], key) by {
            assert(!(meminfo_line_bytes(la[i]) matches Some((k, _)) && k == key));
        }
        lemma_fold_keeps_figure(pre + seq![x], la, key);
        assert((pre + seq![x]).drop_last() =~= pre);
        assert((pre + seq![x]).last() == x);
        assert(figure(meminfo_fold(pre + seq![x]), key) == b);
        assert(pre + seq![x] + la =~= (pre + seq![x]) + la);
        let m = meminfo_fold(lines(content));
        assert(figure(m, key) == b);
        assert(meminfo_of(content) == if m.total == 0 {
            Err::<MemInfo, ParseFailure>(ParseFailure::MissingField("MemTotal"@))
        } else {
            Ok(m)
        });
    }
}


/// `find_char_from` stops at the first `c` from `k` on.
proof fn lemma_find_char_at(s: Seq<char>, c: char, k: int, j: int)
    requires
        0 <= k <= j <= s.len(),
        forall|i: int| k <= i < j ==> s[i] != c,
        j == s.len() || s[j] == c,
    ensures
        find_char_from(s, c, k) == j,
    decreases j - k,
{
    if k < j {
        lemma_find_char_at(s, c, k + 1, j);
    }
}

/// Leading white space does not change what `trim_start` gives.
proof fn lemma_trim_start_ws_prefix(p: Seq<char>, r: Seq<char>)
    requires
        forall|i: int| 0 <= i < p.len() ==> is_ws(#[trigger] p[i]),
    ensures
        trim_start(p + r) == trim_start(r),
    decreases p.len(),
{
    if p.len() > 0 {
        assert((p + r)[0] == p[0]);
        assert((p + r).drop_first() =~= p.drop_first() + r);
        assert forall|i: int| 0 <= i < p.drop_first().len() implies is_ws(
            #[trigger] p.drop_first()[i],
        ) by {
            assert(p.drop_first()[i] == p[i + 1]);
        }
        lemma_trim_start_ws_prefix(p.drop_first(), r);
    } else {
        assert(p + r =~= r);
    }
}

/// A run of characters that are not white space joins the word being read.
proof fn lemma_words_run(d: Seq<char>, t: Seq<char>, cur: Seq<char>)
    requires
        forall|i: int| 0 <= i < d.len() ==> !is_ws(#[trigger] d[i]),
    ensures
        words_from(d + t, cur) == words_from(t, cur + d),
    decreases d.len(),
{
    if d.len() > 0 {
        assert((d + t)[0] == d[0]);
        assert((d + t).drop_first() =~= d.drop_first() + t);
        assert(cur.push(d[0]) + d.drop_first() =~= cur + d);
        assert forall|i: int| 0 <= i < d.drop_first().len() implies !is_ws(
            #[trigger] d.drop_first()[i],
        ) by {
            assert(d.drop_first()[i] == d[i + 1]);
        }
        lemma_words_run(d.drop_first(), t, cur.push(d[0]));
    } else {
        assert(d + t =~= t);
        assert(cur + d =~= cur);
    }
}

/// The `/proc/meminfo` line `key:` (white space) `n kB` gives `n` KiB as
/// bytes, saturated, under its key.
proof fn lemma_meminfo_kib_line(key: Seq<char>, pad: Seq<char>, n: u64)
    requires
        forall|i: int| 0 <= i < key.len() ==> #[trigger] key[i] != ':' && !is_ws(key[i]),
        forall|i: int| 0 <= i < pad.len() ==> is_ws(#[trigger] pad[i]),
    ensures
        meminfo_line_bytes(key + seq![':'] + pad + dec(n as nat) + seq![' ', 'k', 'B']) == Some(
            (key, sat_mul(n, 1024)),
        ),
{
    let d = dec(n as nat);
    lemma_dec_digits(n as nat);
    lemma_u64_of_dec(n);
    let t = seq![' ', 'k', 'B'];
    let v = pad + d + t;
    let line = key + seq![':'] + pad + d + t;
    let c1 = key.len() as int;
    assert(line =~= key + seq![':'] + v);
    assert forall|i: int| 0 <= i < v.len() implies #[trigger] v[i] != ':' by {
        if i < pad.len() {
            assert(v[i] == pad[i]);
            assert(is_ws(pad[i]));
        } else if i < pad.len() + d.len() {
            assert(v[i] == d[i - pad.len()]);
            assert(is_digit(d[i - pad.len()]));
        }
    }
    assert forall|i: int| 0 <= i < c1 implies #[trigger] line[i] != ':' by {
        assert(line[i] == key[i]);
    }
    lemma_find_char_at(line, ':', 0, c1);
    assert forall|i: int| c1 + 1 <= i < line.len() implies #[trigger] line[i] != ':' by {
        assert(line[i] == v[i - c1 - 1]);
    }
    lemma_find_char_at(line, ':', c1 + 1, line.len() as int);
    assert(line.take(c1) =~= key);
    assert(line.subrange(c1 + 1, line.len() as int) =~= v);
    if key.len() > 0 {
        assert(!is_ws(key[0]));
        assert(!is_ws(key.last()));
    }
    assert(trim(key) == key);
    assert(v =~= pad + (d + t));
    lemma_trim_start_ws_prefix(pad, d + t);
    assert((d + t)[0] == d[0]);
    assert(is_digit(d[0]));
    assert(trim_start(d + t) == d + t);
    assert((d + t).last() == 'B');
    assert(trim(v) == d + t);
    assert forall|i: int| 0 <= i < d.len() implies !is_ws(#[trigger] d[i]) by {
        assert(is_digit(d[i]));
    }
    lemma_words_run(d, t, Seq::<char>::empty());
    assert(Seq::<char>::empty() + d =~= d);
    let kb = seq!['k', 'B'];
    assert(t.drop_first() =~= kb + Seq::<char>::empty());
    lemma_words_run(kb, Seq::<char>::empty(), Seq::<char>::empty());
    assert(Seq::<char>::empty() + kb =~= kb);
    assert(words_from(Seq::<char>::empty(), kb) =~= seq![kb]);
    assert(words_from(t, d) == flush(d) + words_from(t.drop_first(), Seq::<char>::empty()));
    assert(words(d + t) =~= seq![d, kb]);
}

/// In `/proc/meminfo` text, a line `key:` (blanks) `n kB` that is the last
/// to set the figure named `key` sets it to `n` KiB in bytes, that is
/// `n * 1024` saturated; a `MemTotal` line with `n > 0` so placed makes the
/// text parse.
#[verifier::rlimit(30)]
pub proof fn lemma_meminfo_kib_line_decides(
    before: Seq<char>,
    key: Seq<char>,
    pad: Seq<char>,
    n: u64,
    after: Seq<char>,
)
    requires
        before.len() == 0 || before.last() == '\n',
        forall|i: int| 0 <= i < key.len() ==> #[trigger] key[i] != ':' && !is_ws(key[i]),
        forall|i: int| 0 <= i < pad.len() ==> #[trigger] pad[i] == ' ' || pad[i] == '\t',
        forall|i: int| 0 <= i < lines(after).len() ==> !(meminfo_line_bytes(#[trigger] lines(after)[i]) matches Some((k, _)) && k == key),
    ensures
        ({
            let content = before + key + seq![':'] + pad + dec(n as nat) + seq![' ', 'k', 'B', '\n'] + after;
            &&& key == seq!['M', 'e', 'm', 'T', 'o', 't', 'a', 'l'] && n > 0 ==> meminfo_of(content) is Ok
            &&& meminfo_of(content) matches Ok(mi) ==> {
                &&& key == seq!['M', 'e', 'm', 'T', 'o', 't', 'a', 'l'] ==> mi.total == sat_mul(n, 1024)
                &&& key == seq!['M', 'e', 'm', 'F', 'r', 'e', 'e'] ==> mi.free == sat_mul(n, 1024)
                &&& key == seq!['B', 'u', 'f', 'f', 'e', 'r', 's'] ==> mi.buffers == sat_mul(n, 1024)
                &&& key == seq!['C', 'a', 'c', 'h', 'e', 'd'] ==> mi.cached == sat_mul(n, 1024)
                &&& key == seq!['S', 'R', 'e', 'c', 'l', 'a', 'i', 'm', 'a', 'b', 'l', 'e']
                    ==> mi.sreclaimable == sat_mul(n, 1024)
                &&& key == seq!['S', 'h', 'm', 'e', 'm'] ==> mi.shmem == sat_mul(n, 1024)
                &&& key == seq!['M', 'e', 'm', 'A', 'v', 'a', 'i', 'l', 'a', 'b', 'l', 'e']
                    ==> mi.available == sat_mul(n, 1024)
            }
        }),
{
    let d = dec(n as nat);
    lemma_dec_digits(n as nat);
    assert forall|i: int| 0 <= i < pad.len() implies is_ws(#[trigger] pad[i]) by {
        assert(pad[i] == ' ' || pad[i] == '\t');
    }
    lemma_meminfo_kib_line(key, pad, n);
    let line = key + seq![':'] + pad + d + seq![' ', 'k', 'B'];
    assert forall|i: int| 0 <= i < line.len() implies #[trigger] line[i] != '\n' by {
        let a = key.len() as int;
        if i < a {
            assert(line[i] == key[i]);
            assert(!is_ws(key[i]));
        } else if i == a {
        } else if i < a + 1 + pad.len() {
            assert(line[i] == pad[i - a - 1]);
            assert(pad[i - a - 1] == ' ' || pad[i - a - 1] == '\t');
        } else if i < a + 1 + pad.len() + d.len() {
            assert(line[i] == d[i - a - 1 - pad.len()]);
            assert(is_digit(d[i - a - 1 - pad.len()]));
        }
    }
    assert(!line.contains('\n'));
    if n > 0 {
        assert(n * 1024 > 0) by (nonlinear_arith)
            requires
                n > 0,
        ;
    }
    lemma_meminfo_last_line_decides(before, line, after, key, sat_mul(n, 1024));
    assert(before + key + seq![':'] + pad + d + seq![' ', 'k', 'B', '\n'] + after =~= before + line
        + seq!['\n'] + after);
}


/// `/proc/meminfo` text in which no line sets `MemTotal` does not parse: the
/// total is reported missing.
pub proof fn lemma_meminfo_needs_total(content: Seq<char>)
    requires
        forall|i: int| 0 <= i < lines(content).len() ==> !(meminfo_line_bytes(#[trigger] lines(content)[i]) matches Some((k, _)) && k == seq!['M', 'e', 'm', 'T', 'o', 't', 'a', 'l']),
    ensures
        meminfo_of(content) == Err::<MemInfo, ParseFailure>(
            ParseFailure::MissingField(seq!['M', 'e', 'm', 'T', 'o', 't', 'a', 'l']),
        ),
{
    reveal_strlit("MemTotal");
    let key = seq!['M', 'e', 'm', 'T', 'o', 't', 'a', 'l'];
    assert("MemTotal"@ =~= key);
    let ls = lines(content);
    assert forall|i: int| 0 <= i < ls.len() implies !sets_key(#[trigger] ls[i], key) by {
        assert(!(meminfo_line_bytes(ls[i]) matches Some((k, _)) && k == key));
    }
    let e = Seq::<Seq<char>>::empty();
    lemma_fold_keeps_figure(e, ls, key);
    assert(e + ls =~= ls);
    assert(figure(meminfo_fold(e), key) == 0);
    assert(meminfo_fold(ls).total == 0);
}

} // verus!
