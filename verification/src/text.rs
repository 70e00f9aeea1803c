//! Character-level text handling shared by the parsers and the formatters:
//! splitting into lines and whitespace-separated words, trimming, decimal
//! integer parsing and printing, and padding.
//!
//! Every operation works on the characters of a string (`Seq<char>` in the
//! specifications) and is stated against a spec function that says what the
//! corresponding `str` method of the standard library computes.
use vstd::prelude::*;

verus! {

// ---------------------------------------------------------------------------
// Characters
// ---------------------------------------------------------------------------
/// The Unicode `White_Space` property, which `char::is_whitespace`,
/// `str::split_whitespace` and `str::trim` use.
pub open spec fn is_ws(c: char) -> bool {
    let u = c as u32;
    ||| 0x09 <= u <= 0x0D
    ||| u == 0x20
    ||| u == 0x85
    ||| u == 0xA0
    ||| u == 0x1680
    ||| 0x2000 <= u <= 0x200A
    ||| u == 0x2028
    ||| u == 0x2029
    ||| u == 0x202F
    ||| u == 0x205F
    ||| u == 0x3000
}

/// Whether `c` is white space in the sense of `is_ws`.
pub fn is_whitespace(c: char) -> (r: bool)
    ensures
        r == is_ws(c),
{
    let u = c as u32;
    (0x09 <= u && u <= 0x0D) || u == 0x20 || u == 0x85 || u == 0xA0 || u == 0x1680 || (0x2000
        <= u && u <= 0x200A) || u == 0x2028 || u == 0x2029 || u == 0x202F || u == 0x205F || u
        == 0x3000
}

/// The characters of `s`, in order.
pub fn chars_of(s: &str) -> (r: Vec<char>)
    ensures
        r@ == s@,
{
    let mut v: Vec<char> = Vec::new();
    for c in it: s.chars()
        invariant
            v@ == it.seq().take(it.index() as int),
    {
        v.push(c);
    }
    v
}

/// Appends one character to a string, with `String::push`; the contract
/// claims that the string's characters are the old ones followed by `c`.
#[verifier::external_body]
pub(crate) fn push_char(s: &mut String, c: char)
    ensures
        final(s)@ == old(s)@.push(c),
{
    s.push(c);
}

/// A string made of the given characters.
pub fn string_from_chars(v: &Vec<char>) -> (s: String)
    ensures
        s@ == v@,
{
    let mut s = String::new();
    let mut i: usize = 0;
    while i < v.len()
        invariant
            i <= v.len(),
            s@ == v@.take(i as int),
        decreases v.len() - i,
    {
        push_char(&mut s, v[i]);
        assert(v@.take(i as int).push(v@[i as int]) =~= v@.take(i + 1));
        i = i + 1;
    }
    assert(v@.take(v.len() as int) =~= v@);
    s
}

/// Appends the characters of `v` to `out`.
pub fn extend_chars(out: &mut Vec<char>, v: &Vec<char>)
    ensures
        final(out)@ == old(out)@ + v@,
{
    let mut i: usize = 0;
    while i < v.len()
        invariant
            i <= v.len(),
            out@ == old(out)@ + v@.take(i as int),
        decreases v.len() - i,
    {
        out.push(v[i]);
        assert(old(out)@ + v@.take(i as int).push(v@[i as int]) =~= old(out)@ + v@.take(i + 1));
        i = i + 1;
    }
    assert(v@.take(v.len() as int) =~= v@);
}

/// Appends the characters of `s` to `out`.
pub fn extend_str(out: &mut Vec<char>, s: &str)
    ensures
        final(out)@ == old(out)@ + s@,
{
    let v = chars_of(s);
    extend_chars(out, &v);
}

/// Whether `pat` occurs in `chars` at position `i`.
pub open spec fn occurs_at(s: Seq<char>, i: int, pat: Seq<char>) -> bool {
    &&& 0 <= i
    &&& i + pat.len() <= s.len()
    &&& s.subrange(i, i + pat.len()) == pat
}

/// Whether the characters `pat` occur in `chars` at position `i`.
pub fn chars_occur_at(chars: &Vec<char>, i: usize, pat: &Vec<char>) -> (r: bool)
    ensures
        r == occurs_at(chars@, i as int, pat@),
{
    if i > chars.len() || pat.len() > chars.len() - i {
        return false;
    }
    let mut k: usize = 0;
    while k < pat.len()
        invariant
            k <= pat.len(),
            i + pat.len() <= chars.len(),
            chars@.subrange(i as int, i + k) == pat@.take(k as int),
        decreases pat.len() - k,
    {
        if chars[i + k] != pat[k] {
            assert(chars@.subrange(i as int, i + pat.len())[k as int] != pat@[k as int]);
            return false;
        }
        assert(chars@.subrange(i as int, i + k + 1) =~= pat@.take(k + 1));
        k = k + 1;
    }
    assert(pat@.take(pat.len() as int) =~= pat@);
    true
}

/// Whether `s` begins with `pat` (`str::starts_with`).
pub open spec fn starts_with(s: Seq<char>, pat: Seq<char>) -> bool {
    pat.len() <= s.len() && s.take(pat.len() as int) == pat
}

/// Whether `s` contains `pat` as a contiguous part (`str::contains`).
pub open spec fn contains_seq(s: Seq<char>, pat: Seq<char>) -> bool {
    exists|i: int| #[trigger] occurs_at(s, i, pat)
}

/// Whether `pat` occurs somewhere in `chars`.
pub fn chars_contain(chars: &Vec<char>, pat: &Vec<char>) -> (r: bool)
    ensures
        r == contains_seq(chars@, pat@),
{
    if pat.len() > chars.len() {
        assert forall|j: int| !occurs_at(chars@, j, pat@) by {}
        return false;
    }
    let last = chars.len() - pat.len();
    let mut i: usize = 0;
    loop
        invariant
            i <= last,
            last + pat.len() == chars.len(),
            forall|j: int| 0 <= j < i ==> !occurs_at(chars@, j, pat@),
        ensures
            i == last,
            last + pat.len() == chars.len(),
            forall|j: int| 0 <= j <= i ==> !occurs_at(chars@, j, pat@),
        decreases last - i,
    {
        if chars_occur_at(chars, i, pat) {
            return true;
        }
        if i == last {
            break;
        }
        i = i + 1;
    }
    assert forall|j: int| !occurs_at(chars@, j, pat@) by {
        if 0 <= j <= i {
        }
    }
    false
}

/// Sub-sequences of `s` named by a sequence of index ranges.
pub open spec fn slices(s: Seq<char>, r: Seq<(usize, usize)>) -> Seq<Seq<char>> {
    r.map_values(|p: (usize, usize)| s.subrange(p.0 as int, p.1 as int))
}

/// Every range lies inside `lo..hi` and is well formed.
pub open spec fn ranges_in(r: Seq<(usize, usize)>, lo: int, hi: int) -> bool {
    forall|k: int| 0 <= k < r.len() ==> lo <= #[trigger] r[k].0 <= r[k].1 <= hi
}

proof fn lemma_slices_push(s: Seq<char>, r: Seq<(usize, usize)>, p: (usize, usize))
    ensures
        slices(s, r.push(p)) == slices(s, r).push(s.subrange(p.0 as int, p.1 as int)),
{
    assert(slices(s, r.push(p)) =~= slices(s, r).push(s.subrange(p.0 as int, p.1 as int)));
}

// ---------------------------------------------------------------------------
// Words (`str::split_whitespace`)
// ---------------------------------------------------------------------------
/// `cur` as a list of at most one word.
pub open spec fn flush(cur: Seq<char>) -> Seq<Seq<char>> {
    if cur.len() > 0 {
        seq![cur]
    } else {
        seq![]
    }
}

/// The words of `s`, given that the word `cur` is being read.
pub open spec fn words_from(s: Seq<char>, cur: Seq<char>) -> Seq<Seq<char>>
    decreases s.len(),
{
    if s.len() == 0 {
        flush(cur)
    } else if is_ws(s[0]) {
        flush(cur) + words_from(s.drop_first(), seq![])
    } else {
        words_from(s.drop_first(), cur.push(s[0]))
    }
}

/// The maximal non-empty runs of non-white-space characters of `s`, in order
/// (`str::split_whitespace`).
pub open spec fn words(s: Seq<char>) -> Seq<Seq<char>> {
    words_from(s, seq![])
}

/// The index ranges of the words of `chars[start..end]`.
pub fn word_ranges(chars: &Vec<char>, start: usize, end: usize) -> (r: Vec<(usize, usize)>)
    requires
        start <= end <= chars.len(),
    ensures
        ranges_in(r@, start as int, end as int),
        slices(chars@, r@) == words(chars@.subrange(start as int, end as int)),
{
    let ghost s = chars@;
    let mut out: Vec<(usize, usize)> = Vec::new();
    let mut i = start;
    let mut ws = start;
    assert(s.subrange(start as int, start as int) =~= seq![]);
    assert(slices(s, out@) =~= seq![]);
    assert(slices(s, out@) + words(s.subrange(start as int, end as int)) =~= words(
        s.subrange(start as int, end as int),
    ));
    while i < end
        invariant
            start <= ws <= i <= end <= chars.len(),
            s == chars@,
            ranges_in(out@, start as int, ws as int),
            words(s.subrange(start as int, end as int)) == slices(s, out@) + words_from(
                s.subrange(i as int, end as int),
                s.subrange(ws as int, i as int),
            ),
        decreases end - i,
    {
        let ghost t = s.subrange(i as int, end as int);
        let ghost cur = s.subrange(ws as int, i as int);
        assert(t[0] == s[i as int]);
        assert(t.drop_first() =~= s.subrange(i + 1, end as int));
        if is_whitespace(chars[i]) {
            if ws < i {
                let ghost before = out@;
                proof {
                    lemma_slices_push(s, out@, (ws, i));
                }
                out.push((ws, i));
                assert(ranges_in(out@, start as int, (i + 1) as int)) by {
                    assert forall|k: int| 0 <= k < out@.len() implies start <= #[trigger] out@[k].0
                        <= out@[k].1 <= i + 1 by {
                        if k < before.len() {
                            assert(out@[k] == before[k]);
                        }
                    }
                }
                assert(flush(cur) =~= seq![cur]);
                assert(slices(s, out@) + words_from(s.subrange(i + 1, end as int), seq![])
                    =~= slices(s, before) + flush(cur) + words_from(
                    s.subrange(i + 1, end as int),
                    seq![],
                ));
            } else {
                assert(flush(cur) =~= seq![]);
                assert(slices(s, out@) + flush(cur) =~= slices(s, out@));
            }
            i = i + 1;
            ws = i;
            assert(s.subrange(ws as int, i as int) =~= seq![]);
        } else {
            assert(cur.push(s[i as int]) =~= s.subrange(ws as int, i + 1));
            i = i + 1;
        }
    }
    let ghost cur = s.subrange(ws as int, end as int);
    assert(s.subrange(end as int, end as int) =~= seq![]);
    if ws < end {
        proof {
            lemma_slices_push(s, out@, (ws, end));
        }
        out.push((ws, end));
        assert(flush(cur) =~= seq![cur]);
    } else {
        assert(flush(cur) =~= seq![]);
    }
    assert(slices(s, out@) =~= words(s.subrange(start as int, end as int)));
    out
}

// ---------------------------------------------------------------------------
// Lines (`str::lines`)
// ---------------------------------------------------------------------------
/// `l` without one trailing carriage return.
pub open spec fn strip_cr(l: Seq<char>) -> Seq<char> {
    if l.len() > 0 && l.last() == '\r' {
        l.drop_last()
    } else {
        l
    }
}

/// The lines of `s`, given that the line `cur` is being read.
pub open spec fn lines_from(s: Seq<char>, cur: Seq<char>) -> Seq<Seq<char>>
    decreases s.len(),
{
    if s.len() == 0 {
        flush(cur)
    } else if s[0] == '\n' {
        seq![strip_cr(cur)] + lines_from(s.drop_first(), seq![])
    } else {
        lines_from(s.drop_first(), cur.push(s[0]))
    }
}

/// The lines of `s` (`str::lines`): the text is cut after each line feed, a
/// line feed and a carriage return just before it are removed, and a final
/// empty piece is not a line.
pub open spec fn lines(s: Seq<char>) -> Seq<Seq<char>> {
    lines_from(s, seq![])
}

/// The index ranges of the lines of `chars`.
pub fn line_ranges(chars: &Vec<char>) -> (r: Vec<(usize, usize)>)
    ensures
        ranges_in(r@, 0, chars.len() as int),
        slices(chars@, r@) == lines(chars@),
{
    let ghost s = chars@;
    let end = chars.len();
    let mut out: Vec<(usize, usize)> = Vec::new();
    let mut i: usize = 0;
    let mut ls: usize = 0;
    assert(s.subrange(0, end as int) =~= s);
    assert(s.subrange(0, 0) =~= seq![]);
    assert(slices(s, out@) =~= seq![]);
    assert(slices(s, out@) + lines(s) =~= lines(s));
    while i < end
        invariant
            ls <= i <= end == chars.len(),
            s == chars@,
            ranges_in(out@, 0, ls as int),
            lines(s) == slices(s, out@) + lines_from(
                s.subrange(i as int, end as int),
                s.subrange(ls as int, i as int),
            ),
        decreases end - i,
    {
        let ghost t = s.subrange(i as int, end as int);
        let ghost cur = s.subrange(ls as int, i as int);
        assert(t[0] == s[i as int]);
        assert(t.drop_first() =~= s.subrange(i + 1, end as int));
        if chars[i] == '\n' {
            let stop = if ls < i && chars[i - 1] == '\r' {
                i - 1
            } else {
                i
            };
            assert(s.subrange(ls as int, stop as int) =~= strip_cr(cur));
            let ghost before = out@;
            proof {
                lemma_slices_push(s, out@, (ls, stop));
            }
            out.push((ls, stop));
            assert(ranges_in(out@, 0, (i + 1) as int)) by {
                assert forall|k: int| 0 <= k < out@.len() implies 0 <= #[trigger] out@[k].0
                    <= out@[k].1 <= i + 1 by {
                    if k < before.len() {
                        assert(out@[k] == before[k]);
                    }
                }
            }
            assert(slices(s, out@) + lines_from(s.subrange(i + 1, end as int), seq![])
                =~= slices(s, before) + (seq![strip_cr(cur)] + lines_from(
                s.subrange(i + 1, end as int),
                seq![],
            )));
            i = i + 1;
            ls = i;
            assert(s.subrange(ls as int, i as int) =~= seq![]);
        } else {
            assert(cur.push(s[i as int]) =~= s.subrange(ls as int, i + 1));
            i = i + 1;
        }
    }
    let ghost cur = s.subrange(ls as int, end as int);
    assert(s.subrange(end as int, end as int) =~= seq![]);
    if ls < end {
        proof {
            lemma_slices_push(s, out@, (ls, end));
        }
        out.push((ls, end));
        assert(flush(cur) =~= seq![cur]);
    } else {
        assert(flush(cur) =~= seq![]);
    }
    assert(slices(s, out@) =~= lines(s));
    out
}

// ---------------------------------------------------------------------------
// Trimming (`str::trim`)
// ---------------------------------------------------------------------------
/// `s` without leading white space.
pub open spec fn trim_start(s: Seq<char>) -> Seq<char>
    decreases s.len(),
{
    if s.len() > 0 && is_ws(s[0]) {
        trim_start(s.drop_first())
    } else {
        s
    }
}

/// `s` without trailing white space.
pub open spec fn trim_end(s: Seq<char>) -> Seq<char>
    decreases s.len(),
{
    if s.len() > 0 && is_ws(s.last()) {
        trim_end(s.drop_last())
    } else {
        s
    }
}

/// `s` without leading and trailing white space (`str::trim`).
pub open spec fn trim(s: Seq<char>) -> Seq<char> {
    trim_end(trim_start(s))
}

/// The index range of `chars[start..end]` with white space trimmed off both ends.
pub fn trim_range(chars: &Vec<char>, start: usize, end: usize) -> (r: (usize, usize))
    requires
        start <= end <= chars.len(),
    ensures
        start <= r.0 <= r.1 <= end,
        chars@.subrange(r.0 as int, r.1 as int) == trim(chars@.subrange(start as int, end as int)),
{
    let ghost s = chars@;
    let mut a = start;
    while a < end && is_whitespace(chars[a])
        invariant
            start <= a <= end <= chars.len(),
            s == chars@,
            trim_start(s.subrange(start as int, end as int)) == trim_start(
                s.subrange(a as int, end as int),
            ),
        decreases end - a,
    {
        assert(s.subrange(a as int, end as int).drop_first() =~= s.subrange(a + 1, end as int));
        a = a + 1;
    }
    assert(trim_start(s.subrange(a as int, end as int)) == s.subrange(a as int, end as int));
    let mut b = end;
    while b > a && is_whitespace(chars[b - 1])
        invariant
            start <= a <= b <= end <= chars.len(),
            s == chars@,
            trim(s.subrange(start as int, end as int)) == trim_end(s.subrange(a as int, b as int)),
        decreases b - a,
    {
        assert(s.subrange(a as int, b as int).drop_last() =~= s.subrange(a as int, b - 1));
        b = b - 1;
    }
    (a, b)
}

// ---------------------------------------------------------------------------
// Decimal integers (`str::parse` for integer types)
// ---------------------------------------------------------------------------
/// Whether `c` is an ASCII decimal digit.
pub open spec fn is_digit(c: char) -> bool {
    '0' <= c <= '9'
}

/// The value of an ASCII digit.
pub open spec fn digit_value(c: char) -> nat {
    (c as u32 - '0' as u32) as nat
}

/// Every character of `s` is a decimal digit.
pub open spec fn all_digits(s: Seq<char>) -> bool {
    forall|i: int| 0 <= i < s.len() ==> is_digit(#[trigger] s[i])
}

/// The number that the decimal digits `s` spell.
pub open spec fn digits_value(s: Seq<char>) -> nat
    decreases s.len(),
{
    if s.len() == 0 {
        0
    } else {
        digits_value(s.drop_last()) * 10 + digit_value(s.last())
    }
}

/// The unsigned number that `s` spells: an optional `+` and at least one digit.
pub open spec fn nat_of(s: Seq<char>) -> Option<nat> {
    let d = if s.len() > 0 && s[0] == '+' {
        s.drop_first()
    } else {
        s
    };
    if d.len() > 0 && all_digits(d) {
        Some(digits_value(d))
    } else {
        None
    }
}

/// The signed number that `s` spells: an optional `+` or `-` and at least one digit.
pub open spec fn int_of(s: Seq<char>) -> Option<int> {
    if s.len() > 0 && s[0] == '-' {
        let d = s.drop_first();
        if d.len() > 0 && all_digits(d) {
            Some(-digits_value(d))
        } else {
            None
        }
    } else {
        match nat_of(s) {
            Some(v) => Some(v as int),
            None => None,
        }
    }
}

/// What `s.parse::<u64>()` gives, as an option.
pub open spec fn u64_of(s: Seq<char>) -> Option<u64> {
    match nat_of(s) {
        Some(v) => if v <= u64::MAX {
            Some(v as u64)
        } else {
            None
        },
        None => None,
    }
}

/// What `s.parse::<usize>()` gives, as an option.
pub open spec fn usize_of(s: Seq<char>) -> Option<usize> {
    match nat_of(s) {
        Some(v) => if v <= usize::MAX {
            Some(v as usize)
        } else {
            None
        },
        None => None,
    }
}

/// What `s.parse::<i64>()` gives, as an option.
pub open spec fn i64_of(s: Seq<char>) -> Option<i64> {
    match int_of(s) {
        Some(v) => if i64::MIN <= v <= i64::MAX {
            Some(v as i64)
        } else {
            None
        },
        None => None,
    }
}

/// What `s.parse::<i32>()` gives, as an option.
pub open spec fn i32_of(s: Seq<char>) -> Option<i32> {
    match int_of(s) {
        Some(v) => if i32::MIN <= v <= i32::MAX {
            Some(v as i32)
        } else {
            None
        },
        None => None,
    }
}

proof fn lemma_digits_prefix_le(s: Seq<char>, k: int)
    requires
        0 <= k <= s.len(),
    ensures
        digits_value(s.take(k)) <= digits_value(s),
    decreases s.len() - k,
{
    if k < s.len() {
        lemma_digits_prefix_le(s, k + 1);
        assert(s.take(k + 1).drop_last() =~= s.take(k));
    } else {
        assert(s.take(k) =~= s);
    }
}

/// The value of the digits `chars[start..end]`, when they are all digits and
/// the value fits in a `u64`.
fn digits_u64(chars: &Vec<char>, start: usize, end: usize) -> (r: Option<u64>)
    requires
        start <= end <= chars.len(),
    ensures
        ({
            let d = chars@.subrange(start as int, end as int);
            r == if all_digits(d) && digits_value(d) <= u64::MAX {
                Some(digits_value(d) as u64)
            } else {
                None::<u64>
            }
        }),
{
    let ghost d = chars@.subrange(start as int, end as int);
    let mut v: u64 = 0;
    let mut i = start;
    assert(d.take(0) =~= seq![]);
    while i < end
        invariant
            start <= i <= end <= chars.len(),
            d == chars@.subrange(start as int, end as int),
            all_digits(d.take(i - start)),
            v as nat == digits_value(d.take(i - start)),
        decreases end - i,
    {
        let c = chars[i];
        let ghost k = (i - start) as int;
        assert(d[k] == c);
        if !('0' <= c && c <= '9') {
            assert(!is_digit(d[k]));
            return None;
        }
        let dv = ((c as u32) - ('0' as u32)) as u64;
        assert(d.take(k + 1).drop_last() =~= d.take(k));
        assert(d.take(k + 1).last() == c);
        if v > (u64::MAX - dv) / 10 {
            proof {
                assert(v * 10 + dv > u64::MAX) by (nonlinear_arith)
                    requires
                        v > (u64::MAX - dv) / 10,
                        dv <= 9,
                ;
                if all_digits(d) {
                    lemma_digits_prefix_le(d, k + 1);
                }
            }
            return None;
        }
        v = v * 10 + dv;
        assert(all_digits(d.take(k + 1)));
        i = i + 1;
    }
    assert(d.take(end - start) =~= d);
    Some(v)
}

/// `chars[start..end]` parsed as a `u64` (`str::parse::<u64>`).
pub fn parse_u64(chars: &Vec<char>, start: usize, end: usize) -> (r: Option<u64>)
    requires
        start <= end <= chars.len(),
    ensures
        r == u64_of(chars@.subrange(start as int, end as int)),
{
    let ghost s = chars@.subrange(start as int, end as int);
    let mut a = start;
    if a < end && chars[a] == '+' {
        a = a + 1;
        assert(s.drop_first() =~= chars@.subrange(a as int, end as int));
    } else {
        assert(s =~= chars@.subrange(a as int, end as int));
    }
    if a == end {
        return None;
    }
    digits_u64(chars, a, end)
}

/// `chars[start..end]` parsed as a `usize` (`str::parse::<usize>`).
pub fn parse_usize(chars: &Vec<char>, start: usize, end: usize) -> (r: Option<usize>)
    requires
        start <= end <= chars.len(),
    ensures
        r == usize_of(chars@.subrange(start as int, end as int)),
{
    match parse_u64(chars, start, end) {
        Some(v) => if v <= usize::MAX as u64 {
            Some(v as usize)
        } else {
            None
        },
        None => None,
    }
}

/// `chars[start..end]` parsed as an `i64` (`str::parse::<i64>`).
pub fn parse_i64(chars: &Vec<char>, start: usize, end: usize) -> (r: Option<i64>)
    requires
        start <= end <= chars.len(),
    ensures
        r == i64_of(chars@.subrange(start as int, end as int)),
{
    let ghost s = chars@.subrange(start as int, end as int);
    if start < end && chars[start] == '-' {
        assert(s.drop_first() =~= chars@.subrange(start + 1, end as int));
        if start + 1 == end {
            return None;
        }
        match digits_u64(chars, start + 1, end) {
            Some(m) => if m <= 0x8000_0000_0000_0000u64 {
                if m == 0x8000_0000_0000_0000u64 {
                    Some(i64::MIN)
                } else {
                    Some(-(m as i64))
                }
            } else {
                None
            },
            None => None,
        }
    } else {
        match parse_u64(chars, start, end) {
            Some(m) => if m <= i64::MAX as u64 {
                Some(m as i64)
            } else {
                None
            },
            None => None,
        }
    }
}

/// `chars[start..end]` parsed as an `i32` (`str::parse::<i32>`).
pub fn parse_i32(chars: &Vec<char>, start: usize, end: usize) -> (r: Option<i32>)
    requires
        start <= end <= chars.len(),
    ensures
        r == i32_of(chars@.subrange(start as int, end as int)),
{
    match parse_i64(chars, start, end) {
        Some(v) => if i32::MIN as i64 <= v && v <= i32::MAX as i64 {
            Some(v as i32)
        } else {
            None
        },
        None => None,
    }
}

// ---------------------------------------------------------------------------
// Printing numbers and padding
// ---------------------------------------------------------------------------
/// The character of a digit value below ten.
pub open spec fn digit_char(d: nat) -> char {
    ((d + '0' as u32) as u32) as char
}

/// The decimal digits of `n`, without leading zeros (`{}` of an unsigned integer).
pub open spec fn dec(n: nat) -> Seq<char>
    decreases n,
{
    if n < 10 {
        seq![digit_char(n)]
    } else {
        dec(n / 10).push(digit_char(n % 10))
    }
}

/// The decimal digits of `n` read back give `n`.
pub(crate) proof fn lemma_dec_digits(n: nat)
    ensures
        dec(n).len() > 0,
        all_digits(dec(n)),
        digits_value(dec(n)) == n,
    decreases n,
{
    let d = n % 10;
    assert(digit_value(digit_char(d)) == d && is_digit(digit_char(d))) by {
        assert(d < 10);
    }
    if n >= 10 {
        lemma_dec_digits(n / 10);
        let s = dec(n / 10);
        assert(dec(n).drop_last() =~= s);
        assert(dec(n).last() == digit_char(d));
        assert forall|i: int| 0 <= i < dec(n).len() implies is_digit(#[trigger] dec(n)[i]) by {
            if i < s.len() {
                assert(dec(n)[i] == s[i]);
            }
        }
        assert(digits_value(dec(n)) == digits_value(s) * 10 + digit_value(dec(n).last()));
        assert(digits_value(dec(n)) == (n / 10) * 10 + d);
    } else {
        assert(dec(n) =~= seq![digit_char(n)]);
        assert(dec(n).drop_last() =~= Seq::<char>::empty());
        assert(digits_value(Seq::<char>::empty()) == 0);
        assert(dec(n).last() == digit_char(d));
        assert(digits_value(dec(n)) == digits_value(dec(n).drop_last()) * 10 + digit_value(dec(n).last()));
    }
}

/// What `s.parse::<u64>()` gives on the decimal digits of `n` is `n`.
pub(crate) proof fn lemma_u64_of_dec(n: u64)
    ensures
        u64_of(dec(n as nat)) == Some(n),
{
    lemma_dec_digits(n as nat);
    assert(is_digit(dec(n as nat)[0]));
}

/// `{}` of a signed integer.
pub open spec fn dec_int(v: int) -> Seq<char> {
    if v < 0 {
        seq!['-'] + dec((-v) as nat)
    } else {
        dec(v as nat)
    }
}

/// `s` padded on the left with `fill` up to `width` characters.
pub open spec fn pad_left(s: Seq<char>, width: nat, fill: char) -> Seq<char> {
    if s.len() >= width {
        s
    } else {
        Seq::new((width - s.len()) as nat, |i: int| fill) + s
    }
}

/// Appends the decimal digits of `n`.
pub fn push_dec(out: &mut Vec<char>, n: u64)
    ensures
        final(out)@ == old(out)@ + dec(n as nat),
    decreases n,
{
    if n >= 10 {
        push_dec(out, n / 10);
    }
    let c = char_of_digit((n % 10) as u32);
    out.push(c);
    assert(old(out)@ + dec(n as nat) =~= if n >= 10 {
        old(out)@ + dec((n / 10) as nat) + seq![c]
    } else {
        old(out)@ + seq![c]
    });
}

/// The character of a digit value below ten.
fn char_of_digit(d: u32) -> (c: char)
    requires
        d < 10,
    ensures
        c == digit_char(d as nat),
{
    if d == 0 {
        '0'
    } else if d == 1 {
        '1'
    } else if d == 2 {
        '2'
    } else if d == 3 {
        '3'
    } else if d == 4 {
        '4'
    } else if d == 5 {
        '5'
    } else if d == 6 {
        '6'
    } else if d == 7 {
        '7'
    } else if d == 8 {
        '8'
    } else {
        '9'
    }
}

/// Appends `{}` of a signed integer.
pub fn push_dec_i64(out: &mut Vec<char>, v: i64)
    ensures
        final(out)@ == old(out)@ + dec_int(v as int),
{
    if v < 0 {
        out.push('-');
        let m: u64 = if v == i64::MIN {
            0x8000_0000_0000_0000u64
        } else {
            (-v) as u64
        };
        push_dec(out, m);
        assert(old(out)@ + dec_int(v as int) =~= old(out)@.push('-') + dec(m as nat));
    } else {
        push_dec(out, v as u64);
    }
}

/// The decimal digits of `n`.
pub fn dec_chars(n: u64) -> (r: Vec<char>)
    ensures
        r@ == dec(n as nat),
{
    let mut v: Vec<char> = Vec::new();
    push_dec(&mut v, n);
    assert(v@ =~= dec(n as nat));
    v
}

/// Appends `s` padded on the left with `fill` up to `width` characters.
pub fn push_padded_left(out: &mut Vec<char>, s: &Vec<char>, width: usize, fill: char)
    ensures
        final(out)@ == old(out)@ + pad_left(s@, width as nat, fill),
{
    let mut k = s.len();
    while k < width
        invariant
            s.len() <= k <= width || (k == s.len() && s.len() >= width),
            out@ == old(out)@ + Seq::new((k - s.len()) as nat, |i: int| fill),
        decreases width - k,
    {
        out.push(fill);
        assert(old(out)@ + Seq::new((k - s.len()) as nat, |i: int| fill).push(fill) =~= old(out)@
            + Seq::new((k + 1 - s.len()) as nat, |i: int| fill));
        k = k + 1;
    }
    extend_chars(out, s);
    if s.len() >= width {
        assert(Seq::new((k - s.len()) as nat, |i: int| fill) =~= Seq::<char>::empty());
        assert(old(out)@ + pad_left(s@, width as nat, fill) =~= old(out)@ + Seq::<char>::empty()
            + s@);
    } else {
        assert(old(out)@ + pad_left(s@, width as nat, fill) =~= old(out)@ + Seq::new(
            (k - s.len()) as nat,
            |i: int| fill,
        ) + s@);
    }
}

} // verus!
