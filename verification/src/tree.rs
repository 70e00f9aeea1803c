//! The process tree view: the rows of the process list, already in the order
//! of the active sort key, rearranged so that each process is followed by its
//! children, with the indentation and branch markers that show the lineage.
//!
//! A row is identified by its position in the input. Rows that share a pid
//! stand for one process, the last of them. A row whose parent is itself, or
//! is not in the list, starts a tree of its own. Rows that no tree reaches
//! (their ancestry runs into a cycle) follow at the end, in input order.
use vstd::prelude::*;
use std::collections::HashMap;
use crate::text::push_char;

verus! {

broadcast use vstd::std_specs::hash::group_hash_axioms;

/// A row of the process list as the tree view sees it.
#[derive(Clone, Copy)]
pub struct ProcLink {
    pub pid: i32,
    pub parent_pid: Option<i32>,
}

/// How a row hangs from its parent: not at all (a tree's root or a row that
/// no tree reaches), as one of several children, or as the last child.
#[derive(Clone, Copy, PartialEq, Eq, Debug, Structural)]
pub enum Branch {
    Top,
    Middle,
    Last,
}

/// A row of the tree view: which input row, and the text drawn before its
/// name (the indentation, then the branch marker).
pub struct TreePlace {
    pub index: usize,
    pub prefix: String,
    pub marker: String,
}

impl View for TreePlace {
    type V = (usize, Seq<char>, Seq<char>);

    open spec fn view(&self) -> (usize, Seq<char>, Seq<char>) {
        (self.index, self.prefix@, self.marker@)
    }
}

/// The tree rows taken by their views.
pub open spec fn places_view(v: Seq<TreePlace>) -> Seq<(usize, Seq<char>, Seq<char>)> {
    v.map_values(|p: TreePlace| p@)
}

/// The branch marker drawn before a row's name.
pub open spec fn marker_text(b: Branch) -> Seq<char> {
    match b {
        Branch::Top => seq![],
        Branch::Middle => seq!['├', '─', ' '],
        Branch::Last => seq!['└', '─', ' '],
    }
}

/// The indentation of a row's children: the row's own indentation, then a
/// continuing line below a middle child, or blanks below a last child.
pub open spec fn next_prefix(prefix: Seq<char>, b: Branch) -> Seq<char> {
    match b {
        Branch::Top => prefix,
        Branch::Middle => prefix + seq!['│', ' ', ' '],
        Branch::Last => prefix + seq![' ', ' ', ' '],
    }
}

// ---------------------------------------------------------------------------
// The structure of the list
// ---------------------------------------------------------------------------
/// The row that stands for each pid among the first `k` rows: the last one.
pub open spec fn last_row(rows: Seq<ProcLink>, k: int) -> Map<i32, usize>
    decreases k,
{
    if k <= 0 {
        Map::empty()
    } else {
        last_row(rows, k - 1).insert(rows[k - 1].pid, (k - 1) as usize)
    }
}

/// Row `i` stands for its pid: no later row has the same pid.
pub open spec fn kept(rows: Seq<ProcLink>, i: int) -> bool {
    0 <= i < rows.len() && forall|j: int| i < j < rows.len() ==> rows[j].pid != rows[i].pid
}

/// The row of `i`'s parent, where the parent is another process in the list.
pub open spec fn parent_row(rows: Seq<ProcLink>, i: int) -> Option<usize> {
    let m = last_row(rows, rows.len() as int);
    match rows[i].parent_pid {
        Some(pp) => if pp != rows[i].pid && m.contains_key(pp) {
            Some(m[pp])
        } else {
            None
        },
        None => None,
    }
}

/// The kept rows among the first `k` whose parent row is `p`, in order.
pub open spec fn kids_below(rows: Seq<ProcLink>, p: usize, k: int) -> Seq<usize>
    decreases k,
{
    if k <= 0 {
        seq![]
    } else if kept(rows, k - 1) && parent_row(rows, k - 1) == Some(p) {
        kids_below(rows, p, k - 1).push((k - 1) as usize)
    } else {
        kids_below(rows, p, k - 1)
    }
}

/// The children of row `p`, in input order.
pub open spec fn children(rows: Seq<ProcLink>, p: usize) -> Seq<usize> {
    kids_below(rows, p, rows.len() as int)
}

/// The kept rows among the first `k` that have no parent row, in order.
pub open spec fn roots_below(rows: Seq<ProcLink>, k: int) -> Seq<usize>
    decreases k,
{
    if k <= 0 {
        seq![]
    } else if kept(rows, k - 1) && parent_row(rows, k - 1) is None {
        roots_below(rows, k - 1).push((k - 1) as usize)
    } else {
        roots_below(rows, k - 1)
    }
}

/// The rows that start a tree, in input order.
pub open spec fn roots(rows: Seq<ProcLink>) -> Seq<usize> {
    roots_below(rows, rows.len() as int)
}

// ---------------------------------------------------------------------------
// The walk
// ---------------------------------------------------------------------------
/// The branch of the `k`-th of `n` children (`Top` where they are roots).
pub open spec fn branch_at(k: int, n: int, nested: bool) -> Branch {
    if !nested {
        Branch::Top
    } else if k == n - 1 {
        Branch::Last
    } else {
        Branch::Middle
    }
}

/// The pending rows for `ids`, under `prefix`, last first: the first of them
/// ends on top of the stack.
pub open spec fn pending(ids: Seq<usize>, prefix: Seq<char>, nested: bool) -> Seq<
    (usize, Seq<char>, Branch),
> {
    Seq::new(
        ids.len(),
        |t: int| (ids[ids.len() - 1 - t], prefix, branch_at(ids.len() - 1 - t, ids.len() as int, nested)),
    )
}

/// The number of rows not yet placed.
pub open spec fn unseen(seen: Seq<bool>) -> nat
    decreases seen.len(),
{
    if seen.len() == 0 {
        0
    } else {
        unseen(seen.drop_last()) + if seen.last() {
            0nat
        } else {
            1nat
        }
    }
}

/// Marking an unplaced row as placed leaves one fewer unplaced.
pub proof fn lemma_unseen_mark(seen: Seq<bool>, i: int)
    requires
        0 <= i < seen.len(),
        !seen[i],
    ensures
        unseen(seen.update(i, true)) + 1 == unseen(seen),
    decreases seen.len(),
{
    let s2 = seen.update(i, true);
    if i == seen.len() - 1 {
        assert(s2.drop_last() =~= seen.drop_last());
    } else {
        assert(s2.drop_last() =~= seen.drop_last().update(i, true));
        lemma_unseen_mark(seen.drop_last(), i);
    }
}

/// Depth-first placement: take the pending row on top of `stack`; unless it
/// is placed already, place it and put its children on the stack, the first
/// child on top. Gives the placed rows in order and which rows are placed at
/// the end.
pub open spec fn walk(rows: Seq<ProcLink>, stack: Seq<(usize, Seq<char>, Branch)>, seen: Seq<bool>) -> (
    Seq<(usize, Seq<char>, Seq<char>)>,
    Seq<bool>,
)
    decreases unseen(seen), stack.len(),
{
    if stack.len() == 0 {
        (seq![], seen)
    } else {
        let e = stack.last();
        let rest = stack.drop_last();
        let i = e.0 as int;
        if i >= seen.len() || seen[i] {
            walk(rows, rest, seen)
        } else {
            proof {
                lemma_unseen_mark(seen, i);
            }
            let sub = walk(
                rows,
                rest + pending(children(rows, e.0), next_prefix(e.1, e.2), true),
                seen.update(i, true),
            );
            (seq![(e.0, e.1, marker_text(e.2))] + sub.0, sub.1)
        }
    }
}

/// The kept rows among the first `k` that the walk did not place, in order,
/// with no indentation or marker.
pub open spec fn leftovers(rows: Seq<ProcLink>, seen: Seq<bool>, k: int) -> Seq<
    (usize, Seq<char>, Seq<char>),
>
    decreases k,
{
    if k <= 0 {
        seq![]
    } else if kept(rows, k - 1) && !seen[k - 1] {
        leftovers(rows, seen, k - 1).push(((k - 1) as usize, seq![], seq![]))
    } else {
        leftovers(rows, seen, k - 1)
    }
}

/// The tree view of `rows`: each tree in the order of its root, each row
/// followed by its children's subtrees in input order; then the rows that no
/// tree reaches.
pub open spec fn tree_order(rows: Seq<ProcLink>) -> Seq<(usize, Seq<char>, Seq<char>)> {
    let w = walk(rows, pending(roots(rows), seq![], false), Seq::new(rows.len(), |i: int| false));
    w.0 + leftovers(rows, w.1, rows.len() as int)
}

// ---------------------------------------------------------------------------
// Facts about the structure
// ---------------------------------------------------------------------------
/// `last_row` maps a pid to the last of the first `k` rows that has it.
pub proof fn lemma_last_row(rows: Seq<ProcLink>, k: int, pid: i32)
    requires
        0 <= k <= rows.len() <= usize::MAX,
    ensures
        last_row(rows, k).contains_key(pid) <==> exists|j: int| 0 <= j < k && rows[j].pid == pid,
        last_row(rows, k).contains_key(pid) ==> {
            let j = last_row(rows, k)[pid] as int;
            &&& 0 <= j < k
            &&& rows[j].pid == pid
            &&& forall|l: int| j < l < k ==> rows[l].pid != pid
        },
    decreases k,
{
    if k > 0 {
        lemma_last_row(rows, k - 1, pid);
        if rows[k - 1].pid != pid {
            let m0 = last_row(rows, k - 1);
            assert(last_row(rows, k) == m0.insert(rows[k - 1].pid, (k - 1) as usize));
            if m0.contains_key(pid) {
                assert(last_row(rows, k)[pid] == m0[pid]);
                let j = m0[pid] as int;
                assert forall|l: int| j < l < k implies rows[l].pid != pid by {
                    if l < k - 1 {
                    }
                }
            }
            if exists|j: int| 0 <= j < k && rows[j].pid == pid {
                let j = choose|j: int| 0 <= j < k && rows[j].pid == pid;
                assert(j < k - 1);
            }
        }
    }
}

/// A row is kept exactly when the pid map points at it.
pub proof fn lemma_kept_map(rows: Seq<ProcLink>, i: int)
    requires
        0 <= i < rows.len() <= usize::MAX,
    ensures
        kept(rows, i) <==> (last_row(rows, rows.len() as int)[rows[i].pid] == i),
        last_row(rows, rows.len() as int).contains_key(rows[i].pid),
{
    lemma_last_row(rows, rows.len() as int, rows[i].pid);
    let j = last_row(rows, rows.len() as int)[rows[i].pid] as int;
    if kept(rows, i) {
        if j != i {
            assert(j > i ==> rows[j].pid != rows[i].pid);
        }
    }
}

// ---------------------------------------------------------------------------
// Building the tree view
// ---------------------------------------------------------------------------
/// The pid map: for each pid, the last row that has it.
fn row_map(rows: &Vec<ProcLink>) -> (m: HashMap<i32, usize>)
    ensures
        m@ == last_row(rows@, rows.len() as int),
{
    let mut m: HashMap<i32, usize> = HashMap::new();
    let mut i: usize = 0;
    while i < rows.len()
        invariant
            i <= rows.len(),
            m@ == last_row(rows@, i as int),
        decreases rows.len() - i,
    {
        m.insert(rows[i].pid, i);
        assert(m@ =~= last_row(rows@, i + 1));
        i = i + 1;
    }
    m
}

/// For each row, whether it is kept and which row is its parent.
fn row_links(rows: &Vec<ProcLink>, m: &HashMap<i32, usize>) -> (r: (Vec<bool>, Vec<Option<usize>>))
    requires
        m@ == last_row(rows@, rows.len() as int),
    ensures
        r.0.len() == rows.len(),
        r.1.len() == rows.len(),
        forall|j: int| 0 <= j < rows.len() ==> r.0@[j] == kept(rows@, j),
        forall|j: int| 0 <= j < rows.len() ==> r.1@[j] == parent_row(rows@, j),
{
    let mut keep: Vec<bool> = Vec::new();
    let mut parent: Vec<Option<usize>> = Vec::new();
    let mut i: usize = 0;
    while i < rows.len()
        invariant
            i <= rows.len(),
            m@ == last_row(rows@, rows.len() as int),
            keep.len() == i,
            parent.len() == i,
            forall|j: int| 0 <= j < i ==> keep@[j] == kept(rows@, j),
            forall|j: int| 0 <= j < i ==> parent@[j] == parent_row(rows@, j),
        decreases rows.len() - i,
    {
        let pid = rows[i].pid;
        proof {
            lemma_kept_map(rows@, i as int);
        }
        let k = match m.get(&pid) {
            Some(j) => *j == i,
            None => false,
        };
        let p = match rows[i].parent_pid {
            Some(pp) => if pp != pid {
                match m.get(&pp) {
                    Some(j) => Some(*j),
                    None => None,
                }
            } else {
                None
            },
            None => None,
        };
        keep.push(k);
        parent.push(p);
        i = i + 1;
    }
    (keep, parent)
}

/// The children of each row, by row.
pub open spec fn kids_view(m: Map<usize, Vec<usize>>) -> Map<usize, Seq<usize>> {
    m.map_values(|v: Vec<usize>| v@)
}

/// The children that a child map holds for `p` (none where it has no entry).
pub open spec fn kids_of(m: Map<usize, Seq<usize>>, p: usize) -> Seq<usize> {
    if m.contains_key(p) {
        m[p]
    } else {
        seq![]
    }
}

/// Adds `child` to the children of `p`.
fn add_kid(map: &mut HashMap<usize, Vec<usize>>, p: usize, child: usize)
    ensures
        forall|q: usize| q != p ==> kids_of(kids_view(final(map)@), q) == kids_of(kids_view(old(map)@), q),
        kids_of(kids_view(final(map)@), p) == kids_of(kids_view(old(map)@), p).push(child),
{
    match map.remove(&p) {
        Some(v) => {
            let mut v = v;
            v.push(child);
            map.insert(p, v);
        },
        None => {
            let mut v: Vec<usize> = Vec::new();
            v.push(child);
            map.insert(p, v);
            assert(v@ =~= seq![child]);
        },
    }
}

/// The children of every row.
fn child_map(rows: &Vec<ProcLink>, keep: &Vec<bool>, parent: &Vec<Option<usize>>) -> (m: HashMap<
    usize,
    Vec<usize>,
>)
    requires
        keep.len() == rows.len(),
        parent.len() == rows.len(),
        forall|j: int| 0 <= j < rows.len() ==> keep@[j] == kept(rows@, j),
        forall|j: int| 0 <= j < rows.len() ==> parent@[j] == parent_row(rows@, j),
    ensures
        forall|p: usize| kids_of(kids_view(m@), p) == children(rows@, p),
{
    let mut m: HashMap<usize, Vec<usize>> = HashMap::new();
    let mut i: usize = 0;
    while i < rows.len()
        invariant
            i <= rows.len(),
            keep.len() == rows.len(),
            parent.len() == rows.len(),
            forall|j: int| 0 <= j < rows.len() ==> keep@[j] == kept(rows@, j),
            forall|j: int| 0 <= j < rows.len() ==> parent@[j] == parent_row(rows@, j),
            forall|p: usize| kids_of(kids_view(m@), p) == kids_below(rows@, p, i as int),
        decreases rows.len() - i,
    {
        if keep[i] {
            match parent[i] {
                Some(p) => {
                    add_kid(&mut m, p, i);
                },
                None => {},
            }
        }
        i = i + 1;
    }
    m
}

/// The rows that start a tree.
fn root_rows(rows: &Vec<ProcLink>, keep: &Vec<bool>, parent: &Vec<Option<usize>>) -> (r: Vec<usize>)
    requires
        keep.len() == rows.len(),
        parent.len() == rows.len(),
        forall|j: int| 0 <= j < rows.len() ==> keep@[j] == kept(rows@, j),
        forall|j: int| 0 <= j < rows.len() ==> parent@[j] == parent_row(rows@, j),
    ensures
        r@ == roots(rows@),
{
    let mut r: Vec<usize> = Vec::new();
    let mut i: usize = 0;
    while i < rows.len()
        invariant
            i <= rows.len(),
            keep.len() == rows.len(),
            parent.len() == rows.len(),
            forall|j: int| 0 <= j < rows.len() ==> keep@[j] == kept(rows@, j),
            forall|j: int| 0 <= j < rows.len() ==> parent@[j] == parent_row(rows@, j),
            r@ == roots_below(rows@, i as int),
        decreases rows.len() - i,
    {
        if keep[i] && parent[i].is_none() {
            r.push(i);
        }
        i = i + 1;
    }
    r
}

/// The pending rows taken by their views.
pub open spec fn stack_view(s: Seq<(usize, String, Branch)>) -> Seq<(usize, Seq<char>, Branch)> {
    s.map_values(|e: (usize, String, Branch)| (e.0, e.1@, e.2))
}

/// Puts the rows `ids` on the stack under `prefix`, the first on top.
fn push_pending(stack: &mut Vec<(usize, String, Branch)>, ids: &Vec<usize>, prefix: &String, nested: bool)
    ensures
        stack_view(final(stack)@) == stack_view(old(stack)@) + pending(ids@, prefix@, nested),
{
    let n = ids.len();
    let mut t: usize = 0;
    while t < n
        invariant
            t <= n,
            n == ids.len(),
            stack_view(stack@) == stack_view(old(stack)@) + pending(ids@, prefix@, nested).take(t as int),
        decreases n - t,
    {
        let k = n - 1 - t;
        let b = if !nested {
            Branch::Top
        } else if k == n - 1 {
            Branch::Last
        } else {
            Branch::Middle
        };
        let ghost before = stack@;
        stack.push((ids[k], prefix.clone(), b));
        assert(stack_view(stack@) =~= stack_view(before).push((ids@[k as int], prefix@, b)));
        assert(pending(ids@, prefix@, nested).take(t + 1) =~= pending(ids@, prefix@, nested).take(
            t as int,
        ).push((ids@[k as int], prefix@, b)));
        t = t + 1;
    }
    assert(pending(ids@, prefix@, nested).take(n as int) =~= pending(ids@, prefix@, nested));
}

/// The marker text of a branch.
fn marker_string(b: Branch) -> (s: String)
    ensures
        s@ == marker_text(b),
{
    let mut s = String::new();
    match b {
        Branch::Top => {},
        Branch::Middle => {
            push_char(&mut s, '├');
            push_char(&mut s, '─');
            push_char(&mut s, ' ');
        },
        Branch::Last => {
            push_char(&mut s, '└');
            push_char(&mut s, '─');
            push_char(&mut s, ' ');
        },
    }
    assert(s@ =~= marker_text(b));
    s
}

/// The indentation of the children of a row with `prefix` and branch `b`.
fn child_prefix(prefix: &String, b: Branch) -> (s: String)
    ensures
        s@ == next_prefix(prefix@, b),
{
    let mut s = prefix.clone();
    match b {
        Branch::Top => {},
        Branch::Middle => {
            push_char(&mut s, '│');
            push_char(&mut s, ' ');
            push_char(&mut s, ' ');
        },
        Branch::Last => {
            push_char(&mut s, ' ');
            push_char(&mut s, ' ');
            push_char(&mut s, ' ');
        },
    }
    assert(s@ =~= next_prefix(prefix@, b));
    s
}

/// Rearranges the rows of the process list, given in the order of the sort
/// key, into the tree view.
pub fn build_tree_rows(rows: &Vec<ProcLink>) -> (r: Vec<TreePlace>)
    ensures
        places_view(r@) == tree_order(rows@),
{
    let n = rows.len();
    let m = row_map(rows);
    let (keep, parent) = row_links(rows, &m);
    let kids = child_map(rows, &keep, &parent);
    let root_ids = root_rows(rows, &keep, &parent);
    let mut stack: Vec<(usize, String, Branch)> = Vec::new();
    let top = String::new();
    push_pending(&mut stack, &root_ids, &top, false);
    assert(stack_view(stack@) =~= pending(roots(rows@), seq![], false));
    let mut seen: Vec<bool> = Vec::new();
    while seen.len() < n
        invariant
            seen.len() <= n,
            forall|j: int| 0 <= j < seen.len() ==> !seen@[j],
        decreases n - seen.len(),
    {
        seen.push(false);
    }
    assert(seen@ =~= Seq::new(rows@.len(), |i: int| false));
    let ghost w0 = walk(rows@, stack_view(stack@), seen@);
    let mut out: Vec<TreePlace> = Vec::new();
    while stack.len() > 0
        invariant
            n == rows.len(),
            seen.len() == n,
            forall|p: usize| kids_of(kids_view(kids@), p) == children(rows@, p),
            places_view(out@) + walk(rows@, stack_view(stack@), seen@).0 == w0.0,
            walk(rows@, stack_view(stack@), seen@).1 == w0.1,
        decreases unseen(seen@), stack.len(),
    {
        let ghost sv = stack_view(stack@);
        let ghost s0 = seen@;
        let e = stack.pop().unwrap();
        assert(stack_view(stack@) =~= sv.drop_last());
        assert(sv.last() == (e.0, e.1@, e.2));
        let i = e.0;
        if i >= n || seen[i] {
        } else {
            proof {
                lemma_unseen_mark(s0, i as int);
            }
            seen.set(i, true);
            let np = child_prefix(&e.1, e.2);
            let mk = marker_string(e.2);
            let ghost placed = (i, e.1@, mk@);
            let ghost before = out@;
            out.push(TreePlace { index: i, prefix: e.1, marker: mk });
            assert(places_view(out@) =~= places_view(before).push(placed));
            match kids.get(&i) {
                Some(v) => {
                    push_pending(&mut stack, v, &np, true);
                },
                None => {
                    assert(pending(children(rows@, i), np@, true) =~= seq![]);
                    assert(stack_view(stack@) =~= sv.drop_last() + pending(children(rows@, i), np@, true));
                },
            }
            let ghost sub = walk(rows@, stack_view(stack@), seen@);
            assert(walk(rows@, sv, s0).0 == seq![placed] + sub.0);
            assert(places_view(before) + (seq![placed] + sub.0) =~= places_view(out@) + sub.0);
        }
    }
    let mut j: usize = 0;
    while j < n
        invariant
            j <= n,
            n == rows.len(),
            seen.len() == n,
            keep.len() == n,
            forall|k: int| 0 <= k < n ==> keep@[k] == kept(rows@, k),
            seen@ == w0.1,
            places_view(out@) == w0.0 + leftovers(rows@, w0.1, j as int),
        decreases n - j,
    {
        if keep[j] && !seen[j] {
            let ghost before = out@;
            out.push(TreePlace { index: j, prefix: String::new(), marker: String::new() });
            assert(places_view(out@) =~= places_view(before).push((j, seq![], seq![])));
        }
        j = j + 1;
    }
    out
}

// ---------------------------------------------------------------------------
// Laws of the tree view
// ---------------------------------------------------------------------------
/// The input rows that a list of tree rows shows, in order.
pub open spec fn indices(s: Seq<(usize, Seq<char>, Seq<char>)>) -> Seq<usize> {
    s.map_values(|p: (usize, Seq<char>, Seq<char>)| p.0)
}

/// The children of `p` among the first `k` rows are kept rows below `k`
/// whose parent row is `p`, in increasing order.
proof fn lemma_kids_below(rows: Seq<ProcLink>, p: usize, k: int)
    requires
        0 <= k <= rows.len() <= usize::MAX,
    ensures
        forall|t: int|
            0 <= t < kids_below(rows, p, k).len() ==> {
                let c = #[trigger] kids_below(rows, p, k)[t] as int;
                &&& 0 <= c < k
                &&& kept(rows, c)
                &&& parent_row(rows, c) == Some(p)
            },
        forall|a: int, b: int|
            0 <= a < b < kids_below(rows, p, k).len() ==> kids_below(rows, p, k)[a]
                < kids_below(rows, p, k)[b],
    decreases k,
{
    if k > 0 {
        lemma_kids_below(rows, p, k - 1);
        let prev = kids_below(rows, p, k - 1);
        let cur = kids_below(rows, p, k);
        if kept(rows, k - 1) && parent_row(rows, k - 1) == Some(p) {
            assert(cur == prev.push((k - 1) as usize));
            assert forall|t: int| 0 <= t < cur.len() implies {
                let c = #[trigger] cur[t] as int;
                &&& 0 <= c < k
                &&& kept(rows, c)
                &&& parent_row(rows, c) == Some(p)
            } by {
                if t < prev.len() {
                    assert(cur[t] == prev[t]);
                }
            }
            assert forall|a: int, b: int| 0 <= a < b < cur.len() implies cur[a] < cur[b] by {
                assert(cur[a] == prev[a]);
                if b < prev.len() {
                    assert(cur[b] == prev[b]);
                }
            }
        }
    }
}

/// The roots among the first `k` rows are kept rows below `k` without a
/// parent row, in increasing order.
proof fn lemma_roots_below(rows: Seq<ProcLink>, k: int)
    requires
        0 <= k <= rows.len() <= usize::MAX,
    ensures
        forall|t: int|
            0 <= t < roots_below(rows, k).len() ==> {
                let c = #[trigger] roots_below(rows, k)[t] as int;
                &&& 0 <= c < k
                &&& kept(rows, c)
                &&& parent_row(rows, c) is None
            },
        forall|a: int, b: int|
            0 <= a < b < roots_below(rows, k).len() ==> roots_below(rows, k)[a] < roots_below(
                rows,
                k,
            )[b],
    decreases k,
{
    if k > 0 {
        lemma_roots_below(rows, k - 1);
        let prev = roots_below(rows, k - 1);
        let cur = roots_below(rows, k);
        if kept(rows, k - 1) && parent_row(rows, k - 1) is None {
            assert(cur == prev.push((k - 1) as usize));
            assert forall|t: int| 0 <= t < cur.len() implies {
                let c = #[trigger] cur[t] as int;
                &&& 0 <= c < k
                &&& kept(rows, c)
                &&& parent_row(rows, c) is None
            } by {
                if t < prev.len() {
                    assert(cur[t] == prev[t]);
                }
            }
            assert forall|a: int, b: int| 0 <= a < b < cur.len() implies cur[a] < cur[b] by {
                assert(cur[a] == prev[a]);
                if b < prev.len() {
                    assert(cur[b] == prev[b]);
                }
            }
        }
    }
}

/// Every pending row on `stack` is a kept row of the list.
pub open spec fn stack_kept(rows: Seq<ProcLink>, stack: Seq<(usize, Seq<char>, Branch)>) -> bool {
    forall|t: int| 0 <= t < stack.len() ==> kept(rows, (#[trigger] stack[t]).0 as int)
}

/// The walk places each row at most once, only kept rows that were not
/// placed before, and marks exactly those as placed.
proof fn lemma_walk_places(rows: Seq<ProcLink>, stack: Seq<(usize, Seq<char>, Branch)>, seen: Seq<bool>)
    requires
        seen.len() == rows.len() <= usize::MAX,
        stack_kept(rows, stack),
    ensures
        walk(rows, stack, seen).1.len() == seen.len(),
        indices(walk(rows, stack, seen).0).no_duplicates(),
        forall|t: int|
            0 <= t < walk(rows, stack, seen).0.len() ==> {
                let x = #[trigger] walk(rows, stack, seen).0[t].0 as int;
                &&& kept(rows, x)
                &&& !seen[x]
            },
        forall|x: int|
            0 <= x < seen.len() ==> (#[trigger] walk(rows, stack, seen).1[x] <==> (seen[x] || indices(
                walk(rows, stack, seen).0,
            ).contains(x as usize))),
    decreases unseen(seen), stack.len(),
{
    let w = walk(rows, stack, seen);
    if stack.len() == 0 {
    } else {
        let e = stack.last();
        let rest = stack.drop_last();
        let i = e.0 as int;
        assert(stack_kept(rows, rest)) by {
            assert forall|t: int| 0 <= t < rest.len() implies kept(rows, (#[trigger] rest[t]).0 as int) by {
                assert(rest[t] == stack[t]);
            }
        }
        if i >= seen.len() || seen[i] {
            lemma_walk_places(rows, rest, seen);
        } else {
            lemma_unseen_mark(seen, i);
            let ch = children(rows, e.0);
            lemma_kids_below(rows, e.0, rows.len() as int);
            let pend = pending(ch, next_prefix(e.1, e.2), true);
            let st2 = rest + pend;
            let s2 = seen.update(i, true);
            assert(stack_kept(rows, st2)) by {
                assert forall|t: int| 0 <= t < st2.len() implies kept(rows, (#[trigger] st2[t]).0 as int) by {
                    if t < rest.len() {
                        assert(st2[t] == rest[t]);
                    } else {
                        let u = t - rest.len();
                        assert(st2[t] == pend[u]);
                        assert(pend[u].0 == ch[ch.len() - 1 - u]);
                    }
                }
            }
            lemma_walk_places(rows, st2, s2);
            let sub = walk(rows, st2, s2);
            let placed = (e.0, e.1, marker_text(e.2));
            assert(w.0 == seq![placed] + sub.0);
            assert(w.1 == sub.1);
            let iw = indices(w.0);
            let is = indices(sub.0);
            assert(iw =~= seq![e.0] + is);
            assert forall|t: int| 0 <= t < is.len() implies is[t] != e.0 by {
                assert(is[t] == sub.0[t].0);
                assert(!s2[sub.0[t].0 as int]);
            }
            assert forall|a: int, b: int| 0 <= a < iw.len() && 0 <= b < iw.len() && a != b implies iw[a]
                != iw[b] by {
                if a > 0 && b > 0 {
                    assert(iw[a] == is[a - 1]);
                    assert(iw[b] == is[b - 1]);
                } else if a == 0 {
                    assert(iw[b] == is[b - 1]);
                } else {
                    assert(iw[a] == is[a - 1]);
                }
            }
            assert forall|t: int| 0 <= t < w.0.len() implies {
                let x = #[trigger] w.0[t].0 as int;
                &&& kept(rows, x)
                &&& !seen[x]
            } by {
                if t > 0 {
                    assert(w.0[t] == sub.0[t - 1]);
                }
            }
            assert forall|x: int| 0 <= x < seen.len() implies (#[trigger] w.1[x] <==> (seen[x]
                || iw.contains(x as usize))) by {
                if iw.contains(x as usize) {
                    let t = choose|t: int| 0 <= t < iw.len() && iw[t] == x as usize;
                    if t > 0 {
                        assert(is[t - 1] == x as usize);
                        assert(is.contains(x as usize));
                    }
                }
                if is.contains(x as usize) {
                    let t = choose|t: int| 0 <= t < is.len() && is[t] == x as usize;
                    assert(iw[t + 1] == x as usize);
                }
                if x == i {
                    assert(iw[0] == x as usize);
                }
            }
        }
    }
}

/// The leftover rows are the kept rows that are not marked, in increasing
/// order.
proof fn lemma_leftovers(rows: Seq<ProcLink>, seen: Seq<bool>, k: int)
    requires
        0 <= k <= rows.len() <= usize::MAX,
        seen.len() == rows.len(),
    ensures
        forall|t: int|
            0 <= t < leftovers(rows, seen, k).len() ==> {
                let x = #[trigger] leftovers(rows, seen, k)[t].0 as int;
                &&& 0 <= x < k
                &&& kept(rows, x)
                &&& !seen[x]
            },
        forall|a: int, b: int|
            0 <= a < b < leftovers(rows, seen, k).len() ==> leftovers(rows, seen, k)[a].0
                < leftovers(rows, seen, k)[b].0,
        forall|x: int|
            0 <= x < k && kept(rows, x) && !seen[x] ==> indices(leftovers(rows, seen, k)).contains(
                x as usize,
            ),
    decreases k,
{
    if k > 0 {
        lemma_leftovers(rows, seen, k - 1);
        let lo = leftovers(rows, seen, k);
        let prev = leftovers(rows, seen, k - 1);
        assert forall|x: int| 0 <= x < k && kept(rows, x) && !seen[x] implies indices(lo).contains(
            x as usize,
        ) by {
            if x < k - 1 {
                let t = choose|t: int| 0 <= t < indices(prev).len() && indices(prev)[t] == x as usize;
                assert(lo[t] == prev[t]);
                assert(indices(lo)[t] == x as usize);
            } else {
                assert(lo.last().0 == x as usize);
                assert(indices(lo)[lo.len() - 1] == x as usize);
            }
        }
    }
}

/// The tree view shows every process of the list exactly once: each row that
/// stands for its pid (no later row has the same pid) appears once, and no
/// other row appears.
pub proof fn lemma_tree_shows_each_process_once(rows: Seq<ProcLink>)
    requires
        rows.len() <= usize::MAX,
    ensures
        indices(tree_order(rows)).no_duplicates(),
        forall|t: int|
            0 <= t < tree_order(rows).len() ==> (#[trigger] tree_order(rows)[t]).0 < rows.len(),
        forall|j: int|
            0 <= j < rows.len() ==> (#[trigger] indices(tree_order(rows)).contains(j as usize)
                <==> kept(rows, j)),
{
    let n = rows.len() as int;
    let st = pending(roots(rows), seq![], false);
    let s0 = Seq::new(rows.len(), |i: int| false);
    lemma_roots_below(rows, n);
    assert(stack_kept(rows, st)) by {
        assert forall|t: int| 0 <= t < st.len() implies kept(rows, (#[trigger] st[t]).0 as int) by {
            assert(st[t].0 == roots(rows)[roots(rows).len() - 1 - t]);
        }
    }
    lemma_walk_places(rows, st, s0);
    let w = walk(rows, st, s0);
    lemma_leftovers(rows, w.1, n);
    let lo = leftovers(rows, w.1, n);
    let out = tree_order(rows);
    assert(out == w.0 + lo);
    let iw = indices(w.0);
    let il = indices(lo);
    let io = indices(out);
    assert(io =~= iw + il);
    assert forall|t: int| 0 <= t < out.len() implies (#[trigger] out[t]).0 < rows.len() by {
        if t < w.0.len() {
            assert(out[t] == w.0[t]);
        } else {
            assert(out[t] == lo[t - w.0.len()]);
        }
    }
    assert forall|a: int, b: int| 0 <= a < io.len() && 0 <= b < io.len() && a != b implies io[a]
        != io[b] by {
        let m = iw.len() as int;
        if a < m && b < m {
            assert(io[a] == iw[a] && io[b] == iw[b]);
        } else if a >= m && b >= m {
            assert(io[a] == il[a - m] && io[b] == il[b - m]);
            if a < b {
                assert(lo[a - m].0 < lo[b - m].0);
            } else {
                assert(lo[b - m].0 < lo[a - m].0);
            }
        } else if a < m {
            assert(io[a] == iw[a] && io[b] == il[b - m]);
            let x = w.0[a].0 as int;
            assert(iw.contains(x as usize)) by {
                assert(iw[a] == x as usize);
            }
            assert(w.1[x]);
            assert(!w.1[lo[b - m].0 as int]);
        } else {
            assert(io[b] == iw[b] && io[a] == il[a - m]);
            let x = w.0[b].0 as int;
            assert(iw.contains(x as usize)) by {
                assert(iw[b] == x as usize);
            }
            assert(w.1[x]);
            assert(!w.1[lo[a - m].0 as int]);
        }
    }
    assert forall|j: int| 0 <= j < rows.len() implies (io.contains(j as usize) <==> kept(rows, j)) by {
        if io.contains(j as usize) {
            let t = choose|t: int| 0 <= t < io.len() && io[t] == j as usize;
            if t < iw.len() {
                assert(io[t] == iw[t]);
                assert(kept(rows, w.0[t].0 as int));
            } else {
                assert(io[t] == il[t - iw.len()]);
                assert(kept(rows, lo[t - iw.len()].0 as int));
            }
        }
        if kept(rows, j) {
            if w.1[j] {
                assert(!s0[j]);
                assert(iw.contains(j as usize));
                let t = choose|t: int| 0 <= t < iw.len() && iw[t] == j as usize;
                assert(io[t] == j as usize);
            } else {
                assert(il.contains(j as usize));
                let t = choose|t: int| 0 <= t < il.len() && il[t] == j as usize;
                assert(io[t + iw.len()] == j as usize);
            }
        }
    }
}

/// Every pending row that hangs from a parent has its parent row placed.
pub open spec fn stack_parents_placed(
    rows: Seq<ProcLink>,
    stack: Seq<(usize, Seq<char>, Branch)>,
    seen: Seq<bool>,
) -> bool {
    forall|t: int|
        0 <= t < stack.len() && (#[trigger] stack[t]).2 != Branch::Top ==> {
            &&& parent_row(rows, stack[t].0 as int) is Some
            &&& parent_row(rows, stack[t].0 as int).unwrap() < seen.len()
            &&& seen[parent_row(rows, stack[t].0 as int).unwrap() as int]
        }
}

/// Every row that the walk places under a marker has its parent row placed
/// before it, or placed already when the walk began.
proof fn lemma_walk_parents(rows: Seq<ProcLink>, stack: Seq<(usize, Seq<char>, Branch)>, seen: Seq<bool>)
    requires
        seen.len() == rows.len() <= usize::MAX,
        stack_kept(rows, stack),
        stack_parents_placed(rows, stack, seen),
    ensures
        forall|b: int|
            0 <= b < walk(rows, stack, seen).0.len() && (#[trigger] walk(rows, stack, seen).0[b]).2
                != Seq::<char>::empty() ==> {
                let q = parent_row(rows, walk(rows, stack, seen).0[b].0 as int);
                &&& q is Some
                &&& q.unwrap() < seen.len()
                &&& (seen[q.unwrap() as int] || exists|a: int|
                    0 <= a < b && (#[trigger] walk(rows, stack, seen).0[a]).0 == q.unwrap())
            },
    decreases unseen(seen), stack.len(),
{
    let w = walk(rows, stack, seen);
    if stack.len() == 0 {
    } else {
        let e = stack.last();
        let rest = stack.drop_last();
        let i = e.0 as int;
        assert(stack_kept(rows, rest)) by {
            assert forall|t: int| 0 <= t < rest.len() implies kept(rows, (#[trigger] rest[t]).0 as int) by {
                assert(rest[t] == stack[t]);
            }
        }
        assert(stack_parents_placed(rows, rest, seen)) by {
            assert forall|t: int| 0 <= t < rest.len() && (#[trigger] rest[t]).2 != Branch::Top implies {
                &&& parent_row(rows, rest[t].0 as int) is Some
                &&& parent_row(rows, rest[t].0 as int).unwrap() < seen.len()
                &&& seen[parent_row(rows, rest[t].0 as int).unwrap() as int]
            } by {
                assert(rest[t] == stack[t]);
            }
        }
        if i >= seen.len() || seen[i] {
            lemma_walk_parents(rows, rest, seen);
        } else {
            lemma_unseen_mark(seen, i);
            let ch = children(rows, e.0);
            lemma_kids_below(rows, e.0, rows.len() as int);
            let pend = pending(ch, next_prefix(e.1, e.2), true);
            let st2 = rest + pend;
            let s2 = seen.update(i, true);
            assert(stack_kept(rows, st2)) by {
                assert forall|t: int| 0 <= t < st2.len() implies kept(rows, (#[trigger] st2[t]).0 as int) by {
                    if t < rest.len() {
                        assert(st2[t] == rest[t]);
                    } else {
                        let u = t - rest.len();
                        assert(st2[t] == pend[u]);
                        assert(pend[u].0 == ch[ch.len() - 1 - u]);
                    }
                }
            }
            assert(stack_parents_placed(rows, st2, s2)) by {
                assert forall|t: int| 0 <= t < st2.len() && (#[trigger] st2[t]).2 != Branch::Top implies {
                    &&& parent_row(rows, st2[t].0 as int) is Some
                    &&& parent_row(rows, st2[t].0 as int).unwrap() < s2.len()
                    &&& s2[parent_row(rows, st2[t].0 as int).unwrap() as int]
                } by {
                    if t < rest.len() {
                        assert(st2[t] == rest[t]);
                    } else {
                        let u = t - rest.len();
                        assert(st2[t] == pend[u]);
                        assert(pend[u].0 == ch[ch.len() - 1 - u]);
                        assert(parent_row(rows, st2[t].0 as int) == Some(e.0));
                    }
                }
            }
            lemma_walk_parents(rows, st2, s2);
            let sub = walk(rows, st2, s2);
            let placed = (e.0, e.1, marker_text(e.2));
            assert(w.0 == seq![placed] + sub.0);
            assert forall|b: int| 0 <= b < w.0.len() && (#[trigger] w.0[b]).2 != Seq::<char>::empty() implies {
                let q = parent_row(rows, w.0[b].0 as int);
                &&& q is Some
                &&& q.unwrap() < seen.len()
                &&& (seen[q.unwrap() as int] || exists|a: int| 0 <= a < b && (#[trigger] w.0[a]).0 == q.unwrap())
            } by {
                if b == 0 {
                    assert(w.0[0] == placed);
                    if e.2 == Branch::Top {
                        assert(marker_text(e.2) =~= Seq::<char>::empty());
                    }
                    assert(stack[stack.len() - 1] == e);
                } else {
                    assert(w.0[b] == sub.0[b - 1]);
                    let q = parent_row(rows, w.0[b].0 as int).unwrap();
                    if s2[q as int] {
                        if q as int == i {
                            assert(w.0[0].0 == q);
                        }
                    } else {
                        let a = choose|a: int| 0 <= a < b - 1 && (#[trigger] sub.0[a]).0 == q;
                        assert(w.0[a + 1] == sub.0[a]);
                    }
                }
            }
        }
    }
}

/// In the tree view every row drawn with a branch marker comes after the row
/// of its parent.
pub proof fn lemma_tree_parent_before_child(rows: Seq<ProcLink>)
    requires
        rows.len() <= usize::MAX,
    ensures
        forall|b: int|
            0 <= b < tree_order(rows).len() && (#[trigger] tree_order(rows)[b]).2
                != Seq::<char>::empty() ==> {
                let q = parent_row(rows, tree_order(rows)[b].0 as int);
                &&& q is Some
                &&& exists|a: int| 0 <= a < b && (#[trigger] tree_order(rows)[a]).0 == q.unwrap()
            },
{
    let n = rows.len() as int;
    let st = pending(roots(rows), seq![], false);
    let s0 = Seq::new(rows.len(), |i: int| false);
    lemma_roots_below(rows, n);
    assert(stack_kept(rows, st)) by {
        assert forall|t: int| 0 <= t < st.len() implies kept(rows, (#[trigger] st[t]).0 as int) by {
            assert(st[t].0 == roots(rows)[roots(rows).len() - 1 - t]);
        }
    }
    assert(stack_parents_placed(rows, st, s0));
    lemma_walk_parents(rows, st, s0);
    let w = walk(rows, st, s0);
    let lo = leftovers(rows, w.1, n);
    let out = tree_order(rows);
    assert(out == w.0 + lo);
    assert forall|b: int| 0 <= b < out.len() && (#[trigger] out[b]).2 != Seq::<char>::empty() implies {
        let q = parent_row(rows, out[b].0 as int);
        &&& q is Some
        &&& exists|a: int| 0 <= a < b && (#[trigger] out[a]).0 == q.unwrap()
    } by {
        if b < w.0.len() {
            assert(out[b] == w.0[b]);
            let q = parent_row(rows, w.0[b].0 as int).unwrap();
            assert(!s0[q as int]);
            let a = choose|a: int| 0 <= a < b && (#[trigger] w.0[a]).0 == q;
            assert(out[a] == w.0[a]);
        } else {
            assert(out[b] == lo[b - w.0.len()]);
            lemma_leftover_marks(rows, w.1, n);
        }
    }
}

/// The leftover rows carry no indentation and no marker.
proof fn lemma_leftover_marks(rows: Seq<ProcLink>, seen: Seq<bool>, k: int)
    ensures
        forall|t: int|
            0 <= t < leftovers(rows, seen, k).len() ==> (#[trigger] leftovers(rows, seen, k)[t]).2
                == Seq::<char>::empty() && leftovers(rows, seen, k)[t].1 == Seq::<char>::empty(),
    decreases k,
{
    if k > 0 {
        lemma_leftover_marks(rows, seen, k - 1);
        let prev = leftovers(rows, seen, k - 1);
        let cur = leftovers(rows, seen, k);
        assert forall|t: int| 0 <= t < cur.len() implies (#[trigger] cur[t]).2 == Seq::<char>::empty()
            && cur[t].1 == Seq::<char>::empty() by {
            if t < prev.len() {
                assert(cur[t] == prev[t]);
            }
        }
    }
}

// ---------------------------------------------------------------------------
// Sibling order
// ---------------------------------------------------------------------------
/// Rows `x` and `y` are kept rows with the same parent row.
pub open spec fn siblings(rows: Seq<ProcLink>, x: int, y: int) -> bool {
    &&& kept(rows, x)
    &&& kept(rows, y)
    &&& parent_row(rows, x) is Some
    &&& parent_row(rows, x) == parent_row(rows, y)
}

/// Every pending row is a root or has its parent placed.
spec fn entries_have_placed_parents(
    rows: Seq<ProcLink>,
    stack: Seq<(usize, Seq<char>, Branch)>,
    seen: Seq<bool>,
) -> bool {
    forall|t: int|
        0 <= t < stack.len() ==> match parent_row(rows, (#[trigger] stack[t]).0 as int) {
            None => true,
            Some(q) => q < seen.len() && seen[q as int],
        }
}

/// A row is placed only after its earlier siblings.
spec fn siblings_placed_in_order(rows: Seq<ProcLink>, seen: Seq<bool>) -> bool {
    forall|x: int, y: int|
        0 <= x < y < seen.len() && #[trigger] siblings(rows, x, y) && seen[y] ==> seen[x]
}

/// Above a pending row lie its earlier siblings that are not placed yet.
spec fn sibling_entries_in_order(
    rows: Seq<ProcLink>,
    stack: Seq<(usize, Seq<char>, Branch)>,
    seen: Seq<bool>,
) -> bool {
    forall|t2: int, x: int|
        0 <= t2 < stack.len() && 0 <= x < stack[t2].0 && #[trigger] siblings(rows, x, stack[t2].0 as int)
            ==> seen[x] || exists|t1: int| t2 < t1 < stack.len() && (#[trigger] stack[t1]).0 == x
}

/// A kept row whose parent row is `p` is among the children of `p`.
proof fn lemma_child_listed(rows: Seq<ProcLink>, p: usize, x: int, k: int)
    requires
        0 <= x < k <= rows.len() <= usize::MAX,
        kept(rows, x),
        parent_row(rows, x) == Some(p),
    ensures
        exists|j: int| 0 <= j < kids_below(rows, p, k).len() && kids_below(rows, p, k)[j] == x,
    decreases k,
{
    let prev = kids_below(rows, p, k - 1);
    let cur = kids_below(rows, p, k);
    if x == k - 1 {
        assert(cur == prev.push((k - 1) as usize));
        assert(cur[prev.len() as int] == x);
    } else {
        lemma_child_listed(rows, p, x, k - 1);
        let j = choose|j: int| 0 <= j < prev.len() && prev[j] == x;
        if kept(rows, k - 1) && parent_row(rows, k - 1) == Some(p) {
            assert(cur[j] == prev[j]);
        }
    }
}

/// Rows are placed in the order of their siblings: when the walk places a
/// row, each earlier sibling was placed before it (in the walk or already).
proof fn lemma_walk_sibling_order(
    rows: Seq<ProcLink>,
    stack: Seq<(usize, Seq<char>, Branch)>,
    seen: Seq<bool>,
)
    requires
        seen.len() == rows.len() <= usize::MAX,
        stack_kept(rows, stack),
        entries_have_placed_parents(rows, stack, seen),
        siblings_placed_in_order(rows, seen),
        sibling_entries_in_order(rows, stack, seen),
    ensures
        forall|b: int, x: int|
            0 <= b < walk(rows, stack, seen).0.len() && 0 <= x < walk(rows, stack, seen).0[b].0
                && #[trigger] siblings(rows, x, walk(rows, stack, seen).0[b].0 as int) ==> seen[x]
                || exists|a: int| 0 <= a < b && (#[trigger] walk(rows, stack, seen).0[a]).0 == x,
    decreases unseen(seen), stack.len(),
{
    let w = walk(rows, stack, seen);
    if stack.len() == 0 {
        return;
    }
    let e = stack.last();
    let rest = stack.drop_last();
    let i = e.0 as int;
    let top = stack.len() - 1;
    assert(stack_kept(rows, rest)) by {
        assert forall|t: int| 0 <= t < rest.len() implies kept(rows, (#[trigger] rest[t]).0 as int) by {
            assert(rest[t] == stack[t]);
        }
    }
    if i >= seen.len() || seen[i] {
        assert(entries_have_placed_parents(rows, rest, seen)) by {
            assert forall|t: int| 0 <= t < rest.len() implies match parent_row(rows, (#[trigger] rest[t]).0 as int) {
                None => true,
                Some(q) => q < seen.len() && seen[q as int],
            } by {
                assert(rest[t] == stack[t]);
            }
        }
        assert(sibling_entries_in_order(rows, rest, seen)) by {
            assert forall|t2: int, x: int|
                0 <= t2 < rest.len() && 0 <= x < rest[t2].0 && #[trigger] siblings(rows, x, rest[t2].0 as int)
                implies seen[x] || exists|t1: int| t2 < t1 < rest.len() && (#[trigger] rest[t1]).0 == x by {
                assert(rest[t2] == stack[t2]);
                assert(siblings(rows, x, stack[t2].0 as int));
                if !seen[x] {
                    let t1 = choose|t1: int| t2 < t1 < stack.len() && (#[trigger] stack[t1]).0 == x;
                    if t1 == top {
                        assert(stack[top].0 == e.0);
                    } else {
                        assert(rest[t1] == stack[t1]);
                    }
                }
            }
        }
        lemma_walk_sibling_order(rows, rest, seen);
        assert(w == walk(rows, rest, seen));
        return;
    }
    lemma_unseen_mark(seen, i);
    let ch = children(rows, e.0);
    lemma_kids_below(rows, e.0, rows.len() as int);
    let pend = pending(ch, next_prefix(e.1, e.2), true);
    let st2 = rest + pend;
    let s2 = seen.update(i, true);
    let sub = walk(rows, st2, s2);
    assert(w.0 == seq![(e.0, e.1, marker_text(e.2))] + sub.0);
    assert(stack_kept(rows, st2)) by {
        assert forall|t: int| 0 <= t < st2.len() implies kept(rows, (#[trigger] st2[t]).0 as int) by {
            if t < rest.len() {
                assert(st2[t] == rest[t]);
            } else {
                let u = t - rest.len();
                assert(st2[t] == pend[u]);
                assert(pend[u].0 == ch[ch.len() - 1 - u]);
            }
        }
    }
    // Earlier siblings of the row placed now are placed already.
    assert forall|x: int| 0 <= x < i && #[trigger] siblings(rows, x, i) implies seen[x] by {
        assert(stack[top] == e);
        assert(siblings(rows, x, stack[top].0 as int));
    }
    assert(entries_have_placed_parents(rows, st2, s2)) by {
        assert forall|t: int| 0 <= t < st2.len() implies match parent_row(rows, (#[trigger] st2[t]).0 as int) {
            None => true,
            Some(q) => q < s2.len() && s2[q as int],
        } by {
            if t < rest.len() {
                assert(st2[t] == rest[t]);
                assert(rest[t] == stack[t]);
            } else {
                let u = t - rest.len();
                assert(st2[t] == pend[u]);
                assert(pend[u].0 == ch[ch.len() - 1 - u]);
            }
        }
    }
    assert(siblings_placed_in_order(rows, s2)) by {
        assert forall|x: int, y: int| 0 <= x < y < s2.len() && #[trigger] siblings(rows, x, y) && s2[y]
            implies s2[x] by {
            if y == i {
                assert(siblings(rows, x, i));
            } else {
                assert(seen[y]);
            }
        }
    }
    assert(sibling_entries_in_order(rows, st2, s2)) by {
        assert forall|t2: int, x: int|
            0 <= t2 < st2.len() && 0 <= x < st2[t2].0 && #[trigger] siblings(rows, x, st2[t2].0 as int)
            implies s2[x] || exists|t1: int| t2 < t1 < st2.len() && (#[trigger] st2[t1]).0 == x by {
            if t2 < rest.len() {
                assert(st2[t2] == rest[t2]);
                assert(rest[t2] == stack[t2]);
                assert(siblings(rows, x, stack[t2].0 as int));
                if !seen[x] {
                    let t1 = choose|t1: int| t2 < t1 < stack.len() && (#[trigger] stack[t1]).0 == x;
                    if t1 == top {
                        assert(stack[top].0 == e.0);
                    } else {
                        assert(rest[t1] == stack[t1]);
                        assert(st2[t1] == rest[t1]);
                    }
                }
            } else {
                let u = t2 - rest.len();
                let n = ch.len() as int;
                assert(st2[t2] == pend[u]);
                assert(pend[u].0 == ch[n - 1 - u]);
                let y = ch[n - 1 - u] as int;
                assert(parent_row(rows, y) == Some(e.0));
                lemma_child_listed(rows, e.0, x, rows.len() as int);
                let j = choose|j: int| 0 <= j < ch.len() && ch[j] == x;
                if j >= n - 1 - u {
                    if j > n - 1 - u {
                        assert(ch[n - 1 - u] < ch[j]);
                    }
                }
                let t1 = rest.len() + (n - 1 - j);
                assert(st2[t1] == pend[n - 1 - j]);
                assert(pend[n - 1 - j].0 == ch[j]);
            }
        }
    }
    lemma_walk_sibling_order(rows, st2, s2);
    assert forall|b: int, x: int|
        0 <= b < w.0.len() && 0 <= x < w.0[b].0 && #[trigger] siblings(rows, x, w.0[b].0 as int)
        implies seen[x] || exists|a: int| 0 <= a < b && (#[trigger] w.0[a]).0 == x by {
        if b == 0 {
            assert(w.0[0].0 == e.0);
        } else {
            assert(w.0[b] == sub.0[b - 1]);
            assert(siblings(rows, x, sub.0[b - 1].0 as int));
            if s2[x] {
                if x == i {
                    assert(w.0[0].0 == x);
                }
            } else {
                let a = choose|a: int| 0 <= a < b - 1 && (#[trigger] sub.0[a]).0 == x;
                assert(w.0[a + 1] == sub.0[a]);
            }
        }
    }
}

/// The tree view keeps the order of the list among siblings: of two children
/// of one parent, the one that comes first in the list (by the sort key)
/// comes first in the tree.
pub proof fn lemma_tree_keeps_sibling_order(rows: Seq<ProcLink>)
    requires
        rows.len() <= usize::MAX,
    ensures
        forall|a: int, b: int|
            0 <= a < tree_order(rows).len() && 0 <= b < tree_order(rows).len() && #[trigger] siblings(
                rows,
                tree_order(rows)[a].0 as int,
                tree_order(rows)[b].0 as int,
            ) && tree_order(rows)[a].0 < tree_order(rows)[b].0 ==> a < b,
{
    let n = rows.len() as int;
    let st = pending(roots(rows), seq![], false);
    let s0 = Seq::new(rows.len(), |i: int| false);
    lemma_roots_below(rows, n);
    assert(stack_kept(rows, st)) by {
        assert forall|t: int| 0 <= t < st.len() implies kept(rows, (#[trigger] st[t]).0 as int) by {
            assert(st[t].0 == roots(rows)[roots(rows).len() - 1 - t]);
        }
    }
    assert(entries_have_placed_parents(rows, st, s0)) by {
        assert forall|t: int| 0 <= t < st.len() implies match parent_row(rows, (#[trigger] st[t]).0 as int) {
            None => true,
            Some(q) => q < s0.len() && s0[q as int],
        } by {
            assert(st[t].0 == roots(rows)[roots(rows).len() - 1 - t]);
        }
    }
    assert(sibling_entries_in_order(rows, st, s0)) by {
        assert forall|t2: int, x: int|
            0 <= t2 < st.len() && 0 <= x < st[t2].0 && #[trigger] siblings(rows, x, st[t2].0 as int)
            implies s0[x] || exists|t1: int| t2 < t1 < st.len() && (#[trigger] st[t1]).0 == x by {
            assert(st[t2].0 == roots(rows)[roots(rows).len() - 1 - t2]);
        }
    }
    lemma_walk_sibling_order(rows, st, s0);
    lemma_walk_places(rows, st, s0);
    let w = walk(rows, st, s0);
    lemma_leftovers(rows, w.1, n);
    let lo = leftovers(rows, w.1, n);
    let out = tree_order(rows);
    assert(out == w.0 + lo);
    let m = w.0.len() as int;
    assert forall|a: int, b: int|
        0 <= a < out.len() && 0 <= b < out.len() && #[trigger] siblings(rows, out[a].0 as int, out[b].0 as int)
            && out[a].0 < out[b].0 implies a < b by {
        let x = out[a].0 as int;
        if b < m {
            assert(out[b] == w.0[b]);
            assert(siblings(rows, x, w.0[b].0 as int));
            let a2 = choose|a2: int| 0 <= a2 < b && (#[trigger] w.0[a2]).0 == x;
            assert(out[a2] == w.0[a2]);
            if a != a2 {
                lemma_tree_shows_each_process_once(rows);
                assert(indices(out)[a] == indices(out)[a2]);
            }
        } else if a >= m {
            assert(out[a] == lo[a - m]);
            assert(out[b] == lo[b - m]);
            if a >= b {
                if a > b {
                    assert(lo[b - m].0 < lo[a - m].0);
                }
            }
        }
    }
}

// ---------------------------------------------------------------------------
// Lineage without cycles
// ---------------------------------------------------------------------------
/// A parent row is a kept row of the list.
proof fn lemma_parent_kept(rows: Seq<ProcLink>, i: int)
    requires
        0 <= i < rows.len() <= usize::MAX,
        parent_row(rows, i) is Some,
    ensures
        kept(rows, parent_row(rows, i).unwrap() as int),
{
    let pp = rows[i].parent_pid.unwrap();
    lemma_last_row(rows, rows.len() as int, pp);
}

/// A kept row without a parent row is among the roots.
proof fn lemma_root_listed(rows: Seq<ProcLink>, x: int, k: int)
    requires
        0 <= x < k <= rows.len() <= usize::MAX,
        kept(rows, x),
        parent_row(rows, x) is None,
    ensures
        exists|j: int| 0 <= j < roots_below(rows, k).len() && roots_below(rows, k)[j] == x,
    decreases k,
{
    let prev = roots_below(rows, k - 1);
    let cur = roots_below(rows, k);
    if x == k - 1 {
        assert(cur == prev.push((k - 1) as usize));
        assert(cur[prev.len() as int] == x);
    } else {
        lemma_root_listed(rows, x, k - 1);
        let j = choose|j: int| 0 <= j < prev.len() && prev[j] == x;
        if kept(rows, k - 1) && parent_row(rows, k - 1) is None {
            assert(cur[j] == prev[j]);
        }
    }
}

/// Every row that is pending on the stack is placed by the end of the walk.
proof fn lemma_walk_places_pending(
    rows: Seq<ProcLink>,
    stack: Seq<(usize, Seq<char>, Branch)>,
    seen: Seq<bool>,
    t: int,
)
    requires
        seen.len() == rows.len() <= usize::MAX,
        stack_kept(rows, stack),
        0 <= t < stack.len(),
    ensures
        walk(rows, stack, seen).1[stack[t].0 as int],
    decreases unseen(seen), stack.len(),
{
    let e = stack.last();
    let rest = stack.drop_last();
    let i = e.0 as int;
    let top = stack.len() - 1;
    assert(kept(rows, stack[t].0 as int));
    assert(stack_kept(rows, rest)) by {
        assert forall|u: int| 0 <= u < rest.len() implies kept(rows, (#[trigger] rest[u]).0 as int) by {
            assert(rest[u] == stack[u]);
        }
    }
    if i >= seen.len() || seen[i] {
        if t == top {
            lemma_walk_places(rows, rest, seen);
            assert(kept(rows, i));
        } else {
            assert(rest[t] == stack[t]);
            lemma_walk_places_pending(rows, rest, seen, t);
        }
    } else {
        lemma_unseen_mark(seen, i);
        let ch = children(rows, e.0);
        lemma_kids_below(rows, e.0, rows.len() as int);
        let pend = pending(ch, next_prefix(e.1, e.2), true);
        let st2 = rest + pend;
        let s2 = seen.update(i, true);
        assert(stack_kept(rows, st2)) by {
            assert forall|u: int| 0 <= u < st2.len() implies kept(rows, (#[trigger] st2[u]).0 as int) by {
                if u < rest.len() {
                    assert(st2[u] == rest[u]);
                } else {
                    let v = u - rest.len();
                    assert(st2[u] == pend[v]);
                    assert(pend[v].0 == ch[ch.len() - 1 - v]);
                }
            }
        }
        if t == top {
            lemma_walk_places(rows, st2, s2);
        } else {
            assert(st2[t] == rest[t]);
            assert(rest[t] == stack[t]);
            lemma_walk_places_pending(rows, st2, s2, t);
        }
    }
}

/// Every child of a row that the walk places is placed by the end of it.
proof fn lemma_walk_places_children(
    rows: Seq<ProcLink>,
    stack: Seq<(usize, Seq<char>, Branch)>,
    seen: Seq<bool>,
    b: int,
    c: int,
)
    requires
        seen.len() == rows.len() <= usize::MAX,
        stack_kept(rows, stack),
        0 <= b < walk(rows, stack, seen).0.len(),
        0 <= c < rows.len(),
        kept(rows, c),
        parent_row(rows, c) == Some(walk(rows, stack, seen).0[b].0),
    ensures
        walk(rows, stack, seen).1[c],
    decreases unseen(seen), stack.len(),
{
    let w = walk(rows, stack, seen);
    let e = stack.last();
    let rest = stack.drop_last();
    let i = e.0 as int;
    assert(stack_kept(rows, rest)) by {
        assert forall|u: int| 0 <= u < rest.len() implies kept(rows, (#[trigger] rest[u]).0 as int) by {
            assert(rest[u] == stack[u]);
        }
    }
    if i >= seen.len() || seen[i] {
        lemma_walk_places_children(rows, rest, seen, b, c);
    } else {
        lemma_unseen_mark(seen, i);
        let ch = children(rows, e.0);
        lemma_kids_below(rows, e.0, rows.len() as int);
        let pend = pending(ch, next_prefix(e.1, e.2), true);
        let st2 = rest + pend;
        let s2 = seen.update(i, true);
        assert(stack_kept(rows, st2)) by {
            assert forall|u: int| 0 <= u < st2.len() implies kept(rows, (#[trigger] st2[u]).0 as int) by {
                if u < rest.len() {
                    assert(st2[u] == rest[u]);
                } else {
                    let v = u - rest.len();
                    assert(st2[u] == pend[v]);
                    assert(pend[v].0 == ch[ch.len() - 1 - v]);
                }
            }
        }
        let sub = walk(rows, st2, s2);
        assert(w.0 == seq![(e.0, e.1, marker_text(e.2))] + sub.0);
        if b == 0 {
            assert(w.0[0].0 == e.0);
            lemma_child_listed(rows, e.0, c, rows.len() as int);
            let j = choose|j: int| 0 <= j < ch.len() && ch[j] == c;
            let v = ch.len() - 1 - j;
            let u = rest.len() + v;
            assert(st2[u] == pend[v]);
            assert(pend[v].0 == ch[j]);
            lemma_walk_places_pending(rows, st2, s2, u);
        } else {
            assert(w.0[b] == sub.0[b - 1]);
            lemma_walk_places_children(rows, st2, s2, b - 1, c);
        }
    }
}

/// A placed row without a marker has no parent row, where every pending row
/// without a branch has none.
proof fn lemma_walk_unmarked_rows(
    rows: Seq<ProcLink>,
    stack: Seq<(usize, Seq<char>, Branch)>,
    seen: Seq<bool>,
)
    requires
        seen.len() == rows.len() <= usize::MAX,
        stack_kept(rows, stack),
        forall|t: int|
            0 <= t < stack.len() && (#[trigger] stack[t]).2 == Branch::Top ==> parent_row(
                rows,
                stack[t].0 as int,
            ) is None,
    ensures
        forall|b: int|
            0 <= b < walk(rows, stack, seen).0.len() && (#[trigger] walk(rows, stack, seen).0[b]).2
                == Seq::<char>::empty() ==> parent_row(rows, walk(rows, stack, seen).0[b].0 as int)
                is None,
    decreases unseen(seen), stack.len(),
{
    let w = walk(rows, stack, seen);
    if stack.len() == 0 {
        return;
    }
    let e = stack.last();
    let rest = stack.drop_last();
    let i = e.0 as int;
    assert(stack_kept(rows, rest)) by {
        assert forall|u: int| 0 <= u < rest.len() implies kept(rows, (#[trigger] rest[u]).0 as int) by {
            assert(rest[u] == stack[u]);
        }
    }
    assert forall|t: int| 0 <= t < rest.len() && (#[trigger] rest[t]).2 == Branch::Top implies parent_row(
        rows,
        rest[t].0 as int,
    ) is None by {
        assert(rest[t] == stack[t]);
    }
    if i >= seen.len() || seen[i] {
        lemma_walk_unmarked_rows(rows, rest, seen);
        assert(w == walk(rows, rest, seen));
    } else {
        lemma_unseen_mark(seen, i);
        let ch = children(rows, e.0);
        lemma_kids_below(rows, e.0, rows.len() as int);
        let pend = pending(ch, next_prefix(e.1, e.2), true);
        let st2 = rest + pend;
        let s2 = seen.update(i, true);
        assert(stack_kept(rows, st2)) by {
            assert forall|u: int| 0 <= u < st2.len() implies kept(rows, (#[trigger] st2[u]).0 as int) by {
                if u < rest.len() {
                    assert(st2[u] == rest[u]);
                } else {
                    let v = u - rest.len();
                    assert(st2[u] == pend[v]);
                    assert(pend[v].0 == ch[ch.len() - 1 - v]);
                }
            }
        }
        assert forall|t: int| 0 <= t < st2.len() && (#[trigger] st2[t]).2 == Branch::Top implies parent_row(
            rows,
            st2[t].0 as int,
        ) is None by {
            if t < rest.len() {
                assert(st2[t] == rest[t]);
            } else {
                let v = t - rest.len();
                assert(st2[t] == pend[v]);
                assert(pend[v].2 != Branch::Top);
            }
        }
        lemma_walk_unmarked_rows(rows, st2, s2);
        let sub = walk(rows, st2, s2);
        assert(w.0 == seq![(e.0, e.1, marker_text(e.2))] + sub.0);
        assert forall|b: int| 0 <= b < w.0.len() && (#[trigger] w.0[b]).2 == Seq::<char>::empty() implies parent_row(
            rows,
            w.0[b].0 as int,
        ) is None by {
            if b == 0 {
                assert(w.0[0] == (e.0, e.1, marker_text(e.2)));
                if e.2 != Branch::Top {
                    assert(marker_text(e.2).len() == 3);
                }
                assert(stack[stack.len() - 1] == e);
            } else {
                assert(w.0[b] == sub.0[b - 1]);
            }
        }
    }
}

/// Without cycles (some depth grows from each parent row to its children),
/// the walk from the roots places every row of the list.
proof fn lemma_acyclic_all_placed(rows: Seq<ProcLink>, depth: Seq<nat>, x: int)
    requires
        rows.len() <= usize::MAX,
        depth.len() == rows.len(),
        forall|y: int|
            #![trigger parent_row(rows, y)]
            0 <= y < rows.len() && kept(rows, y) && parent_row(rows, y) is Some ==> depth[parent_row(
                rows,
                y,
            ).unwrap() as int] < depth[y],
        0 <= x < rows.len(),
        kept(rows, x),
    ensures
        walk(rows, pending(roots(rows), seq![], false), Seq::new(rows.len(), |i: int| false)).1[x],
    decreases depth[x],
{
    let n = rows.len() as int;
    let st = pending(roots(rows), seq![], false);
    let s0 = Seq::new(rows.len(), |i: int| false);
    lemma_roots_below(rows, n);
    assert(stack_kept(rows, st)) by {
        assert forall|t: int| 0 <= t < st.len() implies kept(rows, (#[trigger] st[t]).0 as int) by {
            assert(st[t].0 == roots(rows)[roots(rows).len() - 1 - t]);
        }
    }
    let w = walk(rows, st, s0);
    match parent_row(rows, x) {
        None => {
            lemma_root_listed(rows, x, n);
            let j = choose|j: int| 0 <= j < roots(rows).len() && roots(rows)[j] == x;
            let t = roots(rows).len() - 1 - j;
            assert(st[t].0 == roots(rows)[j]);
            lemma_walk_places_pending(rows, st, s0, t);
        },
        Some(q) => {
            lemma_parent_kept(rows, x);
            lemma_last_row(rows, n, rows[x].parent_pid.unwrap());
            lemma_acyclic_all_placed(rows, depth, q as int);
            lemma_walk_places(rows, st, s0);
            assert(!s0[q as int]);
            let iw = indices(w.0);
            assert(iw.contains(q));
            let b = choose|b: int| 0 <= b < iw.len() && iw[b] == q;
            assert(w.0[b].0 == q);
            lemma_walk_places_children(rows, st, s0, b, x);
        },
    }
}

/// Without cycles among the rows (some depth grows from each parent row to
/// its children), every row of the tree view whose parent is in the list
/// comes after the row of its parent.
pub proof fn lemma_tree_parent_before_child_without_cycles(rows: Seq<ProcLink>, depth: Seq<nat>)
    requires
        rows.len() <= usize::MAX,
        depth.len() == rows.len(),
        forall|y: int|
            #![trigger parent_row(rows, y)]
            0 <= y < rows.len() && kept(rows, y) && parent_row(rows, y) is Some ==> depth[parent_row(
                rows,
                y,
            ).unwrap() as int] < depth[y],
    ensures
        forall|b: int|
            0 <= b < tree_order(rows).len() && (#[trigger] tree_order(rows)[b]).0 < rows.len()
                && parent_row(rows, tree_order(rows)[b].0 as int) is Some ==> exists|a: int|
                0 <= a < b && (#[trigger] tree_order(rows)[a]).0 == parent_row(
                    rows,
                    tree_order(rows)[b].0 as int,
                ).unwrap(),
{
    let n = rows.len() as int;
    let st = pending(roots(rows), seq![], false);
    let s0 = Seq::new(rows.len(), |i: int| false);
    lemma_roots_below(rows, n);
    assert(stack_kept(rows, st)) by {
        assert forall|t: int| 0 <= t < st.len() implies kept(rows, (#[trigger] st[t]).0 as int) by {
            assert(st[t].0 == roots(rows)[roots(rows).len() - 1 - t]);
        }
    }
    assert forall|t: int| 0 <= t < st.len() && (#[trigger] st[t]).2 == Branch::Top implies parent_row(
        rows,
        st[t].0 as int,
    ) is None by {
        assert(st[t].0 == roots(rows)[roots(rows).len() - 1 - t]);
    }
    lemma_walk_places(rows, st, s0);
    lemma_walk_unmarked_rows(rows, st, s0);
    lemma_tree_parent_before_child(rows);
    let w = walk(rows, st, s0);
    lemma_leftovers(rows, w.1, n);
    let lo = leftovers(rows, w.1, n);
    let out = tree_order(rows);
    assert(out == w.0 + lo);
    if lo.len() > 0 {
        let x = lo[0].0 as int;
        assert(kept(rows, x) && !w.1[x]);
        lemma_acyclic_all_placed(rows, depth, x);
        assert(false);
    }
    assert(out =~= w.0);
    assert forall|b: int|
        0 <= b < out.len() && (#[trigger] out[b]).0 < rows.len() && parent_row(rows, out[b].0 as int)
            is Some implies exists|a: int| 0 <= a < b && (#[trigger] out[a]).0 == parent_row(
            rows,
            out[b].0 as int,
        ).unwrap() by {
        assert(out[b] == w.0[b]);
        assert(out[b].2 != Seq::<char>::empty());
    }
}

// ---------------------------------------------------------------------------
// Indentation
// ---------------------------------------------------------------------------
/// What a row's children add to its indentation, by the row's marker: nothing
/// below a root, a continuing line below a middle child (`├─ `), blanks below
/// a last child.
pub open spec fn indent_step(marker: Seq<char>) -> Seq<char> {
    if marker.len() == 0 {
        seq![]
    } else if marker == seq!['├', '─', ' '] {
        seq!['│', ' ', ' ']
    } else {
        seq![' ', ' ', ' ']
    }
}

/// Every pending row that hangs from a parent has its parent among the rows
/// placed in `done`, and carries that row's indentation extended by what the
/// row's marker calls for.
spec fn entries_indented(
    rows: Seq<ProcLink>,
    stack: Seq<(usize, Seq<char>, Branch)>,
    done: Seq<(usize, Seq<char>, Seq<char>)>,
) -> bool {
    forall|t: int|
        0 <= t < stack.len() && (#[trigger] stack[t]).2 != Branch::Top ==> parent_row(
            rows,
            stack[t].0 as int,
        ) is Some && exists|a: int|
            0 <= a < done.len() && (#[trigger] done[a]).0 == parent_row(rows, stack[t].0 as int).unwrap()
                && stack[t].1 == done[a].1 + indent_step(done[a].2)
}

/// The walk indents every row with a marker one step below a row of its
/// parent placed before it.
proof fn lemma_walk_indents(
    rows: Seq<ProcLink>,
    stack: Seq<(usize, Seq<char>, Branch)>,
    seen: Seq<bool>,
    done: Seq<(usize, Seq<char>, Seq<char>)>,
)
    requires
        seen.len() == rows.len() <= usize::MAX,
        stack_kept(rows, stack),
        entries_indented(rows, stack, done),
    ensures
        forall|b: int|
            0 <= b < walk(rows, stack, seen).0.len() && (#[trigger] walk(rows, stack, seen).0[b]).2
                != Seq::<char>::empty() ==> parent_row(rows, walk(rows, stack, seen).0[b].0 as int)
                is Some && exists|a: int|
                0 <= a < done.len() + b && (#[trigger] (done + walk(rows, stack, seen).0)[a]).0
                    == parent_row(rows, walk(rows, stack, seen).0[b].0 as int).unwrap()
                    && walk(rows, stack, seen).0[b].1 == (done + walk(rows, stack, seen).0)[a].1
                    + indent_step((done + walk(rows, stack, seen).0)[a].2),
    decreases unseen(seen), stack.len(),
{
    let w = walk(rows, stack, seen);
    if stack.len() == 0 {
        return;
    }
    let e = stack.last();
    let rest = stack.drop_last();
    let i = e.0 as int;
    let top = stack.len() - 1;
    assert(stack_kept(rows, rest)) by {
        assert forall|u: int| 0 <= u < rest.len() implies kept(rows, (#[trigger] rest[u]).0 as int) by {
            assert(rest[u] == stack[u]);
        }
    }
    assert(entries_indented(rows, rest, done)) by {
        assert forall|t: int| 0 <= t < rest.len() && (#[trigger] rest[t]).2 != Branch::Top implies parent_row(
            rows,
            rest[t].0 as int,
        ) is Some && exists|a: int|
            0 <= a < done.len() && (#[trigger] done[a]).0 == parent_row(rows, rest[t].0 as int).unwrap()
                && rest[t].1 == done[a].1 + indent_step(done[a].2) by {
            assert(rest[t] == stack[t]);
        }
    }
    if i >= seen.len() || seen[i] {
        lemma_walk_indents(rows, rest, seen, done);
        assert(w == walk(rows, rest, seen));
        return;
    }
    lemma_unseen_mark(seen, i);
    let ch = children(rows, e.0);
    lemma_kids_below(rows, e.0, rows.len() as int);
    let np = next_prefix(e.1, e.2);
    let pend = pending(ch, np, true);
    let st2 = rest + pend;
    let s2 = seen.update(i, true);
    let placed = (e.0, e.1, marker_text(e.2));
    let done2 = done.push(placed);
    // The children's indentation is the row's, extended as its marker calls for.
    assert(np == e.1 + indent_step(marker_text(e.2))) by {
        match e.2 {
            Branch::Top => {
                assert(e.1 + Seq::<char>::empty() =~= e.1);
            },
            Branch::Middle => {},
            Branch::Last => {
                assert(marker_text(e.2)[0] != seq!['├', '─', ' '][0]);
            },
        }
    }
    assert(stack_kept(rows, st2)) by {
        assert forall|u: int| 0 <= u < st2.len() implies kept(rows, (#[trigger] st2[u]).0 as int) by {
            if u < rest.len() {
                assert(st2[u] == rest[u]);
            } else {
                let v = u - rest.len();
                assert(st2[u] == pend[v]);
                assert(pend[v].0 == ch[ch.len() - 1 - v]);
            }
        }
    }
    assert(entries_indented(rows, st2, done2)) by {
        assert forall|t: int| 0 <= t < st2.len() && (#[trigger] st2[t]).2 != Branch::Top implies parent_row(
            rows,
            st2[t].0 as int,
        ) is Some && exists|a: int|
            0 <= a < done2.len() && (#[trigger] done2[a]).0 == parent_row(rows, st2[t].0 as int).unwrap()
                && st2[t].1 == done2[a].1 + indent_step(done2[a].2) by {
            if t < rest.len() {
                assert(st2[t] == rest[t]);
                let a = choose|a: int|
                    0 <= a < done.len() && (#[trigger] done[a]).0 == parent_row(rows, rest[t].0 as int).unwrap()
                        && rest[t].1 == done[a].1 + indent_step(done[a].2);
                assert(done2[a] == done[a]);
            } else {
                let v = t - rest.len();
                assert(st2[t] == pend[v]);
                assert(pend[v].0 == ch[ch.len() - 1 - v]);
                assert(parent_row(rows, st2[t].0 as int) == Some(e.0));
                assert(done2[done.len() as int] == placed);
            }
        }
    }
    lemma_walk_indents(rows, st2, s2, done2);
    let sub = walk(rows, st2, s2);
    assert(w.0 == seq![placed] + sub.0);
    assert(done2 + sub.0 =~= done + w.0);
    assert forall|b: int|
        0 <= b < w.0.len() && (#[trigger] w.0[b]).2 != Seq::<char>::empty() implies parent_row(
            rows,
            w.0[b].0 as int,
        ) is Some && exists|a: int|
            0 <= a < done.len() + b && (#[trigger] (done + w.0)[a]).0 == parent_row(rows, w.0[b].0 as int).unwrap()
                && w.0[b].1 == (done + w.0)[a].1 + indent_step((done + w.0)[a].2) by {
        if b == 0 {
            assert(w.0[0] == placed);
            if e.2 == Branch::Top {
                assert(marker_text(e.2) =~= Seq::<char>::empty());
            }
            assert(stack[top] == e);
            let a = choose|a: int|
                0 <= a < done.len() && (#[trigger] done[a]).0 == parent_row(rows, stack[top].0 as int).unwrap()
                    && stack[top].1 == done[a].1 + indent_step(done[a].2);
            assert((done + w.0)[a] == done[a]);
        } else {
            assert(w.0[b] == sub.0[b - 1]);
            let a = choose|a: int|
                0 <= a < done2.len() + (b - 1) && (#[trigger] (done2 + sub.0)[a]).0 == parent_row(
                    rows,
                    sub.0[b - 1].0 as int,
                ).unwrap() && sub.0[b - 1].1 == (done2 + sub.0)[a].1 + indent_step((done2 + sub.0)[a].2);
            assert((done + w.0)[a] == (done2 + sub.0)[a]);
        }
    }
}

/// Rows pending as tree roots carry no indentation, and neither do the rows
/// that the walk places without a marker.
proof fn lemma_walk_roots_unindented(
    rows: Seq<ProcLink>,
    stack: Seq<(usize, Seq<char>, Branch)>,
    seen: Seq<bool>,
)
    requires
        seen.len() == rows.len(),
        forall|t: int| 0 <= t < stack.len() && (#[trigger] stack[t]).2 == Branch::Top ==> stack[t].1
            == Seq::<char>::empty(),
    ensures
        forall|b: int|
            0 <= b < walk(rows, stack, seen).0.len() && (#[trigger] walk(rows, stack, seen).0[b]).2
                == Seq::<char>::empty() ==> walk(rows, stack, seen).0[b].1 == Seq::<char>::empty(),
    decreases unseen(seen), stack.len(),
{
    if stack.len() == 0 {
        return;
    }
    let w = walk(rows, stack, seen);
    let e = stack.last();
    let rest = stack.drop_last();
    let i = e.0 as int;
    assert forall|t: int| 0 <= t < rest.len() && (#[trigger] rest[t]).2 == Branch::Top implies rest[t].1
        == Seq::<char>::empty() by {
        assert(rest[t] == stack[t]);
    }
    if i >= seen.len() || seen[i] {
        lemma_walk_roots_unindented(rows, rest, seen);
        assert(w == walk(rows, rest, seen));
        return;
    }
    lemma_unseen_mark(seen, i);
    let pend = pending(children(rows, e.0), next_prefix(e.1, e.2), true);
    let st2 = rest + pend;
    let s2 = seen.update(i, true);
    assert forall|t: int| 0 <= t < st2.len() && (#[trigger] st2[t]).2 == Branch::Top implies st2[t].1
        == Seq::<char>::empty() by {
        if t < rest.len() {
            assert(st2[t] == rest[t]);
        } else {
            assert(st2[t] == pend[t - rest.len()]);
        }
    }
    lemma_walk_roots_unindented(rows, st2, s2);
    let sub = walk(rows, st2, s2);
    let placed = (e.0, e.1, marker_text(e.2));
    assert(w.0 == seq![placed] + sub.0);
    assert forall|b: int|
        0 <= b < w.0.len() && (#[trigger] w.0[b]).2 == Seq::<char>::empty() implies w.0[b].1
            == Seq::<char>::empty() by {
        if b == 0 {
            assert(w.0[0] == placed);
            assert(stack[stack.len() - 1] == e);
            match e.2 {
                Branch::Top => {},
                Branch::Middle => {
                    assert(marker_text(e.2).len() == 3);
                },
                Branch::Last => {
                    assert(marker_text(e.2).len() == 3);
                },
            }
        } else {
            assert(w.0[b] == sub.0[b - 1]);
        }
    }
}

/// In the tree view every row drawn under a parent comes after a row of its
/// parent and is indented one step below it: by nothing below a root, by
/// `│  ` below a middle child and by three blanks below a last child, so that
/// each generation lies three columns deeper than the one above it. Rows
/// drawn without a marker (tree roots, and rows that no tree reaches) are not
/// indented.
pub proof fn lemma_tree_children_indented_below_parent(rows: Seq<ProcLink>)
    requires
        rows.len() <= usize::MAX,
    ensures
        forall|b: int|
            0 <= b < tree_order(rows).len() && (#[trigger] tree_order(rows)[b]).2
                == Seq::<char>::empty() ==> tree_order(rows)[b].1 == Seq::<char>::empty(),
        forall|b: int|
            0 <= b < tree_order(rows).len() && (#[trigger] tree_order(rows)[b]).2
                != Seq::<char>::empty() ==> parent_row(rows, tree_order(rows)[b].0 as int) is Some
                && exists|a: int|
                0 <= a < b && (#[trigger] tree_order(rows)[a]).0 == parent_row(
                    rows,
                    tree_order(rows)[b].0 as int,
                ).unwrap() && tree_order(rows)[b].1 == tree_order(rows)[a].1 + indent_step(
                    tree_order(rows)[a].2,
                ),
{
    let n = rows.len() as int;
    let st = pending(roots(rows), seq![], false);
    let s0 = Seq::new(rows.len(), |i: int| false);
    let done = Seq::<(usize, Seq<char>, Seq<char>)>::empty();
    lemma_roots_below(rows, n);
    assert(stack_kept(rows, st)) by {
        assert forall|t: int| 0 <= t < st.len() implies kept(rows, (#[trigger] st[t]).0 as int) by {
            assert(st[t].0 == roots(rows)[roots(rows).len() - 1 - t]);
        }
    }
    assert(entries_indented(rows, st, done));
    lemma_walk_indents(rows, st, s0, done);
    let w = walk(rows, st, s0);
    let lo = leftovers(rows, w.1, n);
    lemma_leftover_marks(rows, w.1, n);
    let out = tree_order(rows);
    assert(out == w.0 + lo);
    assert(done + w.0 =~= w.0);
    assert forall|b: int|
        0 <= b < out.len() && (#[trigger] out[b]).2 != Seq::<char>::empty() implies parent_row(
            rows,
            out[b].0 as int,
        ) is Some && exists|a: int|
            0 <= a < b && (#[trigger] out[a]).0 == parent_row(rows, out[b].0 as int).unwrap() && out[b].1
                == out[a].1 + indent_step(out[a].2) by {
        if b < w.0.len() {
            assert(out[b] == w.0[b]);
            let a = choose|a: int|
                0 <= a < b && (#[trigger] (done + w.0)[a]).0 == parent_row(rows, w.0[b].0 as int).unwrap()
                    && w.0[b].1 == (done + w.0)[a].1 + indent_step((done + w.0)[a].2);
            assert(out[a] == w.0[a]);
            assert((done + w.0)[a] == w.0[a]);
        } else {
            assert(out[b] == lo[b - w.0.len()]);
        }
    }
    assert(forall|t: int| 0 <= t < st.len() ==> (#[trigger] st[t]).2 == Branch::Top && st[t].1
        == Seq::<char>::empty());
    lemma_walk_roots_unindented(rows, st, s0);
    assert forall|b: int|
        0 <= b < out.len() && (#[trigger] out[b]).2 == Seq::<char>::empty() implies out[b].1
            == Seq::<char>::empty() by {
        if b < w.0.len() {
            assert(out[b] == w.0[b]);
        } else {
            assert(out[b] == lo[b - w.0.len()]);
        }
    }
}

// ---------------------------------------------------------------------------
// Branch markers
// ---------------------------------------------------------------------------
/// Row `x` is the last of its parent's children in the list: no later kept
/// row has the same parent row.
pub open spec fn last_of_siblings(rows: Seq<ProcLink>, x: int) -> bool {
    forall|j: int|
        #![trigger parent_row(rows, j)]
        x < j < rows.len() && kept(rows, j) ==> parent_row(rows, j) != parent_row(rows, x)
}

/// Every pending row that hangs from a parent has the last-child branch
/// exactly when it is the last of its parent's children.
spec fn entries_branch_right(rows: Seq<ProcLink>, stack: Seq<(usize, Seq<char>, Branch)>) -> bool {
    forall|t: int|
        0 <= t < stack.len() && (#[trigger] stack[t]).2 != Branch::Top ==> (stack[t].2 == Branch::Last
            <==> last_of_siblings(rows, stack[t].0 as int)) && parent_row(rows, stack[t].0 as int)
            is Some
}

/// The walk marks a row with `└─ ` exactly when it is the last of its
/// parent's children, and with `├─ ` otherwise.
proof fn lemma_walk_markers(
    rows: Seq<ProcLink>,
    stack: Seq<(usize, Seq<char>, Branch)>,
    seen: Seq<bool>,
)
    requires
        seen.len() == rows.len() <= usize::MAX,
        stack_kept(rows, stack),
        entries_branch_right(rows, stack),
    ensures
        forall|b: int|
            0 <= b < walk(rows, stack, seen).0.len() && (#[trigger] walk(rows, stack, seen).0[b]).2
                != Seq::<char>::empty() ==> (walk(rows, stack, seen).0[b].2 == seq!['└', '─', ' ']
                || walk(rows, stack, seen).0[b].2 == seq!['├', '─', ' ']) && (walk(rows, stack, seen).0[b].2
                == seq!['└', '─', ' '] <==> last_of_siblings(rows, walk(rows, stack, seen).0[b].0 as int)),
    decreases unseen(seen), stack.len(),
{
    let w = walk(rows, stack, seen);
    if stack.len() == 0 {
        return;
    }
    let e = stack.last();
    let rest = stack.drop_last();
    let i = e.0 as int;
    let top = stack.len() - 1;
    assert(stack_kept(rows, rest)) by {
        assert forall|u: int| 0 <= u < rest.len() implies kept(rows, (#[trigger] rest[u]).0 as int) by {
            assert(rest[u] == stack[u]);
        }
    }
    assert(entries_branch_right(rows, rest)) by {
        assert forall|t: int| 0 <= t < rest.len() && (#[trigger] rest[t]).2 != Branch::Top implies (rest[t].2
            == Branch::Last <==> last_of_siblings(rows, rest[t].0 as int)) && parent_row(rows, rest[t].0 as int)
            is Some by {
            assert(rest[t] == stack[t]);
        }
    }
    if i >= seen.len() || seen[i] {
        lemma_walk_markers(rows, rest, seen);
        assert(w == walk(rows, rest, seen));
        return;
    }
    lemma_unseen_mark(seen, i);
    let ch = children(rows, e.0);
    let n = ch.len() as int;
    lemma_kids_below(rows, e.0, rows.len() as int);
    let pend = pending(ch, next_prefix(e.1, e.2), true);
    let st2 = rest + pend;
    let s2 = seen.update(i, true);
    assert(stack_kept(rows, st2)) by {
        assert forall|u: int| 0 <= u < st2.len() implies kept(rows, (#[trigger] st2[u]).0 as int) by {
            if u < rest.len() {
                assert(st2[u] == rest[u]);
            } else {
                let v = u - rest.len();
                assert(st2[u] == pend[v]);
                assert(pend[v].0 == ch[n - 1 - v]);
            }
        }
    }
    assert(entries_branch_right(rows, st2)) by {
        assert forall|t: int| 0 <= t < st2.len() && (#[trigger] st2[t]).2 != Branch::Top implies (st2[t].2
            == Branch::Last <==> last_of_siblings(rows, st2[t].0 as int)) && parent_row(rows, st2[t].0 as int)
            is Some by {
            if t < rest.len() {
                assert(st2[t] == rest[t]);
            } else {
                let v = t - rest.len();
                let k = n - 1 - v;
                assert(st2[t] == pend[v]);
                assert(pend[v].0 == ch[k]);
                let x = ch[k] as int;
                assert(parent_row(rows, x) == Some(e.0));
                if k == n - 1 {
                    assert forall|j: int|
                        #![trigger parent_row(rows, j)]
                        x < j < rows.len() && kept(rows, j) implies parent_row(rows, j) != parent_row(rows, x) by {
                        if parent_row(rows, j) == parent_row(rows, x) {
                            lemma_child_listed(rows, e.0, j, rows.len() as int);
                            let jj = choose|jj: int| 0 <= jj < ch.len() && ch[jj] == j;
                            if jj < k {
                                assert(ch[jj] < ch[k]);
                            }
                        }
                    }
                } else {
                    let y = ch[n - 1] as int;
                    assert(ch[k] < ch[n - 1]);
                    assert(kept(rows, y) && parent_row(rows, y) == Some(e.0));
                    assert(!last_of_siblings(rows, x)) by {
                        assert(x < y < rows.len() && kept(rows, y));
                        assert(parent_row(rows, y) == parent_row(rows, x));
                    }
                }
            }
        }
    }
    lemma_walk_markers(rows, st2, s2);
    let sub = walk(rows, st2, s2);
    let placed = (e.0, e.1, marker_text(e.2));
    assert(w.0 == seq![placed] + sub.0);
    assert forall|b: int|
        0 <= b < w.0.len() && (#[trigger] w.0[b]).2 != Seq::<char>::empty() implies (w.0[b].2 == seq!['└', '─', ' ']
            || w.0[b].2 == seq!['├', '─', ' ']) && (w.0[b].2 == seq!['└', '─', ' '] <==> last_of_siblings(
            rows,
            w.0[b].0 as int,
        )) by {
        if b == 0 {
            assert(w.0[0] == placed);
            assert(stack[top] == e);
            if e.2 == Branch::Top {
                assert(marker_text(e.2) =~= Seq::<char>::empty());
            } else if e.2 == Branch::Middle {
                assert(marker_text(e.2)[0] != seq!['└', '─', ' '][0]);
            }
        } else {
            assert(w.0[b] == sub.0[b - 1]);
        }
    }
}

/// In the tree view a row drawn under its parent is marked `└─ ` when it is
/// the last of the parent's children in the list (no later row has the same
/// parent), and `├─ ` otherwise.
pub proof fn lemma_tree_marks_last_child(rows: Seq<ProcLink>)
    requires
        rows.len() <= usize::MAX,
    ensures
        forall|b: int|
            0 <= b < tree_order(rows).len() && (#[trigger] tree_order(rows)[b]).2
                != Seq::<char>::empty() ==> (tree_order(rows)[b].2 == seq!['└', '─', ' ']
                || tree_order(rows)[b].2 == seq!['├', '─', ' ']) && (tree_order(rows)[b].2 == seq![
                '└',
                '─',
                ' ',
            ] <==> last_of_siblings(rows, tree_order(rows)[b].0 as int)),
{
    let n = rows.len() as int;
    let st = pending(roots(rows), seq![], false);
    let s0 = Seq::new(rows.len(), |i: int| false);
    lemma_roots_below(rows, n);
    assert(stack_kept(rows, st)) by {
        assert forall|t: int| 0 <= t < st.len() implies kept(rows, (#[trigger] st[t]).0 as int) by {
            assert(st[t].0 == roots(rows)[roots(rows).len() - 1 - t]);
        }
    }
    assert(entries_branch_right(rows, st));
    lemma_walk_markers(rows, st, s0);
    let w = walk(rows, st, s0);
    let lo = leftovers(rows, w.1, n);
    lemma_leftover_marks(rows, w.1, n);
    let out = tree_order(rows);
    assert(out == w.0 + lo);
    assert forall|b: int|
        0 <= b < out.len() && (#[trigger] out[b]).2 != Seq::<char>::empty() implies (out[b].2 == seq!['└', '─', ' ']
            || out[b].2 == seq!['├', '─', ' ']) && (out[b].2 == seq!['└', '─', ' '] <==> last_of_siblings(
            rows,
            out[b].0 as int,
        )) by {
        if b < w.0.len() {
            assert(out[b] == w.0[b]);
        } else {
            assert(out[b] == lo[b - w.0.len()]);
        }
    }
}

} // verus!
