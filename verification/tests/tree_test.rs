use ftop::tree::{build_tree_rows, ProcLink, TreePlace};

fn link(pid: i32, parent_pid: Option<i32>) -> ProcLink {
    ProcLink { pid, parent_pid }
}

fn places(out: &[TreePlace]) -> Vec<(usize, String, String)> {
    out.iter()
        .map(|p| (p.index, p.prefix.clone(), p.marker.clone()))
        .collect()
}

fn place(index: usize, prefix: &str, marker: &str) -> (usize, String, String) {
    (index, prefix.to_string(), marker.to_string())
}

#[test]
fn tree_places_children_after_their_parent_with_markers() {
    let rows = vec![
        link(1, None),
        link(10, Some(1)),
        link(11, Some(1)),
        link(12, Some(10)),
    ];
    let out = build_tree_rows(&rows);
    assert_eq!(
        places(&out),
        vec![
            place(0, "", ""),
            place(1, "", "├─ "),
            place(3, "│  ", "└─ "),
            place(2, "", "└─ "),
        ]
    );
}

#[test]
fn tree_indents_below_a_last_child_with_blanks() {
    let rows = vec![link(1, None), link(2, Some(1)), link(3, Some(2))];
    let out = build_tree_rows(&rows);
    assert_eq!(
        places(&out),
        vec![place(0, "", ""), place(1, "", "└─ "), place(2, "   ", "└─ ")]
    );
}

#[test]
fn tree_keeps_the_sort_order_among_roots_and_siblings() {
    // Rows arrive in sort order; the tree keeps it among roots and siblings.
    let rows = vec![
        link(30, Some(7)),
        link(7, None),
        link(20, Some(7)),
        link(8, None),
    ];
    let out = build_tree_rows(&rows);
    assert_eq!(
        places(&out),
        vec![
            place(1, "", ""),
            place(0, "", "├─ "),
            place(2, "", "└─ "),
            place(3, "", ""),
        ]
    );
}

#[test]
fn tree_treats_self_parents_and_missing_parents_as_roots() {
    let rows = vec![link(3, Some(3)), link(4, Some(99)), link(5, None)];
    let out = build_tree_rows(&rows);
    assert_eq!(
        places(&out),
        vec![place(0, "", ""), place(1, "", ""), place(2, "", "")]
    );
}

#[test]
fn tree_appends_rows_caught_in_a_parent_cycle() {
    let rows = vec![link(5, Some(6)), link(6, Some(5)), link(7, None)];
    let out = build_tree_rows(&rows);
    assert_eq!(
        places(&out),
        vec![place(2, "", ""), place(0, "", ""), place(1, "", "")]
    );
}

#[test]
fn tree_shows_a_repeated_pid_once_as_its_last_row() {
    let rows = vec![link(1, None), link(2, Some(1)), link(1, None)];
    let out = build_tree_rows(&rows);
    assert_eq!(places(&out), vec![place(2, "", ""), place(1, "", "└─ ")]);
}

#[test]
fn tree_of_no_rows_is_empty() {
    let rows: Vec<ProcLink> = Vec::new();
    assert!(build_tree_rows(&rows).is_empty());
}

#[test]
fn tree_shows_every_process_exactly_once() {
    let rows = vec![
        link(1, None),
        link(2, Some(1)),
        link(3, Some(2)),
        link(4, Some(1)),
        link(5, Some(6)),
        link(6, Some(5)),
        link(7, Some(4)),
    ];
    let out = build_tree_rows(&rows);
    let mut seen: Vec<usize> = out.iter().map(|p| p.index).collect();
    seen.sort();
    assert_eq!(seen, vec![0, 1, 2, 3, 4, 5, 6]);
    // Each child comes after its parent.
    let pos = |i: usize| out.iter().position(|p| p.index == i).unwrap();
    assert!(pos(0) < pos(1));
    assert!(pos(1) < pos(2));
    assert!(pos(0) < pos(3));
    assert!(pos(3) < pos(6));
}
