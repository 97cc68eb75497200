use leaderboard::{AVLNode, Leaderboard};

fn five() -> Leaderboard {
    let mut lb = Leaderboard::new();
    lb.insert("A", 150);
    lb.insert("B", 200);
    lb.insert("C", 120);
    lb.insert("D", 180);
    lb.insert("E", 250);
    lb
}

fn pairs(v: &[(&str, u64)]) -> Vec<(String, u64)> {
    v.iter().map(|(p, s)| (p.to_string(), *s)).collect()
}

fn walk(lb: &Leaderboard) -> Vec<(Vec<String>, u64)> {
    let mut it = lb.pre_order();
    let mut out = Vec::new();
    while let Some(e) = it.next() {
        out.push(e);
    }
    out
}

fn scores(lb: &Leaderboard) -> Vec<u64> {
    walk(lb).into_iter().map(|(_, s)| s).collect()
}

#[test]
fn five_inserts_top_three_and_rank() {
    let lb = five();
    assert_eq!(lb.top_n_players(3), pairs(&[("E", 250), ("B", 200), ("D", 180)]));
    assert_eq!(lb.rank_of("B", 200), Some(2));
}

#[test]
fn tie_keeps_insertion_order_and_shares_rank() {
    let mut lb = Leaderboard::new();
    lb.insert("A", 100);
    lb.insert("B", 100);
    assert_eq!(lb.top_n_players(2), pairs(&[("A", 100), ("B", 100)]));
    assert_eq!(lb.rank_of("A", 100), Some(1));
    assert_eq!(lb.rank_of("B", 100), Some(1));
}

#[test]
fn delete_player_then_top_one() {
    let mut lb = five();
    lb.delete_player("E");
    assert_eq!(lb.top_n_players(1), pairs(&[("B", 200)]));
    assert_eq!(lb.rank_of("E", 250), None);
    assert_eq!(lb.rank_of("B", 200), Some(1));
}

#[test]
fn ranks_of_all_five() {
    let lb = five();
    assert_eq!(lb.rank_of("E", 250), Some(1));
    assert_eq!(lb.rank_of("D", 180), Some(3));
    assert_eq!(lb.rank_of("A", 150), Some(4));
    assert_eq!(lb.rank_of("C", 120), Some(5));
}

#[test]
fn rank_counts_nodes_not_players() {
    let mut lb = Leaderboard::new();
    lb.insert("A", 300);
    lb.insert("B", 300);
    lb.insert("C", 300);
    lb.insert("D", 100);
    assert_eq!(lb.rank_of("D", 100), Some(2));
    assert_eq!(lb.rank_of("C", 300), Some(1));
}

#[test]
fn rank_of_absent_pairs() {
    let lb = five();
    assert_eq!(lb.rank_of("B", 250), None);
    assert_eq!(lb.rank_of("Z", 200), None);
    assert_eq!(lb.rank_of("A", 999), None);
    assert_eq!(Leaderboard::new().rank_of("A", 1), None);
}

#[test]
fn rank_matches_position_in_full_listing() {
    let lb = five();
    let all = lb.top_n_players(100);
    for (i, (p, s)) in all.iter().enumerate() {
        assert_eq!(lb.rank_of(p, *s), Some(i + 1));
    }
}

#[test]
fn top_n_more_than_population_and_zero() {
    let lb = five();
    assert_eq!(
        lb.top_n_players(10),
        pairs(&[("E", 250), ("B", 200), ("D", 180), ("A", 150), ("C", 120)])
    );
    assert_eq!(lb.top_n_players(0), Vec::new());
    assert_eq!(Leaderboard::new().top_n_players(5), Vec::new());
}

#[test]
fn top_n_cuts_inside_a_bucket() {
    let mut lb = Leaderboard::new();
    lb.insert("A", 10);
    lb.insert("B", 20);
    lb.insert("C", 20);
    lb.insert("D", 20);
    assert_eq!(lb.top_n_players(2), pairs(&[("B", 20), ("C", 20)]));
    assert_eq!(lb.top_n_players(4), pairs(&[("B", 20), ("C", 20), ("D", 20), ("A", 10)]));
}

#[test]
fn ascending_inserts_stay_balanced() {
    let mut lb = Leaderboard::new();
    for s in 1..=7u64 {
        lb.insert("P", s);
    }
    assert_eq!(scores(&lb), vec![4, 2, 1, 3, 6, 5, 7]);
}

#[test]
fn descending_inserts_stay_balanced() {
    let mut lb = Leaderboard::new();
    for s in (1..=7u64).rev() {
        lb.insert("P", s);
    }
    assert_eq!(scores(&lb), vec![4, 2, 1, 3, 6, 5, 7]);
}

#[test]
fn zigzag_inserts_take_double_rotations() {
    let mut lb = Leaderboard::new();
    lb.insert("A", 10);
    lb.insert("B", 30);
    lb.insert("C", 20);
    assert_eq!(scores(&lb), vec![20, 10, 30]);
    let mut lb = Leaderboard::new();
    lb.insert("A", 30);
    lb.insert("B", 10);
    lb.insert("C", 20);
    assert_eq!(scores(&lb), vec![20, 10, 30]);
}

#[test]
fn pre_order_of_five() {
    let lb = five();
    let w = walk(&lb);
    assert_eq!(w.len(), 5);
    assert_eq!(w[0], (vec!["A".to_string()], 150));
    assert_eq!(scores(&lb), vec![150, 120, 200, 180, 250]);
}

#[test]
fn pre_order_of_empty() {
    let lb = Leaderboard::new();
    let mut it = lb.pre_order();
    assert_eq!(it.next(), None);
    assert_eq!(it.next(), None);
}

#[test]
fn duplicate_pair_kept_and_removed_together() {
    let mut lb = Leaderboard::new();
    lb.insert("A", 100);
    lb.insert("A", 100);
    lb.insert("B", 100);
    assert_eq!(lb.top_n_players(5), pairs(&[("A", 100), ("A", 100), ("B", 100)]));
    lb.delete_player_score("A", 100);
    assert_eq!(lb.top_n_players(5), pairs(&[("B", 100)]));
}

#[test]
fn delete_absent_pair_changes_nothing() {
    let mut lb = five();
    let before = walk(&lb);
    lb.delete_player_score("A", 200);
    lb.delete_player_score("Z", 150);
    lb.delete_player_score("A", 7);
    assert_eq!(walk(&lb), before);
    lb.delete_player("Z");
    assert_eq!(walk(&lb), before);
}

#[test]
fn delete_player_from_several_scores() {
    let mut lb = five();
    lb.insert("A", 250);
    lb.insert("A", 10);
    lb.delete_player("A");
    assert_eq!(
        lb.top_n_players(10),
        pairs(&[("E", 250), ("B", 200), ("D", 180), ("C", 120)])
    );
}

#[test]
fn delete_node_with_two_children() {
    let mut lb = Leaderboard::new();
    for s in 1..=7u64 {
        lb.insert("P", s);
    }
    lb.delete_player_score("P", 4);
    assert_eq!(scores(&lb), vec![3, 2, 1, 6, 5, 7]);
    lb.delete_player_score("P", 3);
    lb.delete_player_score("P", 2);
    let s = scores(&lb);
    assert_eq!(s[0], 6);
    assert_eq!(lb.top_n_players(10), pairs(&[("P", 7), ("P", 6), ("P", 5), ("P", 1)]));
}

#[test]
fn round_trip_to_empty() {
    let mut lb = Leaderboard::new();
    let names = ["a", "b", "c", "d", "e", "f", "g", "h"];
    for (i, n) in names.iter().enumerate() {
        lb.insert(n, (i as u64 * 37) % 11);
    }
    for (i, n) in names.iter().enumerate() {
        lb.delete_player_score(n, (i as u64 * 37) % 11);
    }
    assert_eq!(walk(&lb), Vec::new());
    assert_eq!(lb.top_n_players(10), Vec::new());
}

#[test]
fn many_inserts_and_deletes_keep_order() {
    let mut lb = Leaderboard::new();
    for i in 0..200u64 {
        lb.insert("x", (i * 7919) % 1000);
    }
    for i in 0..100u64 {
        lb.delete_player_score("x", (i * 7919) % 1000);
    }
    let top = lb.top_n_players(1000);
    assert_eq!(top.len(), 100);
    for w in top.windows(2) {
        assert!(w[0].1 > w[1].1);
    }
}

#[test]
fn node_level_operations() {
    let mut n = AVLNode::new("A", 5);
    n.insert("B", 9);
    n.insert("C", 1);
    assert_eq!(n.top_n_players(3), pairs(&[("B", 9), ("A", 5), ("C", 1)]));
    assert_eq!(n.rank_of("C", 1, 0), Some(3));
    assert_eq!(n.rank_of("C", 1, 4), Some(7));
    assert!(!n.delete_player_score("B", 9));
    assert!(!n.delete_player("C"));
    assert_eq!(n.top_n_players(3), pairs(&[("A", 5)]));
    assert!(n.delete_player("A"));
}

#[test]
fn node_delete_reports_leaf() {
    let mut n = AVLNode::new("A", 5);
    assert!(n.delete());
    let mut n = AVLNode::new("A", 5);
    n.insert("B", 9);
    assert!(!n.delete());
    assert_eq!(n.top_n_players(3), pairs(&[("B", 9)]));
}

#[test]
fn dump_of_two_nodes() {
    let mut lb = Leaderboard::new();
    lb.insert("A", 5);
    lb.insert("B", 9);
    assert_eq!(
        lb.dump(),
        "A(5, 2, 1)\nright:\n\tB(9, 1, 0)\n\tright:\n\t\t(no right node)\n\tleft:\n\t\t(no left node)\n\nleft:\n\t(no left node)\n\n"
    );
}

#[test]
fn dump_of_empty_and_joined_bucket() {
    assert_eq!(Leaderboard::new().dump(), "None");
    let mut lb = Leaderboard::new();
    lb.insert("Ann", 1070);
    lb.insert("Bo", 1070);
    assert_eq!(
        lb.dump(),
        "Ann, Bo(1070, 1, 0)\nright:\n\t(no right node)\nleft:\n\t(no left node)\n\n"
    );
}

#[test]
fn node_format_string_indents_by_level() {
    let n = AVLNode::new("Z", 0);
    let mut buf = String::from(">");
    n.format_string(&mut buf, 2);
    assert_eq!(
        buf,
        ">\t\tZ(0, 1, 0)\n\t\tright:\n\t\t\t(no right node)\n\t\tleft:\n\t\t\t(no left node)\n\n"
    );
}

#[test]
fn len_counts_distinct_scores() {
    let mut lb = five();
    assert_eq!(lb.len(), 5);
    lb.insert("F", 250);
    assert_eq!(lb.len(), 5);
    lb.delete_player_score("A", 150);
    assert_eq!(lb.len(), 4);
    assert_eq!(Leaderboard::new().len(), 0);
}

#[test]
fn heights_and_counts_after_inserts_and_deletes() {
    let mut lb = Leaderboard::new();
    for s in 1..=7u64 {
        lb.insert("P", s);
    }
    assert!(lb.dump().starts_with("P(4, 3, 6)\n"));
    for s in 1..=3u64 {
        lb.delete_player_score("P", s);
    }
    let d = lb.dump();
    assert!(d.starts_with("P(6, 3, 3)\n"), "{}", d);
    lb.delete_player("P");
    assert_eq!(lb.dump(), "None");
}
