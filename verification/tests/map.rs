use rand::SeedableRng;
use rand::rngs::StdRng;
use std::collections::HashSet;

use tui_game::game::map::generate::kind_for_roll;
use tui_game::game::map::{NodeId, NodeKind, RunMap, generate};

fn maps() -> impl Iterator<Item = RunMap> {
    (0..200u64).map(|seed| generate(5, &mut StdRng::seed_from_u64(seed)))
}

fn reachable_from_start(map: &RunMap) -> HashSet<NodeId> {
    let mut seen = HashSet::new();
    let mut stack: Vec<NodeId> = map.rows[0].clone();
    while let Some(id) = stack.pop() {
        if seen.insert(id) {
            stack.extend(map.node(id).next.iter().copied());
        }
    }
    seen
}

#[test]
fn every_node_is_reachable_from_the_start() {
    for map in maps() {
        let seen = reachable_from_start(&map);
        assert_eq!(
            seen.len(),
            map.nodes.len(),
            "map has {} unreachable node(s)",
            map.nodes.len() - seen.len()
        );
    }
}

#[test]
fn the_boss_is_reachable_from_every_node() {
    for map in maps() {
        let boss = map.boss();
        for node in &map.nodes {
            let mut seen = HashSet::new();
            let mut stack = vec![node.id];
            let mut found = false;
            while let Some(id) = stack.pop() {
                if id == boss {
                    found = true;
                    break;
                }
                if seen.insert(id) {
                    stack.extend(map.node(id).next.iter().copied());
                }
            }
            assert!(found, "node {} cannot reach the boss", node.id);
        }
    }
}

#[test]
fn edges_only_ever_go_one_row_up() {
    for map in maps() {
        for node in &map.nodes {
            for &next in &node.next {
                assert_eq!(
                    map.node(next).row,
                    node.row + 1,
                    "edge from row {} skipped to row {}",
                    node.row,
                    map.node(next).row
                );
            }
        }
    }
}

#[test]
fn the_boss_row_holds_exactly_one_node_and_the_start_row_branches() {
    for map in maps() {
        assert!(
            map.rows.first().unwrap().len() >= 2,
            "the bottom row should offer a choice of where to begin"
        );
        assert_eq!(map.rows.last().unwrap().len(), 1);
        assert_eq!(map.node(map.boss()).kind, NodeKind::Boss);
    }
}

#[test]
fn only_the_top_row_holds_a_boss() {
    for map in maps() {
        for node in &map.nodes {
            if node.kind == NodeKind::Boss {
                assert_eq!(node.row, map.row_count() - 1);
            }
        }
    }
}

#[test]
fn generate_generation_is_reproducible_from_a_seed() {
    let a = generate(5, &mut StdRng::seed_from_u64(42));
    let b = generate(5, &mut StdRng::seed_from_u64(42));
    assert_eq!(a.nodes.len(), b.nodes.len());
    for (x, y) in a.nodes.iter().zip(b.nodes.iter()) {
        assert_eq!(x.kind, y.kind);
        assert_eq!(x.next, y.next);
    }
}

#[test]
fn a_degenerate_row_count_still_produces_a_valid_map() {
    let map = generate(0, &mut StdRng::seed_from_u64(1));
    assert!(map.row_count() >= 2);
    assert_eq!(reachable_from_start(&map).len(), map.nodes.len());
}

/// The point of a branching map: which node you pick must actually rule
/// some later nodes out. If every node reached every node above it, the
/// branching would be decorative.
#[test]
fn choosing_a_node_genuinely_rules_others_out() {
    let mut constrained = 0;
    let mut total = 0;
    for map in maps() {
        for row in 0..map.rows.len() - 1 {
            let above = &map.rows[row + 1];
            if above.len() < 2 {
                continue;
            }
            for &id in &map.rows[row] {
                total += 1;
                if map.node(id).next.len() < above.len() {
                    constrained += 1;
                }
            }
        }
    }
    assert!(total > 0, "no branching rows were generated at all");
    let ratio = constrained as f32 / total as f32;
    assert!(
        ratio > 0.5,
        "only {:.0}% of choices constrain the next row; branching is nearly decorative",
        ratio * 100.0
    );
}

#[test]
fn no_node_ever_has_more_than_two_exits() {
    // Keeps the drawn map legible.
    for map in maps() {
        for node in &map.nodes {
            assert!(
                node.next.len() <= 2,
                "node {} has {} exits",
                node.id,
                node.next.len()
            );
        }
    }
}

#[test]
fn exits_are_sorted_and_the_bottom_row_is_all_fights() {
    for map in maps() {
        for node in &map.nodes {
            assert!(node.next.windows(2).all(|w| w[0] < w[1]));
            if node.row == 0 {
                assert_eq!(node.kind, NodeKind::Fight);
            }
        }
    }
}

#[test]
fn rolls_are_weighted_towards_fights() {
    assert_eq!(kind_for_roll(0), NodeKind::Event);
    assert_eq!(kind_for_roll(21), NodeKind::Event);
    assert_eq!(kind_for_roll(22), NodeKind::Shop);
    assert_eq!(kind_for_roll(33), NodeKind::Shop);
    assert_eq!(kind_for_roll(34), NodeKind::Fight);
    assert_eq!(kind_for_roll(99), NodeKind::Fight);
}

#[test]
fn node_kinds_have_glyphs_labels_and_budgets() {
    assert_eq!(NodeKind::Fight.glyph(), '⚔');
    assert_eq!(NodeKind::Boss.glyph(), '☠');
    assert_eq!(NodeKind::Shop.label(), "Shop");
    let map = generate(5, &mut StdRng::seed_from_u64(3));
    assert_eq!(map.budget_for_row(0), 2);
    assert_eq!(map.budget_for_row(4), 10);
    assert_eq!(map.budget_for_row(200), 255);
    assert_eq!(map.start(), map.rows[0][0]);
    assert_eq!(map.row_count(), 5);
}

#[test]
fn rows_are_two_or_three_wide_and_both_widths_occur() {
    let mut widths = HashSet::new();
    for map in maps() {
        for row in &map.rows[..map.rows.len() - 1] {
            assert!(row.len() == 2 || row.len() == 3);
            widths.insert(row.len());
        }
    }
    assert_eq!(widths.len(), 2, "row widths never vary");
}

#[test]
fn different_seeds_give_different_maps() {
    let shape = |seed: u64| {
        let map = generate(5, &mut StdRng::seed_from_u64(seed));
        map.nodes
            .iter()
            .map(|n| (n.kind, n.next.clone()))
            .collect::<Vec<_>>()
    };
    let first = shape(0);
    assert!((1..20).any(|seed| shape(seed) != first));
}

#[test]
fn middle_rows_mix_node_kinds() {
    let mut kinds = HashSet::new();
    for map in maps() {
        for node in &map.nodes {
            if node.row > 0 && node.row + 1 < map.row_count() {
                kinds.insert(format!("{:?}", node.kind));
            }
        }
    }
    assert!(kinds.contains("Fight") && kinds.contains("Event") && kinds.contains("Shop"));
}

#[test]
fn every_node_keeps_the_path_straight_above_it() {
    for map in maps() {
        for r in 0..map.rows.len() - 1 {
            let (from, to) = (&map.rows[r], &map.rows[r + 1]);
            for (c, &id) in from.iter().enumerate() {
                let above = to[c * to.len() / from.len()];
                assert!(map.node(id).next.contains(&above));
            }
        }
    }
}

#[test]
fn every_extra_exit_fills_a_gap_or_reaches_a_neighbouring_column() {
    for map in maps() {
        for r in 0..map.rows.len() - 1 {
            let from = &map.rows[r];
            let to = &map.rows[r + 1];
            let (f, t) = (from.len(), to.len());
            let home = |i: usize| i * t / f;
            let aimed: HashSet<usize> = (0..f).map(home).collect();
            for (i, &id) in from.iter().enumerate() {
                let next = &map.node(id).next;
                assert!(next.contains(&to[home(i)]));
                for &x in next {
                    let c = to.iter().position(|&y| y == x).expect("exits lead to the row above");
                    let neighbour = if home(i) + 1 < t { home(i) + 1 } else { home(i).wrapping_sub(1) };
                    assert!(
                        c == home(i) || !aimed.contains(&c) || c == neighbour,
                        "an exit to column {c} from column {i} is neither aligned, a gap nor a neighbour"
                    );
                }
            }
            // Every column nobody sits below is entered.
            for c in 0..t {
                if !aimed.contains(&c) {
                    assert!(from.iter().any(|&id| map.node(id).next.contains(&to[c])));
                }
            }
        }
    }
}
