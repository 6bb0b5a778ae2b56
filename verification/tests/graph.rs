//! Lane assignment, checked by drawing the graph as text so a wrong lane is
//! visible rather than merely stable.

use diffuse::graph::lay_out;

fn commits(spec: &[(&str, &[&str])]) -> Vec<(String, Vec<String>)> {
    spec.iter()
        .map(|(s, p)| (s.to_string(), p.iter().map(|x| x.to_string()).collect()))
        .collect()
}

fn draw(spec: &[(&str, &[&str])]) -> String {
    let nodes = lay_out(&commits(spec));
    let width = nodes.iter().map(|n| n.width).max().unwrap_or(1);
    let mut out = String::new();
    for (node, (sha, parents)) in nodes.iter().zip(spec) {
        let mut row = vec![' '; width * 2];
        for lane in &node.through {
            row[lane * 2] = '|';
        }
        for (from, to) in &node.edges {
            if from != to {
                let (a, b) = (from.min(to), from.max(to));
                for cell in row.iter_mut().take(b * 2).skip(a * 2 + 1) {
                    if *cell == ' ' {
                        *cell = '_';
                    }
                }
            }
        }
        row[node.lane * 2] = '*';
        out.push_str(row.iter().collect::<String>().trim_end());
        out.push_str(&format!("  {sha} -> {}\n", parents.join(",")));
    }
    out
}

#[test]
fn linear_history_is_one_lane() {
    assert_eq!(
        draw(&[("d", &["c"]), ("c", &["b"]), ("b", &["a"]), ("a", &[])]),
        "*  d -> c\n*  c -> b\n*  b -> a\n*  a -> \n",
    );
}

#[test]
fn a_merge_opens_a_second_lane_and_closes_it() {
    // m merges the side branch s into the main line; both rejoin at base.
    assert_eq!(
        draw(&[
            ("m", &["main1", "s1"]),
            ("main1", &["base"]),
            ("s1", &["base"]),
            ("base", &[]),
        ]),
        "*_  m -> main1,s1\n* |  main1 -> base\n|_*  s1 -> base\n*  base -> \n",
    );
}

#[test]
fn two_side_branches_get_distinct_lanes() {
    assert_eq!(
        draw(&[
            ("m2", &["m1", "b1"]),
            ("m1", &["m0", "a1"]),
            ("b1", &["base"]),
            ("a1", &["base"]),
            ("m0", &["base"]),
            ("base", &[]),
        ]),
        "*_  m2 -> m1,b1\n*_|_  m1 -> m0,a1\n| * |  b1 -> base\n| |_*  a1 -> base\n*_|  m0 -> base\n  *  base -> \n",
    );
}

/// The root has no parents, so every lane must be closed by the end.
#[test]
fn lanes_all_close_by_the_root() {
    let spec = commits(&[("m", &["a", "b"]), ("a", &["root"]), ("b", &["root"]), ("root", &[])]);
    let nodes = lay_out(&spec);
    let last = nodes.last().unwrap();
    assert!(last.through.is_empty(), "no lane may outlive the root: {last:?}");
    assert!(last.edges.is_empty(), "the root has no parents to point at");
}

/// Every commit must be drawn in the lane its child pointed at, or the lines
/// join the wrong dots.
#[test]
fn edges_land_on_the_lane_the_commit_uses() {
    let spec = commits(&[("m", &["a", "b"]), ("a", &["c"]), ("b", &["c"]), ("c", &[])]);
    let nodes = lay_out(&spec);
    let lane_of: std::collections::HashMap<&str, usize> = spec
        .iter()
        .zip(&nodes)
        .map(|((sha, _), n)| (sha.as_str(), n.lane))
        .collect();
    for ((_, parents), node) in spec.iter().zip(&nodes) {
        for (parent, (_, to)) in parents.iter().zip(&node.edges) {
            assert_eq!(
                lane_of[parent.as_str()], *to,
                "edge for {parent} points at lane {to} but it is drawn in {}",
                lane_of[parent.as_str()],
            );
        }
    }
}

/// A first parent that a side lane already waits for is drawn in that lane,
/// and the edge points there; the row's width covers the lane passing by.
#[test]
fn a_first_parent_already_waiting_keeps_its_lane() {
    let spec = commits(&[("m", &["a", "b"]), ("a", &["b"]), ("b", &[])]);
    let nodes = lay_out(&spec);
    assert_eq!(nodes[0].lane, 0);
    assert_eq!(nodes[0].edges, vec![(0, 0), (0, 1)]);
    assert_eq!(nodes[1].lane, 0);
    assert_eq!(nodes[1].edges, vec![(0, 1)]);
    assert_eq!(nodes[1].through, vec![1]);
    assert_eq!(nodes[1].width, 2);
    assert_eq!(nodes[2].lane, 1);
    assert!(nodes[2].edges.is_empty());
    assert!(nodes[2].through.is_empty());
}
