use reconcile::dinic::Dinic;
use reconcile::mincost::MinCostMaxFlow;

#[test]
fn pushes_a_maximum_flow() {
    let mut dinic = Dinic::new(6);
    dinic.add_edge(0, 1, 10);
    dinic.add_edge(0, 2, 10);
    dinic.add_edge(1, 2, 2);
    dinic.add_edge(1, 3, 4);
    dinic.add_edge(1, 4, 8);
    dinic.add_edge(2, 4, 9);
    dinic.add_edge(4, 3, 6);
    dinic.add_edge(3, 5, 10);
    dinic.add_edge(4, 5, 10);
    assert_eq!(dinic.max_flow(0, 5), 19);
    // what is left carries nothing more
    assert!(!dinic.bfs(0, 5));
}

#[test]
fn flows_can_be_taken_back() {
    // the first path found uses the link from 1 to 2, which the best flow avoids
    let mut dinic = Dinic::new(4);
    dinic.add_edge(0, 1, 1);
    dinic.add_edge(1, 2, 1);
    dinic.add_edge(2, 3, 1);
    dinic.add_edge(0, 2, 1);
    dinic.add_edge(1, 3, 1);
    assert_eq!(dinic.max_flow(0, 3), 2);
}

#[test]
fn searches_go_level_by_level() {
    let mut dinic = Dinic::new(4);
    dinic.add_edge(0, 1, 5);
    dinic.add_edge(1, 2, 3);
    dinic.add_edge(2, 3, 4);
    assert!(dinic.bfs(0, 3));
    assert_eq!(dinic.level, vec![0, 1, 2, 3]);
    assert_eq!(dinic.dfs(0, 3, 100), 3);
    assert_eq!(dinic.graph[1][1].cap, 0);
    assert_eq!(dinic.dfs(0, 3, 100), 0);
    assert!(!dinic.bfs(0, 3));
    assert_eq!(dinic.level, vec![0, 1, -1, -1]);
}

#[test]
fn takes_the_cheapest_way() {
    let mut mcmf = MinCostMaxFlow::new(4);
    assert_eq!(mcmf.add_edge(0, 1, 2, 1), 0);
    assert_eq!(mcmf.add_edge(0, 2, 1, 5), 1);
    assert_eq!(mcmf.add_edge(1, 2, 1, 1), 1);
    mcmf.add_edge(1, 3, 1, 6);
    mcmf.add_edge(2, 3, 2, 1);
    assert_eq!(mcmf.min_cost_flow(0, 3, 1), (1, 3));
    let mut all = MinCostMaxFlow::new(4);
    all.add_edge(0, 1, 2, 1);
    all.add_edge(0, 2, 1, 5);
    all.add_edge(1, 2, 1, 1);
    all.add_edge(1, 3, 1, 6);
    all.add_edge(2, 3, 2, 1);
    assert_eq!(all.min_cost_flow(0, 3, 10), (3, 16));
}

#[test]
fn negative_costs_are_earned() {
    let mut mcmf = MinCostMaxFlow::new(3);
    mcmf.add_edge(0, 1, 1, -4);
    mcmf.add_edge(1, 2, 1, 1);
    assert_eq!(mcmf.min_cost_flow(0, 2, 1), (1, -3));
    assert_eq!(mcmf.min_cost_flow(0, 0, 7), (7, 0));
}

fn capacities(dinic: &Dinic) -> Vec<Vec<i32>> {
    dinic
        .graph
        .iter()
        .map(|edges| edges.iter().map(|edge| edge.cap).collect())
        .collect()
}

fn capacities_left(mcmf: &MinCostMaxFlow) -> Vec<Vec<i32>> {
    mcmf.graph
        .iter()
        .map(|edges| edges.iter().map(|edge| edge.cap).collect())
        .collect()
}

#[test]
fn a_second_push_does_nothing() {
    let mut dinic = Dinic::new(4);
    dinic.add_edge(0, 1, 3);
    dinic.add_edge(0, 2, 2);
    dinic.add_edge(1, 2, 5);
    dinic.add_edge(1, 3, 2);
    dinic.add_edge(2, 3, 3);
    assert_eq!(dinic.max_flow(0, 3), 5);
    let left = capacities(&dinic);
    assert_eq!(dinic.max_flow(0, 3), 0);
    assert_eq!(capacities(&dinic), left);
    let mut apart = Dinic::new(3);
    apart.add_edge(0, 1, 4);
    let before = capacities(&apart);
    assert_eq!(apart.max_flow(0, 2), 0);
    assert_eq!(capacities(&apart), before);
}

#[test]
fn the_flow_is_the_least_cut() {
    let links = [
        (0, 1, 7),
        (0, 2, 4),
        (1, 2, 3),
        (2, 1, 2),
        (1, 3, 4),
        (2, 4, 6),
        (3, 2, 3),
        (4, 3, 5),
        (3, 5, 6),
        (4, 5, 3),
    ];
    let mut dinic = Dinic::new(6);
    for (from, to, cap) in links {
        dinic.add_edge(from, to, cap);
    }
    let least = (0..1u32 << 6)
        .filter(|set| set & 1 != 0 && set & (1 << 5) == 0)
        .map(|set| {
            links
                .iter()
                .filter(|link| set & (1 << link.0) != 0 && set & (1 << link.1) == 0)
                .map(|link| link.2)
                .sum::<i32>()
        })
        .min()
        .unwrap();
    assert_eq!(least, 9);
    assert_eq!(dinic.max_flow(0, 5), least);
}

#[test]
fn nothing_pushed_changes_nothing() {
    let mut mcmf = MinCostMaxFlow::new(4);
    mcmf.add_edge(0, 1, 2, 5);
    mcmf.add_edge(1, 2, 2, -1);
    // a way around that costs nothing
    mcmf.add_edge(2, 1, 2, 1);
    let before = capacities_left(&mcmf);
    assert_eq!(mcmf.min_cost_flow(0, 2, 0), (0, 0));
    assert_eq!(mcmf.min_cost_flow(0, 2, -3), (0, 0));
    assert_eq!(mcmf.min_cost_flow(0, 3, 5), (0, 0));
    assert_eq!(capacities_left(&mcmf), before);
}

#[test]
fn large_costs_are_counted() {
    let mut mcmf = MinCostMaxFlow::new(3);
    mcmf.add_edge(0, 1, 2, 1_000_000_000_000_000_000);
    mcmf.add_edge(1, 2, 2, 1_000_000_000_000_000_000);
    assert_eq!(
        mcmf.min_cost_flow(0, 2, 2),
        (2, 4_000_000_000_000_000_000)
    );
    let mut wide = MinCostMaxFlow::new(3);
    wide.add_edge(0, 1, 1, i64::MAX);
    wide.add_edge(1, 2, 1, i64::MAX);
    assert_eq!(wide.push_cheapest(0, 2, 1), (1, 2 * i64::MAX as i128));
}

#[test]
fn levels_are_given_until_the_sink_is_met() {
    let mut dinic = Dinic::new(4);
    dinic.add_edge(0, 1, 1);
    dinic.add_edge(0, 2, 1);
    dinic.add_edge(0, 3, 1);
    assert!(dinic.bfs(0, 2));
    // node 3 is as near, but comes later
    assert_eq!(dinic.level, vec![0, 1, 1, -1]);
    assert!(dinic.bfs(0, 0));
    assert_eq!(dinic.level, vec![0, 1, 1, 1]);
}

#[test]
fn searches_go_on_where_they_stopped() {
    let mut dinic = Dinic::new(5);
    dinic.add_edge(0, 1, 4);
    dinic.add_edge(0, 2, 4);
    dinic.add_edge(1, 3, 0);
    dinic.add_edge(2, 3, 3);
    dinic.add_edge(3, 4, 5);
    assert!(dinic.bfs(0, 4));
    assert_eq!(dinic.dfs(0, 4, 2), 2);
    // both links of node 1 were passed over in vain, node 2 is at its second link
    assert_eq!(dinic.iters, vec![1, 2, 1, 2, 0]);
    assert_eq!(dinic.graph[2][1].cap, 1);
    assert_eq!(dinic.dfs(0, 4, 2), 1);
    assert_eq!(dinic.dfs(0, 4, 2), 0);
    assert_eq!(dinic.iters, vec![2, 2, 2, 2, 0]);
}
