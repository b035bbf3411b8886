use product_graph::degree::{
    analyze_degree_distribution, degree_counts, find_highly_connected_nodes, node_out_degrees,
    rank_by_degree,
};
use product_graph::graph::build_graph;
use product_graph::index::AsinIndex;
use product_graph::product::Product;

fn product(asin: &str, title: &str, similar: &[&str]) -> Product {
    Product {
        asin: asin.to_string(),
        title: title.to_string(),
        similar: similar.iter().map(|s| s.to_string()).collect(),
    }
}

fn books() -> Vec<Product> {
    vec![
        product("A", "Book A", &["B"]),
        product("B", "Book B", &["A", "C"]),
        product("C", "Book C", &[]),
        product("D", "Book D", &["A", "B"]),
    ]
}

fn percentages(dist: &[(usize, usize)], total: usize) -> Vec<(usize, usize, f64)> {
    dist.iter()
        .map(|&(d, c)| (d, c, c as f64 / total as f64 * 100.0))
        .collect()
}

#[test]
fn test_build_graph() {
    let products = vec![
        Product {
            asin: "123".to_string(),
            title: "Product 123".to_string(),
            similar: vec!["456".to_string()],
        },
        Product {
            asin: "456".to_string(),
            title: "Product 456".to_string(),
            similar: vec!["123".to_string()],
        },
    ];

    let (graph, _) = build_graph(&products);

    assert_eq!(graph.node_count(), 2);
    assert_eq!(graph.edge_count(), 2);
}

#[test]
fn test_analyze_degree_distribution() {
    let products = vec![
        Product {
            asin: "123".to_string(),
            title: "Product 123".to_string(),
            similar: vec![],
        },
        Product {
            asin: "456".to_string(),
            title: "Product 456".to_string(),
            similar: vec!["123".to_string()],
        },
    ];

    let (graph, _) = build_graph(&products);
    let degree_distribution = analyze_degree_distribution(&graph);

    assert!(degree_distribution.iter().any(|&(degree, _)| degree == 1));
}

#[test]
fn test_percentage_sum_in_degree_distribution() {
    let products = vec![
        Product {
            asin: "A".to_string(),
            title: "Book A".to_string(),
            similar: vec!["B".to_string()],
        },
        Product {
            asin: "B".to_string(),
            title: "Book B".to_string(),
            similar: vec!["A".to_string(), "C".to_string()],
        },
        Product {
            asin: "C".to_string(),
            title: "Book C".to_string(),
            similar: vec![],
        },
        Product {
            asin: "D".to_string(),
            title: "Book D".to_string(),
            similar: vec!["A".to_string(), "B".to_string()],
        },
    ];

    let (graph, _) = build_graph(&products);
    let degree_distribution = analyze_degree_distribution(&graph);

    let percentage_sum: f64 = percentages(&degree_distribution, graph.node_count())
        .iter()
        .map(|&(_, _, percentage)| percentage)
        .sum();

    assert!((percentage_sum - 100.0).abs() <= 0.01);
}

#[test]
fn node_count_equals_record_count_with_duplicates() {
    let products = vec![
        product("A", "first A", &["B"]),
        product("B", "Book B", &["A"]),
        product("A", "second A", &[]),
    ];
    let (graph, index) = build_graph(&products);
    assert_eq!(graph.node_count(), 3);
    // Both edges into "A" and out of "A" use the newest node for "A".
    let a = index.get(&"A".to_string());
    assert_eq!(a, Some(2));
    let degs = node_out_degrees(&graph);
    assert_eq!(degs, vec![0, 1, 1]);
    assert_eq!(graph.edge_count(), 2);
}

#[test]
fn edge_count_bounded_by_references() {
    let products = vec![
        product("A", "Book A", &["B", "X", "B"]),
        product("B", "Book B", &["Y"]),
    ];
    let (graph, _) = build_graph(&products);
    // Four references, two resolve; the repeated reference gives a parallel edge.
    assert_eq!(graph.edge_count(), 2);
    assert_eq!(node_out_degrees(&graph), vec![2, 0]);
}

#[test]
fn edge_count_equals_references_when_all_resolve() {
    let (graph, _) = build_graph(&books());
    assert_eq!(graph.edge_count(), 5);
}

#[test]
fn dangling_reference_is_dropped() {
    let products = vec![product("A", "Book A", &["Z"])];
    let (graph, index) = build_graph(&products);
    assert_eq!(graph.node_count(), 1);
    assert_eq!(graph.edge_count(), 0);
    assert_eq!(index.get(&"Z".to_string()), None);
}

#[test]
fn distribution_of_four_books() {
    let (graph, _) = build_graph(&books());
    assert_eq!(node_out_degrees(&graph), vec![1, 2, 0, 2]);
    let dist = analyze_degree_distribution(&graph);
    assert_eq!(dist, vec![(0, 1), (1, 1), (2, 2)]);
    let shares = percentages(&dist, graph.node_count());
    assert!((shares[0].2 - 25.0).abs() < 1e-9);
    assert!((shares[1].2 - 25.0).abs() < 1e-9);
    assert!((shares[2].2 - 50.0).abs() < 1e-9);
    let sum: f64 = shares.iter().map(|s| s.2).sum();
    assert!((sum - 100.0).abs() <= 0.01);
}

#[test]
fn top_two_of_four_books() {
    let (graph, _) = build_graph(&books());
    let top = find_highly_connected_nodes(&graph, 2);
    assert_eq!(
        top,
        vec![
            ("B".to_string(), "Book B".to_string(), 2),
            ("D".to_string(), "Book D".to_string(), 2),
        ]
    );
}

#[test]
fn top_limit_larger_than_graph() {
    let (graph, _) = build_graph(&books());
    let top = find_highly_connected_nodes(&graph, 10);
    let order: Vec<&str> = top.iter().map(|t| t.0.as_str()).collect();
    assert_eq!(order, vec!["B", "D", "A", "C"]);
    assert_eq!(top[3].2, 0);
}

#[test]
fn top_limit_zero_is_empty() {
    let (graph, _) = build_graph(&books());
    assert!(find_highly_connected_nodes(&graph, 0).is_empty());
}

#[test]
fn empty_input_gives_empty_results() {
    let (graph, index) = build_graph(&[]);
    assert_eq!(graph.node_count(), 0);
    assert_eq!(graph.edge_count(), 0);
    assert_eq!(index.len(), 0);
    assert!(find_highly_connected_nodes(&graph, 5).is_empty());
    assert!(analyze_degree_distribution(&graph).is_empty());
}

#[test]
fn building_twice_gives_same_results() {
    let products = books();
    let (g1, _) = build_graph(&products);
    let (g2, _) = build_graph(&products);
    assert_eq!(g1.node_count(), g2.node_count());
    assert_eq!(g1.edge_count(), g2.edge_count());
    assert_eq!(analyze_degree_distribution(&g1), analyze_degree_distribution(&g2));
    assert_eq!(find_highly_connected_nodes(&g1, 3), find_highly_connected_nodes(&g2, 3));
}

#[test]
fn node_weights_carry_identifier_and_title() {
    let (graph, _) = build_graph(&books());
    let top = find_highly_connected_nodes(&graph, 4);
    assert!(top.contains(&("C".to_string(), "Book C".to_string(), 0)));
}

#[test]
fn rank_orders_by_degree_then_index() {
    assert_eq!(rank_by_degree(&vec![3, 1, 3, 0, 5], 3), vec![4, 0, 2]);
    assert_eq!(rank_by_degree(&vec![], 3), Vec::<usize>::new());
    assert_eq!(rank_by_degree(&vec![1, 1, 1], 5), vec![0, 1, 2]);
}

#[test]
fn counts_of_unsorted_degrees() {
    assert_eq!(degree_counts(&vec![4, 0, 4, 2, 0, 4]), vec![(0, 2), (2, 1), (4, 3)]);
    assert_eq!(degree_counts(&vec![]), Vec::<(usize, usize)>::new());
}

#[test]
fn index_resolves_to_newest_node() {
    let mut index = AsinIndex::new();
    index.insert("x".to_string());
    index.insert("y".to_string());
    index.insert("x".to_string());
    assert_eq!(index.get(&"x".to_string()), Some(2));
    assert_eq!(index.get(&"y".to_string()), Some(1));
    assert_eq!(index.get(&"z".to_string()), None);
    assert_eq!(index.len(), 3);
}

#[test]
fn index_with_few_buckets_resolves_every_identifier() {
    let mut index = AsinIndex::with_capacity(3);
    let ids: Vec<String> = (0..40).map(|i| format!("id{}", i % 25)).collect();
    for id in &ids {
        index.insert(id.clone());
    }
    for k in 0..25 {
        let newest = if k < 15 { k + 25 } else { k };
        assert_eq!(index.get(&format!("id{}", k)), Some(newest));
    }
    assert_eq!(index.get(&"id25".to_string()), None);
    assert_eq!(index.get(&"".to_string()), None);
}
