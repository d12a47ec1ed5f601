use copurchase::metrics::{
    calculate_average_degree_centrality, count_distinct, AmazonDataAnalysis, CoPurchase,
};
use copurchase::ratio::Ratio;
use petgraph::graph::Graph;

fn value(r: Ratio) -> f64 {
    r.numerator as f64 / r.denominator as f64
}

fn ratios_of(all: &[CoPurchase], category: &str) -> Option<(f64, f64)> {
    all.iter()
        .find(|c| c.category == category)
        .map(|c| (value(c.in_category_ratio()), value(c.cross_category_ratio())))
}

#[test]
fn test_adjacency_list() {
    let mut graph = Graph::<(u32, String), ()>::new();

    let node_a = graph.add_node((1, String::new())); // Product 1
    let node_b = graph.add_node((2, String::new())); // Product 2
    let node_c = graph.add_node((3, String::new())); // Product 3

    graph.add_edge(node_a, node_b, ()); // Product 1 -> Product 2
    graph.add_edge(node_b, node_c, ()); // Product 2 -> Product 3

    let expected_adjacency = vec![(1, vec![2]), (2, vec![3]), (3, vec![])];

    let listed = copurchase::graph::adjacency_list(&graph);
    for (expected_product, expected_neighbors) in expected_adjacency {
        let entry = listed
            .iter()
            .find(|entry| entry.product_id == expected_product)
            .expect("Node not found");
        let neighbors: Vec<u32> = entry.neighbors.clone();

        assert_eq!(
            neighbors, expected_neighbors,
            "Mismatch for Product {}: Expected {:?}, Got {:?}",
            expected_product, expected_neighbors, neighbors
        );
    }
}

#[test]
fn test_calculate_average_degree_centrality() {
    let mut graph = Graph::<(u32, String), ()>::new();

    let node_a = graph.add_node((1, "Books".to_string())); // Product 1 in Books
    let node_b = graph.add_node((2, "Books".to_string())); // Product 2 in Books
    let node_c = graph.add_node((3, "Music".to_string())); // Product 3 in Music
    let node_d = graph.add_node((4, "Books".to_string())); // Product 4 in Books

    graph.add_edge(node_a, node_b, ()); // Product 1 -> Product 2
    graph.add_edge(node_b, node_a, ()); // Product 2 -> Product 1
    graph.add_edge(node_a, node_c, ()); // Product 1 -> Product 3
    graph.add_edge(node_c, node_a, ()); // Product 3 -> Product 1
    graph.add_edge(node_b, node_d, ()); // Product 2 -> Product 4
    graph.add_edge(node_d, node_b, ()); // Product 4 -> Product 2

    let avg_degree_centrality = value(calculate_average_degree_centrality(&graph));

    let expected_avg_degree_centrality = 1.5;

    assert!(
        (avg_degree_centrality - expected_avg_degree_centrality).abs() < f64::EPSILON,
        "Expected: {:.2}, Got: {:.2}",
        expected_avg_degree_centrality,
        avg_degree_centrality
    );
}

#[test]
fn test_calculate_co_purchase_ratios() {
    let mut global_graph = Graph::<(u32, String), ()>::new();

    let book_node_1 = global_graph.add_node((1, "Book".to_string()));
    let book_node_2 = global_graph.add_node((2, "Book".to_string()));
    let music_node_1 = global_graph.add_node((3, "Music".to_string()));
    let dvd_node_1 = global_graph.add_node((4, "DVD".to_string()));

    global_graph.add_edge(book_node_1, book_node_2, ()); // Book -> Book
    global_graph.add_edge(book_node_1, music_node_1, ()); // Book -> Music
    global_graph.add_edge(dvd_node_1, book_node_1, ()); // DVD -> Book
    global_graph.add_edge(music_node_1, music_node_1, ()); // Music -> Music (self-loop)

    let co_purchase_ratios = AmazonDataAnalysis::calculate_co_purchase_ratios(&global_graph);

    println!(
        "Debug - Available Categories in Ratios: {:?}",
        co_purchase_ratios.iter().map(|c| &c.category).collect::<Vec<_>>()
    );

    assert!(ratios_of(&co_purchase_ratios, "Book").is_some(), "Book category not found in ratios");
    assert!(ratios_of(&co_purchase_ratios, "Music").is_some(), "Music category not found in ratios");
    assert!(ratios_of(&co_purchase_ratios, "DVD").is_some(), "DVD category not found in ratios");

    assert_eq!(
        ratios_of(&co_purchase_ratios, "Book").unwrap(),
        (0.5, 0.5),
        "Book category ratios mismatch"
    );
    assert_eq!(
        ratios_of(&co_purchase_ratios, "Music").unwrap(),
        (1.0, 0.0),
        "Music category ratios mismatch"
    );
    assert_eq!(
        ratios_of(&co_purchase_ratios, "DVD").unwrap(),
        (0.0, 1.0),
        "DVD category ratios mismatch"
    );
}

#[test]
fn empty_graph_has_average_degree_zero() {
    let graph = Graph::<(u32, String), ()>::new();
    let r = calculate_average_degree_centrality(&graph);
    assert_eq!((r.numerator, r.denominator), (0, 1));
    assert_eq!(value(r), 0.0);
}

#[test]
fn co_purchase_counts_come_in_discovery_order() {
    let mut graph = Graph::<(u32, String), ()>::new();
    let a = graph.add_node((1, "A".to_string()));
    let b = graph.add_node((2, "B".to_string()));
    let c = graph.add_node((3, "C".to_string()));
    graph.add_edge(b, a, ());
    graph.add_edge(a, a, ());
    graph.add_edge(b, b, ());
    graph.add_edge(b, c, ());
    let counts = AmazonDataAnalysis::calculate_co_purchase_ratios(&graph);
    assert_eq!(
        counts,
        vec![
            CoPurchase { category: "B".to_string(), in_category: 1, cross_category: 2 },
            CoPurchase { category: "A".to_string(), in_category: 1, cross_category: 0 },
        ]
    );
}

#[test]
fn parallel_edges_reach_one_neighbour() {
    let mut graph = Graph::<(u32, String), ()>::new();
    let a = graph.add_node((1, "Book".to_string()));
    let b = graph.add_node((2, "Book".to_string()));
    graph.add_edge(a, b, ());
    graph.add_edge(a, b, ());
    let r = calculate_average_degree_centrality(&graph);
    assert_eq!((r.numerator, r.denominator), (1, 2));
    assert_eq!(value(r), 0.5);
}

#[test]
fn a_loop_makes_a_node_its_own_neighbour() {
    let mut graph = Graph::<(u32, String), ()>::new();
    let a = graph.add_node((1, "A".to_string()));
    let b = graph.add_node((2, "A".to_string()));
    graph.add_edge(a, b, ());
    graph.add_edge(a, b, ());
    graph.add_edge(a, a, ());
    graph.add_edge(b, b, ());
    let r = calculate_average_degree_centrality(&graph);
    assert_eq!((r.numerator, r.denominator), (3, 2));
}

#[test]
fn distinct_values_are_counted_once() {
    assert_eq!(count_distinct(&vec![]), 0);
    assert_eq!(count_distinct(&vec![4, 4, 4]), 1);
    assert_eq!(count_distinct(&vec![1, 2, 1, 3, 2]), 3);
}
