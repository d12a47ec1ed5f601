use copurchase::builder::{build, category_graphs, find_first, global_graph, group_members, valid_members};
use copurchase::metrics::calculate_average_degree_centrality;
use copurchase::{AmazonDataCleaner, CategorySummary, Product, ProductGraph};

fn product(id: u32, asin: Option<&str>, group: Option<&str>, similar: &[&str]) -> Product {
    Product {
        id,
        asin: asin.map(|s| s.to_string()),
        title: None,
        group: group.map(|s| s.to_string()),
        salesrank: None,
        similar: similar.iter().map(|s| s.to_string()).collect(),
        categories: None,
        category_list: Vec::new(),
        total_reviews: None,
        downloaded_reviews: None,
        avg_rating: None,
        reviews: Vec::new(),
    }
}

fn nodes(g: &ProductGraph) -> Vec<(u32, String)> {
    g.node_indices().map(|n| g[n].clone()).collect()
}

fn edges(g: &ProductGraph) -> Vec<(usize, usize)> {
    g.edge_indices()
        .map(|e| g.edge_endpoints(e).unwrap())
        .map(|(a, b)| (a.index(), b.index()))
        .collect()
}

fn summary(name: &str) -> CategorySummary {
    CategorySummary {
        name: name.to_string(),
        product_count: 0,
        ranked_count: 0,
        sales_rank_total: 0,
        review_count: 0,
        rating_total: 0,
    }
}

fn catalogue() -> Vec<Product> {
    vec![
        product(1, Some("B1"), Some("Book"), &["b2", " M1 ", "nowhere"]),
        product(2, Some("b2"), Some("Book"), &["B1", "B1"]),
        product(3, Some("M1"), Some("Music"), &["M1", "B2"]),
        product(4, Some("D1"), None, &["m1"]),
        product(5, Some(" B2"), Some("Book"), &[]),
    ]
}

#[test]
fn global_graph_has_a_node_for_each_record_and_an_edge_for_each_answered_reference() {
    let g = global_graph(&catalogue()).unwrap();
    assert_eq!(
        nodes(&g),
        vec![
            (1, "Book".to_string()),
            (2, "Book".to_string()),
            (3, "Music".to_string()),
            (4, "Unknown".to_string()),
            (5, "Book".to_string())
        ]
    );
    assert_eq!(edges(&g), vec![(0, 1), (0, 2), (1, 0), (1, 0), (2, 2), (2, 1), (3, 2)]);
}

#[test]
fn references_resolve_to_the_first_record_with_the_code() {
    let keys = vec![Some("x".to_string()), None, Some("y".to_string()), Some("x".to_string())];
    assert_eq!(find_first(&keys, &"x".to_string()), Some(0));
    assert_eq!(find_first(&keys, &"y".to_string()), Some(2));
    assert_eq!(find_first(&keys, &"z".to_string()), None);
    assert_eq!(find_first(&Vec::new(), &"x".to_string()), None);
}

#[test]
fn records_without_code_get_no_node_in_the_global_graph() {
    let data = vec![
        product(1, Some("A"), None, &["C"]),
        product(2, None, None, &["A"]),
        product(3, Some("C"), None, &["A"]),
    ];
    assert_eq!(valid_members(&data), vec![0, 2]);
    let g = global_graph(&data).unwrap();
    assert_eq!(nodes(&g), vec![(1, "Unknown".to_string()), (3, "Unknown".to_string())]);
    assert_eq!(edges(&g), vec![(0, 1), (1, 0)]);
}

#[test]
fn category_graph_resolves_inside_the_category_only() {
    let c = AmazonDataCleaner { filepath: String::new(), data: catalogue() };
    let graphs = c
        .create_graphs_for_top_categories(vec![summary("Book"), summary("Music"), summary("Book"), summary("Toys")])
        .unwrap();
    let names: Vec<&str> = graphs.iter().map(|g| g.category.as_str()).collect();
    assert_eq!(names, vec!["Book", "Music", "Toys"]);

    let book = &graphs[0].graph;
    assert_eq!(
        nodes(book),
        vec![(1, "Book".to_string()), (2, "Book".to_string()), (5, "Book".to_string())]
    );
    assert_eq!(edges(book), vec![(0, 1), (1, 0), (1, 0)]);

    let music = &graphs[1].graph;
    assert_eq!(nodes(music), vec![(3, "Music".to_string())]);
    assert_eq!(edges(music), vec![(0, 0)]);

    let toys = &graphs[2].graph;
    assert_eq!(toys.node_count(), 0);
    assert_eq!(toys.edge_count(), 0);
}

#[test]
fn no_edge_of_a_category_graph_leaves_the_category() {
    let data = catalogue();
    let labels: Vec<String> = ["Book", "Music"].iter().map(|s| s.to_string()).collect();
    for entry in category_graphs(&data, &labels).unwrap() {
        let g = &entry.graph;
        for e in g.edge_indices() {
            let (a, b) = g.edge_endpoints(e).unwrap();
            assert_eq!(g[a].1, entry.category);
            assert_eq!(g[b].1, entry.category);
        }
    }
}

#[test]
fn members_of_a_group_are_its_positions() {
    let data = catalogue();
    assert_eq!(group_members(&data, &"Book".to_string()), vec![0, 1, 4]);
    assert_eq!(group_members(&data, &"book".to_string()), Vec::<usize>::new());
    assert_eq!(group_members(&data, &"Unknown".to_string()), Vec::<usize>::new());
}

#[test]
fn build_takes_the_members_in_the_order_given() {
    let data = catalogue();
    let g = build(&data, &vec![2, 0]).unwrap();
    assert_eq!(nodes(&g), vec![(3, "Music".to_string()), (1, "Book".to_string())]);
    assert_eq!(edges(&g), vec![(0, 0), (1, 0)]);
}

#[test]
fn average_degree_of_a_built_graph() {
    let c = AmazonDataCleaner { filepath: String::new(), data: catalogue() };
    let g = c.create_global_graph().unwrap();
    let r = calculate_average_degree_centrality(&g);
    assert_eq!((r.numerator, r.denominator), (6, 5));
}

#[test]
fn empty_dataset_gives_an_empty_graph() {
    let g = global_graph(&Vec::new()).unwrap();
    assert_eq!((g.node_count(), g.edge_count()), (0, 0));
}
