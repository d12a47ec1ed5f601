use copurchase::builder::{group_graph, key_for, label_for};
use copurchase::graph::{adjacency_list, AdjacencyEntry};
use copurchase::parser::{number_in, text_between, texts_at, trimmed_number, trimmed_text};
use copurchase::records::{copy_reviews, copy_text, copy_texts};
use copurchase::text::{after_prefix, chars_of, parse_digits, position_of};
use copurchase::{Category, Product, Ratio, Review};
use petgraph::graph::Graph;

#[test]
fn prefix_is_found_at_the_start_only() {
    let chars = chars_of("title: On title: pages");
    assert_eq!(after_prefix(&chars, 0, chars.len(), "title: "), Some(7));
    assert_eq!(after_prefix(&chars, 1, chars.len(), "title: "), None);
    assert_eq!(after_prefix(&chars, 10, chars.len(), "title: "), Some(17));
    assert_eq!(after_prefix(&chars, 0, 6, "title: "), None);
    assert_eq!(after_prefix(&chars, 3, 3, ""), Some(3));
}

#[test]
fn digits_without_sign() {
    let chars = chars_of("+12");
    assert_eq!(parse_digits(&chars, 1, 3), Some(12));
    assert_eq!(parse_digits(&chars, 0, 3), None);
    assert_eq!(parse_digits(&chars, 2, 2), None);
}

#[test]
fn position_is_the_first_occurrence() {
    let labels: Vec<String> = ["a", "b", "a"].iter().map(|s| s.to_string()).collect();
    assert_eq!(position_of(&labels, &"a".to_string()), Some(0));
    assert_eq!(position_of(&labels, &"b".to_string()), Some(1));
    assert_eq!(position_of(&labels, &"c".to_string()), None);
}

#[test]
fn text_is_cut_by_characters_not_bytes() {
    assert_eq!(text_between("überall", 1, 4), "ber");
    assert_eq!(text_between("überall", 0, 1), "ü");
    assert_eq!(text_between("abc", 3, 3), "");
    let line = "aé  bb c";
    assert_eq!(texts_at(line, &vec![(0, 2), (4, 6), (7, 8)], 1), vec!["bb", "c"]);
    assert_eq!(texts_at(line, &vec![(0, 2)], 1), Vec::<String>::new());
    let chars = chars_of("é:  x y \t");
    assert_eq!(trimmed_text("é:  x y \t", &chars, 2, chars.len()), "x y");
}

#[test]
fn numbers_in_text() {
    assert_eq!(number_in("15"), 15);
    assert_eq!(number_in(" 15"), 0);
    assert_eq!(number_in("fifteen"), 0);
    let chars = chars_of("rank:  77  ");
    assert_eq!(trimmed_number(&chars, 5, chars.len()), 77);
    assert_eq!(trimmed_number(&chars, 0, chars.len()), 0);
}

#[test]
fn copies_are_equal_to_what_they_copy() {
    let review = Review {
        date: "2001-2-3".to_string(),
        customer: "C".to_string(),
        rating: 1,
        votes: 2,
        helpful: 3,
    };
    assert_eq!(review.clone(), review);
    assert_eq!(copy_reviews(&vec![review.clone(), review.clone()]), vec![review.clone(), review.clone()]);
    assert_eq!(copy_text(&Some("t".to_string())), Some("t".to_string()));
    assert_eq!(copy_text(&None), None);
    assert_eq!(copy_texts(&vec!["a".to_string(), "b".to_string()]), vec!["a", "b"]);
    let mut p = Product::blank(3);
    assert_eq!(p.id, 3);
    assert_eq!(p.asin, None);
    assert!(p.similar.is_empty() && p.category_list.is_empty() && p.reviews.is_empty());
    p.asin = Some("A".to_string());
    p.similar = vec!["B".to_string()];
    p.avg_rating = Some("4.5".to_string());
    p.reviews = vec![review];
    assert_eq!(p.clone(), p);
    let c = Category { name: "Books".to_string() };
    assert_eq!(c.clone(), c);
}

#[test]
fn label_and_key_of_a_record() {
    let mut p = Product::blank(1);
    assert_eq!(label_for(&p), "Unknown");
    assert_eq!(key_for(&p), None);
    p.group = Some("Video".to_string());
    p.asin = Some(" 08X ".to_string());
    assert_eq!(label_for(&p), "Video");
    assert_eq!(key_for(&p), Some("08x".to_string()));
}

#[test]
fn group_graph_of_a_group_without_records_is_empty() {
    let g = group_graph(&vec![Product::blank(1)], &"Book".to_string()).unwrap();
    assert_eq!((g.node_count(), g.edge_count()), (0, 0));
}

#[test]
fn adjacency_lists_every_edge_once() {
    let mut graph = Graph::<(u32, String), ()>::new();
    let a = graph.add_node((10, "A".to_string()));
    let b = graph.add_node((20, "B".to_string()));
    graph.add_edge(a, b, ());
    graph.add_edge(a, a, ());
    graph.add_edge(a, b, ());
    let mut listed = adjacency_list(&graph);
    listed[0].neighbors.sort();
    assert_eq!(
        listed,
        vec![
            AdjacencyEntry { product_id: 10, category: "A".to_string(), neighbors: vec![10, 20, 20] },
            AdjacencyEntry { product_id: 20, category: "B".to_string(), neighbors: vec![] },
        ]
    );
}

#[test]
fn fractions_are_written_as_given() {
    assert_eq!(Ratio::zero(), Ratio { numerator: 0, denominator: 1 });
    assert_eq!(Ratio::new(6, 4), Ratio { numerator: 6, denominator: 4 });
}
