use copurchase::dataset::select;
use copurchase::sampling::{draw_positions, positions};
use copurchase::summary::{count_groups, count_reviews, rank, summarize_group, top_categories};
use copurchase::{AmazonDataCleaner, CategorySummary, Product, Ratio, Review};

fn product(id: u32, asin: Option<&str>, group: Option<&str>, salesrank: Option<u32>) -> Product {
    Product {
        id,
        asin: asin.map(|s| s.to_string()),
        title: None,
        group: group.map(|s| s.to_string()),
        salesrank,
        similar: Vec::new(),
        categories: None,
        category_list: Vec::new(),
        total_reviews: None,
        downloaded_reviews: None,
        avg_rating: None,
        reviews: Vec::new(),
    }
}

fn review(rating: u32) -> Review {
    Review {
        date: "2000-1-1".to_string(),
        customer: "C".to_string(),
        rating,
        votes: 0,
        helpful: 0,
    }
}

fn cleaner(data: Vec<Product>) -> AmazonDataCleaner {
    AmazonDataCleaner { filepath: String::new(), data }
}

fn value(r: Ratio) -> f64 {
    r.numerator as f64 / r.denominator as f64
}

#[test]
fn new_dataset_is_empty() {
    let c = AmazonDataCleaner::new("amazon-meta.txt");
    assert_eq!(c.filepath, "amazon-meta.txt");
    assert!(c.get_data().is_empty());
}

#[test]
fn record_missing_code_is_dropped_by_cleaning() {
    let mut c = cleaner(vec![
        product(1, Some("A"), None, Some(5)),
        product(2, None, None, Some(900)),
        product(3, Some("C"), None, Some(7)),
    ]);
    c.clean_data();
    let ids: Vec<u32> = c.get_clean_data().iter().map(|p| p.id).collect();
    assert_eq!(ids, vec![1, 3]);
}

#[test]
fn missing_title_and_rank_are_filled_in() {
    let mut named = product(1, Some("A"), None, Some(40));
    named.title = Some("Kept".to_string());
    let mut c = cleaner(vec![
        named,
        product(2, Some("B"), None, None),
        product(3, Some("C"), None, Some(100)),
    ]);
    assert!(c.can_clean());
    c.clean_data();
    let data = c.get_clean_data();
    assert_eq!(data[0].title.as_deref(), Some("Kept"));
    assert_eq!(data[0].salesrank, Some(40));
    assert_eq!(data[1].title.as_deref(), Some("Unknown"));
    assert_eq!(data[1].salesrank, Some(101));
    assert_eq!(data[2].title.as_deref(), Some("Unknown"));
    assert_eq!(data[2].salesrank, Some(100));
}

#[test]
fn fill_rank_looks_at_retained_records_only() {
    let mut c = cleaner(vec![
        product(1, None, None, Some(5000)),
        product(2, Some("B"), None, Some(10)),
        product(3, Some("C"), None, None),
    ]);
    assert_eq!(c.highest_salesrank(), 10);
    c.clean_data();
    assert_eq!(c.get_clean_data()[1].salesrank, Some(11));
}

#[test]
fn fill_rank_is_one_where_no_rank_is_present() {
    let mut c = cleaner(vec![product(1, Some("A"), None, None)]);
    c.clean_data();
    assert_eq!(c.get_clean_data()[0].salesrank, Some(1));
}

#[test]
fn cleaning_is_possible_unless_the_fill_rank_overflows() {
    assert!(cleaner(vec![product(1, Some("A"), None, Some(u32::MAX))]).can_clean());
    assert!(cleaner(vec![
        product(1, None, None, None),
        product(2, Some("B"), None, Some(u32::MAX))
    ])
    .can_clean());
    assert!(!cleaner(vec![
        product(1, Some("A"), None, None),
        product(2, Some("B"), None, Some(u32::MAX))
    ])
    .can_clean());
}

#[test]
fn loading_replaces_the_records() {
    let mut c = cleaner(vec![product(9, Some("old"), None, None)]);
    let lines: Vec<String> = ["Id: 1", "ASIN: A1", "Id: 2", "ASIN: A2"].iter().map(|l| l.to_string()).collect();
    c.load_data(&lines).unwrap();
    let ids: Vec<u32> = c.get_data().iter().map(|p| p.id).collect();
    assert_eq!(ids, vec![1, 2]);
}

#[test]
fn positions_count_from_zero() {
    assert_eq!(positions(4), vec![0, 1, 2, 3]);
    assert!(positions(0).is_empty());
}

#[test]
fn drawn_positions_are_distinct_and_in_range() {
    for amount in [0usize, 1, 5, 20, 50] {
        let mut drawn = draw_positions(20, amount);
        assert_eq!(drawn.len(), amount.min(20));
        assert!(drawn.iter().all(|&p| p < 20));
        drawn.sort();
        drawn.dedup();
        assert_eq!(drawn.len(), amount.min(20));
    }
}

#[test]
fn select_copies_the_chosen_records_in_order() {
    let data = vec![
        product(10, Some("A"), None, None),
        product(11, Some("B"), None, None),
        product(12, Some("C"), None, None),
    ];
    let chosen = select(&data, &vec![2, 0]);
    assert_eq!(chosen, vec![data[2].clone(), data[0].clone()]);
}

#[test]
fn sample_of_everything_holds_each_record_once() {
    let data: Vec<Product> = (0..25).map(|i| product(i, Some("A"), None, Some(i))).collect();
    let c = cleaner(data);
    for n in [25usize, 26, 1000] {
        let mut ids: Vec<u32> = c.random_sample(n).iter().map(|p| p.id).collect();
        ids.sort();
        assert_eq!(ids, (0..25).collect::<Vec<u32>>());
    }
}

#[test]
fn smaller_sample_draws_without_replacement() {
    let data: Vec<Product> = (0..25).map(|i| product(i, Some("A"), None, Some(i))).collect();
    let c = cleaner(data);
    let sample = c.random_sample(10);
    assert_eq!(sample.len(), 10);
    let mut ids: Vec<u32> = sample.iter().map(|p| p.id).collect();
    ids.sort();
    ids.dedup();
    assert_eq!(ids.len(), 10);
    for p in &sample {
        assert_eq!(p, &c.get_data()[p.id as usize]);
    }
    assert!(c.random_sample(0).is_empty());
}

#[test]
fn groups_are_counted_in_discovery_order() {
    let data = vec![
        product(1, Some("A"), Some("Music"), None),
        product(2, Some("B"), None, None),
        product(3, Some("C"), Some("Book"), None),
        product(4, Some("D"), Some("Music"), None),
        product(5, Some("E"), Some("DVD"), None),
    ];
    let (labels, sizes) = count_groups(&data);
    assert_eq!(labels, vec!["Music", "Book", "DVD"]);
    assert_eq!(sizes, vec![2, 1, 1]);
}

#[test]
fn ranking_puts_larger_first_and_keeps_ties_in_order() {
    assert_eq!(rank(&vec![1, 3, 1, 3, 2]), vec![1, 3, 4, 0, 2]);
    assert_eq!(rank(&vec![]), Vec::<usize>::new());
    assert_eq!(rank(&vec![5, 5, 5]), vec![0, 1, 2]);
    assert_eq!(rank(&vec![1, 2, 3]), vec![2, 1, 0]);
}

#[test]
fn top_categories_orders_by_count_then_discovery() {
    let mut data = Vec::new();
    for (id, group) in [(1, "Video"), (2, "Book"), (3, "Music"), (4, "Book"), (5, "DVD"), (6, "Music"), (7, "Toy")] {
        data.push(product(id, Some("A"), Some(group), Some(id * 10)));
    }
    data.push(product(8, Some("A"), None, Some(1)));
    let names = |k: usize| -> Vec<String> { top_categories(&data, k).into_iter().map(|s| s.name).collect() };
    assert_eq!(names(3), vec!["Book", "Music", "Video"]);
    assert_eq!(names(0), Vec::<String>::new());
    assert_eq!(names(1), vec!["Book"]);
    assert_eq!(names(10), vec!["Book", "Music", "Video", "DVD", "Toy"]);
    let c = cleaner(data);
    let three: Vec<String> = c.summarize_top_categories().into_iter().map(|s| s.name).collect();
    assert_eq!(three, vec!["Book", "Music", "Video"]);
}

#[test]
fn summary_holds_exact_totals() {
    let mut a = product(1, Some("A"), Some("Book"), Some(100));
    a.reviews = vec![review(5), review(2)];
    let b = product(2, Some("B"), Some("Book"), None);
    let mut c = product(3, Some("C"), Some("Book"), Some(50));
    c.reviews = vec![review(4)];
    let mut other = product(4, Some("D"), Some("Music"), Some(7));
    other.reviews = vec![review(1)];
    let data = vec![a, other, b, c];
    let s = summarize_group(&data, &"Book".to_string());
    assert_eq!(
        s,
        CategorySummary {
            name: "Book".to_string(),
            product_count: 3,
            ranked_count: 2,
            sales_rank_total: 150,
            review_count: 3,
            rating_total: 11,
        }
    );
    assert_eq!(value(s.average_sales_rank()), 75.0);
    assert_eq!(s.average_rating(), Some(Ratio { numerator: 11, denominator: 3 }));
    assert_eq!(count_reviews(&data), Some(4));
}

#[test]
fn group_without_reviews_has_no_average_rating() {
    let data = vec![product(1, Some("A"), Some("Book"), Some(9))];
    let s = &top_categories(&data, 3)[0];
    assert_eq!(s.review_count, 0);
    assert_eq!(s.average_rating(), None);
    assert_eq!(value(s.average_sales_rank()), 9.0);
}

#[test]
fn features_of_a_product() {
    let mut p = product(1, Some("A"), None, Some(77));
    p.title = Some("Crème".to_string());
    p.category_list = vec!["|a".to_string(), "|b".to_string()];
    p.reviews = vec![review(5), review(4), review(3)];
    let f = p.extract_features();
    assert_eq!(f.num_reviews, 3);
    assert_eq!(f.avg_rating, Ratio { numerator: 12, denominator: 3 });
    assert_eq!(f.sales_rank, 77);
    assert_eq!(f.category_depth, 2);
    assert_eq!(f.title_length, 6);
    let bare = product(2, None, None, None).extract_features();
    assert_eq!(bare.num_reviews, 0);
    assert_eq!(bare.avg_rating, Ratio { numerator: 0, denominator: 1 });
    assert_eq!(bare.sales_rank, 0);
    assert_eq!(bare.category_depth, 0);
    assert_eq!(bare.title_length, 0);
}

#[test]
fn average_sales_rank_is_the_mean_of_the_ranks_present() {
    let data = vec![
        product(1, Some("A"), Some("Book"), Some(10)),
        product(2, Some("B"), Some("Book"), None),
    ];
    let s = summarize_group(&data, &"Book".to_string());
    assert_eq!((s.product_count, s.ranked_count, s.sales_rank_total), (2, 1, 10));
    assert_eq!(s.average_sales_rank(), Ratio { numerator: 10, denominator: 1 });
}

#[test]
fn group_without_any_rank_has_average_rank_zero() {
    let data = vec![product(1, Some("A"), Some("Book"), None)];
    let s = summarize_group(&data, &"Book".to_string());
    assert_eq!((s.product_count, s.ranked_count), (1, 0));
    assert_eq!(s.average_sales_rank(), Ratio { numerator: 0, denominator: 1 });
}

#[test]
fn dropping_keeps_the_valid_records_as_they_are() {
    let mut c = cleaner(vec![
        product(1, None, Some("Book"), Some(3)),
        product(2, Some("B"), None, None),
        product(3, None, None, None),
        product(4, Some("D"), Some("DVD"), Some(u32::MAX)),
    ]);
    assert!(!c.can_clean());
    c.drop_invalid();
    assert_eq!(
        c.get_data(),
        &vec![product(2, Some("B"), None, None), product(4, Some("D"), Some("DVD"), Some(u32::MAX))]
    );
    let mut empty = cleaner(Vec::new());
    empty.drop_invalid();
    assert!(empty.get_data().is_empty());
}
