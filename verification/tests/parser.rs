use copurchase::parser::{
    classify, parse_lines, parse_with, review_from_groups, LineKind, RecordParser,
    REVIEW_PATTERN,
};
use copurchase::pattern::Pattern;
use copurchase::text::chars_of;
use copurchase::{AmazonDataCleaner, Product, Review};

fn lines(text: &[&str]) -> Vec<String> {
    text.iter().map(|l| l.to_string()).collect()
}

fn parse(text: &[&str]) -> Vec<Product> {
    parse_lines(&lines(text)).expect("the review expression compiles")
}

fn kind(line: &str) -> LineKind {
    let chars = chars_of(line);
    classify(&chars, 0, chars.len()).0
}

#[test]
fn block_round_trip_through_cleaning() {
    let mut cleaner = AmazonDataCleaner::new("catalogue.txt");
    cleaner
        .load_data(&lines(&["Id: 7", "ASIN: X1", "title: T", "group: Books", "salesrank: 100"]))
        .unwrap();
    assert!(cleaner.can_clean());
    cleaner.clean_data();
    let data = cleaner.get_clean_data();
    assert_eq!(data.len(), 1);
    assert_eq!(data[0].id, 7);
    assert_eq!(data[0].asin.as_deref(), Some("X1"));
    assert_eq!(data[0].title.as_deref(), Some("T"));
    assert_eq!(data[0].group.as_deref(), Some("Books"));
    assert_eq!(data[0].salesrank, Some(100));
}

#[test]
fn review_line_is_read() {
    let records = parse(&[
        "Id: 1",
        "ASIN: A",
        "2006-3-16  customer: A2JW67OY8U6HHK  rating: 5  votes: 10  helpful: 9",
    ]);
    assert_eq!(
        records[0].reviews,
        vec![Review {
            date: "2006-3-16".to_string(),
            customer: "A2JW67OY8U6HHK".to_string(),
            rating: 5,
            votes: 10,
            helpful: 9,
        }]
    );
}

#[test]
fn misspelt_customer_label_is_accepted() {
    let records = parse(&[
        "Id: 1",
        "ASIN: A",
        "    2000-12-01  cutomer: B7  rating: 3  votes:   2  helpful:   1",
    ]);
    assert_eq!(
        records[0].reviews,
        vec![Review {
            date: "2000-12-01".to_string(),
            customer: "B7".to_string(),
            rating: 3,
            votes: 2,
            helpful: 1,
        }]
    );
}

#[test]
fn review_count_too_large_reads_as_zero() {
    let records = parse(&[
        "Id: 1",
        "ASIN: A",
        "2006-3-16  customer: C  rating: 99999999999  votes: 10  helpful: 9",
    ]);
    assert_eq!(records[0].reviews[0].rating, 0);
    assert_eq!(records[0].reviews[0].votes, 10);
}

#[test]
fn rules_apply_in_their_order() {
    assert_eq!(kind("Id: 3"), LineKind::Id);
    assert_eq!(kind("ASIN: 0827229534"), LineKind::Asin);
    assert_eq!(kind("title: Patterns"), LineKind::Title);
    assert_eq!(kind("group: Book"), LineKind::Group);
    assert_eq!(kind("salesrank: 396585"), LineKind::SalesRank);
    assert_eq!(kind("similar: 2 A B"), LineKind::Similar);
    assert_eq!(kind("categories: 2"), LineKind::Categories);
    assert_eq!(kind("|Books[283155]|Subjects[1000]"), LineKind::CategoryPath);
    assert_eq!(kind("reviews: total: 2  downloaded: 2  avg rating: 5"), LineKind::ReviewSummary);
    assert_eq!(kind("reviews: 2"), LineKind::Other);
    assert_eq!(kind("id: 3"), LineKind::Other);
    assert_eq!(kind("Id:3"), LineKind::Other);
    assert_eq!(kind(""), LineKind::Other);
}

#[test]
fn marker_position_follows_the_prefix() {
    let chars = chars_of("xxsalesrank: 12");
    assert_eq!(classify(&chars, 2, chars.len()), (LineKind::SalesRank, 13));
    assert_eq!(classify(&chars, 0, chars.len()), (LineKind::Other, 0));
}

#[test]
fn every_field_of_a_block_is_read() {
    let records = parse(&[
        "",
        "Id:   15",
        "ASIN: 1559362022",
        "  title: Wake Up and Smell the Coffee",
        "  group: Book",
        "  salesrank: 518927",
        "  similar: 5  1559360968  1559361247  1559360828  1559361018  0743214552",
        "  categories: 3",
        "   |Books[283155]|Subjects[1000]|Literature & Fiction[17]",
        "   |Books[283155]|Subjects[1000]|Arts[1]",
        "  reviews: total: 8  downloaded: 8  avg rating: 4",
        "    2002-5-13  cutomer: A2IGOA66Y6O8TQ  rating: 5  votes:   3  helpful:   2",
        "    2002-6-17  cutomer: A2OIN4AUH84KNE  rating: 5  votes:   2  helpful:   1",
    ]);
    assert_eq!(records.len(), 1);
    let p = &records[0];
    assert_eq!(p.id, 15);
    assert_eq!(p.asin.as_deref(), Some("1559362022"));
    assert_eq!(p.title.as_deref(), Some("Wake Up and Smell the Coffee"));
    assert_eq!(p.group.as_deref(), Some("Book"));
    assert_eq!(p.salesrank, Some(518927));
    assert_eq!(
        p.similar,
        vec!["1559360968", "1559361247", "1559360828", "1559361018", "0743214552"]
    );
    assert_eq!(p.categories, Some(3));
    assert_eq!(
        p.category_list,
        vec![
            "|Books[283155]|Subjects[1000]|Literature & Fiction[17]",
            "|Books[283155]|Subjects[1000]|Arts[1]"
        ]
    );
    // Eight words only: the summary rule asks for nine and leaves the totals unset.
    assert_eq!(p.total_reviews, None);
    assert_eq!(p.downloaded_reviews, None);
    assert_eq!(p.avg_rating, None);
    assert_eq!(p.reviews.len(), 2);
    assert_eq!(p.reviews[1].customer, "A2OIN4AUH84KNE");
}

#[test]
fn review_summary_takes_words_two_five_and_eight() {
    let records = parse(&["Id: 1", "ASIN: A", "reviews: total: 12 of these: 7 and the 4.5 more"]);
    let p = &records[0];
    assert_eq!(p.total_reviews, Some(12));
    assert_eq!(p.downloaded_reviews, Some(7));
    assert_eq!(p.avg_rating.as_deref(), Some("4.5"));
}

#[test]
fn review_summary_defaults_unreadable_numbers_to_zero() {
    let records = parse(&["Id: 1", "ASIN: A", "reviews: total: x a b y c d z"]);
    let p = &records[0];
    assert_eq!(p.total_reviews, Some(0));
    assert_eq!(p.downloaded_reviews, Some(0));
    assert_eq!(p.avg_rating.as_deref(), Some("z"));
}

#[test]
fn malformed_numbers_take_the_default() {
    let records = parse(&["Id: seven", "ASIN: A", "salesrank: -3", "categories: many"]);
    assert_eq!(records[0].id, 0);
    assert_eq!(records[0].salesrank, Some(0));
    assert_eq!(records[0].categories, Some(0));
}

#[test]
fn similar_skips_the_declared_count() {
    let records = parse(&["Id: 1", "ASIN: A", "similar: 5 B C"]);
    assert_eq!(records[0].similar, vec!["B", "C"]);
    let records = parse(&["Id: 1", "ASIN: A", "similar: 0"]);
    assert!(records[0].similar.is_empty());
}

#[test]
fn record_without_code_is_not_emitted() {
    let records = parse(&["Id: 1", "title: lost", "Id: 2", "ASIN: B", "Id: 3", "title: lost too"]);
    assert_eq!(records.len(), 1);
    assert_eq!(records[0].id, 2);
    assert_eq!(records[0].title, None);
}

#[test]
fn fields_before_the_first_marker_belong_to_record_zero() {
    let records = parse(&["ASIN: early", "Id: 4", "ASIN: late"]);
    assert_eq!(records.len(), 2);
    assert_eq!((records[0].id, records[0].asin.as_deref()), (0, Some("early")));
    assert_eq!((records[1].id, records[1].asin.as_deref()), (4, Some("late")));
}

#[test]
fn unknown_lines_change_nothing() {
    let with = parse(&["Id: 1", "ASIN: A", "discontinued product", "Total items: 548552", "title: T"]);
    let without = parse(&["Id: 1", "ASIN: A", "title: T"]);
    assert_eq!(with, without);
}

#[test]
fn empty_input_gives_no_record() {
    assert!(parse(&[]).is_empty());
}

#[test]
fn feeding_line_by_line_equals_parsing_at_once() {
    let text = ["Id: 1", "ASIN: A", "group: Music", "Id: 2", "ASIN: B", "2001-1-2  customer: Z  rating: 4  votes: 1  helpful: 0"];
    let mut parser = RecordParser::new().unwrap();
    for line in text {
        parser.feed(line);
    }
    assert_eq!(parser.finish(), parse(&text));
}

#[test]
fn absorb_uses_the_captures_it_is_given() {
    let groups = |parts: [&str; 8]| Some(parts.iter().map(|p| Some(p.to_string())).collect::<Vec<_>>());
    let mut parser = RecordParser::new().unwrap();
    parser.absorb("ASIN: A", None);
    parser.absorb("some line", groups(["", "1999", "1", "2", "who", "5", "x", "7"]));
    parser.absorb("another line", None);
    parser.absorb("title: T", groups(["", "1999", "1", "2", "who", "5", "6", "7"]));
    let records = parser.finish();
    assert_eq!(records.len(), 1);
    assert_eq!(records[0].title.as_deref(), Some("T"));
    assert_eq!(
        records[0].reviews,
        vec![Review {
            date: "1999-1-2".to_string(),
            customer: "who".to_string(),
            rating: 5,
            votes: 0,
            helpful: 7,
        }]
    );
}

#[test]
fn groups_that_are_missing_describe_no_review() {
    let some = |s: &str| Some(s.to_string());
    assert_eq!(review_from_groups(&vec![]), None);
    assert_eq!(
        review_from_groups(&vec![some("w"), some("2000"), some("1"), some("2"), some("c"), some("1"), some("2")]),
        None
    );
    assert_eq!(
        review_from_groups(&vec![some("w"), some("2000"), some("1"), None, some("c"), some("1"), some("2"), some("3")]),
        None
    );
    assert_eq!(
        review_from_groups(&vec![None, some("2000"), some("1"), some("2"), some("c"), some("1"), some("2"), some("3")]),
        Some(Review {
            date: "2000-1-2".to_string(),
            customer: "c".to_string(),
            rating: 1,
            votes: 2,
            helpful: 3,
        })
    );
}

#[test]
fn captures_hold_the_whole_match_and_each_group() {
    let pattern = Pattern::compile(REVIEW_PATTERN).unwrap();
    let found = pattern
        .captures("x 2006-3-16  customer: A2JW67OY8U6HHK  rating: 5  votes: 10  helpful: 9 y")
        .unwrap();
    let texts: Vec<&str> = found.iter().map(|g| g.as_deref().unwrap()).collect();
    assert_eq!(
        texts,
        vec![
            "2006-3-16  customer: A2JW67OY8U6HHK  rating: 5  votes: 10  helpful: 9",
            "2006",
            "3",
            "16",
            "A2JW67OY8U6HHK",
            "5",
            "10",
            "9"
        ]
    );
    assert_eq!(pattern.captures("2006-3-16 customer A rating 5"), None);
}

#[test]
fn groups_that_took_no_part_are_absent() {
    let pattern = Pattern::compile("(a)|(b)").unwrap();
    assert_eq!(
        pattern.captures("b"),
        Some(vec![Some("b".to_string()), None, Some("b".to_string())])
    );
}

#[test]
fn pattern_that_does_not_compile_is_rejected() {
    assert!(Pattern::compile("(unclosed").is_err());
}

#[test]
fn the_review_expression_compiles() {
    assert!(Pattern::compile(REVIEW_PATTERN).is_ok());
    assert!(RecordParser::new().is_ok());
    assert!(parse_lines(&lines(&["Id: 1", "ASIN: A", "not a rule", "salesrank: ?"])).is_ok());
    let mut cleaner = AmazonDataCleaner::new("catalogue.txt");
    assert!(cleaner.load_data(&lines(&["Id: x", "ASIN: A"])).is_ok());
    assert_eq!(cleaner.get_data().len(), 1);
}

#[test]
fn parser_with_a_pattern_starts_empty() {
    let parser = RecordParser::with_pattern(Pattern::compile("x").unwrap());
    assert!(parser.finish().is_empty());
    let mut parser = RecordParser::with_pattern(Pattern::compile("x").unwrap());
    parser.feed("ASIN: A");
    let records = parser.finish();
    assert_eq!(records.len(), 1);
    assert_eq!((records[0].id, records[0].asin.as_deref()), (0, Some("A")));
}

#[test]
fn parsing_with_the_review_expression_is_parsing() {
    let text = lines(&[
        "Id: 1",
        "ASIN: A",
        "2001-1-2  customer: Z  rating: 4  votes: 1  helpful: 0",
        "Id: 2",
        "title: no code",
    ]);
    let pattern = Pattern::compile(REVIEW_PATTERN).unwrap();
    assert_eq!(parse_with(pattern, &text), parse_lines(&text).unwrap());
}

#[test]
fn review_lines_follow_the_pattern_given() {
    let text = lines(&[
        "Id: 1",
        "ASIN: A",
        "2001-1-2  customer: Z  rating: 4  votes: 1  helpful: 0",
        "on 2003/4/5 bob gave 3 of 9 and 8",
    ]);
    let pattern = Pattern::compile(r"(\d+)/(\d+)/(\d+) (\w+) gave (\d+) of (\d+) and (\d+)").unwrap();
    let records = parse_with(pattern, &text);
    assert_eq!(
        records[0].reviews,
        vec![Review {
            date: "2003-4-5".to_string(),
            customer: "bob".to_string(),
            rating: 3,
            votes: 9,
            helpful: 8,
        }]
    );
}
