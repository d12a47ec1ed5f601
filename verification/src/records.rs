//! Product and review records, and their mathematical views.

use vstd::prelude::*;

verus! {

/// One customer review of a product.
#[derive(Debug, PartialEq, Eq)]
pub struct Review {
    pub date: String,
    pub customer: String,
    pub rating: u32,
    pub votes: u32,
    pub helpful: u32,
}

/// What a `Review` holds, as plain values.
pub struct ReviewView {
    pub date: Seq<char>,
    pub customer: Seq<char>,
    pub rating: u32,
    pub votes: u32,
    pub helpful: u32,
}

impl View for Review {
    type V = ReviewView;

    open spec fn view(&self) -> ReviewView {
        ReviewView {
            date: self.date@,
            customer: self.customer@,
            rating: self.rating,
            votes: self.votes,
            helpful: self.helpful,
        }
    }
}

impl DeepView for Review {
    type V = ReviewView;

    open spec fn deep_view(&self) -> ReviewView {
        self@
    }
}

impl Clone for Review {
    fn clone(&self) -> (r: Self)
        ensures
            r@ == self@,
    {
        Review {
            date: self.date.clone(),
            customer: self.customer.clone(),
            rating: self.rating,
            votes: self.votes,
            helpful: self.helpful,
        }
    }
}

/// One product of the catalogue.
///
/// `asin` is the code by which other products refer to this one. A record
/// without it is not valid. `avg_rating` keeps the average rating as the
/// catalogue wrote it.
#[derive(Debug, PartialEq, Eq)]
pub struct Product {
    pub id: u32,
    pub asin: Option<String>,
    pub title: Option<String>,
    pub group: Option<String>,
    pub salesrank: Option<u32>,
    pub similar: Vec<String>,
    pub categories: Option<u32>,
    pub category_list: Vec<String>,
    pub total_reviews: Option<u32>,
    pub downloaded_reviews: Option<u32>,
    pub avg_rating: Option<String>,
    pub reviews: Vec<Review>,
}

/// What a `Product` holds, as plain values.
pub struct ProductView {
    pub id: u32,
    pub asin: Option<Seq<char>>,
    pub title: Option<Seq<char>>,
    pub group: Option<Seq<char>>,
    pub salesrank: Option<u32>,
    pub similar: Seq<Seq<char>>,
    pub categories: Option<u32>,
    pub category_list: Seq<Seq<char>>,
    pub total_reviews: Option<u32>,
    pub downloaded_reviews: Option<u32>,
    pub avg_rating: Option<Seq<char>>,
    pub reviews: Seq<ReviewView>,
}

impl ProductView {
    /// The record that a block starts with: an identity and nothing else.
    pub open spec fn blank(id: u32) -> ProductView {
        ProductView {
            id,
            asin: None,
            title: None,
            group: None,
            salesrank: None,
            similar: Seq::empty(),
            categories: None,
            category_list: Seq::empty(),
            total_reviews: None,
            downloaded_reviews: None,
            avg_rating: None,
            reviews: Seq::empty(),
        }
    }

    /// Whether the record carries the code that makes it valid.
    pub open spec fn is_valid(self) -> bool {
        self.asin is Some
    }
}

impl View for Product {
    type V = ProductView;

    open spec fn view(&self) -> ProductView {
        ProductView {
            id: self.id,
            asin: self.asin.deep_view(),
            title: self.title.deep_view(),
            group: self.group.deep_view(),
            salesrank: self.salesrank,
            similar: self.similar.deep_view(),
            categories: self.categories,
            category_list: self.category_list.deep_view(),
            total_reviews: self.total_reviews,
            downloaded_reviews: self.downloaded_reviews,
            avg_rating: self.avg_rating.deep_view(),
            reviews: self.reviews.deep_view(),
        }
    }
}

impl DeepView for Product {
    type V = ProductView;

    open spec fn deep_view(&self) -> ProductView {
        self@
    }
}

/// A category, by its name.
#[derive(Debug, PartialEq, Eq)]
pub struct Category {
    pub name: String,
}

impl View for Category {
    type V = Seq<char>;

    open spec fn view(&self) -> Seq<char> {
        self.name@
    }
}

impl Clone for Category {
    fn clone(&self) -> (c: Self)
        ensures
            c@ == self@,
    {
        Category { name: self.name.clone() }
    }
}

/// A copy of an optional string.
pub fn copy_text(text: &Option<String>) -> (r: Option<String>)
    ensures
        r.deep_view() == text.deep_view(),
{
    match text {
        Some(s) => Some(s.clone()),
        None => None,
    }
}

/// A copy of a list of strings.
pub fn copy_texts(texts: &Vec<String>) -> (r: Vec<String>)
    ensures
        r.deep_view() == texts.deep_view(),
{
    let mut r: Vec<String> = Vec::new();
    let mut i: usize = 0;
    while i < texts.len()
        invariant
            i <= texts.len(),
            r.len() == i,
            forall|k: int| 0 <= k < i ==> r[k]@ == texts[k]@,
        decreases texts.len() - i,
    {
        r.push(texts[i].clone());
        i += 1;
    }
    assert(r.deep_view() =~= texts.deep_view());
    r
}

/// A copy of a list of reviews.
pub fn copy_reviews(reviews: &Vec<Review>) -> (r: Vec<Review>)
    ensures
        r.deep_view() == reviews.deep_view(),
{
    let mut r: Vec<Review> = Vec::new();
    let mut i: usize = 0;
    while i < reviews.len()
        invariant
            i <= reviews.len(),
            r.len() == i,
            forall|k: int| 0 <= k < i ==> r[k]@ == reviews[k]@,
        decreases reviews.len() - i,
    {
        r.push(reviews[i].clone());
        i += 1;
    }
    assert(r.deep_view() =~= reviews.deep_view());
    r
}

impl Product {
    /// A record with the given identity and every other field empty.
    pub fn blank(id: u32) -> (p: Product)
        ensures
            p@ == ProductView::blank(id),
    {
        let p = Product {
            id,
            asin: None,
            title: None,
            group: None,
            salesrank: None,
            similar: Vec::new(),
            categories: None,
            category_list: Vec::new(),
            total_reviews: None,
            downloaded_reviews: None,
            avg_rating: None,
            reviews: Vec::new(),
        };
        assert(p.similar.deep_view() =~= Seq::empty());
        assert(p.category_list.deep_view() =~= Seq::empty());
        assert(p.reviews.deep_view() =~= Seq::empty());
        p
    }
}

impl Clone for Product {
    fn clone(&self) -> (p: Self)
        ensures
            p@ == self@,
    {
        Product {
            id: self.id,
            asin: copy_text(&self.asin),
            title: copy_text(&self.title),
            group: copy_text(&self.group),
            salesrank: self.salesrank,
            similar: copy_texts(&self.similar),
            categories: self.categories,
            category_list: copy_texts(&self.category_list),
            total_reviews: self.total_reviews,
            downloaded_reviews: self.downloaded_reviews,
            avg_rating: copy_text(&self.avg_rating),
            reviews: copy_reviews(&self.reviews),
        }
    }
}

} // verus!
