//! The figures of a single product.

use vstd::prelude::*;
use vstd::utf8::encode_utf8;
use crate::ratio::Ratio;
use crate::records::Product;
use crate::summary::{ratings_sum, sum_ratings};

verus! {

/// The figures of one product.
#[derive(Debug, Clone, Copy, PartialEq, Eq)]
pub struct ProductFeatures {
    /// The number of reviews.
    pub num_reviews: usize,
    /// The mean rating of the reviews; zero, written `0 / 1`, without any.
    pub avg_rating: Ratio,
    /// The sales rank, or zero where the product carries none.
    pub sales_rank: u32,
    /// The number of category paths.
    pub category_depth: usize,
    /// The length of the title in bytes of UTF-8, or zero without a title.
    pub title_length: usize,
}

impl Product {
    /// The figures of this product.
    pub fn extract_features(&self) -> (f: ProductFeatures)
        ensures
            f.num_reviews == self@.reviews.len(),
            f.avg_rating.is_defined(),
            self@.reviews.len() > 0 ==> f.avg_rating.written_as(
                ratings_sum(self@.reviews) as int,
                self@.reviews.len() as int,
            ),
            self@.reviews.len() == 0 ==> f.avg_rating.written_as(0, 1),
            f.sales_rank == match self@.salesrank {
                Some(rank) => rank,
                None => 0,
            },
            f.category_depth == self@.category_list.len(),
            f.title_length == match self@.title {
                Some(title) => encode_utf8(title).len(),
                None => 0,
            },
    {
        let num_reviews = self.reviews.len();
        let avg_rating = if num_reviews > 0 {
            Ratio::new(sum_ratings(&self.reviews), num_reviews as u128)
        } else {
            Ratio::zero()
        };
        let sales_rank = match self.salesrank {
            Some(rank) => rank,
            None => 0,
        };
        let title_length = match &self.title {
            Some(title) => title.as_str().as_bytes().len(),
            None => 0,
        };
        ProductFeatures {
            num_reviews,
            avg_rating,
            sales_rank,
            category_depth: self.category_list.len(),
            title_length,
        }
    }
}

} // verus!
