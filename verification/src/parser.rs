//! The line parser: it reads a catalogue line by line and assembles one
//! record for each block of lines.
//!
//! A line is trimmed and then told apart by its leading text. Every rule
//! either updates one field of the record under construction or closes it
//! and opens the next; a line that fits no rule changes nothing. No line is
//! an error: a field that cannot be read takes a default.

use vstd::prelude::*;
use vstd::string::StringExecFns;
use crate::pattern::{captures_of, compiles, Pattern, PatternError};
use crate::records::{Product, ProductView, Review, ReviewView};
use crate::text::{
    after_prefix, chars_of, number_or_zero, parse_number, starts_with, trim, trim_range,
    word_ranges, words,
};

verus! {

/// The expression that a review line matches: a date, the customer, and the
/// three counts, each introduced by its label.
pub const REVIEW_PATTERN: &'static str =
    r"(\d{4})-(\d{1,2})-(\d{1,2})\s+(?:customer|cutomer):\s+(\S+)\s+rating:\s+(\d+)\s+votes:\s+(\d+)\s+helpful:\s+(\d+)";

/// The review that the capture groups of a match describe: groups one to
/// three are the parts of the date, group four the customer, groups five to
/// seven the rating, the votes and the helpful votes. Groups that are
/// missing describe no review.
pub open spec fn review_of(groups: Seq<Option<Seq<char>>>) -> Option<ReviewView> {
    if groups.len() >= 8 && (forall|k: int| 1 <= k < 8 ==> (#[trigger] groups[k]) is Some) {
        Some(
            ReviewView {
                date: groups[1]->0 + "-"@ + groups[2]->0 + "-"@ + groups[3]->0,
                customer: groups[4]->0,
                rating: number_or_zero(groups[5]->0),
                votes: number_or_zero(groups[6]->0),
                helpful: number_or_zero(groups[7]->0),
            },
        )
    } else {
        None
    }
}

/// The number that `text` writes, or zero.
pub fn number_in(text: &str) -> (n: u32)
    ensures
        n == number_or_zero(text@),
{
    let chars = chars_of(text);
    assert(chars@.subrange(0, chars.len() as int) == chars@);
    match parse_number(&chars, 0, chars.len()) {
        Some(n) => n,
        None => 0,
    }
}

/// Builds the review that the capture groups of a match describe.
pub fn review_from_groups(groups: &Vec<Option<String>>) -> (r: Option<Review>)
    ensures
        r.deep_view() == review_of(groups.deep_view()),
{
    let ghost g = groups.deep_view();
    if groups.len() < 8 {
        return None;
    }
    assert forall|k: int| 0 <= k < 8 implies #[trigger] g[k] == groups[k].deep_view() by {}
    match (
        &groups[1],
        &groups[2],
        &groups[3],
        &groups[4],
        &groups[5],
        &groups[6],
        &groups[7],
    ) {
        (Some(year), Some(month), Some(day), Some(customer), Some(rating), Some(votes), Some(helpful)) => {
            let mut date = year.clone();
            date.append("-");
            date.append(month.as_str());
            date.append("-");
            date.append(day.as_str());
            let review = Review {
                date,
                customer: customer.clone(),
                rating: number_in(rating.as_str()),
                votes: number_in(votes.as_str()),
                helpful: number_in(helpful.as_str()),
            };
            assert(g[1] is Some && g[2] is Some && g[3] is Some && g[4] is Some && g[5] is Some
                && g[6] is Some && g[7] is Some);
            Some(review)
        },
        _ => {
            assert(!(forall|k: int| 1 <= k < 8 ==> (#[trigger] g[k]) is Some)) by {
                assert(g[1] is None || g[2] is None || g[3] is None || g[4] is None || g[5] is None
                    || g[6] is None || g[7] is None);
            }
            None
        },
    }
}

/// The rules by which a trimmed line is told apart, in their order of
/// precedence.
#[derive(Debug, Clone, Copy, PartialEq, Eq)]
pub enum LineKind {
    /// Opens a block and gives the record's identity.
    Id,
    /// The code by which other records refer to this one.
    Asin,
    Title,
    Group,
    SalesRank,
    /// A count, then the codes of similar products.
    Similar,
    /// The number of category paths that follow.
    Categories,
    /// One category path, kept as it stands.
    CategoryPath,
    /// The totals of the reviews that follow.
    ReviewSummary,
    /// Anything else: a review, or a line to pass over.
    Other,
}

/// The leading text that marks a line of the given kind.
pub open spec fn prefix_of(kind: LineKind) -> Seq<char> {
    match kind {
        LineKind::Id => "Id: "@,
        LineKind::Asin => "ASIN: "@,
        LineKind::Title => "title: "@,
        LineKind::Group => "group: "@,
        LineKind::SalesRank => "salesrank: "@,
        LineKind::Similar => "similar: "@,
        LineKind::Categories => "categories: "@,
        LineKind::CategoryPath => "|"@,
        LineKind::ReviewSummary => "reviews: total: "@,
        LineKind::Other => Seq::empty(),
    }
}

/// The kind of a trimmed line: the first rule whose leading text it has.
pub open spec fn kind_of(line: Seq<char>) -> LineKind {
    if starts_with(line, prefix_of(LineKind::Id)) {
        LineKind::Id
    } else if starts_with(line, prefix_of(LineKind::Asin)) {
        LineKind::Asin
    } else if starts_with(line, prefix_of(LineKind::Title)) {
        LineKind::Title
    } else if starts_with(line, prefix_of(LineKind::Group)) {
        LineKind::Group
    } else if starts_with(line, prefix_of(LineKind::SalesRank)) {
        LineKind::SalesRank
    } else if starts_with(line, prefix_of(LineKind::Similar)) {
        LineKind::Similar
    } else if starts_with(line, prefix_of(LineKind::Categories)) {
        LineKind::Categories
    } else if starts_with(line, prefix_of(LineKind::CategoryPath)) {
        LineKind::CategoryPath
    } else if starts_with(line, prefix_of(LineKind::ReviewSummary)) {
        LineKind::ReviewSummary
    } else {
        LineKind::Other
    }
}

/// Tells the kind of the line held by the characters of `line` in
/// `from..to`, and the position at which the text after its marker begins.
pub fn classify(line: &Vec<char>, from: usize, to: usize) -> (r: (LineKind, usize))
    requires
        from <= to <= line.len(),
    ensures
        r.0 == kind_of(line@.subrange(from as int, to as int)),
        r.1 == from + prefix_of(r.0).len(),
        r.1 <= to,
{
    if let Some(p) = after_prefix(line, from, to, "Id: ") {
        (LineKind::Id, p)
    } else if let Some(p) = after_prefix(line, from, to, "ASIN: ") {
        (LineKind::Asin, p)
    } else if let Some(p) = after_prefix(line, from, to, "title: ") {
        (LineKind::Title, p)
    } else if let Some(p) = after_prefix(line, from, to, "group: ") {
        (LineKind::Group, p)
    } else if let Some(p) = after_prefix(line, from, to, "salesrank: ") {
        (LineKind::SalesRank, p)
    } else if let Some(p) = after_prefix(line, from, to, "similar: ") {
        (LineKind::Similar, p)
    } else if let Some(p) = after_prefix(line, from, to, "categories: ") {
        (LineKind::Categories, p)
    } else if let Some(p) = after_prefix(line, from, to, "|") {
        (LineKind::CategoryPath, p)
    } else if let Some(p) = after_prefix(line, from, to, "reviews: total: ") {
        (LineKind::ReviewSummary, p)
    } else {
        (LineKind::Other, from)
    }
}

/// What a parser holds between two lines: the record under construction
/// and the records already closed.
pub struct ParserView {
    pub current: ProductView,
    pub finished: Seq<ProductView>,
}

/// The state before the first line: an empty record with identity zero, and
/// nothing closed.
pub open spec fn initial_state() -> ParserView {
    ParserView { current: ProductView::blank(0), finished: Seq::empty() }
}

/// The closed records together with the record under construction, where
/// that one is valid.
pub open spec fn records_of(state: ParserView) -> Seq<ProductView> {
    if state.current.is_valid() {
        state.finished.push(state.current)
    } else {
        state.finished
    }
}

/// `s` without its first element, where it has one.
pub open spec fn without_first(s: Seq<Seq<char>>) -> Seq<Seq<char>> {
    if s.len() > 0 {
        s.drop_first()
    } else {
        s
    }
}

/// The state after one more line, where `captured` is what the review
/// expression captures in the trimmed line. Only a line of kind `Other`
/// looks at `captured`.
pub open spec fn after_line_with(
    state: ParserView,
    raw: Seq<char>,
    captured: Option<Seq<Option<Seq<char>>>>,
) -> ParserView {
    let line = trim(raw);
    let kind = kind_of(line);
    let rest = line.skip(prefix_of(kind).len() as int);
    let p = state.current;
    match kind {
        LineKind::Id => ParserView {
            current: ProductView::blank(number_or_zero(trim(rest))),
            finished: records_of(state),
        },
        LineKind::Asin => ParserView { current: ProductView { asin: Some(trim(rest)), ..p }, ..state },
        LineKind::Title => ParserView {
            current: ProductView { title: Some(trim(rest)), ..p },
            ..state
        },
        LineKind::Group => ParserView {
            current: ProductView { group: Some(trim(rest)), ..p },
            ..state
        },
        LineKind::SalesRank => ParserView {
            current: ProductView { salesrank: Some(number_or_zero(trim(rest))), ..p },
            ..state
        },
        LineKind::Similar => ParserView {
            current: ProductView { similar: without_first(words(rest)), ..p },
            ..state
        },
        LineKind::Categories => ParserView {
            current: ProductView { categories: Some(number_or_zero(trim(rest))), ..p },
            ..state
        },
        LineKind::CategoryPath => ParserView {
            current: ProductView { category_list: p.category_list.push(line), ..p },
            ..state
        },
        LineKind::ReviewSummary => {
            let w = words(line);
            if w.len() >= 9 {
                ParserView {
                    current: ProductView {
                        total_reviews: Some(number_or_zero(w[2])),
                        downloaded_reviews: Some(number_or_zero(w[5])),
                        avg_rating: Some(w[8]),
                        ..p
                    },
                    ..state
                }
            } else {
                state
            }
        },
        LineKind::Other => match captured {
            Some(groups) => match review_of(groups) {
                Some(review) => ParserView {
                    current: ProductView { reviews: p.reviews.push(review), ..p },
                    ..state
                },
                None => state,
            },
            None => state,
        },
    }
}

/// The state after one more line, read with the review expression
/// `pattern`.
pub open spec fn after_line(state: ParserView, pattern: Seq<char>, raw: Seq<char>) -> ParserView {
    after_line_with(state, raw, captures_of(pattern, trim(raw)))
}

/// The state after a run of lines.
pub open spec fn after_lines(state: ParserView, pattern: Seq<char>, lines: Seq<Seq<char>>) -> ParserView
    decreases lines.len(),
{
    if lines.len() == 0 {
        state
    } else {
        after_line(after_lines(state, pattern, lines.drop_last()), pattern, lines.last())
    }
}

/// The records that a catalogue holds, read with the review expression
/// `pattern`.
pub open spec fn parsed(pattern: Seq<char>, lines: Seq<Seq<char>>) -> Seq<ProductView> {
    records_of(after_lines(initial_state(), pattern, lines))
}

/// The text of `line` between two positions, counted in characters.
pub fn text_between(line: &str, from: usize, to: usize) -> (r: String)
    requires
        from <= to <= line@.len(),
    ensures
        r@ == line@.subrange(from as int, to as int),
{
    String::from_str(line.substring_char(from, to))
}

/// The texts that `ranges` mark in `line`, from the range `first` on.
pub fn texts_at(line: &str, ranges: &Vec<(usize, usize)>, first: usize) -> (out: Vec<String>)
    requires
        first <= ranges.len(),
        forall|k: int|
            0 <= k < ranges.len() ==> (#[trigger] ranges[k]).0 <= ranges[k].1 <= line@.len(),
    ensures
        out.len() == ranges.len() - first,
        forall|j: int|
            0 <= j < out.len() ==> (#[trigger] out[j])@ == line@.subrange(
                ranges[j + first].0 as int,
                ranges[j + first].1 as int,
            ),
{
    let mut out: Vec<String> = Vec::new();
    let mut k: usize = first;
    while k < ranges.len()
        invariant
            first <= k <= ranges.len(),
            out.len() == k - first,
            forall|k: int|
                0 <= k < ranges.len() ==> (#[trigger] ranges[k]).0 <= ranges[k].1 <= line@.len(),
            forall|j: int|
                0 <= j < out.len() ==> (#[trigger] out[j])@ == line@.subrange(
                    ranges[j + first].0 as int,
                    ranges[j + first].1 as int,
                ),
        decreases ranges.len() - k,
    {
        let (a, b) = ranges[k];
        out.push(text_between(line, a, b));
        k += 1;
    }
    out
}

/// The trimmed text of the characters of `line` in `from..to`.
pub fn trimmed_text(line: &str, chars: &Vec<char>, from: usize, to: usize) -> (r: String)
    requires
        chars@ == line@,
        from <= to <= chars.len(),
    ensures
        r@ == trim(chars@.subrange(from as int, to as int)),
{
    let (a, b) = trim_range(chars, from, to);
    text_between(line, a, b)
}

/// The number written by the trimmed characters of `chars` in `from..to`,
/// or zero.
pub fn trimmed_number(chars: &Vec<char>, from: usize, to: usize) -> (n: u32)
    requires
        from <= to <= chars.len(),
    ensures
        n == number_or_zero(trim(chars@.subrange(from as int, to as int))),
{
    let (a, b) = trim_range(chars, from, to);
    match parse_number(chars, a, b) {
        Some(n) => n,
        None => 0,
    }
}

/// A parser in the middle of a catalogue: the review expression, the record
/// under construction and the records already closed.
pub struct RecordParser {
    pattern: Pattern,
    current: Product,
    finished: Vec<Product>,
}

impl View for RecordParser {
    type V = ParserView;

    closed spec fn view(&self) -> ParserView {
        ParserView { current: self.current@, finished: self.finished.deep_view() }
    }
}

impl RecordParser {
    /// The text of the expression by which this parser reads review lines.
    pub closed spec fn pattern_text(&self) -> Seq<char> {
        self.pattern@
    }

    /// A parser before the first line that reads review lines with
    /// `pattern`.
    pub fn with_pattern(pattern: Pattern) -> (p: RecordParser)
        ensures
            p@ == initial_state(),
            p.pattern_text() == pattern@,
    {
        let p = RecordParser { pattern, current: Product::blank(0), finished: Vec::new() };
        assert(p.finished.deep_view() =~= Seq::empty());
        p
    }

    /// A parser before the first line that reads review lines with the
    /// review expression. It succeeds exactly where the review expression
    /// compiles.
    pub fn new() -> (r: Result<RecordParser, PatternError>)
        ensures
            r is Ok == compiles(REVIEW_PATTERN@),
            r matches Ok(p) ==> p@ == initial_state() && p.pattern_text() == REVIEW_PATTERN@,
            r matches Err(e) ==> e == PatternError::Rejected,
    {
        match Pattern::compile(REVIEW_PATTERN) {
            Ok(pattern) => Ok(RecordParser::with_pattern(pattern)),
            Err(e) => Err(e),
        }
    }

    /// Reads one line.
    pub fn feed(&mut self, line: &str)
        ensures
            final(self)@ == after_line(old(self)@, old(self).pattern_text(), line@),
            final(self).pattern_text() == old(self).pattern_text(),
    {
        let chars = chars_of(line);
        let (from, to) = trim_range(&chars, 0, chars.len());
        assert(chars@.subrange(0, chars.len() as int) == chars@);
        let (kind, rest) = classify(&chars, from, to);
        let captured = match kind {
            LineKind::Other => self.pattern.captures(line.substring_char(from, to)),
            _ => None,
        };
        self.apply(line, &chars, from, to, kind, rest, captured);
    }

    /// Reads one line, given what the review expression captures in the
    /// trimmed line.
    pub fn absorb(&mut self, line: &str, captured: Option<Vec<Option<String>>>)
        ensures
            final(self)@ == after_line_with(old(self)@, line@, captured.deep_view()),
            final(self).pattern_text() == old(self).pattern_text(),
    {
        let chars = chars_of(line);
        let (from, to) = trim_range(&chars, 0, chars.len());
        assert(chars@.subrange(0, chars.len() as int) == chars@);
        let (kind, rest) = classify(&chars, from, to);
        self.apply(line, &chars, from, to, kind, rest, captured);
    }

    fn apply(
        &mut self,
        line: &str,
        chars: &Vec<char>,
        from: usize,
        to: usize,
        kind: LineKind,
        rest: usize,
        captured: Option<Vec<Option<String>>>,
    )
        requires
            chars@ == line@,
            from <= rest <= to <= chars.len(),
            chars@.subrange(from as int, to as int) == trim(line@),
            kind == kind_of(trim(line@)),
            rest == from + prefix_of(kind).len(),
        ensures
            final(self)@ == after_line_with(old(self)@, line@, captured.deep_view()),
            final(self).pattern_text() == old(self).pattern_text(),
    {
        let ghost trimmed = trim(line@);
        let ghost tail = trimmed.skip(prefix_of(kind).len() as int);
        assert(tail == chars@.subrange(rest as int, to as int));
        let ghost before = self@;
        match kind {
            LineKind::Id => {
                let mut done = Product::blank(trimmed_number(chars, rest, to));
                std::mem::swap(&mut self.current, &mut done);
                if done.asin.is_some() {
                    self.finished.push(done);
                    assert(self.finished.deep_view() =~= before.finished.push(done@));
                }
            },
            LineKind::Asin => {
                self.current.asin = Some(trimmed_text(line, chars, rest, to));
            },
            LineKind::Title => {
                self.current.title = Some(trimmed_text(line, chars, rest, to));
            },
            LineKind::Group => {
                self.current.group = Some(trimmed_text(line, chars, rest, to));
            },
            LineKind::SalesRank => {
                self.current.salesrank = Some(trimmed_number(chars, rest, to));
            },
            LineKind::Similar => {
                let ranges = word_ranges(chars, rest, to);
                let first: usize = if ranges.len() > 0 {
                    1
                } else {
                    0
                };
                self.current.similar = texts_at(line, &ranges, first);
                assert(self.current.similar.deep_view() =~= without_first(words(tail)));
            },
            LineKind::Categories => {
                self.current.categories = Some(trimmed_number(chars, rest, to));
            },
            LineKind::CategoryPath => {
                let path = text_between(line, from, to);
                self.current.category_list.push(path);
                assert(self.current.category_list.deep_view() =~= before.current.category_list.push(
                    trimmed,
                ));
            },
            LineKind::ReviewSummary => {
                let ranges = word_ranges(chars, from, to);
                if ranges.len() >= 9 {
                    let (a2, b2) = ranges[2];
                    let (a5, b5) = ranges[5];
                    let (a8, b8) = ranges[8];
                    self.current.total_reviews = Some(
                        match parse_number(chars, a2, b2) {
                            Some(n) => n,
                            None => 0,
                        },
                    );
                    self.current.downloaded_reviews = Some(
                        match parse_number(chars, a5, b5) {
                            Some(n) => n,
                            None => 0,
                        },
                    );
                    self.current.avg_rating = Some(text_between(line, a8, b8));
                }
            },
            LineKind::Other => {
                if let Some(groups) = captured {
                    if let Some(review) = review_from_groups(&groups) {
                        self.current.reviews.push(review);
                        assert(self.current.reviews.deep_view() =~= before.current.reviews.push(
                            review@,
                        ));
                    }
                }
            },
        }
    }

    /// Ends the catalogue: the closed records and, where it is valid, the
    /// record under construction.
    pub fn finish(self) -> (r: Vec<Product>)
        ensures
            r.deep_view() == records_of(self@),
    {
        let mut records = self.finished;
        if self.current.asin.is_some() {
            let ghost before = records.deep_view();
            records.push(self.current);
            assert(records.deep_view() =~= before.push(self.current@));
        }
        records
    }
}

/// Reads a whole catalogue, its review lines with `pattern`.
pub fn parse_with(pattern: Pattern, lines: &Vec<String>) -> (records: Vec<Product>)
    ensures
        records.deep_view() == parsed(pattern@, lines.deep_view()),
{
    let ghost source = pattern@;
    let mut parser = RecordParser::with_pattern(pattern);
    let ghost all = lines.deep_view();
    let mut i: usize = 0;
    assert(all.take(0) == Seq::<Seq<char>>::empty());
    while i < lines.len()
        invariant
            i <= lines.len(),
            all == lines.deep_view(),
            parser.pattern_text() == source,
            parser@ == after_lines(initial_state(), source, all.take(i as int)),
        decreases lines.len() - i,
    {
        assert(all.take(i + 1).drop_last() == all.take(i as int));
        assert(all.take(i + 1).last() == lines[i as int]@);
        parser.feed(lines[i].as_str());
        i += 1;
    }
    assert(all.take(i as int) == all);
    parser.finish()
}

/// Reads a whole catalogue, its review lines with the review expression. It
/// succeeds exactly where the review expression compiles, whatever the
/// lines hold: no line is an error.
pub fn parse_lines(lines: &Vec<String>) -> (r: Result<Vec<Product>, PatternError>)
    ensures
        r is Ok == compiles(REVIEW_PATTERN@),
        r matches Ok(records) ==> records.deep_view() == parsed(REVIEW_PATTERN@, lines.deep_view()),
        r matches Err(e) ==> e == PatternError::Rejected,
{
    match Pattern::compile(REVIEW_PATTERN) {
        Ok(pattern) => Ok(parse_with(pattern, lines)),
        Err(e) => Err(e),
    }
}

/// Whether every closed record is valid.
pub open spec fn closed_are_valid(state: ParserView) -> bool {
    forall|i: int| 0 <= i < state.finished.len() ==> (#[trigger] state.finished[i]).is_valid()
}

/// A line closes none but valid records.
pub proof fn lemma_line_keeps_closed_valid(
    state: ParserView,
    raw: Seq<char>,
    captured: Option<Seq<Option<Seq<char>>>>,
)
    requires
        closed_are_valid(state),
    ensures
        closed_are_valid(after_line_with(state, raw, captured)),
{
    let after = after_line_with(state, raw, captured);
    assert forall|i: int| 0 <= i < after.finished.len() implies (#[trigger] after.finished[i]).is_valid() by {
        if i < state.finished.len() {
            assert(after.finished[i] == state.finished[i]);
        }
    }
}

/// Every record that a catalogue is read into carries its code: the parser
/// hands out valid records only.
pub proof fn lemma_parsed_records_are_valid(pattern: Seq<char>, lines: Seq<Seq<char>>)
    ensures
        forall|i: int|
            0 <= i < parsed(pattern, lines).len() ==> (#[trigger] parsed(pattern, lines)[i]).is_valid(),
{
    lemma_lines_keep_closed_valid(pattern, lines);
    let state = after_lines(initial_state(), pattern, lines);
    let out = parsed(pattern, lines);
    assert forall|i: int| 0 <= i < out.len() implies (#[trigger] out[i]).is_valid() by {
        if i < state.finished.len() {
            assert(out[i] == state.finished[i]);
        }
    }
}

/// However many lines were read, the closed records are valid.
pub proof fn lemma_lines_keep_closed_valid(pattern: Seq<char>, lines: Seq<Seq<char>>)
    ensures
        closed_are_valid(after_lines(initial_state(), pattern, lines)),
    decreases lines.len(),
{
    if lines.len() > 0 {
        lemma_lines_keep_closed_valid(pattern, lines.drop_last());
        lemma_line_keeps_closed_valid(
            after_lines(initial_state(), pattern, lines.drop_last()),
            lines.last(),
            captures_of(pattern, trim(lines.last())),
        );
    }
}

/// What a review line does. Where a trimmed line fits none of the rules
/// that go by leading text, and the review expression captures in it the
/// three parts of a date, a customer and three counts, the record under
/// construction gains one review behind those it has: the date is the three
/// parts as written, joined by hyphens, and each count is the number
/// written, or zero. Nothing else changes.
pub proof fn lemma_review_line(
    state: ParserView,
    pattern: Seq<char>,
    raw: Seq<char>,
    groups: Seq<Option<Seq<char>>>,
)
    requires
        kind_of(trim(raw)) == LineKind::Other,
        captures_of(pattern, trim(raw)) == Some(groups),
        groups.len() >= 8,
        forall|k: int| 1 <= k < 8 ==> (#[trigger] groups[k]) is Some,
    ensures
        after_line(state, pattern, raw) == (ParserView {
            current: ProductView {
                reviews: state.current.reviews.push(
                    ReviewView {
                        date: groups[1]->0 + "-"@ + groups[2]->0 + "-"@ + groups[3]->0,
                        customer: groups[4]->0,
                        rating: number_or_zero(groups[5]->0),
                        votes: number_or_zero(groups[6]->0),
                        helpful: number_or_zero(groups[7]->0),
                    },
                ),
                ..state.current
            },
            finished: state.finished,
        }),
{
}

/// A line that fits no rule and in which the review expression finds
/// nothing changes nothing.
pub proof fn lemma_line_passed_over(state: ParserView, pattern: Seq<char>, raw: Seq<char>)
    requires
        kind_of(trim(raw)) == LineKind::Other,
        captures_of(pattern, trim(raw)) is None,
    ensures
        after_line(state, pattern, raw) == state,
{
}

} // verus!
