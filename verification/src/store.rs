//! The document store: an ordered sequence of indexed documents, each an
//! identity paired with the approximate filter of its body terms. Built once
//! from a corpus; read-only afterwards.

use vstd::prelude::*;
use crate::errors::ConstructionError;
use crate::filter::{ApproximateFilter, FilterView, MAX_TERMS};
use crate::hashing::{hash_list, term_hash};
use crate::text::{tokenize, tokens_of};

verus! {

pub type Title = String;

pub type Url = String;

pub type Meta = Option<String>;

/// The identity of one document: title, location, optional metadata.
/// Structural, never mutated after creation.
pub struct PostId {
    pub title: Title,
    pub url: Url,
    pub meta: Meta,
}

/// The mathematical value of a `PostId`.
pub struct PostIdView {
    pub title: Seq<char>,
    pub url: Seq<char>,
    pub meta: Option<Seq<char>>,
}

impl View for PostId {
    type V = PostIdView;

    open spec fn view(&self) -> PostIdView {
        PostIdView {
            title: self.title@,
            url: self.url@,
            meta: match self.meta {
                Option::None => Option::None,
                Option::Some(m) => Option::Some(m@),
            },
        }
    }
}

impl Clone for PostId {
    fn clone(&self) -> (r: Self)
        ensures
            r@ == self@,
    {
        PostId {
            title: self.title.clone(),
            url: self.url.clone(),
            meta: match &self.meta {
                Option::None => Option::None,
                Option::Some(m) => Option::Some(m.clone()),
            },
        }
    }
}

/// One indexed document: an identity and the filter of its body terms.
pub struct PostFilter {
    pub id: PostId,
    pub filter: ApproximateFilter,
}

/// The mathematical value of a `PostFilter`.
pub struct PostFilterView {
    pub id: PostIdView,
    pub filter: FilterView,
}

impl View for PostFilter {
    type V = PostFilterView;

    open spec fn view(&self) -> PostFilterView {
        PostFilterView { id: self.id@, filter: self.filter@ }
    }
}

pub type Filters = Vec<PostFilter>;

/// Every filter in the sequence is well formed.
pub open spec fn all_wf(fs: Seq<PostFilter>) -> bool {
    forall|i: int| 0 <= i < fs.len() ==> (#[trigger] fs[i]).filter.wf()
}

/// The mathematical value of a filter sequence.
pub open spec fn filters_view(fs: Seq<PostFilter>) -> Seq<PostFilterView> {
    fs.map_values(|p: PostFilter| p@)
}

/// The persisted index: the ordered sequence of indexed documents.
/// Insertion order is kept; it carries no ranking meaning, only determinism.
pub struct Storage {
    pub filters: Filters,
}

impl View for Storage {
    type V = Seq<PostFilterView>;

    open spec fn view(&self) -> Seq<PostFilterView> {
        filters_view(self.filters@)
    }
}

/// One corpus record at build time: an identity and the body text whose
/// terms the filter will hold.
pub struct Document {
    pub id: PostId,
    pub body: String,
}

impl Storage {
    pub open spec fn wf(self) -> bool {
        all_wf(self.filters@)
    }

    /// Indexes a corpus: one filter per document, over the tokens of its
    /// body, in corpus order. Fails exactly when some document's body has
    /// more than `MAX_TERMS` distinct term keys; otherwise every body term
    /// of every document is in that document's filter: no false negatives.
    pub fn build(corpus: &Vec<Document>) -> (r: Result<Storage, ConstructionError>)
        ensures
            match r {
                Ok(s) => {
                    &&& s.wf()
                    &&& s@.len() == corpus@.len()
                    &&& forall|i: int|
                        0 <= i < corpus@.len() ==> (#[trigger] s@[i]).id == corpus@[i].id@
                            && s@[i].filter.wf() && hash_list(tokens_of(corpus@[i].body@)).len()
                            <= MAX_TERMS && (forall|k: int|
                            0 <= k < tokens_of(corpus@[i].body@).len() ==> s@[i].filter.positive()
                                .contains(term_hash(#[trigger] tokens_of(corpus@[i].body@)[k])))
                },
                Err(_) => exists|i: int|
                    0 <= i < corpus@.len() && hash_list(
                        tokens_of((#[trigger] corpus@[i]).body@),
                    ).len() > MAX_TERMS,
            },
    {
        let mut filters: Vec<PostFilter> = Vec::new();
        let n = corpus.len();
        let mut i: usize = 0;
        while i < n
            invariant
                n == corpus@.len(),
                i <= n,
                filters@.len() == i,
                all_wf(filters@),
                forall|j: int|
                    0 <= j < i ==> (#[trigger] filters@[j])@.id == corpus@[j].id@
                        && filters@[j]@.filter.wf() && hash_list(
                        tokens_of(corpus@[j].body@),
                    ).len() <= MAX_TERMS && (forall|k: int|
                        0 <= k < tokens_of(corpus@[j].body@).len() ==> filters@[j]@.filter
                            .positive().contains(
                            term_hash(#[trigger] tokens_of(corpus@[j].body@)[k]),
                        )),
            decreases n - i,
        {
            let terms = tokenize(corpus[i].body.as_str());
            match ApproximateFilter::build(&terms) {
                Ok(f) => {
                    filters.push(PostFilter { id: corpus[i].id.clone(), filter: f });
                },
                Err(e) => {
                    return Err(e);
                },
            }
            i += 1;
        }
        let s = Storage { filters };
        proof {
            assert(s@.len() == corpus@.len());
            assert forall|i2: int| 0 <= i2 < corpus@.len() implies (#[trigger] s@[i2]).id
                == corpus@[i2].id@ && s@[i2].filter.wf() && hash_list(
                tokens_of(corpus@[i2].body@),
            ).len() <= MAX_TERMS && (forall|k: int|
                0 <= k < tokens_of(corpus@[i2].body@).len() ==> s@[i2].filter.positive().contains(
                    term_hash(#[trigger] tokens_of(corpus@[i2].body@)[k]),
                )) by {
                assert(s@[i2] == s.filters@[i2]@);
            }
        }
        Ok(s)
    }
}

} // verus!
