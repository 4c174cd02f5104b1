//! The taxonomy: the label names that count as canonical.
//!
//! A taxonomy is an ordered list of names in which no two are equal ignoring case. It is
//! built once, from the list that the deployment is configured with, and only read after
//! that. Beside each name it keeps the name's case-folded form, by which names are looked up.
//!
//! Case is the case of the ASCII letters: two names are equal ignoring case when they
//! differ at most in that, which is when their folds are equal.

use crate::text::{fold, folded_chars_of, same_chars};
use vstd::prelude::*;

verus! {

/// Whether no two of `labels` are equal ignoring case.
pub open spec fn distinct_ignoring_case(labels: Seq<Seq<char>>) -> bool {
    forall|i: int, j: int|
        0 <= i < j < labels.len() ==> fold(#[trigger] labels[i]) != fold(#[trigger] labels[j])
}

/// Two entries of a list of labels are equal ignoring case: the entry at `second` repeats
/// the one at `first`.
#[derive(Debug, Clone, Copy, PartialEq, Eq)]
pub struct DuplicateLabel {
    pub first: usize,
    pub second: usize,
}

/// An ordered list of canonical label names, distinct ignoring case.
pub struct Taxonomy {
    labels: Vec<String>,
    folded: Vec<Vec<char>>,
}

impl View for Taxonomy {
    type V = Seq<Seq<char>>;

    /// The names, in order, in their canonical casing.
    closed spec fn view(&self) -> Seq<Seq<char>> {
        self.labels.deep_view()
    }
}

impl Taxonomy {
    #[verifier::type_invariant]
    spec fn inv(&self) -> bool {
        &&& self.folded@.len() == self.labels@.len()
        &&& forall|i: int|
            0 <= i < self.labels@.len() ==> (#[trigger] self.folded@[i])@ == fold(self.labels@[i]@)
        &&& distinct_ignoring_case(self.labels.deep_view())
    }

    /// Builds the taxonomy of `labels`, in the order given. Fails if two of them are equal
    /// ignoring case; the error then names the first entry that repeats an earlier one, and
    /// the earliest entry that it repeats.
    pub fn new(labels: Vec<String>) -> (made: Result<Taxonomy, DuplicateLabel>)
        ensures
            match made {
                Ok(taxonomy) => {
                    &&& taxonomy@ == labels.deep_view()
                    &&& distinct_ignoring_case(labels.deep_view())
                },
                Err(dup) => {
                    &&& dup.first < dup.second < labels.len()
                    &&& fold(labels@[dup.first as int]@) == fold(labels@[dup.second as int]@)
                    &&& distinct_ignoring_case(labels.deep_view().take(dup.second as int))
                    &&& forall|k: int|
                        0 <= k < dup.first ==> fold(#[trigger] labels@[k]@) != fold(
                            labels@[dup.second as int]@,
                        )
                },
            },
    {
        let mut folded: Vec<Vec<char>> = Vec::new();
        let mut i: usize = 0;
        while i < labels.len()
            invariant
                i <= labels.len(),
                folded@.len() == i,
                forall|k: int| 0 <= k < i ==> (#[trigger] folded@[k])@ == fold(labels@[k]@),
                distinct_ignoring_case(labels.deep_view().take(i as int)),
            decreases labels.len() - i,
        {
            let next = folded_chars_of(labels[i].as_str());
            let mut k: usize = 0;
            while k < i
                invariant
                    k <= i < labels.len(),
                    folded@.len() == i,
                    next@ == fold(labels@[i as int]@),
                    forall|m: int| 0 <= m < i ==> (#[trigger] folded@[m])@ == fold(labels@[m]@),
                    forall|m: int| 0 <= m < k ==> fold(#[trigger] labels@[m]@) != next@,
                    distinct_ignoring_case(labels.deep_view().take(i as int)),
                decreases i - k,
            {
                if same_chars(&folded[k], &next) {
                    return Err(DuplicateLabel { first: k, second: i });
                }
                k = k + 1;
            }
            folded.push(next);
            proof {
                let now = labels.deep_view().take(i + 1);
                let was = labels.deep_view().take(i as int);
                assert forall|a: int, b: int| 0 <= a < b < now.len() implies fold(
                    #[trigger] now[a],
                ) != fold(#[trigger] now[b]) by {
                    if b < i {
                        assert(was[a] == now[a] && was[b] == now[b]);
                    } else {
                        assert(now[a] == labels@[a]@);
                    }
                }
            }
            i = i + 1;
        }
        proof {
            assert(labels.deep_view().take(i as int) =~= labels.deep_view());
        }
        Ok(Taxonomy { labels, folded })
    }

    /// The number of names.
    pub fn len(&self) -> (n: usize)
        ensures
            n == self@.len(),
    {
        self.labels.len()
    }

    /// The name at index `i`, in its canonical casing, if there is one.
    pub fn get(&self, i: usize) -> (label: Option<&String>)
        ensures
            match label {
                Some(name) => i < self@.len() && name@ == self@[i as int],
                None => i >= self@.len(),
            },
    {
        if i < self.labels.len() {
            Some(&self.labels[i])
        } else {
            None
        }
    }

    /// The case-folded form of the name at index `i`, if there is one.
    pub fn folded(&self, i: usize) -> (form: Option<&Vec<char>>)
        ensures
            match form {
                Some(chars) => i < self@.len() && chars@ == fold(self@[i as int]),
                None => i >= self@.len(),
            },
    {
        proof {
            use_type_invariant(self);
        }
        if i < self.folded.len() {
            Some(&self.folded[i])
        } else {
            None
        }
    }

    /// The index of the name that equals `name` ignoring case, if there is one.
    pub fn position(&self, name: &str) -> (found: Option<usize>)
        ensures
            match found {
                Some(i) => i < self@.len() && fold(self@[i as int]) == fold(name@),
                None => forall|k: int|
                    0 <= k < self@.len() ==> fold(#[trigger] self@[k]) != fold(name@),
            },
    {
        proof {
            use_type_invariant(self);
        }
        let wanted = folded_chars_of(name);
        let mut k: usize = 0;
        while k < self.folded.len()
            invariant
                k <= self.folded@.len() == self.labels@.len(),
                wanted@ == fold(name@),
                forall|m: int|
                    0 <= m < self.labels@.len() ==> (#[trigger] self.folded@[m])@ == fold(
                        self.labels@[m]@,
                    ),
                forall|m: int| 0 <= m < k ==> fold(#[trigger] self@[m]) != fold(name@),
            decreases self.folded@.len() - k,
        {
            if same_chars(&self.folded[k], &wanted) {
                return Some(k);
            }
            k = k + 1;
        }
        None
    }

    /// The canonical casing of `name`, if the taxonomy holds it in some casing.
    pub fn canonical(&self, name: &str) -> (label: Option<&String>)
        ensures
            match label {
                Some(entry) => exists|i: int|
                    0 <= i < self@.len() && #[trigger] self@[i] == entry@ && fold(entry@) == fold(
                        name@,
                    ),
                None => forall|k: int|
                    0 <= k < self@.len() ==> fold(#[trigger] self@[k]) != fold(name@),
            },
    {
        match self.position(name) {
            Some(i) => self.get(i),
            None => None,
        }
    }

    /// The names, in order, in their canonical casing. No two are equal ignoring case.
    pub fn labels(&self) -> (all: &Vec<String>)
        ensures
            all.deep_view() == self@,
            distinct_ignoring_case(self@),
    {
        proof {
            use_type_invariant(self);
        }
        &self.labels
    }
}

} // verus!
