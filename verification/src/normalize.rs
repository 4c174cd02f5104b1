//! Turning candidates into labels.
//!
//! The candidates are case-folded and become the first fragments. The names of the taxonomy
//! are then looked for in the fragments, the longest names first and names of one length in
//! the order of the taxonomy. A name that is found is a hit, and every occurrence of it is cut
//! out of every fragment, which leaves the text before, between and after the occurrences as
//! fragments of their own: so a name inside a longer name is not found where the longer one
//! was, and a name that is given twice is found once.
//! The labels are the names that were hit, in the order of the taxonomy and in their
//! canonical casing, then what is left of the fragments, trimmed; of labels that are equal
//! ignoring case only the first stays.
//!
//! A name is looked for within one fragment at a time, never across two candidates, and an
//! empty name is never looked for. Case is the case of the ASCII letters throughout.

use crate::extract::piece;
use crate::laws::{among, is_folded, lemma_canonical_casing, lemma_normalized_labels};
use crate::taxonomy::{distinct_ignoring_case, Taxonomy};
use crate::text::{
    contains, copy_range, find_from, first_index, fold, folded_chars_of, lemma_first_index,
    lemma_rows_view, occurs_at, same_chars, string_of, trim_range,
};
use vstd::prelude::*;

verus! {

/// Whether one of `fragments` holds `needle`.
pub open spec fn holds(fragments: Seq<Seq<char>>, needle: Seq<char>) -> bool {
    exists|k: int| 0 <= k < fragments.len() && contains(#[trigger] fragments[k], needle)
}

/// What is left of `text` when every occurrence of `needle` is cut out of it: the text
/// before the first occurrence, then what is left of the text after it in the same way.
/// The occurrences are taken from left to right and do not overlap. An empty needle cuts
/// nothing out.
pub open spec fn cut_out(text: Seq<char>, needle: Seq<char>) -> Seq<Seq<char>>
    decreases text.len(),
{
    if needle.len() > 0 && contains(text, needle) && 0 <= first_index(text, needle)
        <= text.len() - needle.len() {
        let at = first_index(text, needle);
        seq![text.take(at)] + cut_out(text.skip(at + needle.len()), needle)
    } else {
        seq![text]
    }
}

/// `fragments` with every occurrence of `needle` cut out of each: a fragment gives way to
/// what is left of it, in the same place.
pub open spec fn masked(fragments: Seq<Seq<char>>, needle: Seq<char>) -> Seq<Seq<char>>
    decreases fragments.len(),
{
    if fragments.len() == 0 {
        Seq::empty()
    } else {
        masked(fragments.drop_last(), needle) + cut_out(fragments.last(), needle)
    }
}

/// Appends to `out` what is left of `text` when every occurrence of `needle` is cut out of
/// it, and says whether there was one.
pub fn cut_out_into(text: &Vec<char>, needle: &Vec<char>, out: &mut Vec<Vec<char>>) -> (hit: bool)
    ensures
        hit == contains(text@, needle@),
        final(out).deep_view() == old(out).deep_view() + cut_out(text@, needle@),
{
    let ghost before = out.deep_view();
    let ghost whole = cut_out(text@, needle@);
    let len = text.len();
    let n = needle.len();
    if n == 0 {
        out.push(copy_range(text, 0, len));
        proof {
            lemma_rows_view(*out);
            lemma_rows_view(*old(out));
            assert(text@.subrange(0, len as int) =~= text@);
            assert(out.deep_view() =~= before + seq![text@]);
            assert(occurs_at(text@, needle@, 0)) by {
                assert(text@.subrange(0, 0) =~= needle@);
            }
        }
        return true;
    }
    let mut pos: usize = 0;
    let mut hit = false;
    let mut done = false;
    proof {
        assert(text@.skip(0) =~= text@);
    }
    while !done
        invariant
            n == needle@.len(),
            n > 0,
            len == text@.len(),
            pos <= len,
            hit ==> contains(text@, needle@),
            !hit ==> pos == 0,
            done ==> hit == contains(text@, needle@),
            !done ==> out.deep_view() + cut_out(text@.skip(pos as int), needle@) == before
                + whole,
            done ==> out.deep_view() == before + whole,
        decreases len - pos + (if done { 0int } else { 1int }),
    {
        let ghost held = out.deep_view();
        let ghost rest = text@.skip(pos as int);
        match find_from(text, needle, pos) {
            None => {
                out.push(copy_range(text, pos, len));
                proof {
                    lemma_rows_view(*out);
                    assert(rest =~= text@.subrange(pos as int, len as int));
                    assert(out.deep_view() =~= held + seq![rest]);
                    assert(!contains(rest, needle@)) by {
                        if contains(rest, needle@) {
                            let i = choose|i: int| occurs_at(rest, needle@, i);
                            lemma_occurs_after(text@, needle@, pos as int, i);
                        }
                    }
                }
                done = true;
            },
            Some(at) => {
                out.push(copy_range(text, pos, at));
                proof {
                    lemma_rows_view(*out);
                    assert(occurs_at(text@, needle@, at as int));
                    lemma_occurs_after(text@, needle@, pos as int, at - pos);
                    assert forall|j: int| 0 <= j < at - pos implies !occurs_at(
                        rest,
                        needle@,
                        j,
                    ) by {
                        lemma_occurs_after(text@, needle@, pos as int, j);
                    }
                    lemma_first_index(rest, needle@, at - pos);
                    assert(rest.take(at - pos) =~= text@.subrange(pos as int, at as int));
                    assert(rest.skip(at - pos + n) =~= text@.skip(at + n));
                    let head = seq![rest.take(at - pos)];
                    let tail = cut_out(text@.skip(at + n), needle@);
                    assert(out.deep_view() =~= held + head);
                    assert((held + head) + tail =~= held + (head + tail));
                }
                hit = true;
                pos = at + n;
            },
        }
    }
    hit
}

/// Cuts every occurrence of `needle` out of `fragments`, and says whether there was one.
pub fn mask(fragments: &mut Vec<Vec<char>>, needle: &Vec<char>) -> (hit: bool)
    ensures
        hit == holds(old(fragments).deep_view(), needle@),
        final(fragments).deep_view() == masked(old(fragments).deep_view(), needle@),
{
    let ghost before = fragments.deep_view();
    let mut out: Vec<Vec<char>> = Vec::new();
    let mut hit = false;
    let mut k: usize = 0;
    proof {
        assert(out.deep_view() =~= masked(before.take(0), needle@));
    }
    while k < fragments.len()
        invariant
            k <= fragments.len(),
            fragments.deep_view() == before,
            before == old(fragments).deep_view(),
            out.deep_view() == masked(before.take(k as int), needle@),
            hit == holds(before.take(k as int), needle@),
        decreases fragments.len() - k,
    {
        proof {
            lemma_rows_view(*fragments);
            assert(before.take(k + 1).drop_last() =~= before.take(k as int));
            assert(before.take(k + 1).last() == fragments@[k as int]@);
        }
        let found = cut_out_into(&fragments[k], needle, &mut out);
        proof {
            let front = before.take(k as int);
            let now = before.take(k + 1);
            if holds(front, needle@) {
                let w = choose|w: int| 0 <= w < front.len() && contains(#[trigger] front[w], needle@);
                assert(now[w] == front[w]);
            }
            if found {
                assert(contains(now[k as int], needle@));
            }
            if holds(now, needle@) {
                let w = choose|w: int| 0 <= w < now.len() && contains(#[trigger] now[w], needle@);
                if w < k {
                    assert(front[w] == now[w]);
                }
            }
        }
        hit = hit || found;
        k = k + 1;
    }
    proof {
        assert(before.take(k as int) =~= before);
    }
    *fragments = out;
    hit
}

/// Cutting out a needle that no fragment holds changes nothing.
pub proof fn lemma_masked_idle(fragments: Seq<Seq<char>>, needle: Seq<char>)
    requires
        !holds(fragments, needle),
    ensures
        masked(fragments, needle) == fragments,
    decreases fragments.len(),
{
    if fragments.len() > 0 {
        let front = fragments.drop_last();
        assert(!contains(fragments[fragments.len() - 1], needle));
        if holds(front, needle) {
            let k = choose|k: int| 0 <= k < front.len() && contains(#[trigger] front[k], needle);
            assert(fragments[k] == front[k]);
        }
        lemma_masked_idle(front, needle);
        assert(front + seq![fragments.last()] =~= fragments);
    } else {
        assert(masked(fragments, needle) =~= fragments);
    }
}

/// Where `needle` stands in the text after the first `from` characters of `text` is where it
/// stands in `text`, `from` places further on.
pub proof fn lemma_occurs_after(text: Seq<char>, needle: Seq<char>, from: int, i: int)
    requires
        0 <= from <= text.len(),
        0 <= i,
    ensures
        occurs_at(text.skip(from), needle, i) == occurs_at(text, needle, from + i),
{
    if i + needle.len() <= text.len() - from {
        assert(text.skip(from).subrange(i, i + needle.len()) =~= text.subrange(
            from + i,
            from + i + needle.len(),
        ));
    }
}

/// How far the search has come: the fragments that are left, and for each name of the
/// taxonomy whether it was hit.
pub struct Progress {
    pub fragments: Seq<Seq<char>>,
    pub hits: Seq<bool>,
}

/// The progress before any name was looked for.
pub open spec fn start(candidates: Seq<Seq<char>>, taxonomy: Seq<Seq<char>>) -> Progress {
    Progress {
        fragments: candidates.map_values(|c: Seq<char>| fold(c)),
        hits: Seq::new(taxonomy.len(), |i: int| false),
    }
}

/// The progress after the name at index `i` was looked for, if its length is `len`.
pub open spec fn tried(taxonomy: Seq<Seq<char>>, state: Progress, len: nat, i: int) -> Progress {
    let needle = fold(taxonomy[i]);
    if taxonomy[i].len() == len && holds(state.fragments, needle) {
        Progress { fragments: masked(state.fragments, needle), hits: state.hits.update(i, true) }
    } else {
        state
    }
}

/// The progress after the names of length `len` from index `from` on were looked for, in
/// order.
pub open spec fn pass(taxonomy: Seq<Seq<char>>, state: Progress, len: nat, from: int) -> Progress
    decreases taxonomy.len() - from,
{
    if from < 0 || from >= taxonomy.len() {
        state
    } else {
        pass(taxonomy, tried(taxonomy, state, len, from), len, from + 1)
    }
}

/// The progress after the names of length `len` were looked for, then those of each smaller
/// length down to 1.
pub open spec fn passes(taxonomy: Seq<Seq<char>>, state: Progress, len: nat) -> Progress
    decreases len,
{
    if len == 0 {
        state
    } else {
        passes(taxonomy, pass(taxonomy, state, len, 0), (len - 1) as nat)
    }
}

/// The length of the longest name.
pub open spec fn longest(taxonomy: Seq<Seq<char>>) -> nat
    decreases taxonomy.len(),
{
    if taxonomy.len() == 0 {
        0
    } else {
        let rest = longest(taxonomy.drop_last());
        if taxonomy.last().len() > rest {
            taxonomy.last().len()
        } else {
            rest
        }
    }
}

/// The names among the first `n` that were hit, in the order of the taxonomy.
pub open spec fn chosen(taxonomy: Seq<Seq<char>>, hits: Seq<bool>, n: nat) -> Seq<Seq<char>>
    decreases n,
{
    if n == 0 {
        Seq::empty()
    } else {
        chosen(taxonomy, hits, (n - 1) as nat) + (if hits[n - 1] {
            seq![taxonomy[n - 1]]
        } else {
            Seq::empty()
        })
    }
}

/// What is left of `fragments`: each one trimmed, without those that are then empty.
pub open spec fn leftovers(fragments: Seq<Seq<char>>) -> Seq<Seq<char>>
    decreases fragments.len(),
{
    if fragments.len() == 0 {
        Seq::empty()
    } else {
        leftovers(fragments.drop_last()) + piece(fragments.last())
    }
}

/// Whether one of `labels` equals `label` ignoring case.
pub open spec fn seen(labels: Seq<Seq<char>>, label: Seq<char>) -> bool {
    exists|j: int| 0 <= j < labels.len() && fold(#[trigger] labels[j]) == fold(label)
}

/// `labels` without those that equal an earlier one ignoring case.
pub open spec fn dedup(labels: Seq<Seq<char>>) -> Seq<Seq<char>>
    decreases labels.len(),
{
    if labels.len() == 0 {
        Seq::empty()
    } else {
        let kept = dedup(labels.drop_last());
        if seen(kept, labels.last()) {
            kept
        } else {
            kept.push(labels.last())
        }
    }
}

/// The labels that `candidates` give under `taxonomy`.
pub open spec fn normalized(candidates: Seq<Seq<char>>, taxonomy: Seq<Seq<char>>) -> Seq<
    Seq<char>,
> {
    let end = passes(taxonomy, start(candidates, taxonomy), longest(taxonomy));
    dedup(chosen(taxonomy, end.hits, taxonomy.len()) + leftovers(end.fragments))
}

/// The case-folded form of each of `candidates`.
pub fn fold_all(candidates: &Vec<String>) -> (forms: Vec<Vec<char>>)
    ensures
        forms.deep_view() == candidates.deep_view().map_values(|c: Seq<char>| fold(c)),
{
    let mut forms: Vec<Vec<char>> = Vec::new();
    let mut i: usize = 0;
    while i < candidates.len()
        invariant
            i <= candidates.len(),
            forms@.len() == i,
            forall|k: int| 0 <= k < i ==> (#[trigger] forms@[k])@ == fold(candidates@[k]@),
        decreases candidates.len() - i,
    {
        forms.push(folded_chars_of(candidates[i].as_str()));
        i = i + 1;
    }
    proof {
        lemma_rows_view(forms);
        assert(forms.deep_view() =~= candidates.deep_view().map_values(|c: Seq<char>| fold(c)));
    }
    forms
}

/// The length of the longest name of `taxonomy`.
pub fn longest_name(taxonomy: &Taxonomy) -> (top: usize)
    ensures
        top == longest(taxonomy@),
{
    let n = taxonomy.len();
    let mut top: usize = 0;
    let mut i: usize = 0;
    while i < n
        invariant
            i <= n == taxonomy@.len(),
            top == longest(taxonomy@.take(i as int)),
        decreases n - i,
    {
        match taxonomy.folded(i) {
            Some(form) => {
                proof {
                    assert(taxonomy@.take(i + 1).drop_last() =~= taxonomy@.take(i as int));
                }
                if form.len() > top {
                    top = form.len();
                }
            },
            None => {},
        }
        i = i + 1;
    }
    proof {
        assert(taxonomy@.take(n as int) =~= taxonomy@);
    }
    top
}

/// Looks for the names of `taxonomy` in `fragments`: those of length `top` first, then
/// those of each smaller length; cuts out what it finds and sets the hit of its name.
pub fn search(
    taxonomy: &Taxonomy,
    fragments: &mut Vec<Vec<char>>,
    hits: &mut Vec<bool>,
    top: usize,
)
    requires
        old(hits)@.len() == taxonomy@.len(),
    ensures
        final(hits)@.len() == taxonomy@.len(),
        (Progress { fragments: final(fragments).deep_view(), hits: final(hits)@ }) == passes(
            taxonomy@,
            (Progress { fragments: old(fragments).deep_view(), hits: old(hits)@ }),
            top as nat,
        ),
{
    let n = taxonomy.len();
    let ghost goal = passes(
        taxonomy@,
        (Progress { fragments: fragments.deep_view(), hits: hits@ }),
        top as nat,
    );
    let mut len: usize = top;
    while len > 0
        invariant
            n == taxonomy@.len() == hits@.len(),
            passes(
                taxonomy@,
                (Progress { fragments: fragments.deep_view(), hits: hits@ }),
                len as nat,
            ) == goal,
        decreases len,
    {
        let ghost round = pass(
            taxonomy@,
            (Progress { fragments: fragments.deep_view(), hits: hits@ }),
            len as nat,
            0,
        );
        let mut i: usize = 0;
        while i < n
            invariant
                i <= n == taxonomy@.len() == hits@.len(),
                pass(
                    taxonomy@,
                    (Progress { fragments: fragments.deep_view(), hits: hits@ }),
                    len as nat,
                    i as int,
                ) == round,
            decreases n - i,
        {
            match taxonomy.folded(i) {
                Some(needle) => {
                    if needle.len() == len {
                        proof {
                            if !holds(fragments.deep_view(), needle@) {
                                lemma_masked_idle(fragments.deep_view(), needle@);
                            }
                        }
                        if mask(fragments, needle) {
                            hits.set(i, true);
                        }
                    }
                },
                None => {},
            }
            i = i + 1;
        }
        len = len - 1;
    }
}

/// The names of `taxonomy` whose hit is set, in order and in their canonical casing.
pub fn hit_names(taxonomy: &Taxonomy, hits: &Vec<bool>) -> (names: Vec<String>)
    requires
        hits@.len() == taxonomy@.len(),
    ensures
        names.deep_view() == chosen(taxonomy@, hits@, taxonomy@.len()),
{
    let n = taxonomy.len();
    let mut names: Vec<String> = Vec::new();
    let mut i: usize = 0;
    while i < n
        invariant
            i <= n == taxonomy@.len() == hits@.len(),
            names.deep_view() == chosen(taxonomy@, hits@, i as nat),
        decreases n - i,
    {
        let ghost held = names.deep_view();
        if hits[i] {
            match taxonomy.get(i) {
                Some(name) => {
                    let copy = name.clone();
                    names.push(copy);
                    proof {
                        assert(names.deep_view() =~= held + seq![taxonomy@[i as int]]);
                    }
                },
                None => {},
            }
        } else {
            proof {
                assert(held + Seq::<Seq<char>>::empty() =~= held);
            }
        }
        i = i + 1;
    }
    names
}

/// Appends to `out` what is left of `fragments`.
pub fn leftovers_into(fragments: &Vec<Vec<char>>, out: &mut Vec<String>)
    ensures
        final(out).deep_view() == old(out).deep_view() + leftovers(fragments.deep_view()),
{
    let ghost before = out.deep_view();
    let ghost all = fragments.deep_view();
    let mut k: usize = 0;
    proof {
        assert(before + leftovers(all.take(0)) =~= before);
    }
    while k < fragments.len()
        invariant
            k <= fragments.len(),
            all == fragments.deep_view(),
            out.deep_view() == before + leftovers(all.take(k as int)),
        decreases fragments.len() - k,
    {
        let ghost held = out.deep_view();
        let fragment = &fragments[k];
        let (a, b) = trim_range(fragment, 0, fragment.len());
        proof {
            lemma_rows_view(*fragments);
            assert(fragment@.subrange(0, fragment@.len() as int) =~= fragment@);
            assert(all.take(k + 1).drop_last() =~= all.take(k as int));
            assert(all.take(k + 1).last() == fragment@);
        }
        if a < b {
            let text = string_of(fragment, a, b);
            out.push(text);
            proof {
                assert(out.deep_view() =~= held + seq![text@]);
                assert(piece(fragment@) =~= seq![text@]);
                assert(before + (leftovers(all.take(k as int)) + piece(fragment@)) =~= held
                    + piece(fragment@));
            }
        } else {
            proof {
                assert(piece(fragment@) =~= Seq::<Seq<char>>::empty());
                assert(before + (leftovers(all.take(k as int)) + piece(fragment@)) =~= held);
            }
        }
        k = k + 1;
    }
    proof {
        assert(all.take(fragments@.len() as int) =~= all);
    }
}

/// Whether one of `forms` holds the characters of `form`.
pub fn holds_form(forms: &Vec<Vec<char>>, form: &Vec<char>) -> (held: bool)
    ensures
        held == exists|j: int| 0 <= j < forms@.len() && (#[trigger] forms@[j])@ == form@,
{
    let mut k: usize = 0;
    while k < forms.len()
        invariant
            k <= forms.len(),
            forall|j: int| 0 <= j < k ==> (#[trigger] forms@[j])@ != form@,
        decreases forms.len() - k,
    {
        if same_chars(&forms[k], form) {
            return true;
        }
        k = k + 1;
    }
    false
}

/// Leaves out of `labels` each one that equals an earlier one ignoring case.
pub fn dedup_labels(labels: &Vec<String>) -> (out: Vec<String>)
    ensures
        out.deep_view() == dedup(labels.deep_view()),
{
    let ghost all = labels.deep_view();
    let mut out: Vec<String> = Vec::new();
    let mut forms: Vec<Vec<char>> = Vec::new();
    let mut i: usize = 0;
    proof {
        assert(out.deep_view() =~= dedup(all.take(0)));
    }
    while i < labels.len()
        invariant
            i <= labels.len(),
            all == labels.deep_view(),
            out.deep_view() == dedup(all.take(i as int)),
            forms@.len() == out@.len(),
            forall|k: int| 0 <= k < out@.len() ==> (#[trigger] forms@[k])@ == fold(out@[k]@),
        decreases labels.len() - i,
    {
        let ghost held = out.deep_view();
        let form = folded_chars_of(labels[i].as_str());
        let dup = holds_form(&forms, &form);
        proof {
            assert(all.take(i + 1).drop_last() =~= all.take(i as int));
            assert(all.take(i + 1).last() == labels@[i as int]@);
            if dup {
                let j = choose|j: int| 0 <= j < forms@.len() && (#[trigger] forms@[j])@ == form@;
                assert(fold(held[j]) == fold(labels@[i as int]@));
            } else {
                assert forall|j: int| 0 <= j < held.len() implies fold(#[trigger] held[j])
                    != fold(labels@[i as int]@) by {
                    assert(forms@[j]@ == fold(out@[j]@));
                }
            }
            assert(dup == seen(held, labels@[i as int]@));
        }
        if !dup {
            let copy = labels[i].clone();
            out.push(copy);
            forms.push(form);
            proof {
                assert(out.deep_view() =~= held.push(labels@[i as int]@));
            }
        }
        i = i + 1;
    }
    proof {
        assert(all.take(labels@.len() as int) =~= all);
    }
    out
}

/// Returns the labels that `candidates` give under `taxonomy`: the names of the taxonomy
/// that are found in the candidates ignoring case, in the order and the casing of the
/// taxonomy, then what the candidates hold besides, trimmed and in lower case. A longer name
/// is looked for before a shorter one, and where a name was found no other is. No two of the
/// labels are equal ignoring case.
///
/// Case is the case of the ASCII letters only: `A` to `Z` are folded to `a` to `z`, and any
/// other character is left as it is. So `ÉTÉ` comes back as `ÉtÉ`, and is not taken for
/// `été`.
pub fn normalize(candidates: &Vec<String>, taxonomy: &Taxonomy) -> (labels: Vec<String>)
    ensures
        labels.deep_view() == normalized(candidates.deep_view(), taxonomy@),
        distinct_ignoring_case(labels.deep_view()),
        forall|j: int|
            0 <= j < labels.deep_view().len() ==> {
                let label = #[trigger] labels.deep_view()[j];
                among(taxonomy@, label) || (is_folded(label) && label.len() > 0)
            },
        forall|j: int, i: int|
            0 <= j < labels.deep_view().len() && 0 <= i < taxonomy@.len() && fold(
                #[trigger] labels.deep_view()[j],
            ) == fold(#[trigger] taxonomy@[i]) ==> labels.deep_view()[j] == taxonomy@[i],
{
    let _ = taxonomy.labels();
    proof {
        let given = candidates.deep_view();
        lemma_normalized_labels(given, taxonomy@);
        assert forall|j: int, i: int|
            0 <= j < normalized(given, taxonomy@).len() && 0 <= i < taxonomy@.len() && fold(
                #[trigger] normalized(given, taxonomy@)[j],
            ) == fold(#[trigger] taxonomy@[i]) implies normalized(given, taxonomy@)[j]
            == taxonomy@[i] by {
            lemma_canonical_casing(given, taxonomy@, j, i);
        }
    }
    let mut fragments = fold_all(candidates);
    let mut hits: Vec<bool> = Vec::new();
    let n = taxonomy.len();
    let mut i: usize = 0;
    while i < n
        invariant
            i <= n,
            hits@ == Seq::new(i as nat, |k: int| false),
        decreases n - i,
    {
        hits.push(false);
        proof {
            assert(hits@ =~= Seq::new((i + 1) as nat, |k: int| false));
        }
        i = i + 1;
    }
    let top = longest_name(taxonomy);
    search(taxonomy, &mut fragments, &mut hits, top);
    let mut found = hit_names(taxonomy, &hits);
    leftovers_into(&fragments, &mut found);
    dedup_labels(&found)
}

} // verus!
