//! What holds of the labels that normalization gives, for every taxonomy and every input.
//!
//! - `lemma_upper_case_name`: a name of the taxonomy, given in upper case, comes back in its
//!   canonical casing.
//! - `lemma_normalized_labels`: no two labels are equal ignoring case, and each is a name of
//!   the taxonomy or a text in lower case that is not empty.
//! - `lemma_canonical_casing`: a label that equals a name ignoring case is that name.
//! - `lemma_unknown_passes_through`: a candidate that holds no name comes back trimmed and
//!   in lower case.
//! - `lemma_dedup`: what dropping the repeated labels keeps.
//! - `lemma_masked_clean`: a name that was cut out is held by no fragment any more.
//!
//! The other lemmas lead up to these.

use crate::extract::piece;
use crate::normalize::{
    chosen, cut_out, dedup, holds, leftovers, longest, masked, normalized, pass, passes, seen,
    start, tried, Progress,
};
use crate::taxonomy::distinct_ignoring_case;
use crate::text::{
    contains, first_index, fold, lemma_contains_first, lemma_first_index, occurs_at, trim_end,
    trim_start, trimmed, upper, white_space,
};
use vstd::prelude::*;

verus! {

/// Whether `label` is one of `labels`.
pub open spec fn among(labels: Seq<Seq<char>>, label: Seq<char>) -> bool {
    exists|j: int| 0 <= j < labels.len() && #[trigger] labels[j] == label
}

/// Whether `s` is in lower case: folding leaves it as it is.
pub open spec fn is_folded(s: Seq<char>) -> bool {
    fold(s) == s
}

/// A candidate that is a name of the taxonomy in upper case gives that name, in its
/// canonical casing, and nothing else. This holds of every name that is not empty: an
/// empty name is never looked for.
pub proof fn lemma_upper_case_name(taxonomy: Seq<Seq<char>>, i: int)
    requires
        distinct_ignoring_case(taxonomy),
        0 <= i < taxonomy.len(),
        taxonomy[i].len() > 0,
    ensures
        normalized(seq![upper(taxonomy[i])], taxonomy) == seq![taxonomy[i]],
{
    let name = taxonomy[i];
    let form = fold(name);
    let n = name.len();
    let first = start(seq![upper(name)], taxonomy);
    let none = Seq::new(taxonomy.len(), |k: int| false);
    lemma_fold_upper(name);
    assert(first.fragments =~= seq![form]);
    assert(first.hits == none);
    lemma_longest(taxonomy, i);
    assert(all_shorter(first.fragments, n + 1));
    lemma_passes_skip(taxonomy, first, longest(taxonomy), n);

    // The pass for the length of the name: nothing before the name is held.
    assert forall|j: int| 0 <= j < i && (#[trigger] taxonomy[j]).len() == n implies !holds(
        first.fragments,
        fold(taxonomy[j]),
    ) by {
        lemma_fold_upper(taxonomy[j]);
        if holds(first.fragments, fold(taxonomy[j])) {
            let k = choose|k: int|
                0 <= k < first.fragments.len() && contains(
                    #[trigger] first.fragments[k],
                    fold(taxonomy[j]),
                );
            lemma_contains_length(first.fragments[k], fold(taxonomy[j]));
            assert(fold(taxonomy[j]) == fold(taxonomy[i]));
        }
    }
    lemma_pass_idle(taxonomy, first, n, 0, i);

    // The name itself is held, at the start of the only fragment.
    assert(form.subrange(0, n as int) =~= form);
    assert(occurs_at(form, form, 0));
    lemma_first_index(form, form, 0);
    assert(contains(first.fragments[0], form));
    let cut = Progress {
        fragments: seq![Seq::<char>::empty(), Seq::<char>::empty()],
        hits: none.update(i, true),
    };
    assert(masked(first.fragments, form) =~= cut.fragments) by {
        let empty = Seq::<char>::empty();
        assert(first.fragments.drop_last() =~= Seq::<Seq<char>>::empty());
        assert(masked(Seq::<Seq<char>>::empty(), form) =~= Seq::<Seq<char>>::empty());
        assert(first.fragments.last() == form);
        assert(form.take(0) =~= empty);
        assert(form.skip(0 + form.len() as int) =~= empty);
        assert(!contains(empty, form)) by {
            if contains(empty, form) {
                lemma_contains_length(empty, form);
            }
        }
        assert(cut_out(empty, form) =~= seq![empty]);
        assert(cut_out(form, form) =~= seq![empty] + seq![empty]);
    }
    assert(tried(taxonomy, first, n, i) == cut);

    // Nothing is held by empty fragments.
    assert(all_shorter(cut.fragments, 1));
    assert forall|j: int|
        i + 1 <= j < taxonomy.len() && (#[trigger] taxonomy[j]).len() == n implies !holds(
        cut.fragments,
        fold(taxonomy[j]),
    ) by {
        lemma_fold_upper(taxonomy[j]);
        assert(all_shorter(cut.fragments, fold(taxonomy[j]).len()));
        lemma_shorter_holds_nothing(cut.fragments, fold(taxonomy[j]));
    }
    lemma_pass_idle(taxonomy, cut, n, i + 1, taxonomy.len() as int);
    assert(pass(taxonomy, first, n, 0) == cut);
    lemma_passes_skip(taxonomy, cut, (n - 1) as nat, 0);
    assert(passes(taxonomy, first, longest(taxonomy)) == cut);

    lemma_chosen_single(taxonomy, i, taxonomy.len());
    let empty = Seq::<char>::empty();
    assert(leftovers(cut.fragments) =~= Seq::<Seq<char>>::empty()) by {
        assert(trimmed(empty) =~= empty);
        assert(piece(empty) =~= Seq::<Seq<char>>::empty());
        assert(cut.fragments.drop_last() =~= seq![empty]);
        assert(seq![empty].drop_last() =~= Seq::<Seq<char>>::empty());
        assert(leftovers(Seq::<Seq<char>>::empty()) =~= Seq::<Seq<char>>::empty());
        assert(seq![empty].last() == empty);
        assert(leftovers(seq![empty]) =~= Seq::<Seq<char>>::empty());
        assert(cut.fragments.last() == empty);
    }
    let found = seq![name];
    assert(chosen(taxonomy, cut.hits, taxonomy.len()) + leftovers(cut.fragments) =~= found);
    assert(dedup(found) =~= found) by {
        assert(found.drop_last() =~= Seq::<Seq<char>>::empty());
        assert(dedup(found.drop_last()) =~= Seq::<Seq<char>>::empty());
        assert(!seen(Seq::<Seq<char>>::empty(), name));
    }
}

/// A candidate that holds no name of the taxonomy is passed through: it comes back in
/// lower case and trimmed, as the only label, or not at all if it is empty then.
pub proof fn lemma_unknown_passes_through(candidate: Seq<char>, taxonomy: Seq<Seq<char>>)
    requires
        forall|j: int|
            0 <= j < taxonomy.len() && (#[trigger] taxonomy[j]).len() > 0 ==> !contains(
                fold(candidate),
                fold(taxonomy[j]),
            ),
    ensures
        normalized(seq![candidate], taxonomy) == piece(fold(candidate)),
{
    let first = start(seq![candidate], taxonomy);
    let form = fold(candidate);
    assert(first.fragments =~= seq![form]);
    assert forall|j: int|
        0 <= j < taxonomy.len() && (#[trigger] taxonomy[j]).len() > 0 implies !holds(
        first.fragments,
        fold(taxonomy[j]),
    ) by {
        if holds(first.fragments, fold(taxonomy[j])) {
            let k = choose|k: int|
                0 <= k < first.fragments.len() && contains(
                    #[trigger] first.fragments[k],
                    fold(taxonomy[j]),
                );
            assert(first.fragments[k] == form);
        }
    }
    lemma_passes_idle(taxonomy, first, longest(taxonomy));
    lemma_chosen_none(taxonomy, taxonomy.len());
    let rest = leftovers(first.fragments);
    assert(rest =~= piece(form)) by {
        assert(first.fragments.drop_last() =~= Seq::<Seq<char>>::empty());
        assert(leftovers(Seq::<Seq<char>>::empty()) =~= Seq::<Seq<char>>::empty());
        assert(first.fragments.last() == form);
    }
    let all = Seq::<Seq<char>>::empty() + rest;
    assert(all =~= piece(form));
    assert(dedup(piece(form)) =~= piece(form)) by {
        let p = piece(form);
        assert(dedup(Seq::<Seq<char>>::empty()) =~= Seq::<Seq<char>>::empty());
        if p.len() > 0 {
            assert(p.drop_last() =~= Seq::<Seq<char>>::empty());
            assert(!seen(Seq::<Seq<char>>::empty(), p.last()));
        }
    }
}

/// No two labels that normalization gives are equal ignoring case, and each of them is a
/// name of the taxonomy, in its canonical casing, or a text in lower case that is not empty.
pub proof fn lemma_normalized_labels(candidates: Seq<Seq<char>>, taxonomy: Seq<Seq<char>>)
    ensures
        distinct_ignoring_case(normalized(candidates, taxonomy)),
        forall|j: int|
            0 <= j < normalized(candidates, taxonomy).len() ==> {
                let label = #[trigger] normalized(candidates, taxonomy)[j];
                among(taxonomy, label) || (is_folded(label) && label.len() > 0)
            },
{
    let first = start(candidates, taxonomy);
    let end = passes(taxonomy, first, longest(taxonomy));
    let names = chosen(taxonomy, end.hits, taxonomy.len());
    let rest = leftovers(end.fragments);
    let out = normalized(candidates, taxonomy);
    assert forall|k: int| 0 <= k < first.fragments.len() implies is_folded(
        #[trigger] first.fragments[k],
    ) by {
        lemma_fold_upper(candidates[k]);
    }
    lemma_passes_folded(taxonomy, first, longest(taxonomy));
    lemma_leftovers_folded(end.fragments);
    lemma_chosen_among(taxonomy, end.hits, taxonomy.len());
    lemma_dedup(names + rest);
    assert forall|j: int| 0 <= j < out.len() implies {
        let label = #[trigger] out[j];
        among(taxonomy, label) || (is_folded(label) && label.len() > 0)
    } by {
        assert(among(names + rest, out[j]));
        let w = choose|w: int| 0 <= w < (names + rest).len() && #[trigger] (names + rest)[w] == out[j];
        if w < names.len() {
            assert((names + rest)[w] == names[w]);
        } else {
            assert((names + rest)[w] == rest[w - names.len()]);
        }
    }
}

/// A label that equals a name of the taxonomy ignoring case is that name, in its canonical
/// casing: no casing of a name is given but the canonical one.
pub proof fn lemma_canonical_casing(
    candidates: Seq<Seq<char>>,
    taxonomy: Seq<Seq<char>>,
    j: int,
    i: int,
)
    requires
        distinct_ignoring_case(taxonomy),
        0 <= j < normalized(candidates, taxonomy).len(),
        0 <= i < taxonomy.len(),
        fold(normalized(candidates, taxonomy)[j]) == fold(taxonomy[i]),
    ensures
        normalized(candidates, taxonomy)[j] == taxonomy[i],
{
    let first = start(candidates, taxonomy);
    let end = passes(taxonomy, first, longest(taxonomy));
    let names = chosen(taxonomy, end.hits, taxonomy.len());
    let rest = leftovers(end.fragments);
    let all = names + rest;
    let label = normalized(candidates, taxonomy)[j];
    let w = lemma_dedup_first(all, j);
    lemma_passes_refine(taxonomy, first, longest(taxonomy));
    if w >= names.len() {
        // The label was left over: then the name was hit, and stands before the label.
        let left = rest[w - names.len()];
        assert(all[w] == left);
        assert forall|k: int| 0 <= k < first.fragments.len() implies is_folded(
            #[trigger] first.fragments[k],
        ) by {
            lemma_fold_upper(candidates[k]);
        }
        lemma_passes_folded(taxonomy, first, longest(taxonomy));
        lemma_leftovers_folded(end.fragments);
        lemma_leftovers_covered(end.fragments);
        lemma_fold_upper(taxonomy[i]);
        lemma_fold_upper(left);
        assert(is_folded(left) && left.len() > 0);
        assert(left == fold(taxonomy[i]));
        lemma_longest(taxonomy, i);
        lemma_passes_hit(taxonomy, first, longest(taxonomy), i);
        lemma_chosen_has(taxonomy, end.hits, taxonomy.len(), i);
        let a = choose|a: int| 0 <= a < names.len() && #[trigger] names[a] == taxonomy[i];
        assert(all[a] == names[a]);
        assert(false);
    } else {
        assert(all[w] == names[w]);
        lemma_chosen_among(taxonomy, end.hits, taxonomy.len());
        assert(among(taxonomy, names[w]));
        let k = choose|k: int| 0 <= k < taxonomy.len() && #[trigger] taxonomy[k] == names[w];
        if k != i {
            if k < i {
                assert(fold(taxonomy[k]) != fold(taxonomy[i]));
            } else {
                assert(fold(taxonomy[i]) != fold(taxonomy[k]));
            }
        }
    }
}

/// After dropping the repeated labels no two are equal ignoring case, each label that stays
/// was there before, and each label that was there is still there in some casing.
pub proof fn lemma_dedup(labels: Seq<Seq<char>>)
    ensures
        distinct_ignoring_case(dedup(labels)),
        forall|j: int| 0 <= j < dedup(labels).len() ==> among(labels, #[trigger] dedup(labels)[j]),
        forall|j: int| 0 <= j < labels.len() ==> seen(dedup(labels), #[trigger] labels[j]),
    decreases labels.len(),
{
    if labels.len() > 0 {
        let front = labels.drop_last();
        let kept = dedup(front);
        let out = dedup(labels);
        lemma_dedup(front);
        assert forall|j: int| 0 <= j < out.len() implies among(labels, #[trigger] out[j]) by {
            if j < kept.len() {
                assert(among(front, kept[j]));
                let w = choose|w: int| 0 <= w < front.len() && #[trigger] front[w] == kept[j];
                assert(labels[w] == kept[j]);
            } else {
                assert(labels[labels.len() - 1] == out[j]);
            }
        }
        assert forall|j: int| 0 <= j < labels.len() implies seen(out, #[trigger] labels[j]) by {
            if j < front.len() {
                assert(front[j] == labels[j]);
                assert(seen(kept, front[j]));
                let w = choose|w: int|
                    0 <= w < kept.len() && fold(#[trigger] kept[w]) == fold(front[j]);
                assert(out[w] == kept[w]);
            } else if seen(kept, labels.last()) {
            } else {
                assert(out[out.len() - 1] == labels[j]);
            }
        }
        assert forall|a: int, b: int| 0 <= a < b < out.len() implies fold(#[trigger] out[a])
            != fold(#[trigger] out[b]) by {
            if b < kept.len() {
                assert(out[a] == kept[a] && out[b] == kept[b]);
            } else {
                assert(out[a] == kept[a]);
            }
        }
    }
}

/// Each label that stays after dropping the repeated ones is the first of the labels that
/// equal it ignoring case.
pub proof fn lemma_dedup_first(labels: Seq<Seq<char>>, j: int) -> (w: int)
    requires
        0 <= j < dedup(labels).len(),
    ensures
        0 <= w < labels.len(),
        labels[w] == dedup(labels)[j],
        forall|v: int| 0 <= v < w ==> fold(#[trigger] labels[v]) != fold(labels[w]),
    decreases labels.len(),
{
    let front = labels.drop_last();
    let kept = dedup(front);
    if j < kept.len() {
        let w = lemma_dedup_first(front, j);
        assert forall|v: int| 0 <= v < w implies fold(#[trigger] labels[v]) != fold(
            labels[w],
        ) by {
            assert(front[v] == labels[v]);
        }
        w
    } else {
        let w = labels.len() - 1;
        lemma_dedup(front);
        assert forall|v: int| 0 <= v < w implies fold(#[trigger] labels[v]) != fold(
            labels[w],
        ) by {
            assert(front[v] == labels[v]);
            assert(seen(kept, front[v]));
            if fold(labels[v]) == fold(labels[w]) {
                let u = choose|u: int|
                    0 <= u < kept.len() && fold(#[trigger] kept[u]) == fold(front[v]);
                assert(seen(kept, labels.last()));
            }
        }
        w
    }
}

/// Once a name is cut out, no fragment holds it any more: where a name was found, it is
/// not found again, and what is left of a repeated name is not taken for a shorter one
/// together with it.
pub proof fn lemma_masked_clean(fragments: Seq<Seq<char>>, needle: Seq<char>)
    requires
        needle.len() > 0,
    ensures
        !holds(masked(fragments, needle), needle),
    decreases fragments.len(),
{
    if fragments.len() > 0 {
        let front = fragments.drop_last();
        lemma_masked_clean(front, needle);
        lemma_cut_out_clean(fragments.last(), needle);
        let before = masked(front, needle);
        let out = masked(fragments, needle);
        if holds(out, needle) {
            let k = choose|k: int| 0 <= k < out.len() && contains(#[trigger] out[k], needle);
            if k < before.len() {
                assert(out[k] == before[k]);
            } else {
                assert(out[k] == cut_out(fragments.last(), needle)[k - before.len()]);
            }
        }
    }
}

/// Folding ignores the case that `upper` gave, and folding twice changes nothing.
pub proof fn lemma_fold_upper(s: Seq<char>)
    ensures
        fold(upper(s)) == fold(s),
        fold(fold(s)) == fold(s),
        fold(s).len() == s.len(),
{
    assert(fold(upper(s)) =~= fold(s));
    assert(fold(fold(s)) =~= fold(s));
}

/// No name is longer than the longest.
proof fn lemma_longest(taxonomy: Seq<Seq<char>>, i: int)
    requires
        0 <= i < taxonomy.len(),
    ensures
        taxonomy[i].len() <= longest(taxonomy),
    decreases taxonomy.len(),
{
    if i < taxonomy.len() - 1 {
        lemma_longest(taxonomy.drop_last(), i);
    }
}

/// A text holds nothing longer than itself, and something of its own length only if that
/// is the text itself.
proof fn lemma_contains_length(hay: Seq<char>, needle: Seq<char>)
    requires
        contains(hay, needle),
    ensures
        needle.len() <= hay.len(),
        needle.len() == hay.len() ==> needle == hay,
{
    let i = choose|i: int| occurs_at(hay, needle, i);
    if needle.len() == hay.len() {
        assert(hay.subrange(0, hay.len() as int) =~= hay);
    }
}

/// Whether none of `fragments` has `len` characters or more.
spec fn all_shorter(fragments: Seq<Seq<char>>, len: nat) -> bool {
    forall|k: int| 0 <= k < fragments.len() ==> (#[trigger] fragments[k]).len() < len
}

/// Fragments that are all shorter than a needle do not hold it.
proof fn lemma_shorter_holds_nothing(fragments: Seq<Seq<char>>, needle: Seq<char>)
    requires
        all_shorter(fragments, needle.len()),
    ensures
        !holds(fragments, needle),
{
    if holds(fragments, needle) {
        let k = choose|k: int| 0 <= k < fragments.len() && contains(#[trigger] fragments[k], needle);
        lemma_contains_length(fragments[k], needle);
    }
}

/// Whether no name of length `len` with an index in `from..to` is held by `fragments`.
spec fn idle(
    taxonomy: Seq<Seq<char>>,
    fragments: Seq<Seq<char>>,
    len: nat,
    from: int,
    to: int,
) -> bool {
    forall|j: int|
        from <= j < to && (#[trigger] taxonomy[j]).len() == len ==> !holds(
            fragments,
            fold(taxonomy[j]),
        )
}

/// Looking for names that are not held changes nothing.
proof fn lemma_pass_idle(
    taxonomy: Seq<Seq<char>>,
    state: Progress,
    len: nat,
    from: int,
    to: int,
)
    requires
        0 <= from <= to <= taxonomy.len(),
        idle(taxonomy, state.fragments, len, from, to),
    ensures
        pass(taxonomy, state, len, from) == pass(taxonomy, state, len, to),
    decreases to - from,
{
    if from < to {
        assert(taxonomy[from].len() == len ==> !holds(state.fragments, fold(taxonomy[from])));
        assert(tried(taxonomy, state, len, from) == state);
        lemma_pass_idle(taxonomy, state, len, from + 1, to);
    }
}

/// Passes for lengths that no fragment reaches change nothing.
proof fn lemma_passes_skip(taxonomy: Seq<Seq<char>>, state: Progress, len: nat, floor: nat)
    requires
        floor <= len,
        all_shorter(state.fragments, floor + 1),
    ensures
        passes(taxonomy, state, len) == passes(taxonomy, state, floor),
    decreases len,
{
    if len > floor {
        assert forall|j: int|
            0 <= j < taxonomy.len() && (#[trigger] taxonomy[j]).len() == len implies !holds(
            state.fragments,
            fold(taxonomy[j]),
        ) by {
            lemma_fold_upper(taxonomy[j]);
            assert(all_shorter(state.fragments, fold(taxonomy[j]).len()));
            lemma_shorter_holds_nothing(state.fragments, fold(taxonomy[j]));
        }
        lemma_pass_idle(taxonomy, state, len, 0, taxonomy.len() as int);
        lemma_passes_skip(taxonomy, state, (len - 1) as nat, floor);
    }
}

/// With a single hit at index `at`, the chosen names among the first `n` are that name, if
/// `n` reaches past it.
proof fn lemma_chosen_single(taxonomy: Seq<Seq<char>>, at: int, n: nat)
    requires
        0 <= at < taxonomy.len(),
        n <= taxonomy.len(),
    ensures
        chosen(taxonomy, Seq::new(taxonomy.len(), |i: int| false).update(at, true), n) == if n
            > at {
            seq![taxonomy[at]]
        } else {
            Seq::<Seq<char>>::empty()
        },
    decreases n,
{
    if n > 0 {
        let hits = Seq::new(taxonomy.len(), |i: int| false).update(at, true);
        lemma_chosen_single(taxonomy, at, (n - 1) as nat);
        let before = chosen(taxonomy, hits, (n - 1) as nat);
        if n - 1 == at {
            assert(before + seq![taxonomy[at]] =~= seq![taxonomy[at]]);
        } else {
            assert(!hits[n - 1]);
            assert(before + Seq::<Seq<char>>::empty() =~= before);
        }
    }
}

/// Whether each of `fragments` is in lower case.
spec fn all_folded(fragments: Seq<Seq<char>>) -> bool {
    forall|k: int| 0 <= k < fragments.len() ==> is_folded(#[trigger] fragments[k])
}

/// Each chosen name is a name of the taxonomy.
proof fn lemma_chosen_among(taxonomy: Seq<Seq<char>>, hits: Seq<bool>, n: nat)
    requires
        n <= taxonomy.len(),
    ensures
        forall|j: int|
            0 <= j < chosen(taxonomy, hits, n).len() ==> among(
                taxonomy,
                #[trigger] chosen(taxonomy, hits, n)[j],
            ),
    decreases n,
{
    if n > 0 {
        lemma_chosen_among(taxonomy, hits, (n - 1) as nat);
        let before = chosen(taxonomy, hits, (n - 1) as nat);
        let now = chosen(taxonomy, hits, n);
        assert forall|j: int| 0 <= j < now.len() implies among(taxonomy, #[trigger] now[j]) by {
            if j < before.len() {
                assert(now[j] == before[j]);
            } else {
                assert(now[j] == taxonomy[n - 1]);
            }
        }
    }
}

/// A part of a text in lower case is in lower case.
proof fn lemma_folded_part(s: Seq<char>, from: int, to: int)
    requires
        is_folded(s),
        0 <= from <= to <= s.len(),
    ensures
        is_folded(s.subrange(from, to)),
{
    let part = s.subrange(from, to);
    assert forall|i: int| 0 <= i < part.len() implies fold(part)[i] == part[i] by {
        assert(fold(s)[from + i] == s[from + i]);
    }
    assert(fold(part) =~= part);
}

/// Trimming a text in lower case leaves it in lower case.
proof fn lemma_folded_trimmed(s: Seq<char>)
    requires
        is_folded(s),
    ensures
        is_folded(trimmed(s)),
{
    lemma_folded_trim_start(s);
    lemma_folded_trim_end(trim_start(s));
}

proof fn lemma_folded_trim_start(s: Seq<char>)
    requires
        is_folded(s),
    ensures
        is_folded(trim_start(s)),
    decreases s.len(),
{
    if s.len() > 0 {
        lemma_folded_part(s, 1, s.len() as int);
        assert(s.drop_first() =~= s.subrange(1, s.len() as int));
        lemma_folded_trim_start(s.drop_first());
    }
}

proof fn lemma_folded_trim_end(s: Seq<char>)
    requires
        is_folded(s),
    ensures
        is_folded(trim_end(s)),
    decreases s.len(),
{
    if s.len() > 0 {
        lemma_folded_part(s, 0, s.len() - 1);
        assert(s.drop_last() =~= s.subrange(0, s.len() - 1));
        lemma_folded_trim_end(s.drop_last());
    }
}

/// Cutting a needle out of fragments in lower case leaves fragments in lower case.
proof fn lemma_masked_folded(fragments: Seq<Seq<char>>, needle: Seq<char>)
    requires
        all_folded(fragments),
    ensures
        all_folded(masked(fragments, needle)),
{
    lemma_masked_refines(fragments, needle);
    let out = masked(fragments, needle);
    assert forall|j: int| 0 <= j < out.len() implies is_folded(#[trigger] out[j]) by {
        assert(holds(fragments, out[j]));
        let k = choose|k: int| 0 <= k < fragments.len() && contains(#[trigger] fragments[k], out[j]);
        let i = choose|i: int| occurs_at(fragments[k], out[j], i);
        lemma_folded_part(fragments[k], i, i + out[j].len());
    }
}

/// The search leaves fragments in lower case in lower case.
proof fn lemma_pass_folded(taxonomy: Seq<Seq<char>>, state: Progress, len: nat, from: int)
    requires
        all_folded(state.fragments),
    ensures
        all_folded(pass(taxonomy, state, len, from).fragments),
    decreases taxonomy.len() - from,
{
    if 0 <= from < taxonomy.len() {
        lemma_masked_folded(state.fragments, fold(taxonomy[from]));
        lemma_pass_folded(taxonomy, tried(taxonomy, state, len, from), len, from + 1);
    }
}

/// The search leaves fragments in lower case in lower case.
proof fn lemma_passes_folded(taxonomy: Seq<Seq<char>>, state: Progress, len: nat)
    requires
        all_folded(state.fragments),
    ensures
        all_folded(passes(taxonomy, state, len).fragments),
    decreases len,
{
    if len > 0 {
        lemma_pass_folded(taxonomy, state, len, 0);
        lemma_passes_folded(taxonomy, pass(taxonomy, state, len, 0), (len - 1) as nat);
    }
}

/// What is left of fragments in lower case is in lower case, and not empty.
proof fn lemma_leftovers_folded(fragments: Seq<Seq<char>>)
    requires
        all_folded(fragments),
    ensures
        forall|j: int|
            0 <= j < leftovers(fragments).len() ==> is_folded(#[trigger] leftovers(fragments)[j])
                && leftovers(fragments)[j].len() > 0,
    decreases fragments.len(),
{
    if fragments.len() > 0 {
        let front = fragments.drop_last();
        assert forall|k: int| 0 <= k < front.len() implies is_folded(#[trigger] front[k]) by {
            assert(front[k] == fragments[k]);
        }
        lemma_leftovers_folded(front);
        assert(is_folded(fragments[fragments.len() - 1]));
        lemma_folded_trimmed(fragments.last());
        let out = leftovers(fragments);
        assert forall|j: int| 0 <= j < out.len() implies is_folded(#[trigger] out[j])
            && out[j].len() > 0 by {
            if j < leftovers(front).len() {
                assert(out[j] == leftovers(front)[j]);
            } else {
                assert(out[j] == trimmed(fragments.last()));
            }
        }
    }
}

/// Whether each of `later` is a part of one of `earlier`.
spec fn refines(later: Seq<Seq<char>>, earlier: Seq<Seq<char>>) -> bool {
    forall|k: int| 0 <= k < later.len() ==> holds(earlier, #[trigger] later[k])
}

/// A part of a text is held by the text.
proof fn lemma_part_contained(s: Seq<char>, from: int, to: int)
    requires
        0 <= from <= to <= s.len(),
    ensures
        contains(s, s.subrange(from, to)),
{
    assert(occurs_at(s, s.subrange(from, to), from));
}

/// What a part of a text holds, the text holds.
proof fn lemma_contains_chain(a: Seq<char>, b: Seq<char>, c: Seq<char>)
    requires
        contains(a, b),
        contains(b, c),
    ensures
        contains(a, c),
{
    let i = choose|i: int| occurs_at(a, b, i);
    let j = choose|j: int| occurs_at(b, c, j);
    assert(a.subrange(i + j, i + j + c.len()) =~= a.subrange(i, i + b.len()).subrange(
        j,
        j + c.len(),
    ));
    assert(occurs_at(a, c, i + j));
}

/// What finer fragments hold, the coarser ones hold.
proof fn lemma_refines_covered(later: Seq<Seq<char>>, earlier: Seq<Seq<char>>, text: Seq<char>)
    requires
        refines(later, earlier),
        holds(later, text),
    ensures
        holds(earlier, text),
{
    let k = choose|k: int| 0 <= k < later.len() && contains(#[trigger] later[k], text);
    assert(holds(earlier, later[k]));
    let m = choose|m: int| 0 <= m < earlier.len() && contains(#[trigger] earlier[m], later[k]);
    lemma_contains_chain(earlier[m], later[k], text);
}

/// Refining is transitive.
proof fn lemma_refines_chain(a: Seq<Seq<char>>, b: Seq<Seq<char>>, c: Seq<Seq<char>>)
    requires
        refines(a, b),
        refines(b, c),
    ensures
        refines(a, c),
{
    assert forall|k: int| 0 <= k < a.len() implies holds(c, #[trigger] a[k]) by {
        assert(holds(b, a[k]));
        lemma_refines_covered(b, c, a[k]);
    }
}

/// Fragments refine themselves.
proof fn lemma_refines_self(a: Seq<Seq<char>>)
    ensures
        refines(a, a),
{
    assert forall|k: int| 0 <= k < a.len() implies holds(a, #[trigger] a[k]) by {
        lemma_covers_own(a, k);
    }
}

/// A text is held by the list of fragments that it is one of.
proof fn lemma_covers_own(fragments: Seq<Seq<char>>, k: int)
    requires
        0 <= k < fragments.len(),
    ensures
        holds(fragments, fragments[k]),
{
    lemma_part_contained(fragments[k], 0, fragments[k].len() as int);
    assert(fragments[k].subrange(0, fragments[k].len() as int) =~= fragments[k]);
}

/// No text that is left when a needle is cut out of a text holds the needle.
proof fn lemma_cut_out_clean(text: Seq<char>, needle: Seq<char>)
    requires
        needle.len() > 0,
    ensures
        forall|j: int|
            0 <= j < cut_out(text, needle).len() ==> !contains(
                #[trigger] cut_out(text, needle)[j],
                needle,
            ),
    decreases text.len(),
{
    let out = cut_out(text, needle);
    if contains(text, needle) {
        lemma_contains_first(text, needle);
        let at = first_index(text, needle);
        assert(occurs_at(text, needle, at));
        let after = text.skip(at + needle.len());
        lemma_cut_out_clean(after, needle);
        let head = text.take(at);
        assert(!contains(head, needle)) by {
            if contains(head, needle) {
                let i = choose|i: int| occurs_at(head, needle, i);
                assert(head.subrange(i, i + needle.len()) =~= text.subrange(
                    i,
                    i + needle.len(),
                ));
                assert(occurs_at(text, needle, i));
            }
        }
        assert forall|j: int| 0 <= j < out.len() implies !contains(#[trigger] out[j], needle) by {
            if j > 0 {
                assert(out[j] == cut_out(after, needle)[j - 1]);
            } else {
                assert(out[j] == head);
            }
        }
    }
}

/// Each text that is left when a needle is cut out of a text is a part of that text.
proof fn lemma_cut_out_parts(text: Seq<char>, needle: Seq<char>)
    ensures
        forall|j: int|
            0 <= j < cut_out(text, needle).len() ==> contains(
                text,
                #[trigger] cut_out(text, needle)[j],
            ),
    decreases text.len(),
{
    let out = cut_out(text, needle);
    if needle.len() > 0 && contains(text, needle) && 0 <= first_index(text, needle) <= text.len()
        - needle.len() {
        let at = first_index(text, needle);
        let after = text.skip(at + needle.len());
        lemma_cut_out_parts(after, needle);
        lemma_part_contained(text, 0, at);
        lemma_part_contained(text, at + needle.len(), text.len() as int);
        assert(text.take(at) =~= text.subrange(0, at));
        assert(after =~= text.subrange(at + needle.len(), text.len() as int));
        assert forall|j: int| 0 <= j < out.len() implies contains(text, #[trigger] out[j]) by {
            if j > 0 {
                assert(out[j] == cut_out(after, needle)[j - 1]);
                lemma_contains_chain(text, after, out[j]);
            }
        }
    } else {
        lemma_part_contained(text, 0, text.len() as int);
        assert(text.subrange(0, text.len() as int) =~= text);
    }
}

/// Cutting a needle out refines the fragments.
proof fn lemma_masked_refines(fragments: Seq<Seq<char>>, needle: Seq<char>)
    ensures
        refines(masked(fragments, needle), fragments),
    decreases fragments.len(),
{
    if fragments.len() > 0 {
        let front = fragments.drop_last();
        let last = fragments.last();
        lemma_masked_refines(front, needle);
        lemma_cut_out_parts(last, needle);
        let before = masked(front, needle);
        let out = masked(fragments, needle);
        assert forall|j: int| 0 <= j < out.len() implies holds(fragments, #[trigger] out[j]) by {
            if j < before.len() {
                assert(out[j] == before[j]);
                assert(holds(front, before[j]));
                let k = choose|k: int| 0 <= k < front.len() && contains(#[trigger] front[k], out[j]);
                assert(fragments[k] == front[k]);
            } else {
                assert(out[j] == cut_out(last, needle)[j - before.len()]);
                assert(contains(fragments[fragments.len() - 1], out[j]));
            }
        }
    }
}

/// Whether `later` has the hits of `earlier`, and maybe more.
spec fn keeps_hits(later: Seq<bool>, earlier: Seq<bool>) -> bool {
    &&& later.len() == earlier.len()
    &&& forall|i: int| 0 <= i < earlier.len() && earlier[i] ==> later[i]
}

/// A pass refines the fragments and keeps the hits.
proof fn lemma_pass_refines(taxonomy: Seq<Seq<char>>, state: Progress, len: nat, from: int)
    requires
        state.hits.len() == taxonomy.len(),
    ensures
        refines(pass(taxonomy, state, len, from).fragments, state.fragments),
        keeps_hits(pass(taxonomy, state, len, from).hits, state.hits),
    decreases taxonomy.len() - from,
{
    lemma_refines_self(state.fragments);
    if 0 <= from < taxonomy.len() {
        let next = tried(taxonomy, state, len, from);
        lemma_masked_refines(state.fragments, fold(taxonomy[from]));
        lemma_pass_refines(taxonomy, next, len, from + 1);
        lemma_refines_chain(
            pass(taxonomy, next, len, from + 1).fragments,
            next.fragments,
            state.fragments,
        );
    }
}

/// The passes refine the fragments and keep the hits.
proof fn lemma_passes_refine(taxonomy: Seq<Seq<char>>, state: Progress, len: nat)
    requires
        state.hits.len() == taxonomy.len(),
    ensures
        refines(passes(taxonomy, state, len).fragments, state.fragments),
        keeps_hits(passes(taxonomy, state, len).hits, state.hits),
    decreases len,
{
    lemma_refines_self(state.fragments);
    if len > 0 {
        let next = pass(taxonomy, state, len, 0);
        lemma_pass_refines(taxonomy, state, len, 0);
        lemma_passes_refine(taxonomy, next, (len - 1) as nat);
        lemma_refines_chain(
            passes(taxonomy, next, (len - 1) as nat).fragments,
            next.fragments,
            state.fragments,
        );
    }
}

/// After the pass for its length, a name that the fragments still hold was hit.
proof fn lemma_pass_hits(
    taxonomy: Seq<Seq<char>>,
    state: Progress,
    len: nat,
    from: int,
    i: int,
)
    requires
        state.hits.len() == taxonomy.len(),
        0 <= from <= i < taxonomy.len(),
        taxonomy[i].len() == len,
        holds(pass(taxonomy, state, len, from).fragments, fold(taxonomy[i])),
    ensures
        pass(taxonomy, state, len, from).hits[i],
    decreases i - from,
{
    let next = tried(taxonomy, state, len, from);
    if from < i {
        lemma_pass_hits(taxonomy, next, len, from + 1, i);
    } else {
        let needle = fold(taxonomy[i]);
        lemma_pass_refines(taxonomy, next, len, i + 1);
        if !holds(state.fragments, needle) {
            lemma_refines_covered(
                pass(taxonomy, next, len, i + 1).fragments,
                state.fragments,
                needle,
            );
        }
    }
}

/// After the passes, a name that the fragments still hold was hit, unless it is empty or
/// longer than the names of the first pass.
proof fn lemma_passes_hit(taxonomy: Seq<Seq<char>>, state: Progress, len: nat, i: int)
    requires
        state.hits.len() == taxonomy.len(),
        0 <= i < taxonomy.len(),
        1 <= taxonomy[i].len() <= len,
        holds(passes(taxonomy, state, len).fragments, fold(taxonomy[i])),
    ensures
        passes(taxonomy, state, len).hits[i],
    decreases len,
{
    let next = pass(taxonomy, state, len, 0);
    lemma_pass_refines(taxonomy, state, len, 0);
    if taxonomy[i].len() == len {
        lemma_passes_refine(taxonomy, next, (len - 1) as nat);
        lemma_refines_covered(
            passes(taxonomy, next, (len - 1) as nat).fragments,
            next.fragments,
            fold(taxonomy[i]),
        );
        lemma_pass_hits(taxonomy, state, len, 0, i);
    } else {
        lemma_passes_hit(taxonomy, next, (len - 1) as nat, i);
    }
}

/// A name that was hit is among the chosen.
proof fn lemma_chosen_has(taxonomy: Seq<Seq<char>>, hits: Seq<bool>, n: nat, i: int)
    requires
        0 <= i < n <= taxonomy.len(),
        hits[i],
    ensures
        among(chosen(taxonomy, hits, n), taxonomy[i]),
    decreases n,
{
    let before = chosen(taxonomy, hits, (n - 1) as nat);
    let now = chosen(taxonomy, hits, n);
    if i < n - 1 {
        lemma_chosen_has(taxonomy, hits, (n - 1) as nat, i);
        let w = choose|w: int| 0 <= w < before.len() && #[trigger] before[w] == taxonomy[i];
        assert(now[w] == before[w]);
    } else {
        assert(now[now.len() - 1] == taxonomy[i]);
    }
}

/// The trimmed form of a text is a part of it.
proof fn lemma_trimmed_part(s: Seq<char>)
    ensures
        contains(s, trimmed(s)),
{
    lemma_trim_start_part(s);
    lemma_trim_end_part(trim_start(s));
    lemma_contains_chain(s, trim_start(s), trimmed(s));
}

proof fn lemma_trim_start_part(s: Seq<char>)
    ensures
        contains(s, trim_start(s)),
    decreases s.len(),
{
    if s.len() > 0 && white_space(s.first()) {
        lemma_trim_start_part(s.drop_first());
        lemma_part_contained(s, 1, s.len() as int);
        assert(s.drop_first() =~= s.subrange(1, s.len() as int));
        lemma_contains_chain(s, s.drop_first(), trim_start(s));
    } else {
        lemma_part_contained(s, 0, s.len() as int);
        assert(s.subrange(0, s.len() as int) =~= s);
    }
}

proof fn lemma_trim_end_part(s: Seq<char>)
    ensures
        contains(s, trim_end(s)),
    decreases s.len(),
{
    if s.len() > 0 && white_space(s.last()) {
        lemma_trim_end_part(s.drop_last());
        lemma_part_contained(s, 0, s.len() - 1);
        assert(s.drop_last() =~= s.subrange(0, s.len() - 1));
        lemma_contains_chain(s, s.drop_last(), trim_end(s));
    } else {
        lemma_part_contained(s, 0, s.len() as int);
        assert(s.subrange(0, s.len() as int) =~= s);
    }
}

/// Each text that is left over is held by one of the fragments.
proof fn lemma_leftovers_covered(fragments: Seq<Seq<char>>)
    ensures
        forall|j: int|
            0 <= j < leftovers(fragments).len() ==> holds(
                fragments,
                #[trigger] leftovers(fragments)[j],
            ),
    decreases fragments.len(),
{
    if fragments.len() > 0 {
        let front = fragments.drop_last();
        lemma_leftovers_covered(front);
        lemma_trimmed_part(fragments.last());
        let out = leftovers(fragments);
        assert forall|j: int| 0 <= j < out.len() implies holds(fragments, #[trigger] out[j]) by {
            if j < leftovers(front).len() {
                assert(out[j] == leftovers(front)[j]);
                assert(holds(front, out[j]));
                let k = choose|k: int| 0 <= k < front.len() && contains(#[trigger] front[k], out[j]);
                assert(fragments[k] == front[k]);
            } else {
                assert(out[j] == trimmed(fragments.last()));
                assert(contains(fragments[fragments.len() - 1], out[j]));
            }
        }
    }
}

/// Passes in which no name is held change nothing.
proof fn lemma_passes_idle(taxonomy: Seq<Seq<char>>, state: Progress, len: nat)
    requires
        forall|j: int|
            0 <= j < taxonomy.len() && (#[trigger] taxonomy[j]).len() > 0 ==> !holds(
                state.fragments,
                fold(taxonomy[j]),
            ),
    ensures
        passes(taxonomy, state, len) == state,
    decreases len,
{
    if len > 0 {
        lemma_pass_idle(taxonomy, state, len, 0, taxonomy.len() as int);
        lemma_passes_idle(taxonomy, state, (len - 1) as nat);
    }
}

/// Without a hit no name is chosen.
proof fn lemma_chosen_none(taxonomy: Seq<Seq<char>>, n: nat)
    requires
        n <= taxonomy.len(),
    ensures
        chosen(taxonomy, Seq::new(taxonomy.len(), |i: int| false), n) == Seq::<Seq<char>>::empty(),
    decreases n,
{
    if n > 0 {
        lemma_chosen_none(taxonomy, (n - 1) as nat);
        assert(Seq::<Seq<char>>::empty() + Seq::<Seq<char>>::empty() =~= Seq::<
            Seq<char>,
        >::empty());
    }
}

} // verus!
