//! Taking candidate labels out of an answer.
//!
//! An answer quotes label names between backticks, one name or a comma-separated list in
//! each pair. A segment is a non-empty run of characters other than the backtick that has a
//! backtick right before and right after it; segments are read from left to right and do
//! not share a backtick.

use crate::text::{chars_of, string_of, trim_range, trimmed};
use vstd::prelude::*;

verus! {

/// The number of characters of `s` before the first `stop`; `s.len()` if it holds none.
pub open spec fn run_len(s: Seq<char>, stop: char) -> nat
    decreases s.len(),
{
    if s.len() == 0 || s.first() == stop {
        0
    } else {
        1 + run_len(s.drop_first(), stop)
    }
}

/// The backtick-delimited segments of `s`, from left to right.
pub open spec fn segments(s: Seq<char>) -> Seq<Seq<char>>
    decreases s.len(),
{
    let open = run_len(s, '`');
    if open >= s.len() {
        Seq::empty()
    } else {
        let rest = s.skip(open + 1 as int);
        let n = run_len(rest, '`');
        if n >= rest.len() {
            Seq::empty()
        } else if n == 0 {
            segments(rest)
        } else {
            seq![rest.take(n as int)] + segments(rest.skip(n + 1 as int))
        }
    }
}

/// The trimmed form of `part` if that is not empty, else nothing.
pub open spec fn piece(part: Seq<char>) -> Seq<Seq<char>> {
    if trimmed(part).len() > 0 {
        seq![trimmed(part)]
    } else {
        Seq::empty()
    }
}

/// The pieces of `s`: it is split at each comma, each part is trimmed, and the parts that
/// are then empty are left out.
pub open spec fn pieces(s: Seq<char>) -> Seq<Seq<char>>
    decreases s.len(),
{
    let n = run_len(s, ',');
    if n >= s.len() {
        piece(s)
    } else {
        piece(s.take(n as int)) + pieces(s.skip(n + 1 as int))
    }
}

/// The pieces of each of `segs`, in order.
pub open spec fn gather(segs: Seq<Seq<char>>) -> Seq<Seq<char>>
    decreases segs.len(),
{
    if segs.len() == 0 {
        Seq::empty()
    } else {
        pieces(segs.first()) + gather(segs.drop_first())
    }
}

/// The candidates that `answer` holds: the pieces of its segments, in order of appearance.
pub open spec fn candidates(answer: Seq<char>) -> Seq<Seq<char>> {
    gather(segments(answer))
}

/// The first `n` characters are not `stop` and the next one, if there is one, is:
/// then `n` is the `run_len`.
pub proof fn lemma_run_len_is(s: Seq<char>, stop: char, n: int)
    requires
        0 <= n <= s.len(),
        forall|i: int| 0 <= i < n ==> s[i] != stop,
        n < s.len() ==> s[n] == stop,
    ensures
        run_len(s, stop) == n,
    decreases s.len(),
{
    if n == 0 {
    } else {
        assert(s[0] != stop);
        let t = s.drop_first();
        assert forall|i: int| 0 <= i < n - 1 implies t[i] != stop by {
            assert(t[i] == s[i + 1]);
        }
        lemma_run_len_is(t, stop, n - 1);
    }
}

/// A text without a backtick holds no candidate.
pub proof fn lemma_no_backtick_no_candidates(answer: Seq<char>)
    requires
        forall|i: int| 0 <= i < answer.len() ==> answer[i] != '`',
    ensures
        candidates(answer) == Seq::<Seq<char>>::empty(),
{
    lemma_run_len_is(answer, '`', answer.len() as int);
}

/// The index of the first `stop` in `hay[from..to]`, or `to` if there is none.
pub fn scan_to(hay: &Vec<char>, from: usize, to: usize, stop: char) -> (at: usize)
    requires
        from <= to <= hay.len(),
    ensures
        from <= at <= to,
        at == from + run_len(hay@.subrange(from as int, to as int), stop),
{
    let mut i: usize = from;
    while i < to && hay[i] != stop
        invariant
            from <= i <= to <= hay.len(),
            forall|j: int| from <= j < i ==> hay@[j] != stop,
        decreases to - i,
    {
        i = i + 1;
    }
    proof {
        lemma_run_len_is(hay@.subrange(from as int, to as int), stop, i - from);
    }
    i
}

/// Appends to `out` the pieces of `hay[from..to]`.
pub fn pieces_into(hay: &Vec<char>, from: usize, to: usize, out: &mut Vec<String>)
    requires
        from <= to <= hay.len(),
    ensures
        final(out).deep_view() == old(out).deep_view() + pieces(
            hay@.subrange(from as int, to as int),
        ),
{
    let ghost before = out.deep_view();
    let ghost whole = pieces(hay@.subrange(from as int, to as int));
    let mut p: usize = from;
    let mut done = false;
    while !done
        invariant
            from <= p <= to <= hay.len(),
            !done ==> out.deep_view() + pieces(hay@.subrange(p as int, to as int)) == before
                + whole,
            done ==> out.deep_view() == before + whole,
        decreases to - p + (if done { 0int } else { 1int }),
    {
        let ghost s = hay@.subrange(p as int, to as int);
        let ghost held = out.deep_view();
        let q = scan_to(hay, p, to, ',');
        let (a, b) = trim_range(hay, p, q);
        proof {
            assert(s.take(q - p) =~= hay@.subrange(p as int, q as int));
            assert(q == to ==> s =~= hay@.subrange(p as int, q as int));
        }
        if a < b {
            let text = string_of(hay, a, b);
            out.push(text);
            proof {
                assert(out.deep_view() =~= held + seq![text@]);
                assert(piece(hay@.subrange(p as int, q as int)) =~= seq![text@]);
            }
        } else {
            proof {
                assert(piece(hay@.subrange(p as int, q as int)) =~= Seq::<Seq<char>>::empty());
                assert(out.deep_view() =~= held + Seq::<Seq<char>>::empty());
            }
        }
        assert(out.deep_view() == held + piece(hay@.subrange(p as int, q as int)));
        if q == to {
            done = true;
        } else {
            proof {
                assert(s.skip(q - p + 1) =~= hay@.subrange(q + 1, to as int));
                let next = pieces(hay@.subrange(q + 1, to as int));
                let head = piece(hay@.subrange(p as int, q as int));
                assert((held + head) + next =~= held + (head + next));
            }
            p = q + 1;
        }
    }
}

/// Returns the candidates of `answer`: the text of each backtick-delimited segment is split
/// at its commas, each part is trimmed, and the parts that are not empty are returned in the
/// order in which they appear. An answer without such a segment gives an empty vector.
pub fn extract_candidates(answer: &str) -> (out: Vec<String>)
    ensures
        out.deep_view() == candidates(answer@),
        (forall|i: int| 0 <= i < answer@.len() ==> answer@[i] != '`') ==> out@.len() == 0,
{
    proof {
        if forall|i: int| 0 <= i < answer@.len() ==> answer@[i] != '`' {
            lemma_no_backtick_no_candidates(answer@);
        }
    }
    let hay = chars_of(answer);
    let len = hay.len();
    let mut out: Vec<String> = Vec::new();
    let mut pos: usize = 0;
    let mut done = false;
    assert(hay@.skip(0) =~= hay@);
    assert(out.deep_view() + gather(segments(hay@)) =~= gather(segments(hay@)));
    while !done
        invariant
            pos <= len == hay.len(),
            hay@ == answer@,
            !done ==> out.deep_view() + gather(segments(hay@.skip(pos as int))) == candidates(
                hay@,
            ),
            done ==> out.deep_view() == candidates(hay@),
        decreases len - pos + (if done { 0int } else { 1int }),
    {
        let ghost s = hay@.skip(pos as int);
        let ghost held = out.deep_view();
        assert(s =~= hay@.subrange(pos as int, len as int));
        let open = scan_to(&hay, pos, len, '`');
        if open == len {
            proof {
                assert(held + Seq::<Seq<char>>::empty() =~= held);
            }
            done = true;
        } else {
            let ghost rest = s.skip(open - pos + 1);
            assert(rest =~= hay@.subrange(open + 1, len as int));
            assert(rest =~= hay@.skip(open + 1));
            let close = scan_to(&hay, open + 1, len, '`');
            if close == len {
                proof {
                    assert(held + Seq::<Seq<char>>::empty() =~= held);
                }
                done = true;
            } else if close == open + 1 {
                pos = open + 1;
            } else {
                pieces_into(&hay, open + 1, close, &mut out);
                proof {
                    let n = close - open - 1;
                    let seg = rest.take(n);
                    let tail = segments(rest.skip(n + 1));
                    assert(seg =~= hay@.subrange(open + 1, close as int));
                    assert(rest.skip(n + 1) =~= hay@.skip(close + 1));
                    assert((seq![seg] + tail).first() == seg);
                    assert((seq![seg] + tail).drop_first() =~= tail);
                    assert((held + pieces(seg)) + gather(tail) =~= held + (pieces(seg) + gather(
                        tail,
                    )));
                }
                pos = close + 1;
            }
        }
    }
    out
}

} // verus!
