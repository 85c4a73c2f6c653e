//! Newline-inclusive line segmentation of byte buffers.
//!
//! A buffer is split into lines after every `\n` byte; the final line may or
//! may not end in `\n`, and is still a line. Line numbering is 0-based. An
//! empty buffer has no lines.

use vstd::prelude::*;

verus! {

/// The newline byte that delimits lines.
pub open spec fn nl() -> u8 {
    10
}

/// Length of the first line of `t`: everything up to and including the first
/// `\n`, or all of `t` if it has none.
pub open spec fn first_line_len(t: Seq<u8>) -> int
    decreases t.len(),
{
    if t.len() == 0 {
        0
    } else if t[0] == nl() {
        1
    } else {
        1 + first_line_len(t.drop_first())
    }
}

pub proof fn lemma_first_line_len_bounds(t: Seq<u8>)
    requires
        t.len() > 0,
    ensures
        1 <= first_line_len(t) <= t.len(),
    decreases t.len(),
{
    if t.len() > 1 {
        lemma_first_line_len_bounds(t.drop_first());
    } else {
        assert(first_line_len(t.drop_first()) == 0);
    }
}

/// The 0-based, newline-inclusive segmentation of `t` into lines.
pub open spec fn line_seq(t: Seq<u8>) -> Seq<Seq<u8>>
    decreases t.len(),
    via line_seq_decreases
{
    if t.len() == 0 {
        Seq::empty()
    } else {
        seq![t.take(first_line_len(t))] + line_seq(t.skip(first_line_len(t)))
    }
}

#[via_fn]
proof fn line_seq_decreases(t: Seq<u8>) {
    if t.len() > 0 {
        lemma_first_line_len_bounds(t);
    }
}

/// If `t` has no `\n` before position `i` and either ends or has `\n` at `i`,
/// then its first line runs through `i` (inclusive of the `\n` if present).
pub proof fn lemma_first_line_len_scan(t: Seq<u8>, i: int)
    requires
        0 <= i <= t.len(),
        forall|j: int| 0 <= j < i ==> t[j] != nl(),
        i == t.len() || t[i] == nl(),
    ensures
        first_line_len(t) == if i < t.len() { i + 1 } else { i },
    decreases i,
{
    if i == 0 {
    } else {
        assert(t[0] != nl());
        lemma_first_line_len_scan(t.drop_first(), i - 1);
    }
}

/// Concatenating the lines of `t` gives back `t` exactly.
pub proof fn lemma_line_seq_flatten(t: Seq<u8>)
    ensures
        line_seq(t).flatten() == t,
    decreases t.len(),
{
    if t.len() == 0 {
        assert(line_seq(t).flatten() =~= t);
    } else {
        lemma_first_line_len_bounds(t);
        let n = first_line_len(t);
        let rest = t.skip(n);
        lemma_line_seq_flatten(rest);
        let ls = line_seq(t);
        assert(ls.drop_first() =~= line_seq(rest));
        assert(ls.flatten() == ls.first() + ls.drop_first().flatten());
        assert(t.take(n) + rest =~= t);
    }
}

/// A buffer has lines exactly when it is non-empty.
pub proof fn lemma_line_seq_empty(t: Seq<u8>)
    ensures
        line_seq(t).len() == 0 <==> t.len() == 0,
{
    if t.len() > 0 {
        lemma_first_line_len_bounds(t);
    }
}

/// Splits `text` into newline-inclusive lines.
pub fn split_lines(text: &Vec<u8>) -> (res: Vec<Vec<u8>>)
    ensures
        res.deep_view() == line_seq(text@),
{
    let mut res: Vec<Vec<u8>> = Vec::new();
    let mut start: usize = 0;
    proof {
        assert(text@.skip(0) =~= text@);
    }
    while start < text.len()
        invariant
            0 <= start <= text.len(),
            line_seq(text@) == res.deep_view() + line_seq(text@.skip(start as int)),
        decreases text.len() - start,
    {
        let ghost rest = text@.skip(start as int);
        let mut end: usize = start;
        while end < text.len() && text[end] != 10u8
            invariant
                start <= end <= text.len(),
                forall|j: int| start <= j < end ==> text@[j] != nl(),
            decreases text.len() - end,
        {
            end = end + 1;
        }
        let line_end: usize = if end < text.len() { end + 1 } else { end };
        proof {
            lemma_first_line_len_scan(rest, end - start);
            assert(first_line_len(rest) == line_end - start);
        }
        let mut line: Vec<u8> = Vec::new();
        let mut j: usize = start;
        while j < line_end
            invariant
                start <= j <= line_end <= text.len(),
                line@ == text@.subrange(start as int, j as int),
            decreases line_end - j,
        {
            line.push(text[j]);
            proof {
                assert(line@ =~= text@.subrange(start as int, j + 1));
            }
            j = j + 1;
        }
        proof {
            assert(line@ =~= rest.take(first_line_len(rest)));
            assert(text@.skip(line_end as int) =~= rest.skip(first_line_len(rest)));
            assert(line_seq(rest) == seq![line@] + line_seq(text@.skip(line_end as int)));
        }
        let ghost prev = res.deep_view();
        res.push(line);
        proof {
            assert(res.deep_view() =~~= prev + seq![line@]);
            assert(prev + (seq![line@] + line_seq(text@.skip(line_end as int)))
                =~= (prev + seq![line@]) + line_seq(text@.skip(line_end as int)));
        }
        start = line_end;
    }
    proof {
        assert(line_seq(text@.skip(start as int)) =~= Seq::<Seq<u8>>::empty());
        assert(res.deep_view() + Seq::<Seq<u8>>::empty() =~= res.deep_view());
    }
    res
}

/// An owned copy of a byte buffer.
pub fn clone_bytes(v: &Vec<u8>) -> (r: Vec<u8>)
    ensures
        r@ == v@,
{
    let mut r: Vec<u8> = Vec::new();
    let mut i: usize = 0;
    while i < v.len()
        invariant
            0 <= i <= v.len(),
            r@ == v@.subrange(0, i as int),
        decreases v.len() - i,
    {
        r.push(v[i]);
        proof {
            assert(r@ =~= v@.subrange(0, i + 1));
        }
        i = i + 1;
    }
    proof {
        assert(r@ =~= v@);
    }
    r
}

/// Byte-for-byte equality of two buffers.
pub fn bytes_eq(a: &Vec<u8>, b: &Vec<u8>) -> (r: bool)
    ensures
        r == (a@ == b@),
{
    if a.len() != b.len() {
        return false;
    }
    let mut i: usize = 0;
    while i < a.len()
        invariant
            0 <= i <= a.len(),
            a@.len() == b@.len(),
            forall|j: int| 0 <= j < i ==> a@[j] == b@[j],
        decreases a.len() - i,
    {
        if a[i] != b[i] {
            assert(a@[i as int] != b@[i as int]);
            return false;
        }
        i = i + 1;
    }
    proof {
        assert(a@ =~= b@);
    }
    true
}

} // verus!
