use crate::instructions::is_op;
use vstd::prelude::*;
use vstd::string::StrSliceExecFns;

verus! {

/// The ordered subsequence of `s` made of recognized instruction characters.
pub open spec fn filter_ops(s: Seq<char>) -> Seq<char>
    decreases s.len(),
{
    if s.len() == 0 {
        Seq::empty()
    } else if is_op(s.last()) {
        filter_ops(s.drop_last()).push(s.last())
    } else {
        filter_ops(s.drop_last())
    }
}

/// Extending the text by one character extends its filtered form by exactly
/// that character when it is recognized, and not at all otherwise.
pub proof fn lemma_filter_ops_push(s: Seq<char>, c: char)
    ensures
        filter_ops(s.push(c)) == if is_op(c) {
            filter_ops(s).push(c)
        } else {
            filter_ops(s)
        },
{
    assert(s.push(c).drop_last() =~= s);
    assert(s.push(c).last() == c);
}

/// Every character of the filtered form is a recognized instruction character.
pub proof fn lemma_filter_ops_recognized(s: Seq<char>)
    ensures
        forall|j: int| 0 <= j < filter_ops(s).len() ==> is_op(#[trigger] filter_ops(s)[j]),
    decreases s.len(),
{
    if s.len() > 0 {
        lemma_filter_ops_recognized(s.drop_last());
        let rest = filter_ops(s.drop_last());
        assert forall|j: int| 0 <= j < filter_ops(s).len() implies is_op(
            #[trigger] filter_ops(s)[j],
        ) by {
            if is_op(s.last()) {
                assert(filter_ops(s) == rest.push(s.last()));
                if j < rest.len() {
                    assert(filter_ops(s)[j] == rest[j]);
                } else {
                    assert(filter_ops(s)[j] == s.last());
                }
            }
        }
    }
}

/// Filtering keeps no character that the whole text does not hold.
pub proof fn lemma_filter_ops_excludes(s: Seq<char>, c: char)
    requires
        forall|i: int| 0 <= i < s.len() ==> s[i] != c,
    ensures
        forall|j: int| 0 <= j < filter_ops(s).len() ==> #[trigger] filter_ops(s)[j] != c,
    decreases s.len(),
{
    if s.len() > 0 {
        assert(forall|i: int| 0 <= i < s.drop_last().len() ==> s.drop_last()[i] != c);
        lemma_filter_ops_excludes(s.drop_last(), c);
        let rest = filter_ops(s.drop_last());
        assert(s.last() == s[s.len() - 1]);
        assert forall|j: int| 0 <= j < filter_ops(s).len() implies #[trigger] filter_ops(s)[j]
            != c by {
            if is_op(s.last()) {
                assert(filter_ops(s) == rest.push(s.last()));
                if j < rest.len() {
                    assert(filter_ops(s)[j] == rest[j]);
                } else {
                    assert(filter_ops(s)[j] == s.last());
                }
            }
        }
    }
}

/// Strip from the source text every character that is not one of the eight
/// instruction characters. Always succeeds; empty input gives an empty stream.
pub fn lex(src: &str) -> (ops: Vec<char>)
    ensures
        ops@ == filter_ops(src@),
{
    let n = src.unicode_len();
    let mut ops: Vec<char> = Vec::new();
    let mut i: usize = 0;
    while i < n
        invariant
            n == src@.len(),
            i <= n,
            ops@ == filter_ops(src@.subrange(0, i as int)),
        decreases n - i,
    {
        let c = src.get_char(i);
        proof {
            assert(src@.subrange(0, i as int).push(c) =~= src@.subrange(0, i as int + 1));
            lemma_filter_ops_push(src@.subrange(0, i as int), c);
        }
        if matches!(c, '>' | '<' | '+' | '-' | '.' | ',' | '[' | ']') {
            ops.push(c);
        }
        i = i + 1;
    }
    proof {
        assert(src@.subrange(0, n as int) =~= src@);
    }
    ops
}

} // verus!
