//! Decomposition of a path string into its ordered components.
//!
//! A path is treated as an opaque sequence of components: a leading `'/'`
//! becomes the root component `"/"`, and every non-empty run of characters
//! between slashes follows in order. Empty segments, as produced by repeated
//! or trailing slashes, are dropped, so `"/tmp/dir1/"` and `"/tmp//dir1"`
//! decompose like `"/tmp/dir1"`. Components are compared exactly,
//! character for character; no `.`/`..` resolution is performed.

use vstd::prelude::*;
use vstd::string::StrSliceExecFns;

verus! {

/// One step of splitting on `'/'`: the characters of `s` from position `i`
/// on are folded into `cur` (the segment being read) and `acc` (the segments
/// already read, in order); a segment is kept only if it is non-empty.
pub open spec fn split_from(
    s: Seq<char>,
    i: int,
    cur: Seq<char>,
    acc: Seq<Seq<char>>,
) -> Seq<Seq<char>>
    decreases s.len() - i,
{
    if i < 0 || i >= s.len() {
        if cur.len() > 0 {
            acc.push(cur)
        } else {
            acc
        }
    } else if s[i] == '/' {
        split_from(s, i + 1, Seq::empty(), if cur.len() > 0 { acc.push(cur) } else { acc })
    } else {
        split_from(s, i + 1, cur.push(s[i]), acc)
    }
}

/// The non-empty `'/'`-separated segments of `s`, in order.
pub open spec fn segments_of(s: Seq<char>) -> Seq<Seq<char>> {
    split_from(s, 0, Seq::empty(), Seq::empty())
}

/// The ordered components a path string decomposes into: the root component
/// `"/"` if the string starts with a slash, then its non-empty segments.
pub open spec fn components_of(s: Seq<char>) -> Seq<Seq<char>> {
    if s.len() > 0 && s[0] == '/' {
        seq![seq!['/']] + segments_of(s)
    } else {
        segments_of(s)
    }
}

/// The trie key a path stands for: its components after the root component.
/// A path with no components at all keys the root, like the root path does.
pub open spec fn key_of(s: Seq<char>) -> Seq<Seq<char>> {
    let cs = components_of(s);
    if cs.len() == 0 {
        Seq::empty()
    } else {
        cs.skip(1)
    }
}

/// Segments already read pass through the split unchanged: the accumulator
/// is a prefix of the result.
proof fn lemma_split_from_acc(s: Seq<char>, i: int, cur: Seq<char>, acc: Seq<Seq<char>>)
    ensures
        split_from(s, i, cur, acc) == acc + split_from(s, i, cur, Seq::empty()),
    decreases s.len() - i,
{
    if i < 0 || i >= s.len() {
        if cur.len() > 0 {
            assert(acc.push(cur) =~= acc + Seq::<Seq<char>>::empty().push(cur));
        } else {
            assert(acc =~= acc + Seq::<Seq<char>>::empty());
        }
    } else if s[i] == '/' {
        let acc2 = if cur.len() > 0 { acc.push(cur) } else { acc };
        let acc2e = if cur.len() > 0 { Seq::<Seq<char>>::empty().push(cur) } else { Seq::empty() };
        lemma_split_from_acc(s, i + 1, Seq::empty(), acc2);
        lemma_split_from_acc(s, i + 1, Seq::empty(), acc2e);
        assert(acc2 + split_from(s, i + 1, Seq::empty(), Seq::empty()) =~= acc + (acc2e
            + split_from(s, i + 1, Seq::empty(), Seq::empty())));
    } else {
        lemma_split_from_acc(s, i + 1, cur.push(s[i]), acc);
    }
}

/// Decomposes `path` into its ordered components, root component first.
pub fn parse_components(path: &str) -> (r: Vec<String>)
    ensures
        r.deep_view() == components_of(path@),
{
    let n: usize = path.unicode_len();
    let mut acc: Vec<String> = Vec::new();
    if n > 0 && path.get_char(0) == '/' {
        let root: String = "/".to_owned();
        proof {
            reveal_strlit("/");
            assert(root@ =~= seq!['/']);
        }
        acc.push(root);
        proof {
            assert(acc.deep_view() =~= seq![seq!['/']]);
        }
    }
    proof {
        lemma_split_from_acc(path@, 0, Seq::empty(), acc.deep_view());
        assert(path@.subrange(0, 0) =~= Seq::<char>::empty());
    }
    let mut i: usize = 0;
    let mut start: usize = 0;
    while i < n
        invariant
            n == path@.len(),
            start <= i && i <= n,
            components_of(path@) == split_from(
                path@,
                i as int,
                path@.subrange(start as int, i as int),
                acc.deep_view(),
            ),
        decreases n - i,
    {
        let ghost cur = path@.subrange(start as int, i as int);
        let c = path.get_char(i);
        if c == '/' {
            if start < i {
                let seg: String = path.substring_char(start, i).to_owned();
                let ghost pre = acc.deep_view();
                acc.push(seg);
                proof {
                    assert(acc.deep_view() =~= pre.push(cur));
                }
            }
            start = i + 1;
            proof {
                assert(path@.subrange(start as int, start as int) =~= Seq::<char>::empty());
            }
        } else {
            proof {
                assert(path@.subrange(start as int, i + 1) =~= cur.push(path@[i as int]));
            }
        }
        i = i + 1;
    }
    if start < n {
        let seg: String = path.substring_char(start, n).to_owned();
        let ghost pre = acc.deep_view();
        let ghost cur = path@.subrange(start as int, n as int);
        acc.push(seg);
        proof {
            assert(acc.deep_view() =~= pre.push(cur));
        }
    }
    acc
}

} // verus!
