//! Verified string helpers: character-wise equality, filesystem-path
//! splitting, and comma-joining of suggestion lists.

use vstd::prelude::*;

verus! {

/// Relies on `String::push`: appends the given character to the end of the
/// string (std documentation).
pub assume_specification[ String::push ](s: &mut String, c: char)
    ensures
        final (s)@ == old(s)@.push(c),
;

/// Character-wise equality of two string slices.
pub fn str_eq(a: &str, b: &str) -> (r: bool)
    ensures
        r == (a@ == b@),
{
    let alen = a.unicode_len();
    let blen = b.unicode_len();
    if alen != blen {
        return false;
    }
    let mut i: usize = 0;
    while i < alen
        invariant
            alen == a@.len(),
            blen == b@.len(),
            alen == blen,
            i <= alen,
            forall|j: int| 0 <= j < i ==> a@[j] == b@[j],
        decreases alen - i,
    {
        if a.get_char(i) != b.get_char(i) {
            return false;
        }
        i += 1;
    }
    proof {
        assert(a@ =~= b@);
    }
    true
}

/// Splitting a character sequence on `/` with `cur` as the segment read so
/// far; empty segments are dropped, as a filesystem path iterator drops
/// repeated separators.
pub open spec fn split_acc(s: Seq<char>, cur: Seq<char>) -> Seq<Seq<char>>
    decreases s.len(),
{
    if s.len() == 0 {
        if cur.len() == 0 {
            Seq::empty()
        } else {
            seq![cur]
        }
    } else if s[0] == '/' {
        if cur.len() == 0 {
            split_acc(s.drop_first(), Seq::empty())
        } else {
            seq![cur] + split_acc(s.drop_first(), Seq::empty())
        }
    } else {
        split_acc(s.drop_first(), cur.push(s[0]))
    }
}

/// The segments of a filesystem path: the parts between `/` separators,
/// dropping empty parts. The empty path has no segments.
pub open spec fn split_path_spec(s: Seq<char>) -> Seq<Seq<char>> {
    split_acc(s, Seq::empty())
}

/// The views of a vector of strings.
pub open spec fn seq_views(v: Seq<String>) -> Seq<Seq<char>> {
    v.map_values(|s: String| s@)
}

proof fn lemma_split_acc_prefix(s: Seq<char>, i: int, cur: Seq<char>)
    requires
        0 <= i < s.len(),
    ensures
        s.skip(i).drop_first() =~= s.skip(i + 1),
        s.skip(i)[0] == s[i],
{
}

/// Split a path string into its segments.
pub fn split_path(path: &str) -> (segs: Vec<String>)
    ensures
        seq_views(segs@) == split_path_spec(path@),
{
    let len = path.unicode_len();
    let mut segs: Vec<String> = Vec::new();
    let mut cur: String = String::new();
    let mut i: usize = 0;
    proof {
        assert(path@.skip(0) =~= path@);
        assert(seq_views(segs@) =~= Seq::<Seq<char>>::empty());
        assert(seq_views(segs@) + split_acc(path@, cur@) =~= split_acc(path@, cur@));
    }
    while i < len
        invariant
            len == path@.len(),
            i <= len,
            split_path_spec(path@) == seq_views(segs@) + split_acc(path@.skip(i as int), cur@),
        decreases len - i,
    {
        let c = path.get_char(i);
        proof {
            lemma_split_acc_prefix(path@, i as int, cur@);
        }
        let ghost prev_segs = segs@;
        let ghost prev_cur = cur@;
        if c == '/' {
            if cur.unicode_len() > 0 {
                segs.push(cur);
                cur = String::new();
                proof {
                    assert(seq_views(segs@) =~= seq_views(prev_segs) + seq![prev_cur]);
                    assert(seq_views(prev_segs) + (seq![prev_cur] + split_acc(
                        path@.skip(i + 1),
                        Seq::empty(),
                    )) =~= seq_views(segs@) + split_acc(path@.skip(i + 1), Seq::empty()));
                }
            } else {
                proof {
                    assert(cur@ =~= Seq::<char>::empty());
                }
            }
        } else {
            cur.push(c);
        }
        i += 1;
    }
    proof {
        assert(path@.skip(len as int) =~= Seq::<char>::empty());
    }
    let ghost end_segs = segs@;
    let ghost end_cur = cur@;
    if cur.unicode_len() > 0 {
        segs.push(cur);
        proof {
            assert(seq_views(segs@) =~= seq_views(end_segs) + seq![end_cur]);
        }
    } else {
        proof {
            assert(end_cur =~= Seq::<char>::empty());
            assert(seq_views(segs@) + Seq::<Seq<char>>::empty() =~= seq_views(segs@));
        }
    }
    segs
}

/// Joining a sequence of names with `sep` between each pair.
pub open spec fn joined(items: Seq<Seq<char>>, sep: Seq<char>) -> Seq<char>
    decreases items.len(),
{
    if items.len() == 0 {
        Seq::empty()
    } else if items.len() == 1 {
        items[0]
    } else {
        joined(items.drop_last(), sep) + sep + items.last()
    }
}

/// Join the strings of `items` with `sep` between each pair.
pub fn join_with(items: &Vec<String>, sep: &str) -> (r: String)
    ensures
        r@ == joined(seq_views(items@), sep@),
{
    let mut r = String::new();
    let mut i: usize = 0;
    while i < items.len()
        invariant
            i <= items@.len(),
            r@ == joined(seq_views(items@).take(i as int), sep@),
        decreases items@.len() - i,
    {
        if i > 0 {
            r.append(sep);
        }
        r.append(items[i].as_str());
        proof {
            let vs = seq_views(items@);
            assert(vs.take(i + 1).drop_last() =~= vs.take(i as int));
            assert(vs.take(i + 1).last() == items@[i as int]@);
        }
        i += 1;
    }
    proof {
        assert(seq_views(items@).take(items@.len() as int) =~= seq_views(items@));
    }
    r
}

} // verus!
