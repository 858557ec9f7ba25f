//! Sorting words by merge sort, in the order `<` gives `String`s.
use vstd::prelude::*;
use vstd::multiset::Multiset;
use crate::text::string_views;

verus! {

/// Lexicographic order on character sequences: the first differing
/// character decides, and a proper prefix comes first. UTF-8 keeps the
/// order of code points, so this is the byte order that `<` uses on `String`.
pub open spec fn str_lt(a: Seq<char>, b: Seq<char>) -> bool
    decreases a.len(),
{
    if a.len() == 0 {
        b.len() != 0
    } else if b.len() == 0 {
        false
    } else if a[0] != b[0] {
        (a[0] as int) < (b[0] as int)
    } else {
        str_lt(a.drop_first(), b.drop_first())
    }
}

/// `a` comes no later than `b`.
pub open spec fn str_le(a: Seq<char>, b: Seq<char>) -> bool {
    !str_lt(b, a)
}

/// Every word comes no later than the words after it.
pub open spec fn sorted_words(s: Seq<Seq<char>>) -> bool {
    forall|i: int, j: int| 0 <= i < j < s.len() ==> str_le(#[trigger] s[i], #[trigger] s[j])
}

/// `str_lt` is irreflexive and asymmetric, and any two sequences are equal
/// or ordered one way.
pub proof fn lemma_str_lt_trichotomy(a: Seq<char>, b: Seq<char>)
    ensures
        !str_lt(a, a),
        str_lt(a, b) ==> !str_lt(b, a),
        a == b || str_lt(a, b) || str_lt(b, a),
    decreases a.len(),
{
    if a.len() > 0 && b.len() > 0 {
        lemma_str_lt_trichotomy(a.drop_first(), b.drop_first());
        if a[0] == b[0] && a.drop_first() == b.drop_first() {
            assert(a =~= seq![a[0]] + a.drop_first());
            assert(b =~= seq![b[0]] + b.drop_first());
        }
        if a[0] != b[0] {
            assert((a[0] as int) != (b[0] as int));
        }
    } else if a.len() > 0 {
        lemma_str_lt_trichotomy(a.drop_first(), a.drop_first());
    } else if b.len() == 0 {
        assert(a =~= b);
    }
}

/// `str_lt` is transitive.
pub proof fn lemma_str_lt_transitive(a: Seq<char>, b: Seq<char>, c: Seq<char>)
    requires
        str_lt(a, b),
        str_lt(b, c),
    ensures
        str_lt(a, c),
    decreases a.len(),
{
    if a.len() > 0 && b.len() > 0 && c.len() > 0 {
        if a[0] == b[0] && b[0] == c[0] {
            lemma_str_lt_transitive(a.drop_first(), b.drop_first(), c.drop_first());
        }
    }
}

/// `str_le` is a total order: reflexive, antisymmetric, transitive and total.
pub proof fn lemma_str_le_total_order()
    ensures
        vstd::relations::total_ordering(|a: Seq<char>, b: Seq<char>| str_le(a, b)),
{
    let le = |a: Seq<char>, b: Seq<char>| str_le(a, b);
    assert forall|a: Seq<char>| #[trigger] le(a, a) by {
        lemma_str_lt_trichotomy(a, a);
    }
    assert forall|a: Seq<char>, b: Seq<char>| #[trigger] le(a, b) && #[trigger] le(b, a) implies a
        == b by {
        lemma_str_lt_trichotomy(a, b);
    }
    assert forall|a: Seq<char>, b: Seq<char>, c: Seq<char>|
        #[trigger] le(a, b) && #[trigger] le(b, c) implies #[trigger] le(a, c) by {
        lemma_str_le_transitive(a, b, c);
    }
    assert forall|a: Seq<char>, b: Seq<char>| #[trigger] le(a, b) || le(b, a) by {
        lemma_str_lt_trichotomy(a, b);
    }
    assert(vstd::relations::reflexive(le));
    assert(vstd::relations::antisymmetric(le));
    assert(vstd::relations::transitive(le));
    assert(vstd::relations::strongly_connected(le));
}

proof fn lemma_str_le_transitive(a: Seq<char>, b: Seq<char>, c: Seq<char>)
    requires
        str_le(a, b),
        str_le(b, c),
    ensures
        str_le(a, c),
{
    lemma_str_lt_trichotomy(a, b);
    lemma_str_lt_trichotomy(b, c);
    lemma_str_lt_trichotomy(a, c);
    if str_lt(c, a) {
        if a == b {
        } else if b == c {
        } else {
            lemma_str_lt_transitive(a, b, c);
        }
    }
}

/// Any two sorted arrangements of the same words are equal: a sorted
/// permutation is unique.
pub proof fn lemma_sorted_arrangement_unique(x: Seq<Seq<char>>, y: Seq<Seq<char>>)
    requires
        sorted_words(x),
        sorted_words(y),
        x.to_multiset() == y.to_multiset(),
    ensures
        x == y,
{
    let le = |a: Seq<char>, b: Seq<char>| str_le(a, b);
    lemma_str_le_total_order();
    assert(vstd::relations::sorted_by(x, le));
    assert(vstd::relations::sorted_by(y, le));
    vstd::seq_lib::lemma_sorted_unique(x, y, le);
}

/// The character views of a sequence of string slices.
pub open spec fn str_views(v: Seq<&str>) -> Seq<Seq<char>> {
    v.map_values(|s: &str| s@)
}

/// Merging two word sequences by repeatedly taking the smaller head; on a
/// tie, or when the left head is not smaller, the right head is taken.
pub open spec fn spec_merge(l: Seq<Seq<char>>, r: Seq<Seq<char>>) -> Seq<Seq<char>>
    decreases l.len() + r.len(),
{
    if l.len() == 0 {
        r
    } else if r.len() == 0 {
        l
    } else if str_lt(l[0], r[0]) {
        seq![l[0]] + spec_merge(l.drop_first(), r)
    } else {
        seq![r[0]] + spec_merge(l, r.drop_first())
    }
}

/// Merging keeps every word: the merge is a permutation of both inputs together.
pub proof fn lemma_merge_permutation(l: Seq<Seq<char>>, r: Seq<Seq<char>>)
    ensures
        spec_merge(l, r).to_multiset() == l.to_multiset().add(r.to_multiset()),
    decreases l.len() + r.len(),
{
    broadcast use vstd::seq_lib::group_to_multiset_ensures;
    broadcast use vstd::multiset::group_multiset_axioms;

    if l.len() == 0 {
        assert(l.to_multiset() =~= Multiset::empty());
        assert(spec_merge(l, r).to_multiset() =~= l.to_multiset().add(r.to_multiset()));
    } else if r.len() == 0 {
        assert(r.to_multiset() =~= Multiset::empty());
        assert(spec_merge(l, r).to_multiset() =~= l.to_multiset().add(r.to_multiset()));
    } else if str_lt(l[0], r[0]) {
        lemma_merge_permutation(l.drop_first(), r);
        vstd::seq_lib::lemma_multiset_commutative(seq![l[0]], spec_merge(l.drop_first(), r));
        vstd::seq_lib::lemma_multiset_commutative(seq![l[0]], l.drop_first());
        assert(seq![l[0]] + l.drop_first() =~= l);
        assert(spec_merge(l, r).to_multiset() =~= l.to_multiset().add(r.to_multiset()));
    } else {
        lemma_merge_permutation(l, r.drop_first());
        vstd::seq_lib::lemma_multiset_commutative(seq![r[0]], spec_merge(l, r.drop_first()));
        vstd::seq_lib::lemma_multiset_commutative(seq![r[0]], r.drop_first());
        assert(seq![r[0]] + r.drop_first() =~= r);
        assert(spec_merge(l, r).to_multiset() =~= l.to_multiset().add(r.to_multiset()));
    }
}

/// Merging two sorted sequences gives a sorted sequence.
pub proof fn lemma_merge_sorted(l: Seq<Seq<char>>, r: Seq<Seq<char>>)
    requires
        sorted_words(l),
        sorted_words(r),
    ensures
        sorted_words(spec_merge(l, r)),
    decreases l.len() + r.len(),
{
    broadcast use vstd::seq_lib::group_to_multiset_ensures;
    broadcast use vstd::multiset::group_multiset_axioms;

    if l.len() > 0 && r.len() > 0 {
        let (h, rest_l, rest_r) = if str_lt(l[0], r[0]) {
            (l[0], l.drop_first(), r)
        } else {
            (r[0], l, r.drop_first())
        };
        lemma_merge_sorted(rest_l, rest_r);
        lemma_merge_permutation(rest_l, rest_r);
        let t = spec_merge(rest_l, rest_r);
        assert(spec_merge(l, r) == seq![h] + t);
        // The head comes no later than every word of the tail.
        assert forall|k: int| 0 <= k < t.len() implies str_le(h, #[trigger] t[k]) by {
            let x = t[k];
            assert(t.to_multiset().contains(x));
            assert(rest_l.to_multiset().contains(x) || rest_r.to_multiset().contains(x));
            lemma_str_lt_trichotomy(l[0], r[0]);
            if rest_l.to_multiset().contains(x) {
                let m = choose|m: int| 0 <= m < rest_l.len() && rest_l[m] == x;
                if str_lt(l[0], r[0]) {
                    assert(l[m + 1] == x);
                } else {
                    assert(l[m] == x);
                    if m > 0 {
                        lemma_str_le_transitive(r[0], l[0], x);
                    }
                }
            } else {
                let m = choose|m: int| 0 <= m < rest_r.len() && rest_r[m] == x;
                if str_lt(l[0], r[0]) {
                    assert(r[m] == x);
                    lemma_str_lt_trichotomy(r[0], x);
                    lemma_str_lt_trichotomy(l[0], x);
                    if str_lt(x, l[0]) {
                        if x == r[0] {
                        } else {
                            lemma_str_lt_transitive(r[0], x, l[0]);
                        }
                    }
                } else {
                    assert(r[m + 1] == x);
                }
            }
        }
        let s = seq![h] + t;
        assert forall|i: int, j: int| 0 <= i < j < s.len() implies str_le(
            #[trigger] s[i],
            #[trigger] s[j],
        ) by {
            if i == 0 {
                assert(s[j] == t[j - 1]);
            } else {
                assert(s[i] == t[i - 1]);
                assert(s[j] == t[j - 1]);
            }
        }
    }
}

fn string_lt(a: &String, b: &String) -> (res: bool)
    ensures
        res == str_lt(a@, b@),
{
    let sa = a.as_str();
    let sb = b.as_str();
    let la = sa.unicode_len();
    let lb = sb.unicode_len();
    let mut i: usize = 0;
    assert(a@.skip(0) =~= a@);
    assert(b@.skip(0) =~= b@);
    while i < la && i < lb
        invariant
            i <= la,
            i <= lb,
            la == a@.len(),
            lb == b@.len(),
            sa@ == a@,
            sb@ == b@,
            str_lt(a@, b@) == str_lt(a@.skip(i as int), b@.skip(i as int)),
        decreases la - i,
    {
        let ca = sa.get_char(i);
        let cb = sb.get_char(i);
        if ca != cb {
            return ca < cb;
        }
        assert(a@.skip(i as int).drop_first() =~= a@.skip(i + 1));
        assert(b@.skip(i as int).drop_first() =~= b@.skip(i + 1));
        i = i + 1;
    }
    i < lb
}

/// Merges two word vectors: while both have words left, the smaller head
/// goes first (the right one when the left is not smaller); then the rest
/// of whichever is left over follows.
pub fn merge(left_arr: Vec<String>, right_arr: Vec<String>) -> (res: Vec<String>)
    ensures
        string_views(res@) == spec_merge(string_views(left_arr@), string_views(right_arr@)),
        string_views(res@).to_multiset() == string_views(left_arr@).to_multiset().add(
            string_views(right_arr@).to_multiset(),
        ),
        sorted_words(string_views(left_arr@)) && sorted_words(string_views(right_arr@))
            ==> sorted_words(string_views(res@)),
{
    let ghost l = string_views(left_arr@);
    let ghost r = string_views(right_arr@);
    let mut res: Vec<String> = Vec::new();
    let mut i: usize = 0;
    let mut j: usize = 0;
    assert(l.skip(0) =~= l);
    assert(r.skip(0) =~= r);
    while i < left_arr.len() && j < right_arr.len()
        invariant
            i <= left_arr.len(),
            j <= right_arr.len(),
            l == string_views(left_arr@),
            r == string_views(right_arr@),
            spec_merge(l, r) == string_views(res@) + spec_merge(l.skip(i as int), r.skip(j as int)),
        decreases left_arr.len() + right_arr.len() - i - j,
    {
        let ghost old_res = string_views(res@);
        if string_lt(&left_arr[i], &right_arr[j]) {
            res.push(left_arr[i].clone());
            assert(l.skip(i as int).drop_first() =~= l.skip(i + 1));
            assert(string_views(res@) =~= old_res.push(l[i as int]));
            assert(spec_merge(l.skip(i as int), r.skip(j as int)) == seq![l[i as int]]
                + spec_merge(l.skip(i + 1), r.skip(j as int)));
            assert(seq![l[i as int]] + spec_merge(l.skip(i + 1), r.skip(j as int)) =~= spec_merge(
                l.skip(i + 1),
                r.skip(j as int),
            ).insert(0, l[i as int]));
            assert(old_res + (seq![l[i as int]] + spec_merge(l.skip(i + 1), r.skip(j as int)))
                =~= old_res.push(l[i as int]) + spec_merge(l.skip(i + 1), r.skip(j as int)));
            i = i + 1;
        } else {
            res.push(right_arr[j].clone());
            assert(r.skip(j as int).drop_first() =~= r.skip(j + 1));
            assert(string_views(res@) =~= old_res.push(r[j as int]));
            assert(spec_merge(l.skip(i as int), r.skip(j as int)) == seq![r[j as int]]
                + spec_merge(l.skip(i as int), r.skip(j + 1)));
            assert(old_res + (seq![r[j as int]] + spec_merge(l.skip(i as int), r.skip(j + 1)))
                =~= old_res.push(r[j as int]) + spec_merge(l.skip(i as int), r.skip(j + 1)));
            j = j + 1;
        }
    }
    // One side is exhausted: the merge of the rest is the rest of the other side.
    assert(spec_merge(l.skip(i as int), r.skip(j as int)) == l.skip(i as int) + r.skip(j as int))
        by {
        if i == left_arr.len() {
            assert(l.skip(i as int) + r.skip(j as int) =~= r.skip(j as int));
        } else {
            assert(l.skip(i as int) + r.skip(j as int) =~= l.skip(i as int));
        }
    }
    while i < left_arr.len()
        invariant
            i <= left_arr.len(),
            j == right_arr.len() || i == left_arr.len(),
            l == string_views(left_arr@),
            r == string_views(right_arr@),
            spec_merge(l, r) == string_views(res@) + l.skip(i as int) + r.skip(j as int),
        decreases left_arr.len() - i,
    {
        let ghost old_res = string_views(res@);
        res.push(left_arr[i].clone());
        assert(string_views(res@) =~= old_res.push(l[i as int]));
        assert(old_res + l.skip(i as int) =~= old_res.push(l[i as int]) + l.skip(i + 1));
        i = i + 1;
    }
    while j < right_arr.len()
        invariant
            i == left_arr.len(),
            j <= right_arr.len(),
            l == string_views(left_arr@),
            r == string_views(right_arr@),
            spec_merge(l, r) == string_views(res@) + l.skip(i as int) + r.skip(j as int),
        decreases right_arr.len() - j,
    {
        let ghost old_res = string_views(res@);
        res.push(right_arr[j].clone());
        assert(string_views(res@) =~= old_res.push(r[j as int]));
        assert(old_res + l.skip(i as int) + r.skip(j as int) =~= old_res.push(r[j as int])
            + l.skip(i as int) + r.skip(j + 1));
        j = j + 1;
    }
    assert(string_views(res@) + l.skip(i as int) + r.skip(j as int) =~= string_views(res@));
    proof {
        lemma_merge_permutation(l, r);
        if sorted_words(l) && sorted_words(r) {
            lemma_merge_sorted(l, r);
        }
    }
    res
}

/// The words that `merge_sort(input, start, end)` sorts: positions `start`
/// through `end`, or the single word at `start` when `start >= end`.
pub open spec fn sort_range(words: Seq<Seq<char>>, start: int, end: int) -> Seq<Seq<char>> {
    if start >= end {
        words.subrange(start, start + 1)
    } else {
        words.subrange(start, end + 1)
    }
}

/// Sorts the words at positions `start` through `end` of `input` (only the
/// word at `start` when `start >= end`) into a new vector, in `String` order.
pub fn merge_sort(input: &[&str], start: usize, end: usize) -> (res: Vec<String>)
    requires
        start < input@.len(),
        start < end ==> end < input@.len(),
    ensures
        sorted_words(string_views(res@)),
        string_views(res@).to_multiset() == sort_range(
            str_views(input@),
            start as int,
            end as int,
        ).to_multiset(),
    decreases end - start,
{
    let ghost w = str_views(input@);
    if start >= end {
        let word = input[start].to_owned();
        let mut res: Vec<String> = Vec::new();
        res.push(word);
        assert(string_views(res@) =~= sort_range(w, start as int, end as int));
        return res;
    }
    let mid = start + (end - start) / 2;
    let left_arr = merge_sort(input, start, mid);
    let right_arr = merge_sort(input, mid + 1, end);
    proof {
        assert(sort_range(w, start as int, mid as int) + sort_range(w, mid + 1, end as int)
            =~= sort_range(w, start as int, end as int));
        vstd::seq_lib::lemma_multiset_commutative(
            sort_range(w, start as int, mid as int),
            sort_range(w, mid + 1, end as int),
        );
    }
    let res = merge(left_arr, right_arr);
    res
}

} // verus!
