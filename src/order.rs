//! The order of task texts: lexicographic by character, and the descending
//! sort of a list of texts.
use vstd::prelude::*;
use vstd::string::*;
use crate::text::texts;

verus! {

/// `a` comes before `b`, or equals it, in lexicographic order of characters
/// (the order of their UTF-8 bytes).
pub open spec fn text_le(a: Seq<char>, b: Seq<char>) -> bool
    decreases a.len(),
{
    if a.len() == 0 {
        true
    } else if b.len() == 0 {
        false
    } else if (a[0] as u32) != (b[0] as u32) {
        (a[0] as u32) < (b[0] as u32)
    } else {
        text_le(a.skip(1), b.skip(1))
    }
}

/// `x` put into the descending list `s` before the first text that is not
/// above it.
pub open spec fn insert_desc(s: Seq<Seq<char>>, x: Seq<char>) -> Seq<Seq<char>>
    decreases s.len(),
{
    if s.len() == 0 {
        seq![x]
    } else if text_le(s[0], x) {
        seq![x] + s
    } else {
        seq![s[0]] + insert_desc(s.skip(1), x)
    }
}

/// `s` sorted in descending lexicographic order.
pub open spec fn sort_desc(s: Seq<Seq<char>>) -> Seq<Seq<char>>
    decreases s.len(),
{
    if s.len() == 0 {
        Seq::empty()
    } else {
        insert_desc(sort_desc(s.drop_last()), s.last())
    }
}

/// Whether `a` comes before `b` or equals it.
pub fn text_at_most(a: &str, b: &str) -> (r: bool)
    ensures
        r == text_le(a@, b@),
{
    let n = a.unicode_len();
    let m = b.unicode_len();
    let mut i: usize = 0;
    assert(a@.skip(0) =~= a@);
    assert(b@.skip(0) =~= b@);
    while i < n
        invariant
            n == a@.len(),
            m == b@.len(),
            i <= n,
            i <= m,
            text_le(a@, b@) == text_le(a@.skip(i as int), b@.skip(i as int)),
        decreases n - i,
    {
        if i == m {
            return false;
        }
        let c = a.get_char(i);
        let d = b.get_char(i);
        assert(a@.skip(i as int)[0] == c);
        assert(b@.skip(i as int)[0] == d);
        if (c as u32) != (d as u32) {
            return (c as u32) < (d as u32);
        }
        assert(a@.skip(i as int).skip(1) =~= a@.skip(i + 1));
        assert(b@.skip(i as int).skip(1) =~= b@.skip(i + 1));
        i = i + 1;
    }
    true
}

proof fn lemma_insert_desc_at(s: Seq<Seq<char>>, x: Seq<char>, p: int)
    requires
        0 <= p <= s.len(),
        forall|j: int| 0 <= j < p ==> !text_le(#[trigger] s[j], x),
        p == s.len() || text_le(s[p], x),
    ensures
        insert_desc(s, x) == s.insert(p, x),
    decreases p,
{
    if p == 0 {
        assert(seq![x] + s =~= s.insert(0, x));
    } else {
        let t = s.skip(1);
        assert forall|j: int| 0 <= j < p - 1 implies !text_le(#[trigger] t[j], x) by {
            assert(t[j] == s[j + 1]);
        }
        lemma_insert_desc_at(t, x, p - 1);
        assert(seq![s[0]] + t.insert(p - 1, x) =~= s.insert(p, x));
    }
}

/// The texts of `v` in descending lexicographic order.
pub fn sort_descending(v: Vec<String>) -> (r: Vec<String>)
    ensures
        texts(r@) == sort_desc(texts(v@)),
        is_descending(texts(r@)),
        texts(r@).to_multiset() == texts(v@).to_multiset(),
{
    let mut out: Vec<String> = Vec::new();
    let mut i: usize = 0;
    assert(texts(v@).take(0) =~= Seq::<Seq<char>>::empty());
    while i < v.len()
        invariant
            i <= v@.len(),
            texts(out@) == sort_desc(texts(v@).take(i as int)),
        decreases v@.len() - i,
    {
        let x = v[i].clone();
        let mut k: usize = 0;
        while k < out.len() && !text_at_most(out[k].as_str(), x.as_str())
            invariant
                k <= out@.len(),
                forall|j: int| 0 <= j < k ==> !text_le(#[trigger] texts(out@)[j], x@),
            decreases out@.len() - k,
        {
            k = k + 1;
        }
        let ghost before = texts(out@);
        proof {
            lemma_insert_desc_at(before, x@, k as int);
        }
        out.insert(k, x);
        assert(texts(out@) =~= before.insert(k as int, x@));
        let ghost next = texts(v@).take(i + 1);
        assert(next.drop_last() =~= texts(v@).take(i as int));
        assert(next.last() == x@);
        i = i + 1;
    }
    assert(texts(v@).take(i as int) =~= texts(v@));
    proof {
        lemma_sort_desc(texts(v@));
    }
    out
}


/// Whether `s` is in descending lexicographic order.
pub open spec fn is_descending(s: Seq<Seq<char>>) -> bool {
    forall|i: int, j: int| 0 <= i < j < s.len() ==> text_le(#[trigger] s[j], #[trigger] s[i])
}

proof fn lemma_text_le_total(a: Seq<char>, b: Seq<char>)
    ensures
        text_le(a, b) || text_le(b, a),
    decreases a.len(),
{
    if a.len() > 0 && b.len() > 0 && (a[0] as u32) == (b[0] as u32) {
        lemma_text_le_total(a.skip(1), b.skip(1));
    }
}

proof fn lemma_text_le_trans(a: Seq<char>, b: Seq<char>, c: Seq<char>)
    requires
        text_le(a, b),
        text_le(b, c),
    ensures
        text_le(a, c),
    decreases a.len(),
{
    if a.len() > 0 && b.len() > 0 && c.len() > 0 && (a[0] as u32) == (b[0] as u32) && (b[0]
        as u32) == (c[0] as u32) {
        lemma_text_le_trans(a.skip(1), b.skip(1), c.skip(1));
    }
}

proof fn lemma_insert_desc_bound(s: Seq<Seq<char>>, x: Seq<char>, y: Seq<char>)
    requires
        forall|k: int| 0 <= k < s.len() ==> text_le(#[trigger] s[k], y),
        text_le(x, y),
    ensures
        forall|k: int|
            0 <= k < insert_desc(s, x).len() ==> text_le(#[trigger] insert_desc(s, x)[k], y),
    decreases s.len(),
{
    if s.len() > 0 && !text_le(s[0], x) {
        let t = s.skip(1);
        assert forall|k: int| 0 <= k < t.len() implies text_le(#[trigger] t[k], y) by {
            assert(t[k] == s[k + 1]);
        }
        lemma_insert_desc_bound(t, x, y);
        let r = insert_desc(s, x);
        assert forall|k: int| 0 <= k < r.len() implies text_le(#[trigger] r[k], y) by {
            if k > 0 {
                assert(r[k] == insert_desc(t, x)[k - 1]);
            }
        }
    } else if s.len() > 0 {
        let r = insert_desc(s, x);
        assert forall|k: int| 0 <= k < r.len() implies text_le(#[trigger] r[k], y) by {
            if k > 0 {
                assert(r[k] == s[k - 1]);
            }
        }
    }
}

proof fn lemma_insert_desc(s: Seq<Seq<char>>, x: Seq<char>)
    requires
        is_descending(s),
    ensures
        is_descending(insert_desc(s, x)),
        insert_desc(s, x).to_multiset() == s.to_multiset().insert(x),
    decreases s.len(),
{
    broadcast use vstd::seq_lib::lemma_multiset_commutative;
    broadcast use vstd::multiset::group_multiset_axioms;

    let r = insert_desc(s, x);
    let one = seq![x];
    assert(one =~= Seq::<Seq<char>>::empty().push(x));
    Seq::<Seq<char>>::empty().to_multiset_ensures();
    vstd::multiset::lemma_multiset_empty_len(Seq::<Seq<char>>::empty().to_multiset());
    if s.len() == 0 {
        assert(r == one);
        assert(s =~= Seq::<Seq<char>>::empty());
    } else if text_le(s[0], x) {
        assert(r == one + s);
        assert forall|i: int, j: int| 0 <= i < j < r.len() implies text_le(
            #[trigger] r[j],
            #[trigger] r[i],
        ) by {
            assert(r[j] == s[j - 1]);
            if i == 0 {
                if j > 1 {
                    assert(text_le(s[j - 1], s[0]));
                    lemma_text_le_trans(s[j - 1], s[0], x);
                }
            } else {
                assert(r[i] == s[i - 1]);
            }
        }
        assert(r.to_multiset() =~= s.to_multiset().insert(x));
    } else {
        let t = s.skip(1);
        let head = seq![s[0]];
        assert(head =~= Seq::<Seq<char>>::empty().push(s[0]));
        assert(head + t =~= s);
        assert(is_descending(t)) by {
            assert forall|i: int, j: int| 0 <= i < j < t.len() implies text_le(
                #[trigger] t[j],
                #[trigger] t[i],
            ) by {
                assert(t[j] == s[j + 1] && t[i] == s[i + 1]);
            }
        }
        lemma_insert_desc(t, x);
        let rest = insert_desc(t, x);
        assert(r == head + rest);
        lemma_text_le_total(s[0], x);
        assert forall|k: int| 0 <= k < t.len() implies text_le(#[trigger] t[k], s[0]) by {
            assert(t[k] == s[k + 1]);
        }
        lemma_insert_desc_bound(t, x, s[0]);
        assert forall|i: int, j: int| 0 <= i < j < r.len() implies text_le(
            #[trigger] r[j],
            #[trigger] r[i],
        ) by {
            assert(r[j] == rest[j - 1]);
            if i > 0 {
                assert(r[i] == rest[i - 1]);
            }
        }
        assert(r.to_multiset() =~= s.to_multiset().insert(x));
    }
}

/// The descending sort of a list of texts is in descending lexicographic
/// order and holds the same texts, each as many times.
pub proof fn lemma_sort_desc(s: Seq<Seq<char>>)
    ensures
        is_descending(sort_desc(s)),
        sort_desc(s).to_multiset() == s.to_multiset(),
    decreases s.len(),
{
    if s.len() > 0 {
        let prev = s.drop_last();
        lemma_sort_desc(prev);
        lemma_insert_desc(sort_desc(prev), s.last());
        prev.to_multiset_ensures();
        assert(prev.push(s.last()) =~= s);
        assert(prev.push(s.last()).to_multiset() == prev.to_multiset().insert(s.last()));
    } else {
        assert(s =~= Seq::<Seq<char>>::empty());
    }
}

} // verus!
