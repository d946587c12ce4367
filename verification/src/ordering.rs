use vstd::prelude::*;

use crate::text::chars_of;

verus! {

/// Where the stable insertion of `x` into `s` puts it: after every element that does
/// not come strictly after `x`, scanning from the end.
pub open spec fn ins_sorted<A>(s: Seq<A>, x: A, gt: spec_fn(A, A) -> bool) -> Seq<A>
    decreases s.len(),
{
    if s.len() == 0 {
        seq![x]
    } else if gt(s.last(), x) {
        ins_sorted(s.drop_last(), x, gt).push(s.last())
    } else {
        s.push(x)
    }
}

/// Stable insertion sort: elements in the order given by `gt`, equal elements in their
/// original order.
pub open spec fn stable_sorted<A>(s: Seq<A>, gt: spec_fn(A, A) -> bool) -> Seq<A>
    decreases s.len(),
{
    if s.len() == 0 {
        s
    } else {
        ins_sorted(stable_sorted(s.drop_last(), gt), s.last(), gt)
    }
}

/// Inserting at the position the backward scan finds is the stable insertion.
pub proof fn lemma_ins_at<A>(s: Seq<A>, x: A, gt: spec_fn(A, A) -> bool, j: int)
    requires
        0 <= j <= s.len(),
        forall|k: int| j <= k < s.len() ==> gt(#[trigger] s[k], x),
        j > 0 ==> !gt(s[j - 1], x),
    ensures
        ins_sorted(s, x, gt) == s.insert(j, x),
    decreases s.len(),
{
    if s.len() == 0 {
        assert(s.insert(0, x) =~= seq![x]);
    } else if j == s.len() {
        assert(s.insert(j, x) =~= s.push(x));
    } else {
        let t = s.drop_last();
        assert(gt(s[s.len() - 1], x));
        assert forall|k: int| j <= k < t.len() implies gt(#[trigger] t[k], x) by {
            assert(t[k] == s[k]);
        }
        if j > 0 {
            assert(t[j - 1] == s[j - 1]);
        }
        lemma_ins_at(t, x, gt, j);
        assert(t.insert(j, x).push(s.last()) =~= s.insert(j, x));
    }
}

/// Whether `a` comes before `b` in lexicographic order of characters (the order of
/// `String`'s comparison, since UTF-8 keeps code-point order).
pub open spec fn text_lt(a: Seq<char>, b: Seq<char>) -> bool
    decreases a.len(),
{
    if a.len() == 0 {
        b.len() > 0
    } else if b.len() == 0 {
        false
    } else if (a[0] as u32) < (b[0] as u32) {
        true
    } else if (a[0] as u32) > (b[0] as u32) {
        false
    } else {
        text_lt(a.drop_first(), b.drop_first())
    }
}

/// Compares two texts lexicographically by characters.
pub fn text_less(a: &str, b: &str) -> (r: bool)
    ensures
        r == text_lt(a@, b@),
{
    let ac = chars_of(a);
    let bc = chars_of(b);
    let mut i: usize = 0;
    proof {
        assert(a@.subrange(0, a@.len() as int) =~= a@);
        assert(b@.subrange(0, b@.len() as int) =~= b@);
    }
    while i < ac.len() && i < bc.len()
        invariant
            ac@ == a@,
            bc@ == b@,
            i <= ac@.len(),
            i <= bc@.len(),
            text_lt(a@, b@) == text_lt(a@.subrange(i as int, a@.len() as int), b@.subrange(
                i as int,
                b@.len() as int,
            )),
        decreases ac@.len() - i,
    {
        let x = ac[i];
        let y = bc[i];
        let ghost sa = a@.subrange(i as int, a@.len() as int);
        let ghost sb = b@.subrange(i as int, b@.len() as int);
        proof {
            assert(sa[0] == x);
            assert(sb[0] == y);
        }
        if (x as u32) < (y as u32) {
            return true;
        }
        if (x as u32) > (y as u32) {
            return false;
        }
        proof {
            assert(sa.drop_first() =~= a@.subrange(i + 1, a@.len() as int));
            assert(sb.drop_first() =~= b@.subrange(i + 1, b@.len() as int));
            assert((x as u32) == (y as u32));
        }
        i = i + 1;
    }
    proof {
        let sa = a@.subrange(i as int, a@.len() as int);
        let sb = b@.subrange(i as int, b@.len() as int);
        assert(sa.len() == 0 || sb.len() == 0);
    }
    i == ac.len() && i < bc.len()
}


proof fn lemma_ins_sorted_multiset<A>(s: Seq<A>, x: A, gt: spec_fn(A, A) -> bool)
    ensures
        ins_sorted(s, x, gt).to_multiset() == s.to_multiset().insert(x),
    decreases s.len(),
{
    broadcast use vstd::seq_lib::group_to_multiset_ensures;
    if s.len() == 0 {
        assert(seq![x] =~= Seq::<A>::empty().push(x));
    } else if gt(s.last(), x) {
        let t = s.drop_last();
        lemma_ins_sorted_multiset(t, x, gt);
        assert(s =~= t.push(s.last()));
        assert(ins_sorted(s, x, gt).to_multiset() =~= s.to_multiset().insert(x));
    }
}

/// A stable sort neither loses nor adds elements: the sorted sequence holds each
/// element as often as the input does.
pub proof fn law_stable_sort_permutes<A>(s: Seq<A>, gt: spec_fn(A, A) -> bool)
    ensures
        stable_sorted(s, gt).to_multiset() == s.to_multiset(),
        stable_sorted(s, gt).len() == s.len(),
    decreases s.len(),
{
    broadcast use vstd::seq_lib::group_to_multiset_ensures;
    if s.len() > 0 {
        let t = s.drop_last();
        law_stable_sort_permutes(t, gt);
        lemma_ins_sorted_multiset(stable_sorted(t, gt), s.last(), gt);
        assert(s =~= t.push(s.last()));
        assert(stable_sorted(s, gt).to_multiset() =~= s.to_multiset());
        assert(stable_sorted(s, gt).to_multiset().len() == stable_sorted(s, gt).len());
        assert(s.to_multiset().len() == s.len());
    }
}


/// No element comes strictly after a later one.
pub open spec fn is_ordered<A>(s: Seq<A>, gt: spec_fn(A, A) -> bool) -> bool {
    forall|i: int, j: int| 0 <= i < j < s.len() ==> !gt(#[trigger] s[i], #[trigger] s[j])
}

/// `gt` is asymmetric and its complement is transitive (a strict weak order).
pub open spec fn weak_order<A>(gt: spec_fn(A, A) -> bool) -> bool {
    &&& forall|a: A, b: A| #[trigger] gt(a, b) ==> !gt(b, a)
    &&& forall|a: A, b: A, c: A| #![trigger gt(a, b), gt(b, c)] !gt(a, b) && !gt(b, c) ==> !gt(a, c)
}

proof fn lemma_ins_sorted_ordered<A>(s: Seq<A>, x: A, gt: spec_fn(A, A) -> bool)
    requires
        weak_order(gt),
        is_ordered(s, gt),
    ensures
        is_ordered(ins_sorted(s, x, gt), gt),
    decreases s.len(),
{
    broadcast use vstd::seq_lib::group_to_multiset_ensures;
    if s.len() == 0 {
    } else if gt(s.last(), x) {
        let t = s.drop_last();
        assert(is_ordered(t, gt)) by {
            assert forall|i: int, j: int| 0 <= i < j < t.len() implies !gt(#[trigger] t[i], #[trigger] t[j]) by {
                assert(t[i] == s[i] && t[j] == s[j]);
            }
        }
        lemma_ins_sorted_ordered(t, x, gt);
        lemma_ins_sorted_multiset(t, x, gt);
        let u = ins_sorted(t, x, gt);
        let r = u.push(s.last());
        assert forall|i: int, j: int| 0 <= i < j < r.len() implies !gt(#[trigger] r[i], #[trigger] r[j]) by {
            if j < u.len() {
                assert(r[i] == u[i] && r[j] == u[j]);
            } else {
                assert(r[i] == u[i]);
                assert(r[j] == s.last());
                assert(u.to_multiset().count(u[i]) > 0);
                if u[i] == x {
                    assert(!gt(x, s.last()));
                } else {
                    assert(t.to_multiset().count(u[i]) > 0);
                    assert(t.contains(u[i]));
                    let k = choose|k: int| 0 <= k < t.len() && t[k] == u[i];
                    assert(s[k] == t[k]);
                    assert(!gt(s[k], s[s.len() - 1]));
                }
            }
        }
    } else {
        let r = s.push(x);
        assert forall|i: int, j: int| 0 <= i < j < r.len() implies !gt(#[trigger] r[i], #[trigger] r[j]) by {
            assert(r[i] == s[i]);
            if j < s.len() {
                assert(r[j] == s[j]);
            } else {
                assert(r[j] == x);
                if i < s.len() - 1 {
                    assert(!gt(s[i], s[s.len() - 1]));
                    assert(!gt(s[s.len() - 1], x));
                }
            }
        }
    }
}

/// A stable sort by a strict weak order leaves the elements in order.
pub proof fn law_stable_sort_orders<A>(s: Seq<A>, gt: spec_fn(A, A) -> bool)
    requires
        weak_order(gt),
    ensures
        is_ordered(stable_sorted(s, gt), gt),
    decreases s.len(),
{
    if s.len() > 0 {
        law_stable_sort_orders(s.drop_last(), gt);
        lemma_ins_sorted_ordered(stable_sorted(s.drop_last(), gt), s.last(), gt);
    }
}

/// `text_lt` is asymmetric.
pub proof fn lemma_text_lt_asym(a: Seq<char>, b: Seq<char>)
    ensures
        text_lt(a, b) ==> !text_lt(b, a),
    decreases a.len(),
{
    if a.len() > 0 && b.len() > 0 && (a[0] as u32) == (b[0] as u32) {
        lemma_text_lt_asym(a.drop_first(), b.drop_first());
    }
}

/// When `z` comes before `x`, any `y` comes after `z` or before `x`.
pub proof fn lemma_text_lt_split(x: Seq<char>, y: Seq<char>, z: Seq<char>)
    ensures
        text_lt(z, x) ==> text_lt(z, y) || text_lt(y, x),
    decreases x.len(),
{
    if x.len() > 0 && y.len() > 0 && z.len() > 0 && (x[0] as u32) == (y[0] as u32) && (y[0] as u32) == (z[0] as u32) {
        lemma_text_lt_split(x.drop_first(), y.drop_first(), z.drop_first());
    }
}

/// `text_lt` is total on different texts.
pub proof fn lemma_text_lt_total(a: Seq<char>, b: Seq<char>)
    ensures
        a != b ==> text_lt(a, b) || text_lt(b, a),
    decreases a.len(),
{
    if a.len() == 0 && b.len() == 0 {
        assert(a =~= b);
    } else if a.len() > 0 && b.len() > 0 && (a[0] as u32) == (b[0] as u32) {
        lemma_text_lt_total(a.drop_first(), b.drop_first());
        if a.drop_first() == b.drop_first() {
            vstd::utf8::char_u32_cast(a[0], a[0] as u32);
            vstd::utf8::char_u32_cast(b[0], b[0] as u32);
            assert(a[0] == b[0]);
            assert(a =~= seq![a[0]] + a.drop_first());
            assert(b =~= seq![b[0]] + b.drop_first());
        }
    }
}

} // verus!
