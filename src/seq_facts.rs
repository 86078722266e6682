use vstd::prelude::*;
use crate::tierlist::{ItemId, without};

verus! {

pub proof fn lemma_without_absent(s: Seq<ItemId>, id: ItemId)
    requires
        !s.contains(id),
    ensures
        without(s, id) == s,
    decreases s.len(),
{
    reveal(Seq::filter);
    if s.len() > 0 {
        assert(!s.drop_last().contains(id)) by {
            if s.drop_last().contains(id) {
                let k = choose|k: int| 0 <= k < s.drop_last().len() && s.drop_last()[k] == id;
                assert(s[k] == id);
            }
        }
        lemma_without_absent(s.drop_last(), id);
        assert(s.last() != id) by {
            assert(s[s.len() - 1] == s.last());
        }
        assert(s.drop_last().push(s.last()) =~= s);
    }
}

proof fn lemma_without_single(id: ItemId)
    ensures
        without(seq![id], id) == Seq::<ItemId>::empty(),
{
    reveal_with_fuel(Seq::<_>::filter, 2);
    let e = Seq::<ItemId>::empty();
    assert(seq![id].drop_last() =~= e);
    assert(seq![id].last() == id);
    assert(e.filter(|x: ItemId| x != id) == e);
}

pub proof fn lemma_without_remove(s: Seq<ItemId>, k: int, id: ItemId)
    requires
        s.no_duplicates(),
        0 <= k < s.len(),
        s[k] == id,
    ensures
        without(s, id) == s.remove(k),
{
    let a = s.take(k);
    let b = s.skip(k + 1);
    assert(s =~= a + seq![id] + b);
    assert(s.remove(k) =~= a + b);
    assert(!a.contains(id)) by {
        if a.contains(id) {
            let j = choose|j: int| 0 <= j < a.len() && a[j] == id;
            assert(s[j] == s[k]);
        }
    }
    assert(!b.contains(id)) by {
        if b.contains(id) {
            let j = choose|j: int| 0 <= j < b.len() && b[j] == id;
            assert(s[j + k + 1] == s[k]);
        }
    }
    let p = |x: ItemId| x != id;
    Seq::filter_distributes_over_add(a + seq![id], b, p);
    Seq::filter_distributes_over_add(a, seq![id], p);
    Seq::filter_distributes_over_add(a, b, p);
    lemma_without_absent(a, id);
    lemma_without_absent(b, id);
    lemma_without_single(id);
    assert(a + Seq::<ItemId>::empty() =~= a);
}

pub proof fn lemma_without_insert(s: Seq<ItemId>, p: int, id: ItemId)
    requires
        !s.contains(id),
        0 <= p <= s.len(),
    ensures
        without(s.insert(p, id), id) == s,
{
    let a = s.take(p);
    let b = s.skip(p);
    assert(s.insert(p, id) =~= a + seq![id] + b);
    assert(s =~= a + b);
    assert(!a.contains(id)) by {
        if a.contains(id) {
            let j = choose|j: int| 0 <= j < a.len() && a[j] == id;
            assert(s[j] == id);
        }
    }
    assert(!b.contains(id)) by {
        if b.contains(id) {
            let j = choose|j: int| 0 <= j < b.len() && b[j] == id;
            assert(s[j + p] == id);
        }
    }
    let f = |x: ItemId| x != id;
    Seq::filter_distributes_over_add(a + seq![id], b, f);
    Seq::filter_distributes_over_add(a, seq![id], f);
    lemma_without_absent(a, id);
    lemma_without_absent(b, id);
    lemma_without_absent(s, id);
    lemma_without_single(id);
    assert(a + Seq::<ItemId>::empty() =~= a);
}

pub proof fn lemma_remove_facts(s: Seq<ItemId>, k: int)
    requires
        s.no_duplicates(),
        0 <= k < s.len(),
    ensures
        s.remove(k).no_duplicates(),
        forall|x: ItemId| #[trigger] s.remove(k).contains(x) <==> (s.contains(x) && x != s[k]),
{
    let r = s.remove(k);
    assert forall|x: ItemId| #[trigger] r.contains(x) <==> (s.contains(x) && x != s[k]) by {
        if r.contains(x) {
            let j = choose|j: int| 0 <= j < r.len() && r[j] == x;
            if j < k {
                assert(s[j] == x);
            } else {
                assert(s[j + 1] == x);
            }
        }
        if s.contains(x) && x != s[k] {
            let j = choose|j: int| 0 <= j < s.len() && s[j] == x;
            if j < k {
                assert(r[j] == x);
            } else {
                assert(r[j - 1] == x);
            }
        }
    }
    assert forall|a: int, b: int| 0 <= a < r.len() && 0 <= b < r.len() && a != b implies r[a]
        != r[b] by {
        let oa = if a < k { a } else { a + 1 };
        let ob = if b < k { b } else { b + 1 };
        assert(r[a] == s[oa]);
        assert(r[b] == s[ob]);
    }
}

pub proof fn lemma_insert_facts(s: Seq<ItemId>, p: int, id: ItemId)
    requires
        s.no_duplicates(),
        !s.contains(id),
        0 <= p <= s.len(),
    ensures
        s.insert(p, id).no_duplicates(),
        forall|x: ItemId| #[trigger] s.insert(p, id).contains(x) <==> (s.contains(x) || x == id),
{
    let r = s.insert(p, id);
    assert(r[p] == id);
    assert forall|x: ItemId| #[trigger] r.contains(x) <==> (s.contains(x) || x == id) by {
        if r.contains(x) && x != id {
            let j = choose|j: int| 0 <= j < r.len() && r[j] == x;
            if j < p {
                assert(s[j] == x);
            } else {
                assert(s[j - 1] == x);
            }
        }
        if s.contains(x) {
            let j = choose|j: int| 0 <= j < s.len() && s[j] == x;
            if j < p {
                assert(r[j] == x);
            } else {
                assert(r[j + 1] == x);
            }
        }
    }
    assert forall|a: int, b: int| 0 <= a < r.len() && 0 <= b < r.len() && a != b implies r[a]
        != r[b] by {
        if a != p && b != p {
            let oa = if a < p { a } else { a - 1 };
            let ob = if b < p { b } else { b - 1 };
            assert(r[a] == s[oa]);
            assert(r[b] == s[ob]);
        } else if a == p {
            let ob = if b < p { b } else { b - 1 };
            assert(r[b] == s[ob]);
        } else {
            let oa = if a < p { a } else { a - 1 };
            assert(r[a] == s[oa]);
        }
    }
}

} // verus!
