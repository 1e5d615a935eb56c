use vstd::prelude::*;

verus! {

broadcast use vstd::seq_lib::group_filter_ensures;

/// Dropping one element that occurs once shortens a sequence by one.
pub proof fn lemma_filter_out_one<A>(s: Seq<A>, a: A, p: spec_fn(A) -> bool)
    requires
        s.no_duplicates(),
        s.contains(a),
        forall|x: A| #[trigger] p(x) == (x != a),
    ensures
        s.filter(p).len() == s.len() - 1,
    decreases s.len(),
{
    let k0 = choose|k: int| 0 <= k < s.len() && s[k] == a;
    let t = s.drop_last();
    assert(t.len() == s.len() - 1);
    assert(s =~= t.push(s.last()));
    t.lemma_filter_push(s.last(), p);
    if s.last() == a {
        assert forall|x: A| t.contains(x) implies p(x) by {
            let k = choose|k: int| 0 <= k < t.len() && t[k] == x;
            assert(s[k] == t[k]);
            assert(s[k] != s[s.len() - 1]);
        }
        lemma_filter_all(t, p);
    } else {
        assert(t[k0] == a);
        lemma_filter_out_one(t, a, p);
    }
}

/// Filtering with a predicate that every element satisfies changes nothing.
pub proof fn lemma_filter_all<A>(s: Seq<A>, p: spec_fn(A) -> bool)
    requires
        forall|x: A| s.contains(x) ==> p(x),
    ensures
        s.filter(p) == s,
    decreases s.len(),
{
    if s.len() > 0 {
        let t = s.drop_last();
        assert(t.len() == s.len() - 1);
        assert(s =~= t.push(s.last()));
        assert(s.contains(s[s.len() - 1]));
        assert forall|x: A| t.contains(x) implies p(x) by {
            let k = choose|k: int| 0 <= k < t.len() && t[k] == x;
            assert(s[k] == t[k]);
            assert(s.contains(s[k]));
        }
        lemma_filter_all(t, p);
        t.lemma_filter_push(s.last(), p);
    } else {
        assert(s.filter(p) =~= s);
    }
}

/// Filtering a prefix one element longer.
pub proof fn lemma_filter_step<A>(s: Seq<A>, p: spec_fn(A) -> bool, i: int)
    requires
        0 <= i < s.len(),
    ensures
        s.take(i + 1).filter(p) == if p(s[i]) {
            s.take(i).filter(p).push(s[i])
        } else {
            s.take(i).filter(p)
        },
{
    assert(s.take(i + 1) =~= s.take(i).push(s[i]));
    s.take(i).lemma_filter_push(s[i], p);
}

/// Appending keeps every element already present.
pub proof fn lemma_push_keeps<A>(s: Seq<A>, a: A)
    ensures
        forall|x: A| s.contains(x) ==> #[trigger] s.push(a).contains(x),
        s.push(a).contains(a),
{
    assert forall|x: A| s.contains(x) implies #[trigger] s.push(a).contains(x) by {
        let k = choose|k: int| 0 <= k < s.len() && s[k] == x;
        assert(s.push(a)[k] == x);
    }
    assert(s.push(a)[s.len() as int] == a);
}

/// Filtering keeps exactly the elements that satisfy the predicate.
pub proof fn lemma_filter_contains_iff<A>(s: Seq<A>, p: spec_fn(A) -> bool, x: A)
    ensures
        s.filter(p).contains(x) == (s.contains(x) && p(x)),
{
    if s.filter(p).contains(x) {
        s.lemma_filter_contains_rev(p, x);
        let k = choose|k: int| 0 <= k < s.filter(p).len() && s.filter(p)[k] == x;
        s.lemma_filter_pred(p, k);
    }
    if s.contains(x) && p(x) {
        let k = choose|k: int| 0 <= k < s.len() && s[k] == x;
        s.lemma_filter_contains(p, k);
    }
}

/// Filtering keeps a sequence free of duplicates.
pub proof fn lemma_filter_no_dup<A>(s: Seq<A>, p: spec_fn(A) -> bool)
    requires
        s.no_duplicates(),
    ensures
        s.filter(p).no_duplicates(),
    decreases s.len(),
{
    if s.len() > 0 {
        let t = s.drop_last();
        assert(s =~= t.push(s.last()));
        assert(t.no_duplicates());
        lemma_filter_no_dup(t, p);
        t.lemma_filter_push(s.last(), p);
        if p(s.last()) {
            if t.filter(p).contains(s.last()) {
                t.lemma_filter_contains_rev(p, s.last());
                let k = choose|k: int| 0 <= k < t.len() && t[k] == s.last();
                assert(s[k] == s[s.len() - 1]);
            }
        }
    }
}

} // verus!
