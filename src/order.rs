use vstd::prelude::*;

use crate::propose::Request;

verus! {

/// `s` with `e` placed after every request whose key is no greater.
pub open spec fn insert_by_key<P>(s: Seq<Request<P>>, e: Request<P>) -> Seq<Request<P>>
    decreases s.len(),
{
    if s.len() == 0 {
        seq![e]
    } else if s.last().key <= e.key {
        s.push(e)
    } else {
        insert_by_key(s.drop_last(), e).push(s.last())
    }
}

/// The requests in order of key; requests of equal key keep their order.
pub open spec fn sort_by_key<P>(s: Seq<Request<P>>) -> Seq<Request<P>>
    decreases s.len(),
{
    if s.len() == 0 {
        Seq::empty()
    } else {
        insert_by_key(sort_by_key(s.drop_last()), s.last())
    }
}

/// Keys never decrease along `s`.
pub open spec fn key_ordered<P>(s: Seq<Request<P>>) -> bool {
    forall|i: int, j: int| 0 <= i < j < s.len() ==> (#[trigger] s[i]).key <= (#[trigger] s[j]).key
}

proof fn lemma_insert_at<P>(s: Seq<Request<P>>, e: Request<P>, pos: int)
    requires
        0 <= pos <= s.len(),
        pos == 0 || s[pos - 1].key <= e.key,
        forall|i: int| pos <= i < s.len() ==> (#[trigger] s[i]).key > e.key,
    ensures
        insert_by_key(s, e) == s.insert(pos, e),
    decreases s.len(),
{
    if s.len() == 0 {
        assert(s.insert(pos, e) =~= seq![e]);
    } else if pos == s.len() {
        assert(s.insert(pos, e) =~= s.push(e));
    } else {
        let init = s.drop_last();
        assert(s[s.len() - 1].key > e.key);
        assert forall|i: int| pos <= i < init.len() implies (#[trigger] init[i]).key > e.key by {
            assert(init[i] == s[i]);
        }
        lemma_insert_at(init, e, pos);
        assert(s.insert(pos, e) =~= init.insert(pos, e).push(s.last()));
    }
}

proof fn lemma_insert_ordered<P>(s: Seq<Request<P>>, e: Request<P>)
    requires
        key_ordered(s),
    ensures
        key_ordered(insert_by_key(s, e)),
        insert_by_key(s, e).len() == s.len() + 1,
        forall|i: int|
            0 <= i < insert_by_key(s, e).len() ==> (#[trigger] insert_by_key(s, e)[i]) == e || s.contains(
                insert_by_key(s, e)[i],
            ),
    decreases s.len(),
{
    if s.len() > 0 && s.last().key > e.key {
        let init = s.drop_last();
        assert(key_ordered(init)) by {
            assert forall|i: int, j: int| 0 <= i < j < init.len() implies (#[trigger] init[i]).key <= (#[trigger] init[j]).key by {
                assert(init[i] == s[i] && init[j] == s[j]);
            }
        }
        lemma_insert_ordered(init, e);
        let r = insert_by_key(s, e);
        let m = insert_by_key(init, e);
        assert forall|i: int| 0 <= i < m.len() implies (#[trigger] m[i]).key <= s.last().key by {
            if m[i] != e {
                let w = choose|w: int| 0 <= w < init.len() && init[w] == m[i];
                assert(s[w] == init[w]);
                assert(s[w].key <= s[s.len() - 1].key);
            }
        }
        assert forall|i: int, j: int| 0 <= i < j < r.len() implies (#[trigger] r[i]).key <= (#[trigger] r[j]).key by {
            if j < m.len() {
                assert(r[i] == m[i] && r[j] == m[j]);
            } else {
                assert(r[i] == m[i]);
            }
        }
        assert forall|i: int| 0 <= i < r.len() implies (#[trigger] r[i]) == e || s.contains(r[i]) by {
            if i < m.len() {
                assert(r[i] == m[i]);
                if m[i] != e {
                    let w = choose|w: int| 0 <= w < init.len() && init[w] == m[i];
                    assert(s[w] == init[w]);
                }
            } else {
                assert(s[s.len() - 1] == r[i]);
            }
        }
    } else if s.len() > 0 {
        let r = insert_by_key(s, e);
        assert forall|i: int, j: int| 0 <= i < j < r.len() implies (#[trigger] r[i]).key <= (#[trigger] r[j]).key by {
            if j == s.len() {
                assert(s[i].key <= s[s.len() - 1].key || i == s.len() - 1);
            }
        }
        assert forall|i: int| 0 <= i < r.len() implies (#[trigger] r[i]) == e || s.contains(r[i]) by {
            if i < s.len() {
                assert(r[i] == s[i]);
            }
        }
    }
}

/// The sorted requests are ordered by key, and each is one of the requests.
pub proof fn lemma_sorted<P>(s: Seq<Request<P>>)
    ensures
        key_ordered(sort_by_key(s)),
        sort_by_key(s).len() == s.len(),
        forall|i: int| 0 <= i < sort_by_key(s).len() ==> s.contains(#[trigger] sort_by_key(s)[i]),
    decreases s.len(),
{
    if s.len() > 0 {
        let init = s.drop_last();
        lemma_sorted(init);
        lemma_insert_ordered(sort_by_key(init), s.last());
        let r = sort_by_key(s);
        assert forall|i: int| 0 <= i < r.len() implies s.contains(#[trigger] r[i]) by {
            if r[i] == s.last() {
                assert(s[s.len() - 1] == r[i]);
            } else {
                let m = sort_by_key(init);
                assert(m.contains(r[i]));
                let w = choose|w: int| 0 <= w < m.len() && m[w] == r[i];
                assert(init.contains(m[w]));
                let v = choose|v: int| 0 <= v < init.len() && init[v] == m[w];
                assert(s[v] == init[v]);
            }
        }
    }
}

/// Sorts requests by key, stably, for in-order traversal of the trace.
pub fn sort_requests<P: Copy>(entries: &Vec<Request<P>>) -> (r: Vec<Request<P>>)
    ensures
        r@ == sort_by_key(entries@),
{
    let mut r: Vec<Request<P>> = Vec::new();
    let mut j: usize = 0;
    while j < entries.len()
        invariant
            j <= entries@.len(),
            r@ == sort_by_key(entries@.take(j as int)),
        decreases entries@.len() - j,
    {
        let e = entries[j];
        let mut pos: usize = r.len();
        while pos > 0 && r[pos - 1].key > e.key
            invariant
                pos <= r@.len(),
                forall|i: int| pos <= i < r@.len() ==> (#[trigger] r@[i]).key > e.key,
            decreases pos,
        {
            pos = pos - 1;
        }
        proof {
            lemma_insert_at(r@, e, pos as int);
            assert(entries@.take(j + 1).drop_last() =~= entries@.take(j as int));
            assert(entries@.take(j + 1).last() == e);
        }
        r.insert(pos, e);
        j = j + 1;
    }
    assert(entries@.take(j as int) =~= entries@);
    r
}

} // verus!
