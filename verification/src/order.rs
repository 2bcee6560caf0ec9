//! The order in which names and paths are listed: lexicographic, character by
//! character, by code point. This is the order of `str` in Rust.

use vstd::prelude::*;
use vstd::std_specs::iter::IteratorSpec;

verus! {

/// `a` comes strictly before `b`: at the first position where they differ `a`
/// has the smaller code point, or `a` is a proper prefix of `b`.
pub open spec fn lex_lt(a: Seq<char>, b: Seq<char>) -> bool
    decreases a.len(),
{
    if b.len() == 0 {
        false
    } else if a.len() == 0 {
        true
    } else if a[0] != b[0] {
        a[0] < b[0]
    } else {
        lex_lt(a.skip(1), b.skip(1))
    }
}

/// Every item comes strictly before all later ones. Such a sequence holds no
/// item twice.
pub open spec fn strictly_sorted(q: Seq<Seq<char>>) -> bool {
    forall|i: int, j: int| #![trigger q[i], q[j]] 0 <= i < j < q.len() ==> lex_lt(q[i], q[j])
}

/// `q` lists the members of `s`, each once, in increasing order.
pub open spec fn lists_in_order(q: Seq<Seq<char>>, s: Set<Seq<char>>) -> bool {
    &&& strictly_sorted(q)
    &&& forall|x: Seq<char>| q.contains(x) <==> s.contains(x)
}

/// The members of a finite set in increasing order.
pub open spec fn sorted_listing(s: Set<Seq<char>>) -> Seq<Seq<char>> {
    choose|q: Seq<Seq<char>>| lists_in_order(q, s)
}

/// Where `x` goes in the strictly sorted `q`: behind every item that comes
/// before it.
pub open spec fn insertion_point(q: Seq<Seq<char>>, x: Seq<char>) -> int
    decreases q.len(),
{
    if q.len() == 0 {
        0
    } else if lex_lt(q.last(), x) {
        q.len() as int
    } else {
        insertion_point(q.drop_last(), x)
    }
}

/// Nothing comes before itself.
pub proof fn lemma_lex_irreflexive(a: Seq<char>)
    ensures
        !lex_lt(a, a),
    decreases a.len(),
{
    if a.len() > 0 {
        lemma_lex_irreflexive(a.skip(1));
    }
}

/// The order is transitive.
pub proof fn lemma_lex_transitive(a: Seq<char>, b: Seq<char>, c: Seq<char>)
    requires
        lex_lt(a, b),
        lex_lt(b, c),
    ensures
        lex_lt(a, c),
    decreases a.len(),
{
    if a.len() > 0 && a[0] == b[0] && b[0] == c[0] {
        lemma_lex_transitive(a.skip(1), b.skip(1), c.skip(1));
    }
}

/// Of two different texts one comes before the other.
pub proof fn lemma_lex_total(a: Seq<char>, b: Seq<char>)
    ensures
        lex_lt(a, b) || a == b || lex_lt(b, a),
    decreases a.len(),
{
    if a.len() == 0 || b.len() == 0 {
        if a.len() == 0 && b.len() == 0 {
            assert(a =~= b);
        }
    } else if a[0] == b[0] {
        lemma_lex_total(a.skip(1), b.skip(1));
        if a.skip(1) == b.skip(1) {
            assert(a =~= seq![a[0]] + a.skip(1));
            assert(b =~= seq![b[0]] + b.skip(1));
        }
    } else {
        assert(a[0] < b[0] || b[0] < a[0]);
    }
}

/// No two texts come before each other.
pub proof fn lemma_lex_asymmetric(a: Seq<char>, b: Seq<char>)
    requires
        lex_lt(a, b),
    ensures
        !lex_lt(b, a),
{
    if lex_lt(b, a) {
        lemma_lex_transitive(a, b, a);
        lemma_lex_irreflexive(a);
    }
}

/// A set has at most one listing in increasing order.
pub proof fn lemma_listing_unique(p: Seq<Seq<char>>, q: Seq<Seq<char>>, s: Set<Seq<char>>)
    requires
        lists_in_order(p, s),
        lists_in_order(q, s),
    ensures
        p == q,
    decreases p.len(),
{
    if p.len() == 0 {
        if q.len() > 0 {
            assert(q.contains(q[0]));
            assert(p.contains(q[0]));
        }
        assert(p =~= q);
    } else {
        let x = p.last();
        assert(p.contains(x));
        assert(q.contains(x));
        let j = choose|j: int| 0 <= j < q.len() && q[j] == x;
        let y = q.last();
        assert(q.contains(y));
        assert(p.contains(y));
        let i = choose|i: int| 0 <= i < p.len() && p[i] == y;
        if j < q.len() - 1 {
            // x comes before y in q, so y is not the last of p: it comes before x.
            assert(lex_lt(q[j], q[q.len() - 1]));
            if i < p.len() - 1 {
                assert(lex_lt(p[i], p[p.len() - 1]));
                lemma_lex_asymmetric(x, y);
            } else {
                lemma_lex_irreflexive(x);
            }
        }
        assert(y == x);
        let rest = s.remove(x);
        let p_front = p.drop_last();
        let q_front = q.drop_last();
        assert forall|z: Seq<char>| p_front.contains(z) <==> rest.contains(z) by {
            lemma_drop_last_contains(p, z);
        }
        assert forall|z: Seq<char>| q_front.contains(z) <==> rest.contains(z) by {
            lemma_drop_last_contains(q, z);
        }
        assert(strictly_sorted(p_front)) by {
            assert forall|a: int, b: int| 0 <= a < b < p_front.len() implies lex_lt(p_front[a], p_front[b]) by {
                assert(p_front[a] == p[a] && p_front[b] == p[b]);
            }
        }
        assert(strictly_sorted(q_front)) by {
            assert forall|a: int, b: int| 0 <= a < b < q_front.len() implies lex_lt(q_front[a], q_front[b]) by {
                assert(q_front[a] == q[a] && q_front[b] == q[b]);
            }
        }
        lemma_listing_unique(p_front, q_front, rest);
        assert(p =~= p_front.push(x));
        assert(q =~= q_front.push(x));
    }
}

/// In a strictly sorted sequence, all but the last item are the items other
/// than the last.
proof fn lemma_drop_last_contains(q: Seq<Seq<char>>, z: Seq<char>)
    requires
        strictly_sorted(q),
        q.len() > 0,
    ensures
        q.drop_last().contains(z) <==> (q.contains(z) && z != q.last()),
{
    let q_front = q.drop_last();
    if q_front.contains(z) {
        let i = choose|i: int| 0 <= i < q_front.len() && q_front[i] == z;
        assert(q[i] == z);
        assert(lex_lt(q[i], q[q.len() - 1]));
        lemma_lex_irreflexive(z);
    }
    if q.contains(z) && z != q.last() {
        let i = choose|i: int| 0 <= i < q.len() && q[i] == z;
        assert(q_front[i] == z);
    }
}

/// Putting a new item between the items before it and the items after it
/// gives the listing of the set with that item added.
pub proof fn lemma_insert_keeps_order(
    q: Seq<Seq<char>>,
    s: Set<Seq<char>>,
    x: Seq<char>,
    pos: int,
)
    requires
        lists_in_order(q, s),
        0 <= pos <= q.len(),
        forall|i: int| 0 <= i < pos ==> lex_lt(#[trigger] q[i], x),
        forall|i: int| pos <= i < q.len() ==> lex_lt(x, #[trigger] q[i]),
    ensures
        lists_in_order(q.insert(pos, x), s.insert(x)),
{
    let r = q.insert(pos, x);
    assert forall|i: int, j: int| 0 <= i < j < r.len() implies lex_lt(r[i], r[j]) by {
        if j < pos {
            assert(r[i] == q[i] && r[j] == q[j]);
        } else if j == pos {
            assert(r[i] == q[i]);
        } else if i < pos {
            assert(r[i] == q[i] && r[j] == q[j - 1]);
            lemma_lex_transitive(q[i], x, q[j - 1]);
        } else if i == pos {
            assert(r[j] == q[j - 1]);
        } else {
            assert(r[i] == q[i - 1] && r[j] == q[j - 1]);
        }
    }
    assert forall|z: Seq<char>| r.contains(z) <==> s.insert(x).contains(z) by {
        if r.contains(z) {
            let i = choose|i: int| 0 <= i < r.len() && r[i] == z;
            if i < pos {
                assert(q[i] == z);
                assert(q.contains(z));
            } else if i > pos {
                assert(q[i - 1] == z);
                assert(q.contains(z));
            }
        }
        if s.insert(x).contains(z) {
            if z == x {
                assert(r[pos] == z);
            } else {
                assert(q.contains(z));
                let i = choose|i: int| 0 <= i < q.len() && q[i] == z;
                if i < pos {
                    assert(r[i] == z);
                } else {
                    assert(r[i + 1] == z);
                }
            }
        }
    }
}

/// The insertion point parts a strictly sorted sequence into the items that
/// come before `x` and the items that do not.
pub proof fn lemma_insertion_point(q: Seq<Seq<char>>, x: Seq<char>)
    requires
        strictly_sorted(q),
    ensures
        0 <= insertion_point(q, x) <= q.len(),
        forall|i: int| 0 <= i < insertion_point(q, x) ==> lex_lt(#[trigger] q[i], x),
        forall|i: int| insertion_point(q, x) <= i < q.len() ==> !lex_lt(#[trigger] q[i], x),
    decreases q.len(),
{
    if q.len() > 0 {
        let q_front = q.drop_last();
        assert forall|a: int, b: int| 0 <= a < b < q_front.len() implies lex_lt(q_front[a], q_front[b]) by {
            assert(q_front[a] == q[a] && q_front[b] == q[b]);
        }
        lemma_insertion_point(q_front, x);
        if lex_lt(q.last(), x) {
            assert forall|i: int| 0 <= i < q.len() implies lex_lt(#[trigger] q[i], x) by {
                if i < q.len() - 1 {
                    assert(lex_lt(q[i], q[q.len() - 1]));
                    lemma_lex_transitive(q[i], q.last(), x);
                }
            }
        } else {
            assert forall|i: int| 0 <= i < insertion_point(q, x) implies lex_lt(
                #[trigger] q[i],
                x,
            ) by {
                assert(q[i] == q_front[i]);
            }
            assert forall|i: int| insertion_point(q, x) <= i < q.len() implies !lex_lt(
                #[trigger] q[i],
                x,
            ) by {
                if i < q.len() - 1 {
                    assert(q[i] == q_front[i]);
                }
            }
        }
    }
}

/// Every finite set has a listing in increasing order, and `sorted_listing`
/// is that listing.
pub proof fn lemma_sorted_listing(s: Set<Seq<char>>)
    requires
        s.finite(),
    ensures
        lists_in_order(sorted_listing(s), s),
    decreases s.len(),
{
    if s.len() == 0 {
        let q = Seq::<Seq<char>>::empty();
        assert forall|x: Seq<char>| q.contains(x) <==> s.contains(x) by {
            if s.contains(x) {
                assert(s.len() > 0);
            }
        }
        assert(lists_in_order(q, s));
    } else {
        let x = s.choose();
        let rest = s.remove(x);
        lemma_sorted_listing(rest);
        let q = sorted_listing(rest);
        let pos = insertion_point(q, x);
        lemma_insertion_point(q, x);
        assert forall|i: int| pos <= i < q.len() implies lex_lt(x, #[trigger] q[i]) by {
            assert(q.contains(q[i]));
            lemma_lex_total(q[i], x);
        }
        lemma_insert_keeps_order(q, rest, x, pos);
        assert(rest.insert(x) =~= s);
        assert(lists_in_order(q.insert(pos, x), s));
    }
}

/// Whether `a` comes strictly before `b`.
pub fn str_lt(a: &str, b: &str) -> (before: bool)
    ensures
        before == lex_lt(a@, b@),
{
    let mut left = a.chars();
    let mut right = b.chars();
    let ghost mut k: int = 0;
    loop
        invariant
            0 <= k <= a@.len(),
            k <= b@.len(),
            left.remaining() == a@.skip(k),
            right.remaining() == b@.skip(k),
            lex_lt(a@, b@) == lex_lt(a@.skip(k), b@.skip(k)),
        decreases a@.len() - k,
    {
        let y = right.next();
        let x = left.next();
        match y {
            None => {
                return false;
            },
            Some(cb) => {
                match x {
                    None => {
                        return true;
                    },
                    Some(ca) => {
                        if ca != cb {
                            return ca < cb;
                        }
                        proof {
                            assert(a@.skip(k).skip(1) == a@.skip(k + 1));
                            assert(b@.skip(k).skip(1) == b@.skip(k + 1));
                            k = k + 1;
                        }
                    },
                }
            },
        }
    }
}

/// The index at which `x` goes into the strictly sorted `sorted`: every item
/// in front of it comes before `x`, no item from it on does.
fn search(sorted: &Vec<String>, x: &str) -> (pos: usize)
    requires
        strictly_sorted(sorted.deep_view()),
    ensures
        pos <= sorted.len(),
        forall|i: int| 0 <= i < pos ==> lex_lt(#[trigger] sorted.deep_view()[i], x@),
        forall|i: int| pos <= i < sorted.len() ==> !lex_lt(#[trigger] sorted.deep_view()[i], x@),
{
    let ghost q = sorted.deep_view();
    let mut lo: usize = 0;
    let mut hi: usize = sorted.len();
    while lo < hi
        invariant
            q == sorted.deep_view(),
            strictly_sorted(q),
            lo <= hi <= sorted.len(),
            forall|i: int| 0 <= i < lo ==> lex_lt(#[trigger] q[i], x@),
            forall|i: int| hi <= i < sorted.len() ==> !lex_lt(#[trigger] q[i], x@),
        decreases hi - lo,
    {
        let mid = lo + (hi - lo) / 2;
        assert(q[mid as int] == sorted[mid as int]@);
        if str_lt(sorted[mid].as_str(), x) {
            assert forall|i: int| 0 <= i < mid + 1 implies lex_lt(#[trigger] q[i], x@) by {
                if i < mid {
                    assert(lex_lt(q[i], q[mid as int]));
                    lemma_lex_transitive(q[i], q[mid as int], x@);
                }
            }
            lo = mid + 1;
        } else {
            assert forall|i: int| mid <= i < sorted.len() implies !lex_lt(#[trigger] q[i], x@) by {
                if i > mid && lex_lt(q[i], x@) {
                    assert(lex_lt(q[mid as int], q[i]));
                    lemma_lex_transitive(q[mid as int], q[i], x@);
                }
            }
            hi = mid;
        }
    }
    lo
}

/// Sorts texts into increasing order and drops repetitions: the result lists
/// the set of the given texts in order.
pub fn sort_unique(items: Vec<String>) -> (sorted: Vec<String>)
    ensures
        lists_in_order(sorted.deep_view(), items.deep_view().to_set()),
{
    let ghost all = items.deep_view();
    let mut items = items;
    let mut sorted: Vec<String> = Vec::new();
    assert(lists_in_order(sorted.deep_view(), all.skip(all.len() as int).to_set())) by {
        assert(all.skip(all.len() as int) =~= Seq::<Seq<char>>::empty());
        assert(sorted.deep_view() =~= Seq::<Seq<char>>::empty());
    }
    while items.len() > 0
        invariant
            items.len() <= all.len(),
            items.deep_view() == all.take(items.len() as int),
            lists_in_order(sorted.deep_view(), all.skip(items.len() as int).to_set()),
        decreases items.len(),
    {
        let ghost before = items.deep_view();
        let ghost n = items.len() as int;
        let ghost done = all.skip(n).to_set();
        let ghost q = sorted.deep_view();
        let item = items.pop().unwrap();
        proof {
            assert(item@ == before[n - 1]);
            assert(item@ == all[n - 1]);
            assert(items.deep_view() =~= all.take(n - 1));
            let tail = all.skip(n - 1);
            let rest = all.skip(n);
            assert(tail.to_set() =~= done.insert(item@)) by {
                assert forall|z: Seq<char>| tail.contains(z) <==> (rest.contains(z) || z == item@) by {
                    if tail.contains(z) {
                        let i = choose|i: int| 0 <= i < tail.len() && tail[i] == z;
                        if i > 0 {
                            assert(rest[i - 1] == z);
                        }
                    }
                    if rest.contains(z) {
                        let i = choose|i: int| 0 <= i < rest.len() && rest[i] == z;
                        assert(tail[i + 1] == z);
                    }
                    if z == item@ {
                        assert(tail[0] == z);
                    }
                }
            }
        }
        let pos = search(&sorted, item.as_str());
        if pos < sorted.len() && sorted[pos] == item {
            proof {
                assert(q[pos as int] == item@);
                assert(q.contains(item@));
                assert(done.insert(item@) =~= done);
            }
        } else {
            proof {
                assert forall|i: int| pos <= i < q.len() implies lex_lt(item@, #[trigger] q[i]) by {
                    lemma_lex_total(q[i], item@);
                    if q[i] == item@ {
                        if i > pos {
                            assert(lex_lt(q[pos as int], q[i]));
                        }
                    }
                }
                lemma_insert_keeps_order(q, done, item@, pos as int);
            }
            sorted.insert(pos, item);
            assert(sorted.deep_view() =~= q.insert(pos as int, item@));
        }
    }
    assert(all.skip(0) =~= all);
    sorted
}

} // verus!
