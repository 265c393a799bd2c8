//! Listing order: records are listed by a text key (names compared without
//! regard to case, activations by start time), equal keys in the order the
//! records were read.
use vstd::prelude::*;
use crate::text::{chars_of, lowercase, to_lowercase};

verus! {

/// `a` comes before `b` in the order of `str`'s `cmp` (character by
/// character, by code point; a proper prefix comes first).
pub open spec fn text_before(a: Seq<char>, b: Seq<char>) -> bool
    decreases a.len(),
{
    if a.len() == 0 {
        b.len() > 0
    } else if b.len() == 0 {
        false
    } else if a[0] != b[0] {
        a[0] < b[0]
    } else {
        text_before(a.drop_first(), b.drop_first())
    }
}

proof fn lemma_before_transitive(a: Seq<char>, b: Seq<char>, c: Seq<char>)
    requires
        text_before(a, b),
        text_before(b, c),
    ensures
        text_before(a, c),
    decreases a.len(),
{
    if a.len() > 0 && a[0] == b[0] && b[0] == c[0] {
        lemma_before_transitive(a.drop_first(), b.drop_first(), c.drop_first());
    }
}

proof fn lemma_before_total(a: Seq<char>, b: Seq<char>)
    ensures
        a == b || text_before(a, b) || text_before(b, a),
    decreases a.len(),
{
    if a.len() > 0 && b.len() > 0 && a[0] == b[0] {
        lemma_before_total(a.drop_first(), b.drop_first());
        if a.drop_first() == b.drop_first() {
            assert(a =~= seq![a[0]] + a.drop_first());
            assert(b =~= seq![b[0]] + b.drop_first());
        }
    } else if a.len() == 0 && b.len() == 0 {
        assert(a =~= b);
    }
}

proof fn lemma_before_irreflexive(a: Seq<char>)
    ensures
        !text_before(a, a),
    decreases a.len(),
{
    if a.len() > 0 {
        lemma_before_irreflexive(a.drop_first());
    }
}

/// Position `x` is listed before position `y`: its key comes first, or the
/// keys are equal and `x` was read first.
pub open spec fn listed_before(keys: Seq<Seq<char>>, x: usize, y: usize) -> bool {
    text_before(keys[x as int], keys[y as int]) || (keys[x as int] == keys[y as int] && x < y)
}

/// `order` lists each position of `keys` once, in listing order.
pub open spec fn listing_order(keys: Seq<Seq<char>>, order: Seq<usize>) -> bool {
    &&& order.len() == keys.len()
    &&& forall|p: int| 0 <= p < order.len() ==> #[trigger] order[p] < keys.len()
    &&& forall|p: int, q: int| 0 <= p < q < order.len() ==> listed_before(keys, #[trigger] order[p], #[trigger] order[q])
}

proof fn lemma_listed_transitive(keys: Seq<Seq<char>>, x: usize, y: usize, z: usize)
    requires
        listed_before(keys, x, y),
        listed_before(keys, y, z),
    ensures
        listed_before(keys, x, z),
{
    if text_before(keys[x as int], keys[y as int]) && text_before(keys[y as int], keys[z as int]) {
        lemma_before_transitive(keys[x as int], keys[y as int], keys[z as int]);
    }
}

/// A listing order never lists a position twice.
pub proof fn lemma_listing_distinct(keys: Seq<Seq<char>>, order: Seq<usize>)
    requires
        listing_order(keys, order),
    ensures
        forall|p: int, q: int| 0 <= p < q < order.len() ==> order[p] != order[q],
{
    assert forall|p: int, q: int| 0 <= p < q < order.len() implies order[p] != order[q] by {
        assert(listed_before(keys, order[p], order[q]));
        lemma_before_irreflexive(keys[order[p] as int]);
    }
}

fn key_before(a: &Vec<char>, b: &Vec<char>) -> (r: bool)
    ensures
        r == text_before(a@, b@),
{
    let mut i: usize = 0;
    assert(a@.skip(0) =~= a@ && b@.skip(0) =~= b@);
    while i < a.len() && i < b.len() && a[i] == b[i]
        invariant
            i <= a@.len(),
            i <= b@.len(),
            text_before(a@, b@) == text_before(a@.skip(i as int), b@.skip(i as int)),
        decreases a.len() - i,
    {
        proof {
            assert(a@.skip(i as int).drop_first() =~= a@.skip(i + 1));
            assert(b@.skip(i as int).drop_first() =~= b@.skip(i + 1));
        }
        i = i + 1;
    }
    if i == a.len() {
        i < b.len()
    } else if i == b.len() {
        false
    } else {
        a[i] < b[i]
    }
}

/// The positions of `keys` in listing order.
pub fn order_by(keys: &Vec<String>) -> (r: Vec<usize>)
    ensures
        listing_order(keys@.map_values(|k: String| k@), r@),
{
    let ghost ks = keys@.map_values(|k: String| k@);
    let mut cs: Vec<Vec<char>> = Vec::new();
    let mut i: usize = 0;
    while i < keys.len()
        invariant
            ks == keys@.map_values(|k: String| k@),
            i <= keys@.len(),
            cs@.len() == i,
            forall|j: int| 0 <= j < i ==> (#[trigger] cs@[j])@ == ks[j],
        decreases keys.len() - i,
    {
        cs.push(chars_of(keys[i].as_str()));
        i = i + 1;
    }
    let mut r: Vec<usize> = Vec::new();
    let mut i: usize = 0;
    while i < cs.len()
        invariant
            ks == keys@.map_values(|k: String| k@),
            cs@.len() == ks.len(),
            forall|j: int| 0 <= j < cs@.len() ==> (#[trigger] cs@[j])@ == ks[j],
            i <= cs@.len(),
            r@.len() == i,
            forall|p: int| 0 <= p < r@.len() ==> #[trigger] r@[p] < i,
            forall|p: int, q: int| 0 <= p < q < r@.len() ==> listed_before(ks, #[trigger] r@[p], #[trigger] r@[q]),
        decreases cs.len() - i,
    {
        let mut j = r.len();
        while j > 0 && key_before(&cs[i], &cs[r[j - 1]])
            invariant
                ks == keys@.map_values(|k: String| k@),
                cs@.len() == ks.len(),
                forall|u: int| 0 <= u < cs@.len() ==> (#[trigger] cs@[u])@ == ks[u],
                i < cs@.len(),
                j <= r@.len(),
                forall|p: int| 0 <= p < r@.len() ==> #[trigger] r@[p] < i,
                forall|k: int| j <= k < r@.len() ==> listed_before(ks, i, #[trigger] r@[k]),
            decreases j,
        {
            proof {
                assert(cs@[i as int]@ == ks[i as int]);
                assert(cs@[r@[j - 1] as int]@ == ks[r@[j - 1] as int]);
            }
            j = j - 1;
        }
        proof {
            if j > 0 {
                let x = r@[j - 1];
                assert(cs@[x as int]@ == ks[x as int]);
                assert(!text_before(ks[i as int], ks[x as int]));
                lemma_before_total(ks[i as int], ks[x as int]);
                assert(listed_before(ks, x, i));
                assert forall|p: int| 0 <= p < j implies listed_before(ks, #[trigger] r@[p], i) by {
                    if p < j - 1 {
                        lemma_listed_transitive(ks, r@[p], x, i);
                    }
                }
            }
        }
        let ghost r0 = r@;
        r.insert(j, i);
        proof {
            assert(r@ == r0.insert(j as int, i));
            assert forall|p: int| 0 <= p < r@.len() implies #[trigger] r@[p] < i + 1 by {
                if p < j {
                    assert(r@[p] == r0[p]);
                } else if p > j {
                    assert(r@[p] == r0[p - 1]);
                }
            }
            assert forall|p: int, q: int| 0 <= p < q < r@.len() implies listed_before(ks, #[trigger] r@[p], #[trigger] r@[q]) by {
                if q < j {
                    assert(r@[p] == r0[p] && r@[q] == r0[q]);
                } else if q == j {
                    assert(r@[p] == r0[p]);
                } else if p < j {
                    assert(r@[p] == r0[p] && r@[q] == r0[q - 1]);
                } else if p == j {
                    assert(r@[q] == r0[q - 1]);
                } else {
                    assert(r@[p] == r0[p - 1] && r@[q] == r0[q - 1]);
                }
            }
        }
        i = i + 1;
    }
    r
}

/// The positions of records in listing order by name, names compared after
/// `to_lowercase`.
pub fn order_by_name(names: &Vec<String>) -> (r: Vec<usize>)
    ensures
        listing_order(names@.map_values(|n: String| lowercase(n@)), r@),
{
    let mut keys: Vec<String> = Vec::new();
    let mut i: usize = 0;
    while i < names.len()
        invariant
            i <= names@.len(),
            keys@.len() == i,
            forall|j: int| 0 <= j < i ==> (#[trigger] keys@[j])@ == lowercase(names@[j]@),
        decreases names.len() - i,
    {
        keys.push(to_lowercase(names[i].as_str()));
        i = i + 1;
    }
    let r = order_by(&keys);
    assert(keys@.map_values(|k: String| k@) =~= names@.map_values(|n: String| lowercase(n@)));
    r
}

} // verus!
