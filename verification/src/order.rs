//! The lexicographic order of names, and the sorted listing of a set of names.

use crate::text::{lemma_encoding_tells_texts_apart, text_equal, texts};
use vstd::prelude::*;
use vstd::utf8::encode_utf8;

verus! {

/// Whether the byte string `a` stands before `b` in lexicographic order.
pub open spec fn bytes_less(a: Seq<u8>, b: Seq<u8>) -> bool
    decreases a.len(),
{
    if b.len() == 0 {
        false
    } else if a.len() == 0 {
        true
    } else if a.first() != b.first() {
        a.first() < b.first()
    } else {
        bytes_less(a.drop_first(), b.drop_first())
    }
}

/// Whether the text `a` stands before `b`: by the bytes of their UTF-8 encodings, as
/// strings are ordered.
pub open spec fn text_less(a: Seq<char>, b: Seq<char>) -> bool {
    bytes_less(encode_utf8(a), encode_utf8(b))
}

/// No byte string stands before itself.
pub proof fn lemma_bytes_less_irreflexive(a: Seq<u8>)
    ensures
        !bytes_less(a, a),
    decreases a.len(),
{
    if a.len() > 0 {
        lemma_bytes_less_irreflexive(a.drop_first());
    }
}

/// What stands before something that stands before `c` stands before `c`.
pub proof fn lemma_bytes_less_transitive(a: Seq<u8>, b: Seq<u8>, c: Seq<u8>)
    requires
        bytes_less(a, b),
        bytes_less(b, c),
    ensures
        bytes_less(a, c),
    decreases a.len(),
{
    if a.len() > 0 && a.first() == b.first() && b.first() == c.first() {
        lemma_bytes_less_transitive(a.drop_first(), b.drop_first(), c.drop_first());
    }
}

/// Of two different byte strings one stands before the other.
pub proof fn lemma_bytes_less_total(a: Seq<u8>, b: Seq<u8>)
    requires
        a != b,
    ensures
        bytes_less(a, b) || bytes_less(b, a),
    decreases a.len(),
{
    if a.len() > 0 && b.len() > 0 && a.first() == b.first() {
        if a.drop_first() == b.drop_first() {
            assert(a =~= seq![a.first()] + a.drop_first());
            assert(b =~= seq![b.first()] + b.drop_first());
        }
        lemma_bytes_less_total(a.drop_first(), b.drop_first());
    } else if a.len() == 0 && b.len() == 0 {
        assert(a =~= b);
    }
}

/// Of two different texts one stands before the other.
pub proof fn lemma_text_less_total(a: Seq<char>, b: Seq<char>)
    requires
        a != b,
    ensures
        text_less(a, b) || text_less(b, a),
{
    if encode_utf8(a) == encode_utf8(b) {
        lemma_encoding_tells_texts_apart(a, b);
    }
    lemma_bytes_less_total(encode_utf8(a), encode_utf8(b));
}

/// Whether every element of `list` stands before all that follow it.
pub open spec fn strictly_sorted(list: Seq<Seq<char>>) -> bool {
    forall|i: int, j: int| 0 <= i < j < list.len() ==> text_less(#[trigger] list[i], #[trigger] list[j])
}

/// Whether `list` holds the elements of `names`, each once, in ascending order.
pub open spec fn is_sorted_listing(list: Seq<Seq<char>>, names: Set<Seq<char>>) -> bool {
    &&& strictly_sorted(list)
    &&& forall|name: Seq<char>| names.contains(name) <==> list.contains(name)
}

/// The elements of the finite set `names`, each once, in ascending order.
pub open spec fn sorted_listing(names: Set<Seq<char>>) -> Seq<Seq<char>> {
    choose|list: Seq<Seq<char>>| is_sorted_listing(list, names)
}

/// A set has at most one sorted listing.
pub proof fn lemma_sorted_listing_unique(
    x: Seq<Seq<char>>,
    y: Seq<Seq<char>>,
    names: Set<Seq<char>>,
)
    requires
        is_sorted_listing(x, names),
        is_sorted_listing(y, names),
    ensures
        x == y,
    decreases x.len(),
{
    if x.len() == 0 {
        if y.len() > 0 {
            assert(y.contains(y[0]));
            assert(names.contains(y[0]));
        }
        assert(x =~= y);
    } else {
        assert(x.contains(x[0]));
        assert(names.contains(x[0]));
        assert(y.contains(x[0]));
        let j = choose|j: int| 0 <= j < y.len() && y[j] == x[0];
        assert(y.contains(y[0]));
        assert(names.contains(y[0]));
        assert(x.contains(y[0]));
        let i = choose|i: int| 0 <= i < x.len() && x[i] == y[0];
        if i > 0 {
            assert(text_less(x[0], x[i]));
            if j > 0 {
                assert(text_less(y[0], y[j]));
                lemma_bytes_less_transitive(
                    encode_utf8(x[0]),
                    encode_utf8(y[0]),
                    encode_utf8(x[0]),
                );
            }
            lemma_bytes_less_irreflexive(encode_utf8(x[0]));
        }
        let first = x[0];
        let rest = names.remove(first);
        let xs = x.drop_first();
        let ys = y.drop_first();
        lemma_rest_is_sorted_listing(x, names);
        lemma_rest_is_sorted_listing(y, names);
        lemma_sorted_listing_unique(xs, ys, rest);
        assert(x =~= seq![first] + xs);
        assert(y =~= seq![first] + ys);
    }
}

/// Without its first element, a sorted listing lists what is left of the set.
proof fn lemma_rest_is_sorted_listing(x: Seq<Seq<char>>, names: Set<Seq<char>>)
    requires
        is_sorted_listing(x, names),
        x.len() > 0,
    ensures
        is_sorted_listing(x.drop_first(), names.remove(x[0])),
{
    let xs = x.drop_first();
    let rest = names.remove(x[0]);
    assert forall|i: int, j: int| 0 <= i < j < xs.len() implies text_less(
        #[trigger] xs[i],
        #[trigger] xs[j],
    ) by {
        assert(xs[i] == x[i + 1] && xs[j] == x[j + 1]);
    }
    assert forall|name: Seq<char>| rest.contains(name) implies xs.contains(name) by {
        assert(x.contains(name));
        let k = choose|k: int| 0 <= k < x.len() && x[k] == name;
        assert(xs[k - 1] == name);
    }
    assert forall|name: Seq<char>| xs.contains(name) implies rest.contains(name) by {
        let k = choose|k: int| 0 <= k < xs.len() && xs[k] == name;
        assert(x[k + 1] == name);
        assert(x.contains(name));
        assert(text_less(x[0], x[k + 1]));
        lemma_bytes_less_irreflexive(encode_utf8(x[0]));
    }
}

/// A sorted listing of a set is the sorted listing of that set.
pub proof fn lemma_is_the_sorted_listing(list: Seq<Seq<char>>, names: Set<Seq<char>>)
    requires
        is_sorted_listing(list, names),
    ensures
        sorted_listing(names) == list,
{
    lemma_sorted_listing_unique(list, sorted_listing(names), names);
}

/// Whether the byte string `a` stands before `b`.
pub fn bytes_before(a: &[u8], b: &[u8]) -> (less: bool)
    ensures
        less == bytes_less(a@, b@),
{
    let mut i: usize = 0;
    proof {
        assert(a@.skip(0) =~= a@);
        assert(b@.skip(0) =~= b@);
    }
    loop
        invariant
            i <= a@.len(),
            i <= b@.len(),
            bytes_less(a@, b@) == bytes_less(a@.skip(i as int), b@.skip(i as int)),
        decreases a@.len() - i,
    {
        if i == b.len() {
            return false;
        }
        if i == a.len() {
            return true;
        }
        if a[i] != b[i] {
            return a[i] < b[i];
        }
        proof {
            assert(a@.skip(i as int).drop_first() =~= a@.skip(i + 1));
            assert(b@.skip(i as int).drop_first() =~= b@.skip(i + 1));
        }
        i += 1;
    }
}

/// Whether the text `a` stands before `b`.
pub fn text_before(a: &str, b: &str) -> (less: bool)
    ensures
        less == text_less(a@, b@),
{
    bytes_before(a.as_bytes(), b.as_bytes())
}

/// The distinct elements of `names`, in ascending order.
pub fn sorted_distinct(names: &Vec<String>) -> (list: Vec<String>)
    ensures
        is_sorted_listing(texts(list@), texts(names@).to_set()),
        texts(list@) == sorted_listing(texts(names@).to_set()),
{
    let ghost all = texts(names@);
    let mut list: Vec<String> = Vec::new();
    let n = names.len();
    let mut i: usize = 0;
    while i < n
        invariant
            n == names@.len(),
            i <= n,
            all == texts(names@),
            is_sorted_listing(texts(list@), all.take(i as int).to_set()),
        decreases n - i,
    {
        let name = &names[i];
        let ghost sorted = texts(list@);
        let len = list.len();
        let mut p: usize = 0;
        while p < len && text_before(list[p].as_str(), name.as_str())
            invariant
                len == list@.len(),
                p <= len,
                sorted == texts(list@),
                strictly_sorted(sorted),
                forall|k: int| 0 <= k < p ==> text_less(#[trigger] sorted[k], name@),
            decreases len - p,
        {
            p += 1;
        }
        let present = p < len && text_equal(list[p].as_str(), name.as_str());
        proof {
            assert(all.take(i + 1) =~= all.take(i as int).push(name@));
            all.take(i as int).lemma_push_to_set_commute(name@);
            assert(all.take(i + 1).to_set() =~= all.take(i as int).to_set().insert(name@));
            assert forall|k: int| 0 <= k < len && k != p implies sorted[k] != name@ by {
                lemma_bytes_less_irreflexive(encode_utf8(name@));
                if k > p {
                    assert(text_less(sorted[p as int], sorted[k]));
                }
            }
        }
        if !present {
            list.insert(p, name.clone());
            proof {
                let grown = texts(list@);
                assert(grown =~= sorted.insert(p as int, name@));
                assert forall|a: int, b: int| 0 <= a < b < grown.len() implies text_less(
                    #[trigger] grown[a],
                    #[trigger] grown[b],
                ) by {
                    if b == p {
                        assert(grown[a] == sorted[a]);
                    } else if a == p {
                        assert(grown[b] == sorted[b - 1]);
                        if b - 1 > p {
                            assert(text_less(sorted[p as int], sorted[b - 1]));
                        }
                        if sorted[p as int] != name@ {
                            lemma_text_less_total(sorted[p as int], name@);
                        }
                        if b - 1 > p {
                            lemma_bytes_less_transitive(
                                encode_utf8(name@),
                                encode_utf8(sorted[p as int]),
                                encode_utf8(sorted[b - 1]),
                            );
                        }
                    } else {
                        let a0 = if a < p { a } else { a - 1 };
                        let b0 = if b < p { b } else { b - 1 };
                        assert(grown[a] == sorted[a0] && grown[b] == sorted[b0]);
                    }
                }
                assert forall|x: Seq<char>| all.take(i + 1).to_set().contains(x) implies grown.contains(
                    x,
                ) by {
                    if x == name@ {
                        assert(grown[p as int] == x);
                    } else {
                        assert(all.take(i as int).to_set().contains(x));
                        assert(sorted.contains(x));
                        let k = choose|k: int| 0 <= k < sorted.len() && sorted[k] == x;
                        assert(grown[if k < p { k } else { k + 1 }] == x);
                    }
                }
                assert forall|x: Seq<char>| grown.contains(x) implies all.take(i + 1).to_set().contains(
                    x,
                ) by {
                    let k = choose|k: int| 0 <= k < grown.len() && grown[k] == x;
                    if k != p {
                        assert(sorted[if k < p { k } else { k - 1 }] == x);
                        assert(sorted.contains(x));
                        assert(all.take(i as int).to_set().contains(x));
                    }
                }
            }
        } else {
            proof {
                assert(sorted[p as int] == name@);
                assert(sorted.contains(name@));
                assert forall|x: Seq<char>| all.take(i + 1).to_set().contains(x) implies sorted.contains(
                    x,
                ) by {
                    if x != name@ {
                        assert(all.take(i as int).to_set().contains(x));
                    }
                }
                assert forall|x: Seq<char>| sorted.contains(x) implies all.take(i + 1).to_set().contains(
                    x,
                ) by {
                    assert(all.take(i as int).to_set().contains(x));
                }
            }
        }
        i += 1;
    }
    proof {
        assert(all.take(n as int) =~= all);
        lemma_is_the_sorted_listing(texts(list@), all.to_set());
    }
    list
}

} // verus!
