//! The order of texts, and listings in that order.

use vstd::prelude::*;
use vstd::relations::*;
use vstd::seq_lib::*;
use vstd::string::*;
use vstd::utf8::*;

verus! {

/// Lexicographic order of byte strings.
pub open spec fn bytes_le(a: Seq<u8>, b: Seq<u8>) -> bool
    decreases a.len(),
{
    if a.len() == 0 {
        true
    } else if b.len() == 0 {
        false
    } else if a[0] == b[0] {
        bytes_le(a.drop_first(), b.drop_first())
    } else {
        a[0] < b[0]
    }
}

/// Texts are ordered by the bytes of their encoding.
pub open spec fn text_le(a: Seq<char>, b: Seq<char>) -> bool {
    bytes_le(encode_utf8(a), encode_utf8(b))
}

/// The order of texts as a relation.
pub open spec fn text_order() -> spec_fn(Seq<char>, Seq<char>) -> bool {
    |a: Seq<char>, b: Seq<char>| text_le(a, b)
}

/// The texts of a list of strings.
pub open spec fn texts(items: Seq<String>) -> Seq<Seq<char>> {
    items.map_values(|item: String| item@)
}

/// The texts in ascending order.
pub open spec fn ascending(items: Seq<Seq<char>>) -> Seq<Seq<char>> {
    items.sort_by(text_order())
}

proof fn lemma_bytes_le_reflexive(a: Seq<u8>)
    ensures
        bytes_le(a, a),
    decreases a.len(),
{
    if a.len() > 0 {
        lemma_bytes_le_reflexive(a.drop_first());
    }
}

proof fn lemma_bytes_le_antisymmetric(a: Seq<u8>, b: Seq<u8>)
    requires
        bytes_le(a, b),
        bytes_le(b, a),
    ensures
        a == b,
    decreases a.len(),
{
    if a.len() > 0 && b.len() > 0 {
        lemma_bytes_le_antisymmetric(a.drop_first(), b.drop_first());
        assert(a == seq![a[0]] + a.drop_first());
        assert(b == seq![b[0]] + b.drop_first());
    }
}

proof fn lemma_bytes_le_transitive(a: Seq<u8>, b: Seq<u8>, c: Seq<u8>)
    requires
        bytes_le(a, b),
        bytes_le(b, c),
    ensures
        bytes_le(a, c),
    decreases a.len(),
{
    if a.len() > 0 && b.len() > 0 && c.len() > 0 && a[0] == b[0] && b[0] == c[0] {
        lemma_bytes_le_transitive(a.drop_first(), b.drop_first(), c.drop_first());
    }
}

proof fn lemma_bytes_le_total(a: Seq<u8>, b: Seq<u8>)
    ensures
        bytes_le(a, b) || bytes_le(b, a),
    decreases a.len(),
{
    if a.len() > 0 && b.len() > 0 {
        lemma_bytes_le_total(a.drop_first(), b.drop_first());
    }
}

/// Byte strings are ordered by the first byte in which they differ.
pub proof fn lemma_first_difference(a: Seq<u8>, b: Seq<u8>, i: int)
    requires
        0 <= i < a.len(),
        i < b.len(),
        forall|j: int| 0 <= j < i ==> a[j] == b[j],
        a[i] < b[i],
    ensures
        bytes_le(a, b),
    decreases i,
{
    if i > 0 {
        assert(a[0] == b[0]);
        lemma_first_difference(a.drop_first(), b.drop_first(), i - 1);
    }
}

/// The order of texts is total: any two texts are ordered, and two different
/// texts in one way only.
pub proof fn law_text_order_is_total()
    ensures
        total_ordering(text_order()),
{
    broadcast use encode_utf8_decode_utf8;

    let le = text_order();
    assert forall|a: Seq<char>| #[trigger] le(a, a) by {
        lemma_bytes_le_reflexive(encode_utf8(a));
    }
    assert forall|a: Seq<char>, b: Seq<char>| #[trigger] le(a, b) && #[trigger] le(b, a) implies a
        == b by {
        lemma_bytes_le_antisymmetric(encode_utf8(a), encode_utf8(b));
        assert(decode_utf8(encode_utf8(a)) == decode_utf8(encode_utf8(b)));
    }
    assert forall|a: Seq<char>, b: Seq<char>, c: Seq<char>| #[trigger]
        le(a, b) && #[trigger] le(b, c) implies le(a, c) by {
        lemma_bytes_le_transitive(encode_utf8(a), encode_utf8(b), encode_utf8(c));
    }
    assert forall|a: Seq<char>, b: Seq<char>| #[trigger] le(a, b) || #[trigger] le(b, a) by {
        lemma_bytes_le_total(encode_utf8(a), encode_utf8(b));
    }
}

/// A listing in ascending order holds the same texts as before, each as often,
/// and every text comes before the greater ones.
pub proof fn law_ascending_is_sorted(items: Seq<Seq<char>>)
    ensures
        sorted_by(ascending(items), text_order()),
        ascending(items).to_multiset() == items.to_multiset(),
        ascending(items).len() == items.len(),
{
    law_text_order_is_total();
    items.lemma_sort_by_ensures(text_order());
    broadcast use group_to_multiset_ensures;

    assert(ascending(items).to_multiset().len() == items.to_multiset().len());
}

/// Whether `a` comes before `b` or is the same.
pub fn comes_before(a: &str, b: &str) -> (before: bool)
    ensures
        before == text_le(a@, b@),
{
    let left = a.as_bytes();
    let right = b.as_bytes();
    let mut i: usize = 0;
    assert(left@.skip(0) == left@ && right@.skip(0) == right@);
    while i < left.len() && i < right.len()
        invariant
            left@ == encode_utf8(a@),
            right@ == encode_utf8(b@),
            i <= left.len(),
            i <= right.len(),
            bytes_le(left@, right@) == bytes_le(left@.skip(i as int), right@.skip(i as int)),
        decreases left.len() - i,
    {
        assert(left@.skip(i as int).drop_first() == left@.skip(i + 1));
        assert(right@.skip(i as int).drop_first() == right@.skip(i + 1));
        if left[i] != right[i] {
            return left[i] < right[i];
        }
        i += 1;
    }
    i == left.len()
}

/// Nothing in a sorted list comes after its last item.
proof fn lemma_below_last(items: Seq<Seq<char>>, i: int)
    requires
        sorted_by(items, text_order()),
        0 <= i < items.len(),
    ensures
        text_le(items[i], items.last()),
{
    law_text_order_is_total();
    let le = text_order();
    if i == items.len() - 1 {
        assert(le(items[i], items[i]));
    } else {
        assert(le(items[i], items[items.len() - 1]));
    }
}

/// The list back to front.
pub fn reversed(items: Vec<String>) -> (turned: Vec<String>)
    ensures
        texts(turned@) == texts(items@).reverse(),
{
    let ghost all = items@;
    let mut items = items;
    let mut turned: Vec<String> = Vec::new();
    while items.len() > 0
        invariant
            items@ == all.take(items@.len() as int),
            items@.len() <= all.len(),
            turned@ == all.skip(items@.len() as int).reverse(),
        decreases items.len(),
    {
        if let Some(item) = items.pop() {
            turned.push(item);
        }
    }
    assert(all.skip(0) == all);
    assert(texts(turned@) == texts(all).reverse());
    turned
}

/// Nothing in `items` comes after anything in `others`.
spec fn all_below(items: Seq<Seq<char>>, others: Seq<Seq<char>>) -> bool {
    forall|i: int, j: int|
        0 <= i < items.len() && 0 <= j < others.len() ==> text_le(
            #[trigger] items[i],
            #[trigger] others[j],
        )
}

/// The state of a merge that goes from the greatest text down: what is left of
/// the two lists, and what was taken off them so far.
spec fn merging(left: Seq<Seq<char>>, right: Seq<Seq<char>>, taken: Seq<Seq<char>>) -> bool {
    &&& sorted_by(left, text_order())
    &&& sorted_by(right, text_order())
    &&& sorted_by(taken.reverse(), text_order())
    &&& all_below(left, taken)
    &&& all_below(right, taken)
}

/// The greatest text that is left can be taken next.
proof fn lemma_take_greatest(left: Seq<Seq<char>>, right: Seq<Seq<char>>, taken: Seq<Seq<char>>)
    requires
        merging(left, right, taken),
        left.len() > 0,
        right.len() > 0 ==> text_le(right.last(), left.last()),
    ensures
        merging(left.drop_last(), right, taken.push(left.last())),
        left.to_multiset() == left.drop_last().to_multiset().insert(left.last()),
{
    broadcast use group_to_multiset_ensures;

    let le = text_order();
    let greatest = left.last();
    law_text_order_is_total();
    assert(left == left.drop_last().push(greatest));
    assert forall|i: int, j: int| 0 <= i < j < left.drop_last().len() implies #[trigger] le(
        left.drop_last()[i],
        left.drop_last()[j],
    ) by {
        assert(le(left[i], left[j]));
    }
    let turned = taken.push(greatest).reverse();
    assert(turned == seq![greatest] + taken.reverse());
    assert forall|i: int, j: int| 0 <= i < j < turned.len() implies #[trigger] le(
        turned[i],
        turned[j],
    ) by {
        if i == 0 {
            assert(turned[j] == taken[taken.len() - j]);
            assert(text_le(left[left.len() - 1], taken[taken.len() - j]));
        } else {
            assert(le(taken.reverse()[i - 1], taken.reverse()[j - 1]));
        }
    }
    let now = taken.push(greatest);
    assert forall|i: int, j: int|
        0 <= i < left.drop_last().len() && 0 <= j < now.len() implies text_le(
        #[trigger] left.drop_last()[i],
        #[trigger] now[j],
    ) by {
        if j < taken.len() {
            assert(text_le(left[i], taken[j]));
        } else {
            lemma_below_last(left, i);
        }
    }
    assert forall|i: int, j: int| 0 <= i < right.len() && 0 <= j < now.len() implies text_le(
        #[trigger] right[i],
        #[trigger] now[j],
    ) by {
        if j < taken.len() {
            assert(text_le(right[i], taken[j]));
        } else {
            lemma_below_last(right, i);
            assert(le(right[i], right.last()) && le(right.last(), greatest));
        }
    }
}

/// Merges two ascending lists into one.
fn merge(left: Vec<String>, right: Vec<String>) -> (merged: Vec<String>)
    requires
        sorted_by(texts(left@), text_order()),
        sorted_by(texts(right@), text_order()),
    ensures
        sorted_by(texts(merged@), text_order()),
        texts(merged@).to_multiset() == texts(left@).to_multiset().add(texts(right@).to_multiset()),
{
    broadcast use vstd::multiset::group_multiset_axioms;
    broadcast use group_to_multiset_ensures;

    let ghost all = texts(left@).to_multiset().add(texts(right@).to_multiset());
    let mut left = left;
    let mut right = right;
    let mut backwards: Vec<String> = Vec::new();
    assert(texts(backwards@) == Seq::<Seq<char>>::empty());
    while left.len() > 0 || right.len() > 0
        invariant
            merging(texts(left@), texts(right@), texts(backwards@)),
            all == texts(left@).to_multiset().add(texts(right@).to_multiset()).add(
                texts(backwards@).to_multiset(),
            ),
        decreases left.len() + right.len(),
    {
        let from_left = if left.len() == 0 {
            false
        } else if right.len() == 0 {
            true
        } else {
            comes_before(right[right.len() - 1].as_str(), left[left.len() - 1].as_str())
        };
        proof {
            law_text_order_is_total();
            let le = text_order();
            if from_left {
                lemma_take_greatest(texts(left@), texts(right@), texts(backwards@));
            } else {
                if left@.len() > 0 {
                    assert(le(texts(left@).last(), texts(right@).last()) || le(
                        texts(right@).last(),
                        texts(left@).last(),
                    ));
                }
                lemma_take_greatest(texts(right@), texts(left@), texts(backwards@));
            }
        }
        let ghost before_left = texts(left@);
        let ghost before_right = texts(right@);
        let ghost before = texts(backwards@);
        let taken = if from_left {
            left.pop()
        } else {
            right.pop()
        };
        if let Some(item) = taken {
            backwards.push(item);
            proof {
                broadcast use vstd::multiset::group_multiset_axioms;
                broadcast use group_to_multiset_ensures;

                assert(texts(backwards@) == before.push(item@));
                if from_left {
                    assert(texts(left@) == before_left.drop_last());
                    assert(item@ == before_left.last());
                } else {
                    assert(texts(right@) == before_right.drop_last());
                    assert(item@ == before_right.last());
                }
                assert(all =~= texts(left@).to_multiset().add(texts(right@).to_multiset()).add(
                    texts(backwards@).to_multiset(),
                ));
            }
        }
    }
    proof {
        texts(backwards@).lemma_reverse_to_multiset();
        assert(texts(left@) == Seq::<Seq<char>>::empty());
        assert(texts(right@) == Seq::<Seq<char>>::empty());
    }
    reversed(backwards)
}

/// Puts a list of strings in ascending order.
pub fn sort_ascending(items: Vec<String>) -> (sorted: Vec<String>)
    ensures
        texts(sorted@) == ascending(texts(items@)),
    decreases items@.len(),
{
    let ghost all = items@;
    let mut items = items;
    proof {
        law_ascending_is_sorted(texts(all));
        law_text_order_is_total();
    }
    if items.len() <= 1 {
        proof {
            lemma_sorted_unique(texts(all), ascending(texts(all)), text_order());
        }
        return items;
    }
    let half: usize = items.len() / 2;
    let right = items.split_off(half);
    proof {
        assert(texts(all) == texts(items@) + texts(right@));
        lemma_multiset_commutative(texts(items@), texts(right@));
        law_ascending_is_sorted(texts(items@));
        law_ascending_is_sorted(texts(right@));
    }
    let sorted = merge(sort_ascending(items), sort_ascending(right));
    proof {
        lemma_sorted_unique(texts(sorted@), ascending(texts(all)), text_order());
    }
    sorted
}

/// Two texts are ordered by the first byte in which their encodings differ; of two
/// texts one of which begins with the other, the shorter comes first.
pub proof fn law_texts_are_ordered_by_their_first_difference(a: Seq<char>, b: Seq<char>, i: int)
    ensures
        ({
            let x = encode_utf8(a);
            let y = encode_utf8(b);
            &&& 0 <= i < x.len() && i < y.len() && x.take(i) == y.take(i) && x[i] != y[i] ==> (text_le(
                a,
                b,
            ) <==> x[i] < y[i])
            &&& x.len() <= y.len() && y.take(x.len() as int) == x ==> text_le(a, b) && (text_le(b, a)
                <==> a == b)
        }),
{
    broadcast use encode_utf8_decode_utf8;

    let x = encode_utf8(a);
    let y = encode_utf8(b);
    if 0 <= i < x.len() && i < y.len() && x.take(i) == y.take(i) && x[i] != y[i] {
        assert forall|j: int| 0 <= j < i implies x[j] == y[j] by {
            assert(x.take(i)[j] == y.take(i)[j]);
        }
        if x[i] < y[i] {
            lemma_first_difference(x, y, i);
        } else {
            lemma_first_difference(y, x, i);
            if bytes_le(x, y) {
                lemma_bytes_le_antisymmetric(x, y);
            }
        }
    }
    if x.len() <= y.len() && y.take(x.len() as int) == x {
        lemma_prefix_first(x, y);
        lemma_bytes_le_reflexive(x);
        if bytes_le(y, x) {
            lemma_bytes_le_antisymmetric(x, y);
            assert(decode_utf8(x) == decode_utf8(y));
        }
    }
}

proof fn lemma_prefix_first(a: Seq<u8>, b: Seq<u8>)
    requires
        a.len() <= b.len(),
        b.take(a.len() as int) == a,
    ensures
        bytes_le(a, b),
    decreases a.len(),
{
    if a.len() > 0 {
        assert(b.take(a.len() as int)[0] == b[0]);
        assert(b.drop_first().take(a.len() - 1) =~= a.drop_first()) by {
            assert forall|j: int| 0 <= j < a.len() - 1 implies #[trigger] b.drop_first().take(
                a.len() - 1,
            )[j] == a.drop_first()[j] by {
                assert(b.take(a.len() as int)[j + 1] == b[j + 1]);
            }
        }
        lemma_prefix_first(a.drop_first(), b.drop_first());
    }
}

/// The texts of strings are theirs, one by one.
pub proof fn law_texts(items: Seq<String>, i: int)
    requires
        0 <= i < items.len(),
    ensures
        texts(items).len() == items.len(),
        texts(items)[i] == items[i]@,
{
}

} // verus!
