//! Sorting a manifest by path, byte-wise, so that the finished artifact does
//! not depend on the order in which the files were stored.

use vstd::prelude::*;
use vstd::multiset::Multiset;
use vstd::seq_lib::lemma_multiset_commutative;
use vstd::string::StringSliceAdditionalSpecFns;
use vstd::utf8::encode_utf8;
use crate::bytes::{
    le,
    lemma_lex_le_reflexive,
    lemma_lex_le_total,
    lemma_lex_le_transitive,
    lex_le,
};
use crate::worker::{item_views, reversed, Item, ItemView};

verus! {

/// The bytes of an item's path, by which a manifest is sorted.
pub open spec fn path_bytes(item: ItemView) -> Seq<u8> {
    encode_utf8(item.path)
}

/// Whether each item's path comes before or with that of every later item.
pub open spec fn sorted_by_path(items: Seq<ItemView>) -> bool {
    forall|i: int, j: int|
        0 <= i < j < items.len() ==> lex_le(path_bytes(#[trigger] items[i]), path_bytes(#[trigger] items[j]))
}

/// Whether each item's path comes after or with that of every later item.
spec fn descending(items: Seq<Item>) -> bool {
    forall|i: int, j: int|
        0 <= i < j < items.len() ==> lex_le(path_bytes((#[trigger] items[j])@), path_bytes((#[trigger] items[i])@))
}

/// Whether the path of every item of `low` comes before or with that of every
/// item of `high`.
spec fn all_le(low: Seq<Item>, high: Seq<Item>) -> bool {
    forall|i: int, j: int|
        0 <= i < low.len() && 0 <= j < high.len() ==> lex_le(
            path_bytes((#[trigger] low[i])@),
            path_bytes((#[trigger] high[j])@),
        )
}

/// A sequence without items holds no item.
proof fn lemma_no_items(items: Seq<Item>)
    requires
        items.len() == 0,
    ensures
        items.to_multiset() == Multiset::<Item>::empty(),
{
    broadcast use vstd::seq_lib::group_to_multiset_ensures;

    assert forall|x: Item| items.to_multiset().count(x) == 0 by {
        assert(!items.contains(x));
    }
    assert(items.to_multiset() =~= Multiset::<Item>::empty());
}

/// Two sequences that hold the same elements still do after each element is
/// replaced by its image under `f`.
pub proof fn lemma_map_preserves_multiset<A, B>(a: Seq<A>, b: Seq<A>, f: spec_fn(A) -> B)
    requires
        a.to_multiset() == b.to_multiset(),
    ensures
        a.map_values(f).to_multiset() == b.map_values(f).to_multiset(),
    decreases a.len(),
{
    broadcast use vstd::seq_lib::group_to_multiset_ensures;

    assert(a.to_multiset().len() == a.len());
    assert(b.to_multiset().len() == b.len());
    if a.len() == 0 {
        assert(a.map_values(f) =~= b.map_values(f));
    } else {
        let x = a.last();
        let rest = a.drop_last();
        assert(a =~= rest.push(x));
        assert(a.to_multiset().count(x) > 0);
        assert(b.contains(x));
        let k = choose|k: int| 0 <= k < b.len() && b[k] == x;
        let others = b.remove(k);
        assert(others.map_values(f).len() == b.len() - 1);
        assert(rest.to_multiset() =~= a.to_multiset().remove(x));
        assert(others.to_multiset() =~= rest.to_multiset());
        lemma_map_preserves_multiset(rest, others, f);
        assert(a.map_values(f) =~= rest.map_values(f).push(f(x)));
        assert(b.map_values(f) =~= others.map_values(f).insert(k, f(x)));
        assert(b.map_values(f).to_multiset() =~= a.map_values(f).to_multiset());
    }
}

/// Whether the path of `a` comes before or with that of `b`.
fn path_le(a: &Item, b: &Item) -> (r: bool)
    ensures
        r == lex_le(path_bytes(a@), path_bytes(b@)),
{
    le(a.path.as_str().as_bytes(), b.path.as_str().as_bytes())
}

/// Moves the last item of `from` to the end of `out`. Where that item is the
/// greatest of those left in `from` and `other`, `out` stays in descending
/// order and above what is left.
fn take_last(from: &mut Vec<Item>, other: &Vec<Item>, out: &mut Vec<Item>)
    requires
        old(from)@.len() > 0,
        sorted_by_path(item_views(old(from)@)),
        sorted_by_path(item_views(other@)),
        descending(old(out)@),
        all_le(old(from)@, old(out)@),
        all_le(other@, old(out)@),
        other@.len() > 0 ==> lex_le(path_bytes(other@.last()@), path_bytes(old(from)@.last()@)),
    ensures
        final(from)@ == old(from)@.drop_last(),
        final(out)@ == old(out)@.push(old(from)@.last()),
        sorted_by_path(item_views(final(from)@)),
        descending(final(out)@),
        all_le(final(from)@, final(out)@),
        all_le(other@, final(out)@),
        final(out)@.to_multiset().add(final(from)@.to_multiset()) == old(out)@.to_multiset().add(
            old(from)@.to_multiset(),
        ),
{
    broadcast use vstd::seq_lib::group_to_multiset_ensures;

    let item = from.pop().unwrap();
    out.push(item);
    proof {
        let before = old(from)@;
        let above = old(out)@;
        assert(before =~= from@.push(item));
        assert(out@.to_multiset().add(from@.to_multiset()) =~= above.to_multiset().add(
            before.to_multiset(),
        ));
        assert(item_views(before)[before.len() - 1] == item@);
        assert forall|i: int| 0 <= i < from@.len() implies lex_le(
            path_bytes((#[trigger] from@[i])@),
            path_bytes(item@),
        ) by {
            assert(item_views(before)[i] == from@[i]@);
        }
        assert forall|i: int| 0 <= i < other@.len() implies lex_le(
            path_bytes((#[trigger] other@[i])@),
            path_bytes(item@),
        ) by {
            let last = other@.last();
            assert(item_views(other@)[i] == other@[i]@);
            assert(item_views(other@)[other@.len() - 1] == last@);
            if i < other@.len() - 1 {
                assert(lex_le(path_bytes(other@[i]@), path_bytes(last@)));
            } else {
                lemma_lex_le_reflexive(path_bytes(last@));
            }
            lemma_lex_le_transitive(path_bytes(other@[i]@), path_bytes(last@), path_bytes(item@));
        }
        assert forall|i: int, j: int| 0 <= i < j < item_views(from@).len() implies lex_le(
            path_bytes(#[trigger] item_views(from@)[i]),
            path_bytes(#[trigger] item_views(from@)[j]),
        ) by {
            assert(item_views(from@)[i] == item_views(before)[i]);
            assert(item_views(from@)[j] == item_views(before)[j]);
        }
        assert forall|i: int, j: int| 0 <= i < j < out@.len() implies lex_le(
            path_bytes((#[trigger] out@[j])@),
            path_bytes((#[trigger] out@[i])@),
        ) by {
            assert(out@[i] == above[i]);
            if j < above.len() {
                assert(out@[j] == above[j]);
            } else {
                assert(before[before.len() - 1] == item);
            }
        }
        assert forall|i: int, j: int| 0 <= i < from@.len() && 0 <= j < out@.len() implies lex_le(
            path_bytes((#[trigger] from@[i])@),
            path_bytes((#[trigger] out@[j])@),
        ) by {
            assert(from@[i] == before[i]);
            if j < above.len() {
                assert(out@[j] == above[j]);
            }
        }
        assert forall|i: int, j: int| 0 <= i < other@.len() && 0 <= j < out@.len() implies lex_le(
            path_bytes((#[trigger] other@[i])@),
            path_bytes((#[trigger] out@[j])@),
        ) by {
            if j < above.len() {
                assert(out@[j] == above[j]);
            }
        }
    }
}

/// Merges two manifests sorted by path into one.
fn merge_sorted(a: Vec<Item>, b: Vec<Item>) -> (r: Vec<Item>)
    requires
        sorted_by_path(item_views(a@)),
        sorted_by_path(item_views(b@)),
    ensures
        sorted_by_path(item_views(r@)),
        r@.to_multiset() == a@.to_multiset().add(b@.to_multiset()),
{
    let ghost a0 = a@;
    let ghost b0 = b@;
    let mut a = a;
    let mut b = b;
    // The greatest item left is taken each time, so `out` grows in
    // descending order and is turned round at the end.
    let mut out: Vec<Item> = Vec::new();
    proof {
        lemma_no_items(out@);
        assert(out@.to_multiset().add(a@.to_multiset()).add(b@.to_multiset()) =~= a0.to_multiset().add(
            b0.to_multiset(),
        ));
    }
    while a.len() > 0 || b.len() > 0
        invariant
            sorted_by_path(item_views(a@)),
            sorted_by_path(item_views(b@)),
            descending(out@),
            all_le(a@, out@),
            all_le(b@, out@),
            out@.to_multiset().add(a@.to_multiset()).add(b@.to_multiset()) == a0.to_multiset().add(
                b0.to_multiset(),
            ),
        decreases a@.len() + b@.len(),
    {
        let ghost a1 = a@;
        let ghost b1 = b@;
        let ghost out1 = out@;
        let from_b: bool = if a.len() == 0 {
            true
        } else if b.len() == 0 {
            false
        } else {
            path_le(&a[a.len() - 1], &b[b.len() - 1])
        };
        if from_b {
            take_last(&mut b, &a, &mut out);
            proof {
                assert(out@.to_multiset().add(a@.to_multiset()).add(b@.to_multiset())
                    =~= out@.to_multiset().add(b@.to_multiset()).add(a@.to_multiset()));
                assert(out1.to_multiset().add(a1.to_multiset()).add(b1.to_multiset())
                    =~= out1.to_multiset().add(b1.to_multiset()).add(a1.to_multiset()));
            }
        } else {
            proof {
                if b.len() > 0 {
                    lemma_lex_le_total(path_bytes(a1.last()@), path_bytes(b1.last()@));
                }
            }
            take_last(&mut a, &b, &mut out);
        }
    }
    let ghost down = out@;
    let r = reversed(out);
    proof {
        down.lemma_reverse_to_multiset();
        lemma_no_items(a@);
        lemma_no_items(b@);
        assert(down.to_multiset().add(a@.to_multiset()).add(b@.to_multiset()) =~= down.to_multiset());
        assert forall|i: int, j: int| 0 <= i < j < item_views(r@).len() implies lex_le(
            path_bytes(#[trigger] item_views(r@)[i]),
            path_bytes(#[trigger] item_views(r@)[j]),
        ) by {
            let n = down.len() as int;
            assert(r@[i] == down[n - 1 - i]);
            assert(r@[j] == down[n - 1 - j]);
        }
    }
    r
}

/// Sorts a manifest by path, in the byte-wise order of the paths. The result
/// holds the same items.
pub fn sort_by_path(items: Vec<Item>) -> (sorted: Vec<Item>)
    ensures
        sorted_by_path(item_views(sorted@)),
        sorted@.to_multiset() == items@.to_multiset(),
    decreases items@.len(),
{
    if items.len() <= 1 {
        return items;
    }
    let mut left = items;
    let right = left.split_off(left.len() / 2);
    proof {
        assert(items@ =~= left@ + right@);
        lemma_multiset_commutative(left@, right@);
    }
    let left = sort_by_path(left);
    let right = sort_by_path(right);
    merge_sorted(left, right)
}

} // verus!
