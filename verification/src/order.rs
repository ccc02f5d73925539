//! Puts names in order.
use crate::text::string_texts;
use itertools::Itertools;
use vstd::prelude::*;
use vstd::string::*;

verus! {

/// Two texts differ first at `i`, where the character of the first one is the smaller.
pub open spec fn smaller_at(first: Seq<char>, second: Seq<char>, i: int) -> bool {
    &&& 0 <= i < first.len()
    &&& i < second.len()
    &&& first.take(i) == second.take(i)
    &&& first[i] < second[i]
}

/// A text comes before another one, or is the same.
pub open spec fn in_order(first: Seq<char>, second: Seq<char>) -> bool {
    ||| first.is_prefix_of(second)
    ||| exists|i: int| smaller_at(first, second, i)
}

/// Texts in ascending order.
pub open spec fn ascending(texts: Seq<Seq<char>>) -> bool {
    forall|i: int, j: int|
        0 <= i < j < texts.len() ==> in_order(#[trigger] texts[i], #[trigger] texts[j])
}

/// Sorts names by `Itertools::sorted`: the same names in ascending order, which for strings is
/// the order of their characters one by one.
#[verifier::external_body]
pub(crate) fn sort_names(names: Vec<String>) -> (res: Vec<String>)
    ensures
        string_texts(res@).to_multiset() == string_texts(names@).to_multiset(),
        ascending(string_texts(res@)),
{
    names.into_iter().sorted().collect()
}

/// Two texts that come before each other are the same: at most one order of distinct texts is
/// ascending.
pub proof fn lemma_in_order_once(first: Seq<char>, second: Seq<char>)
    requires
        in_order(first, second),
        in_order(second, first),
    ensures
        first == second,
{
    if exists|i: int| smaller_at(first, second, i) {
        let i = choose|i: int| smaller_at(first, second, i);
        if exists|j: int| smaller_at(second, first, j) {
            let j = choose|j: int| smaller_at(second, first, j);
            if i < j {
                assert(first[i] == first.take(j)[i]);
                assert(second[i] == second.take(j)[i]);
            } else if j < i {
                assert(first[j] == first.take(i)[j]);
                assert(second[j] == second.take(i)[j]);
            }
        } else {
            assert(second[i] == first[i]);
        }
    } else if exists|j: int| smaller_at(second, first, j) {
        let j = choose|j: int| smaller_at(second, first, j);
        assert(second[j] == first[j]);
    } else {
        assert(first =~= second);
    }
}

/// Of two texts one comes before the other.
pub proof fn lemma_in_order_total(first: Seq<char>, second: Seq<char>)
    ensures
        in_order(first, second) || in_order(second, first),
    decreases first.len(),
{
    if first.len() == 0 {
        assert(first.is_prefix_of(second));
    } else if second.len() == 0 {
        assert(second.is_prefix_of(first));
    } else if first[0] != second[0] {
        assert(first.take(0) =~= second.take(0));
        assert(smaller_at(first, second, 0) || smaller_at(second, first, 0));
    } else {
        let a = first.drop_first();
        let b = second.drop_first();
        lemma_in_order_total(a, b);
        if in_order(a, b) {
            lemma_in_order_longer(first, second);
        } else {
            lemma_in_order_longer(second, first);
        }
    }
}

proof fn lemma_in_order_longer(first: Seq<char>, second: Seq<char>)
    requires
        first.len() > 0,
        second.len() > 0,
        first[0] == second[0],
        in_order(first.drop_first(), second.drop_first()),
    ensures
        in_order(first, second),
{
    let a = first.drop_first();
    let b = second.drop_first();
    if a.is_prefix_of(b) {
        assert forall|k: int| 0 <= k < first.len() implies first[k] == second[k] by {
            if k > 0 {
                assert(a[k - 1] == b[k - 1]);
            }
        }
        assert(first =~= second.take(first.len() as int));
    } else {
        let i = choose|i: int| smaller_at(a, b, i);
        assert(first[i + 1] == a[i]);
        assert(second[i + 1] == b[i]);
        assert forall|k: int| 0 <= k < i + 1 implies first[k] == second[k] by {
            if k > 0 {
                assert(a.take(i)[k - 1] == b.take(i)[k - 1]);
            }
        }
        assert(first.take(i + 1) =~= second.take(i + 1));
        assert(smaller_at(first, second, i + 1));
    }
}

/// Sorting distinct names keeps them distinct, and keeps every name.
pub(crate) proof fn lemma_same_names(sorted: Seq<Seq<char>>, names: Seq<Seq<char>>)
    requires
        sorted.to_multiset() == names.to_multiset(),
    ensures
        sorted.len() == names.len(),
        names.no_duplicates() ==> sorted.no_duplicates(),
        forall|name: Seq<char>| #[trigger] sorted.contains(name) <==> names.contains(name),
{
    broadcast use vstd::seq_lib::group_to_multiset_ensures;
    assert(sorted.len() == sorted.to_multiset().len());
    assert(names.len() == names.to_multiset().len());
    assert forall|name: Seq<char>| #[trigger] sorted.contains(name) <==> names.contains(name) by {
        assert(sorted.contains(name) <==> sorted.to_multiset().count(name) > 0);
        assert(names.contains(name) <==> names.to_multiset().count(name) > 0);
    }
    if names.no_duplicates() {
        names.lemma_multiset_has_no_duplicates();
        sorted.lemma_multiset_has_no_duplicates_conv();
    }
}

/// There is one way to put distinct names in ascending order.
pub proof fn lemma_one_ascending_order(first: Seq<Seq<char>>, second: Seq<Seq<char>>)
    requires
        ascending(first),
        ascending(second),
        first.no_duplicates(),
        second.no_duplicates(),
        forall|name: Seq<char>| #[trigger] first.contains(name) <==> second.contains(name),
    ensures
        first == second,
    decreases first.len(),
{
    if first.len() == 0 {
        if second.len() > 0 {
            assert(second.contains(second[0]));
            assert(first.contains(second[0]));
        }
        assert(first =~= second);
    } else {
        let least = first[0];
        assert(first.contains(least));
        assert(second.contains(least));
        let k = choose|k: int| 0 <= k < second.len() && second[k] == least;
        assert(second.contains(second[0]));
        assert(first.contains(second[0]));
        let m = choose|m: int| 0 <= m < first.len() && first[m] == second[0];
        if k > 0 {
            assert(in_order(second[0], second[k]));
            if m > 0 {
                assert(in_order(first[0], first[m]));
                lemma_in_order_once(first[0], second[0]);
            }
            assert(second[0] == second[k]);
        }
        let a = first.drop_first();
        let b = second.drop_first();
        assert forall|name: Seq<char>| #[trigger] a.contains(name) <==> b.contains(name) by {
            if a.contains(name) {
                let i = choose|i: int| 0 <= i < a.len() && a[i] == name;
                assert(first[i + 1] == name);
                assert(first.contains(name));
                assert(second.contains(name));
                let j = choose|j: int| 0 <= j < second.len() && second[j] == name;
                assert(first[i + 1] != first[0]);
                assert(b[j - 1] == name);
            }
            if b.contains(name) {
                let i = choose|i: int| 0 <= i < b.len() && b[i] == name;
                assert(second[i + 1] == name);
                assert(second.contains(name));
                assert(first.contains(name));
                let j = choose|j: int| 0 <= j < first.len() && first[j] == name;
                assert(second[i + 1] != second[0]);
                assert(a[j - 1] == name);
            }
        }
        assert forall|i: int, j: int| 0 <= i < j < a.len() implies in_order(
            #[trigger] a[i],
            #[trigger] a[j],
        ) by {
            assert(in_order(first[i + 1], first[j + 1]));
        }
        assert forall|i: int, j: int| 0 <= i < j < b.len() implies in_order(
            #[trigger] b[i],
            #[trigger] b[j],
        ) by {
            assert(in_order(second[i + 1], second[j + 1]));
        }
        lemma_one_ascending_order(a, b);
        assert(first =~= seq![least] + a);
        assert(second =~= seq![least] + b);
    }
}

/// A text comes before every longer text that begins with it, and where two texts differ, the one
/// with the smaller character at the first difference comes first, and only that one.
pub proof fn lemma_order_of_characters(
    common: Seq<char>,
    small: char,
    large: char,
    first: Seq<char>,
    second: Seq<char>,
)
    requires
        small < large,
    ensures
        in_order(common, common + first),
        in_order(common.push(small) + first, common.push(large) + second),
        !in_order(common.push(large) + second, common.push(small) + first),
{
    assert(common =~= (common + first).take(common.len() as int));
    let a = common.push(small) + first;
    let b = common.push(large) + second;
    let at = common.len() as int;
    assert(a.take(at) =~= b.take(at));
    assert(a[at] == small && b[at] == large);
    assert(smaller_at(a, b, at));
    if in_order(b, a) {
        lemma_in_order_once(a, b);
    }
}

} // verus!
