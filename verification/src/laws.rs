//! Laws of the extraction: what holds of every selection, stated over the
//! spec functions of `extract` and proved once and for all.

use vstd::prelude::*;
use crate::count::parse_count;
use crate::extract::ExtractError;
use crate::extract::extract_pairs_spec;
use crate::extract::extract_spec;
use crate::extract::live_count_attr;
use crate::extract::pair_result;
use crate::extract::selected_attr_text;

verus! {

/// Law: when every matched pair is well formed, extraction succeeds, and the
/// mapping holds a name exactly when some pair carries it.
pub proof fn lemma_extract_all_named(pairs: Seq<(Option<Seq<char>>, Option<Seq<char>>)>)
    requires
        forall|i: int| 0 <= i < pairs.len() ==> (#[trigger] pair_result(pairs[i])) is Ok,
    ensures
        extract_pairs_spec(pairs) is Ok,
        extract_pairs_spec(pairs)->Ok_0.dom().finite(),
        forall|k: Seq<char>|
            extract_pairs_spec(pairs)->Ok_0.contains_key(k) <==> exists|i: int|
                0 <= i < pairs.len() && (#[trigger] pair_result(pairs[i]))->Ok_0.0 == k,
    decreases pairs.len(),
{
    if pairs.len() > 0 {
        let pre = pairs.drop_last();
        assert forall|i: int| 0 <= i < pre.len() implies (#[trigger] pair_result(pre[i])) is Ok by {
            assert(pair_result(pairs[i]) is Ok);
        }
        lemma_extract_all_named(pre);
        let m = extract_pairs_spec(pre)->Ok_0;
        let last = pair_result(pairs.last())->Ok_0;
        assert(pairs.last() == pairs[pairs.len() - 1]);
        assert(extract_pairs_spec(pairs)->Ok_0 == m.insert(last.0, last.1));
        assert forall|k: Seq<char>| extract_pairs_spec(pairs)->Ok_0.contains_key(k) implies exists|
            i: int,
        | 0 <= i < pairs.len() && (#[trigger] pair_result(pairs[i]))->Ok_0.0 == k by {
            if k == last.0 {
                assert(pair_result(pairs[pairs.len() - 1])->Ok_0.0 == k);
            } else {
                let i = choose|i: int|
                    0 <= i < pre.len() && (#[trigger] pair_result(pre[i]))->Ok_0.0 == k;
                assert(pair_result(pairs[i])->Ok_0.0 == k);
            }
        }
        assert forall|k: Seq<char>|
            exists|i: int|
                0 <= i < pairs.len() && (#[trigger] pair_result(pairs[i]))->Ok_0.0
                    == k implies extract_pairs_spec(pairs)->Ok_0.contains_key(k) by {
            let i = choose|i: int|
                0 <= i < pairs.len() && (#[trigger] pair_result(pairs[i]))->Ok_0.0 == k;
            if i == pairs.len() - 1 {
                assert(extract_pairs_spec(pairs)->Ok_0.contains_key(last.0));
            } else {
                assert(pair_result(pre[i])->Ok_0.0 == k);
                assert(m.contains_key(k));
            }
        }
    }
}

/// Law: a list of well-formed pairs with pairwise distinct names extracts
/// successfully into a mapping with exactly one entry per pair, each pair's
/// name bound to its parsed count.
pub proof fn lemma_extract_all_valid(pairs: Seq<(Option<Seq<char>>, Option<Seq<char>>)>)
    requires
        forall|i: int| 0 <= i < pairs.len() ==> (#[trigger] pair_result(pairs[i])) is Ok,
        forall|i: int, j: int|
            0 <= i < j < pairs.len() ==> (#[trigger] pair_result(pairs[i]))->Ok_0.0 != (
            #[trigger] pair_result(pairs[j]))->Ok_0.0,
    ensures
        extract_pairs_spec(pairs) is Ok,
        extract_pairs_spec(pairs)->Ok_0.dom().len() == pairs.len(),
        forall|i: int|
            0 <= i < pairs.len() ==> {
                let m = extract_pairs_spec(pairs)->Ok_0;
                let kv = (#[trigger] pair_result(pairs[i]))->Ok_0;
                m.contains_key(kv.0) && m[kv.0] == kv.1
            },
    decreases pairs.len(),
{
    if pairs.len() > 0 {
        let pre = pairs.drop_last();
        assert forall|i: int| 0 <= i < pre.len() implies (#[trigger] pair_result(pre[i])) is Ok by {
            assert(pair_result(pairs[i]) is Ok);
        }
        assert forall|i: int, j: int| 0 <= i < j < pre.len() implies (#[trigger] pair_result(
            pre[i],
        ))->Ok_0.0 != (#[trigger] pair_result(pre[j]))->Ok_0.0 by {
            assert(pair_result(pairs[i])->Ok_0.0 != pair_result(pairs[j])->Ok_0.0);
        }
        lemma_extract_all_valid(pre);
        lemma_extract_all_named(pre);
        let m = extract_pairs_spec(pre)->Ok_0;
        let last = pair_result(pairs.last())->Ok_0;
        assert(pairs.last() == pairs[pairs.len() - 1]);
        assert(!m.contains_key(last.0)) by {
            if m.contains_key(last.0) {
                let i = choose|i: int|
                    0 <= i < pre.len() && (#[trigger] pair_result(pre[i]))->Ok_0.0 == last.0;
                assert(pair_result(pairs[i])->Ok_0.0 != pair_result(
                    pairs[pairs.len() - 1],
                )->Ok_0.0);
            }
        }
        assert(extract_pairs_spec(pairs)->Ok_0 == m.insert(last.0, last.1));
        assert(m.insert(last.0, last.1).dom() =~= m.dom().insert(last.0));
        assert forall|i: int| 0 <= i < pairs.len() implies {
            let mm = extract_pairs_spec(pairs)->Ok_0;
            let kv = (#[trigger] pair_result(pairs[i]))->Ok_0;
            mm.contains_key(kv.0) && mm[kv.0] == kv.1
        } by {
            if i < pairs.len() - 1 {
                assert(pair_result(pre[i]) == pair_result(pairs[i]));
                assert(pair_result(pairs[i])->Ok_0.0 != pair_result(
                    pairs[pairs.len() - 1],
                )->Ok_0.0);
            }
        }
    }
}

/// Law: when every matched pair carries a name and a text but some pair's
/// text does not read as a non-negative integer, the whole extraction fails
/// with the invalid-count failure — no partial mapping is ever returned.
pub proof fn lemma_extract_invalid_count_fails(
    pairs: Seq<(Option<Seq<char>>, Option<Seq<char>>)>,
    bad: int,
)
    requires
        forall|i: int|
            0 <= i < pairs.len() ==> (#[trigger] pairs[i]).0 is Some && pairs[i].1 is Some,
        0 <= bad < pairs.len(),
        parse_count(pairs[bad].1->Some_0) is None,
    ensures
        extract_pairs_spec(pairs) == Err::<Map<Seq<char>, u32>, ExtractError>(
            ExtractError::InvalidCount,
        ),
    decreases pairs.len(),
{
    let pre = pairs.drop_last();
    assert forall|i: int| 0 <= i < pre.len() implies (#[trigger] pre[i]).0 is Some && pre[i].1
        is Some by {
        assert(pairs[i].0 is Some && pairs[i].1 is Some);
    }
    if bad < pairs.len() - 1 {
        assert(pre[bad] == pairs[bad]);
        lemma_extract_invalid_count_fails(pre, bad);
    } else {
        if exists|j: int| 0 <= j < pre.len() && parse_count((#[trigger] pre[j]).1->Some_0) is None {
            let j = choose|j: int|
                0 <= j < pre.len() && parse_count((#[trigger] pre[j]).1->Some_0) is None;
            lemma_extract_invalid_count_fails(pre, j);
        } else {
            assert forall|i: int| 0 <= i < pre.len() implies (#[trigger] pair_result(pre[i]))
                is Ok by {
                assert(pre[i].0 is Some && pre[i].1 is Some);
                assert(parse_count(pre[i].1->Some_0) is Some);
            }
            lemma_extract_all_named(pre);
            assert(pairs.last() == pairs[pairs.len() - 1]);
            assert(pair_result(pairs.last()) == Err::<(Seq<char>, u32), ExtractError>(
                ExtractError::InvalidCount,
            ));
        }
    }
}

/// Law: two well-formed pairs carrying the same name extract into a mapping
/// of exactly one entry, holding the later pair's count.
pub proof fn lemma_extract_duplicate_overwrites(
    p1: (Option<Seq<char>>, Option<Seq<char>>),
    p2: (Option<Seq<char>>, Option<Seq<char>>),
)
    requires
        pair_result(p1) is Ok,
        pair_result(p2) is Ok,
        pair_result(p1)->Ok_0.0 == pair_result(p2)->Ok_0.0,
    ensures
        extract_pairs_spec(seq![p1, p2]) == Ok::<Map<Seq<char>, u32>, ExtractError>(
            Map::<Seq<char>, u32>::empty().insert(
                pair_result(p2)->Ok_0.0,
                pair_result(p2)->Ok_0.1,
            ),
        ),
        extract_pairs_spec(seq![p1, p2])->Ok_0.dom().len() == 1,
{
    let both = seq![p1, p2];
    let one = seq![p1];
    assert(both.drop_last() =~= one);
    assert(one.drop_last() =~= Seq::<(Option<Seq<char>>, Option<Seq<char>>)>::empty());
    assert(one.last() == p1);
    assert(both.last() == p2);
    let kv1 = pair_result(p1)->Ok_0;
    let kv2 = pair_result(p2)->Ok_0;
    assert(extract_pairs_spec(Seq::<(Option<Seq<char>>, Option<Seq<char>>)>::empty())
        == Ok::<Map<Seq<char>, u32>, ExtractError>(Map::<Seq<char>, u32>::empty()));
    assert(extract_pairs_spec(one) == Ok::<Map<Seq<char>, u32>, ExtractError>(
        Map::<Seq<char>, u32>::empty().insert(kv1.0, kv1.1),
    ));
    assert(Map::<Seq<char>, u32>::empty().insert(kv1.0, kv1.1).insert(kv2.0, kv2.1)
        =~= Map::<Seq<char>, u32>::empty().insert(kv2.0, kv2.1));
    assert(Map::<Seq<char>, u32>::empty().insert(kv2.0, kv2.1).dom() =~= Set::<
        Seq<char>,
    >::empty().insert(kv2.0));
}

/// Law: a document in which the selector matches nothing extracts to a
/// successful, empty mapping — not to a failure.
pub proof fn lemma_extract_empty_selection(doc: Seq<char>, selector: Seq<char>)
    requires
        selected_attr_text(doc, selector, live_count_attr()).len() == 0,
    ensures
        extract_spec(doc, selector) == Ok::<Map<Seq<char>, u32>, ExtractError>(
            Map::<Seq<char>, u32>::empty(),
        ),
{
}

} // verus!
