//! Lists of key codes, and those in ascending order.

use crate::edges::KeyCode;
use std::collections::HashSet;
use vstd::prelude::*;

verus! {

broadcast use vstd::std_specs::hash::group_hash_axioms;

/// Every code is greater than those in front of it.
pub open spec fn ascending(codes: Seq<KeyCode>) -> bool {
    forall|i: int, j: int| 0 <= i < j < codes.len() ==> #[trigger] codes[i] < #[trigger] codes[j]
}

/// The codes below `n` that satisfy `pred`, in ascending order.
pub open spec fn codes_below(pred: spec_fn(KeyCode) -> bool, n: int) -> Seq<KeyCode>
    decreases n,
{
    if n <= 0 {
        Seq::empty()
    } else if pred((n - 1) as KeyCode) {
        codes_below(pred, n - 1).push((n - 1) as KeyCode)
    } else {
        codes_below(pred, n - 1)
    }
}

/// All codes that satisfy `pred`, in ascending order.
pub open spec fn codes_where(pred: spec_fn(KeyCode) -> bool) -> Seq<KeyCode> {
    codes_below(pred, 0x1_0000)
}

pub proof fn lemma_codes_below(pred: spec_fn(KeyCode) -> bool, n: int)
    requires
        0 <= n <= 0x1_0000,
    ensures
        ascending(codes_below(pred, n)),
        codes_below(pred, n).len() <= n,
        forall|k: KeyCode| #[trigger] codes_below(pred, n).contains(k) <==> k < n && pred(k),
    decreases n,
{
    if n > 0 {
        lemma_codes_below(pred, n - 1);
        let rest = codes_below(pred, n - 1);
        let last = (n - 1) as KeyCode;
        if pred(last) {
            let all = rest.push(last);
            assert forall|k: KeyCode| #[trigger] all.contains(k) <==> k < n && pred(k) by {
                if rest.contains(k) {
                    assert(all[rest.index_of(k)] == k);
                }
                if k == last {
                    assert(all[rest.len() as int] == k);
                }
                if all.contains(k) && k != last {
                    assert(rest[all.index_of(k)] == k);
                }
            }
            assert forall|i: int, j: int| 0 <= i < j < all.len() implies #[trigger] all[i]
                < #[trigger] all[j] by {
                assert(rest.contains(rest[i]));
            }
        }
    }
}

/// Codes in ascending order are determined by which codes they are.
pub proof fn lemma_ascending_unique(a: Seq<KeyCode>, b: Seq<KeyCode>)
    requires
        ascending(a),
        ascending(b),
        forall|k: KeyCode| #[trigger] a.contains(k) <==> b.contains(k),
    ensures
        a == b,
    decreases a.len(),
{
    if a.len() == 0 {
        if b.len() > 0 {
            assert(b.contains(b[0]));
            assert(a.contains(b[0]));
        }
        assert(a =~= b);
    } else {
        assert(a.contains(a.last()));
        assert(b.contains(a.last()));
        assert(b.contains(b.last()));
        assert(a.contains(b.last()));
        let i = a.index_of(b.last());
        let j = b.index_of(a.last());
        assert(i < a.len() - 1 ==> a[i] < a[a.len() - 1]);
        assert(j < b.len() - 1 ==> b[j] < b[b.len() - 1]);
        let a2 = a.drop_last();
        let b2 = b.drop_last();
        assert forall|k: KeyCode| #[trigger] a2.contains(k) <==> b2.contains(k) by {
            if a2.contains(k) {
                let m = a2.index_of(k);
                assert(a[m] == k);
                assert(a.contains(k));
                assert(a[m] < a[a.len() - 1]);
                assert(b2[b.index_of(k)] == k);
            }
            if b2.contains(k) {
                let m = b2.index_of(k);
                assert(b[m] == k);
                assert(b.contains(k));
                assert(a.contains(k));
                assert(b[m] < b[b.len() - 1]);
                assert(a2[a.index_of(k)] == k);
            }
        }
        lemma_ascending_unique(a2, b2);
        assert(a =~= a2.push(a.last()));
        assert(b =~= b2.push(b.last()));
    }
}

/// Puts `code` in its place, if it is not there yet.
pub fn insert_code(codes: &mut Vec<KeyCode>, code: KeyCode)
    requires
        ascending(old(codes)@),
    ensures
        ascending(final(codes)@),
        forall|k: KeyCode| #[trigger]
            final(codes)@.contains(k) <==> old(codes)@.contains(k) || k == code,
{
    let mut at: usize = codes.len();
    while at > 0 && codes[at - 1] > code
        invariant
            at <= codes@.len(),
            ascending(codes@),
            forall|i: int| at <= i < codes@.len() ==> #[trigger] codes@[i] > code,
        decreases at,
    {
        at = at - 1;
    }
    if at > 0 && codes[at - 1] == code {
        assert(codes@.contains(code));
    } else {
        codes.insert(at, code);
        proof {
            let before = old(codes)@;
            let after = codes@;
            assert forall|i: int, j: int| 0 <= i < j < after.len() implies #[trigger] after[i]
                < #[trigger] after[j] by {
                assert(at > 0 ==> before[at - 1] < code);
                if i < at && at > 0 && i < at - 1 {
                    assert(before[i] < before[at - 1]);
                }
                if i > at {
                    assert(before[i - 1] < before[j - 1]);
                }
            }
            assert forall|k: KeyCode| #[trigger] after.contains(k) <==> before.contains(k) || k
                == code by {
                if before.contains(k) {
                    let m = before.index_of(k);
                    assert(after[if m < at {
                        m
                    } else {
                        m + 1
                    }] == k);
                }
                if k == code {
                    assert(after[at as int] == k);
                }
                if after.contains(k) && k != code {
                    let m = after.index_of(k);
                    assert(before[if m < at {
                        m
                    } else {
                        m - 1
                    }] == k);
                }
            }
        }
    }
}

/// One more element taken is one more element contained.
pub proof fn lemma_take_contains(keys: Seq<KeyCode>, i: int)
    requires
        0 <= i < keys.len(),
    ensures
        forall|k: KeyCode| #[trigger]
            keys.take(i + 1).contains(k) <==> keys.take(i).contains(k) || k == keys[i],
{
    assert forall|k: KeyCode| #[trigger]
        keys.take(i + 1).contains(k) <==> keys.take(i).contains(k) || k == keys[i] by {
        if keys.take(i).contains(k) {
            assert(keys.take(i + 1)[keys.take(i).index_of(k)] == k);
        }
        if k == keys[i] {
            assert(keys.take(i + 1)[i] == k);
        }
        if keys.take(i + 1).contains(k) && k != keys[i] {
            assert(keys.take(i)[keys.take(i + 1).index_of(k)] == k);
        }
    }
}

/// Whether `code` is among `codes`.
pub fn has_code(codes: &[u16], code: u16) -> (has: bool)
    ensures
        has == codes@.contains(code),
{
    for i in 0..codes.len()
        invariant
            forall|j: int| 0 <= j < i ==> #[trigger] codes@[j] != code,
    {
        if codes[i] == code {
            assert(codes@[i as int] == code);
            return true;
        }
    }
    false
}

/// The codes in a set, in no particular order.
pub fn members(set: &HashSet<KeyCode>) -> (codes: Vec<KeyCode>)
    ensures
        forall|k: KeyCode| #[trigger] codes@.contains(k) <==> set@.contains(k),
{
    let mut codes: Vec<KeyCode> = Vec::new();
    let ghost all = vstd::std_specs::iter::IteratorSpec::remaining(
        &vstd::std_specs::hash::spec_hash_keys_iter(set),
    ).unref();
    for k in it: set.iter()
        invariant
            it.seq().unref() == all,
            codes@ == all.take(it.index() as int),
    {
        proof {
            assert(all.take(it.index() + 1) =~= all.take(it.index() as int).push(*k));
        }
        codes.push(*k);
    }
    assert(codes@ =~= all);
    assert(codes@.to_set() =~= set@);
    assert forall|k: KeyCode| #[trigger] codes@.contains(k) <==> set@.contains(k) by {
        assert(codes@.contains(k) <==> codes@.to_set().contains(k));
    }
    codes
}

} // verus!
