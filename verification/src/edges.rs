//! Key edges, and the order in which simultaneous ones are reported.

use vstd::prelude::*;

verus! {

/// Monotonic timestamp in ns measured from an unspecified starting point.
pub type Nanos = u64;

/// A Linux `KEY_*` / `BTN_*` code.
pub type KeyCode = u16;

/// One edge of one key: the key went down or up at `time`.
#[derive(Debug, Clone, Copy, PartialEq, Eq, Structural)]
pub struct KeyEvent {
    pub time: Nanos,
    pub key: KeyCode,
    pub down: bool,
}

/// Whether `a` is reported before `b`: by time, and at the same time by key.
pub open spec fn earlier(a: KeyEvent, b: KeyEvent) -> bool {
    a.time < b.time || (a.time == b.time && a.key < b.key)
}

/// Every edge is reported before all those that follow it.
pub open spec fn in_order(s: Seq<KeyEvent>) -> bool {
    forall|i: int, j: int| 0 <= i < j < s.len() ==> earlier(#[trigger] s[i], #[trigger] s[j])
}

/// `s` with `e` put in its place, in front of the edges that are not earlier.
pub open spec fn placed(s: Seq<KeyEvent>, e: KeyEvent) -> Seq<KeyEvent>
    decreases s.len(),
{
    if s.len() == 0 || earlier(s.last(), e) {
        s.push(e)
    } else {
        placed(s.drop_last(), e).push(s.last())
    }
}

/// What `pick` gives for the key codes below `n`, in order.
pub open spec fn gathered_below(pick: spec_fn(KeyCode) -> Option<KeyEvent>, n: int) -> Seq<KeyEvent>
    decreases n,
{
    if n <= 0 {
        Seq::empty()
    } else {
        match pick((n - 1) as KeyCode) {
            Some(e) => placed(gathered_below(pick, n - 1), e),
            None => gathered_below(pick, n - 1),
        }
    }
}

/// What `pick` gives for each key code, in order of time and then of key.
pub open spec fn gathered(pick: spec_fn(KeyCode) -> Option<KeyEvent>) -> Seq<KeyEvent> {
    gathered_below(pick, 0x1_0000)
}

/// `pick` gives each key an edge of that key only.
pub open spec fn picks_own(pick: spec_fn(KeyCode) -> Option<KeyEvent>) -> bool {
    forall|k: KeyCode| (#[trigger] pick(k)) matches Some(e) ==> e.key == k
}

/// `s` holds exactly the edges that `pick` gives to key codes below `n`.
pub open spec fn holds_picked(
    s: Seq<KeyEvent>,
    pick: spec_fn(KeyCode) -> Option<KeyEvent>,
    n: int,
) -> bool {
    forall|e: KeyEvent| #[trigger] s.contains(e) <==> (e.key < n && pick(e.key) == Some(e))
}

/// Putting an edge of a new key in its place keeps the order and adds only that edge.
pub proof fn lemma_placed(s: Seq<KeyEvent>, e: KeyEvent)
    requires
        in_order(s),
        forall|i: int| 0 <= i < s.len() ==> (#[trigger] s[i]).key != e.key,
    ensures
        in_order(placed(s, e)),
        placed(s, e).len() == s.len() + 1,
        forall|x: KeyEvent| #[trigger] placed(s, e).contains(x) <==> s.contains(x) || x == e,
    decreases s.len(),
{
    if s.len() == 0 || earlier(s.last(), e) {
        let t = s.push(e);
        assert forall|x: KeyEvent| #[trigger] t.contains(x) <==> s.contains(x) || x == e by {
            if s.contains(x) {
                let i = s.index_of(x);
                assert(t[i] == x);
            }
            if x == e {
                assert(t[s.len() as int] == e);
            }
        }
        assert forall|i: int, j: int| 0 <= i < j < t.len() implies earlier(
            #[trigger] t[i],
            #[trigger] t[j],
        ) by {
            if j == s.len() {
                if i < s.len() - 1 {
                    assert(earlier(s[i], s.last()));
                }
            }
        }
    } else {
        let d = s.drop_last();
        assert forall|i: int| 0 <= i < d.len() implies (#[trigger] d[i]).key != e.key by {
            assert(d[i] == s[i]);
        }
        lemma_placed(d, e);
        let p = placed(d, e);
        let t = p.push(s.last());
        assert(s.last() == s[s.len() - 1]);
        assert(earlier(e, s.last()));
        assert forall|x: KeyEvent| #[trigger] t.contains(x) <==> s.contains(x) || x == e by {
            if t.contains(x) {
                let i = t.index_of(x);
                if i < p.len() {
                    assert(p[i] == x);
                    assert(p.contains(x));
                    if d.contains(x) {
                        assert(s[d.index_of(x)] == x);
                    }
                } else {
                    assert(s[s.len() - 1] == x);
                }
            }
            if s.contains(x) {
                let i = s.index_of(x);
                if i < d.len() {
                    assert(d[i] == x);
                    assert(p.contains(x));
                    assert(t[p.index_of(x)] == x);
                } else {
                    assert(t[p.len() as int] == x);
                }
            }
            if x == e {
                assert(p.contains(e));
                assert(t[p.index_of(e)] == e);
            }
        }
        assert forall|i: int, j: int| 0 <= i < j < t.len() implies earlier(
            #[trigger] t[i],
            #[trigger] t[j],
        ) by {
            if j == p.len() {
                assert(p.contains(p[i]));
                if p[i] != e {
                    let m = d.index_of(p[i]);
                    assert(d[m] == s[m]);
                    assert(earlier(s[m], s[s.len() - 1]));
                }
            }
        }
    }
}

/// The picked edges of the key codes below `n` come out in order, each of them once.
pub proof fn lemma_gathered_below(pick: spec_fn(KeyCode) -> Option<KeyEvent>, n: int)
    requires
        picks_own(pick),
        0 <= n <= 0x1_0000,
    ensures
        in_order(gathered_below(pick, n)),
        holds_picked(gathered_below(pick, n), pick, n),
    decreases n,
{
    if n > 0 {
        lemma_gathered_below(pick, n - 1);
        let rest = gathered_below(pick, n - 1);
        let k = (n - 1) as KeyCode;
        match pick(k) {
            Some(e) => {
                assert forall|i: int| 0 <= i < rest.len() implies (#[trigger] rest[i]).key
                    != e.key by {
                    assert(rest.contains(rest[i]));
                }
                lemma_placed(rest, e);
            },
            None => {},
        }
    }
}

/// The picked edges come out in order, each of them once.
pub proof fn lemma_gathered(pick: spec_fn(KeyCode) -> Option<KeyEvent>)
    requires
        picks_own(pick),
    ensures
        in_order(gathered(pick)),
        forall|e: KeyEvent| #[trigger]
            gathered(pick).contains(e) <==> pick(e.key) == Some(e),
{
    lemma_gathered_below(pick, 0x1_0000);
}

/// Edges in order are determined by which edges they are.
pub proof fn lemma_in_order_unique(a: Seq<KeyEvent>, b: Seq<KeyEvent>)
    requires
        in_order(a),
        in_order(b),
        forall|e: KeyEvent| #[trigger] a.contains(e) <==> b.contains(e),
    ensures
        a == b,
    decreases a.len(),
{
    if a.len() == 0 {
        if b.len() > 0 {
            assert(b.contains(b[0]));
            assert(a.contains(b[0]));
        }
        assert(a =~= b);
    } else {
        assert(a.contains(a.last()));
        assert(b.contains(a.last()));
        let j = b.index_of(a.last());
        assert(b.contains(b.last()));
        assert(a.contains(b.last()));
        let i = a.index_of(b.last());
        if j < b.len() - 1 {
            assert(earlier(b[j], b[b.len() - 1]));
            if i < a.len() - 1 {
                assert(earlier(a[i], a[a.len() - 1]));
            }
        }
        assert(a.last() == b.last());
        let a2 = a.drop_last();
        let b2 = b.drop_last();
        assert forall|e: KeyEvent| #[trigger] a2.contains(e) <==> b2.contains(e) by {
            if a2.contains(e) {
                let m = a2.index_of(e);
                assert(a[m] == e);
                assert(a.contains(e));
                let q = b.index_of(e);
                assert(earlier(a[m], a[a.len() - 1]));
                assert(b2[q] == e);
            }
            if b2.contains(e) {
                let m = b2.index_of(e);
                assert(b[m] == e);
                assert(b.contains(e));
                assert(a.contains(e));
                let q = a.index_of(e);
                assert(earlier(b[m], b[b.len() - 1]));
                assert(a2[q] == e);
            }
        }
        lemma_in_order_unique(a2, b2);
        assert(a =~= a2.push(a.last()));
        assert(b =~= b2.push(b.last()));
    }
}

/// How many key codes below `n` satisfy `pred`.
pub open spec fn counted_below(pred: spec_fn(KeyCode) -> bool, n: int) -> nat
    decreases n,
{
    if n <= 0 {
        0
    } else {
        counted_below(pred, n - 1) + if pred((n - 1) as KeyCode) {
            1nat
        } else {
            0nat
        }
    }
}

/// How many key codes satisfy `pred`.
pub open spec fn counted(pred: spec_fn(KeyCode) -> bool) -> nat {
    counted_below(pred, 0x1_0000)
}

/// Where `both` holds of what either of two exclusive predicates holds of, it counts as many as the
/// two together.
pub proof fn lemma_counted_sum(
    a: spec_fn(KeyCode) -> bool,
    b: spec_fn(KeyCode) -> bool,
    both: spec_fn(KeyCode) -> bool,
    n: int,
)
    requires
        forall|k: KeyCode| #[trigger] both(k) <==> a(k) || b(k),
        forall|k: KeyCode| !(#[trigger] a(k) && #[trigger] b(k)),
    ensures
        counted_below(both, n) == counted_below(a, n) + counted_below(b, n),
    decreases n,
{
    if n > 0 {
        lemma_counted_sum(a, b, both, n - 1);
        let k = (n - 1) as KeyCode;
        assert(both(k) <==> a(k) || b(k));
        assert(!(a(k) && b(k)));
    }
}

/// A predicate that holds of less counts less.
pub proof fn lemma_counted_less(
    a: spec_fn(KeyCode) -> bool,
    b: spec_fn(KeyCode) -> bool,
    n: int,
)
    requires
        0 <= n <= 0x1_0000,
        forall|k: KeyCode| #[trigger] a(k) ==> b(k),
    ensures
        counted_below(a, n) <= counted_below(b, n),
        forall|k: KeyCode|
            k < n && #[trigger] b(k) && !a(k) ==> counted_below(a, n) < counted_below(b, n),
    decreases n,
{
    if n > 0 {
        lemma_counted_less(a, b, n - 1);
        let k = (n - 1) as KeyCode;
        assert(a(k) ==> b(k));
        assert forall|j: KeyCode| j < n && #[trigger] b(j) && !a(j) implies counted_below(a, n)
            < counted_below(b, n) by {
            if j != k {
                assert(j < n - 1);
            }
        }
    }
}

/// As many edges are gathered as there are keys that one is picked for.
pub proof fn lemma_gathered_len(pick: spec_fn(KeyCode) -> Option<KeyEvent>, n: int)
    requires
        picks_own(pick),
        0 <= n <= 0x1_0000,
    ensures
        gathered_below(pick, n).len() == counted_below(|k: KeyCode| pick(k) is Some, n),
    decreases n,
{
    if n > 0 {
        lemma_gathered_len(pick, n - 1);
        lemma_gathered_below(pick, n - 1);
        let rest = gathered_below(pick, n - 1);
        match pick((n - 1) as KeyCode) {
            Some(e) => {
                assert forall|i: int| 0 <= i < rest.len() implies (#[trigger] rest[i]).key
                    != e.key by {
                    assert(rest.contains(rest[i]));
                }
                lemma_placed(rest, e);
            },
            None => {},
        }
    }
}

/// Puts an edge of a new key in its place among edges that are in order.
pub fn place(edges: &mut Vec<KeyEvent>, edge: KeyEvent)
    requires
        in_order(old(edges)@),
        forall|i: int| 0 <= i < old(edges)@.len() ==> (#[trigger] old(edges)@[i]).key != edge.key,
    ensures
        final(edges)@ == placed(old(edges)@, edge),
{
    let mut at: usize = edges.len();
    proof {
        assert(edges@.take(at as int) =~= edges@);
        assert(placed(edges@, edge) + edges@.skip(at as int) =~= placed(edges@, edge));
    }
    while at > 0 && !(edges[at - 1].time < edge.time || (edges[at - 1].time == edge.time && edges[at
        - 1].key < edge.key))
        invariant
            at <= edges@.len(),
            placed(edges@, edge) == placed(edges@.take(at as int), edge) + edges@.skip(at as int),
        decreases at,
    {
        proof {
            let t = edges@.take(at as int);
            assert(t.last() == edges@[at - 1]);
            assert(t.drop_last() =~= edges@.take(at - 1));
            assert(placed(t, edge) == placed(edges@.take(at - 1), edge).push(edges@[at - 1]));
            assert(placed(edges@.take(at - 1), edge).push(edges@[at - 1]) + edges@.skip(at as int)
                =~= placed(edges@.take(at - 1), edge) + edges@.skip(at - 1));
        }
        at = at - 1;
    }
    proof {
        let t = edges@.take(at as int);
        assert(at > 0 ==> t.last() == edges@[at - 1]);
        assert(placed(t, edge) == t.push(edge));
        assert(edges@.insert(at as int, edge) =~= t.push(edge) + edges@.skip(at as int));
    }
    edges.insert(at, edge);
}

} // verus!
