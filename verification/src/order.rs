use vstd::prelude::*;

verus! {

/// Whether `a` comes before `b` in byte-wise lexicographic order, given that the
/// two agree on their first `i` bytes.
pub open spec fn less_from(a: Seq<u8>, b: Seq<u8>, i: int) -> bool
    decreases a.len() - i,
{
    if i < 0 || i >= b.len() {
        false
    } else if i >= a.len() {
        true
    } else if a[i] != b[i] {
        a[i] < b[i]
    } else {
        less_from(a, b, i + 1)
    }
}

/// Whether `a` comes before `b` in byte-wise lexicographic order: at the first
/// position where they differ `a` has the smaller byte, or `a` is a proper
/// prefix of `b`.
pub open spec fn bytes_less(a: Seq<u8>, b: Seq<u8>) -> bool {
    less_from(a, b, 0)
}

/// How two paths stand to each other.
#[derive(Clone, Copy, Debug, PartialEq, Eq, Structural)]
pub enum PathOrder {
    Before,
    Same,
    After,
}

proof fn lemma_less_from_skip(a: Seq<u8>, b: Seq<u8>, i: int, j: int)
    requires
        0 <= i <= j <= a.len(),
        j <= b.len(),
        forall|k: int| i <= k < j ==> a[k] == b[k],
    ensures
        less_from(a, b, i) == less_from(a, b, j),
    decreases j - i,
{
    if i < j {
        lemma_less_from_skip(a, b, i + 1, j);
    }
}

proof fn lemma_less_from_irreflexive(a: Seq<u8>, i: int)
    requires
        0 <= i,
    ensures
        !less_from(a, a, i),
    decreases a.len() - i,
{
    if i < a.len() {
        lemma_less_from_irreflexive(a, i + 1);
    }
}

proof fn lemma_less_from_transitive(a: Seq<u8>, b: Seq<u8>, c: Seq<u8>, i: int)
    requires
        0 <= i,
        less_from(a, b, i),
        less_from(b, c, i),
    ensures
        less_from(a, c, i),
    decreases a.len() - i,
{
    if i < a.len() && a[i] == b[i] && b[i] == c[i] {
        lemma_less_from_transitive(a, b, c, i + 1);
    }
}

proof fn lemma_less_from_total(a: Seq<u8>, b: Seq<u8>, i: int)
    requires
        0 <= i <= a.len(),
        i <= b.len(),
        forall|k: int| 0 <= k < i ==> a[k] == b[k],
        !less_from(a, b, i),
        !less_from(b, a, i),
    ensures
        a == b,
    decreases a.len() - i,
{
    if i < a.len() {
        lemma_less_from_total(a, b, i + 1);
    } else {
        assert(a =~= b);
    }
}

/// No path comes before itself.
pub proof fn lemma_less_irreflexive(a: Seq<u8>)
    ensures
        !bytes_less(a, a),
{
    lemma_less_from_irreflexive(a, 0);
}

/// The order is transitive.
pub proof fn lemma_less_transitive(a: Seq<u8>, b: Seq<u8>, c: Seq<u8>)
    requires
        bytes_less(a, b),
        bytes_less(b, c),
    ensures
        bytes_less(a, c),
{
    lemma_less_from_transitive(a, b, c, 0);
}

/// Of two paths that differ, one comes before the other, and never both.
pub proof fn lemma_less_total(a: Seq<u8>, b: Seq<u8>)
    ensures
        bytes_less(a, b) || bytes_less(b, a) || a == b,
        !(bytes_less(a, b) && bytes_less(b, a)),
{
    if !bytes_less(a, b) && !bytes_less(b, a) {
        lemma_less_from_total(a, b, 0);
    }
    if bytes_less(a, b) && bytes_less(b, a) {
        lemma_less_transitive(a, b, a);
        lemma_less_irreflexive(a);
    }
}

/// Places `a` relative to `b` in byte-wise lexicographic order.
pub fn order_bytes(a: &[u8], b: &[u8]) -> (r: PathOrder)
    ensures
        r == PathOrder::Before <==> bytes_less(a@, b@),
        r == PathOrder::Same <==> a@ == b@,
        r == PathOrder::After <==> bytes_less(b@, a@),
{
    proof {
        lemma_less_total(a@, b@);
        lemma_less_irreflexive(a@);
    }
    let mut i: usize = 0;
    while i < a.len() && i < b.len()
        invariant
            i <= a@.len(),
            i <= b@.len(),
            forall|k: int| 0 <= k < i ==> a@[k] == b@[k],
        decreases a@.len() - i,
    {
        if a[i] != b[i] {
            proof {
                lemma_less_from_skip(a@, b@, 0, i as int);
                lemma_less_from_skip(b@, a@, 0, i as int);
            }
            if a[i] < b[i] {
                return PathOrder::Before;
            } else {
                return PathOrder::After;
            }
        }
        i += 1;
    }
    proof {
        lemma_less_from_skip(a@, b@, 0, i as int);
        lemma_less_from_skip(b@, a@, 0, i as int);
    }
    if i < b.len() {
        PathOrder::Before
    } else if i < a.len() {
        PathOrder::After
    } else {
        assert(a@ =~= b@);
        PathOrder::Same
    }
}

} // verus!
