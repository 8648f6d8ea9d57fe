//! The lexicographic order on byte strings, which orders the keys of every tree.
use vstd::prelude::*;

verus! {

/// `a` sorts strictly before `b` in lexicographic byte order (a proper prefix sorts first).
pub open spec fn bytes_lt(a: Seq<u8>, b: Seq<u8>) -> bool
    decreases a.len(),
{
    if a.len() == 0 {
        b.len() > 0
    } else if b.len() == 0 {
        false
    } else if a[0] != b[0] {
        a[0] < b[0]
    } else {
        bytes_lt(a.drop_first(), b.drop_first())
    }
}

pub proof fn lemma_bytes_lt_irreflexive(a: Seq<u8>)
    ensures
        !bytes_lt(a, a),
    decreases a.len(),
{
    if a.len() > 0 {
        lemma_bytes_lt_irreflexive(a.drop_first());
    }
}

pub proof fn lemma_bytes_lt_asymmetric(a: Seq<u8>, b: Seq<u8>)
    ensures
        !(bytes_lt(a, b) && bytes_lt(b, a)),
    decreases a.len(),
{
    if a.len() > 0 && b.len() > 0 && a[0] == b[0] {
        lemma_bytes_lt_asymmetric(a.drop_first(), b.drop_first());
    }
}

pub proof fn lemma_bytes_lt_transitive(a: Seq<u8>, b: Seq<u8>, c: Seq<u8>)
    requires
        bytes_lt(a, b),
        bytes_lt(b, c),
    ensures
        bytes_lt(a, c),
    decreases a.len(),
{
    if a.len() > 0 && b.len() > 0 && c.len() > 0 && a[0] == b[0] && b[0] == c[0] {
        lemma_bytes_lt_transitive(a.drop_first(), b.drop_first(), c.drop_first());
    }
}

pub proof fn lemma_bytes_lt_total(a: Seq<u8>, b: Seq<u8>)
    ensures
        a == b || bytes_lt(a, b) || bytes_lt(b, a),
    decreases a.len(),
{
    if a.len() > 0 && b.len() > 0 && a[0] == b[0] {
        lemma_bytes_lt_total(a.drop_first(), b.drop_first());
        if a.drop_first() == b.drop_first() {
            assert(a =~= seq![a[0]] + a.drop_first());
            assert(b =~= seq![b[0]] + b.drop_first());
        }
    }
}

/// The order is a strict total order: irreflexive, transitive, and any two distinct
/// byte strings are comparable.
pub proof fn law_bytes_order_strict_total()
    ensures
        forall|a: Seq<u8>| !bytes_lt(a, a),
        forall|a: Seq<u8>, b: Seq<u8>, c: Seq<u8>|
            #[trigger] bytes_lt(a, b) && #[trigger] bytes_lt(b, c) ==> bytes_lt(a, c),
        forall|a: Seq<u8>, b: Seq<u8>| a != b ==> bytes_lt(a, b) || bytes_lt(b, a),
{
    assert forall|a: Seq<u8>| !bytes_lt(a, a) by {
        lemma_bytes_lt_irreflexive(a);
    }
    assert forall|a: Seq<u8>, b: Seq<u8>, c: Seq<u8>|
        #[trigger] bytes_lt(a, b) && #[trigger] bytes_lt(b, c) implies bytes_lt(a, c) by {
        lemma_bytes_lt_transitive(a, b, c);
    }
    assert forall|a: Seq<u8>, b: Seq<u8>| a != b implies bytes_lt(a, b) || bytes_lt(b, a) by {
        lemma_bytes_lt_total(a, b);
    }
}

proof fn lemma_bytes_lt_skip(a: Seq<u8>, b: Seq<u8>, i: int)
    requires
        0 <= i <= a.len(),
        i <= b.len(),
        a.take(i) == b.take(i),
    ensures
        bytes_lt(a, b) == bytes_lt(a.skip(i), b.skip(i)),
    decreases i,
{
    if i > 0 {
        assert(a[0] == a.take(i)[0]);
        assert(b[0] == b.take(i)[0]);
        assert(a.drop_first().take(i - 1) =~= a.take(i).drop_first());
        assert(b.drop_first().take(i - 1) =~= b.take(i).drop_first());
        lemma_bytes_lt_skip(a.drop_first(), b.drop_first(), i - 1);
        assert(a.drop_first().skip(i - 1) =~= a.skip(i));
        assert(b.drop_first().skip(i - 1) =~= b.skip(i));
    } else {
        assert(a.skip(0) =~= a);
        assert(b.skip(0) =~= b);
    }
}

/// The first `i` bytes of `a` and `b` agree.
pub open spec fn same_prefix(a: Seq<u8>, b: Seq<u8>, i: usize) -> bool {
    i <= a.len() && i <= b.len() && a.take(i as int) == b.take(i as int)
}

proof fn lemma_first_difference(a: Seq<u8>, b: Seq<u8>, i: usize)
    requires
        same_prefix(a, b, i),
        i < a.len(),
        i < b.len(),
        a[i as int] != b[i as int],
    ensures
        bytes_lt(a, b) == (a[i as int] < b[i as int]),
        bytes_lt(b, a) == (b[i as int] < a[i as int]),
        a != b,
{
    lemma_bytes_lt_skip(a, b, i as int);
    lemma_bytes_lt_skip(b, a, i as int);
    assert(a.skip(i as int)[0] == a[i as int]);
    assert(b.skip(i as int)[0] == b[i as int]);
}

proof fn lemma_prefix_step(a: Seq<u8>, b: Seq<u8>, i: usize)
    requires
        same_prefix(a, b, i),
        i < a.len(),
        i < b.len(),
        a[i as int] == b[i as int],
        i + 1 <= usize::MAX,
    ensures
        same_prefix(a, b, (i + 1) as usize),
{
    assert(a.take(i + 1) =~= a.take(i as int).push(a[i as int]));
    assert(b.take(i + 1) =~= b.take(i as int).push(b[i as int]));
}

proof fn lemma_prefix_end(a: Seq<u8>, b: Seq<u8>, i: usize)
    requires
        same_prefix(a, b, i),
        i == a.len() || i == b.len(),
    ensures
        a.len() < b.len() ==> bytes_lt(a, b) && !bytes_lt(b, a) && a != b,
        b.len() < a.len() ==> bytes_lt(b, a) && !bytes_lt(a, b) && a != b,
        a.len() == b.len() ==> a == b && !bytes_lt(a, b),
{
    lemma_bytes_lt_skip(a, b, i as int);
    lemma_bytes_lt_skip(b, a, i as int);
    if a.len() == b.len() {
        assert(a =~= a.take(i as int));
        assert(b =~= b.take(i as int));
        lemma_bytes_lt_irreflexive(a);
    }
}

/// The outcome of comparing two keys.
#[derive(PartialEq, Eq, Structural, Clone, Copy, Debug)]
pub enum KeyOrder {
    Less,
    Equal,
    Greater,
}

/// Compares two byte strings in lexicographic order.
pub fn compare_keys(a: &[u8], b: &[u8]) -> (r: KeyOrder)
    ensures
        (r == KeyOrder::Less) <==> bytes_lt(a@, b@),
        (r == KeyOrder::Equal) <==> a@ == b@,
        (r == KeyOrder::Greater) <==> bytes_lt(b@, a@),
{
    let mut i: usize = 0;
    proof {
        assert(a@.take(0) =~= b@.take(0));
    }
    while i < a.len() && i < b.len()
        invariant
            same_prefix(a@, b@, i),
        decreases a@.len() - i,
    {
        if a[i] != b[i] {
            proof {
                lemma_first_difference(a@, b@, i);
            }
            if a[i] < b[i] {
                return KeyOrder::Less;
            } else {
                return KeyOrder::Greater;
            }
        }
        proof {
            lemma_prefix_step(a@, b@, i);
        }
        i = i + 1;
    }
    proof {
        lemma_prefix_end(a@, b@, i);
    }
    if a.len() < b.len() {
        KeyOrder::Less
    } else if b.len() < a.len() {
        KeyOrder::Greater
    } else {
        KeyOrder::Equal
    }
}

} // verus!
