//! Keys with a strict total order, by which grouped results are arranged.

use crate::schema::{Addr, Node};
use vstd::prelude::*;
use vstd::utf8::encode_utf8;

verus! {

/// A key type whose values are arranged by a strict total order.
///
/// The order is stated on the key's view, so that two keys with the same view
/// are one key.
pub trait SortKey: View + Sized {
    /// Whether `a` stands strictly before `b`.
    spec fn precedes(a: Self::V, b: Self::V) -> bool;

    /// No value stands before itself.
    proof fn lemma_irreflexive(a: Self::V)
        ensures
            !Self::precedes(a, a),
    ;

    /// The order is transitive.
    proof fn lemma_transitive(a: Self::V, b: Self::V, c: Self::V)
        requires
            Self::precedes(a, b),
            Self::precedes(b, c),
        ensures
            Self::precedes(a, c),
    ;

    /// Any two different values are ordered one way or the other.
    proof fn lemma_connected(a: Self::V, b: Self::V)
        ensures
            a == b || Self::precedes(a, b) || Self::precedes(b, a),
    ;

    /// Decides whether `self` stands strictly before `other`.
    fn is_before(&self, other: &Self) -> (r: bool)
        ensures
            r == Self::precedes(self@, other@),
    ;

    /// Decides whether `self` and `other` are the same key.
    fn is_same(&self, other: &Self) -> (r: bool)
        ensures
            r == (self@ == other@),
    ;

    /// A copy of the key.
    fn duplicate(&self) -> (r: Self)
        ensures
            r@ == self@,
    ;
}

impl View for Addr {
    type V = Addr;

    open spec fn view(&self) -> Addr {
        *self
    }
}

impl Addr {
    /// The position of an address in the order of addresses: family, IP
    /// address, port, flow information, scope.
    pub open spec fn rank(self) -> (int, int, int, int, int) {
        match self {
            Addr::V4 { ip, port } => (0, ip as int, port as int, 0, 0),
            Addr::V6 { ip, port, flowinfo, scope_id } => (
                1,
                ip as int,
                port as int,
                flowinfo as int,
                scope_id as int,
            ),
        }
    }
}

/// Lexicographic order on five integers.
pub open spec fn rank_precedes(a: (int, int, int, int, int), b: (int, int, int, int, int)) -> bool {
    a.0 < b.0 || (a.0 == b.0 && (a.1 < b.1 || (a.1 == b.1 && (a.2 < b.2 || (a.2 == b.2 && (a.3
        < b.3 || (a.3 == b.3 && a.4 < b.4)))))))
}

impl SortKey for Addr {
    open spec fn precedes(a: Addr, b: Addr) -> bool {
        rank_precedes(a.rank(), b.rank())
    }

    proof fn lemma_irreflexive(a: Addr) {
    }

    proof fn lemma_transitive(a: Addr, b: Addr, c: Addr) {
    }

    proof fn lemma_connected(a: Addr, b: Addr) {
    }

    fn is_before(&self, other: &Addr) -> (r: bool) {
        match (*self, *other) {
            (Addr::V4 { ip: ip_a, port: port_a }, Addr::V4 { ip: ip_b, port: port_b }) => {
                ip_a < ip_b || (ip_a == ip_b && port_a < port_b)
            },
            (Addr::V4 { .. }, Addr::V6 { .. }) => true,
            (Addr::V6 { .. }, Addr::V4 { .. }) => false,
            (
                Addr::V6 { ip: ip_a, port: port_a, flowinfo: flow_a, scope_id: scope_a },
                Addr::V6 { ip: ip_b, port: port_b, flowinfo: flow_b, scope_id: scope_b },
            ) => {
                ip_a < ip_b || (ip_a == ip_b && (port_a < port_b || (port_a == port_b && (flow_a
                    < flow_b || (flow_a == flow_b && scope_a < scope_b)))))
            },
        }
    }

    fn is_same(&self, other: &Addr) -> (r: bool) {
        *self == *other
    }

    fn duplicate(&self) -> (r: Addr) {
        *self
    }
}

impl SortKey for Node {
    open spec fn precedes(a: Node, b: Node) -> bool {
        a < b
    }

    proof fn lemma_irreflexive(a: Node) {
    }

    proof fn lemma_transitive(a: Node, b: Node, c: Node) {
    }

    proof fn lemma_connected(a: Node, b: Node) {
    }

    fn is_before(&self, other: &Node) -> (r: bool) {
        *self < *other
    }

    fn is_same(&self, other: &Node) -> (r: bool) {
        *self == *other
    }

    fn duplicate(&self) -> (r: Node) {
        *self
    }
}

/// Whether a sequence of keys is strictly ascending.
pub open spec fn ascending<K: SortKey>(keys: Seq<K::V>) -> bool {
    forall|i: int, j: int|
        #![trigger keys[i], keys[j]]
        0 <= i < j < keys.len() ==> K::precedes(keys[i], keys[j])
}

/// Whether `keys` holds exactly the members of `of`, in ascending order.
pub open spec fn is_walk<K: SortKey>(keys: Seq<K::V>, of: Set<K::V>) -> bool {
    &&& ascending::<K>(keys)
    &&& forall|k: K::V|
        #![trigger keys.contains(k)]
        #![trigger of.contains(k)]
        keys.contains(k) <==> of.contains(k)
}

/// The members of a set in ascending order. This is the order in which
/// everything that is keyed by the set is visited.
pub open spec fn walk<K: SortKey>(of: Set<K::V>) -> Seq<K::V> {
    choose|keys: Seq<K::V>| is_walk::<K>(keys, of)
}

/// No key occurs twice in an ascending sequence.
pub proof fn lemma_ascending_distinct<K: SortKey>(keys: Seq<K::V>, i: int, j: int)
    requires
        ascending::<K>(keys),
        0 <= i < keys.len(),
        0 <= j < keys.len(),
        keys[i] == keys[j],
    ensures
        i == j,
{
    K::lemma_irreflexive(keys[i]);
}

/// Two ascending sequences with the same members are the same sequence.
pub proof fn lemma_ascending_unique<K: SortKey>(a: Seq<K::V>, b: Seq<K::V>)
    requires
        ascending::<K>(a),
        ascending::<K>(b),
        forall|k: K::V|
            #![trigger a.contains(k)]
            #![trigger b.contains(k)]
            a.contains(k) <==> b.contains(k),
    ensures
        a == b,
    decreases a.len(),
{
    if a.len() == 0 {
        if b.len() > 0 {
            assert(b.contains(b[0]));
        }
        assert(a =~= b);
    } else {
        assert(a.contains(a[0]));
        let j = choose|j: int| 0 <= j < b.len() && b[j] == a[0];
        assert(b.contains(b[0]));
        let i = choose|i: int| 0 <= i < a.len() && a[i] == b[0];
        K::lemma_irreflexive(a[0]);
        if j > 0 {
            if i > 0 {
                K::lemma_transitive(a[0], a[i], a[0]);
            }
        }
        assert(a[0] == b[0]);
        let a1 = a.drop_first();
        let b1 = b.drop_first();
        assert forall|k: K::V|
            #![trigger a1.contains(k)]
            #![trigger b1.contains(k)]
            a1.contains(k) <==> b1.contains(k) by {
            if a1.contains(k) {
                let x = choose|x: int| 0 <= x < a1.len() && a1[x] == k;
                assert(a[x + 1] == k);
                assert(a.contains(k));
                let y = choose|y: int| 0 <= y < b.len() && b[y] == k;
                if y == 0 {
                    lemma_ascending_distinct::<K>(a, 0, x + 1);
                }
                assert(b1[y - 1] == k);
            }
            if b1.contains(k) {
                let y = choose|y: int| 0 <= y < b1.len() && b1[y] == k;
                assert(b[y + 1] == k);
                assert(b.contains(k));
                let x = choose|x: int| 0 <= x < a.len() && a[x] == k;
                if x == 0 {
                    lemma_ascending_distinct::<K>(b, 0, y + 1);
                }
                assert(a1[x - 1] == k);
            }
        }
        assert(ascending::<K>(a1)) by {
            assert forall|x: int, y: int|
                #![trigger a1[x], a1[y]]
                0 <= x < y < a1.len() implies K::precedes(a1[x], a1[y]) by {
                assert(a1[x] == a[x + 1] && a1[y] == a[y + 1]);
            }
        }
        assert(ascending::<K>(b1)) by {
            assert forall|x: int, y: int|
                #![trigger b1[x], b1[y]]
                0 <= x < y < b1.len() implies K::precedes(b1[x], b1[y]) by {
                assert(b1[x] == b[x + 1] && b1[y] == b[y + 1]);
            }
        }
        lemma_ascending_unique::<K>(a1, b1);
        assert(a =~= seq![a[0]] + a1);
        assert(b =~= seq![b[0]] + b1);
    }
}

/// An ascending sequence is the walk of the set of its members.
pub proof fn lemma_walk_is<K: SortKey>(keys: Seq<K::V>, of: Set<K::V>)
    requires
        is_walk::<K>(keys, of),
    ensures
        walk::<K>(of) == keys,
{
    let chosen = walk::<K>(of);
    assert(is_walk::<K>(chosen, of));
    assert forall|k: K::V|
        #![trigger chosen.contains(k)]
        #![trigger keys.contains(k)]
        chosen.contains(k) <==> keys.contains(k) by {
        assert(chosen.contains(k) <==> of.contains(k));
        assert(keys.contains(k) <==> of.contains(k));
    }
    lemma_ascending_unique::<K>(chosen, keys);
}

/// Lexicographic order on byte sequences: a proper prefix stands before its
/// extensions, and otherwise the first differing byte decides.
pub open spec fn bytes_precede(a: Seq<u8>, b: Seq<u8>) -> bool
    decreases a.len(),
{
    if b.len() == 0 {
        false
    } else if a.len() == 0 {
        true
    } else if a[0] != b[0] {
        a[0] < b[0]
    } else {
        bytes_precede(a.drop_first(), b.drop_first())
    }
}

pub proof fn lemma_bytes_irreflexive(a: Seq<u8>)
    ensures
        !bytes_precede(a, a),
    decreases a.len(),
{
    if a.len() > 0 {
        lemma_bytes_irreflexive(a.drop_first());
    }
}

pub proof fn lemma_bytes_transitive(a: Seq<u8>, b: Seq<u8>, c: Seq<u8>)
    requires
        bytes_precede(a, b),
        bytes_precede(b, c),
    ensures
        bytes_precede(a, c),
    decreases a.len(),
{
    if a.len() > 0 && a[0] == b[0] && b[0] == c[0] {
        lemma_bytes_transitive(a.drop_first(), b.drop_first(), c.drop_first());
    }
}

pub proof fn lemma_bytes_connected(a: Seq<u8>, b: Seq<u8>)
    ensures
        a == b || bytes_precede(a, b) || bytes_precede(b, a),
    decreases a.len(),
{
    if a.len() > 0 && b.len() > 0 && a[0] == b[0] {
        lemma_bytes_connected(a.drop_first(), b.drop_first());
        if a.drop_first() == b.drop_first() {
            assert(a =~= seq![a[0]] + a.drop_first());
            assert(b =~= seq![b[0]] + b.drop_first());
        }
    } else if a.len() == 0 && b.len() == 0 {
        assert(a =~= b);
    }
}

/// Skipping a common prefix does not change how two byte sequences compare.
proof fn lemma_bytes_skip(a: Seq<u8>, b: Seq<u8>, n: int)
    requires
        0 <= n <= a.len(),
        n <= b.len(),
        forall|j: int| 0 <= j < n ==> a[j] == b[j],
    ensures
        bytes_precede(a, b) == bytes_precede(a.skip(n), b.skip(n)),
    decreases n,
{
    if n > 0 {
        assert(a.drop_first().skip(n - 1) =~= a.skip(n));
        assert(b.drop_first().skip(n - 1) =~= b.skip(n));
        lemma_bytes_skip(a.drop_first(), b.drop_first(), n - 1);
    } else {
        assert(a.skip(0) =~= a);
        assert(b.skip(0) =~= b);
    }
}

/// The order of descriptors: the lexicographic order of their UTF-8
/// encodings, which is the order of their code points.
pub open spec fn text_precedes(a: Seq<char>, b: Seq<char>) -> bool {
    bytes_precede(encode_utf8(a), encode_utf8(b))
}

/// Two texts with the same UTF-8 encoding are the same text.
pub proof fn lemma_encoding_injective(a: Seq<char>, b: Seq<char>)
    requires
        encode_utf8(a) == encode_utf8(b),
    ensures
        a == b,
{
    vstd::utf8::encode_utf8_decode_utf8(a);
    vstd::utf8::encode_utf8_decode_utf8(b);
}

impl SortKey for String {
    open spec fn precedes(a: Seq<char>, b: Seq<char>) -> bool {
        text_precedes(a, b)
    }

    proof fn lemma_irreflexive(a: Seq<char>) {
        lemma_bytes_irreflexive(encode_utf8(a));
    }

    proof fn lemma_transitive(a: Seq<char>, b: Seq<char>, c: Seq<char>) {
        lemma_bytes_transitive(encode_utf8(a), encode_utf8(b), encode_utf8(c));
    }

    proof fn lemma_connected(a: Seq<char>, b: Seq<char>) {
        lemma_bytes_connected(encode_utf8(a), encode_utf8(b));
        if encode_utf8(a) == encode_utf8(b) {
            lemma_encoding_injective(a, b);
        }
    }

    fn is_before(&self, other: &String) -> (r: bool) {
        let a = self.as_str().as_bytes();
        let b = other.as_str().as_bytes();
        let mut i: usize = 0;
        while i < a.len() && i < b.len()
            invariant
                a@ == encode_utf8(self@),
                b@ == encode_utf8(other@),
                i <= a@.len(),
                i <= b@.len(),
                forall|j: int| 0 <= j < i ==> a@[j] == b@[j],
            decreases a@.len() - i,
        {
            if a[i] != b[i] {
                proof {
                    lemma_bytes_skip(a@, b@, i as int);
                    assert(a@.skip(i as int)[0] == a@[i as int]);
                    assert(b@.skip(i as int)[0] == b@[i as int]);
                }
                return a[i] < b[i];
            }
            i += 1;
        }
        proof {
            lemma_bytes_skip(a@, b@, i as int);
        }
        i < b.len()
    }

    fn is_same(&self, other: &String) -> (r: bool) {
        *self == *other
    }

    fn duplicate(&self) -> (r: String) {
        self.clone()
    }
}

} // verus!
