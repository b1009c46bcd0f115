//! The order of keys: by their UTF-8 bytes, byte by byte.

use crate::text;
use vstd::prelude::*;
use vstd::relations;
use vstd::utf8;

verus! {

/// `a` comes before `b`: at the first byte in which they differ `a` has the
/// smaller one, or `a` ends there.
pub open spec fn bytes_before(a: Seq<u8>, b: Seq<u8>) -> bool
    decreases a.len(),
{
    if b.len() == 0 {
        false
    } else if a.len() == 0 {
        true
    } else if a[0] != b[0] {
        a[0] < b[0]
    } else {
        bytes_before(a.drop_first(), b.drop_first())
    }
}

/// `a` comes before `b` among keys.
pub open spec fn before(a: Seq<char>, b: Seq<char>) -> bool {
    bytes_before(utf8::encode_utf8(a), utf8::encode_utf8(b))
}

/// The order of keys as a relation: `a` does not come after `b`.
pub open spec fn key_order() -> spec_fn(Seq<char>, Seq<char>) -> bool {
    |a: Seq<char>, b: Seq<char>| !before(b, a)
}

/// Each key comes before all that follow it.
pub open spec fn ascending(s: Seq<Seq<char>>) -> bool {
    forall|i: int, j: int| 0 <= i < j < s.len() ==> before(#[trigger] s[i], #[trigger] s[j])
}

proof fn lemma_bytes_irreflexive(a: Seq<u8>)
    ensures
        !bytes_before(a, a),
    decreases a.len(),
{
    if a.len() > 0 {
        lemma_bytes_irreflexive(a.drop_first());
    }
}

proof fn lemma_bytes_transitive(a: Seq<u8>, b: Seq<u8>, c: Seq<u8>)
    requires
        bytes_before(a, b),
        bytes_before(b, c),
    ensures
        bytes_before(a, c),
    decreases a.len(),
{
    if a.len() > 0 && a[0] == b[0] && b[0] == c[0] {
        lemma_bytes_transitive(a.drop_first(), b.drop_first(), c.drop_first());
    }
}

proof fn lemma_bytes_connected(a: Seq<u8>, b: Seq<u8>)
    ensures
        a == b || bytes_before(a, b) || bytes_before(b, a),
    decreases a.len(),
{
    if a.len() == 0 || b.len() == 0 {
        if a.len() == b.len() {
            assert(a =~= b);
        }
    } else if a[0] == b[0] {
        lemma_bytes_connected(a.drop_first(), b.drop_first());
        if a.drop_first() == b.drop_first() {
            assert(a =~= seq![a[0]] + a.drop_first());
            assert(b =~= seq![b[0]] + b.drop_first());
        }
    }
}

/// The order of keys is strict and total: no key comes before itself, the order
/// is transitive, and of two different keys one comes before the other.
pub proof fn key_order_is_total(a: Seq<char>, b: Seq<char>, c: Seq<char>)
    ensures
        !before(a, a),
        before(a, b) ==> !before(b, a),
        before(a, b) && before(b, c) ==> before(a, c),
        a == b || before(a, b) || before(b, a),
{
    let x = utf8::encode_utf8(a);
    let y = utf8::encode_utf8(b);
    let z = utf8::encode_utf8(c);
    lemma_bytes_irreflexive(x);
    if bytes_before(x, y) && bytes_before(y, z) {
        lemma_bytes_transitive(x, y, z);
    }
    if bytes_before(x, y) && bytes_before(y, x) {
        lemma_bytes_transitive(x, y, x);
    }
    lemma_bytes_connected(x, y);
    if x == y {
        utf8::encode_utf8_decode_utf8(a);
        utf8::encode_utf8_decode_utf8(b);
    }
}

pub proof fn lemma_key_order()
    ensures
        relations::total_ordering(key_order()),
{
    let r = key_order();
    assert forall|x: Seq<char>| #[trigger] r(x, x) by {
        key_order_is_total(x, x, x);
    }
    assert forall|x: Seq<char>, y: Seq<char>| #[trigger] r(x, y) && #[trigger] r(y, x) implies x
        == y by {
        key_order_is_total(x, y, x);
    }
    assert forall|x: Seq<char>, y: Seq<char>, z: Seq<char>| #[trigger]
        r(x, y) && #[trigger] r(y, z) implies r(x, z) by {
        key_order_is_total(x, y, z);
        key_order_is_total(z, x, y);
        key_order_is_total(z, y, x);
        key_order_is_total(y, x, z);
        key_order_is_total(z, x, x);
    }
    assert forall|x: Seq<char>, y: Seq<char>| #[trigger] r(x, y) || #[trigger] r(y, x) by {
        key_order_is_total(x, y, x);
    }
}

// ---- beginnings of keys ----

/// The bytes of two texts in a row are those of the one, then those of the other.
proof fn lemma_encode_concat(a: Seq<char>, b: Seq<char>)
    ensures
        utf8::encode_utf8(a + b) == utf8::encode_utf8(a) + utf8::encode_utf8(b),
    decreases a.len(),
{
    if a.len() == 0 {
        assert(a + b =~= b);
        assert(utf8::encode_utf8(a) + utf8::encode_utf8(b) =~= utf8::encode_utf8(b));
    } else {
        lemma_encode_concat(a.drop_first(), b);
        assert((a + b).drop_first() =~= a.drop_first() + b);
        assert(utf8::encode_utf8(a + b) =~= utf8::encode_utf8(a) + utf8::encode_utf8(b));
    }
}

/// A text begins with another one just where its bytes do.
proof fn lemma_prefix_bytes(p: Seq<char>, a: Seq<char>)
    ensures
        p.is_prefix_of(a) <==> utf8::encode_utf8(p).is_prefix_of(utf8::encode_utf8(a)),
{
    let x = utf8::encode_utf8(p);
    let y = utf8::encode_utf8(a);
    if p.is_prefix_of(a) {
        let r = a.skip(p.len() as int);
        assert(a =~= p + r);
        lemma_encode_concat(p, r);
        assert(y.subrange(0, x.len() as int) =~= x);
    }
    if x.is_prefix_of(y) {
        utf8::encode_utf8_valid_utf8(p);
        utf8::encode_utf8_valid_utf8(a);
        let n = x.len() as int;
        let z = y.subrange(n, y.len() as int);
        if !utf8::valid_utf8(z) {
            utf8::partial_valid_partial_invalid_utf8(y, n);
        }
        let r = utf8::decode_utf8(z);
        utf8::decode_utf8_encode_utf8(z);
        lemma_encode_concat(p, r);
        assert(x + z =~= y);
        utf8::encode_utf8_decode_utf8(p + r);
        utf8::encode_utf8_decode_utf8(a);
        assert((p + r).subrange(0, p.len() as int) =~= p);
    }
}

proof fn lemma_bytes_between(p: Seq<u8>, a: Seq<u8>, b: Seq<u8>, c: Seq<u8>)
    requires
        bytes_before(a, b),
        bytes_before(b, c),
        p.is_prefix_of(a),
        p.is_prefix_of(c),
    ensures
        p.is_prefix_of(b),
    decreases p.len(),
{
    if p.len() > 0 {
        let q = p.drop_first();
        let (x, y, z) = (a.drop_first(), b.drop_first(), c.drop_first());
        assert(a[0] == p[0] && c[0] == p[0]) by {
            assert(a.subrange(0, p.len() as int)[0] == p[0]);
            assert(c.subrange(0, p.len() as int)[0] == p[0]);
        }
        assert(b[0] == p[0]);
        assert(x.subrange(0, q.len() as int) =~= a.subrange(0, p.len() as int).drop_first());
        assert(z.subrange(0, q.len() as int) =~= c.subrange(0, p.len() as int).drop_first());
        lemma_bytes_between(q, x, y, z);
        assert(p =~= seq![p[0]] + q);
        assert(b.subrange(0, p.len() as int) =~= seq![p[0]] + y.subrange(0, q.len() as int));
    } else {
        assert(b.subrange(0, 0) =~= p);
    }
}

proof fn lemma_bytes_beginnings(a: Seq<u8>, b: Seq<u8>, p: Seq<u8>, q: Seq<u8>)
    requires
        bytes_before(a, b),
        p.is_prefix_of(a),
        q.is_prefix_of(b),
        !p.is_prefix_of(q),
        !q.is_prefix_of(p),
    ensures
        bytes_before(p, q),
    decreases p.len(),
{
    if p.len() == 0 {
        assert(q.subrange(0, 0) =~= p);
    }
    if q.len() == 0 {
        assert(p.subrange(0, 0) =~= q);
    }
    let (u, v) = (p.drop_first(), q.drop_first());
    let (x, y) = (a.drop_first(), b.drop_first());
    assert(a[0] == p[0] && b[0] == q[0]) by {
        assert(a.subrange(0, p.len() as int)[0] == p[0]);
        assert(b.subrange(0, q.len() as int)[0] == q[0]);
    }
    if p[0] == q[0] {
        assert(x.subrange(0, u.len() as int) =~= a.subrange(0, p.len() as int).drop_first());
        assert(y.subrange(0, v.len() as int) =~= b.subrange(0, q.len() as int).drop_first());
        if u.is_prefix_of(v) {
            assert(q.subrange(0, p.len() as int) =~= seq![q[0]] + v.subrange(0, u.len() as int));
            assert(p =~= seq![p[0]] + u);
        }
        if v.is_prefix_of(u) {
            assert(p.subrange(0, q.len() as int) =~= seq![p[0]] + u.subrange(0, v.len() as int));
            assert(q =~= seq![q[0]] + v);
        }
        lemma_bytes_beginnings(x, y, u, v);
    }
}

/// What two keys begin with, a key between them begins with too.
pub proof fn beginnings_lie_together(p: Seq<char>, a: Seq<char>, b: Seq<char>, c: Seq<char>)
    requires
        before(a, b),
        before(b, c),
        p.is_prefix_of(a),
        p.is_prefix_of(c),
    ensures
        p.is_prefix_of(b),
{
    lemma_prefix_bytes(p, a);
    lemma_prefix_bytes(p, b);
    lemma_prefix_bytes(p, c);
    lemma_bytes_between(
        utf8::encode_utf8(p),
        utf8::encode_utf8(a),
        utf8::encode_utf8(b),
        utf8::encode_utf8(c),
    );
}

/// What two keys begin with comes in the order of the keys, unless the one begins with
/// the other.
pub proof fn beginnings_come_in_order(a: Seq<char>, b: Seq<char>, p: Seq<char>, q: Seq<char>)
    requires
        before(a, b),
        p.is_prefix_of(a),
        q.is_prefix_of(b),
        !p.is_prefix_of(q),
        !q.is_prefix_of(p),
    ensures
        before(p, q),
{
    lemma_prefix_bytes(p, a);
    lemma_prefix_bytes(q, b);
    lemma_prefix_bytes(p, q);
    lemma_prefix_bytes(q, p);
    lemma_bytes_beginnings(
        utf8::encode_utf8(a),
        utf8::encode_utf8(b),
        utf8::encode_utf8(p),
        utf8::encode_utf8(q),
    );
}

/// Whether `a` comes before `b`.
pub fn is_before(a: &str, b: &str) -> (r: bool)
    ensures
        r == before(a@, b@),
{
    let x: &[u8] = a.as_bytes();
    let y: &[u8] = b.as_bytes();
    let mut i: usize = 0;
    proof {
        assert(x@.skip(0) =~= x@);
        assert(y@.skip(0) =~= y@);
    }
    while i < x.len() && i < y.len()
        invariant
            i <= x@.len(),
            i <= y@.len(),
            x@ == utf8::encode_utf8(a@),
            y@ == utf8::encode_utf8(b@),
            before(a@, b@) == bytes_before(x@.skip(i as int), y@.skip(i as int)),
        decreases x@.len() - i,
    {
        if x[i] != y[i] {
            return x[i] < y[i];
        }
        proof {
            assert(x@.skip(i as int).drop_first() =~= x@.skip(i + 1));
            assert(y@.skip(i as int).drop_first() =~= y@.skip(i + 1));
        }
        i = i + 1;
    }
    i < y.len()
}

/// `s` with `x` put in front of the first key that comes after it.
pub open spec fn with_inserted(s: Seq<Seq<char>>, x: Seq<char>) -> Seq<Seq<char>>
    decreases s.len(),
{
    if s.len() == 0 || !before(x, s.last()) {
        s.push(x)
    } else {
        with_inserted(s.drop_last(), x).push(s.last())
    }
}

proof fn lemma_with_inserted(s: Seq<Seq<char>>, x: Seq<char>)
    requires
        relations::sorted_by(s, key_order()),
    ensures
        relations::sorted_by(with_inserted(s, x), key_order()),
        with_inserted(s, x).to_multiset() == s.to_multiset().insert(x),
        with_inserted(s, x).len() == s.len() + 1,
    decreases s.len(),
{
    broadcast use vstd::seq_lib::group_to_multiset_ensures;
    broadcast use vstd::multiset::group_multiset_axioms;

    let t = with_inserted(s, x);
    if s.len() == 0 {
    } else if !before(x, s.last()) {
        assert forall|i: int, j: int| 0 <= i < j < t.len() implies (key_order())(
            #[trigger] t[i],
            #[trigger] t[j],
        ) by {
            if j == s.len() {
                if i < s.len() - 1 {
                    assert((key_order())(s[i], s.last()));
                }
                key_order_is_total(x, s[i], s.last());
                key_order_is_total(s[i], s.last(), x);
                key_order_is_total(s.last(), s[i], x);
            }
        }
    } else {
        let u = s.drop_last();
        assert(s =~= u.push(s.last()));
        lemma_with_inserted(u, x);
        let v = with_inserted(u, x);
        assert forall|i: int, j: int| 0 <= i < j < t.len() implies (key_order())(
            #[trigger] t[i],
            #[trigger] t[j],
        ) by {
            if j == s.len() {
                assert(v.to_multiset().count(v[i]) > 0) by {
                    assert(v.contains(v[i]));
                }
                if v[i] == x {
                    key_order_is_total(x, s.last(), x);
                } else {
                    assert(u.to_multiset().count(v[i]) > 0);
                    assert(u.contains(v[i]));
                    let k = choose|k: int| 0 <= k < u.len() && u[k] == v[i];
                    assert((key_order())(s[k], s[s.len() - 1]));
                }
            }
        }
        assert(t.to_multiset() =~= s.to_multiset().insert(x));
    }
}

/// Puts `x` in front of the first key that comes after it.
fn insert_in_order(list: &mut Vec<String>, x: String)
    ensures
        text::views(final(list)@) == with_inserted(text::views(old(list)@), x@),
{
    let mut i: usize = list.len();
    let ghost s = text::views(list@);
    let ghost mut tail: Seq<Seq<char>> = Seq::empty();
    proof {
        assert(s.take(i as int) =~= s);
        assert(with_inserted(s, x@) =~= with_inserted(s.take(i as int), x@) + tail);
        assert(tail =~= s.skip(i as int));
    }
    while i > 0 && is_before(x.as_str(), list[i - 1].as_str())
        invariant
            i <= list@.len(),
            list@ == old(list)@,
            s == text::views(list@),
            with_inserted(s, x@) == with_inserted(s.take(i as int), x@) + tail,
            tail == s.skip(i as int),
        decreases i,
    {
        proof {
            let t = s.take(i as int);
            assert(t.last() == list@[i - 1]@);
            assert(t.drop_last() =~= s.take(i - 1));
            assert(with_inserted(s.take(i - 1), x@).push(t.last()) + tail =~= with_inserted(
                s.take(i - 1),
                x@,
            ) + (seq![t.last()] + tail));
            tail = seq![t.last()] + tail;
            assert(tail =~= s.skip(i - 1));
        }
        i = i - 1;
    }
    proof {
        let t = s.take(i as int);
        if i > 0 {
            assert(t.last() == list@[i - 1]@);
        }
        assert(with_inserted(t, x@) == t.push(x@));
    }
    let ghost xv = x@;
    list.insert(i, x);
    proof {
        assert(text::views(list@) =~= s.take(i as int).push(xv) + s.skip(i as int));
    }
}

/// `keys` in the order of keys.
pub open spec fn in_order(keys: Seq<Seq<char>>) -> Seq<Seq<char>> {
    keys.sort_by(key_order())
}

/// The keys in their order.
pub fn sorted(keys: Vec<String>) -> (r: Vec<String>)
    ensures
        text::views(r@) == in_order(text::views(keys@)),
{
    broadcast use vstd::seq_lib::group_to_multiset_ensures;

    let ghost all = text::views(keys@);
    let mut r: Vec<String> = Vec::new();
    let mut i: usize = 0;
    proof {
        assert(text::views(r@) =~= Seq::<Seq<char>>::empty());
        assert(all.take(0) =~= Seq::<Seq<char>>::empty());
    }
    while i < keys.len()
        invariant
            i <= keys@.len(),
            all == text::views(keys@),
            relations::sorted_by(text::views(r@), key_order()),
            text::views(r@).to_multiset() == all.take(i as int).to_multiset(),
        decreases keys@.len() - i,
    {
        proof {
            lemma_with_inserted(text::views(r@), keys@[i as int]@);
            assert(all.take(i + 1) =~= all.take(i as int).push(keys@[i as int]@));
            all.take(i as int).to_multiset_ensures();
        }
        insert_in_order(&mut r, keys[i].clone());
        i = i + 1;
    }
    proof {
        assert(all.take(all.len() as int) =~= all);
        lemma_key_order();
        all.lemma_sort_by_ensures(key_order());
        vstd::seq_lib::lemma_sorted_unique(text::views(r@), in_order(all), key_order());
    }
    r
}

/// `s` with `x` among its keys: unchanged where it holds `x` already.
pub open spec fn with_member(s: Seq<Seq<char>>, x: Seq<char>) -> Seq<Seq<char>> {
    if s.contains(x) {
        s
    } else {
        with_inserted(s, x)
    }
}

proof fn lemma_inserted_len(s: Seq<Seq<char>>, x: Seq<char>)
    ensures
        with_inserted(s, x).len() == s.len() + 1,
    decreases s.len(),
{
    if s.len() > 0 && before(x, s.last()) {
        lemma_inserted_len(s.drop_last(), x);
    }
}

/// Adding a key adds at most one.
pub proof fn lemma_member_len(s: Seq<Seq<char>>, x: Seq<char>)
    ensures
        with_member(s, x).len() == s.len() + (if s.contains(x) {
            0int
        } else {
            1
        }),
{
    lemma_inserted_len(s, x);
}

/// Whether `x` is among the keys.
pub fn has_member(list: &Vec<String>, x: &str) -> (r: bool)
    ensures
        r == text::views(list@).contains(x@),
{
    let ghost s = text::views(list@);
    let mut i: usize = 0;
    while i < list.len()
        invariant
            i <= list@.len(),
            s == text::views(list@),
            forall|k: int| 0 <= k < i ==> s[k] != x@,
        decreases list@.len() - i,
    {
        proof {
            assert(s[i as int] == list@[i as int]@);
        }
        if text::same_text(list[i].as_str(), x) {
            return true;
        }
        i = i + 1;
    }
    false
}

/// Adds `x` unless it is there already.
pub fn add_member(list: &mut Vec<String>, x: String)
    ensures
        text::views(final(list)@) == with_member(text::views(old(list)@), x@),
{
    let ghost s = text::views(list@);
    let mut i: usize = 0;
    while i < list.len()
        invariant
            i <= list@.len(),
            list@ == old(list)@,
            s == text::views(list@),
            forall|k: int| 0 <= k < i ==> s[k] != x@,
        decreases list@.len() - i,
    {
        if list[i] == x {
            proof {
                assert(s[i as int] == x@);
            }
            return ;
        }
        i = i + 1;
    }
    insert_in_order(list, x);
}

/// Adding a key keeps a list ascending, and the list then holds the keys that it
/// held and `x`.
pub proof fn members_stay_ascending(s: Seq<Seq<char>>, x: Seq<char>)
    requires
        ascending(s),
    ensures
        ascending(with_member(s, x)),
        forall|k: Seq<char>| #[trigger]
            with_member(s, x).contains(k) <==> s.contains(k) || k == x,
{
    broadcast use vstd::seq_lib::group_to_multiset_ensures;
    broadcast use vstd::multiset::group_multiset_axioms;

    let t = with_member(s, x);
    if !s.contains(x) {
        assert forall|i: int, j: int| 0 <= i < j < s.len() implies (key_order())(
            #[trigger] s[i],
            #[trigger] s[j],
        ) by {
            key_order_is_total(s[i], s[j], x);
        }
        lemma_with_inserted(s, x);
        assert forall|k: Seq<char>| #[trigger] t.contains(k) <==> s.contains(k) || k == x by {
            assert(t.contains(k) <==> t.to_multiset().count(k) > 0);
            assert(s.contains(k) <==> s.to_multiset().count(k) > 0);
        }
        s.to_multiset_ensures();
        assert(s.no_duplicates()) by {
            assert forall|i: int, j: int| 0 <= i < s.len() && 0 <= j < s.len() && i != j implies s[i]
                != s[j] by {
                if i < j {
                    key_order_is_total(s[i], s[j], x);
                } else {
                    key_order_is_total(s[j], s[i], x);
                }
            }
        }
        s.lemma_multiset_has_no_duplicates();
        assert forall|k: Seq<char>| t.to_multiset().contains(k) implies t.to_multiset().count(k)
            == 1 by {
            if k == x {
                assert(s.to_multiset().count(x) == 0);
            } else {
                assert(s.to_multiset().contains(k));
            }
        }
        t.lemma_multiset_has_no_duplicates_conv();
        assert forall|i: int, j: int| 0 <= i < j < t.len() implies before(
            #[trigger] t[i],
            #[trigger] t[j],
        ) by {
            assert((key_order())(t[i], t[j]));
            key_order_is_total(t[i], t[j], x);
        }
    } else {
        assert forall|k: Seq<char>| #[trigger] t.contains(k) <==> s.contains(k) || k == x by {}
    }
}

} // verus!
