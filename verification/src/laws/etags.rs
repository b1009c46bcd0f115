//! What ETags look like, and when one matches another, character by character.

use crate::conditions;
use crate::digits;
use crate::meta;
use crate::order;
use crate::store::tokens;
use crate::text;
use crate::text::Margin;
use vstd::arithmetic::power;
use vstd::prelude::*;
use vstd::utf8;

verus! {

// ---- taking off space and quotes ----

/// `s[lo..hi]` is what is left of `s` when the margin at both ends is taken off.
pub open spec fn is_core(s: Seq<char>, m: Margin, lo: int, hi: int) -> bool {
    &&& 0 <= lo <= hi <= s.len()
    &&& forall|i: int| 0 <= i < lo || hi <= i < s.len() ==> m.covers(#[trigger] s[i])
    &&& lo < hi ==> !m.covers(s[lo]) && !m.covers(s[hi - 1])
}

proof fn lemma_front_core(s: Seq<char>, m: Margin, lo: int)
    requires
        0 <= lo <= s.len(),
        forall|i: int| 0 <= i < lo ==> m.covers(#[trigger] s[i]),
        lo < s.len() ==> !m.covers(s[lo]),
    ensures
        text::without_front(s, m) == s.skip(lo),
    decreases lo,
{
    if lo > 0 {
        let t = s.drop_first();
        assert(m.covers(s[0]));
        assert forall|i: int| 0 <= i < lo - 1 implies m.covers(#[trigger] t[i]) by {
            assert(t[i] == s[i + 1]);
        }
        lemma_front_core(t, m, lo - 1);
        assert(t.skip(lo - 1) =~= s.skip(lo));
    } else {
        assert(s.skip(0) =~= s);
    }
}

proof fn lemma_back_core(s: Seq<char>, m: Margin, hi: int)
    requires
        0 <= hi <= s.len(),
        forall|i: int| hi <= i < s.len() ==> m.covers(#[trigger] s[i]),
        hi > 0 ==> !m.covers(s[hi - 1]),
    ensures
        text::without_back(s, m) == s.take(hi),
    decreases s.len(),
{
    if hi < s.len() {
        let t = s.drop_last();
        assert(m.covers(s[s.len() - 1]));
        assert forall|i: int| hi <= i < t.len() implies m.covers(#[trigger] t[i]) by {
            assert(t[i] == s[i]);
        }
        lemma_back_core(t, m, hi);
        assert(t.take(hi) =~= s.take(hi));
    } else {
        assert(s.take(hi) =~= s);
    }
}

/// Trimming leaves the core, wherever it lies.
proof fn lemma_trimmed(s: Seq<char>, m: Margin, lo: int, hi: int)
    requires
        is_core(s, m, lo, hi),
    ensures
        text::trimmed(s, m) == s.subrange(lo, hi),
{
    if lo < hi {
        lemma_front_core(s, m, lo);
        let t = s.skip(lo);
        assert forall|i: int| hi - lo <= i < t.len() implies m.covers(#[trigger] t[i]) by {
            assert(t[i] == s[i + lo]);
        }
        lemma_back_core(t, m, hi - lo);
        assert(t.take(hi - lo) =~= s.subrange(lo, hi));
    } else {
        assert forall|i: int| 0 <= i < s.len() implies m.covers(#[trigger] s[i]) by {}
        lemma_front_core(s, m, s.len() as int);
        let t = s.skip(s.len() as int);
        assert(t =~= Seq::<char>::empty());
        lemma_back_core(t, m, 0);
        assert(t.take(0) =~= s.subrange(lo, hi));
    }
}

/// What may be cut off around an ETag: the white space of Unicode, and the double quote.
pub proof fn margins_by_character(c: char)
    ensures
        Margin::Quote.covers(c) <==> c == '"',
        Margin::Space.covers(c) <==> {
            ||| '\t' <= c <= '\r'
            ||| c == ' '
            ||| c == '\u{85}'
            ||| c == '\u{a0}'
            ||| c == '\u{1680}'
            ||| '\u{2000}' <= c <= '\u{200a}'
            ||| c == '\u{2028}'
            ||| c == '\u{2029}'
            ||| c == '\u{202f}'
            ||| c == '\u{205f}'
            ||| c == '\u{3000}'
        },
{
}

/// There is always a core.
proof fn lemma_some_core(s: Seq<char>, m: Margin) -> (r: (int, int))
    ensures
        is_core(s, m, r.0, r.1),
    decreases s.len(),
{
    if s.len() == 0 {
        (0, 0)
    } else if m.covers(s[0]) {
        let t = s.drop_first();
        let (lo, hi) = lemma_some_core(t, m);
        assert forall|i: int| 0 <= i < lo + 1 || hi + 1 <= i < s.len() implies m.covers(
            #[trigger] s[i],
        ) by {
            if i > 0 {
                assert(t[i - 1] == s[i]);
            }
        }
        (lo + 1, hi + 1)
    } else if m.covers(s.last()) {
        let t = s.drop_last();
        let (lo, hi) = lemma_some_core(t, m);
        assert forall|i: int| 0 <= i < lo || hi <= i < s.len() implies m.covers(#[trigger] s[i]) by {
            if i < s.len() - 1 {
                assert(t[i] == s[i]);
            }
        }
        if lo == hi {
            assert(m.covers(s[0])) by {
                assert(t.len() > 0);
                assert(t[0] == s[0]);
            }
        }
        (lo, hi)
    } else {
        (0, s.len() as int)
    }
}

/// `t` is `s` without the space around it, and without the double quotes around what is
/// then left: `s` is space, quotes, `t`, quotes and space, and no more of either can be
/// taken off.
pub open spec fn is_stripped(s: Seq<char>, t: Seq<char>) -> bool {
    exists|a: int, b: int, c: int, d: int| #[trigger] is_stripped_at(s, t, a, b, c, d)
}

/// `t` is `s[b..c]`, with quotes around it up to `a` and `d`, and space around those.
pub open spec fn is_stripped_at(
    s: Seq<char>,
    t: Seq<char>,
    a: int,
    b: int,
    c: int,
    d: int,
) -> bool {
    &&& 0 <= a <= b <= c <= d <= s.len()
    &&& forall|i: int| 0 <= i < a || d <= i < s.len() ==> text::white_space(#[trigger] s[i])
    &&& forall|i: int| a <= i < b || c <= i < d ==> #[trigger] s[i] == '"'
    &&& a < d ==> !text::white_space(s[a]) && !text::white_space(s[d - 1])
    &&& b < c ==> s[b] != '"' && s[c - 1] != '"'
    &&& t == s.subrange(b, c)
}

/// Every text is stripped to one text, which is the bare ETag.
pub proof fn stripping_gives_the_bare_etag(s: Seq<char>, t: Seq<char>)
    ensures
        is_stripped(s, t) <==> conditions::bare(s) == t,
{
    if is_stripped(s, t) {
        let (a, b, c, d) = choose|a: int, b: int, c: int, d: int| #[trigger]
            is_stripped_at(s, t, a, b, c, d);
        assert(is_core(s, Margin::Space, a, d));
        lemma_trimmed(s, Margin::Space, a, d);
        let u = s.subrange(a, d);
        assert forall|i: int| 0 <= i < b - a || c - a <= i < u.len() implies Margin::Quote.covers(
            #[trigger] u[i],
        ) by {
            assert(u[i] == s[a + i]);
        }
        assert(is_core(u, Margin::Quote, b - a, c - a));
        lemma_trimmed(u, Margin::Quote, b - a, c - a);
        assert(u.subrange(b - a, c - a) =~= t);
    }
    if conditions::bare(s) == t {
        let (a, d) = lemma_some_core(s, Margin::Space);
        lemma_trimmed(s, Margin::Space, a, d);
        let u = s.subrange(a, d);
        let (b, c) = lemma_some_core(u, Margin::Quote);
        lemma_trimmed(u, Margin::Quote, b, c);
        assert(u.subrange(b, c) =~= s.subrange(a + b, a + c));
        assert forall|i: int| a <= i < a + b || a + c <= i < d implies #[trigger] s[i] == '"' by {
            assert(u[i - a] == s[i]);
            assert(Margin::Quote.covers(u[i - a]));
        }
        assert forall|i: int| 0 <= i < a || d <= i < s.len() implies text::white_space(
            #[trigger] s[i],
        ) by {
            assert(Margin::Space.covers(s[i]));
        }
        if b < c {
            assert(u[b] == s[a + b] && u[c - 1] == s[a + c - 1]);
        }
        assert(is_stripped_at(s, t, a, a + b, a + c, d));
    }
}

/// An ETag that is given matches the ETag of an object if and only if, space and quotes
/// around both taken off, the given one is `*` or the two are the same text.
pub proof fn matching_etags_are_the_same(provided: Seq<char>, actual: Seq<char>)
    ensures
        conditions::matches_etag(provided, actual) <==> is_stripped(provided, "*"@) || exists|
            t: Seq<char>,
        | #[trigger] is_stripped(provided, t) && is_stripped(actual, t),
{
    stripping_gives_the_bare_etag(provided, "*"@);
    let t = conditions::bare(provided);
    stripping_gives_the_bare_etag(provided, t);
    stripping_gives_the_bare_etag(actual, t);
    if exists|t: Seq<char>| #[trigger] is_stripped(provided, t) && is_stripped(actual, t) {
        let t = choose|t: Seq<char>| #[trigger]
            is_stripped(provided, t) && is_stripped(actual, t);
        stripping_gives_the_bare_etag(provided, t);
        stripping_gives_the_bare_etag(actual, t);
    }
}

// ---- plain ETags ----

/// `s` is made of visible ASCII characters other than the double quote.
pub open spec fn is_visible(s: Seq<char>) -> bool {
    forall|i: int| 0 <= i < s.len() ==> '!' <= #[trigger] s[i] <= '~' && s[i] != '"'
}

/// `s`, between double quotes or as it is.
pub open spec fn dressed(s: Seq<char>, in_quotes: bool) -> Seq<char> {
    if in_quotes {
        seq!['"'] + s + seq!['"']
    } else {
        s
    }
}

/// A visible text is what is left of it in quotes and without.
pub proof fn lemma_dressed(s: Seq<char>, in_quotes: bool)
    requires
        is_visible(s),
    ensures
        is_stripped(dressed(s, in_quotes), s),
        conditions::bare(dressed(s, in_quotes)) == s,
{
    let t = dressed(s, in_quotes);
    let n = t.len() as int;
    let q: int = if in_quotes {
        1
    } else {
        0
    };
    assert(t.subrange(q, n - q) =~= s);
    assert forall|i: int| 0 <= i < n implies !text::white_space(#[trigger] t[i]) by {
        if q <= i < n - q {
            assert(t[i] == s[i - q]);
        }
    }
    if s.len() > 0 {
        assert(t[q] == s[0] && t[n - q - 1] == s[s.len() - 1]);
    }
    assert(is_stripped_at(t, s, 0, q, n - q, n));
    stripping_gives_the_bare_etag(t, s);
}

/// Of two visible ETags, each with quotes or without, one matches the other if and only
/// if it is `*` or they are the same.
pub proof fn plain_etags_match_when_equal(
    x: Seq<char>,
    x_quoted: bool,
    y: Seq<char>,
    y_quoted: bool,
)
    requires
        is_visible(x),
        is_visible(y),
    ensures
        conditions::matches_etag(dressed(x, x_quoted), dressed(y, y_quoted)) <==> x == "*"@ || x
            == y,
{
    lemma_dressed(x, x_quoted);
    lemma_dressed(y, y_quoted);
}

// ---- digits ----

/// The sixteen digits by their values.
pub proof fn hex_digits_by_value(n: int)
    requires
        0 <= n < 16,
    ensures
        digits::hex_digit(n) == "0123456789abcdef"@[n],
{
    reveal_strlit("0123456789abcdef");
    let s = "0123456789abcdef"@;
    assert(s[0] == '0' && s[1] == '1' && s[2] == '2' && s[3] == '3' && s[4] == '4' && s[5] == '5'
        && s[6] == '6' && s[7] == '7' && s[8] == '8' && s[9] == '9' && s[10] == 'a' && s[11] == 'b'
        && s[12] == 'c' && s[13] == 'd' && s[14] == 'e' && s[15] == 'f');
}

/// Bytes in hexadecimal: the byte at `j` is the two digits at `2 * j`, the greater one
/// first.
pub proof fn hex_spells_the_bytes(bytes: Seq<u8>)
    ensures
        digits::hex(bytes).len() == 2 * bytes.len(),
        forall|j: int|
            #![trigger bytes[j]]
            0 <= j < bytes.len() ==> digits::hex(bytes)[2 * j] == "0123456789abcdef"@[bytes[j] as int
                / 16] && digits::hex(bytes)[2 * j + 1] == "0123456789abcdef"@[bytes[j] as int % 16],
    decreases bytes.len(),
{
    if bytes.len() > 0 {
        let front = bytes.drop_last();
        hex_spells_the_bytes(front);
        let h = digits::hex(bytes);
        let g = digits::hex(front);
        assert forall|j: int|
            #![trigger bytes[j]]
            0 <= j < bytes.len() implies h[2 * j] == "0123456789abcdef"@[bytes[j] as int / 16]
            && h[2 * j + 1] == "0123456789abcdef"@[bytes[j] as int % 16] by {
            if j < front.len() {
                assert(front[j] == bytes[j]);
                assert(h[2 * j] == g[2 * j] && h[2 * j + 1] == g[2 * j + 1]);
            } else {
                hex_digits_by_value(bytes[j] as int / 16);
                hex_digits_by_value(bytes[j] as int % 16);
            }
        }
    }
}

/// Different bytes are spelled differently.
pub proof fn lemma_hex_tells_apart(a: Seq<u8>, b: Seq<u8>)
    requires
        digits::hex(a) == digits::hex(b),
    ensures
        a == b,
{
    hex_spells_the_bytes(a);
    hex_spells_the_bytes(b);
    assert(a.len() == b.len());
    assert forall|j: int| 0 <= j < a.len() implies a[j] == b[j] by {
        lemma_digit_tells_apart(a[j] as int / 16, b[j] as int / 16);
        lemma_digit_tells_apart(a[j] as int % 16, b[j] as int % 16);
    }
    assert(a =~= b);
}

proof fn lemma_digit_tells_apart(m: int, n: int)
    requires
        0 <= m < 16,
        0 <= n < 16,
    ensures
        "0123456789abcdef"@[m] == "0123456789abcdef"@[n] ==> m == n,
{
    hex_digits_by_value(m);
    hex_digits_by_value(n);
}

/// Bytes in hexadecimal are visible.
pub proof fn lemma_hex_visible(bytes: Seq<u8>)
    ensures
        is_visible(digits::hex(bytes)),
    decreases bytes.len(),
{
    if bytes.len() > 0 {
        lemma_hex_visible(bytes.drop_last());
        let h = digits::hex(bytes);
        let g = digits::hex(bytes.drop_last());
        assert forall|i: int| 0 <= i < h.len() implies '!' <= #[trigger] h[i] <= '~' && h[i] != '"' by {
            if i < g.len() {
                assert(h[i] == g[i]);
            }
        }
    }
}

/// A number in decimal: the digit `k` places from the end counts `10` to the `k`, and
/// no number above `9` begins with `0`.
pub proof fn decimal_spells_the_number(n: nat)
    ensures
        ({
            let d = digits::decimal(n);
            &&& d.len() > 0
            &&& d.len() > 1 ==> d[0] != '0'
            &&& n < power::pow(10, d.len())
            &&& forall|k: int|
                #![trigger d[d.len() - 1 - k]]
                0 <= k < d.len() ==> d[d.len() - 1 - k] == "0123456789abcdef"@[(n as int
                    / power::pow(10, k as nat)) % 10]
        }),
    decreases n,
{
    let d = digits::decimal(n);
    reveal(power::pow);
    power::lemma_pow1(10);
    power::lemma_pow0(10);
    if n < 10 {
        hex_digits_by_value(n as int);
        assert forall|k: int|
            #![trigger d[d.len() - 1 - k]]
            0 <= k < d.len() implies d[d.len() - 1 - k] == "0123456789abcdef"@[(n as int
            / power::pow(10, k as nat)) % 10] by {
            assert(k == 0);
        }
    } else {
        let e = digits::decimal(n / 10);
        decimal_spells_the_number(n / 10);
        assert(d == e.push(digits::hex_digit(n as int % 10)));
        hex_digits_by_value(n as int % 10);
        if e.len() == 1 {
            assert(e[0] == e[e.len() - 1 - 0]);
            assert(n as int / 10 < 10);
            lemma_digit_tells_apart(n as int / 10, 0);
            hex_digits_by_value(0);
            assert((n as int / 10) / power::pow(10, 0) == n as int / 10);
        }
        assert(d[0] == e[0]);
        assert(power::pow(10, d.len()) == 10 * power::pow(10, e.len()));
        assert forall|k: int|
            #![trigger d[d.len() - 1 - k]]
            0 <= k < d.len() implies d[d.len() - 1 - k] == "0123456789abcdef"@[(n as int
            / power::pow(10, k as nat)) % 10] by {
            if k > 0 {
                assert(d[d.len() - 1 - k] == e[e.len() - 1 - (k - 1)]);
                let p = power::pow(10, (k - 1) as nat);
                power::lemma_pow_positive(10, (k - 1) as nat);
                assert(power::pow(10, k as nat) == 10 * p);
                vstd::arithmetic::div_mod::lemma_div_denominator(n as int, 10, p);
                assert((n / 10) as int == n as int / 10);
            } else {
                assert(n as int / 1 == n as int);
            }
        }
    }
}

// ---- the ETag of a body ----

/// The ETag of a body is the MD5 of the body in lower-case hexadecimal between double
/// quotes.
pub proof fn etags_spell_the_digest(body: Seq<u8>)
    ensures
        ({
            let (e, d) = (meta::etag_of(body), meta::md5_digest(body));
            &&& e.len() == 2 * d.len() + 2
            &&& e[0] == '"' && e[e.len() - 1] == '"'
            &&& forall|j: int|
                #![trigger d[j]]
                0 <= j < d.len() ==> e[1 + 2 * j] == "0123456789abcdef"@[d[j] as int / 16] && e[2 + 2
                    * j] == "0123456789abcdef"@[d[j] as int % 16]
        }),
{
    hex_spells_the_bytes(meta::md5_digest(body));
}

/// Two bodies have one ETag if and only if they have one MD5.
pub proof fn etags_tell_digests_apart(a: Seq<u8>, b: Seq<u8>)
    ensures
        meta::etag_of(a) == meta::etag_of(b) <==> meta::md5_digest(a) == meta::md5_digest(b),
{
    let (x, y) = (meta::md5_digest(a), meta::md5_digest(b));
    if meta::etag_of(a) == meta::etag_of(b) {
        let (g, h) = (digits::hex(x), digits::hex(y));
        let (p, q) = (meta::quoted(g), meta::quoted(h));
        assert(p.subrange(1, p.len() - 1) =~= g);
        assert(q.subrange(1, q.len() - 1) =~= h);
        lemma_hex_tells_apart(x, y);
    }
}

// ---- parts in a row ----

/// How many bytes the first `k` of some texts have together.
pub open spec fn offset(list: Seq<Seq<u8>>, k: int) -> int
    decreases k,
{
    if k <= 0 {
        0
    } else {
        offset(list, k - 1) + list[k - 1].len()
    }
}

/// Texts one after the other: the bytes of each stand in order behind all the bytes of
/// those before it, and nothing else is there.
pub proof fn strung_texts_keep_their_order(list: Seq<Seq<u8>>)
    ensures
        meta::strung(list).len() == offset(list, list.len() as int),
        forall|k: int, j: int|
            #![trigger list[k][j]]
            0 <= k < list.len() && 0 <= j < list[k].len() ==> meta::strung(list)[offset(list, k) + j]
                == list[k][j],
{
    lemma_strung_len(list);
    assert forall|k: int, j: int|
        #![trigger list[k][j]]
        0 <= k < list.len() && 0 <= j < list[k].len() implies meta::strung(list)[offset(list, k) + j]
        == list[k][j] by {
        lemma_strung_at(list, k, j);
    }
}

proof fn lemma_strung_len(list: Seq<Seq<u8>>)
    ensures
        meta::strung(list).len() == offset(list, list.len() as int),
    decreases list.len(),
{
    if list.len() > 0 {
        let front = list.drop_last();
        lemma_strung_len(front);
        lemma_offset(front, list, front.len() as int);
    }
}

proof fn lemma_strung_at(list: Seq<Seq<u8>>, k: int, j: int)
    requires
        0 <= k < list.len(),
        0 <= j < list[k].len(),
    ensures
        0 <= offset(list, k),
        offset(list, k) + j < meta::strung(list).len(),
        meta::strung(list)[offset(list, k) + j] == list[k][j],
    decreases list.len(),
{
    let front = list.drop_last();
    lemma_offset(front, list, k);
    lemma_strung_len(front);
    if k < front.len() {
        lemma_strung_at(front, k, j);
    }
}

proof fn lemma_offset(front: Seq<Seq<u8>>, list: Seq<Seq<u8>>, k: int)
    requires
        0 <= k <= front.len() <= list.len(),
        forall|i: int| 0 <= i < front.len() ==> front[i] == list[i],
    ensures
        offset(front, k) == offset(list, k),
        0 <= offset(list, k),
    decreases k,
{
    if k > 0 {
        lemma_offset(front, list, k - 1);
    }
}

proof fn lemma_even_offset(list: Seq<Seq<u8>>, size: int, k: int)
    requires
        0 <= k <= list.len(),
        forall|i: int| 0 <= i < list.len() ==> (#[trigger] list[i]).len() == size,
    ensures
        offset(list, k) == size * k,
    decreases k,
{
    if k > 0 {
        lemma_even_offset(list, size, k - 1);
        assert(list[k - 1].len() == size);
        assert(size * (k - 1) + size == size * k) by (nonlinear_arith);
    } else {
        assert(size * 0 == 0) by (nonlinear_arith);
    }
}

/// The ETag of an object made of parts is, between double quotes, the MD5 of the digests
/// of the parts in lower-case hexadecimal, a hyphen, and the number of parts in decimal.
/// The digests stand in the order of the parts: where each has sixteen bytes, byte `j` of
/// the digest of part `k` is byte `16 * k + j`.
pub proof fn multipart_etags_digest_the_parts_in_order(digests: Seq<Seq<u8>>) -> (s: Seq<u8>)
    ensures
        s.len() == offset(digests, digests.len() as int),
        forall|k: int, j: int|
            #![trigger digests[k][j]]
            0 <= k < digests.len() && 0 <= j < digests[k].len() ==> s[offset(digests, k) + j]
                == digests[k][j],
        (forall|k: int| 0 <= k < digests.len() ==> (#[trigger] digests[k]).len() == 16) ==> {
            &&& s.len() == 16 * digests.len()
            &&& forall|k: int, j: int|
                #![trigger digests[k][j]]
                0 <= k < digests.len() && 0 <= j < 16 ==> s[16 * k + j] == digests[k][j]
        },
        meta::multipart_etag_of(digests) == dressed(
            digits::hex(meta::md5_digest(s)) + seq!['-'] + digits::decimal(digests.len()),
            true,
        ),
        ({
            let (e, d) = (meta::multipart_etag_of(digests), meta::md5_digest(s));
            let n = digits::decimal(digests.len());
            let len = 2 * d.len() as int;
            &&& e.len() == len + n.len() + 3
            &&& e[0] == '"' && e[e.len() - 1] == '"'
            &&& forall|j: int|
                #![trigger d[j]]
                0 <= j < d.len() ==> e[1 + 2 * j] == "0123456789abcdef"@[d[j] as int / 16] && e[2 + 2
                    * j] == "0123456789abcdef"@[d[j] as int % 16]
            &&& e[1 + len] == '-'
            &&& e.subrange(2 + len, e.len() - 1) == n
        }),
{
    let s = meta::strung(digests);
    let d = meta::md5_digest(s);
    strung_texts_keep_their_order(digests);
    hex_spells_the_bytes(d);
    let e = meta::multipart_etag_of(digests);
    let n = digits::decimal(digests.len());
    assert(e.subrange(2 + 2 * d.len() as int, e.len() - 1) =~= n);
    if forall|k: int| 0 <= k < digests.len() ==> (#[trigger] digests[k]).len() == 16 {
        lemma_even_offset(digests, 16, digests.len() as int);
        assert forall|k: int, j: int|
            #![trigger digests[k][j]]
            0 <= k < digests.len() && 0 <= j < 16 implies s[16 * k + j] == digests[k][j] by {
            lemma_even_offset(digests, 16, k);
        }
    }
    s
}

// ---- keys and tokens ----

/// `b` comes before `c` by its bytes at position `n`: they agree up to there, and there
/// `b` ends or has the smaller byte.
pub open spec fn parts_at(b: Seq<u8>, c: Seq<u8>, n: int) -> bool {
    &&& 0 <= n <= b.len()
    &&& n < c.len()
    &&& forall|i: int| 0 <= i < n ==> #[trigger] b[i] == c[i]
    &&& n == b.len() || b[n] < c[n]
}

proof fn lemma_bytes_part(b: Seq<u8>, c: Seq<u8>)
    ensures
        order::bytes_before(b, c) <==> exists|n: int| #[trigger] parts_at(b, c, n),
    decreases b.len(),
{
    if b.len() > 0 && c.len() > 0 && b[0] == c[0] {
        let (x, y) = (b.drop_first(), c.drop_first());
        lemma_bytes_part(x, y);
        if exists|n: int| #[trigger] parts_at(b, c, n) {
            let n = choose|n: int| #[trigger] parts_at(b, c, n);
            assert(n > 0);
            assert forall|i: int| 0 <= i < n - 1 implies #[trigger] x[i] == y[i] by {
                assert(b[i + 1] == c[i + 1]);
            }
            assert(parts_at(x, y, n - 1));
        }
        if exists|n: int| #[trigger] parts_at(x, y, n) {
            let n = choose|n: int| #[trigger] parts_at(x, y, n);
            assert forall|i: int| 0 <= i < n + 1 implies #[trigger] b[i] == c[i] by {
                if i > 0 {
                    assert(x[i - 1] == y[i - 1]);
                }
            }
            assert(parts_at(b, c, n + 1));
        }
    } else {
        if order::bytes_before(b, c) {
            assert(parts_at(b, c, 0));
        }
        if exists|n: int| #[trigger] parts_at(b, c, n) {
            let n = choose|n: int| #[trigger] parts_at(b, c, n);
            if n > 0 {
                assert(b[0] == c[0]);
            }
        }
    }
}

/// Of two keys that one comes first which has the smaller UTF-8 byte where they first
/// differ, or is the beginning of the other.
pub proof fn keys_come_by_their_bytes(a: Seq<char>, b: Seq<char>)
    ensures
        order::before(a, b) <==> exists|n: int| #[trigger]
            parts_at(utf8::encode_utf8(a), utf8::encode_utf8(b), n),
{
    lemma_bytes_part(utf8::encode_utf8(a), utf8::encode_utf8(b));
}

/// The token of a key is its UTF-8 bytes in lower-case hexadecimal.
pub proof fn tokens_spell_the_key(key: Seq<char>)
    ensures
        ({
            let (t, b) = (tokens::encoded(key), utf8::encode_utf8(key));
            &&& t.len() == 2 * b.len()
            &&& forall|j: int|
                #![trigger b[j]]
                0 <= j < b.len() ==> t[2 * j] == "0123456789abcdef"@[b[j] as int / 16] && t[2 * j
                    + 1] == "0123456789abcdef"@[b[j] as int % 16]
        }),
{
    hex_spells_the_bytes(utf8::encode_utf8(key));
}

/// `c` is the hexadecimal digit of value `n`, in either case.
pub open spec fn is_hex_char(c: char, n: int) -> bool {
    c == "0123456789abcdef"@[n] || c == "0123456789ABCDEF"@[n]
}

/// `t` spells the bytes in hexadecimal digits of either case.
pub open spec fn spells(t: Seq<char>, bytes: Seq<u8>) -> bool {
    &&& t.len() == 2 * bytes.len()
    &&& forall|j: int|
        #![trigger bytes[j]]
        0 <= j < bytes.len() ==> is_hex_char(t[2 * j], bytes[j] as int / 16) && is_hex_char(
            t[2 * j + 1],
            bytes[j] as int % 16,
        )
}

proof fn lemma_hex_char(c: char, n: int)
    requires
        0 <= n < 16,
        is_hex_char(c, n),
    ensures
        '0' <= c <= 'f',
        digits::hex_value(c as u8) == Some(n as u8),
{
    reveal_strlit("0123456789ABCDEF");
    hex_digits_by_value(n);
    let s = "0123456789ABCDEF"@;
    assert(s[0] == '0' && s[1] == '1' && s[2] == '2' && s[3] == '3' && s[4] == '4' && s[5] == '5'
        && s[6] == '6' && s[7] == '7' && s[8] == '8' && s[9] == '9' && s[10] == 'A' && s[11] == 'B'
        && s[12] == 'C' && s[13] == 'D' && s[14] == 'E' && s[15] == 'F');
}

proof fn lemma_spelled(t: Seq<char>, bytes: Seq<u8>)
    requires
        spells(t, bytes),
    ensures
        utf8::is_ascii_chars(t),
        utf8::encode_utf8(t).len() == t.len(),
        forall|i: int| 0 <= i < t.len() ==> #[trigger] utf8::encode_utf8(t)[i] == t[i] as u8,
{
    assert forall|i: int| 0 <= i < t.len() implies '\0' <= #[trigger] t[i] <= '\u{7f}' by {
        let j = i / 2;
        let b = bytes[j];
        if i % 2 == 0 {
            assert(i == 2 * j);
            lemma_hex_char(t[2 * j], b as int / 16);
        } else {
            assert(i == 2 * j + 1);
            lemma_hex_char(t[2 * j + 1], b as int % 16);
        }
    }
    utf8::is_ascii_chars_encode_utf8(t);
}

proof fn lemma_bytes_spelled(t: Seq<char>, bytes: Seq<u8>, n: int)
    requires
        spells(t, bytes),
        0 <= n <= bytes.len(),
    ensures
        tokens::bytes_in(utf8::encode_utf8(t), 2 * n) == bytes.take(n),
    decreases n,
{
    let h = utf8::encode_utf8(t);
    lemma_spelled(t, bytes);
    if n > 0 {
        lemma_bytes_spelled(t, bytes, n - 1);
        let b = bytes[n - 1];
        assert(h[2 * n - 2] == t[2 * (n - 1)] as u8);
        assert(h[2 * n - 1] == t[2 * (n - 1) + 1] as u8);
        lemma_hex_char(t[2 * (n - 1)], b as int / 16);
        lemma_hex_char(t[2 * (n - 1) + 1], b as int % 16);
        assert(digits::hex_pair(h[2 * n - 2], h[2 * n - 1]) == Some(b));
        assert(2 * n - 2 == 2 * (n - 1));
        assert(bytes.take(n) =~= bytes.take(n - 1).push(b));
    } else {
        assert(bytes.take(n) =~= Seq::<u8>::empty());
    }
}

/// A token in hexadecimal digits of either case reads as the key whose UTF-8 bytes it
/// spells.
pub proof fn tokens_read_as_the_key_they_spell(key: Seq<char>, t: Seq<char>)
    requires
        spells(t, utf8::encode_utf8(key)),
    ensures
        tokens::readable(t),
        tokens::decoded(t) == key,
{
    let bytes = utf8::encode_utf8(key);
    let h = utf8::encode_utf8(t);
    lemma_spelled(t, bytes);
    lemma_bytes_spelled(t, bytes, bytes.len() as int);
    assert(bytes.take(bytes.len() as int) =~= bytes);
    utf8::encode_utf8_valid_utf8(key);
    utf8::encode_utf8_decode_utf8(key);
    assert forall|i: int| 0 <= i < h.len() && i % 2 == 0 implies #[trigger] utf8::is_char_boundary(
        h,
        i,
    ) by {
        utf8::encode_utf8_valid_utf8(t);
        assert(t[i] as u8 == h[i]);
        assert('\0' <= t[i] <= '\u{7f}');
        utf8::is_char_boundary_iff_not_is_continuation_byte(h, i);
    }
}

} // verus!
