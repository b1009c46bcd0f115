//! Numbers and bytes as text: decimal and hexadecimal digits.

use crate::text;
use vstd::prelude::*;

verus! {

/// The lower-case hexadecimal digit of value `n`.
pub open spec fn hex_digit(n: int) -> char {
    if 0 <= n < 10 {
        (48 + n) as char
    } else {
        (87 + n) as char
    }
}

fn hex_digit_of(n: u8) -> (r: char)
    requires
        n < 16,
    ensures
        r == hex_digit(n as int),
{
    if n < 10 {
        (48 + n) as char
    } else {
        (87 + n) as char
    }
}

/// Each byte as two lower-case hexadecimal digits.
pub open spec fn hex(bytes: Seq<u8>) -> Seq<char>
    decreases bytes.len(),
{
    if bytes.len() == 0 {
        Seq::empty()
    } else {
        hex(bytes.drop_last()).push(hex_digit(bytes.last() as int / 16)).push(
            hex_digit(bytes.last() as int % 16),
        )
    }
}

/// Each byte as two lower-case hexadecimal digits.
pub fn hex_of(bytes: &[u8]) -> (r: String)
    ensures
        r@ == hex(bytes@),
{
    let mut r: String = String::new();
    let mut i: usize = 0;
    proof {
        assert(bytes@.take(0) =~= Seq::<u8>::empty());
    }
    while i < bytes.len()
        invariant
            i <= bytes@.len(),
            r@ == hex(bytes@.take(i as int)),
        decreases bytes@.len() - i,
    {
        proof {
            assert(bytes@.take(i + 1).drop_last() =~= bytes@.take(i as int));
            assert(bytes@.take(i + 1).last() == bytes@[i as int]);
        }
        r.push(hex_digit_of(bytes[i] / 16));
        r.push(hex_digit_of(bytes[i] % 16));
        i = i + 1;
    }
    proof {
        assert(bytes@.take(bytes@.len() as int) =~= bytes@);
    }
    r
}

/// The last `width` hexadecimal digits of `n`, with leading zeros.
pub open spec fn hex_number(n: nat, width: nat) -> Seq<char>
    decreases width,
{
    if width == 0 {
        Seq::empty()
    } else {
        hex_number(n / 16, (width - 1) as nat).push(hex_digit(n as int % 16))
    }
}

/// `n` as 16 lower-case hexadecimal digits.
pub fn hex_of_u64(n: u64) -> (r: String)
    ensures
        r@ == hex_number(n as nat, 16),
{
    let mut low: Vec<char> = Vec::new();
    let mut left: u64 = n;
    let mut width: usize = 16;
    let ghost mut done: Seq<char> = Seq::empty();
    proof {
        assert(hex_number(n as nat, 16) =~= hex_number(n as nat, 16) + done);
    }
    while width > 0
        invariant
            width <= 16,
            hex_number(n as nat, 16) == hex_number(left as nat, width as nat) + done,
            low@.len() == done.len(),
            done.len() + width == 16,
            forall|k: int| 0 <= k < done.len() ==> done[k] == low@[done.len() - 1 - k],
        decreases width,
    {
        let d: char = hex_digit_of((left % 16) as u8);
        proof {
            assert(hex_number(left as nat, width as nat) == hex_number(
                left as nat / 16,
                (width - 1) as nat,
            ).push(d));
            assert(hex_number(left as nat / 16, (width - 1) as nat).push(d) + done =~= hex_number(
                left as nat / 16,
                (width - 1) as nat,
            ) + (seq![d] + done));
            done = seq![d] + done;
        }
        low.push(d);
        left = left / 16;
        width = width - 1;
    }
    let mut r: String = String::new();
    let mut i: usize = low.len();
    proof {
        assert(hex_number(n as nat, 16) =~= done);
        assert(done.take(0) =~= Seq::<char>::empty());
    }
    while i > 0
        invariant
            i <= low@.len(),
            low@.len() == done.len(),
            forall|k: int| 0 <= k < done.len() ==> done[k] == low@[done.len() - 1 - k],
            r@ == done.take(done.len() - i),
        decreases i,
    {
        proof {
            assert(done.take(done.len() - i + 1) =~= done.take(done.len() - i).push(
                low@[i - 1],
            ));
        }
        r.push(low[i - 1]);
        i = i - 1;
    }
    proof {
        assert(done.take(done.len() as int) =~= done);
    }
    r
}

/// The value of a hexadecimal digit in either case, given as a byte.
pub open spec fn hex_value(b: u8) -> Option<u8> {
    if 48 <= b <= 57 {
        Some((b - 48) as u8)
    } else if 97 <= b <= 102 {
        Some((b - 87) as u8)
    } else if 65 <= b <= 70 {
        Some((b - 55) as u8)
    } else {
        None
    }
}

/// The value of two bytes read as a hexadecimal number; a sign `+` may stand in
/// place of the first digit.
pub open spec fn hex_pair(a: u8, b: u8) -> Option<u8> {
    match (hex_value(a), hex_value(b)) {
        (Some(x), Some(y)) => Some((x * 16 + y) as u8),
        (None, Some(y)) => if a == 43 {
            Some(y)
        } else {
            None
        },
        _ => None,
    }
}

fn hex_value_of(b: u8) -> (r: Option<u8>)
    ensures
        r == hex_value(b),
{
    if 48 <= b && b <= 57 {
        Some(b - 48)
    } else if 97 <= b && b <= 102 {
        Some(b - 87)
    } else if 65 <= b && b <= 70 {
        Some(b - 55)
    } else {
        None
    }
}

/// The value of two bytes read as a hexadecimal number.
pub fn hex_pair_of(a: u8, b: u8) -> (r: Option<u8>)
    ensures
        r == hex_pair(a, b),
{
    match hex_value_of(b) {
        Some(y) => match hex_value_of(a) {
            Some(x) => Some(x * 16 + y),
            None => if a == 43 {
                Some(y)
            } else {
                None
            },
        },
        None => None,
    }
}

/// The decimal digits of `n`.
pub open spec fn decimal(n: nat) -> Seq<char>
    decreases n,
{
    if n < 10 {
        seq![hex_digit(n as int)]
    } else {
        decimal(n / 10).push(hex_digit(n as int % 10))
    }
}

/// The decimal digits of `n`.
pub fn decimal_of(n: u64) -> (r: String)
    ensures
        r@ == decimal(n as nat),
    decreases n,
{
    let mut r: String = if n < 10 {
        String::new()
    } else {
        decimal_of(n / 10)
    };
    r.push(hex_digit_of((n % 10) as u8));
    proof {
        if n < 10 {
            assert(r@ =~= decimal(n as nat));
        }
    }
    r
}

/// The decimal digits of `n`, after as many zeros as make up five characters.
pub open spec fn padded(n: nat) -> Seq<char> {
    let d = decimal(n);
    Seq::new((if d.len() < 5 { 5 - d.len() } else { 0 }) as nat, |i: int| '0') + d
}

/// The decimal digits of `n`, after as many zeros as make up five characters.
pub fn padded_of(n: u32) -> (r: String)
    ensures
        r@ == padded(n as nat),
{
    let d: String = decimal_of(n as u64);
    let len: usize = d.as_str().unicode_len();
    let mut r: String = String::new();
    let mut i: usize = len;
    while i < 5
        invariant
            len == decimal(n as nat).len(),
            len <= i,
            r@.len() == i - len,
            i <= 5 || i == len,
            forall|k: int| 0 <= k < r@.len() ==> r@[k] == '0',
        decreases 5 - i,
    {
        r.push('0');
        i = i + 1;
    }
    let ghost zeros = r@;
    r.append(d.as_str());
    proof {
        assert(r@ =~= padded(n as nat));
    }
    r
}

/// `c` is a decimal digit.
pub open spec fn is_digit(c: char) -> bool {
    '0' <= c <= '9'
}

/// The number that a row of decimal digits stands for.
pub open spec fn number(digits: Seq<char>) -> nat
    decreases digits.len(),
{
    if digits.len() == 0 {
        0
    } else {
        number(digits.drop_last()) * 10 + (digits.last() as nat - 48) as nat
    }
}

/// `s` without one leading `+`.
pub open spec fn unsigned(s: Seq<char>) -> Seq<char> {
    if s.len() > 0 && s[0] == '+' {
        s.drop_first()
    } else {
        s
    }
}

/// The number below 2^32 that `s` writes in decimal: an optional `+`, then at
/// least one digit and nothing else.
pub open spec fn parsed(s: Seq<char>) -> Option<u32> {
    let d = unsigned(s);
    if d.len() > 0 && (forall|i: int| 0 <= i < d.len() ==> is_digit(#[trigger] d[i])) && number(d)
        <= u32::MAX {
        Some(number(d) as u32)
    } else {
        None
    }
}

proof fn lemma_number_grows(d: Seq<char>, i: int)
    requires
        0 <= i <= d.len(),
        forall|k: int| 0 <= k < d.len() ==> is_digit(#[trigger] d[k]),
    ensures
        number(d.take(i)) <= number(d),
    decreases d.len() - i,
{
    if i < d.len() {
        lemma_number_grows(d, i + 1);
        assert(d.take(i + 1).drop_last() =~= d.take(i));
    } else {
        assert(d.take(i) =~= d);
    }
}

/// The number below 2^32 that `s` writes in decimal.
pub fn parse_u32(s: &str) -> (r: Option<u32>)
    ensures
        r == parsed(s@),
{
    let cs: Vec<char> = text::chars_of(s);
    let lo: usize = if cs.len() > 0 && cs[0] == '+' {
        1
    } else {
        0
    };
    let ghost d = unsigned(s@);
    proof {
        assert(d =~= cs@.skip(lo as int));
    }
    if lo == cs.len() {
        return None;
    }
    let mut n: u64 = 0;
    let mut i: usize = lo;
    proof {
        assert(d.take(0) =~= Seq::<char>::empty());
    }
    while i < cs.len()
        invariant
            lo <= i <= cs@.len(),
            d == cs@.skip(lo as int),
            d == unsigned(s@),
            d.len() > 0,
            n == number(d.take(i - lo)),
            n <= u32::MAX,
            forall|k: int| 0 <= k < i - lo ==> is_digit(#[trigger] d[k]),
        decreases cs@.len() - i,
    {
        let c: char = cs[i];
        proof {
            assert(d[i - lo] == c);
            assert(d.take(i - lo + 1).drop_last() =~= d.take(i - lo));
            assert(d.take(i - lo + 1).last() == c);
        }
        if c < '0' || c > '9' {
            return None;
        }
        n = n * 10 + (c as u64 - 48);
        if n > u32::MAX as u64 {
            proof {
                if forall|k: int| 0 <= k < d.len() ==> is_digit(#[trigger] d[k]) {
                    lemma_number_grows(d, i - lo + 1);
                }
            }
            return None;
        }
        i = i + 1;
    }
    proof {
        assert(d.take(d.len() as int) =~= d);
    }
    Some(n as u32)
}

proof fn lemma_decimal(n: nat)
    ensures
        decimal(n).len() > 0,
        number(decimal(n)) == n,
        forall|i: int| 0 <= i < decimal(n).len() ==> is_digit(#[trigger] decimal(n)[i]),
    decreases n,
{
    let d = decimal(n);
    if n < 10 {
        assert(d.drop_last() =~= Seq::<char>::empty());
        assert(number(d.drop_last()) == 0);
    } else {
        lemma_decimal(n / 10);
        assert(d.drop_last() =~= decimal(n / 10));
    }
}

proof fn lemma_leading_zeros(zeros: nat, d: Seq<char>)
    ensures
        number(Seq::new(zeros, |i: int| '0') + d) == number(d),
    decreases d.len(), zeros,
{
    let z = Seq::new(zeros, |i: int| '0');
    if d.len() > 0 {
        lemma_leading_zeros(zeros, d.drop_last());
        assert((z + d).drop_last() =~= z + d.drop_last());
    } else if zeros > 0 {
        lemma_leading_zeros((zeros - 1) as nat, d);
        assert((z + d).drop_last() =~= Seq::new((zeros - 1) as nat, |i: int| '0') + d);
        assert((z + d).last() == '0');
    } else {
        assert(z + d =~= d);
    }
}

/// A number written with leading zeros reads back as itself.
pub proof fn padded_reads_back(n: u32)
    ensures
        parsed(padded(n as nat)) == Some(n),
{
    let d = decimal(n as nat);
    lemma_decimal(n as nat);
    let zeros = (if d.len() < 5 { 5 - d.len() } else { 0 }) as nat;
    lemma_leading_zeros(zeros, d);
    let p = padded(n as nat);
    assert forall|i: int| 0 <= i < p.len() implies is_digit(#[trigger] p[i]) by {
        if i >= zeros {
            assert(p[i] == d[i - zeros]);
        }
    }
    assert(is_digit(p[0]));
    assert(unsigned(p) == p);
}

} // verus!
