//! Text as a sequence of characters: building, comparing, searching, trimming.

use vstd::prelude::*;

verus! {

/// `String::push`: appends one character at the end.
pub assume_specification[ String::push ](s: &mut String, ch: char)
    ensures
        final(s)@ == old(s)@.push(ch),
;

/// The texts that a list of strings holds.
pub open spec fn views(list: Seq<String>) -> Seq<Seq<char>> {
    list.map_values(|s: String| s@)
}

/// The characters of `s`, one by one.
pub fn chars_of(s: &str) -> (r: Vec<char>)
    ensures
        r@ == s@,
{
    let mut r: Vec<char> = Vec::new();
    for c in it: s.chars()
        invariant
            it.seq() == s@,
            r@ == s@.take(it.index()),
    {
        proof {
            assert(s@.take(it.index() + 1) =~= s@.take(it.index()).push(c));
        }
        r.push(c);
    }
    proof {
        assert(s@.take(s@.len() as int) =~= s@);
    }
    r
}

/// The text made of `cs[lo..hi]`.
pub fn text_of(cs: &Vec<char>, lo: usize, hi: usize) -> (r: String)
    requires
        lo <= hi <= cs@.len(),
    ensures
        r@ == cs@.subrange(lo as int, hi as int),
{
    let mut r: String = String::new();
    let mut i: usize = lo;
    while i < hi
        invariant
            lo <= i <= hi <= cs@.len(),
            r@ == cs@.subrange(lo as int, i as int),
        decreases hi - i,
    {
        proof {
            assert(cs@.subrange(lo as int, i + 1) =~= cs@.subrange(lo as int, i as int).push(
                cs@[i as int],
            ));
        }
        r.push(cs[i]);
        i = i + 1;
    }
    r
}

/// `a` followed by `b`.
pub fn joined(a: &str, b: &str) -> (r: String)
    ensures
        r@ == a@ + b@,
{
    let mut r: String = a.to_owned();
    r.append(b);
    r
}

/// Whether the two texts hold the same characters.
pub fn same_text(a: &str, b: &str) -> (r: bool)
    ensures
        r == (a@ == b@),
{
    let x: String = a.to_owned();
    let y: String = b.to_owned();
    x == y
}

/// `p` stands in `s` at position `i`.
pub open spec fn occurs_at(s: Seq<char>, p: Seq<char>, i: int) -> bool {
    0 <= i && i + p.len() <= s.len() && s.subrange(i, i + p.len()) == p
}

/// The first position from `i` on at which `p` stands in `s`.
pub open spec fn find_from(s: Seq<char>, p: Seq<char>, i: int) -> Option<int>
    decreases s.len() + 1 - i,
{
    if i < 0 || i + p.len() > s.len() {
        None
    } else if occurs_at(s, p, i) {
        Some(i)
    } else {
        find_from(s, p, i + 1)
    }
}

/// What is found stands there, and nowhere before.
pub proof fn lemma_found(s: Seq<char>, p: Seq<char>, i: int)
    ensures
        match find_from(s, p, i) {
            Some(at) => i <= at && occurs_at(s, p, at) && forall|j: int|
                i <= j < at ==> !occurs_at(s, p, j),
            None => i >= 0 ==> forall|j: int| i <= j ==> !occurs_at(s, p, j),
        },
    decreases s.len() + 1 - i,
{
    if !(i < 0 || i + p.len() > s.len()) && !occurs_at(s, p, i) {
        lemma_found(s, p, i + 1);
    }
}

/// Whether `p` stands in `s` at position `i`.
fn stands_at(s: &Vec<char>, p: &Vec<char>, i: usize) -> (r: bool)
    ensures
        r == occurs_at(s@, p@, i as int),
{
    if i > s.len() || p.len() > s.len() - i {
        return false;
    }
    let mut j: usize = 0;
    while j < p.len()
        invariant
            j <= p@.len(),
            i + p.len() <= s.len(),
            forall|k: int| 0 <= k < j ==> s@[i + k] == p@[k],
        decreases p@.len() - j,
    {
        if s[i + j] != p[j] {
            proof {
                assert(s@.subrange(i as int, i + p@.len())[j as int] == s@[i + j]);
            }
            return false;
        }
        j = j + 1;
    }
    proof {
        assert(s@.subrange(i as int, i + p@.len()) =~= p@);
    }
    true
}

/// The first position from `lo` on at which `p` stands in `s`.
pub fn position_from(s: &Vec<char>, p: &Vec<char>, lo: usize) -> (r: Option<usize>)
    ensures
        match r {
            Some(i) => find_from(s@, p@, lo as int) == Some(i as int),
            None => find_from(s@, p@, lo as int) is None,
        },
{
    if p.len() > s.len() {
        return None;
    }
    let end: usize = s.len() - p.len();
    let mut i: usize = lo;
    while i <= end
        invariant
            end + p@.len() == s@.len(),
            lo <= i,
            find_from(s@, p@, lo as int) == find_from(s@, p@, i as int),
        decreases end + 1 - i,
    {
        if stands_at(s, p, i) {
            return Some(i);
        }
        if i == end {
            proof {
                assert(find_from(s@, p@, i + 1) is None);
            }
            return None;
        }
        i = i + 1;
    }
    None
}

/// Whether `s` begins with `p`.
pub fn begins_with(s: &str, p: &str) -> (r: bool)
    ensures
        r == p@.is_prefix_of(s@),
{
    let cs: Vec<char> = chars_of(s);
    let ps: Vec<char> = chars_of(p);
    stands_at(&cs, &ps, 0)
}

/// Whether `s` ends with `p`.
pub fn finishes_with(s: &str, p: &str) -> (r: bool)
    ensures
        r == p@.is_suffix_of(s@),
{
    let cs: Vec<char> = chars_of(s);
    let ps: Vec<char> = chars_of(p);
    if ps.len() > cs.len() {
        return false;
    }
    stands_at(&cs, &ps, cs.len() - ps.len())
}

/// Whether `c` occurs in `s`.
pub fn has_char(s: &str, c: char) -> (r: bool)
    ensures
        r == s@.contains(c),
{
    let cs: Vec<char> = chars_of(s);
    let mut i: usize = 0;
    while i < cs.len()
        invariant
            i <= cs@.len(),
            cs@ == s@,
            forall|k: int| 0 <= k < i ==> cs@[k] != c,
        decreases cs@.len() - i,
    {
        if cs[i] == c {
            return true;
        }
        i = i + 1;
    }
    false
}

/// The characters with the Unicode property `White_Space`.
pub open spec fn white_space(c: char) -> bool {
    let n = c as u32;
    ||| 0x9 <= n <= 0xd
    ||| n == 0x20
    ||| n == 0x85
    ||| n == 0xa0
    ||| n == 0x1680
    ||| 0x2000 <= n <= 0x200a
    ||| n == 0x2028
    ||| n == 0x2029
    ||| n == 0x202f
    ||| n == 0x205f
    ||| n == 0x3000
}

/// What may be cut off at the two ends of a text.
#[derive(Clone, Copy)]
pub enum Margin {
    Space,
    Quote,
}

impl Margin {
    pub open spec fn covers(self, c: char) -> bool {
        match self {
            Margin::Space => white_space(c),
            Margin::Quote => c == '"',
        }
    }

    fn is_cut(self, c: char) -> (r: bool)
        ensures
            r == self.covers(c),
    {
        match self {
            Margin::Space => {
                let n: u32 = c as u32;
                (0x9 <= n && n <= 0xd) || n == 0x20 || n == 0x85 || n == 0xa0 || n == 0x1680 || (
                0x2000 <= n && n <= 0x200a) || n == 0x2028 || n == 0x2029 || n == 0x202f || n
                    == 0x205f || n == 0x3000
            },
            Margin::Quote => c == '"',
        }
    }
}

/// `s` without the margin at its front.
pub open spec fn without_front(s: Seq<char>, m: Margin) -> Seq<char>
    decreases s.len(),
{
    if s.len() > 0 && m.covers(s[0]) {
        without_front(s.drop_first(), m)
    } else {
        s
    }
}

/// `s` without the margin at its back.
pub open spec fn without_back(s: Seq<char>, m: Margin) -> Seq<char>
    decreases s.len(),
{
    if s.len() > 0 && m.covers(s.last()) {
        without_back(s.drop_last(), m)
    } else {
        s
    }
}

/// `s` without the margin at both ends.
pub open spec fn trimmed(s: Seq<char>, m: Margin) -> Seq<char> {
    without_back(without_front(s, m), m)
}

/// `s` without the margin at both ends.
pub fn trim(s: &str, m: Margin) -> (r: String)
    ensures
        r@ == trimmed(s@, m),
{
    let cs: Vec<char> = chars_of(s);
    let mut lo: usize = 0;
    proof {
        assert(cs@.skip(0) =~= cs@);
    }
    while lo < cs.len() && m.is_cut(cs[lo])
        invariant
            lo <= cs@.len(),
            without_front(cs@, m) == without_front(cs@.skip(lo as int), m),
        decreases cs@.len() - lo,
    {
        proof {
            assert(cs@.skip(lo as int).drop_first() =~= cs@.skip(lo + 1));
        }
        lo = lo + 1;
    }
    let ghost front = cs@.skip(lo as int);
    let mut hi: usize = cs.len();
    proof {
        assert(cs@.subrange(lo as int, hi as int) =~= front);
    }
    while lo < hi && m.is_cut(cs[hi - 1])
        invariant
            lo <= hi <= cs@.len(),
            without_back(front, m) == without_back(cs@.subrange(lo as int, hi as int), m),
        decreases hi - lo,
    {
        proof {
            assert(cs@.subrange(lo as int, hi as int).drop_last() =~= cs@.subrange(
                lo as int,
                hi - 1,
            ));
        }
        hi = hi - 1;
    }
    text_of(&cs, lo, hi)
}

} // verus!
