//! UTF-8 and the small string builders the tile set's keys and colors need.

use vstd::prelude::*;
use vstd::utf8::{decode_utf8, valid_utf8};

verus! {

/// `String::from_utf8`: the text whose UTF-8 encoding is `bytes`, or `None` where `bytes` is not
/// valid UTF-8. The contract restates std's documentation over vstd's UTF-8 definitions.
#[verifier::external_body]
pub(crate) fn string_from_utf8(bytes: Vec<u8>) -> (r: Option<String>)
    ensures
        r is Some <==> valid_utf8(bytes@),
        r matches Some(s) ==> s@ == decode_utf8(bytes@),
{
    String::from_utf8(bytes).ok()
}


/// `String::push`: appends the character `c`, as std documents it.
#[verifier::external_body]
pub(crate) fn push_char(s: &mut String, c: char)
    ensures
        final(s)@ == old(s)@.push(c),
{
    s.push(c);
}

/// The characters of `s`, in order.
pub fn chars_of(s: &str) -> (r: Vec<char>)
    ensures
        r@ == s@,
{
    let mut out: Vec<char> = Vec::new();
    for c in it: s.chars()
        invariant
            it.seq() == s@,
            out@ == it.seq().take(it.index()),
    {
        out.push(c);
    }
    out
}

/// The text made of the characters `cs[from..to]`.
pub fn string_of(cs: &Vec<char>, from: usize, to: usize) -> (r: String)
    requires
        from <= to <= cs@.len(),
    ensures
        r@ == cs@.subrange(from as int, to as int),
{
    let mut out = String::new();
    let mut i = from;
    while i < to
        invariant
            from <= i <= to <= cs@.len(),
            out@ == cs@.subrange(from as int, i as int),
        decreases to - i,
    {
        push_char(&mut out, cs[i]);
        i = i + 1;
        assert(out@ =~= cs@.subrange(from as int, i as int));
    }
    out
}

/// Whether the characters `a` spell `b`.
pub fn chars_equal(a: &Vec<char>, b: &str) -> (r: bool)
    ensures
        r == (a@ == b@),
{
    let n = b.unicode_len();
    if a.len() != n {
        return false;
    }
    let mut i: usize = 0;
    while i < n
        invariant
            n == b@.len() == a@.len(),
            i <= n,
            forall|k: int| 0 <= k < i ==> a@[k] == b@[k],
        decreases n - i,
    {
        if a[i] != b.get_char(i) {
            return false;
        }
        i = i + 1;
    }
    assert(a@ =~= b@);
    true
}

/// Whether two texts are the same characters.
pub fn str_equal(a: &str, b: &str) -> (r: bool)
    ensures
        r == (a@ == b@),
{
    let ca = chars_of(a);
    chars_equal(&ca, b)
}

/// Unicode `White_Space`, the property `char::is_whitespace` tests.
pub open spec fn is_white_space(c: char) -> bool {
    ||| '\u{9}' <= c <= '\u{d}'
    ||| c == ' '
    ||| c == '\u{85}'
    ||| c == '\u{a0}'
    ||| c == '\u{1680}'
    ||| '\u{2000}' <= c <= '\u{200a}'
    ||| c == '\u{2028}'
    ||| c == '\u{2029}'
    ||| c == '\u{202f}'
    ||| c == '\u{205f}'
    ||| c == '\u{3000}'
}

fn white_space(c: char) -> (r: bool)
    ensures
        r == is_white_space(c),
{
    ('\u{9}' <= c && c <= '\u{d}') || c == ' ' || c == '\u{85}' || c == '\u{a0}'
        || c == '\u{1680}' || ('\u{2000}' <= c && c <= '\u{200a}') || c == '\u{2028}'
        || c == '\u{2029}' || c == '\u{202f}' || c == '\u{205f}' || c == '\u{3000}'
}

/// `s` without leading white space.
pub open spec fn trim_start(s: Seq<char>) -> Seq<char>
    decreases s.len(),
{
    if s.len() > 0 && is_white_space(s[0]) {
        trim_start(s.drop_first())
    } else {
        s
    }
}

/// `s` without trailing white space.
pub open spec fn trim_end(s: Seq<char>) -> Seq<char>
    decreases s.len(),
{
    if s.len() > 0 && is_white_space(s.last()) {
        trim_end(s.drop_last())
    } else {
        s
    }
}

/// `s` without leading or trailing white space, as `str::trim` gives it.
pub open spec fn trimmed(s: Seq<char>) -> Seq<char> {
    trim_end(trim_start(s))
}

proof fn lemma_trim_start_at(s: Seq<char>, i: int)
    requires
        0 <= i <= s.len(),
        forall|k: int| 0 <= k < i ==> is_white_space(s[k]),
    ensures
        trim_start(s) == trim_start(s.subrange(i, s.len() as int)),
    decreases i,
{
    if i > 0 {
        assert(s.drop_first().subrange(i - 1, s.drop_first().len() as int) =~= s.subrange(i, s.len() as int));
        lemma_trim_start_at(s.drop_first(), i - 1);
    } else {
        assert(s.subrange(0, s.len() as int) =~= s);
    }
}

proof fn lemma_trim_end_at(s: Seq<char>, j: int)
    requires
        0 <= j <= s.len(),
        forall|k: int| j <= k < s.len() ==> is_white_space(s[k]),
    ensures
        trim_end(s) == trim_end(s.subrange(0, j)),
    decreases s.len() - j,
{
    if j < s.len() {
        assert(s.drop_last().subrange(0, j) =~= s.subrange(0, j));
        lemma_trim_end_at(s.drop_last(), j);
    } else {
        assert(s.subrange(0, j) =~= s);
    }
}

/// The bounds `[from, to)` of `cs` once white space is trimmed from both ends.
pub fn trim_bounds(cs: &Vec<char>) -> (r: (usize, usize))
    ensures
        r.0 <= r.1 <= cs@.len(),
        cs@.subrange(r.0 as int, r.1 as int) == trimmed(cs@),
{
    let n = cs.len();
    let mut i: usize = 0;
    while i < n && white_space(cs[i])
        invariant
            i <= n == cs@.len(),
            forall|k: int| 0 <= k < i ==> is_white_space(cs@[k]),
        decreases n - i,
    {
        i = i + 1;
    }
    let mut j: usize = n;
    while j > i && white_space(cs[j - 1])
        invariant
            i <= j <= n == cs@.len(),
            forall|k: int| j <= k < n ==> is_white_space(cs@[k]),
        decreases j,
    {
        j = j - 1;
    }
    proof {
        lemma_trim_start_at(cs@, i as int);
        let rest = cs@.subrange(i as int, n as int);
        assert(i == n || !is_white_space(rest[0]));
        assert(trim_start(rest) == rest);
        lemma_trim_end_at(rest, j - i);
        assert(rest.subrange(0, j - i) =~= cs@.subrange(i as int, j as int));
        let mid = cs@.subrange(i as int, j as int);
        assert(mid.len() == 0 || !is_white_space(mid.last()));
        assert(trim_end(mid) == mid);
    }
    (i, j)
}

/// The lowercase hexadecimal digit for `d` (`0`..`9`, `a`..`f`).
pub open spec fn hex_char(d: int) -> char {
    if d == 0 {
        '0'
    } else if d == 1 {
        '1'
    } else if d == 2 {
        '2'
    } else if d == 3 {
        '3'
    } else if d == 4 {
        '4'
    } else if d == 5 {
        '5'
    } else if d == 6 {
        '6'
    } else if d == 7 {
        '7'
    } else if d == 8 {
        '8'
    } else if d == 9 {
        '9'
    } else if d == 10 {
        'a'
    } else if d == 11 {
        'b'
    } else if d == 12 {
        'c'
    } else if d == 13 {
        'd'
    } else if d == 14 {
        'e'
    } else {
        'f'
    }
}

/// The decimal digits of `n`, most significant first, without leading zeros (`"0"` for zero).
pub open spec fn decimal(n: nat) -> Seq<char>
    decreases n,
{
    if n < 10 {
        seq![hex_char(n as int)]
    } else {
        decimal(n / 10).push(hex_char((n % 10) as int))
    }
}

/// The one-character string of hexadecimal digit `d`.
fn digit_str(d: u8) -> (r: &'static str)
    requires
        d < 16,
    ensures
        r@ == seq![hex_char(d as int)],
{
    match d {
        0 => {
            proof {
                reveal_strlit("0");
            }
            "0"
        },
        1 => {
            proof {
                reveal_strlit("1");
            }
            "1"
        },
        2 => {
            proof {
                reveal_strlit("2");
            }
            "2"
        },
        3 => {
            proof {
                reveal_strlit("3");
            }
            "3"
        },
        4 => {
            proof {
                reveal_strlit("4");
            }
            "4"
        },
        5 => {
            proof {
                reveal_strlit("5");
            }
            "5"
        },
        6 => {
            proof {
                reveal_strlit("6");
            }
            "6"
        },
        7 => {
            proof {
                reveal_strlit("7");
            }
            "7"
        },
        8 => {
            proof {
                reveal_strlit("8");
            }
            "8"
        },
        9 => {
            proof {
                reveal_strlit("9");
            }
            "9"
        },
        10 => {
            proof {
                reveal_strlit("a");
            }
            "a"
        },
        11 => {
            proof {
                reveal_strlit("b");
            }
            "b"
        },
        12 => {
            proof {
                reveal_strlit("c");
            }
            "c"
        },
        13 => {
            proof {
                reveal_strlit("d");
            }
            "d"
        },
        14 => {
            proof {
                reveal_strlit("e");
            }
            "e"
        },
        _ => {
            proof {
                reveal_strlit("f");
            }
            "f"
        },
    }
}

/// Append the digit `d` in hexadecimal.
pub fn push_hex_digit(s: &mut String, d: u8)
    requires
        d < 16,
    ensures
        final(s)@ == old(s)@.push(hex_char(d as int)),
{
    s.append(digit_str(d));
    assert(s@ =~= old(s)@.push(hex_char(d as int)));
}

/// Append `n` in decimal.
pub fn push_decimal(s: &mut String, n: u32)
    ensures
        final(s)@ == old(s)@ + decimal(n as nat),
{
    let mut digits: Vec<u8> = Vec::new();
    let mut m = n;
    let ghost parts: Seq<nat> = seq![];
    // Digits least significant first.
    while m >= 10
        invariant
            forall|i: int| 0 <= i < digits@.len() ==> digits@[i] < 10,
            decimal(n as nat) == decimal(m as nat) + digits_text(digits@),
        decreases m,
    {
        let d = (m % 10) as u8;
        assert(decimal(m as nat) == decimal((m / 10) as nat).push(hex_char(d as int)));
        let ghost before = digits@;
        digits.push(d);
        assert(digits@.drop_last() =~= before);
        m = m / 10;
        assert(decimal(n as nat) =~= decimal(m as nat) + digits_text(digits@));
    }
    push_hex_digit(s, m as u8);
    let mut i = digits.len();
    while i > 0
        invariant
            i <= digits@.len(),
            forall|k: int| 0 <= k < digits@.len() ==> digits@[k] < 10,
            decimal(n as nat) == decimal(m as nat) + digits_text(digits@),
            m < 10,
            s@ == old(s)@ + decimal(m as nat) + digits_text(digits@.subrange(i as int, digits@.len() as int)),
        decreases i,
    {
        i = i - 1;
        push_hex_digit(s, digits[i]);
        proof {
            let tail = digits@.subrange(i + 1, digits@.len() as int);
            assert(digits@.subrange(i as int, digits@.len() as int) =~= seq![digits@[i as int]] + tail);
            lemma_digits_text_front(digits@[i as int], tail);
        }
        assert(s@ =~= old(s)@ + decimal(m as nat) + digits_text(digits@.subrange(i as int, digits@.len() as int)));
    }
    assert(digits@.subrange(0, digits@.len() as int) =~= digits@);
}

/// The digits of `ds` (least significant first) written most significant first.
pub open spec fn digits_text(ds: Seq<u8>) -> Seq<char>
    decreases ds.len(),
{
    if ds.len() == 0 {
        Seq::empty()
    } else {
        seq![hex_char(ds.last() as int)] + digits_text(ds.drop_last())
    }
}

/// A digit less significant than all of `ds` is written after them.
proof fn lemma_digits_text_front(x: u8, ds: Seq<u8>)
    ensures
        digits_text(seq![x] + ds) == digits_text(ds).push(hex_char(x as int)),
    decreases ds.len(),
{
    if ds.len() == 0 {
        assert((seq![x] + ds).drop_last() =~= Seq::<u8>::empty());
        assert(ds =~= Seq::<u8>::empty());
        assert(digits_text(Seq::<u8>::empty()) == Seq::<char>::empty());
        assert((seq![x] + ds).last() == x);
        assert(digits_text(seq![x] + ds) =~= digits_text(ds).push(hex_char(x as int)));
    } else {
        lemma_digits_text_front(x, ds.drop_last());
        assert((seq![x] + ds).drop_last() =~= seq![x] + ds.drop_last());
        let t = seq![x] + ds;
        assert(t.last() == ds.last());
        assert(digits_text(t) == seq![hex_char(t.last() as int)] + digits_text(t.drop_last()));
        assert(digits_text(t.drop_last()) == digits_text(ds.drop_last()).push(hex_char(x as int)));
        assert(digits_text(ds) == seq![hex_char(ds.last() as int)] + digits_text(ds.drop_last()));
        assert(digits_text(t) =~= digits_text(ds).push(hex_char(x as int)));
    }
}

} // verus!
