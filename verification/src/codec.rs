//! Conversion of keys and values to and from text.
//!
//! The persistence layer stores every key and value as text on a
//! `key:value` line.  `TextCodec` states what such a conversion must
//! be: an encoding of the value's mathematical view into a sequence of
//! characters, a decoding back, and a proof that decoding the encoding
//! of any value yields that value again.

use vstd::prelude::*;
use vstd::std_specs::iter::IteratorSpec;

verus! {

broadcast use vstd::string::axiom_spec_iter, vstd::string::next_postcondition;

/// A type whose values can be written as text and read back without
/// loss.
pub trait TextCodec: DeepView + Sized {
    /// The text that stands for the view `v`.
    spec fn encode_spec(v: Self::V) -> Seq<char>;

    /// The view that the text `t` stands for, if it stands for one.
    spec fn decode_spec(t: Seq<char>) -> Option<Self::V>;

    /// Decoding the text of a value yields the value back.
    proof fn lemma_codec_round_trip(v: Self::V)
        ensures
            Self::decode_spec(Self::encode_spec(v)) == Some(v),
    ;

    /// Writes the value as text.
    fn to_text(&self) -> (t: String)
        ensures
            t@ == Self::encode_spec(self.deep_view()),
    ;

    /// Reads a value back from text.
    fn from_text(t: &str) -> (r: Option<Self>)
        ensures
            match r {
                Some(v) => Self::decode_spec(t@) == Some(v.deep_view()),
                None => Self::decode_spec(t@) is None,
            },
    ;
}

impl TextCodec for String {
    open spec fn encode_spec(v: Seq<char>) -> Seq<char> {
        v
    }

    open spec fn decode_spec(t: Seq<char>) -> Option<Seq<char>> {
        Some(t)
    }

    proof fn lemma_codec_round_trip(v: Seq<char>) {
    }

    fn to_text(&self) -> (t: String) {
        self.clone()
    }

    fn from_text(t: &str) -> (r: Option<Self>) {
        Some(t.to_owned())
    }
}

impl TextCodec for bool {
    open spec fn encode_spec(v: bool) -> Seq<char> {
        if v {
            "true"@
        } else {
            "false"@
        }
    }

    open spec fn decode_spec(t: Seq<char>) -> Option<bool> {
        if t == "true"@ {
            Some(true)
        } else if t == "false"@ {
            Some(false)
        } else {
            None
        }
    }

    proof fn lemma_codec_round_trip(v: bool) {
        reveal_strlit("true");
        reveal_strlit("false");
        assert("true"@.len() == 4);
        assert("false"@.len() == 5);
        assert("false"@ != "true"@);
    }

    fn to_text(&self) -> (t: String) {
        if *self {
            "true".to_owned()
        } else {
            "false".to_owned()
        }
    }

    fn from_text(t: &str) -> (r: Option<Self>) {
        if t.eq("true") {
            Some(true)
        } else if t.eq("false") {
            Some(false)
        } else {
            None
        }
    }
}

/// The digit character that stands for `d`, meaningful for `d < 10`.
pub open spec fn dec_digit(d: nat) -> char {
    if d == 0 {
        '0'
    } else if d == 1 {
        '1'
    } else if d == 2 {
        '2'
    } else if d == 3 {
        '3'
    } else if d == 4 {
        '4'
    } else if d == 5 {
        '5'
    } else if d == 6 {
        '6'
    } else if d == 7 {
        '7'
    } else if d == 8 {
        '8'
    } else {
        '9'
    }
}

/// The numeric value of a digit character, or `-1` for any other
/// character.
pub open spec fn digit_val(c: char) -> int {
    if c == '0' {
        0
    } else if c == '1' {
        1
    } else if c == '2' {
        2
    } else if c == '3' {
        3
    } else if c == '4' {
        4
    } else if c == '5' {
        5
    } else if c == '6' {
        6
    } else if c == '7' {
        7
    } else if c == '8' {
        8
    } else if c == '9' {
        9
    } else {
        -1
    }
}

/// The decimal text of `n`: most significant digit first, no sign and
/// no leading zero.
pub open spec fn dec_text(n: nat) -> Seq<char>
    decreases n,
{
    if n < 10 {
        seq![dec_digit(n)]
    } else {
        dec_text(n / 10).push(dec_digit(n % 10))
    }
}

/// The number a text stands for in decimal: `None` for the empty text
/// and for any text holding a non-digit.
pub open spec fn dec_val(t: Seq<char>) -> Option<nat>
    decreases t.len(),
{
    if t.len() == 0 {
        None
    } else if t.len() == 1 {
        if digit_val(t[0]) >= 0 {
            Some(digit_val(t[0]) as nat)
        } else {
            None
        }
    } else {
        match dec_val(t.drop_last()) {
            Some(m) => if digit_val(t.last()) >= 0 {
                Some((m * 10 + digit_val(t.last())) as nat)
            } else {
                None
            },
            None => None,
        }
    }
}

/// The decimal text of a number reads back as that number.
proof fn lemma_dec_round_trip(n: nat)
    ensures
        dec_val(dec_text(n)) == Some(n),
    decreases n,
{
    if n < 10 {
    } else {
        lemma_dec_round_trip(n / 10);
        let t = dec_text(n);
        assert(t.drop_last() =~= dec_text(n / 10));
        assert(t.last() == dec_digit(n % 10));
        vstd::arithmetic::div_mod::lemma_fundamental_div_mod(n as int, 10);
    }
}

/// A decimal text is never empty and opens with a digit (never with a
/// sign).
proof fn lemma_dec_text_starts_digit(n: nat)
    ensures
        dec_text(n).len() > 0,
        digit_val(dec_text(n)[0]) >= 0,
    decreases n,
{
    if n < 10 {
    } else {
        lemma_dec_text_starts_digit(n / 10);
        assert(dec_text(n)[0] == dec_text(n / 10)[0]);
    }
}

/// A prefix of a text that stands for a number stands for a number no
/// greater.
proof fn lemma_dec_val_prefix(t: Seq<char>, i: int)
    requires
        1 <= i <= t.len(),
        dec_val(t) is Some,
    ensures
        ({
            let a = dec_val(t.take(i));
            let b = dec_val(t);
            a is Some && a->0 <= b->0
        }),
    decreases t.len(),
{
    if i == t.len() {
        assert(t.take(i) =~= t);
    } else {
        assert(t.take(i) =~= t.drop_last().take(i));
        lemma_dec_val_prefix(t.drop_last(), i);
    }
}

/// A text holding a non-digit stands for no number.
proof fn lemma_dec_val_nondigit(t: Seq<char>, i: int)
    requires
        0 <= i < t.len(),
        digit_val(t[i]) < 0,
    ensures
        dec_val(t) is None,
    decreases t.len(),
{
    if i < t.len() - 1 {
        assert(t.drop_last()[i] == t[i]);
        lemma_dec_val_nondigit(t.drop_last(), i);
    }
}

/// The digit character for `d`.
fn dec_digit_char(d: usize) -> (c: char)
    requires
        d < 10,
    ensures
        c == dec_digit(d as nat),
{
    if d == 0 {
        '0'
    } else if d == 1 {
        '1'
    } else if d == 2 {
        '2'
    } else if d == 3 {
        '3'
    } else if d == 4 {
        '4'
    } else if d == 5 {
        '5'
    } else if d == 6 {
        '6'
    } else if d == 7 {
        '7'
    } else if d == 8 {
        '8'
    } else {
        '9'
    }
}

/// The numeric value of a digit character.
fn digit_of_char(c: char) -> (r: Option<usize>)
    ensures
        match r {
            Some(d) => d < 10 && digit_val(c) == d as int,
            None => digit_val(c) < 0,
        },
{
    if c == '0' {
        Some(0)
    } else if c == '1' {
        Some(1)
    } else if c == '2' {
        Some(2)
    } else if c == '3' {
        Some(3)
    } else if c == '4' {
        Some(4)
    } else if c == '5' {
        Some(5)
    } else if c == '6' {
        Some(6)
    } else if c == '7' {
        Some(7)
    } else if c == '8' {
        Some(8)
    } else if c == '9' {
        Some(9)
    } else {
        None
    }
}

/// The decimal digits of `n`, most significant first.
fn usize_dec_chars(n: usize) -> (v: Vec<char>)
    ensures
        v@ == dec_text(n as nat),
    decreases n,
{
    if n < 10 {
        let mut v: Vec<char> = Vec::new();
        v.push(dec_digit_char(n));
        proof {
            assert(v@ =~= seq![dec_digit(n as nat)]);
        }
        v
    } else {
        let mut v = usize_dec_chars(n / 10);
        v.push(dec_digit_char(n % 10));
        v
    }
}

impl TextCodec for usize {
    open spec fn encode_spec(v: usize) -> Seq<char> {
        dec_text(v as nat)
    }

    open spec fn decode_spec(t: Seq<char>) -> Option<usize> {
        let digits = if t.len() > 0 && t[0] == '+' {
            t.drop_first()
        } else {
            t
        };
        match dec_val(digits) {
            Some(m) => if m <= usize::MAX as nat {
                Some(m as usize)
            } else {
                None
            },
            None => None,
        }
    }

    proof fn lemma_codec_round_trip(v: usize) {
        lemma_dec_text_starts_digit(v as nat);
        lemma_dec_round_trip(v as nat);
    }

    fn to_text(&self) -> (t: String) {
        let digits = usize_dec_chars(*self);
        chars_to_string(&digits)
    }

    fn from_text(t: &str) -> (r: Option<Self>) {
        let cs = str_to_chars(t);
        let offset: usize = if cs.len() > 0 && cs[0] == '+' {
            1
        } else {
            0
        };
        let ghost digits = if t@.len() > 0 && t@[0] == '+' {
            t@.drop_first()
        } else {
            t@
        };
        proof {
            assert(digits =~= cs@.skip(offset as int));
        }
        if cs.len() == offset {
            return None;
        }
        let mut acc: usize = 0;
        let mut i: usize = offset;
        while i < cs.len()
            invariant
                cs@ == t@,
                offset <= i <= cs@.len(),
                offset < cs@.len(),
                digits == cs@.skip(offset as int),
                digits == (if t@.len() > 0 && t@[0] == '+' {
                    t@.drop_first()
                } else {
                    t@
                }),
                i == offset ==> acc == 0,
                offset < i ==> dec_val(cs@.subrange(offset as int, i as int)) == Some(
                    acc as nat,
                ),
            decreases cs@.len() - i,
        {
            let ghost pre = cs@.subrange(offset as int, i as int);
            let c = cs[i];
            proof {
                assert(cs@.subrange(offset as int, i + 1) =~= pre.push(c));
                assert(cs@.subrange(offset as int, i + 1).drop_last() =~= pre);
            }
            match digit_of_char(c) {
                Some(d) => {
                    proof {
                        vstd::arithmetic::div_mod::lemma_fundamental_div_mod(
                            (usize::MAX - d) as int,
                            10,
                        );
                    }
                    if acc <= (usize::MAX - d) / 10 {
                        acc = acc * 10 + d;
                    } else {
                        proof {
                            assert(cs@.subrange(offset as int, i + 1) =~= digits.take(
                                i + 1 - offset,
                            ));
                            assert(dec_val(digits.take(i + 1 - offset)) == Some(
                                (acc * 10 + d) as nat,
                            ));
                            let full = dec_val(digits);
                            if full is Some {
                                lemma_dec_val_prefix(digits, i + 1 - offset);
                                assert(full->0 > usize::MAX as nat);
                            }
                        }
                        return None;
                    }
                },
                None => {
                    proof {
                        assert(digits[i - offset] == c);
                        lemma_dec_val_nondigit(digits, i - offset);
                    }
                    return None;
                },
            }
            i = i + 1;
        }
        proof {
            assert(cs@.subrange(offset as int, cs@.len() as int) =~= digits);
        }
        Some(acc)
    }
}

/// Relies on `String::push`: appends the given character to the end of
/// the string.
pub assume_specification[ String::push ](s: &mut String, c: char)
    ensures
        final(s)@ == old(s)@.push(c),
;

/// The characters of a string slice, as a vector.
pub fn str_to_chars(s: &str) -> (v: Vec<char>)
    ensures
        v@ == s@,
{
    let mut it = s.chars();
    let mut v: Vec<char> = Vec::new();
    proof {
        assert(v@ + it.remaining() =~= s@);
    }
    loop
        invariant
            v@ + it.remaining() == s@,
            it.decrease() is Some,
        ensures
            v@ == s@,
        decreases it.decrease()->0,
    {
        match it.next() {
            Some(c) => {
                v.push(c);
                proof {
                    assert(v@ + it.remaining() =~= s@);
                }
            },
            None => {
                proof {
                    assert(v@ + it.remaining() =~= v@);
                }
                break ;
            },
        }
    }
    v
}

/// A string holding exactly the given characters.
pub fn chars_to_string(v: &Vec<char>) -> (s: String)
    ensures
        s@ == v@,
{
    let mut s = String::new();
    let mut i: usize = 0;
    while i < v.len()
        invariant
            i <= v@.len(),
            s@ == v@.take(i as int),
        decreases v@.len() - i,
    {
        s.push(v[i]);
        i = i + 1;
        proof {
            assert(v@.take(i as int) =~= v@.take(i - 1).push(v@[i - 1]));
        }
    }
    proof {
        assert(v@.take(v@.len() as int) =~= v@);
    }
    s
}

} // verus!
