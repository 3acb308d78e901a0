//! Scalar attribute values and their serialized text.

use vstd::prelude::*;

verus! {

/// One attribute value of a node.
///
/// The document format admits only the three scalar shapes.  `Other` stands
/// for any non-scalar shape found in a source document (an array, a nested
/// table, a float, a datetime); such a value is carried along unread and is
/// rejected with `UnsupportedType` as soon as a block tries to serialize it.
pub enum AttributeValue {
    Str(String),
    Int(i64),
    Bool(bool),
    Other,
}

impl AttributeValue {
    /// True of the three shapes that can be written out.
    pub open spec fn is_scalar(self) -> bool {
        !(self is Other)
    }

    /// The text a scalar value serializes to: strings verbatim, integers in
    /// decimal, booleans as `true` / `false`.
    pub open spec fn text_of(self) -> Seq<char>
        recommends
            self.is_scalar(),
    {
        match self {
            AttributeValue::Str(s) => s@,
            AttributeValue::Int(i) => int_text(i as int),
            AttributeValue::Bool(b) => if b {
                "true"@
            } else {
                "false"@
            },
            AttributeValue::Other => Seq::empty(),
        }
    }
}

/// The character for one decimal digit.
pub open spec fn digit_char(d: int) -> char
    recommends
        0 <= d < 10,
{
    if d == 0 {
        '0'
    } else if d == 1 {
        '1'
    } else if d == 2 {
        '2'
    } else if d == 3 {
        '3'
    } else if d == 4 {
        '4'
    } else if d == 5 {
        '5'
    } else if d == 6 {
        '6'
    } else if d == 7 {
        '7'
    } else if d == 8 {
        '8'
    } else {
        '9'
    }
}

/// The decimal digits of a non-negative integer, most significant first.
pub open spec fn dec_digits(n: int) -> Seq<char>
    recommends
        n >= 0,
    decreases n,
{
    if n < 10 {
        seq![digit_char(n)]
    } else {
        dec_digits(n / 10).push(digit_char(n % 10))
    }
}

/// The decimal text of an integer, with a leading `-` when negative.
pub open spec fn int_text(n: int) -> Seq<char> {
    if n >= 0 {
        dec_digits(n)
    } else {
        seq!['-'] + dec_digits(-n)
    }
}

/// The numeric value of one digit character, `-1` for any other character.
pub open spec fn digit_val(c: char) -> int {
    if c == '0' {
        0
    } else if c == '1' {
        1
    } else if c == '2' {
        2
    } else if c == '3' {
        3
    } else if c == '4' {
        4
    } else if c == '5' {
        5
    } else if c == '6' {
        6
    } else if c == '7' {
        7
    } else if c == '8' {
        8
    } else if c == '9' {
        9
    } else {
        -1
    }
}

pub open spec fn is_digit_char(c: char) -> bool {
    digit_val(c) >= 0
}

pub open spec fn all_digits(s: Seq<char>) -> bool {
    forall|i: int| 0 <= i < s.len() ==> is_digit_char(#[trigger] s[i])
}

/// The integer denoted by a sequence of digit characters.
pub open spec fn digits_val(s: Seq<char>) -> int
    decreases s.len(),
{
    if s.len() == 0 {
        0
    } else {
        digits_val(s.drop_last()) * 10 + digit_val(s.last())
    }
}

/// Reads decimal text back as an integer: an optional leading `-`, then at
/// least one digit.  `None` on any other text.
pub open spec fn parse_int_text(s: Seq<char>) -> Option<int> {
    if s.len() > 0 && s[0] == '-' {
        let t = s.subrange(1, s.len() as int);
        if t.len() > 0 && all_digits(t) {
            Some(-digits_val(t))
        } else {
            None
        }
    } else {
        if s.len() > 0 && all_digits(s) {
            Some(digits_val(s))
        } else {
            None
        }
    }
}

/// Reads boolean text back: exactly `true` or `false`.
pub open spec fn parse_bool_text(s: Seq<char>) -> Option<bool> {
    if s == "true"@ {
        Some(true)
    } else if s == "false"@ {
        Some(false)
    } else {
        None
    }
}

proof fn lemma_dec_digits_well_formed(n: int)
    requires
        n >= 0,
    ensures
        dec_digits(n).len() >= 1,
        all_digits(dec_digits(n)),
    decreases n,
{
    if n >= 10 {
        lemma_dec_digits_well_formed(n / 10);
        assert forall|i: int| 0 <= i < dec_digits(n).len() implies is_digit_char(
            #[trigger] dec_digits(n)[i],
        ) by {
            if i < dec_digits(n / 10).len() {
                assert(dec_digits(n)[i] == dec_digits(n / 10)[i]);
            }
        }
    }
}

proof fn lemma_digits_val_of_dec(n: int)
    requires
        n >= 0,
    ensures
        digits_val(dec_digits(n)) == n,
    decreases n,
{
    if n < 10 {
        assert(dec_digits(n) == seq![digit_char(n)]);
        assert(dec_digits(n).len() == 1);
        assert(dec_digits(n).drop_last() =~= Seq::<char>::empty());
        assert(digits_val(Seq::<char>::empty()) == 0);
        assert(dec_digits(n).last() == digit_char(n));
        assert(digit_val(digit_char(n)) == n);
        assert(digits_val(dec_digits(n)) == digits_val(dec_digits(n).drop_last()) * 10
            + digit_val(dec_digits(n).last()));
    } else {
        lemma_digits_val_of_dec(n / 10);
        assert(dec_digits(n).drop_last() =~= dec_digits(n / 10));
        assert(dec_digits(n).last() == digit_char(n % 10));
        assert(digit_val(digit_char(n % 10)) == n % 10);
        assert(n / 10 * 10 + n % 10 == n) by (nonlinear_arith);
    }
}

/// Law: serialized scalars read back as the value they came from.  A string
/// serializes to its own text; an integer's decimal text parses back to the
/// same integer; a boolean's text parses back to the same boolean.
pub proof fn lemma_scalar_round_trip(v: AttributeValue)
    requires
        v.is_scalar(),
    ensures
        v matches AttributeValue::Str(s) ==> v.text_of() == s@,
        v matches AttributeValue::Int(i) ==> parse_int_text(v.text_of()) == Some(i as int),
        v matches AttributeValue::Bool(b) ==> parse_bool_text(v.text_of()) == Some(b),
{
    if let AttributeValue::Int(i) = v {
        let n = i as int;
        if n >= 0 {
            lemma_dec_digits_well_formed(n);
            lemma_digits_val_of_dec(n);
            assert(is_digit_char(dec_digits(n)[0]));
        } else {
            lemma_dec_digits_well_formed(-n);
            lemma_digits_val_of_dec(-n);
            let s = int_text(n);
            assert(s[0] == '-');
            assert(s.subrange(1, s.len() as int) =~= dec_digits(-n));
        }
    }
    if let AttributeValue::Bool(b) = v {
        if !b {
            proof_bool_texts_differ();
        }
    }
}

proof fn proof_bool_texts_differ()
    ensures
        "false"@ != "true"@,
{
    reveal_strlit("true");
    reveal_strlit("false");
    assert("true"@.len() == 4);
    assert("false"@.len() == 5);
}

fn digit_str(d: u64) -> (r: &'static str)
    requires
        d < 10,
    ensures
        r@ == seq![digit_char(d as int)],
{
    let r: &'static str = if d == 0 {
        "0"
    } else if d == 1 {
        "1"
    } else if d == 2 {
        "2"
    } else if d == 3 {
        "3"
    } else if d == 4 {
        "4"
    } else if d == 5 {
        "5"
    } else if d == 6 {
        "6"
    } else if d == 7 {
        "7"
    } else if d == 8 {
        "8"
    } else {
        "9"
    };
    proof {
        reveal_strlit("0");
        reveal_strlit("1");
        reveal_strlit("2");
        reveal_strlit("3");
        reveal_strlit("4");
        reveal_strlit("5");
        reveal_strlit("6");
        reveal_strlit("7");
        reveal_strlit("8");
        reveal_strlit("9");
        assert(r@ =~= seq![digit_char(d as int)]);
    }
    r
}

fn u64_text(n: u64) -> (r: String)
    ensures
        r@ == dec_digits(n as int),
    decreases n,
{
    if n < 10 {
        let mut s = String::new();
        s.append(digit_str(n));
        proof {
            assert(s@ =~= seq![digit_char(n as int)]);
        }
        s
    } else {
        let mut s = u64_text(n / 10);
        s.append(digit_str(n % 10));
        proof {
            assert(s@ =~= dec_digits((n / 10) as int).push(digit_char((n % 10) as int)));
        }
        s
    }
}

/// Writes an integer as decimal text.
pub fn int_to_text(n: i64) -> (r: String)
    ensures
        r@ == int_text(n as int),
{
    if n >= 0 {
        u64_text(n as u64)
    } else {
        let wide: i128 = -(n as i128);
        assert(wide == -(n as int));
        let mag: u64 = wide as u64;
        let mut s = String::from_str("-");
        let digits = u64_text(mag);
        s.append(digits.as_str());
        proof {
            reveal_strlit("-");
            assert(s@ =~= seq!['-'] + dec_digits(-(n as int)));
        }
        s
    }
}

/// Writes a scalar value as the text it serializes to.
pub fn value_to_text(v: &AttributeValue) -> (r: String)
    requires
        v.is_scalar(),
    ensures
        r@ == v.text_of(),
{
    match v {
        AttributeValue::Str(s) => s.clone(),
        AttributeValue::Int(i) => int_to_text(*i),
        AttributeValue::Bool(b) => {
            if *b {
                String::from_str("true")
            } else {
                String::from_str("false")
            }
        },
        AttributeValue::Other => vstd::pervasive::unreached(),
    }
}

} // verus!
