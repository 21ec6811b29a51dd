use vstd::prelude::*;
use vstd::arithmetic::power::pow;

verus! {

/// Whether `c` has the Unicode `White_Space` property: tab, line feed,
/// vertical tab, form feed, carriage return, space, next line, no-break
/// space, ogham space mark, the spaces from en quad to hair space, line and
/// paragraph separators, narrow no-break space, medium mathematical space and
/// ideographic space.
pub open spec fn unicode_whitespace(c: char) -> bool {
    let u = c as u32;
    ||| 0x09 <= u <= 0x0d
    ||| u == 0x20
    ||| u == 0x85
    ||| u == 0xa0
    ||| u == 0x1680
    ||| 0x2000 <= u <= 0x200a
    ||| u == 0x2028
    ||| u == 0x2029
    ||| u == 0x202f
    ||| u == 0x205f
    ||| u == 0x3000
}

/// Whether `c` has the Unicode `Alphabetic` property.
pub uninterp spec fn unicode_alphabetic(c: char) -> bool;

/// Relies on `char::is_whitespace`: true exactly for the characters with
/// the Unicode `White_Space` property, listed in `unicode_whitespace`.
pub assume_specification[ char::is_whitespace ](c: char) -> (r: bool)
    ensures
        r == unicode_whitespace(c),
;

/// Relies on `char::is_alphabetic`: true exactly for the characters with
/// the Unicode `Alphabetic` property.
pub assume_specification[ char::is_alphabetic ](c: char) -> (r: bool)
    ensures
        r == unicode_alphabetic(c),
;

/// Relies on `String::push`, which appends one character to the string.
#[verifier::external_body]
pub(crate) fn push_char(s: &mut String, c: char)
    ensures
        final(s)@ == old(s)@.push(c),
{
    s.push(c);
}

pub open spec fn is_digit(c: char) -> bool {
    '0' <= c && c <= '9'
}

pub open spec fn digit_value(c: char) -> int {
    c as int - '0' as int
}

pub open spec fn all_digits(t: Seq<char>) -> bool {
    forall|i: int| 0 <= i < t.len() ==> #[trigger] is_digit(t[i])
}

/// The number that the decimal digits `t` spell, most significant first.
pub open spec fn digits_value(t: Seq<char>) -> int
    decreases t.len(),
{
    if t.len() == 0 {
        0
    } else {
        digits_value(t.drop_last()) * 10 + digit_value(t.last())
    }
}

/// The characters of `s`, in order.
pub fn chars_of(s: &str) -> (r: Vec<char>)
    ensures
        r@ == s@,
{
    let mut v: Vec<char> = Vec::new();
    for c in it: s.chars()
        invariant
            v@ == it.seq().take(it.index() as int),
    {
        v.push(c);
    }
    v
}

/// A string holding the characters `chars[lo..hi]`.
pub fn string_of(chars: &Vec<char>, lo: usize, hi: usize) -> (r: String)
    requires
        lo <= hi <= chars.len(),
    ensures
        r@ == chars@.subrange(lo as int, hi as int),
{
    let mut s = String::new();
    let mut i = lo;
    while i < hi
        invariant
            lo <= i <= hi <= chars.len(),
            s@ == chars@.subrange(lo as int, i as int),
        decreases hi - i,
    {
        push_char(&mut s, chars[i]);
        i = i + 1;
        assert(s@ =~= chars@.subrange(lo as int, i as int));
    }
    s
}


/// Prepending a digit adds it at the place of the highest power of ten.
pub proof fn lemma_digits_value_prepend(t: Seq<char>)
    requires
        t.len() > 0,
    ensures
        digits_value(t) == digit_value(t[0]) * pow(10, (t.len() - 1) as nat) + digits_value(
            t.drop_first(),
        ),
    decreases t.len(),
{
    reveal(pow);
    if t.len() == 1 {
        assert(t.drop_last() =~= seq![]);
        assert(t.drop_first() =~= seq![]);
        assert(digits_value(seq![]) == 0);
        assert(pow(10, 0) == 1);
    } else {
        let u = t.drop_last();
        lemma_digits_value_prepend(u);
        assert(u.drop_first() =~= t.drop_first().drop_last());
        assert(u[0] == t[0]);
        assert(t.drop_first().last() == t.last());
        let p = pow(10, (u.len() - 1) as nat);
        assert(pow(10, (t.len() - 1) as nat) == 10 * p);
        assert(digits_value(t) == (digit_value(t[0]) * p + digits_value(u.drop_first())) * 10
            + digit_value(t.last()));
        assert((digit_value(t[0]) * p + digits_value(u.drop_first())) * 10 == digit_value(t[0])
            * (10 * p) + digits_value(u.drop_first()) * 10) by (nonlinear_arith);
        assert(digits_value(t.drop_first()) == digits_value(u.drop_first()) * 10 + digit_value(
            t.last(),
        ));
    }
}


pub proof fn lemma_digits_value_nonneg(t: Seq<char>)
    requires
        all_digits(t),
    ensures
        0 <= digits_value(t),
    decreases t.len(),
{
    if t.len() > 0 {
        assert(is_digit(t[t.len() - 1]));
        lemma_digits_value_nonneg(t.drop_last());
    }
}

} // verus!
