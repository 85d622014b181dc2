//! Building text out of numbers and comparing strings, with exact models.

use vstd::prelude::*;

verus! {

/// The ASCII digit for `d` (which is meant to be below 10).
pub open spec fn digit_char(d: nat) -> char {
    if d == 0 {
        '0'
    } else if d == 1 {
        '1'
    } else if d == 2 {
        '2'
    } else if d == 3 {
        '3'
    } else if d == 4 {
        '4'
    } else if d == 5 {
        '5'
    } else if d == 6 {
        '6'
    } else if d == 7 {
        '7'
    } else if d == 8 {
        '8'
    } else {
        '9'
    }
}

/// Base-ten rendering of `n`, most significant digit first, no leading zeros.
pub open spec fn decimal(n: nat) -> Seq<char>
    decreases n,
{
    if n < 10 {
        seq![digit_char(n)]
    } else {
        decimal(n / 10).push(digit_char(n % 10))
    }
}

/// `decimal(n)` left-padded with `'0'` up to `width` characters.
pub open spec fn zero_padded(n: nat, width: nat) -> Seq<char> {
    let s = decimal(n);
    if s.len() < width {
        Seq::new((width - s.len()) as nat, |i: int| '0') + s
    } else {
        s
    }
}

/// Lexicographic order of character sequences by code point: the order `<=` gives on
/// strings.
pub open spec fn text_le(a: Seq<char>, b: Seq<char>) -> bool
    decreases a.len(),
{
    if a.len() == 0 {
        true
    } else if b.len() == 0 {
        false
    } else if (a[0] as int) < (b[0] as int) {
        true
    } else if a[0] != b[0] {
        false
    } else {
        text_le(a.drop_first(), b.drop_first())
    }
}

/// The last `w` decimal digits of `n`, most significant first.
pub open spec fn fixed_digits(n: nat, w: nat) -> Seq<char>
    decreases w,
{
    if w == 0 {
        seq![]
    } else {
        fixed_digits(n / 10, (w - 1) as nat).push(digit_char(n % 10))
    }
}

/// Whether `n` has at most `w` decimal digits (0 has none).
pub open spec fn fits_digits(n: nat, w: nat) -> bool
    decreases w,
{
    if w == 0 {
        n == 0
    } else {
        fits_digits(n / 10, (w - 1) as nat)
    }
}

/// Two texts that begin with parts of the same length compare as those parts do when
/// the parts differ, and as the rests do when the parts are equal.
pub proof fn lemma_text_le_concat(p1: Seq<char>, s1: Seq<char>, p2: Seq<char>, s2: Seq<char>)
    requires
        p1.len() == p2.len(),
        (p1 == p2 && text_le(s1, s2)) || (p1 != p2 && text_le(p1, p2)),
    ensures
        text_le(p1 + s1, p2 + s2),
    decreases p1.len(),
{
    if p1.len() > 0 {
        assert((p1 + s1).drop_first() =~= p1.drop_first() + s1);
        assert((p2 + s2).drop_first() =~= p2.drop_first() + s2);
        assert((p1 + s1)[0] == p1[0]);
        assert((p2 + s2)[0] == p2[0]);
        if p1[0] == p2[0] {
            if p1 != p2 {
                assert(p1.drop_first() != p2.drop_first()) by {
                    if p1.drop_first() == p2.drop_first() {
                        assert(p1 =~= seq![p1[0]] + p1.drop_first());
                        assert(p2 =~= seq![p2[0]] + p2.drop_first());
                    }
                }
            }
            lemma_text_le_concat(p1.drop_first(), s1, p2.drop_first(), s2);
        }
    } else {
        assert(p1 =~= p2);
        assert(p1 + s1 =~= s1);
        assert(p2 + s2 =~= s2);
    }
}

proof fn lemma_text_le_refl(a: Seq<char>)
    ensures
        text_le(a, a),
    decreases a.len(),
{
    if a.len() > 0 {
        lemma_text_le_refl(a.drop_first());
    }
}

proof fn lemma_digit_char_code(d: nat)
    requires
        d < 10,
    ensures
        digit_char(d) as int == '0' as int + d,
{
}

/// Fixed-width digit texts sort as the numbers they spell.
pub proof fn lemma_fixed_digits_order(n1: nat, n2: nat, w: nat)
    requires
        n1 <= n2,
        fits_digits(n1, w),
        fits_digits(n2, w),
    ensures
        fixed_digits(n1, w).len() == w,
        fixed_digits(n2, w).len() == w,
        text_le(fixed_digits(n1, w), fixed_digits(n2, w)),
        n1 < n2 ==> fixed_digits(n1, w) != fixed_digits(n2, w),
    decreases w,
{
    if w == 0 {
        lemma_text_le_refl(seq![]);
    } else {
        let q1 = n1 / 10;
        let q2 = n2 / 10;
        let r1 = n1 % 10;
        let r2 = n2 % 10;
        assert(q1 <= q2);
        lemma_fixed_digits_order(q1, q2, (w - 1) as nat);
        let f1 = fixed_digits(q1, (w - 1) as nat);
        let f2 = fixed_digits(q2, (w - 1) as nat);
        let c1 = seq![digit_char(r1)];
        let c2 = seq![digit_char(r2)];
        assert(fixed_digits(n1, w) =~= f1 + c1);
        assert(fixed_digits(n2, w) =~= f2 + c2);
        lemma_digit_char_code(r1);
        lemma_digit_char_code(r2);
        if q1 == q2 {
            assert(r1 <= r2);
            assert(c1.drop_first() =~= Seq::<char>::empty());
            assert(c2.drop_first() =~= Seq::<char>::empty());
            assert(text_le(Seq::<char>::empty(), Seq::<char>::empty()));
            assert(c1[0] == digit_char(r1) && c2[0] == digit_char(r2));
            assert(text_le(c1, c2));
            lemma_text_le_concat(f1, c1, f2, c2);
            if n1 < n2 {
                assert(r1 < r2);
                assert((f1 + c1)[w - 1] != (f2 + c2)[w - 1]);
            }
        } else {
            lemma_text_le_concat(f1, c1, f2, c2);
            assert((f1 + c1).take(w - 1) =~= f1);
            assert((f2 + c2).take(w - 1) =~= f2);
        }
    }
}

proof fn lemma_fixed_zero(w: nat)
    ensures
        fixed_digits(0, w) =~= Seq::new(w, |i: int| '0'),
    decreases w,
{
    if w > 0 {
        lemma_fixed_zero((w - 1) as nat);
    }
}

/// A number of at most `w` digits (`w >= 1`) is zero-padded to its last `w` digits.
pub proof fn lemma_zero_padded_fixed(n: nat, w: nat)
    requires
        w >= 1,
        fits_digits(n, w),
    ensures
        decimal(n).len() <= w,
        zero_padded(n, w) == fixed_digits(n, w),
    decreases w,
{
    if n < 10 {
        lemma_fixed_zero((w - 1) as nat);
        assert(fixed_digits(n, w) =~= Seq::new((w - 1) as nat, |i: int| '0') + decimal(n));
    } else {
        if w == 1 {
            assert(fits_digits(n / 10, 0));
        }
        lemma_zero_padded_fixed(n / 10, (w - 1) as nat);
        assert(fixed_digits(n, w) =~= Seq::new((w - decimal(n).len()) as nat, |i: int| '0') + decimal(n));
    }
    assert(zero_padded(n, w) =~= fixed_digits(n, w));
}

fn digit_str(d: u128) -> (s: &'static str)
    requires
        d < 10,
    ensures
        s@ == seq![digit_char(d as nat)],
{
    if d == 0 {
        proof { reveal_strlit("0"); }
        "0"
    } else if d == 1 {
        proof { reveal_strlit("1"); }
        "1"
    } else if d == 2 {
        proof { reveal_strlit("2"); }
        "2"
    } else if d == 3 {
        proof { reveal_strlit("3"); }
        "3"
    } else if d == 4 {
        proof { reveal_strlit("4"); }
        "4"
    } else if d == 5 {
        proof { reveal_strlit("5"); }
        "5"
    } else if d == 6 {
        proof { reveal_strlit("6"); }
        "6"
    } else if d == 7 {
        proof { reveal_strlit("7"); }
        "7"
    } else if d == 8 {
        proof { reveal_strlit("8"); }
        "8"
    } else {
        proof { reveal_strlit("9"); }
        "9"
    }
}

/// Appends the decimal rendering of `n` to `s`.
pub fn push_decimal(s: &mut String, n: u128)
    ensures
        final(s)@ == old(s)@ + decimal(n as nat),
    decreases n,
{
    if n >= 10 {
        push_decimal(s, n / 10);
        s.append(digit_str(n % 10));
        assert(final(s)@ =~= old(s)@ + decimal(n as nat));
    } else {
        s.append(digit_str(n));
    }
}

/// Appends `n` in decimal, left-padded with zeros to `width` characters.
pub fn push_zero_padded(s: &mut String, n: u128, width: usize)
    ensures
        final(s)@ == old(s)@ + zero_padded(n as nat, width as nat),
{
    let mut digits = String::new();
    push_decimal(&mut digits, n);
    assert(digits@ =~= decimal(n as nat));
    let len = digits.as_str().unicode_len();
    let ghost start = s@;
    let mut pad: usize = 0;
    if len < width {
        while pad < width - len
            invariant
                len < width,
                pad <= width - len,
                s@ == start + Seq::new(pad as nat, |i: int| '0'),
            decreases width - len - pad,
        {
            proof { reveal_strlit("0"); }
            s.append("0");
            pad = pad + 1;
            assert(s@ =~= start + Seq::new(pad as nat, |i: int| '0'));
        }
    }
    s.append(digits.as_str());
    assert(final(s)@ =~= start + zero_padded(n as nat, width as nat));
}

/// Whether two strings hold the same characters.
pub fn same_text(a: &str, b: &str) -> (r: bool)
    ensures
        r == (a@ == b@),
{
    let n = a.unicode_len();
    if n != b.unicode_len() {
        return false;
    }
    let mut i: usize = 0;
    while i < n
        invariant
            n == a@.len(),
            n == b@.len(),
            i <= n,
            forall|k: int| 0 <= k < i ==> a@[k] == b@[k],
        decreases n - i,
    {
        if a.get_char(i) != b.get_char(i) {
            return false;
        }
        i = i + 1;
    }
    assert(a@ =~= b@);
    true
}

} // verus!
