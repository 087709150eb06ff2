//! # Laws of the text of values
//!
//! What [`ValueCompact::to_string`] gives for a value, in terms of its bits and of the text of its
//! parts. `call_ensures(f, args, res)` reads: a call of `f` with these arguments can give `res`.
use crate::display::{binary_text, hex_text, is_number, nibble};
use crate::laws::words_have_no_padding;
use crate::types::{lemma_word, lemma_word_exponent, Final, Ty};
use crate::value_compact::{ValueCompact, ValueRef};
use crate::value_laws::{are_digits, has_bits, lemma_bits};
use vstd::arithmetic::power2::{
    lemma2_to64, lemma_pow2_adds, lemma_pow2_pos, lemma_pow2_unfold, pow2,
};
use vstd::prelude::*;

verus! {

/// The text of a unit value is `ε`.
pub proof fn unit_text(v: ValueCompact, text: String)
    requires
        v@.ty is Unit,
        call_ensures(ValueCompact::to_string, (&v,), text),
    ensures
        text@ == seq!['ε'],
{
    reveal_strlit("ε");
    assert(text@ =~= seq!['ε']);
}

/// The text of a left value is the text of its inner value inside of `L(` and `)`, whatever the
/// types of the sides are. Bits alone are numbers.
pub proof fn left_text(
    v: ValueCompact,
    text: String,
    whole: ValueRef<'_>,
    part: ValueRef<'_>,
    inner: ValueCompact,
    inner_text: String,
)
    requires
        v.inv(),
        v@.ty matches Ty::Sum(a, b) && !(*a is Unit && *b is Unit),
        call_ensures(ValueCompact::to_string, (&v,), text),
        call_ensures(ValueCompact::as_ref, (&v,), whole),
        call_ensures(ValueRef::as_left, (&whole,), Some(part)),
        call_ensures(ValueRef::to_value, (&part,), inner),
        call_ensures(ValueCompact::to_string, (&inner,), inner_text),
    ensures
        text@ == seq!['L', '('] + inner_text@ + seq![')'],
{
    reveal_strlit("L(");
    reveal_strlit(")");
    assert(text@ =~= seq!['L', '('] + inner_text@ + seq![')']);
}

/// The text of a right value is the text of its inner value inside of `R(` and `)`, whatever the
/// types of the sides are. Bits alone are numbers.
pub proof fn right_text(
    v: ValueCompact,
    text: String,
    whole: ValueRef<'_>,
    part: ValueRef<'_>,
    inner: ValueCompact,
    inner_text: String,
)
    requires
        v.inv(),
        v@.ty matches Ty::Sum(a, b) && !(*a is Unit && *b is Unit),
        call_ensures(ValueCompact::to_string, (&v,), text),
        call_ensures(ValueCompact::as_ref, (&v,), whole),
        call_ensures(ValueRef::as_right, (&whole,), Some(part)),
        call_ensures(ValueRef::to_value, (&part,), inner),
        call_ensures(ValueCompact::to_string, (&inner,), inner_text),
    ensures
        text@ == seq!['R', '('] + inner_text@ + seq![')'],
{
    reveal_strlit("R(");
    reveal_strlit(")");
    assert(text@ =~= seq!['R', '('] + inner_text@ + seq![')']);
}

/// A left value and a right value never have the same text.
pub proof fn sides_have_different_texts(
    l: ValueCompact,
    l_bits: Seq<bool>,
    l_text: String,
    r: ValueCompact,
    r_bits: Seq<bool>,
    r_text: String,
)
    requires
        l.inv(),
        r.inv(),
        l@.ty is Sum,
        r@.ty is Sum,
        has_bits(l, l_bits),
        has_bits(r, r_bits),
        !l_bits[0],
        r_bits[0],
        call_ensures(ValueCompact::to_string, (&l,), l_text),
        call_ensures(ValueCompact::to_string, (&r,), r_text),
    ensures
        l_text@ != r_text@,
{
    lemma_bits(l, l_bits);
    lemma_bits(r, r_bits);
    reveal_strlit("L(");
    reveal_strlit("R(");
    reveal_strlit("0b");
    let (s, t) = (l_text@, r_text@);
    lemma_word(0);
    lemma2_to64();
    if is_number(l@.ty) {
        lemma_word_exponent(l@.ty);
        assert(s == "0b"@ + binary_text(l_bits));
        assert(s[0] == '0');
        assert(s[2] == '0');
    } else {
        assert(s[0] == 'L');
    }
    if is_number(r@.ty) {
        lemma_word_exponent(r@.ty);
        assert(t == "0b"@ + binary_text(r_bits));
        assert(t[0] == '0');
        assert(t[2] == '1');
    } else {
        assert(t[0] == 'R');
    }
}

/// The text of a product that is no number is the text of its parts inside of brackets, with a comma
/// between them.
pub proof fn product_text(
    v: ValueCompact,
    text: String,
    ty: &Final,
    word: Option<usize>,
    whole: ValueRef<'_>,
    parts: (ValueRef<'_>, ValueRef<'_>),
    left: ValueCompact,
    left_text: String,
    right: ValueCompact,
    right_text: String,
)
    requires
        v.inv(),
        v@.ty is Product,
        call_ensures(ValueCompact::to_string, (&v,), text),
        call_ensures(ValueCompact::ty, (&v,), ty),
        call_ensures(Final::word_exponent, (ty,), word),
        word matches Some(n) ==> n >= 32,
        call_ensures(ValueCompact::as_ref, (&v,), whole),
        call_ensures(ValueRef::as_product, (&whole,), Some(parts)),
        call_ensures(ValueRef::to_value, (&parts.0,), left),
        call_ensures(ValueCompact::to_string, (&left,), left_text),
        call_ensures(ValueRef::to_value, (&parts.1,), right),
        call_ensures(ValueCompact::to_string, (&right,), right_text),
    ensures
        text@ == seq!['('] + left_text@ + seq![','] + right_text@ + seq![')'],
{
    reveal_strlit("(");
    reveal_strlit(",");
    reveal_strlit(")");
    assert(text@ =~= seq!['('] + left_text@ + seq![','] + right_text@ + seq![')']);
}

/// The text of a number of one or two bits is `0b`, followed by a digit for each bit.
pub proof fn binary_number_text(
    v: ValueCompact,
    text: String,
    ty: &Final,
    word: Option<usize>,
    bits: Seq<bool>,
)
    requires
        v.inv(),
        call_ensures(ValueCompact::to_string, (&v,), text),
        call_ensures(ValueCompact::ty, (&v,), ty),
        call_ensures(Final::word_exponent, (ty,), word),
        word matches Some(n) && n < 2,
        has_bits(v, bits),
    ensures
        text@.len() == 2 + bits.len(),
        text@[0] == '0',
        text@[1] == 'b',
        forall|i: int|
            0 <= i < bits.len() ==> (#[trigger] bits[i] ==> text@[2 + i] == '1') && (!bits[i]
                ==> text@[2 + i] == '0'),
{
    lemma_bits(v, bits);
    lemma_word(word->0 as nat);
    lemma2_to64();
    reveal_strlit("0b");
    assert(text@ == "0b"@ + binary_text(bits));
}

/// The hexadecimal digit for a number below sixteen, as a character code: `0` to `9` and then `a` to
/// `f`.
pub open spec fn hex_code(d: nat) -> nat {
    if d < 10 {
        48 + d
    } else {
        87 + d
    }
}

/// One as a number, and zero.
pub open spec fn one(bit: bool) -> nat {
    if bit {
        1
    } else {
        0
    }
}

/// The text of a number of four bits or more is `0x`, followed by a digit for each four bits. The
/// digit at each place is the number that the four bits at that place spell.
pub proof fn hex_number_text(
    v: ValueCompact,
    text: String,
    ty: &Final,
    word: Option<usize>,
    bits: Seq<bool>,
)
    requires
        v.inv(),
        call_ensures(ValueCompact::to_string, (&v,), text),
        call_ensures(ValueCompact::ty, (&v,), ty),
        call_ensures(Final::word_exponent, (ty,), word),
        word matches Some(n) && 2 <= n < 32,
        has_bits(v, bits),
    ensures
        4 * (text@.len() - 2) == bits.len(),
        text@[0] == '0',
        text@[1] == 'x',
        forall|k: int|
            0 <= 4 * k < bits.len() ==> #[trigger] text@[2 + k] as nat == hex_code(
                8 * one(bits[4 * k]) + 4 * one(bits[4 * k + 1]) + 2 * one(bits[4 * k + 2]) + one(
                    bits[4 * k + 3],
                ),
            ),
{
    let n = word->0 as nat;
    lemma_bits(v, bits);
    lemma_word(n);
    words_have_no_padding(v@.val, n);
    lemma2_to64();
    lemma_pow2_adds(2, (n - 2) as nat);
    lemma_pow2_pos((n - 2) as nat);
    assert(pow2(n) == 4 * pow2((n - 2) as nat));
    reveal_strlit("0x");
    lemma_hex(bits);
    assert(text@ == "0x"@ + hex_text(bits));
    assert forall|k: int| 0 <= 4 * k < bits.len() implies #[trigger] text@[2 + k] as nat
        == hex_code(
        8 * one(bits[4 * k]) + 4 * one(bits[4 * k + 1]) + 2 * one(bits[4 * k + 2]) + one(
            bits[4 * k + 3],
        ),
    ) by {
        assert(text@[2 + k] == hex_text(bits)[k]);
    }
}

proof fn lemma_hex(bits: Seq<bool>)
    requires
        bits.len() % 4 == 0,
    ensures
        4 * hex_text(bits).len() == bits.len(),
        forall|k: int|
            0 <= 4 * k < bits.len() ==> #[trigger] hex_text(bits)[k] as nat == hex_code(
                8 * one(bits[4 * k]) + 4 * one(bits[4 * k + 1]) + 2 * one(bits[4 * k + 2]) + one(
                    bits[4 * k + 3],
                ),
            ),
    decreases bits.len(),
{
    reveal_strlit("0123456789abcdef");
    if bits.len() >= 4 {
        let rest = bits.skip(4);
        lemma_hex(rest);
        assert forall|k: int| 0 <= 4 * k < bits.len() implies #[trigger] hex_text(bits)[k] as nat
            == hex_code(
            8 * one(bits[4 * k]) + 4 * one(bits[4 * k + 1]) + 2 * one(bits[4 * k + 2]) + one(
                bits[4 * k + 3],
            ),
        ) by {
            if k > 0 {
                assert(hex_text(bits)[k] == hex_text(rest)[k - 1]);
                assert(rest[4 * (k - 1)] == bits[4 * k]);
            } else {
                let d = nibble(bits[0], bits[1], bits[2], bits[3]);
                assert(hex_text(bits)[0] == "0123456789abcdef"@[d]);
            }
        }
    }
}

/// Reading the text of a number as a hexadecimal number gives the number back: the digit at each
/// place is the digit of the number at that place.
pub proof fn hex_text_reads_back(
    v: ValueCompact,
    text: String,
    ty: &Final,
    word: Option<usize>,
    bits: Seq<bool>,
    x: nat,
)
    requires
        v.inv(),
        call_ensures(ValueCompact::to_string, (&v,), text),
        call_ensures(ValueCompact::ty, (&v,), ty),
        call_ensures(Final::word_exponent, (ty,), word),
        word matches Some(n) && 2 <= n < 32,
        has_bits(v, bits),
        are_digits(bits, x),
    ensures
        forall|k: int|
            2 <= k < text@.len() ==> #[trigger] text@[k] as nat == hex_code(
                (x / pow2((4 * (text@.len() - 1 - k)) as nat)) % 16,
            ),
{
    hex_number_text(v, text, ty, word, bits);
    assert forall|k: int| 2 <= k < text@.len() implies #[trigger] text@[k] as nat == hex_code(
        (x / pow2((4 * (text@.len() - 1 - k)) as nat)) % 16,
    ) by {
        let i = 4 * (k - 2);
        let e = (bits.len() - 4 - i) as nat;
        assert(e == 4 * (text@.len() - 1 - k));
        assert(text@[2 + (k - 2)] == text@[k]);
        lemma_nibble(x, e);
        assert(bits[i] == ((x / pow2(e + 3)) % 2 == 1));
        assert(bits[i + 1] == ((x / pow2(e + 2)) % 2 == 1));
        assert(bits[i + 2] == ((x / pow2(e + 1)) % 2 == 1));
        assert(bits[i + 3] == ((x / pow2(e)) % 2 == 1));
    }
}

proof fn lemma_nibble(x: nat, e: nat)
    ensures
        (x / pow2(e)) % 16 == 8 * ((x / pow2(e + 3)) % 2) + 4 * ((x / pow2(e + 2)) % 2) + 2 * ((x
            / pow2(e + 1)) % 2) + (x / pow2(e)) % 2,
{
    lemma_halved(x, e);
    lemma_halved(x, e + 1);
    lemma_halved(x, e + 2);
    lemma_four_digits(
        (x / pow2(e)) as int,
        (x / pow2(e + 1)) as int,
        (x / pow2(e + 2)) as int,
        (x / pow2(e + 3)) as int,
    );
}

proof fn lemma_halved(x: nat, e: nat)
    ensures
        x / pow2(e + 1) == (x / pow2(e)) / 2,
{
    lemma_pow2_pos(e);
    lemma_pow2_unfold(e + 1);
    vstd::arithmetic::div_mod::lemma_div_denominator(x as int, pow2(e) as int, 2);
    assert(pow2(e + 1) == pow2(e) * 2);
}

proof fn lemma_four_digits(y: int, y1: int, y2: int, y3: int)
    requires
        y1 == y / 2,
        y2 == y1 / 2,
        y3 == y2 / 2,
    ensures
        y % 16 == 8 * (y3 % 2) + 4 * (y2 % 2) + 2 * (y1 % 2) + y % 2,
{
}

} // verus!
