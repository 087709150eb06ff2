//! # Displaying values
use crate::bits::bits_of;
use crate::model::Val;
use crate::types::{Final, Ty};
use crate::value_compact::{ValueCompact, ValueRef};
use crate::value_laws::{byte_bit, lemma_byte_bit};
use vstd::prelude::*;
use vstd::string::StringExecFns;

verus! {

/// The type is `2^(2^n)` for a small `n`. Its values are displayed as numbers.
pub open spec fn is_number(ty: Ty) -> bool {
    ty.word_exponent() matches Some(n) && n < 32
}

/// One binary digit for each bit.
pub open spec fn binary_text(bits: Seq<bool>) -> Seq<char> {
    bits.map_values(
        |bit: bool|
            if bit {
                '1'
            } else {
                '0'
            },
    )
}

/// The number that four bits spell.
pub open spec fn nibble(a: bool, b: bool, c: bool, d: bool) -> int {
    (if a {
        8int
    } else {
        0
    }) + (if b {
        4int
    } else {
        0
    }) + (if c {
        2int
    } else {
        0
    }) + (if d {
        1int
    } else {
        0
    })
}

/// One hexadecimal digit for each four bits.
pub open spec fn hex_text(bits: Seq<bool>) -> Seq<char>
    decreases bits.len(),
{
    if bits.len() < 4 {
        Seq::empty()
    } else {
        seq!["0123456789abcdef"@[nibble(bits[0], bits[1], bits[2], bits[3])]] + hex_text(
            bits.skip(4),
        )
    }
}

/// The text for a value of the given type.
///
/// - The unit is `ε`.
/// - Numbers of less than four bits are `0b` and their binary digits.
/// - Longer numbers are `0x` and their hexadecimal digits.
/// - Other values are `L(l)`, `R(r)` or `(l,r)`.
pub open spec fn display(ty: Ty, val: Val) -> Seq<char>
    decreases ty,
{
    if ty is Unit {
        "ε"@
    } else if is_number(ty) {
        if ty.width() < 4 {
            "0b"@ + binary_text(val.bits())
        } else {
            "0x"@ + hex_text(val.bits())
        }
    } else {
        match (ty, val) {
            (Ty::Sum(a, _), Val::Left(v)) => "L("@ + display(*a, *v) + ")"@,
            (Ty::Sum(_, b), Val::Right(v)) => "R("@ + display(*b, *v) + ")"@,
            (Ty::Product(a, b), Val::Pair(v, w)) => "("@ + display(*a, *v) + ","@ + display(*b, *w)
                + ")"@,
            _ => Seq::empty(),
        }
    }
}

/// A part of the text that is still to be written.
enum Part<'v> {
    Disp(ValueRef<'v>),
    Text(&'static str),
}

impl<'v> Part<'v> {
    spec fn text(self) -> Seq<char> {
        match self {
            Part::Disp(value) => display(value@.ty, value@.val),
            Part::Text(text) => text@,
        }
    }

    spec fn steps(self) -> nat {
        match self {
            Part::Disp(value) => 4 * value@.ty.nodes(),
            Part::Text(_) => 1,
        }
    }
}

/// The text of all parts, the last one first.
spec fn all_text(parts: Seq<Part>) -> Seq<char>
    decreases parts.len(),
{
    if parts.len() == 0 {
        Seq::empty()
    } else {
        parts.last().text() + all_text(parts.drop_last())
    }
}

spec fn all_steps(parts: Seq<Part>) -> nat
    decreases parts.len(),
{
    if parts.len() == 0 {
        0
    } else {
        parts.last().steps() + all_steps(parts.drop_last())
    }
}

proof fn lemma_push(parts: Seq<Part>, part: Part)
    ensures
        all_text(parts.push(part)) == part.text() + all_text(parts),
        all_steps(parts.push(part)) == part.steps() + all_steps(parts),
{
    assert(parts.push(part).drop_last() =~= parts);
}

/// The hexadecimal digit for a number below sixteen.
fn hex_digit(n: u8) -> (res: &'static str)
    requires
        n < 16,
    ensures
        res@ == seq!["0123456789abcdef"@[n as int]],
{
    proof {
        reveal_strlit("0123456789abcdef");
        reveal_strlit("0");
        reveal_strlit("1");
        reveal_strlit("2");
        reveal_strlit("3");
        reveal_strlit("4");
        reveal_strlit("5");
        reveal_strlit("6");
        reveal_strlit("7");
        reveal_strlit("8");
        reveal_strlit("9");
        reveal_strlit("a");
        reveal_strlit("b");
        reveal_strlit("c");
        reveal_strlit("d");
        reveal_strlit("e");
        reveal_strlit("f");
    }
    let res = match n {
        0 => "0",
        1 => "1",
        2 => "2",
        3 => "3",
        4 => "4",
        5 => "5",
        6 => "6",
        7 => "7",
        8 => "8",
        9 => "9",
        10 => "a",
        11 => "b",
        12 => "c",
        13 => "d",
        14 => "e",
        _ => "f",
    };
    assert(res@ =~= seq!["0123456789abcdef"@[n as int]]);
    res
}

/// Write the bits as binary digits.
fn write_binary(out: &mut String, bits: &Vec<bool>)
    ensures
        final(out)@ == old(out)@ + binary_text(bits@),
{
    let ghost start = out@;
    let mut i: usize = 0;
    assert(start + binary_text(bits@.take(0)) =~= start);
    while i < bits.len()
        invariant
            i <= bits@.len(),
            out@ == start + binary_text(bits@.take(i as int)),
        decreases bits@.len() - i,
    {
        proof {
            reveal_strlit("1");
            reveal_strlit("0");
        }
        if bits[i] {
            out.append("1");
        } else {
            out.append("0");
        }
        i = i + 1;
        assert(out@ =~= start + binary_text(bits@.take(i as int)));
    }
    assert(bits@.take(i as int) =~= bits@);
}

/// Write the bits as hexadecimal digits.
fn write_hex(out: &mut String, bits: &Vec<bool>)
    ensures
        final(out)@ == old(out)@ + hex_text(bits@),
{
    let ghost start = out@;
    let mut i: usize = 0;
    assert(bits@.skip(0) =~= bits@);
    while bits.len() - i >= 4
        invariant
            i <= bits@.len(),
            start + hex_text(bits@) == out@ + hex_text(bits@.skip(i as int)),
        decreases bits@.len() - i,
    {
        let n: u8 = (if bits[i] {
            8
        } else {
            0
        }) + (if bits[i + 1] {
            4
        } else {
            0
        }) + (if bits[i + 2] {
            2
        } else {
            0
        }) + (if bits[i + 3] {
            1
        } else {
            0
        });
        let ghost before = out@;
        let ghost rest = bits@.skip(i as int);
        out.append(hex_digit(n));
        i = i + 4;
        proof {
            assert(rest.skip(4) =~= bits@.skip(i as int));
            assert(before + hex_text(rest) =~= out@ + hex_text(rest.skip(4)));
        }
    }
    assert(out@ + hex_text(bits@.skip(i as int)) =~= out@);
}

/// Write a side of a sum and a closing bracket next.
fn push_side<'v>(stack: &mut Vec<Part<'v>>, side: ValueRef<'v>)
    ensures
        all_text(final(stack)@) == display(side@.ty, side@.val) + ")"@ + all_text(old(stack)@),
        all_steps(final(stack)@) == 4 * side@.ty.nodes() + 1 + all_steps(old(stack)@),
{
    let ghost rest = stack@;
    stack.push(Part::Text(")"));
    stack.push(Part::Disp(side));
    proof {
        lemma_push(rest, Part::Text(")"));
        lemma_push(rest.push(Part::Text(")")), Part::Disp(side));
        assert(all_text(stack@) =~= display(side@.ty, side@.val) + ")"@ + all_text(rest));
    }
}

/// Write both parts of a product in brackets next.
fn push_pair<'v>(stack: &mut Vec<Part<'v>>, left: ValueRef<'v>, right: ValueRef<'v>)
    ensures
        all_text(final(stack)@) == "("@ + display(left@.ty, left@.val) + ","@ + display(
            right@.ty,
            right@.val,
        ) + ")"@ + all_text(old(stack)@),
        all_steps(final(stack)@) == 4 * left@.ty.nodes() + 4 * right@.ty.nodes() + 3 + all_steps(
            old(stack)@,
        ),
{
    let ghost rest = stack@;
    push_side(stack, right);
    let ghost s2 = stack@;
    stack.push(Part::Text(","));
    let ghost s3 = stack@;
    stack.push(Part::Disp(left));
    let ghost s4 = stack@;
    stack.push(Part::Text("("));
    proof {
        let l = display(left@.ty, left@.val);
        let r = display(right@.ty, right@.val);
        lemma_push(s2, Part::Text(","));
        lemma_push(s3, Part::Disp(left));
        lemma_push(s4, Part::Text("("));
        assert(all_text(stack@) =~= "("@ + l + ","@ + r + ")"@ + all_text(rest));
    }
}

impl ValueCompact {
    /// The text for the value.
    pub fn to_string(&self) -> (res: String)
        ensures
            res@ == display(self@.ty, self@.val),
    {
        let ghost goal = display(self@.ty, self@.val);
        let mut out = String::new();
        let mut stack: Vec<Part> = Vec::new();
        stack.push(Part::Disp(self.as_ref()));
        proof {
            let part = stack@[0];
            assert(stack@ =~= Seq::empty().push(part));
            lemma_push(Seq::empty(), part);
            assert(out@ + all_text(stack@) =~= goal);
        }
        while stack.len() > 0
            invariant
                out@ + all_text(stack@) == goal,
            decreases all_steps(stack@),
        {
            let ghost before = stack@;
            let ghost written = out@;
            let part = stack.pop().unwrap();
            let ghost rest = stack@;
            proof {
                assert(before == rest.push(part));
                lemma_push(rest, part);
            }
            match part {
                Part::Text(text) => {
                    out.append(text);
                    assert(out@ + all_text(rest) =~= written + all_text(before));
                },
                Part::Disp(value) => {
                    proof {
                        use_type_invariant(&value);
                    }
                    let number = match value.ty().word_exponent() {
                        Some(n) => n < 32,
                        None => false,
                    };
                    if value.is_unit() {
                        out.append("ε");
                        assert(out@ + all_text(rest) =~= written + all_text(before));
                    } else if number {
                        if value.ty().bit_width() < 4 {
                            out.append("0b");
                            write_binary(&mut out, &value.iter_bits());
                        } else {
                            out.append("0x");
                            write_hex(&mut out, &value.iter_bits());
                        }
                        assert(out@ + all_text(rest) =~= written + all_text(before));
                    } else if let Some(l_value) = value.as_left() {
                        out.append("L(");
                        push_side(&mut stack, l_value);
                        assert(out@ + all_text(stack@) =~= written + all_text(before));
                    } else if let Some(r_value) = value.as_right() {
                        out.append("R(");
                        push_side(&mut stack, r_value);
                        assert(out@ + all_text(stack@) =~= written + all_text(before));
                    } else if let Some((l_value, r_value)) = value.as_product() {
                        push_pair(&mut stack, l_value, r_value);
                        assert(out@ + all_text(stack@) =~= written + all_text(before));
                    } else {
                        // A value has the structure of its type.
                        assert(false);
                    }
                },
            }
        }
        assert(out@ + all_text(stack@) =~= out@);
        out
    }
}

/// `std::fmt::Formatter`: where formatted text goes. Nothing is claimed of it.
#[verifier::external_type_specification]
#[verifier::external_body]
pub struct ExFormatter<'a>(std::fmt::Formatter<'a>);

/// `std::fmt::Error`: that text could not be written. Nothing is claimed of it.
#[verifier::external_type_specification]
#[verifier::external_body]
pub struct ExFmtError(std::fmt::Error);

/// `std::fmt::Formatter::write_str` writes text to the formatter. Nothing is claimed of what the
/// formatter then holds, nor of whether it could be written.
pub assume_specification<'a>[ std::fmt::Formatter::<'a>::write_str ](
    f: &mut std::fmt::Formatter<'a>,
    data: &str,
) -> (res: std::fmt::Result)
;

/// `std::fmt::Debug::fmt` writes a value to the formatter. Nothing is claimed of what the formatter
/// then holds, nor of whether it could be written.
#[verifier::external_body]
fn write_debug<T: std::fmt::Debug>(value: &T, f: &mut std::fmt::Formatter<'_>) -> std::fmt::Result {
    value.fmt(f)
}

/// Text that is written without quotes.
struct Plain(String);

impl std::fmt::Debug for Plain {
    fn fmt(&self, f: &mut std::fmt::Formatter<'_>) -> std::fmt::Result {
        f.write_str(self.0.as_str())
    }
}

/// What is written of a value for debugging.
#[allow(dead_code)]
#[derive(Debug)]
struct Value<'v> {
    value: Plain,
    ty: &'v Final,
    raw_value: &'v [u8],
    compact_bits: usize,
}

impl ValueCompact {
    /// What is written of the value for debugging: its text, its type, its whole buffer and the
    /// number of its bits.
    fn debugged(&self) -> (res: Value<'_>)
        ensures
            res.value.0@ == display(self@.ty, self@.val),
            res.ty@ == self@.ty,
            bits_of(res.raw_value@) == self@.raw,
            res.compact_bits == self@.val.size(),
    {
        Value {
            value: Plain(self.to_string()),
            ty: self.ty(),
            raw_value: self.raw_buffer(),
            compact_bits: self.len(),
        }
    }
}

/// What is written of a value for debugging is what its functions give. The buffer has as many bits
/// as they count.
proof fn debugged_values_agree(
    v: ValueCompact,
    debugged: Value<'_>,
    text: String,
    ty: &Final,
    len: usize,
    raw_len: usize,
)
    requires
        call_ensures(ValueCompact::debugged, (&v,), debugged),
        call_ensures(ValueCompact::to_string, (&v,), text),
        call_ensures(ValueCompact::ty, (&v,), ty),
        call_ensures(ValueCompact::len, (&v,), len),
        call_ensures(ValueCompact::raw_len, (&v,), raw_len),
    ensures
        debugged.value.0@ == text@,
        debugged.ty@ == ty@,
        debugged.compact_bits == len,
        8 * debugged.raw_value@.len() == raw_len,
        forall|i: int|
            0 <= i < raw_len ==> #[trigger] byte_bit(debugged.raw_value@, i) == v@.raw[i],
{
    assert(bits_of(debugged.raw_value@).len() == 8 * debugged.raw_value@.len());
    assert forall|i: int| 0 <= i < raw_len implies #[trigger] byte_bit(debugged.raw_value@, i)
        == v@.raw[i] by {
        lemma_byte_bit(debugged.raw_value@, i);
    }
}

impl std::fmt::Debug for ValueCompact {
    fn fmt(&self, f: &mut std::fmt::Formatter<'_>) -> std::fmt::Result {
        write_debug(&self.debugged(), f)
    }
}

} // verus!
