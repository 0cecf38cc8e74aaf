use vstd::prelude::*;

use crate::CompileError;

verus! {

/// Value of a big-endian sequence of base-10 digit values.
pub open spec fn dec_val(s: Seq<u8>) -> nat
    decreases s.len(),
{
    if s.len() == 0 {
        0
    } else {
        dec_val(s.drop_last()) * 10 + s.last() as nat
    }
}

/// Every element is a base-10 digit value.
pub open spec fn all_digits(s: Seq<u8>) -> bool {
    forall|i: int| 0 <= i < s.len() ==> s[i] < 10
}

/// The digits of the largest value a 256-bit word holds.
pub open spec fn max_word_digits() -> Seq<u8> {
    seq![
        1u8, 1, 5, 7, 9, 2, 0, 8, 9, 2, 3, 7, 3, 1, 6, 1, 9, 5, 4, 2, 3, 5, 7, 0, 9, 8,
        5, 0, 0, 8, 6, 8, 7, 9, 0, 7, 8, 5, 3, 2, 6, 9, 9, 8, 4, 6, 6, 5, 6, 4, 0, 5,
        6, 4, 0, 3, 9, 4, 5, 7, 5, 8, 4, 0, 0, 7, 9, 1, 3, 1, 2, 9, 6, 3, 9, 9, 3, 5,
    ]
}

/// Lexicographic comparison of two digit sequences of equal length, from
/// position `i` on.
pub open spec fn lex_le_from(a: Seq<u8>, b: Seq<u8>, i: int) -> bool
    decreases a.len() - i,
{
    if i < 0 || i >= a.len() || i >= b.len() {
        true
    } else if a[i] < b[i] {
        true
    } else if a[i] > b[i] {
        false
    } else {
        lex_le_from(a, b, i + 1)
    }
}

/// A canonical digit sequence: nonempty, no leading zero (except the single
/// digit zero itself), and no larger than the largest 256-bit value.
pub open spec fn canonical_digits(s: Seq<u8>) -> bool {
    &&& all_digits(s)
    &&& s.len() >= 1
    &&& s.len() > 1 ==> s[0] != 0
    &&& s.len() < 78 || (s.len() == 78 && lex_le_from(s, max_word_digits(), 0))
}

/// A 256-bit unsigned literal, kept as its canonical decimal digits.
#[derive(Debug, PartialEq, Eq)]
pub struct Numeral {
    pub digits: Vec<u8>,
}

impl Clone for Numeral {
    /// An identical literal.
    fn clone(&self) -> (r: Numeral)
        ensures
            r.digits@ == self.digits@,
    {
        let digits = self.digits.clone();
        proof {
            assert(digits@ =~= self.digits@);
        }
        Numeral { digits }
    }
}

impl Numeral {
    /// The mathematical value of the literal.
    pub open spec fn val(self) -> nat {
        dec_val(self.digits@)
    }

    pub open spec fn wf(self) -> bool {
        canonical_digits(self.digits@)
    }
}

/// The digits of a 64-bit value, most significant first.
pub open spec fn u64_digits(v: nat) -> Seq<u8>
    decreases v,
{
    if v < 10 {
        seq![v as u8]
    } else {
        u64_digits(v / 10) + seq![(v % 10) as u8]
    }
}

pub proof fn lemma_u64_digits_val(v: nat)
    ensures
        dec_val(u64_digits(v)) == v,
        all_digits(u64_digits(v)),
        u64_digits(v).len() >= 1,
        u64_digits(v)[0] < 10,
    decreases v,
{
    assert(dec_val(Seq::<u8>::empty()) == 0);
    if v < 10 {
        assert(u64_digits(v).drop_last() =~= Seq::<u8>::empty());
        assert(dec_val(u64_digits(v)) == dec_val(Seq::<u8>::empty()) * 10 + u64_digits(v).last());
    } else {
        lemma_u64_digits_val(v / 10);
        assert((u64_digits(v / 10) + seq![(v % 10) as u8]).drop_last() =~= u64_digits(v / 10));
        assert(dec_val(u64_digits(v)) == dec_val(u64_digits(v / 10)) * 10 + u64_digits(v).last());
        assert(u64_digits(v).last() == (v % 10) as u8);
    }
}

pub proof fn lemma_u64_digits_leading(v: nat)
    ensures
        u64_digits(v).len() > 1 ==> u64_digits(v)[0] != 0,
    decreases v,
{
    if v >= 10 {
        lemma_u64_digits_leading(v / 10);
        assert(u64_digits(v)[0] == u64_digits(v / 10)[0]);
        if v / 10 < 10 {
            assert(u64_digits(v / 10) =~= seq![(v / 10) as u8]);
        } else {
            lemma_u64_digits_val(v / 10 / 10);
            assert(u64_digits(v / 10).len() > 1);
        }
    }
}

pub open spec fn pow10(k: nat) -> nat
    decreases k,
{
    if k == 0 {
        1
    } else {
        10 * pow10((k - 1) as nat)
    }
}

pub proof fn lemma_u64_digits_len(v: nat, k: nat)
    requires
        k >= 1,
        v < pow10(k),
    ensures
        u64_digits(v).len() <= k,
    decreases v,
{
    if v >= 10 {
        assert(pow10(k) == 10 * pow10((k - 1) as nat));
        assert(v / 10 < pow10((k - 1) as nat));
        assert(k >= 2) by {
            reveal_with_fuel(pow10, 2);
            if k == 1 {
                assert(pow10(1) == 10);
            }
        }
        lemma_u64_digits_len(v / 10, (k - 1) as nat);
    }
}

/// Append the decimal digits of `v` to `out`.
fn push_digits(v: u64, out: &mut Vec<u8>)
    ensures
        final(out)@ == old(out)@ + u64_digits(v as nat),
    decreases v,
{
    if v >= 10 {
        push_digits(v / 10, out);
    }
    out.push((v % 10) as u8);
    assert(out@ =~= old(out)@ + u64_digits(v as nat));
}

impl Numeral {
    /// The literal whose value is the given 64-bit integer.
    pub fn from_u64(v: u64) -> (r: Numeral)
        ensures
            r.wf(),
            r.val() == v,
            r.digits@ == u64_digits(v as nat),
    {
        let mut digits: Vec<u8> = Vec::new();
        push_digits(v, &mut digits);
        proof {
            lemma_u64_digits_val(v as nat);
            lemma_u64_digits_leading(v as nat);
            assert(v < pow10(20)) by {
                reveal_with_fuel(pow10, 21);
            }
            lemma_u64_digits_len(v as nat, 20);
            assert(digits@ =~= u64_digits(v as nat));
        }
        Numeral { digits }
    }
}

/// Dropping a leading zero keeps the value.
pub proof fn lemma_drop_leading_zero(s: Seq<u8>)
    requires
        s.len() >= 1,
        s[0] == 0,
    ensures
        dec_val(s) == dec_val(s.skip(1)),
    decreases s.len(),
{
    if s.len() == 1 {
        assert(s.drop_last() =~= Seq::<u8>::empty());
        assert(s.skip(1) =~= Seq::<u8>::empty());
    } else {
        assert(s.drop_last()[0] == 0);
        lemma_drop_leading_zero(s.drop_last());
        assert(s.drop_last().skip(1) =~= s.skip(1).drop_last());
        assert(s.skip(1).last() == s.last());
    }
}

/// Digit values read from a sequence of ASCII digit characters.
pub open spec fn digit_vals(s: Seq<u8>) -> Seq<u8> {
    s.map(|_i: int, c: u8| (c - 48) as u8)
}

/// Every element is an ASCII decimal digit.
pub open spec fn all_ascii_digits(s: Seq<u8>) -> bool {
    forall|i: int| 0 <= i < s.len() ==> 48 <= #[trigger] s[i] <= 57
}

/// Leading zeros removed, down to a single digit.
pub open spec fn strip_zeros(s: Seq<u8>) -> Seq<u8>
    decreases s.len(),
{
    if s.len() > 1 && s[0] == 0 {
        strip_zeros(s.skip(1))
    } else {
        s
    }
}

pub proof fn lemma_strip_zeros(s: Seq<u8>)
    requires
        s.len() >= 1,
    ensures
        dec_val(strip_zeros(s)) == dec_val(s),
        strip_zeros(s).len() >= 1,
        strip_zeros(s).len() <= s.len(),
        all_digits(s) ==> all_digits(strip_zeros(s)),
        strip_zeros(s).len() > 1 ==> strip_zeros(s)[0] != 0,
    decreases s.len(),
{
    if s.len() > 1 && s[0] == 0 {
        lemma_drop_leading_zero(s);
        lemma_strip_zeros(s.skip(1));
    }
}

/// Whether a stripped digit sequence names a value that fits in 256 bits.
pub open spec fn stripped_fits(s: Seq<u8>) -> bool {
    strip_zeros(s).len() < 78 || (strip_zeros(s).len() == 78
        && lex_le_from(strip_zeros(s), max_word_digits(), 0))
}

fn lex_le_exec(a: &[u8], b: &[u8], i: usize) -> (r: bool)
    requires
        a@.len() == b@.len(),
        i <= a@.len(),
    ensures
        r == lex_le_from(a@, b@, i as int),
    decreases a@.len() - i,
{
    if i >= a.len() {
        true
    } else if a[i] < b[i] {
        true
    } else if a[i] > b[i] {
        false
    } else {
        lex_le_exec(a, b, i + 1)
    }
}

impl Numeral {
    /// Read a literal from ASCII text: every byte must be a decimal digit and
    /// the value must fit in 256 bits; leading zeros are dropped.
    pub fn from_ascii(s: &[u8]) -> (r: Result<Numeral, CompileError>)
        ensures
            r matches Ok(n) ==> {
                &&& n.wf()
                &&& s@.len() >= 1
                &&& all_ascii_digits(s@)
                &&& n.digits@ == strip_zeros(digit_vals(s@))
                &&& n.val() == dec_val(digit_vals(s@))
            },
            r is Ok <==> (s@.len() >= 1 && all_ascii_digits(s@) && stripped_fits(digit_vals(s@))),
            r matches Err(e) ==> e == CompileError::Parse,
    {
        if s.len() == 0 {
            return Err(CompileError::Parse);
        }
        let mut vals: Vec<u8> = Vec::new();
        let mut i: usize = 0;
        while i < s.len()
            invariant
                i <= s@.len(),
                vals@ =~= digit_vals(s@.take(i as int)),
                forall|j: int| 0 <= j < i ==> 48 <= #[trigger] s@[j] <= 57,
            decreases s@.len() - i,
        {
            let c = s[i];
            if c < 48 || c > 57 {
                return Err(CompileError::Parse);
            }
            vals.push(c - 48);
            proof {
                assert(vals@ =~= digit_vals(s@.take(i + 1 as int)));
            }
            i += 1;
        }
        proof {
            assert(s@.take(s@.len() as int) =~= s@);
            assert(vals@.len() == s@.len());
            assert(vals@.skip(0) =~= vals@);
        }
        let mut start: usize = 0;
        while start < vals.len() - 1 && vals[start] == 0
            invariant
                vals@.len() >= 1,
                start < vals@.len(),
                vals@.len() == s@.len(),
                strip_zeros(vals@) == strip_zeros(vals@.skip(start as int)),
            decreases vals@.len() - start,
        {
            proof {
                assert(vals@.skip(start as int).skip(1) =~= vals@.skip(start + 1 as int));
            }
            start += 1;
        }
        proof {
            assert(strip_zeros(vals@.skip(start as int)) =~= vals@.skip(start as int));
        }
        let mut digits: Vec<u8> = Vec::new();
        let mut j: usize = start;
        while j < vals.len()
            invariant
                start <= j <= vals@.len(),
                digits@ =~= vals@.subrange(start as int, j as int),
            decreases vals@.len() - j,
        {
            digits.push(vals[j]);
            j += 1;
        }
        proof {
            assert(digits@ =~= vals@.skip(start as int));
            lemma_strip_zeros(vals@);
        }
        if digits.len() > 78 {
            return Err(CompileError::Parse);
        }
        if digits.len() == 78 {
            let max: [u8; 78] = [
                1, 1, 5, 7, 9, 2, 0, 8, 9, 2, 3, 7, 3, 1, 6, 1, 9, 5, 4, 2, 3, 5, 7, 0, 9, 8,
                5, 0, 0, 8, 6, 8, 7, 9, 0, 7, 8, 5, 3, 2, 6, 9, 9, 8, 4, 6, 6, 5, 6, 4, 0, 5,
                6, 4, 0, 3, 9, 4, 5, 7, 5, 8, 4, 0, 0, 7, 9, 1, 3, 1, 2, 9, 6, 3, 9, 9, 3, 5,
            ];
            proof {
                assert(max@ =~= max_word_digits());
            }
            if !lex_le_exec(digits.as_slice(), max.as_slice(), 0) {
                return Err(CompileError::Parse);
            }
        }
        Ok(Numeral { digits })
    }
}

} // verus!
