//! The dynamically-typed scalar values a telemetry record carries, modeled as
//! a closed tagged variant, with the canonical text form of each value and
//! exact decimal rescaling of numbers by powers of ten.

use vstd::prelude::*;

use crate::chars::chars_to_string;

verus! {

/// A decimal number as it appears in a telemetry record: optional sign,
/// integer digits, fractional digits. `is_float` records whether the source
/// wrote it with a decimal point, which decides whether its text form keeps
/// one (`0` versus `0.0`).
pub struct Number {
    pub neg: bool,
    pub int_part: Vec<char>,
    pub frac_part: Vec<char>,
    pub is_float: bool,
}

/// Spec-level image of a `Number`.
pub struct NumberV {
    pub neg: bool,
    pub int_part: Seq<char>,
    pub frac_part: Seq<char>,
    pub is_float: bool,
}

impl View for Number {
    type V = NumberV;

    open spec fn view(&self) -> NumberV {
        NumberV {
            neg: self.neg,
            int_part: self.int_part@,
            frac_part: self.frac_part@,
            is_float: self.is_float,
        }
    }
}

pub open spec fn is_digit(c: char) -> bool {
    48 <= c as u32 && c as u32 <= 57  // '0'..='9'
}

pub open spec fn all_digits(s: Seq<char>) -> bool {
    forall|i: int| 0 <= i < s.len() ==> is_digit(#[trigger] s[i])
}

/// Validity of a number: digits are digits, the integer part is canonical
/// (non-empty, no leading zero unless it is just `0`), an integer-form number
/// has no fractional digits, the fraction carries no trailing zero, and the
/// total digit count leaves room for the point to move.
pub open spec fn num_wf(n: NumberV) -> bool {
    &&& all_digits(n.int_part)
    &&& all_digits(n.frac_part)
    &&& n.int_part.len() >= 1
    &&& (n.int_part.len() > 1 ==> n.int_part[0] != '0')
    &&& (!n.is_float ==> n.frac_part.len() == 0)
    &&& (n.frac_part.len() > 0 ==> n.frac_part[n.frac_part.len() - 1] != '0')
    &&& n.int_part.len() + n.frac_part.len() < 0x1000_0000
}

/// The canonical text of a number: sign, integer digits, and for float-form
/// numbers a point followed by the fractional digits (`0` if there are none).
pub open spec fn render_num(n: NumberV) -> Seq<char> {
    (if n.neg {
        seq!['-']
    } else {
        Seq::<char>::empty()
    }) + n.int_part + (if n.is_float {
        seq!['.'] + (if n.frac_part.len() == 0 {
            seq!['0']
        } else {
            n.frac_part
        })
    } else {
        Seq::<char>::empty()
    })
}

/// A scalar field value as received from the vendor: string, number, boolean
/// or null.
pub enum Scalar {
    Str(String),
    Num(Number),
    Bool(bool),
    Null,
}

/// Spec-level image of a `Scalar`.
pub enum ScalarV {
    Str(Seq<char>),
    Num(NumberV),
    Bool(bool),
    Null,
}

impl View for Scalar {
    type V = ScalarV;

    open spec fn view(&self) -> ScalarV {
        match self {
            Scalar::Str(s) => ScalarV::Str(s@),
            Scalar::Num(n) => ScalarV::Num(n@),
            Scalar::Bool(b) => ScalarV::Bool(*b),
            Scalar::Null => ScalarV::Null,
        }
    }
}

pub open spec fn scalar_wf(v: ScalarV) -> bool {
    match v {
        ScalarV::Num(n) => num_wf(n),
        _ => true,
    }
}

/// The string a scalar coerces to: a string value is taken as it is; any
/// other scalar becomes its canonical text form.
pub open spec fn coerce_spec(v: ScalarV) -> Seq<char> {
    match v {
        ScalarV::Str(s) => s,
        ScalarV::Num(n) => render_num(n),
        ScalarV::Bool(b) => if b {
            "true"@
        } else {
            "false"@
        },
        ScalarV::Null => "null"@,
    }
}

/// Appends every element of `src` to `dst`, in order.
pub fn push_all(dst: &mut Vec<char>, src: &Vec<char>)
    ensures
        final(dst)@ == old(dst)@ + src@,
{
    let mut j: usize = 0;
    while j < src.len()
        invariant
            j <= src@.len(),
            dst@ =~= old(dst)@ + src@.subrange(0, j as int),
        decreases src@.len() - j,
    {
        dst.push(src[j]);
        proof {
            assert(dst@ =~= old(dst)@ + src@.subrange(0, j + 1 as int));
        }
        j = j + 1;
    }
    proof {
        assert(dst@ =~= old(dst)@ + src@);
    }
}

/// Renders a number to its canonical text.
pub fn render_number(n: &Number) -> (r: String)
    ensures
        r@ == render_num(n@),
{
    let mut v: Vec<char> = Vec::new();
    if n.neg {
        v.push('-');
    }
    push_all(&mut v, &n.int_part);
    if n.is_float {
        v.push('.');
        if n.frac_part.len() == 0 {
            v.push('0');
        } else {
            push_all(&mut v, &n.frac_part);
        }
    }
    proof {
        assert(v@ =~= render_num(n@));
    }
    chars_to_string(&v)
}

/// Coerces a scalar to its string form.
pub fn coerce_to_string(v: &Scalar) -> (r: String)
    ensures
        r@ == coerce_spec(v@),
{
    match v {
        Scalar::Str(s) => s.clone(),
        Scalar::Num(n) => render_number(n),
        Scalar::Bool(b) => if *b {
            "true".to_owned()
        } else {
            "false".to_owned()
        },
        Scalar::Null => "null".to_owned(),
    }
}

pub open spec fn zero_chars(n: int) -> Seq<char> {
    Seq::new(if n >= 0 {
        n as nat
    } else {
        0
    }, |i: int| '0')
}

pub open spec fn strip_leading_zeros(s: Seq<char>) -> Seq<char>
    decreases s.len(),
{
    if s.len() <= 1 {
        s
    } else if s[0] == '0' {
        strip_leading_zeros(s.drop_first())
    } else {
        s
    }
}

pub open spec fn strip_trailing_zeros(s: Seq<char>) -> Seq<char>
    decreases s.len(),
{
    if s.len() == 0 {
        s
    } else if s[s.len() - 1] == '0' {
        strip_trailing_zeros(s.drop_last())
    } else {
        s
    }
}

/// Moving the decimal point of `n` by `k` places to the right (`k` may be
/// negative), with exact decimal arithmetic: the digits are padded with
/// zeros as needed, the point is re-placed, and the result is canonicalized.
/// The result is always float-form, as a rescaled reading is.
pub open spec fn scale_num(n: NumberV, k: int) -> NumberV {
    let all = n.int_part + n.frac_part;
    let p = n.int_part.len() + k;
    let lpad = if p < 1 {
        1 - p
    } else {
        0
    };
    let rpad = if p > all.len() {
        p - all.len()
    } else {
        0
    };
    let all2 = zero_chars(lpad) + all + zero_chars(rpad);
    let p2 = p + lpad;
    NumberV {
        neg: n.neg,
        int_part: strip_leading_zeros(all2.subrange(0, p2)),
        frac_part: strip_trailing_zeros(all2.subrange(p2, all2.len() as int)),
        is_float: true,
    }
}

proof fn lemma_strip_leading_at(s: Seq<char>, i: int)
    requires
        0 <= i < s.len(),
        forall|j: int| 0 <= j < i ==> s[j] == '0',
        i == s.len() - 1 || s[i] != '0',
    ensures
        strip_leading_zeros(s) == s.subrange(i, s.len() as int),
    decreases i,
{
    if i == 0 {
        if s.len() <= 1 {
            assert(s.subrange(0, s.len() as int) =~= s);
        } else {
            assert(s[0] != '0');
            assert(s.subrange(0, s.len() as int) =~= s);
        }
    } else {
        assert(s[0] == '0');
        assert(s.len() > 1);
        let t = s.drop_first();
        assert(forall|j: int| 0 <= j < i - 1 ==> t[j] == s[j + 1] && t[j] == '0');
        lemma_strip_leading_at(t, i - 1);
        assert(t.subrange(i - 1, t.len() as int) =~= s.subrange(i, s.len() as int));
    }
}

proof fn lemma_strip_trailing_at(s: Seq<char>, i: int)
    requires
        0 <= i <= s.len(),
        forall|j: int| i <= j < s.len() ==> s[j] == '0',
        i == 0 || s[i - 1] != '0',
    ensures
        strip_trailing_zeros(s) == s.subrange(0, i),
    decreases s.len() - i,
{
    if i == s.len() {
        if s.len() == 0 {
            assert(s.subrange(0, 0) =~= s);
        } else {
            assert(s[s.len() - 1] != '0');
            assert(s.subrange(0, s.len() as int) =~= s);
        }
    } else {
        assert(s[s.len() - 1] == '0');
        let t = s.drop_last();
        assert(forall|j: int| i <= j < t.len() ==> t[j] == s[j] && t[j] == '0');
        lemma_strip_trailing_at(t, i);
        assert(t.subrange(0, i) =~= s.subrange(0, i));
    }
}

/// Strips leading zero digits, keeping at least one digit.
fn strip_leading(v: Vec<char>) -> (r: Vec<char>)
    requires
        v@.len() >= 1,
    ensures
        r@ == strip_leading_zeros(v@),
{
    let mut i: usize = 0;
    while i < v.len() - 1 && v[i] == '0'
        invariant
            v@.len() >= 1,
            i < v@.len(),
            forall|j: int| 0 <= j < i ==> v@[j] == '0',
        decreases v@.len() - i,
    {
        i = i + 1;
    }
    proof {
        lemma_strip_leading_at(v@, i as int);
    }
    let mut r: Vec<char> = Vec::new();
    let mut j: usize = i;
    while j < v.len()
        invariant
            i <= j <= v@.len(),
            r@ =~= v@.subrange(i as int, j as int),
        decreases v@.len() - j,
    {
        r.push(v[j]);
        proof {
            assert(r@ =~= v@.subrange(i as int, j + 1 as int));
        }
        j = j + 1;
    }
    proof {
        assert(r@ =~= v@.subrange(i as int, v@.len() as int));
    }
    r
}

/// Strips trailing zero digits; may leave the sequence empty.
fn strip_trailing(mut v: Vec<char>) -> (r: Vec<char>)
    ensures
        r@ == strip_trailing_zeros(v@),
{
    let ghost orig = v@;
    let mut i: usize = v.len();
    while i > 0 && v[i - 1] == '0'
        invariant
            i <= v@.len(),
            v@ == orig,
            forall|j: int| i <= j < v@.len() ==> v@[j] == '0',
        decreases i,
    {
        i = i - 1;
    }
    proof {
        lemma_strip_trailing_at(orig, i as int);
    }
    v.truncate(i);
    proof {
        assert(v@ =~= orig.subrange(0, i as int));
    }
    v
}

/// Rescales a number by ten to the `k`, exactly; the result is float-form.
pub fn scale_number(n: &Number, k: i32) -> (r: Number)
    requires
        -9 <= k <= 9,
        num_wf(n@),
    ensures
        r@ == scale_num(n@, k as int),
{
    let int_len = n.int_part.len();
    let mut all: Vec<char> = Vec::new();
    push_all(&mut all, &n.int_part);
    push_all(&mut all, &n.frac_part);
    let all_len = all.len();

    // the new point position and the padding on either side
    let (lpad, point): (usize, usize) = if k < 0 {
        let kk = (-k) as usize;
        if int_len <= kk {
            (kk + 1 - int_len, 1)
        } else {
            (0, int_len - kk)
        }
    } else {
        (0, int_len + (k as usize))
    };
    let rpad: usize = if lpad == 0 && point > all_len {
        point - all_len
    } else {
        0
    };

    let mut all2: Vec<char> = Vec::new();
    let mut z: usize = 0;
    while z < lpad
        invariant
            z <= lpad,
            all2@ =~= zero_chars(z as int),
        decreases lpad - z,
    {
        all2.push('0');
        proof {
            assert(all2@ =~= zero_chars(z + 1 as int));
        }
        z = z + 1;
    }
    push_all(&mut all2, &all);
    let mut z2: usize = 0;
    let ghost mid = all2@;
    while z2 < rpad
        invariant
            z2 <= rpad,
            all2@ =~= mid + zero_chars(z2 as int),
        decreases rpad - z2,
    {
        all2.push('0');
        proof {
            assert(all2@ =~= mid + zero_chars(z2 + 1 as int));
        }
        z2 = z2 + 1;
    }

    proof {
        let pspec = n@.int_part.len() + k;
        let lspec: int = if pspec < 1 {
            1 - pspec
        } else {
            0
        };
        assert(all@ =~= n@.int_part + n@.frac_part);
        assert(lpad as int == lspec);
        assert(point as int == pspec + lspec);
        assert(all2@ =~= zero_chars(lspec) + (n@.int_part + n@.frac_part) + zero_chars(
            if pspec > (n@.int_part + n@.frac_part).len() {
                pspec - (n@.int_part + n@.frac_part).len()
            } else {
                0
            },
        ));
        assert(point >= 1);
        assert(point <= all2@.len());
    }

    let mut ipart: Vec<char> = Vec::new();
    let mut fpart: Vec<char> = Vec::new();
    let mut t: usize = 0;
    while t < point
        invariant
            t <= point,
            point <= all2@.len(),
            ipart@ =~= all2@.subrange(0, t as int),
        decreases point - t,
    {
        ipart.push(all2[t]);
        proof {
            assert(ipart@ =~= all2@.subrange(0, t + 1 as int));
        }
        t = t + 1;
    }
    let mut u: usize = point;
    while u < all2.len()
        invariant
            point <= u <= all2@.len(),
            fpart@ =~= all2@.subrange(point as int, u as int),
        decreases all2@.len() - u,
    {
        fpart.push(all2[u]);
        proof {
            assert(fpart@ =~= all2@.subrange(point as int, u + 1 as int));
        }
        u = u + 1;
    }
    proof {
        assert(fpart@ =~= all2@.subrange(point as int, all2@.len() as int));
    }

    let ipart2 = strip_leading(ipart);
    let fpart2 = strip_trailing(fpart);
    let r = Number { neg: n.neg, int_part: ipart2, frac_part: fpart2, is_float: true };
    proof {
        let m = scale_num(n@, k as int);
        assert(r@.int_part == m.int_part);
        assert(r@.frac_part == m.frac_part);
        assert(r@ == m);
    }
    r
}

} // verus!
