use vstd::prelude::*;

verus! {

/// The digit zero, `0`.
pub const DIGIT_ZERO: u8 = 48;

/// Width to which step numbers are padded with zeros.
pub const STEP_WIDTH: usize = 6;

/// The decimal digits of `n`, most significant first, without leading zeros.
pub open spec fn decimal(n: nat) -> Seq<u8>
    decreases n,
{
    if n < 10 {
        seq![(DIGIT_ZERO + n) as u8]
    } else {
        decimal(n / 10).push((DIGIT_ZERO + n % 10) as u8)
    }
}

/// `n` in decimal, padded on the left with zeros to at least `width` digits.
pub open spec fn padded(n: nat, width: nat) -> Seq<u8> {
    let d = decimal(n);
    if d.len() < width {
        Seq::new((width - d.len()) as nat, |i: int| DIGIT_ZERO) + d
    } else {
        d
    }
}

/// What follows the step number in a checkpoint name: `_steps.ot`.
pub open spec fn suffix() -> Seq<u8> {
    seq![95u8, 115, 116, 101, 112, 115, 46, 111, 116]
}

/// The name of the checkpoint saved after `n` training steps.
pub open spec fn checkpoint_name(n: nat) -> Seq<u8> {
    padded(n, STEP_WIDTH as nat) + suffix()
}

/// All of `s` are decimal digits.
pub open spec fn is_digits(s: Seq<u8>) -> bool {
    forall|k: int| 0 <= k < s.len() ==> DIGIT_ZERO <= #[trigger] s[k] <= DIGIT_ZERO + 9
}

/// The number that the digits `s` spell.
pub open spec fn digits_value(s: Seq<u8>) -> nat
    decreases s.len(),
{
    if s.len() == 0 {
        0
    } else {
        digits_value(s.drop_last()) * 10 + (s.last() - DIGIT_ZERO) as nat
    }
}

/// The step number a checkpoint name carries: the digits before the suffix.
pub open spec fn step_spec(name: Seq<u8>) -> Option<nat> {
    let k = name.len() - suffix().len();
    if k > 0 && name.skip(k) == suffix() && is_digits(name.take(k)) {
        Some(digits_value(name.take(k)))
    } else {
        None
    }
}

proof fn lemma_decimal(n: nat)
    ensures
        is_digits(decimal(n)),
        digits_value(decimal(n)) == n,
        decimal(n).len() > 0,
    decreases n,
{
    if n >= 10 {
        lemma_decimal(n / 10);
        assert(decimal(n).drop_last() =~= decimal(n / 10));
        assert(decimal(n).last() == (DIGIT_ZERO + n % 10) as u8);
        assert(((DIGIT_ZERO + n % 10) as u8) as int == DIGIT_ZERO + n % 10);
        assert((n / 10) * 10 + n % 10 == n);
        assert(digits_value(decimal(n)) == digits_value(decimal(n / 10)) * 10 + (n % 10));
    } else {
        assert(decimal(n).drop_last() =~= Seq::<u8>::empty());
        assert(((DIGIT_ZERO + n) as u8) as int == DIGIT_ZERO + n);
        assert(digits_value(decimal(n)) == digits_value(Seq::<u8>::empty()) * 10 + n);
    }
}

/// Leading zeros do not change the value of a number.
proof fn lemma_leading_zeros(z: nat, s: Seq<u8>)
    ensures
        digits_value(Seq::new(z, |i: int| DIGIT_ZERO) + s) == digits_value(s),
    decreases s.len(),
{
    let zs = Seq::new(z, |i: int| DIGIT_ZERO);
    if s.len() == 0 {
        assert(zs + s =~= zs);
        lemma_zeros_value(z);
    } else {
        lemma_leading_zeros(z, s.drop_last());
        assert((zs + s).drop_last() =~= zs + s.drop_last());
    }
}

proof fn lemma_zeros_value(z: nat)
    ensures
        digits_value(Seq::new(z, |i: int| DIGIT_ZERO)) == 0,
    decreases z,
{
    if z > 0 {
        lemma_zeros_value((z - 1) as nat);
        assert(Seq::new(z, |i: int| DIGIT_ZERO).drop_last() =~= Seq::new((z - 1) as nat, |i: int| DIGIT_ZERO));
    }
}

/// A checkpoint's name gives back the step it was saved at.
pub proof fn lemma_checkpoint_round_trip(n: nat)
    ensures
        step_spec(checkpoint_name(n)) == Some(n),
{
    lemma_decimal(n);
    let p = padded(n, STEP_WIDTH as nat);
    let name = checkpoint_name(n);
    let k = name.len() - suffix().len();
    assert(k == p.len());
    assert(name.skip(k) =~= suffix());
    assert(name.take(k) =~= p);
    let d = decimal(n);
    if d.len() < STEP_WIDTH {
        let z = (STEP_WIDTH - d.len()) as nat;
        lemma_leading_zeros(z, d);
        assert forall|j: int| 0 <= j < p.len() implies DIGIT_ZERO <= #[trigger] p[j] <= DIGIT_ZERO + 9 by {
            if j >= z {
                assert(p[j] == d[j - z]);
            }
        }
    }
}

/// Appends the decimal digits of `n` to `out`.
fn push_decimal(out: &mut Vec<u8>, n: u64)
    ensures
        final(out)@ == old(out)@ + decimal(n as nat),
    decreases n,
{
    let ghost start = out@;
    if n >= 10 {
        push_decimal(out, n / 10);
    }
    out.push(DIGIT_ZERO + (n % 10) as u8);
    assert(out@ =~= start + decimal(n as nat));
}

/// The bytes of the suffix, `_steps.ot`.
fn suffix_bytes() -> (r: Vec<u8>)
    ensures
        r@ == suffix(),
{
    let r: Vec<u8> = vec![95u8, 115, 116, 101, 112, 115, 46, 111, 116];
    assert(r@ =~= suffix());
    r
}

/// Relies on `String::from_utf8`: ASCII bytes are valid UTF-8, and each
/// byte becomes the character of the same code.
#[verifier::external_body]
fn ascii_string(bytes: Vec<u8>) -> (r: String)
    requires
        forall|k: int| 0 <= k < bytes@.len() ==> #[trigger] bytes@[k] < 128,
    ensures
        r@ == bytes@.map_values(|b: u8| b as char),
{
    String::from_utf8(bytes).expect("ASCII is valid UTF-8")
}

/// Digits spell a number no smaller than any of their prefixes does.
proof fn lemma_value_monotone(s: Seq<u8>, m: int, n: int)
    requires
        0 <= m <= n <= s.len(),
        is_digits(s.take(n)),
    ensures
        digits_value(s.take(m)) <= digits_value(s.take(n)),
    decreases n - m,
{
    if m < n {
        assert(s.take(n).drop_last() =~= s.take(n - 1));
        assert(is_digits(s.take(n - 1))) by {
            assert forall|k: int| 0 <= k < n - 1 implies DIGIT_ZERO <= #[trigger] s.take(n - 1)[k] <= DIGIT_ZERO + 9 by {
                assert(s.take(n - 1)[k] == s.take(n)[k]);
            }
        }
        lemma_value_monotone(s, m, n - 1);
    }
}

/// The bytes of the name of the checkpoint saved after `n` training steps:
/// the step number padded with zeros to six digits, then `_steps.ot`.
pub fn file_name_bytes(n: u64) -> (r: Vec<u8>)
    ensures
        r@ == checkpoint_name(n as nat),
{
    let mut digits: Vec<u8> = Vec::new();
    push_decimal(&mut digits, n);
    assert(digits@ =~= decimal(n as nat));
    let mut out: Vec<u8> = Vec::new();
    let mut i: usize = digits.len();
    while i < STEP_WIDTH
        invariant
            digits@.len() <= i <= STEP_WIDTH || (i == digits@.len() && i >= STEP_WIDTH),
            out@ == Seq::new((i - digits@.len()) as nat, |k: int| DIGIT_ZERO),
        decreases STEP_WIDTH - i,
    {
        out.push(DIGIT_ZERO);
        i = i + 1;
        assert(out@ =~= Seq::new((i - digits@.len()) as nat, |k: int| DIGIT_ZERO));
    }
    let ghost zs = out@;
    let mut k: usize = 0;
    while k < digits.len()
        invariant
            k <= digits@.len(),
            out@ == zs + digits@.take(k as int),
        decreases digits@.len() - k,
    {
        out.push(digits[k]);
        k = k + 1;
        assert(out@ =~= zs + digits@.take(k as int));
    }
    let sfx = suffix_bytes();
    let mut j: usize = 0;
    while j < sfx.len()
        invariant
            j <= sfx@.len(),
            sfx@ == suffix(),
            out@ == zs + digits@ + sfx@.take(j as int),
        decreases sfx@.len() - j,
    {
        out.push(sfx[j]);
        j = j + 1;
        assert(out@ =~= zs + digits@ + sfx@.take(j as int));
    }
    assert(digits@.take(digits@.len() as int) =~= digits@);
    assert(sfx@.take(sfx@.len() as int) =~= sfx@);
    assert(out@ =~= checkpoint_name(n as nat));
    out
}

/// The name of the checkpoint saved after `n` training steps.
pub fn file_name(n: u64) -> (r: String)
    ensures
        r@ == checkpoint_name(n as nat).map_values(|b: u8| b as char),
{
    let bytes = file_name_bytes(n);
    proof {
        lemma_decimal(n as nat);
        assert forall|k: int| 0 <= k < bytes@.len() implies #[trigger] bytes@[k] < 128 by {
            let d = decimal(n as nat);
            let p = padded(n as nat, STEP_WIDTH as nat);
            if k < p.len() {
                if d.len() < STEP_WIDTH && k >= STEP_WIDTH - d.len() {
                    assert(p[k] == d[k - (STEP_WIDTH - d.len())]);
                }
            }
        }
    }
    ascii_string(bytes)
}

/// The step number a checkpoint name carries, or `None` when the name is
/// not digits followed by `_steps.ot`, or the number does not fit 64 bits.
pub fn checkpoint_step(name: &Vec<u8>) -> (r: Option<u64>)
    ensures
        r matches Some(v) ==> step_spec(name@) == Some(v as nat),
        r is None ==> step_spec(name@) is None || step_spec(name@)->0 > u64::MAX,
{
    let sfx = suffix_bytes();
    if name.len() <= sfx.len() {
        return None;
    }
    let len = name.len();
    let k = len - sfx.len();
    let mut j: usize = 0;
    while j < sfx.len()
        invariant
            len == name@.len(),
            k + sfx@.len() == name@.len(),
            j <= sfx@.len(),
            sfx@ == suffix(),
            forall|t: int| 0 <= t < j ==> name@[k + t] == sfx@[t],
        decreases sfx@.len() - j,
    {
        assert(k + j < name@.len());
        if name[k + j] != sfx[j] {
            assert(name@.skip(k as int)[j as int] != suffix()[j as int]);
            return None;
        }
        j = j + 1;
    }
    assert(name@.skip(k as int) =~= suffix());
    let mut acc: u64 = 0;
    let mut i: usize = 0;
    while i < k
        invariant
            i <= k,
            k + sfx@.len() == name@.len(),
            sfx@ == suffix(),
            name@.skip(k as int) == suffix(),
            is_digits(name@.take(i as int)),
            acc == digits_value(name@.take(i as int)),
        decreases k - i,
    {
        let c = name[i];
        if c < DIGIT_ZERO || c > DIGIT_ZERO + 9 {
            assert(name@.take(k as int)[i as int] == c);
            return None;
        }
        let d: u64 = (c - DIGIT_ZERO) as u64;
        assert(name@.take(i + 1).drop_last() =~= name@.take(i as int));
        assert(is_digits(name@.take(i + 1))) by {
            assert forall|t: int| 0 <= t < i + 1 implies DIGIT_ZERO <= #[trigger] name@.take(i + 1)[t] <= DIGIT_ZERO + 9 by {
                if t < i {
                    assert(name@.take(i + 1)[t] == name@.take(i as int)[t]);
                }
            }
        }
        if acc > (u64::MAX - d) / 10 {
            proof {
                assert(digits_value(name@.take(i + 1)) > u64::MAX);
                if is_digits(name@.take(k as int)) {
                    lemma_value_monotone(name@, i + 1, k as int);
                }
            }
            return None;
        }
        acc = acc * 10 + d;
        i = i + 1;
    }
    Some(acc)
}

} // verus!
