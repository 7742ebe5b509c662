use vstd::prelude::*;

verus! {

/// True when `b` is the ASCII code of a lowercase hexadecimal digit.
pub open spec fn is_hex_digit_byte(b: u8) -> bool {
    (48 <= b && b <= 57) || (97 <= b && b <= 102)
}

/// The ASCII code of the lowercase hexadecimal digit for `n`.
pub open spec fn hex_digit(n: u8) -> u8
    recommends
        n < 16,
{
    if n < 10 {
        (48 + n) as u8
    } else {
        (87 + n) as u8
    }
}

/// The value of the hexadecimal digit whose ASCII code is `b`.
pub open spec fn hex_val(b: u8) -> u8
    recommends
        is_hex_digit_byte(b),
{
    if b <= 57 {
        (b - 48) as u8
    } else {
        (b - 87) as u8
    }
}

/// True when every byte of `s` is a lowercase hexadecimal digit.
pub open spec fn is_hex_seq(s: Seq<u8>) -> bool {
    forall|i: int| 0 <= i < s.len() ==> is_hex_digit_byte(#[trigger] s[i])
}

/// The lowercase hexadecimal rendering of `s`: two digits for each byte,
/// high nibble first.
pub open spec fn hex_of(s: Seq<u8>) -> Seq<u8> {
    Seq::new(
        2 * s.len(),
        |i: int| if i % 2 == 0 {
            hex_digit(s[i / 2] / 16)
        } else {
            hex_digit(s[i / 2] % 16)
        },
    )
}

/// The bytes named by a sequence of hexadecimal digits, two digits per byte.
pub open spec fn unhex(s: Seq<u8>) -> Seq<u8>
    recommends
        s.len() % 2 == 0,
        is_hex_seq(s),
{
    Seq::new(s.len() / 2, |i: int| (hex_val(s[2 * i]) * 16 + hex_val(s[2 * i + 1])) as u8)
}

/// Reading a digit back gives the value it was written from.
pub proof fn lemma_hex_digit_val(n: u8)
    requires
        n < 16,
    ensures
        is_hex_digit_byte(hex_digit(n)),
        hex_val(hex_digit(n)) == n,
{
}

/// Hexadecimal rendering loses nothing: decoding the digits of `s`
/// gives `s` back, and the digits are well formed.
pub proof fn lemma_unhex_hex(s: Seq<u8>)
    ensures
        hex_of(s).len() == 2 * s.len(),
        is_hex_seq(hex_of(s)),
        unhex(hex_of(s)) == s,
{
    let h = hex_of(s);
    assert forall|i: int| 0 <= i < h.len() implies is_hex_digit_byte(#[trigger] h[i]) by {
        if i % 2 == 0 {
            lemma_hex_digit_val(s[i / 2] / 16);
        } else {
            lemma_hex_digit_val(s[i / 2] % 16);
        }
    }
    assert forall|i: int| 0 <= i < s.len() implies unhex(h)[i] == s[i] by {
        assert(h[2 * i] == hex_digit(s[i] / 16));
        assert(h[2 * i + 1] == hex_digit(s[i] % 16));
        lemma_hex_digit_val(s[i] / 16);
        lemma_hex_digit_val(s[i] % 16);
        assert((s[i] / 16) * 16 + s[i] % 16 == s[i]) by (nonlinear_arith);
    }
    assert(unhex(h) =~= s);
}

/// The ASCII code of the lowercase hexadecimal digit for `n`.
fn hex_digit_byte(n: u8) -> (r: u8)
    requires
        n < 16,
    ensures
        r == hex_digit(n),
{
    if n < 10 {
        48 + n
    } else {
        87 + n
    }
}

/// Render `s` in lowercase hexadecimal, two digits per byte.
pub fn hex_encode(s: &[u8]) -> (r: Vec<u8>)
    ensures
        r@ == hex_of(s@),
        r@.len() == 2 * s@.len(),
        is_hex_seq(r@),
{
    let mut out: Vec<u8> = Vec::new();
    let mut i: usize = 0;
    while i < s.len()
        invariant
            i <= s@.len(),
            out@.len() == 2 * i,
            forall|j: int| 0 <= j < out@.len() ==> out@[j] == hex_of(s@)[j],
        decreases s@.len() - i,
    {
        let b = s[i];
        out.push(hex_digit_byte(b / 16));
        out.push(hex_digit_byte(b % 16));
        i = i + 1;
    }
    assert(out@ =~= hex_of(s@));
    proof {
        lemma_unhex_hex(s@);
    }
    out
}

/// Report whether every byte of `s` is a lowercase hexadecimal digit.
pub fn all_hex_digits(s: &[u8]) -> (r: bool)
    ensures
        r == is_hex_seq(s@),
{
    let mut i: usize = 0;
    while i < s.len()
        invariant
            i <= s@.len(),
            forall|j: int| 0 <= j < i ==> is_hex_digit_byte(#[trigger] s@[j]),
        decreases s@.len() - i,
    {
        let b = s[i];
        if !((48 <= b && b <= 57) || (97 <= b && b <= 102)) {
            return false;
        }
        i = i + 1;
    }
    true
}

/// Decode a sequence of hexadecimal digits into bytes.  Returns `None` when
/// the length is odd or some byte is not a lowercase hexadecimal digit.
pub fn hex_decode(s: &[u8]) -> (r: Option<Vec<u8>>)
    ensures
        r is Some <==> (s@.len() % 2 == 0 && is_hex_seq(s@)),
        r matches Some(v) ==> v@ == unhex(s@),
{
    if s.len() % 2 != 0 {
        return None;
    }
    if !all_hex_digits(s) {
        return None;
    }
    let mut out: Vec<u8> = Vec::new();
    let mut i: usize = 0;
    while i + 1 < s.len()
        invariant
            s@.len() % 2 == 0,
            is_hex_seq(s@),
            i % 2 == 0,
            i <= s@.len(),
            out@.len() == i / 2,
            forall|j: int| 0 <= j < out@.len() ==> out@[j] == unhex(s@)[j],
        decreases s@.len() - i,
    {
        let hi = s[i];
        let lo = s[i + 1];
        proof {
            assert(is_hex_digit_byte(s@[i as int]));
            assert(is_hex_digit_byte(s@[i as int + 1]));
        }
        out.push(hex_digit_value(hi) * 16 + hex_digit_value(lo));
        i = i + 2;
    }
    assert(out@ =~= unhex(s@));
    Some(out)
}

/// Report whether `b` is the ASCII code of a lowercase hexadecimal digit.
pub fn byte_is_hex_digit(b: u8) -> (r: bool)
    ensures
        r == is_hex_digit_byte(b),
{
    (48 <= b && b <= 57) || (97 <= b && b <= 102)
}

/// The value of the hexadecimal digit whose ASCII code is `b`.
pub fn hex_digit_value(b: u8) -> (r: u8)
    requires
        is_hex_digit_byte(b),
    ensures
        r == hex_val(b),
        r < 16,
{
    if b <= 57 {
        b - 48
    } else {
        b - 87
    }
}

/// A valid digit survives the value/digit round trip.
pub proof fn lemma_hex_digit_of_val(b: u8)
    requires
        is_hex_digit_byte(b),
    ensures
        hex_val(b) < 16,
        hex_digit(hex_val(b)) == b,
{
}

/// Rendering decoded digits gives the digits back.
pub proof fn lemma_hex_unhex(s: Seq<u8>)
    requires
        s.len() % 2 == 0,
        is_hex_seq(s),
    ensures
        unhex(s).len() == s.len() / 2,
        hex_of(unhex(s)) == s,
{
    let u = unhex(s);
    assert forall|i: int| 0 <= i < s.len() implies hex_of(u)[i] == s[i] by {
        let k = i / 2;
        assert(0 <= k < u.len());
        assert(is_hex_digit_byte(s[2 * k]));
        assert(is_hex_digit_byte(s[2 * k + 1]));
        lemma_hex_digit_of_val(s[2 * k]);
        lemma_hex_digit_of_val(s[2 * k + 1]);
        let a = hex_val(s[2 * k]);
        let b = hex_val(s[2 * k + 1]);
        assert(u[k] == a * 16 + b);
        assert((a * 16 + b) / 16 == a && (a * 16 + b) % 16 == b) by (nonlinear_arith)
            requires
                a < 16,
                b < 16,
        ;
        if i % 2 == 0 {
            assert(i == 2 * k);
            assert(hex_of(u)[i] == hex_digit(u[k] / 16));
        } else {
            assert(i == 2 * k + 1);
            assert(hex_of(u)[i] == hex_digit(u[k] % 16));
        }
    }
    assert(hex_of(u) =~= s);
}

} // verus!
