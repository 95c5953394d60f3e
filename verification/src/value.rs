use vstd::prelude::*;
use crate::errors::ValueParseError;

verus! {

/// The numeric kinds a scan can track. The kind is chosen once, from external
/// input, when a session is set up; the engine's comparison and byte-width
/// logic dispatch on it in one place.
#[derive(Clone, Copy, PartialEq, Eq, Structural, Debug)]
pub enum ValueKind {
    U8,
    U16,
    U32,
    U64,
}

/// A concrete value of one of the tracked kinds, as it is laid out in the
/// target process's memory (little endian).
#[derive(Clone, Copy, PartialEq, Eq, Structural, Debug)]
pub enum ScanValue {
    U8(u8),
    U16(u16),
    U32(u32),
    U64(u64),
}

impl ValueKind {
    /// The width in bytes of a value of this kind.
    pub open spec fn spec_width(&self) -> usize {
        match *self {
            ValueKind::U8 => 1,
            ValueKind::U16 => 2,
            ValueKind::U32 => 4,
            ValueKind::U64 => 8,
        }
    }

    #[verifier::when_used_as_spec(spec_width)]
    pub fn width(&self) -> (w: usize)
        ensures
            w == self.spec_width(),
    {
        match *self {
            ValueKind::U8 => 1,
            ValueKind::U16 => 2,
            ValueKind::U32 => 4,
            ValueKind::U64 => 8,
        }
    }

    /// The largest value a kind can hold.
    pub open spec fn spec_max(&self) -> u64 {
        match *self {
            ValueKind::U8 => 0xff,
            ValueKind::U16 => 0xffff,
            ValueKind::U32 => 0xffff_ffff,
            ValueKind::U64 => 0xffff_ffff_ffff_ffff,
        }
    }

    #[verifier::when_used_as_spec(spec_max)]
    pub fn max_value(&self) -> (m: u64)
        ensures
            m == self.spec_max(),
    {
        match *self {
            ValueKind::U8 => 0xff,
            ValueKind::U16 => 0xffff,
            ValueKind::U32 => 0xffff_ffff,
            ValueKind::U64 => 0xffff_ffff_ffff_ffff,
        }
    }
}

impl ScanValue {
    /// The kind of this value.
    pub open spec fn spec_kind(&self) -> ValueKind {
        match *self {
            ScanValue::U8(_) => ValueKind::U8,
            ScanValue::U16(_) => ValueKind::U16,
            ScanValue::U32(_) => ValueKind::U32,
            ScanValue::U64(_) => ValueKind::U64,
        }
    }

    #[verifier::when_used_as_spec(spec_kind)]
    pub fn kind(&self) -> (k: ValueKind)
        ensures
            k == self.spec_kind(),
    {
        match *self {
            ScanValue::U8(_) => ValueKind::U8,
            ScanValue::U16(_) => ValueKind::U16,
            ScanValue::U32(_) => ValueKind::U32,
            ScanValue::U64(_) => ValueKind::U64,
        }
    }

    /// The width in bytes of this value in target memory.
    pub open spec fn spec_width(&self) -> usize {
        self.spec_kind().spec_width()
    }

    #[verifier::when_used_as_spec(spec_width)]
    pub fn width(&self) -> (w: usize)
        ensures
            w == self.spec_width(),
    {
        self.kind().width()
    }

    /// The value, widened to 64 bits.
    pub open spec fn spec_as_u64(&self) -> u64 {
        match *self {
            ScanValue::U8(x) => x as u64,
            ScanValue::U16(x) => x as u64,
            ScanValue::U32(x) => x as u64,
            ScanValue::U64(x) => x,
        }
    }

    #[verifier::when_used_as_spec(spec_as_u64)]
    pub fn as_u64(&self) -> (v: u64)
        ensures
            v == self.spec_as_u64(),
    {
        match *self {
            ScanValue::U8(x) => x as u64,
            ScanValue::U16(x) => x as u64,
            ScanValue::U32(x) => x as u64,
            ScanValue::U64(x) => x,
        }
    }

    /// Build a value of the given kind from its 64-bit image.
    pub fn of_kind(kind: ValueKind, bits: u64) -> (v: ScanValue)
        requires
            bits <= kind.spec_max(),
        ensures
            v.spec_kind() == kind,
            v.spec_as_u64() == bits,
    {
        match kind {
            ValueKind::U8 => ScanValue::U8(bits as u8),
            ValueKind::U16 => ScanValue::U16(bits as u16),
            ValueKind::U32 => ScanValue::U32(bits as u32),
            ValueKind::U64 => ScanValue::U64(bits),
        }
    }
}

/// 256^k.
pub open spec fn pow256(k: nat) -> nat
    decreases k,
{
    if k == 0 {
        1
    } else {
        256 * pow256((k - 1) as nat)
    }
}

/// The unsigned integer stored little-endian in the byte sequence: the first
/// byte is the least significant.
pub open spec fn le_bytes(s: Seq<u8>) -> nat
    decreases s.len(),
{
    if s.len() == 0 {
        0
    } else {
        (s[0] + 256 * le_bytes(s.subrange(1, s.len() as int))) as nat
    }
}

/// Peeling the first byte off a subrange.
pub proof fn lemma_le_step(s: Seq<u8>, i: int, j: int)
    requires
        0 <= i < j <= s.len(),
    ensures
        le_bytes(s.subrange(i, j)) == s[i] + 256 * le_bytes(s.subrange(i + 1, j)),
{
    let sub = s.subrange(i, j);
    assert(sub.subrange(1, sub.len() as int) =~= s.subrange(i + 1, j));
}

/// A little-endian value fits in as many bytes as it occupies.
pub proof fn lemma_le_bytes_bound(s: Seq<u8>)
    ensures
        le_bytes(s) < pow256(s.len()),
    decreases s.len(),
{
    if s.len() == 0 {
    } else {
        lemma_le_bytes_bound(s.subrange(1, s.len() as int));
    }
}

proof fn lemma_pow256_mono(a: nat, b: nat)
    requires
        a <= b,
    ensures
        pow256(a) <= pow256(b),
    decreases b,
{
    if a < b && b > 0 {
        lemma_pow256_mono(a, (b - 1) as nat);
    }
}

/// Read the `w`-byte little-endian value stored at index `i` of the buffer.
pub fn le_u64_at(bytes: &Vec<u8>, i: usize, w: usize) -> (r: u64)
    requires
        w <= 8,
        i + w <= bytes.len(),
    ensures
        r == le_bytes(bytes@.subrange(i as int, i + w)),
{
    let mut acc: u64 = 0;
    let mut j: usize = w;
    while j > 0
        invariant
            j <= w,
            w <= 8,
            i + w <= bytes.len(),
            acc == le_bytes(bytes@.subrange(i + j, i + w)),
            acc < pow256((w - j) as nat),
        decreases j,
    {
        j = j - 1;
        proof {
            lemma_le_step(bytes@, i + j, i + w);
            lemma_le_bytes_bound(bytes@.subrange(i + j + 1, i + w));
            lemma_pow256_mono((w - j - 1) as nat, 7);
            reveal_with_fuel(pow256, 9);
            assert(pow256(7) == 0x100000000000000) by {
                reveal_with_fuel(pow256, 9);
            }
        }
        acc = acc * 256 + (bytes[i + j] as u64);
    }
    acc
}

/// Write `v` back as its `w`-byte little-endian image. Inverse of `le_u64_at`.
pub fn le_encode(v: u64, w: usize) -> (r: Vec<u8>)
    requires
        w <= 8,
        w == 8 || v < pow256(w as nat),
    ensures
        r@.len() == w,
        le_bytes(r@) == v,
{
    let mut rest: u64 = v;
    let mut out: Vec<u8> = Vec::new();
    let mut k: usize = 0;
    proof {
        reveal_with_fuel(pow256, 9);
        assert(le_bytes(out@) == 0);
        assert(pow256(0) * rest == rest) by (nonlinear_arith)
            requires
                pow256(0) == 1,
        ;
    }
    while k < w
        invariant
            k <= w,
            w <= 8,
            out@.len() == k,
            v == le_bytes(out@) + pow256(k as nat) * rest,
            rest < pow256((w - k) as nat),
        decreases w - k,
    {
        let b: u8 = (rest % 256) as u8;
        proof {
            lemma_le_append(out@, b);
            assert(pow256((k + 1) as nat) == 256 * pow256(k as nat));
            assert(rest == 256 * (rest / 256) + rest % 256) by (nonlinear_arith);
            assert(pow256(k as nat) * rest == pow256(k as nat) * (b as nat) + pow256(
                (k + 1) as nat,
            ) * (rest / 256)) by (nonlinear_arith)
                requires
                    rest == 256 * (rest / 256) + (b as nat),
                    pow256((k + 1) as nat) == 256 * pow256(k as nat),
            ;
            assert(pow256((w - k) as nat) == 256 * pow256((w - k - 1) as nat));
            assert(rest / 256 < pow256((w - k - 1) as nat)) by (nonlinear_arith)
                requires
                    rest < 256 * pow256((w - k - 1) as nat),
            ;
        }
        out.push(b);
        rest = rest / 256;
        k = k + 1;
    }
    proof {
        assert(pow256((w - k) as nat) == 1);
        assert(pow256(k as nat) * 0 == 0) by (nonlinear_arith);
        if rest == 0 {
            assert(pow256(k as nat) * rest == 0) by (nonlinear_arith)
                requires
                    rest == 0,
            ;
        }
    }
    out
}

/// Appending one byte at the top end of a little-endian image.
pub proof fn lemma_le_append(s: Seq<u8>, b: u8)
    ensures
        le_bytes(s.push(b)) == le_bytes(s) + pow256(s.len()) * b,
    decreases s.len(),
{
    if s.len() == 0 {
        assert(s.push(b).subrange(1, 1) =~= Seq::<u8>::empty());
        assert(le_bytes(s.push(b)) == b + 256 * le_bytes(s.push(b).subrange(1, 1)));
        assert(pow256(0) == 1);
        assert(le_bytes(s) == 0);
        assert(pow256(s.len()) * b == b) by (nonlinear_arith)
            requires
                pow256(s.len()) == 1,
        ;
    } else {
        let t = s.subrange(1, s.len() as int);
        lemma_le_append(t, b);
        assert(s.push(b).subrange(1, s.len() as int + 1) =~= t.push(b));
        assert(le_bytes(s.push(b)) == s[0] + 256 * le_bytes(t.push(b)));
        assert(256 * (le_bytes(t) + pow256(t.len()) * b) == 256 * le_bytes(t) + 256 * (pow256(
            t.len(),
        ) * b)) by (nonlinear_arith);
        assert(256 * (pow256(t.len()) * b) == (256 * pow256(t.len())) * b) by (nonlinear_arith);
        assert(256 * pow256(t.len()) == pow256(s.len()));
        assert(le_bytes(s) == s[0] + 256 * le_bytes(t));
        assert(le_bytes(s.push(b)) == s[0] + 256 * le_bytes(t) + pow256(s.len()) * b);
    }
}

/// The numeric value of a sequence of decimal digit characters, most
/// significant first.
pub open spec fn dec_value(s: Seq<char>) -> nat
    decreases s.len(),
{
    if s.len() == 0 {
        0
    } else {
        dec_value(s.drop_last()) * 10 + digit_of(s.last())
    }
}

/// The numeric value of a decimal digit character; meaningful only when
/// `is_digit` holds of it.
pub open spec fn digit_of(c: char) -> nat {
    if '0' <= c <= '9' {
        (c as nat - '0' as nat) as nat
    } else {
        0
    }
}

/// The character is a decimal digit.
pub open spec fn is_digit(c: char) -> bool {
    '0' <= c <= '9'
}

/// All characters of the sequence are decimal digits.
pub open spec fn all_digits(s: Seq<char>) -> bool {
    forall|i: int| 0 <= i < s.len() ==> is_digit(#[trigger] s[i])
}

/// Growing a digit string never shrinks its value.
pub(crate) proof fn lemma_dec_value_prefix(s: Seq<char>, n: int)
    requires
        0 <= n <= s.len(),
    ensures
        dec_value(s.subrange(0, n)) <= dec_value(s),
    decreases s.len() - n,
{
    if n < s.len() {
        let t = s.subrange(0, n + 1);
        assert(t.drop_last() =~= s.subrange(0, n));
        assert(dec_value(t) == dec_value(s.subrange(0, n)) * 10 + digit_of(s[n]));
        assert(dec_value(s.subrange(0, n)) * 10 >= dec_value(s.subrange(0, n))) by (nonlinear_arith);
        lemma_dec_value_prefix(s, n + 1);
        assert(s.subrange(0, s.len() as int) =~= s);
    } else {
        assert(s.subrange(0, s.len() as int) =~= s);
    }
}

/// Interpret `text` as a decimal number of kind `kind`.
///
/// Succeeds exactly on non-empty all-digit text whose value fits the kind;
/// each failure names its reason, and exactly one reason can apply.
pub fn parse_value(text: &String, kind: ValueKind) -> (r: Result<ScanValue, ValueParseError>)
    ensures
        text@.len() == 0 <==> r == Err::<ScanValue, ValueParseError>(ValueParseError::Empty),
        (text@.len() > 0 && !all_digits(text@)) <==> r == Err::<ScanValue, ValueParseError>(
            ValueParseError::InvalidDigit,
        ),
        (text@.len() > 0 && all_digits(text@) && dec_value(text@) > kind.spec_max()) <==> r
            == Err::<ScanValue, ValueParseError>(ValueParseError::Overflow),
        r is Ok <==> (text@.len() > 0 && all_digits(text@) && dec_value(text@)
            <= kind.spec_max()),
        r is Ok ==> r->Ok_0.spec_kind() == kind && r->Ok_0.spec_as_u64() == dec_value(text@),
{
    let s = text.as_str();
    let n = s.unicode_len();
    if n == 0 {
        return Err(ValueParseError::Empty);
    }
    let mut i: usize = 0;
    while i < n
        invariant
            i <= n,
            s@ == text@,
            n == s@.len(),
            n > 0,
            forall|k: int| 0 <= k < i ==> is_digit(#[trigger] s@[k]),
        decreases n - i,
    {
        let c = s.get_char(i);
        if !('0' <= c && c <= '9') {
            proof {
                assert(!is_digit(s@[i as int]));
            }
            return Err(ValueParseError::InvalidDigit);
        }
        i = i + 1;
    }
    proof {
        assert(all_digits(text@));
    }
    let max = kind.max_value();
    let mut acc: u64 = 0;
    let mut j: usize = 0;
    while j < n
        invariant
            j <= n,
            s@ == text@,
            n == s@.len(),
            n > 0,
            all_digits(s@),
            max == kind.spec_max(),
            acc == dec_value(s@.subrange(0, j as int)),
            acc <= max,
        decreases n - j,
    {
        let c = s.get_char(j);
        proof {
            assert(is_digit(s@[j as int]));
        }
        let d: u64 = (c as u32 as u64) - 48;
        proof {
            assert(d == digit_of(s@[j as int]));
            assert(d <= 9);
            assert(s@.subrange(0, j + 1).drop_last() =~= s@.subrange(0, j as int));
            assert(dec_value(s@.subrange(0, j + 1)) == acc * 10 + digit_of(s@[j as int]));
        }
        if acc > max / 10 || (acc == max / 10 && d > max % 10) {
            proof {
                assert(acc * 10 + d > max) by (nonlinear_arith)
                    requires
                        acc * 10 + d == dec_value(s@.subrange(0, j + 1)),
                        acc > max / 10 || (acc == max / 10 && d > max % 10),
                        max == 10 * (max / 10) + max % 10,
                ;
                lemma_dec_value_prefix(s@, j + 1);
            }
            return Err(ValueParseError::Overflow);
        }
        proof {
            assert(acc * 10 + d <= max) by (nonlinear_arith)
                requires
                    acc <= max / 10,
                    acc < max / 10 || d <= max % 10,
                    d <= 9,
                    max == 10 * (max / 10) + max % 10,
            ;
        }
        acc = acc * 10 + d;
        j = j + 1;
    }
    proof {
        assert(s@.subrange(0, n as int) =~= s@);
    }
    Ok(ScanValue::of_kind(kind, acc))
}

} // verus!
