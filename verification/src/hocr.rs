use vstd::prelude::*;
use crate::orchestrator::OCRWord;
use crate::value::{dec_value, is_digit, lemma_dec_value_prefix};
use vstd::string::StrSliceExecFns;

verus! {

// A line of hOCR output carries one recognized word as
//   ... bbox <x1> <y1> <x2> <y2>; x_wconf <conf> ...>text</span>
// The grammar read here, stated exactly by the spec functions below: after
// the first `bbox ` key whose four space-separated decimal fields and
// `; x_wconf ` decimal field all parse into 32 bits, the word's text is what
// stands between the last `>` preceding the line's last `</span>` and that
// `</span>`; at least one character must separate the confidence field from
// that `>`. A word whose confidence is below 30 is skipped and the search
// goes on at the next `bbox ` key.

/// The first position at or after `j` that does not hold a decimal digit.
pub open spec fn digits_end(s: Seq<char>, j: int) -> int
    decreases s.len() - j,
{
    if j < 0 || j >= s.len() || !is_digit(s[j]) {
        j
    } else {
        digits_end(s, j + 1)
    }
}

/// A non-empty digit run starts at `j` and its value fits in 32 bits.
pub open spec fn num_ok(s: Seq<char>, j: int) -> bool {
    &&& 0 <= j < s.len()
    &&& digits_end(s, j) > j
    &&& dec_value(s.subrange(j, digits_end(s, j))) <= u32::MAX
}

/// The value of the digit run starting at `j`.
pub open spec fn num_val(s: Seq<char>, j: int) -> nat {
    dec_value(s.subrange(j, digits_end(s, j)))
}

/// The key `bbox ` stands at position `i`.
pub open spec fn bbox_key_at(s: Seq<char>, i: int) -> bool {
    &&& 0 <= i && i + 5 <= s.len()
    &&& s[i] == 'b' && s[i + 1] == 'b' && s[i + 2] == 'o' && s[i + 3] == 'x' && s[i + 4] == ' '
}

/// The key `; x_wconf ` stands at position `i`.
pub open spec fn wconf_key_at(s: Seq<char>, i: int) -> bool {
    &&& 0 <= i && i + 10 <= s.len()
    &&& s[i] == ';' && s[i + 1] == ' ' && s[i + 2] == 'x' && s[i + 3] == '_' && s[i + 4] == 'w'
    &&& s[i + 5] == 'c' && s[i + 6] == 'o' && s[i + 7] == 'n' && s[i + 8] == 'f' && s[i + 9] == ' '
}

/// The closing tag `</span>` stands at position `i`.
pub open spec fn span_end_at(s: Seq<char>, i: int) -> bool {
    &&& 0 <= i && i + 7 <= s.len()
    &&& s[i] == '<' && s[i + 1] == '/' && s[i + 2] == 's' && s[i + 3] == 'p' && s[i + 4] == 'a'
    &&& s[i + 5] == 'n' && s[i + 6] == '>'
}

/// The last position at or before `i` where `</span>` stands.
pub open spec fn last_span_from(s: Seq<char>, i: int) -> Option<int>
    decreases i + 1,
{
    if i < 0 {
        None
    } else if span_end_at(s, i) {
        Some(i)
    } else {
        last_span_from(s, i - 1)
    }
}

/// The position of the line's last `</span>`.
pub open spec fn last_span(s: Seq<char>) -> Option<int> {
    last_span_from(s, s.len() - 1)
}

/// The last `>` strictly before position `m`.
pub open spec fn last_gt_before(s: Seq<char>, m: int) -> Option<int>
    decreases m,
{
    if m <= 0 || m > s.len() {
        None
    } else if s[m - 1] == '>' {
        Some(m - 1)
    } else {
        last_gt_before(s, m - 1)
    }
}

/// Where the four coordinate fields and the confidence field of a `bbox ` key
/// at `i` end and start.
pub open spec fn e1_of(s: Seq<char>, i: int) -> int {
    digits_end(s, i + 5)
}

pub open spec fn p2_of(s: Seq<char>, i: int) -> int {
    e1_of(s, i) + 1
}

pub open spec fn e2_of(s: Seq<char>, i: int) -> int {
    digits_end(s, p2_of(s, i))
}

pub open spec fn p3_of(s: Seq<char>, i: int) -> int {
    e2_of(s, i) + 1
}

pub open spec fn e3_of(s: Seq<char>, i: int) -> int {
    digits_end(s, p3_of(s, i))
}

pub open spec fn p4_of(s: Seq<char>, i: int) -> int {
    e3_of(s, i) + 1
}

pub open spec fn e4_of(s: Seq<char>, i: int) -> int {
    digits_end(s, p4_of(s, i))
}

pub open spec fn pc_of(s: Seq<char>, i: int) -> int {
    e4_of(s, i) + 10
}

pub open spec fn ec_of(s: Seq<char>, i: int) -> int {
    digits_end(s, pc_of(s, i))
}

/// A full well-formed field group stands at `i`: the `bbox ` key, four
/// space-separated 32-bit decimal fields, and the `; x_wconf ` 32-bit decimal
/// field.
pub open spec fn fields_at(s: Seq<char>, i: int) -> bool {
    &&& bbox_key_at(s, i)
    &&& num_ok(s, i + 5) && e1_of(s, i) < s.len() && s[e1_of(s, i)] == ' '
    &&& num_ok(s, p2_of(s, i)) && e2_of(s, i) < s.len() && s[e2_of(s, i)] == ' '
    &&& num_ok(s, p3_of(s, i)) && e3_of(s, i) < s.len() && s[e3_of(s, i)] == ' '
    &&& num_ok(s, p4_of(s, i))
    &&& wconf_key_at(s, e4_of(s, i))
    &&& num_ok(s, pc_of(s, i))
}

/// A field group at `i` yields a word: its confidence reaches 30 and the
/// line's text window opens at least one character after the confidence
/// field.
pub open spec fn good_at(s: Seq<char>, i: int) -> bool {
    &&& fields_at(s, i)
    &&& num_val(s, pc_of(s, i)) >= 30
    &&& match last_span(s) {
        Some(m) => match last_gt_before(s, m) {
            Some(g) => g >= ec_of(s, i) + 1,
            None => false,
        },
        None => false,
    }
}

/// The word text of the line: what stands between the last `>` preceding the
/// final `</span>` and that `</span>`.
pub open spec fn text_window(s: Seq<char>) -> Seq<char> {
    match last_span(s) {
        Some(m) => match last_gt_before(s, m) {
            Some(g) => s.subrange(g + 1, m),
            None => Seq::empty(),
        },
        None => Seq::empty(),
    }
}

/// Every position of a digit run up to its end holds a digit.
proof fn lemma_digits_end_digits(s: Seq<char>, j: int)
    requires
        0 <= j <= s.len(),
    ensures
        forall|idx: int| j <= idx < digits_end(s, j) ==> is_digit(#[trigger] s[idx]),
        j <= digits_end(s, j) <= s.len(),
    decreases s.len() - j,
{
    if j < s.len() && is_digit(s[j]) {
        lemma_digits_end_digits(s, j + 1);
    }
}

/// Where a last `</span>` was found, the tag indeed stands, at or before the
/// search start.
proof fn lemma_last_span_some(s: Seq<char>, i: int, m: int)
    requires
        last_span_from(s, i) == Some(m),
    ensures
        span_end_at(s, m),
        m <= i,
    decreases i + 1,
{
    if i >= 0 && !span_end_at(s, i) {
        lemma_last_span_some(s, i - 1, m);
    }
}

/// Where a last `>` before `m` was found, it stands strictly before `m`.
proof fn lemma_last_gt_some(s: Seq<char>, m: int, g: int)
    requires
        last_gt_before(s, m) == Some(g),
    ensures
        0 <= g < m,
        s[g] == '>',
    decreases m,
{
    if 0 < m <= s.len() && s[m - 1] != '>' {
        lemma_last_gt_some(s, m - 1, g);
    }
}

/// The characters of the line, one by one.
fn chars_of(s: &str) -> (r: Vec<char>)
    ensures
        r@ == s@,
{
    let n = s.unicode_len();
    let mut r: Vec<char> = Vec::new();
    let mut i: usize = 0;
    while i < n
        invariant
            i <= n,
            n == s@.len(),
            r@ == s@.subrange(0, i as int),
        decreases n - i,
    {
        r.push(s.get_char(i));
        proof {
            assert(r@ =~= s@.subrange(0, i + 1));
        }
        i = i + 1;
    }
    proof {
        assert(s@.subrange(0, n as int) =~= s@);
    }
    r
}

/// Where the digit run starting at `j` ends.
fn run_end(cs: &Vec<char>, j: usize) -> (r: usize)
    requires
        j <= cs@.len(),
    ensures
        r == digits_end(cs@, j as int),
        j <= r <= cs@.len(),
{
    let n = cs.len();
    let mut k: usize = j;
    while k < n
        invariant
            j <= k <= n,
            n == cs@.len(),
            digits_end(cs@, j as int) == digits_end(cs@, k as int),
        decreases n - k,
    {
        let c = cs[k];
        if !('0' <= c && c <= '9') {
            return k;
        }
        k = k + 1;
    }
    k
}

/// Parse the digit run starting at `j`: its 32-bit value and its end, or
/// nothing when the run is empty or too large.
fn num_at(cs: &Vec<char>, j: usize) -> (r: Option<(u32, usize)>)
    requires
        j <= cs@.len(),
    ensures
        match r {
            Some((v, e)) => num_ok(cs@, j as int) && v == num_val(cs@, j as int) && e == digits_end(
                cs@,
                j as int,
            ) && j < e <= cs@.len(),
            None => !num_ok(cs@, j as int),
        },
{
    let e = run_end(cs, j);
    if e == j {
        return None;
    }
    let ghost run = cs@.subrange(j as int, e as int);
    let mut acc: u32 = 0;
    let mut k: usize = j;
    proof {
        assert(run.subrange(0, 0) =~= Seq::<char>::empty());
        lemma_digits_end_digits(cs@, j as int);
    }
    while k < e
        invariant
            j <= k <= e,
            e == digits_end(cs@, j as int),
            e <= cs@.len(),
            run == cs@.subrange(j as int, e as int),
            forall|idx: int| j <= idx < e ==> is_digit(#[trigger] cs@[idx]),
            acc == dec_value(run.subrange(0, k - j)),
        decreases e - k,
    {
        let c = cs[k];
        proof {
            assert(is_digit(cs@[k as int]));
            assert(run.subrange(0, k - j + 1).drop_last() =~= run.subrange(0, k - j));
            assert(run.subrange(0, k - j + 1).last() == cs@[k as int]);
            assert(dec_value(run.subrange(0, k - j + 1)) == acc * 10 + (cs@[k as int] as nat
                - '0' as nat));
        }
        let d: u32 = (c as u32) - 48;
        if acc > (u32::MAX - d) / 10 {
            proof {
                assert(acc * 10 + d > u32::MAX) by (nonlinear_arith)
                    requires
                        acc > (u32::MAX as int - d) / 10,
                        d <= 9,
                        u32::MAX as int == 10 * ((u32::MAX as int - d) / 10) + (u32::MAX as int - d)
                            % 10 + d,
                        0 <= (u32::MAX as int - d) % 10 < 10,
                ;
                lemma_dec_value_prefix(run, k - j + 1);
                assert(run.subrange(0, run.len() as int) =~= run);
            }
            return None;
        }
        proof {
            assert(acc * 10 + d <= u32::MAX) by (nonlinear_arith)
                requires
                    acc <= (u32::MAX as int - d) / 10,
                    d <= 9,
                    u32::MAX as int == 10 * ((u32::MAX as int - d) / 10) + (u32::MAX as int - d) % 10
                        + d,
                    0 <= (u32::MAX as int - d) % 10 < 10,
            ;
        }
        acc = acc * 10 + d;
        k = k + 1;
    }
    proof {
        assert(run.subrange(0, (e - j) as int) =~= run);
    }
    Some((acc, e))
}

/// The position of the line's last `</span>`, if any.
fn find_last_span(cs: &Vec<char>) -> (r: Option<usize>)
    ensures
        match r {
            Some(m) => last_span(cs@) == Some(m as int),
            None => last_span(cs@) is None,
        },
{
    let n = cs.len();
    let mut i: usize = n;
    while i > 0
        invariant
            i <= n,
            n == cs@.len(),
            last_span(cs@) == last_span_from(cs@, i as int - 1),
        decreases i,
    {
        i = i - 1;
        if n >= 7 && i <= n - 7 && cs[i] == '<' && cs[i + 1] == '/' && cs[i + 2] == 's' && cs[i + 3]
            == 'p' && cs[i + 4] == 'a' && cs[i + 5] == 'n' && cs[i + 6] == '>' {
            return Some(i);
        }
        proof {
            assert(!span_end_at(cs@, i as int));
        }
    }
    None
}

/// The last `>` strictly before `m`, if any.
fn find_last_gt(cs: &Vec<char>, m: usize) -> (r: Option<usize>)
    requires
        m <= cs@.len(),
    ensures
        match r {
            Some(g) => last_gt_before(cs@, m as int) == Some(g as int),
            None => last_gt_before(cs@, m as int) is None,
        },
{
    let mut i: usize = m;
    while i > 0
        invariant
            i <= m <= cs@.len(),
            last_gt_before(cs@, m as int) == last_gt_before(cs@, i as int),
        decreases i,
    {
        i = i - 1;
        if cs[i] == '>' {
            return Some(i);
        }
    }
    None
}

/// Read one hOCR line. The result is the first recognized word of the line
/// under the grammar above, with its box, confidence and text, or nothing
/// when the line holds no such word.
pub fn parse_box(line: &str) -> (r: Option<OCRWord>)
    ensures
        r is Some <==> exists|i: int| good_at(line@, i),
        r matches Some(w) ==> exists|i: int|
            {
                &&& #[trigger] good_at(line@, i)
                &&& forall|i2: int| 0 <= i2 < i ==> !good_at(line@, i2)
                &&& w.x1 == num_val(line@, i + 5)
                &&& w.y1 == num_val(line@, p2_of(line@, i))
                &&& w.x2 == num_val(line@, p3_of(line@, i))
                &&& w.y2 == num_val(line@, p4_of(line@, i))
                &&& w.confidence == num_val(line@, pc_of(line@, i))
                &&& w.confidence >= 30
                &&& w.text@ == text_window(line@)
            },
{
    let cs = chars_of(line);
    let n = cs.len();
    let m = match find_last_span(&cs) {
        Some(m) => m,
        None => {
            return None;
        },
    };
    proof {
        lemma_last_span_some(cs@, cs@.len() - 1, m as int);
    }
    let g = match find_last_gt(&cs, m) {
        Some(g) => g,
        None => {
            return None;
        },
    };
    proof {
        lemma_last_gt_some(cs@, m as int, g as int);
    }
    let mut i: usize = 0;
    while i < n
        invariant
            i <= n,
            n == cs@.len(),
            cs@ == line@,
            g < m <= cs@.len(),
            last_span(cs@) == Some(m as int),
            last_gt_before(cs@, m as int) == Some(g as int),
            forall|i2: int| 0 <= i2 < i ==> !good_at(cs@, i2),
        decreases n - i,
    {
        if n >= 5 && i <= n - 5 && cs[i] == 'b' && cs[i + 1] == 'b' && cs[i + 2] == 'o' && cs[i + 3]
            == 'x' && cs[i + 4] == ' ' {
            if let Some(w) = try_fields(&cs, i, g, m, line) {
                return Some(w);
            }
            proof {
                assert(!good_at(cs@, i as int));
            }
        } else {
            proof {
                assert(!bbox_key_at(cs@, i as int));
            }
        }
        i = i + 1;
    }
    None
}

/// Try the field group of the `bbox ` key at `i`; the text window of the line
/// stands between `g` and `m`.
fn try_fields(cs: &Vec<char>, i: usize, g: usize, m: usize, line: &str) -> (r: Option<OCRWord>)
    requires
        cs@ == line@,
        bbox_key_at(cs@, i as int),
        i + 5 <= cs@.len(),
        g < m <= cs@.len(),
        last_span(cs@) == Some(m as int),
        last_gt_before(cs@, m as int) == Some(g as int),
    ensures
        match r {
            Some(w) => good_at(cs@, i as int) && w.x1 == num_val(cs@, i + 5) && w.y1 == num_val(
                cs@,
                p2_of(cs@, i as int),
            ) && w.x2 == num_val(cs@, p3_of(cs@, i as int)) && w.y2 == num_val(
                cs@,
                p4_of(cs@, i as int),
            ) && w.confidence == num_val(cs@, pc_of(cs@, i as int)) && w.confidence >= 30
                && w.text@ == text_window(cs@),
            None => !good_at(cs@, i as int),
        },
{
    let n = cs.len();
    let (x1, e1) = match num_at(cs, i + 5) {
        Some(p) => p,
        None => {
            return None;
        },
    };
    if !(e1 < n && cs[e1] == ' ') {
        return None;
    }
    let (y1, e2) = match num_at(cs, e1 + 1) {
        Some(p) => p,
        None => {
            return None;
        },
    };
    if !(e2 < n && cs[e2] == ' ') {
        return None;
    }
    let (x2, e3) = match num_at(cs, e2 + 1) {
        Some(p) => p,
        None => {
            return None;
        },
    };
    if !(e3 < n && cs[e3] == ' ') {
        return None;
    }
    let (y2, e4) = match num_at(cs, e3 + 1) {
        Some(p) => p,
        None => {
            return None;
        },
    };
    if !(n - e4 >= 10 && cs[e4] == ';' && cs[e4 + 1] == ' ' && cs[e4 + 2] == 'x' && cs[e4 + 3]
        == '_' && cs[e4 + 4] == 'w' && cs[e4 + 5] == 'c' && cs[e4 + 6] == 'o' && cs[e4 + 7] == 'n'
        && cs[e4 + 8] == 'f' && cs[e4 + 9] == ' ') {
        proof {
            assert(!wconf_key_at(cs@, e4 as int));
        }
        return None;
    }
    let (conf, ec) = match num_at(cs, e4 + 10) {
        Some(p) => p,
        None => {
            return None;
        },
    };
    if conf < 30 {
        return None;
    }
    if !(ec < g) {
        return None;
    }
    let text = line.substring_char(g + 1, m);
    Some(
        OCRWord {
            x1,
            y1,
            x2,
            y2,
            confidence: conf,
            text: text.to_owned(),
        },
    )
}

} // verus!
