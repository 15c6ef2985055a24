//! The label codec: conversions between spreadsheet labels such as `A1` or
//! `ZZ999` and zero-based `(row, col)` coordinates.
//!
//! Column letters form a bijective base-26 encoding (`A` is column 0, `Z` is
//! column 25, `AA` is column 26). Row digits are 1-based in a label and
//! 0-based internally. A full label is one to three uppercase letters
//! followed by one to three digits without a leading zero.

use vstd::prelude::*;
use vstd::string::StringSliceAdditionalSpecFns;

verus! {

/// `b` is an ASCII decimal digit.
pub open spec fn is_digit(b: u8) -> bool {
    0x30 <= b <= 0x39
}

/// `b` is an ASCII uppercase letter.
pub open spec fn is_upper(b: u8) -> bool {
    0x41 <= b <= 0x5a
}

/// Every byte of `s` is a decimal digit.
pub open spec fn all_digits(s: Seq<u8>) -> bool {
    forall|i: int| 0 <= i < s.len() ==> is_digit(s[i])
}

/// Every byte of `s` is an uppercase letter.
pub open spec fn all_upper(s: Seq<u8>) -> bool {
    forall|i: int| 0 <= i < s.len() ==> is_upper(s[i])
}

/// The 1-based bijective base-26 value of an uppercase letter sequence:
/// `"A"` is 1, `"Z"` is 26, `"AA"` is 27.
pub open spec fn col_val(s: Seq<u8>) -> int
    decreases s.len(),
{
    if s.len() == 0 {
        0
    } else {
        col_val(s.drop_last()) * 26 + (s.last() - 0x40)
    }
}

/// The decimal value of a digit sequence.
pub open spec fn digits_val(s: Seq<u8>) -> int
    decreases s.len(),
{
    if s.len() == 0 {
        0
    } else {
        digits_val(s.drop_last()) * 10 + (s.last() - 0x30)
    }
}

/// The length of the maximal uppercase prefix of `s`.
pub open spec fn upper_prefix_len(s: Seq<u8>) -> int
    decreases s.len(),
{
    if s.len() > 0 && is_upper(s[0]) {
        1 + upper_prefix_len(s.drop_first())
    } else {
        0
    }
}

/// `s` is a well-formed cell label: one to three uppercase letters, then one
/// to three digits whose first digit is not zero.
pub open spec fn wf_label(s: Seq<u8>) -> bool {
    let k = upper_prefix_len(s);
    &&& 1 <= k <= 3
    &&& 1 <= s.len() - k <= 3
    &&& all_digits(s.skip(k))
    &&& s[k] != 0x30
}

/// What `label_to_index` returns: the 0-based coordinates of a well-formed
/// label, `None` otherwise.
pub open spec fn parse_label_spec(s: Seq<u8>) -> Option<(usize, usize)> {
    if wf_label(s) {
        let k = upper_prefix_len(s);
        Some(
            (((digits_val(s.skip(k)) - 1) as usize), ((col_val(s.take(k)) - 1) as usize)),
        )
    } else {
        None
    }
}

/// The largest 0-based column index that the codec accepts from a column
/// label; columns beyond it are treated as out of range.
pub const MAX_COL_INDEX: usize = 0x7fff_ffff;

/// What `col_label_to_index` returns: the 0-based column index of a nonempty
/// all-uppercase label whose index is not beyond `MAX_COL_INDEX`.
pub open spec fn parse_col_spec(s: Seq<u8>) -> Option<usize> {
    if s.len() >= 1 && all_upper(s) && col_val(s) - 1 <= MAX_COL_INDEX {
        Some(((col_val(s) - 1) as usize))
    } else {
        None
    }
}

/// The letters of the 0-based column index `n` in bijective base-26.
pub open spec fn col_label_of(n: int) -> Seq<u8>
    decreases n,
{
    if n < 26 {
        seq![(0x41 + if n >= 0 { n } else { 0 }) as u8]
    } else {
        col_label_of(n / 26 - 1).push((0x41 + n % 26) as u8)
    }
}

/// The decimal digits of `n`, without a sign and without leading zeros.
pub open spec fn digits_of(n: int) -> Seq<u8>
    decreases n,
{
    if n < 10 {
        seq![(0x30 + if n >= 0 { n } else { 0 }) as u8]
    } else {
        digits_of(n / 10).push((0x30 + n % 10) as u8)
    }
}

/// Converts a cell label such as `"B2"` or `"AA10"` into 0-based
/// `(row, col)` coordinates. Rejects anything that is not one to three
/// uppercase letters followed by one to three digits without a leading zero.
/// The bounds of a concrete sheet are the caller's concern.
#[verifier::loop_isolation(false)]
#[verifier::rlimit(60)]
pub fn label_to_index(label: &str) -> (r: Option<(usize, usize)>)
    ensures
        r == parse_label_spec(label.spec_bytes()),
{
    let b: &[u8] = label.as_bytes();
    let ghost s: Seq<u8> = label.spec_bytes();
    let n: usize = b.len();
    let mut k: usize = 0;
    proof {
        assert(s.skip(0) =~= s);
    }
    while k < n && 0x41 <= b[k] && b[k] <= 0x5a
        invariant
            0 <= k <= n,
            n == s.len(),
            b@ == s,
            forall|i: int| 0 <= i < k ==> is_upper(s[i]),
            upper_prefix_len(s) == k + upper_prefix_len(s.skip(k as int)),
        decreases n - k,
    {
        proof {
            assert(s.skip(k as int).drop_first() =~= s.skip(k + 1));
        }
        k = k + 1;
    }
    proof {
        assert(upper_prefix_len(s.skip(k as int)) == 0);
        assert(upper_prefix_len(s) == k);
    }
    if k < 1 || k > 3 {
        return None;
    }
    if n - k < 1 || n - k > 3 {
        return None;
    }
    let mut j: usize = k;
    while j < n && 0x30 <= b[j] && b[j] <= 0x39
        invariant
            k <= j <= n,
            n == s.len(),
            b@ == s,
            forall|i: int| k <= i < j ==> is_digit(s[i]),
        decreases n - j,
    {
        j = j + 1;
    }
    if j < n {
        proof {
            assert(!is_digit(s[j as int]));
            assert(s.skip(k as int)[j - k] == s[j as int]);
            assert(!all_digits(s.skip(k as int)));
        }
        return None;
    }
    proof {
        assert(all_digits(s.skip(k as int))) by {
            assert(forall|i: int|
                0 <= i < s.skip(k as int).len() ==> s.skip(k as int)[i] == s[k + i]);
        }
    }
    if b[k] == 0x30 {
        return None;
    }
    // at this point the label is well formed; compute the two values
    let mut col: usize = 0;
    let mut i: usize = 0;
    while i < k
        invariant
            0 <= i <= k,
            k <= 3,
            k <= n == s.len(),
            b@ == s,
            forall|q: int| 0 <= q < k ==> is_upper(s[q]),
            col == col_val(s.take(i as int)),
            i == 0 ==> col == 0,
            i <= 1 ==> col <= 26,
            i <= 2 ==> col <= 702,
            col <= 18278,
        decreases k - i,
    {
        proof {
            assert(s.take(i + 1).drop_last() =~= s.take(i as int));
            assert(s.take(i + 1).last() == s[i as int]);
        }
        col = col * 26 + (b[i] - 0x40) as usize;
        i = i + 1;
    }
    proof {
        assert(s.take(k as int) =~= s.take(k as int));
    }
    let mut row: usize = 0;
    let mut j2: usize = k;
    while j2 < n
        invariant
            k <= j2 <= n == s.len(),
            n - k <= 3,
            b@ == s,
            forall|q: int| k <= q < n ==> is_digit(s[q]),
            row == digits_val(s.skip(k as int).take(j2 - k)),
            j2 == k ==> row == 0,
            j2 - k <= 1 ==> row <= 9,
            j2 - k <= 2 ==> row <= 99,
            row <= 999,
        decreases n - j2,
    {
        proof {
            let t = s.skip(k as int);
            assert(t.take(j2 - k + 1).drop_last() =~= t.take(j2 - k));
            assert(t.take(j2 - k + 1).last() == t[j2 - k]);
            assert(t[j2 - k] == s[j2 as int]);
        }
        row = row * 10 + (b[j2] - 0x30) as usize;
        j2 = j2 + 1;
    }
    proof {
        assert(s.skip(k as int).take(n - k) =~= s.skip(k as int));
        assert(wf_label(s));
        assert(digits_val(s.skip(upper_prefix_len(s))) >= 1) by {
            lemma_digits_val_pos(s.skip(k as int));
        }
        assert(col_val(s.take(upper_prefix_len(s))) >= 1) by {
            lemma_col_val_pos(s.take(k as int));
        }
    }
    Some((row - 1, col - 1))
}

/// A nonempty digit sequence whose first digit is not zero has a positive
/// value.
pub proof fn lemma_digits_val_pos(s: Seq<u8>)
    requires
        s.len() >= 1,
        all_digits(s),
        s[0] != 0x30,
    ensures
        digits_val(s) >= 1,
    decreases s.len(),
{
    if s.len() == 1 {
        assert(s.last() == s[0]);
        assert(s.drop_last().len() == 0);
        assert(digits_val(s.drop_last()) == 0);
    } else {
        assert(s.drop_last()[0] == s[0]);
        assert(all_digits(s.drop_last())) by {
            assert(forall|i: int| 0 <= i < s.len() - 1 ==> s.drop_last()[i] == s[i]);
        }
        lemma_digits_val_pos(s.drop_last());
        assert(is_digit(s.last()));
    }
}

/// A nonempty uppercase sequence has a positive bijective base-26 value.
pub proof fn lemma_col_val_pos(s: Seq<u8>)
    requires
        s.len() >= 1,
        all_upper(s),
    ensures
        col_val(s) >= 1,
    decreases s.len(),
{
    if s.len() == 1 {
        assert(s.last() == s[0]);
        assert(s.drop_last().len() == 0);
        assert(col_val(s.drop_last()) == 0);
    } else {
        assert(s.drop_last()[0] == s[0]);
        assert(all_upper(s.drop_last())) by {
            assert(forall|i: int| 0 <= i < s.len() - 1 ==> s.drop_last()[i] == s[i]);
        }
        lemma_col_val_pos(s.drop_last());
        assert(is_upper(s.last()));
    }
}

/// Converts a column label such as `"A"`, `"AB"` or `"ZZ"` to its 0-based
/// column index. Rejects the empty string, any byte that is not an uppercase
/// letter, and labels beyond `MAX_COL_INDEX`.
#[verifier::loop_isolation(false)]
pub fn col_label_to_index(label: &str) -> (r: Option<usize>)
    ensures
        r == parse_col_spec(label.spec_bytes()),
{
    let b: &[u8] = label.as_bytes();
    let ghost s: Seq<u8> = label.spec_bytes();
    let n: usize = b.len();
    if n == 0 {
        return None;
    }
    let mut acc: u64 = 0;
    let mut i: usize = 0;
    while i < n
        invariant
            0 <= i <= n == s.len(),
            b@ == s,
            forall|q: int| 0 <= q < i ==> is_upper(s[q]),
            col_val(s.take(i as int)) <= MAX_COL_INDEX + 1 ==> acc == col_val(s.take(i as int)),
            col_val(s.take(i as int)) > MAX_COL_INDEX + 1 ==> acc > MAX_COL_INDEX + 1,
            acc <= 0xffff_ffff_ffff,
        decreases n - i,
    {
        if b[i] < 0x41 || b[i] > 0x5a {
            proof {
                assert(!is_upper(s[i as int]));
                assert(!all_upper(s));
            }
            return None;
        }
        proof {
            assert(s.take(i + 1).drop_last() =~= s.take(i as int));
            assert(s.take(i + 1).last() == s[i as int]);
            lemma_col_val_pos(s.take(i + 1));
        }
        if acc > (MAX_COL_INDEX as u64) + 1 {
            // saturate: the exact value no longer matters, only that it is too big
            acc = (MAX_COL_INDEX as u64) + 2;
        }
        acc = acc * 26 + (b[i] - 0x40) as u64;
        i = i + 1;
    }
    proof {
        assert(s.take(n as int) =~= s);
        lemma_col_val_pos(s);
    }
    if acc > (MAX_COL_INDEX as u64) + 1 {
        return None;
    }
    Some((acc - 1) as usize)
}

/// Converts a 0-based column index into its letters, the inverse of
/// `col_label_to_index` on indexes below 18278 (the largest three-letter
/// column, `"ZZZ"`).
pub fn col_index_to_label(index: usize) -> (r: String)
    requires
        index < 18278,
    ensures
        r@.len() == col_label_of(index as int).len(),
        forall|i: int|
            0 <= i < r@.len() ==> r@[i] == col_label_of(index as int)[i] as char,
{
    let mut buf: Vec<u8> = Vec::new();
    if index < 26 {
        buf.push(0x41 + (index as u8));
        proof {
            assert(buf@ =~= col_label_of(index as int));
        }
    } else if index < 702 {
        buf.push(0x41 + ((index / 26 - 1) as u8));
        buf.push(0x41 + ((index % 26) as u8));
        proof {
            assert(col_label_of(index / 26 - 1) =~= seq![(0x41 + (index / 26 - 1)) as u8]);
            assert(buf@ =~= col_label_of(index as int));
        }
    } else {
        let hi: usize = index / 26 - 1;
        buf.push(0x41 + ((hi / 26 - 1) as u8));
        buf.push(0x41 + ((hi % 26) as u8));
        buf.push(0x41 + ((index % 26) as u8));
        proof {
            assert(col_label_of(hi / 26 - 1) =~= seq![(0x41 + (hi / 26 - 1)) as u8]);
            assert(col_label_of(hi as int) =~= seq![
                (0x41 + (hi / 26 - 1)) as u8,
                (0x41 + (hi % 26)) as u8,
            ]);
            assert(buf@ =~= col_label_of(index as int));
        }
    }
    ascii_bytes_to_string(buf)
}

/// The letters of a column index are uppercase, decode back to that index,
/// and keep to three letters for every index a label can carry.
pub proof fn lemma_col_label_of_inverse(n: int)
    requires
        0 <= n,
    ensures
        all_upper(col_label_of(n)),
        col_label_of(n).len() >= 1,
        col_val(col_label_of(n)) == n + 1,
        n < 26 ==> col_label_of(n).len() == 1,
        n < 702 ==> col_label_of(n).len() <= 2,
        n < 18278 ==> col_label_of(n).len() <= 3,
    decreases n,
{
    if n < 26 {
        let l = col_label_of(n);
        assert(l =~= seq![(0x41 + n) as u8]);
        assert(l.drop_last().len() == 0);
        assert(col_val(l.drop_last()) == 0);
        assert(col_val(l) == n + 1);
    } else {
        let m = n / 26 - 1;
        assert(0 <= m < n) by (nonlinear_arith)
            requires m == n / 26 - 1, n >= 26;
        lemma_col_label_of_inverse(m);
        let l = col_label_of(m);
        let c = (0x41 + n % 26) as u8;
        assert(col_label_of(n) == l.push(c));
        assert(l.push(c).drop_last() =~= l);
        assert(l.push(c).last() == c);
        assert(n == 26 * (n / 26) + n % 26) by {
            vstd::arithmetic::div_mod::lemma_fundamental_div_mod(n, 26);
        }
        assert(col_val(l.push(c)) == (m + 1) * 26 + (c - 0x40));
        assert(is_upper(c));
        assert(all_upper(l.push(c))) by {
            assert(forall|i: int| 0 <= i < l.len() ==> l.push(c)[i] == l[i]);
        }
        assert(n < 702 ==> m < 26) by (nonlinear_arith)
            requires m == n / 26 - 1, n >= 26;
        assert(n < 18278 ==> m < 702) by (nonlinear_arith)
            requires m == n / 26 - 1, n >= 26;
    }
}

/// The digits of a number decode back to that number, start with a nonzero
/// digit for every positive number, and keep to three digits up to 999.
pub proof fn lemma_digits_of_inverse(n: int)
    requires
        0 <= n,
    ensures
        all_digits(digits_of(n)),
        digits_of(n).len() >= 1,
        digits_val(digits_of(n)) == n,
        n >= 1 ==> digits_of(n)[0] != 0x30,
        n < 10 ==> digits_of(n).len() == 1,
        n < 100 ==> digits_of(n).len() <= 2,
        n < 1000 ==> digits_of(n).len() <= 3,
    decreases n,
{
    if n < 10 {
        let l = digits_of(n);
        assert(l =~= seq![(0x30 + n) as u8]);
        assert(l.drop_last().len() == 0);
        assert(digits_val(l.drop_last()) == 0);
    } else {
        let m = n / 10;
        assert(1 <= m < n) by (nonlinear_arith)
            requires m == n / 10, n >= 10;
        lemma_digits_of_inverse(m);
        let l = digits_of(m);
        let c = (0x30 + n % 10) as u8;
        assert(digits_of(n) == l.push(c));
        assert(l.push(c).drop_last() =~= l);
        assert(l.push(c).last() == c);
        assert(n == 10 * (n / 10) + n % 10) by {
            vstd::arithmetic::div_mod::lemma_fundamental_div_mod(n, 10);
        }
        assert(is_digit(c));
        assert(all_digits(l.push(c))) by {
            assert(forall|i: int| 0 <= i < l.len() ==> l.push(c)[i] == l[i]);
        }
        assert(l.push(c)[0] == l[0]);
        assert(n < 100 ==> m < 10) by (nonlinear_arith)
            requires m == n / 10, n >= 10;
        assert(n < 1000 ==> m < 100) by (nonlinear_arith)
            requires m == n / 10, n >= 10;
    }
}

/// The uppercase prefix of letters followed by a non-letter is exactly the
/// letters.
proof fn lemma_upper_prefix_of_concat(a: Seq<u8>, b: Seq<u8>)
    requires
        all_upper(a),
        b.len() > 0,
        !is_upper(b[0]),
    ensures
        upper_prefix_len(a + b) == a.len(),
    decreases a.len(),
{
    if a.len() == 0 {
        assert(a + b =~= b);
    } else {
        assert((a + b)[0] == a[0]);
        assert((a + b).drop_first() =~= a.drop_first() + b);
        assert(all_upper(a.drop_first())) by {
            assert(forall|i: int| 0 <= i < a.len() - 1 ==> a.drop_first()[i] == a[i + 1]);
        }
        lemma_upper_prefix_of_concat(a.drop_first(), b);
    }
}

/// Round trip of the label codec: formatting in-range coordinates as column
/// letters followed by the 1-based row digits and parsing the result gives
/// the coordinates back.
pub proof fn lemma_label_round_trip(row: usize, col: usize)
    requires
        row <= 998,
        col <= 18277,
    ensures
        parse_label_spec(col_label_of(col as int) + digits_of(row as int + 1)) == Some(
            (row, col),
        ),
{
    let l = col_label_of(col as int);
    let d = digits_of(row as int + 1);
    let s = l + d;
    lemma_col_label_of_inverse(col as int);
    lemma_digits_of_inverse(row as int + 1);
    assert(!is_digit(0x41u8) && !is_upper(0x30u8));
    assert(!is_upper(d[0]));
    lemma_upper_prefix_of_concat(l, d);
    assert(s.take(l.len() as int) =~= l);
    assert(s.skip(l.len() as int) =~= d);
    assert(s[l.len() as int] == d[0]);
    assert(wf_label(s));
}

/// Relies on `String::from_utf8`: ASCII bytes decode to the string whose
/// characters are those bytes; on ASCII input it cannot fail.
#[verifier::external_body]
fn ascii_bytes_to_string(v: Vec<u8>) -> (r: String)
    requires
        forall|i: int| 0 <= i < v@.len() ==> v@[i] < 0x80,
    ensures
        r@.len() == v@.len(),
        forall|i: int| 0 <= i < r@.len() ==> r@[i] == v@[i] as char,
{
    String::from_utf8(v).unwrap_or_else(|_| String::new())
}

} // verus!
