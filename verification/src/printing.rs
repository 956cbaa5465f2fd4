use crate::complex_model::valid_facets;
use crate::parser::{
    complex_at, digits_from, expect_byte, is_digit, number, number_tail, Outcome, simplex_at,
    simplex_tail, skip_spaces, spaced_byte, spaced_number, spaced_simplex,
};
use vstd::prelude::*;

verus! {

/// The byte of a decimal digit.
pub open spec fn digit_byte(d: nat) -> u8 {
    (48 + d) as u8
}

/// The decimal numeral of `n`, without leading zeros.
pub open spec fn decimal_bytes(n: nat) -> Seq<u8>
    decreases n,
{
    if n < 10 {
        seq![digit_byte(n)]
    } else {
        decimal_bytes(n / 10).push(digit_byte(n % 10))
    }
}

/// The vertices from the `k`-th on, each after a comma and a space.
pub open spec fn number_rest(f: Seq<usize>, k: int) -> Seq<u8>
    decreases f.len() - k,
{
    if k >= f.len() {
        Seq::empty()
    } else {
        seq![44u8, 32u8] + decimal_bytes(f[k] as nat) + number_rest(f, k + 1)
    }
}

/// A simplex as text: its vertices in brackets, separated by a comma and
/// a space.
pub open spec fn simplex_text(f: Seq<usize>) -> Seq<u8> {
    seq![91u8] + decimal_bytes(f[0] as nat) + number_rest(f, 1) + seq![93u8]
}

/// The simplices from the `k`-th on, each after a comma and a space.
pub open spec fn simplex_rest(list: Seq<Seq<usize>>, k: int) -> Seq<u8>
    decreases list.len() - k,
{
    if k >= list.len() {
        Seq::empty()
    } else {
        seq![44u8, 32u8] + simplex_text(list[k]) + simplex_rest(list, k + 1)
    }
}

/// A complex as text: its simplices in brackets, separated by a comma and
/// a space.
pub open spec fn complex_text(list: Seq<Seq<usize>>) -> Seq<u8> {
    seq![91u8] + simplex_text(list[0]) + simplex_rest(list, 1) + seq![93u8]
}

/// The text `x` stands in `s` at `pos`.
pub open spec fn stands(s: Seq<u8>, pos: int, x: Seq<u8>) -> bool {
    &&& 0 <= pos
    &&& pos + x.len() <= s.len()
    &&& forall|i: int| 0 <= i < x.len() ==> s[pos + i] == #[trigger] x[i]
}

/// A text made of two parts stands where the first part stands and the
/// second follows it.
pub proof fn lemma_stands_concat(s: Seq<u8>, pos: int, a: Seq<u8>, b: Seq<u8>)
    ensures
        stands(s, pos, a + b) <==> stands(s, pos, a) && stands(s, pos + a.len(), b),
{
    let ab = a + b;
    if stands(s, pos, ab) {
        assert forall|i: int| 0 <= i < a.len() implies s[pos + i] == #[trigger] a[i] by {
            assert(ab[i] == a[i]);
        }
        assert forall|i: int| 0 <= i < b.len() implies s[pos + a.len() + i] == #[trigger] b[i] by {
            assert(ab[a.len() + i] == b[i]);
        }
    }
    if stands(s, pos, a) && stands(s, pos + a.len(), b) {
        assert forall|i: int| 0 <= i < ab.len() implies s[pos + i] == #[trigger] ab[i] by {
            if i < a.len() {
                assert(ab[i] == a[i]);
            } else {
                assert(ab[i] == b[i - a.len()]);
                assert(s[pos + a.len() + (i - a.len())] == b[i - a.len()]);
            }
        }
    }
}

/// A numeral is one or more digits.
pub proof fn lemma_decimal_digits(n: nat)
    ensures
        decimal_bytes(n).len() >= 1,
        forall|i: int| 0 <= i < decimal_bytes(n).len() ==> is_digit(#[trigger] decimal_bytes(n)[i]),
    decreases n,
{
    if n >= 10 {
        lemma_decimal_digits(n / 10);
    }
}

/// Reading the digits of the numeral of `n` from the start leaves the
/// value `n`.
pub proof fn lemma_digits_read(s: Seq<u8>, pos: int, n: nat)
    requires
        stands(s, pos, decimal_bytes(n)),
        n <= usize::MAX,
    ensures
        n < 10 ==> digits_from(s, pos, 0) == digits_from(s, pos + 1, n),
        n >= 10 ==> digits_from(s, pos, 0) == digits_from(s, pos + decimal_bytes(n).len(), n),
        n >= 10 ==> decimal_bytes(n).len() >= 2,
    decreases n,
{
    let text = decimal_bytes(n);
    if n < 10 {
        assert(text[0] == digit_byte(n));
        assert(s[pos + 0] == text[0]);
    } else {
        let head = decimal_bytes(n / 10);
        let last = seq![digit_byte(n % 10)];
        assert(text =~= head + last);
        lemma_stands_concat(s, pos, head, last);
        lemma_digits_read(s, pos, n / 10);
        lemma_decimal_digits(n / 10);
        let q = pos + head.len();
        assert(last[0] == digit_byte(n % 10));
        assert(s[q + 0] == last[0]);
        assert((n / 10) * 10 + (n % 10) == n);
        if n / 10 < 10 {
            assert(head.len() == 1);
        }
        assert(digits_from(s, q, n / 10) == digits_from(s, q + 1, n));
    }
}

/// A numeral followed by a byte that is no digit is read as its value.
pub proof fn lemma_number_read(s: Seq<u8>, pos: int, n: nat)
    requires
        stands(s, pos, decimal_bytes(n)),
        n <= usize::MAX,
        pos + decimal_bytes(n).len() < s.len(),
        !is_digit(s[pos + decimal_bytes(n).len()]),
    ensures
        number(s, pos) == (Outcome::Done { value: n as usize, next: pos + decimal_bytes(n).len() }),
{
    lemma_digits_read(s, pos, n);
    lemma_decimal_digits(n);
    assert(s[pos + 0] == decimal_bytes(n)[0]);
}

/// A numeral followed by a comma or a closing bracket is read, with the
/// white space around it, as its value.
pub proof fn lemma_spaced_number_read(s: Seq<u8>, pos: int, n: nat)
    requires
        stands(s, pos, decimal_bytes(n)),
        n <= usize::MAX,
        pos + decimal_bytes(n).len() < s.len(),
        s[pos + decimal_bytes(n).len()] == 44 || s[pos + decimal_bytes(n).len()] == 93,
    ensures
        spaced_number(s, pos) == (Outcome::Done {
            value: n as usize,
            next: pos + decimal_bytes(n).len(),
        }),
{
    lemma_number_read(s, pos, n);
    lemma_decimal_digits(n);
    assert(s[pos + 0] == decimal_bytes(n)[0]);
}

/// The first byte of the rest of a list of vertices, followed by a
/// closing bracket, is a comma or the bracket.
pub proof fn lemma_number_rest_head(s: Seq<u8>, pos: int, f: Seq<usize>, k: int)
    requires
        0 <= k <= f.len(),
        stands(s, pos, number_rest(f, k) + seq![93u8]),
    ensures
        pos < s.len(),
        s[pos] == 44 || s[pos] == 93,
{
    let x = number_rest(f, k) + seq![93u8];
    assert(s[pos + 0] == x[0]);
    if k < f.len() {
        assert(number_rest(f, k)[0] == 44);
    }
}

/// The rest of a printed list of vertices is read back.
pub proof fn lemma_number_tail_read(s: Seq<u8>, pos: int, f: Seq<usize>, k: int)
    requires
        1 <= k <= f.len(),
        stands(s, pos, number_rest(f, k) + seq![93u8]),
    ensures
        number_tail(s, pos, f.take(k)) == (Outcome::Done {
            value: f,
            next: pos + number_rest(f, k).len(),
        }),
    decreases f.len() - k,
{
    let rest = number_rest(f, k);
    lemma_stands_concat(s, pos, rest, seq![93u8]);
    if k == f.len() {
        assert(seq![93u8][0] == 93);
        assert(s[pos + 0] == 93);
        assert(f.take(k) =~= f);
        assert(skip_spaces(s, pos) == Some(pos));
    } else {
        let sep = seq![44u8, 32u8];
        let num = decimal_bytes(f[k] as nat);
        let after = number_rest(f, k + 1);
        assert(rest == sep + num + after);
        lemma_stands_concat(s, pos, sep + num, after);
        lemma_stands_concat(s, pos, sep, num);
        lemma_decimal_digits(f[k] as nat);
        assert(sep[0] == 44 && sep[1] == 32);
        assert(s[pos + 0] == 44 && s[pos + 1] == 32);
        assert(s[pos + 2 + 0] == num[0]);
        assert(skip_spaces(s, pos) == Some(pos));
        assert(skip_spaces(s, pos + 2) == Some(pos + 2));
        assert(skip_spaces(s, pos + 1) == Some(pos + 2));
        assert(spaced_byte(s, pos, 44) == (Outcome::Done { value: (), next: pos + 2 }));
        let q = pos + 2 + num.len();
        lemma_stands_concat(s, q, after, seq![93u8]);
        assert(stands(s, q, after + seq![93u8]));
        lemma_number_rest_head(s, q, f, k + 1);
        lemma_spaced_number_read(s, pos + 2, f[k] as nat);
        assert(f.take(k).push(f[k]) =~= f.take(k + 1));
        lemma_number_tail_read(s, q, f, k + 1);
    }
}

/// A printed simplex is read back.
pub proof fn lemma_simplex_read(s: Seq<u8>, pos: int, f: Seq<usize>)
    requires
        f.len() >= 1,
        stands(s, pos, simplex_text(f)),
    ensures
        simplex_at(s, pos) == (Outcome::Done { value: f, next: pos + simplex_text(f).len() }),
        simplex_text(f).len() >= 3,
        simplex_text(f)[0] == 91,
{
    let open = seq![91u8];
    let num = decimal_bytes(f[0] as nat);
    let rest = number_rest(f, 1);
    let close = seq![93u8];
    assert(simplex_text(f) == open + num + rest + close);
    assert(open + num + rest + close =~= open + (num + (rest + close)));
    lemma_stands_concat(s, pos, open, num + (rest + close));
    lemma_stands_concat(s, pos + 1, num, rest + close);
    lemma_stands_concat(s, pos + 1 + num.len(), rest, close);
    lemma_decimal_digits(f[0] as nat);
    assert(open[0] == 91);
    assert(s[pos + 0] == 91);
    assert(s[pos + 1 + 0] == num[0]);
    assert(skip_spaces(s, pos) == Some(pos));
    assert(skip_spaces(s, pos + 1) == Some(pos + 1));
    assert(spaced_byte(s, pos, 91) == (Outcome::Done { value: (), next: pos + 1 }));
    let q = pos + 1 + num.len();
    lemma_number_rest_head(s, q, f, 1);
    lemma_spaced_number_read(s, pos + 1, f[0] as nat);
    assert(f.take(1) =~= seq![f[0]]);
    lemma_number_tail_read(s, q, f, 1);
    let e = q + rest.len();
    assert(close[0] == 93);
    assert(s[e + 0] == 93);
    assert(expect_byte(s, e, 93) == (Outcome::Done { value: (), next: e + 1 }));
    assert((open + num + rest + close)[0] == 91);
}

/// The first byte of the rest of a list of simplices, followed by a
/// closing bracket, is a comma or the bracket.
pub proof fn lemma_simplex_rest_head(s: Seq<u8>, pos: int, list: Seq<Seq<usize>>, k: int)
    requires
        0 <= k <= list.len(),
        stands(s, pos, simplex_rest(list, k) + seq![93u8]),
    ensures
        pos < s.len(),
        s[pos] == 44 || s[pos] == 93,
{
    let x = simplex_rest(list, k) + seq![93u8];
    assert(s[pos + 0] == x[0]);
    if k < list.len() {
        assert(simplex_rest(list, k)[0] == 44);
    }
}

/// A printed simplex followed by a comma or a closing bracket is read
/// back, with the white space around it.
pub proof fn lemma_spaced_simplex_read(s: Seq<u8>, pos: int, f: Seq<usize>)
    requires
        f.len() >= 1,
        stands(s, pos, simplex_text(f)),
        pos + simplex_text(f).len() < s.len(),
        s[pos + simplex_text(f).len()] == 44 || s[pos + simplex_text(f).len()] == 93,
    ensures
        spaced_simplex(s, pos) == (Outcome::Done { value: f, next: pos + simplex_text(f).len() }),
{
    lemma_simplex_read(s, pos, f);
    assert(s[pos + 0] == simplex_text(f)[0]);
    assert(skip_spaces(s, pos) == Some(pos));
    assert(skip_spaces(s, pos + simplex_text(f).len()) == Some(pos + simplex_text(f).len()));
}

/// The rest of a printed list of simplices is read back.
pub proof fn lemma_simplex_tail_read(s: Seq<u8>, pos: int, list: Seq<Seq<usize>>, k: int)
    requires
        1 <= k <= list.len(),
        forall|i: int| 0 <= i < list.len() ==> (#[trigger] list[i]).len() >= 1,
        stands(s, pos, simplex_rest(list, k) + seq![93u8]),
    ensures
        simplex_tail(s, pos, list.take(k)) == (Outcome::Done {
            value: list,
            next: pos + simplex_rest(list, k).len(),
        }),
    decreases list.len() - k,
{
    let rest = simplex_rest(list, k);
    lemma_stands_concat(s, pos, rest, seq![93u8]);
    if k == list.len() {
        assert(seq![93u8][0] == 93);
        assert(s[pos + 0] == 93);
        assert(list.take(k) =~= list);
        assert(skip_spaces(s, pos) == Some(pos));
    } else {
        let sep = seq![44u8, 32u8];
        let item = simplex_text(list[k]);
        let after = simplex_rest(list, k + 1);
        assert(rest == sep + item + after);
        lemma_stands_concat(s, pos, sep + item, after);
        lemma_stands_concat(s, pos, sep, item);
        assert(sep[0] == 44 && sep[1] == 32);
        assert(s[pos + 0] == 44 && s[pos + 1] == 32);
        lemma_simplex_read(s, pos + 2, list[k]);
        assert(s[pos + 2 + 0] == item[0]);
        assert(skip_spaces(s, pos) == Some(pos));
        assert(skip_spaces(s, pos + 2) == Some(pos + 2));
        assert(skip_spaces(s, pos + 1) == Some(pos + 2));
        assert(spaced_byte(s, pos, 44) == (Outcome::Done { value: (), next: pos + 2 }));
        let q = pos + 2 + item.len();
        lemma_stands_concat(s, q, after, seq![93u8]);
        lemma_simplex_rest_head(s, q, list, k + 1);
        lemma_spaced_simplex_read(s, pos + 2, list[k]);
        assert(list.take(k).push(list[k]) =~= list.take(k + 1));
        lemma_simplex_tail_read(s, q, list, k + 1);
    }
}

/// A printed complex that stands in a text is read back from there.
pub proof fn lemma_complex_read(s: Seq<u8>, pos: int, list: Seq<Seq<usize>>)
    requires
        valid_facets(list),
        stands(s, pos, complex_text(list)),
    ensures
        complex_at(s, pos) == (Outcome::Done { value: list, next: pos + complex_text(list).len() }),
{
    let open = seq![91u8];
    let item = simplex_text(list[0]);
    let rest = simplex_rest(list, 1);
    let close = seq![93u8];
    assert(complex_text(list) == open + item + rest + close);
    assert(open + item + rest + close =~= open + (item + (rest + close)));
    lemma_stands_concat(s, pos, open, item + (rest + close));
    lemma_stands_concat(s, pos + 1, item, rest + close);
    lemma_stands_concat(s, pos + 1 + item.len(), rest, close);
    lemma_simplex_read(s, pos + 1, list[0]);
    assert(open[0] == 91);
    assert(s[pos + 0] == 91);
    assert(s[pos + 1 + 0] == item[0]);
    assert(skip_spaces(s, pos) == Some(pos));
    assert(skip_spaces(s, pos + 1) == Some(pos + 1));
    assert(spaced_byte(s, pos, 91) == (Outcome::Done { value: (), next: pos + 1 }));
    let q = pos + 1 + item.len();
    lemma_simplex_rest_head(s, q, list, 1);
    lemma_spaced_simplex_read(s, pos + 1, list[0]);
    assert(list.take(1) =~= seq![list[0]]);
    lemma_simplex_tail_read(s, q, list, 1);
    let e = q + rest.len();
    assert(close[0] == 93);
    assert(s[e + 0] == 93);
    assert(expect_byte(s, e, 93) == (Outcome::Done { value: (), next: e + 1 }));
}

/// Reading a printed complex gives the complex back: for every list of
/// simplices with at least one simplex and at least one vertex in each,
/// the text of the list is read, to its end, as that list.
pub proof fn lemma_round_trip(list: Seq<Seq<usize>>)
    requires
        valid_facets(list),
    ensures
        complex_at(complex_text(list), 0) == (Outcome::Done {
            value: list,
            next: complex_text(list).len() as int,
        }),
{
    let s = complex_text(list);
    assert(stands(s, 0, s));
    lemma_complex_read(s, 0, list);
}

} // verus!
