//! The JSON persistence format, written and read by verified code.
//!
//! A puzzle is persisted as one object holding its checksum (as a decimal
//! string), its dimensions, its clues and its grid.  The writer produces
//! the canonical rendering with no spacing; the reader accepts exactly that
//! rendering, so that a written puzzle always reads back.

use vstd::prelude::*;

use crate::clues::ints_of;
use crate::solution::clues_of;

verus! {

/// The decimal digit characters.
pub open spec fn digit_char(d: int) -> char {
    if d == 0 {
        '0'
    } else if d == 1 {
        '1'
    } else if d == 2 {
        '2'
    } else if d == 3 {
        '3'
    } else if d == 4 {
        '4'
    } else if d == 5 {
        '5'
    } else if d == 6 {
        '6'
    } else if d == 7 {
        '7'
    } else if d == 8 {
        '8'
    } else {
        '9'
    }
}

/// The canonical decimal rendering of a nonnegative number.
pub open spec fn dec_of(n: int) -> Seq<char>
    decreases n,
{
    if n < 10 {
        seq![digit_char(n)]
    } else {
        dec_of(n / 10).push(digit_char(n % 10))
    }
}

/// Numbers joined by commas.
pub open spec fn joined_nums(s: Seq<int>) -> Seq<char>
    decreases s.len(),
{
    if s.len() == 0 {
        Seq::empty()
    } else if s.len() == 1 {
        dec_of(s[0])
    } else {
        dec_of(s[0]) + seq![','] + joined_nums(s.drop_first())
    }
}

/// A JSON array of numbers.
pub open spec fn num_list(s: Seq<int>) -> Seq<char> {
    seq!['['] + joined_nums(s) + seq![']']
}

/// Number lists joined by commas.
pub open spec fn joined_rows(v: Seq<Seq<int>>) -> Seq<char>
    decreases v.len(),
{
    if v.len() == 0 {
        Seq::empty()
    } else if v.len() == 1 {
        num_list(v[0])
    } else {
        num_list(v[0]) + seq![','] + joined_rows(v.drop_first())
    }
}

/// A JSON array of arrays of numbers.
pub open spec fn row_lists(v: Seq<Seq<int>>) -> Seq<char> {
    seq!['['] + joined_rows(v) + seq![']']
}

/// A grid of cells, read as rows of integers.
pub open spec fn grid_ints(v: Seq<Vec<u8>>) -> Seq<Seq<int>> {
    v.map_values(|r: Vec<u8>| r@.map_values(|x: u8| x as int))
}

/// The canonical JSON document of a puzzle.
pub open spec fn doc_of(
    checksum: int,
    height: int,
    width: int,
    rows: Seq<Seq<int>>,
    cols: Seq<Seq<int>>,
    grid: Seq<Seq<int>>,
) -> Seq<char> {
    "{\"checksum\":\""@ + dec_of(checksum) + "\",\"height\":"@ + dec_of(height)
        + ",\"width\":"@ + dec_of(width) + ",\"row_segments\":"@ + row_lists(rows)
        + ",\"column_segments\":"@ + row_lists(cols) + ",\"completed_grid\":"@ + row_lists(grid)
        + "}"@
}

fn digit_of(d: u64) -> (c: char)
    requires
        d < 10,
    ensures
        c == digit_char(d as int),
{
    if d == 0 {
        '0'
    } else if d == 1 {
        '1'
    } else if d == 2 {
        '2'
    } else if d == 3 {
        '3'
    } else if d == 4 {
        '4'
    } else if d == 5 {
        '5'
    } else if d == 6 {
        '6'
    } else if d == 7 {
        '7'
    } else if d == 8 {
        '8'
    } else {
        '9'
    }
}

/// Appends every character of a literal.
fn push_lit(out: &mut Vec<char>, lit: &str)
    ensures
        final(out)@ == old(out)@ + lit@,
{
    let n = lit.unicode_len();
    let mut i: usize = 0;
    proof {
        assert(out@ =~= old(out)@ + lit@.take(0));
    }
    while i < n
        invariant
            i <= n,
            n == lit@.len(),
            out@ == old(out)@ + lit@.take(i as int),
        decreases n - i,
    {
        out.push(lit.get_char(i));
        proof {
            assert(out@ =~= old(out)@ + lit@.take(i as int + 1));
        }
        i = i + 1;
    }
    proof {
        assert(lit@.take(n as int) =~= lit@);
    }
}

/// Appends the decimal rendering of a number.
fn push_u64(out: &mut Vec<char>, n: u64)
    ensures
        final(out)@ == old(out)@ + dec_of(n as int),
{
    if n < 10 {
        out.push(digit_of(n));
        proof {
            assert(out@ =~= old(out)@ + dec_of(n as int));
        }
        return ;
    }
    let mut digits: Vec<char> = Vec::new();
    let mut m: u64 = n;
    while m > 0
        invariant
            m > 0 ==> dec_of(n as int) == dec_of(m as int) + digits@.reverse(),
            m == 0 ==> dec_of(n as int) == digits@.reverse(),
        decreases m,
    {
        let ghost before = digits@;
        digits.push(digit_of(m % 10));
        proof {
            assert(digits@.reverse() =~= seq![digit_char(m as int % 10)] + before.reverse());
            if m >= 10 {
                assert(dec_of(m as int) == dec_of(m as int / 10).push(
                    digit_char(m as int % 10),
                ));
                assert(dec_of(m as int / 10) + digits@.reverse() =~= dec_of(m as int)
                    + before.reverse());
            } else {
                assert(dec_of(m as int) =~= seq![digit_char(m as int)]);
                assert(digits@.reverse() =~= dec_of(m as int) + before.reverse());
            }
        }
        m = m / 10;
    }
    let total = digits.len();
    let mut j: usize = 0;
    proof {
        assert(out@ =~= old(out)@ + digits@.reverse().take(0));
    }
    while j < total
        invariant
            j <= total,
            total == digits@.len(),
            dec_of(n as int) == digits@.reverse(),
            out@ == old(out)@ + digits@.reverse().take(j as int),
        decreases total - j,
    {
        proof {
            assert(digits@.reverse()[j as int] == digits@[total - 1 - j as int]);
        }
        out.push(digits[total - 1 - j]);
        proof {
            assert(out@ =~= old(out)@ + digits@.reverse().take(j as int + 1));
        }
        j = j + 1;
    }
    proof {
        assert(digits@.reverse().take(total as int) =~= digits@.reverse());
    }
}

proof fn lemma_joined_nums_push(s: Seq<int>, x: int)
    ensures
        joined_nums(s.push(x)) == joined_nums(s) + (if s.len() > 0 {
            seq![',']
        } else {
            Seq::<char>::empty()
        }) + dec_of(x),
    decreases s.len(),
{
    let p = s.push(x);
    if s.len() == 0 {
        assert(p.len() == 1);
        assert(p[0] == x);
        assert(joined_nums(p) == dec_of(x));
        assert(joined_nums(s) + Seq::<char>::empty() + dec_of(x) =~= dec_of(x));
    } else {
        assert(p.len() >= 2);
        assert(p[0] == s[0]);
        assert(p.drop_first() =~= s.drop_first().push(x));
        lemma_joined_nums_push(s.drop_first(), x);
        if s.len() == 1 {
            assert(s.drop_first().len() == 0);
            assert(joined_nums(p) =~= joined_nums(s) + seq![','] + dec_of(x));
        } else {
            assert(joined_nums(s) == dec_of(s[0]) + seq![','] + joined_nums(s.drop_first()));
            assert(joined_nums(p) =~= joined_nums(s) + seq![','] + dec_of(x));
        }
    }
}

proof fn lemma_joined_rows_push(v: Seq<Seq<int>>, x: Seq<int>)
    ensures
        joined_rows(v.push(x)) == joined_rows(v) + (if v.len() > 0 {
            seq![',']
        } else {
            Seq::<char>::empty()
        }) + num_list(x),
    decreases v.len(),
{
    let p = v.push(x);
    if v.len() == 0 {
        assert(p.len() == 1);
        assert(p[0] == x);
        assert(joined_rows(p) == num_list(x));
        assert(joined_rows(v) + Seq::<char>::empty() + num_list(x) =~= num_list(x));
    } else {
        assert(p.len() >= 2);
        assert(p[0] == v[0]);
        assert(p.drop_first() =~= v.drop_first().push(x));
        lemma_joined_rows_push(v.drop_first(), x);
        if v.len() == 1 {
            assert(v.drop_first().len() == 0);
            assert(joined_rows(p) =~= joined_rows(v) + seq![','] + num_list(x));
        } else {
            assert(joined_rows(v) == num_list(v[0]) + seq![','] + joined_rows(v.drop_first()));
            assert(joined_rows(p) =~= joined_rows(v) + seq![','] + num_list(x));
        }
    }
}

/// Appends a JSON array of numbers.
fn push_usize_row(out: &mut Vec<char>, xs: &Vec<usize>)
    ensures
        final(out)@ == old(out)@ + num_list(ints_of(xs@)),
{
    out.push('[');
    let mut i: usize = 0;
    proof {
        assert(ints_of(xs@).take(0) =~= Seq::<int>::empty());
        assert(out@ =~= old(out)@ + seq!['['] + joined_nums(ints_of(xs@).take(0)));
    }
    while i < xs.len()
        invariant
            i <= xs@.len(),
            out@ == old(out)@ + seq!['['] + joined_nums(ints_of(xs@).take(i as int)),
        decreases xs@.len() - i,
    {
        let ghost sofar = ints_of(xs@).take(i as int);
        if i > 0 {
            out.push(',');
        }
        push_u64(out, xs[i] as u64);
        proof {
            assert(ints_of(xs@).take(i as int + 1) =~= sofar.push(ints_of(xs@)[i as int]));
            lemma_joined_nums_push(sofar, ints_of(xs@)[i as int]);
            assert(ints_of(xs@)[i as int] == xs@[i as int] as int);
            if i > 0 {
                assert(sofar.len() > 0);
                assert(out@ =~= old(out)@ + seq!['['] + joined_nums(
                    ints_of(xs@).take(i as int + 1),
                ));
            } else {
                assert(out@ =~= old(out)@ + seq!['['] + joined_nums(
                    ints_of(xs@).take(i as int + 1),
                ));
            }
        }
        i = i + 1;
    }
    out.push(']');
    proof {
        assert(ints_of(xs@).take(xs@.len() as int) =~= ints_of(xs@));
        assert(out@ =~= old(out)@ + num_list(ints_of(xs@)));
    }
}

/// Appends a JSON array of numbers holding a grid row.
fn push_u8_row(out: &mut Vec<char>, xs: &Vec<u8>)
    ensures
        final(out)@ == old(out)@ + num_list(xs@.map_values(|x: u8| x as int)),
{
    let ghost xv = xs@.map_values(|x: u8| x as int);
    out.push('[');
    let mut i: usize = 0;
    proof {
        assert(xv.take(0) =~= Seq::<int>::empty());
        assert(out@ =~= old(out)@ + seq!['['] + joined_nums(xv.take(0)));
    }
    while i < xs.len()
        invariant
            i <= xs@.len(),
            xv == xs@.map_values(|x: u8| x as int),
            out@ == old(out)@ + seq!['['] + joined_nums(xv.take(i as int)),
        decreases xs@.len() - i,
    {
        let ghost sofar = xv.take(i as int);
        if i > 0 {
            out.push(',');
        }
        push_u64(out, xs[i] as u64);
        proof {
            assert(xv.take(i as int + 1) =~= sofar.push(xv[i as int]));
            lemma_joined_nums_push(sofar, xv[i as int]);
            assert(xv[i as int] == xs@[i as int] as int);
            assert(out@ =~= old(out)@ + seq!['['] + joined_nums(xv.take(i as int + 1)));
        }
        i = i + 1;
    }
    out.push(']');
    proof {
        assert(xv.take(xs@.len() as int) =~= xv);
        assert(out@ =~= old(out)@ + num_list(xv));
    }
}

/// Appends a JSON array of arrays holding a clue side.
fn push_clue_lists(out: &mut Vec<char>, v: &Vec<Vec<usize>>)
    ensures
        final(out)@ == old(out)@ + row_lists(clues_of(v@)),
{
    let ghost vv = clues_of(v@);
    out.push('[');
    let mut i: usize = 0;
    proof {
        assert(vv.take(0) =~= Seq::<Seq<int>>::empty());
        assert(out@ =~= old(out)@ + seq!['['] + joined_rows(vv.take(0)));
    }
    while i < v.len()
        invariant
            i <= v@.len(),
            vv == clues_of(v@),
            out@ == old(out)@ + seq!['['] + joined_rows(vv.take(i as int)),
        decreases v@.len() - i,
    {
        let ghost sofar = vv.take(i as int);
        if i > 0 {
            out.push(',');
        }
        push_usize_row(out, &v[i]);
        proof {
            assert(vv.take(i as int + 1) =~= sofar.push(vv[i as int]));
            lemma_joined_rows_push(sofar, vv[i as int]);
            assert(vv[i as int] == ints_of(v@[i as int]@));
            assert(out@ =~= old(out)@ + seq!['['] + joined_rows(vv.take(i as int + 1)));
        }
        i = i + 1;
    }
    out.push(']');
    proof {
        assert(vv.take(v@.len() as int) =~= vv);
        assert(out@ =~= old(out)@ + row_lists(vv));
    }
}

/// Appends a JSON array of arrays holding the grid.
fn push_grid_lists(out: &mut Vec<char>, v: &Vec<Vec<u8>>)
    ensures
        final(out)@ == old(out)@ + row_lists(grid_ints(v@)),
{
    let ghost vv = grid_ints(v@);
    out.push('[');
    let mut i: usize = 0;
    proof {
        assert(vv.take(0) =~= Seq::<Seq<int>>::empty());
        assert(out@ =~= old(out)@ + seq!['['] + joined_rows(vv.take(0)));
    }
    while i < v.len()
        invariant
            i <= v@.len(),
            vv == grid_ints(v@),
            out@ == old(out)@ + seq!['['] + joined_rows(vv.take(i as int)),
        decreases v@.len() - i,
    {
        let ghost sofar = vv.take(i as int);
        if i > 0 {
            out.push(',');
        }
        push_u8_row(out, &v[i]);
        proof {
            assert(vv.take(i as int + 1) =~= sofar.push(vv[i as int]));
            lemma_joined_rows_push(sofar, vv[i as int]);
            assert(vv[i as int] == v@[i as int]@.map_values(|x: u8| x as int));
            assert(out@ =~= old(out)@ + seq!['['] + joined_rows(vv.take(i as int + 1)));
        }
        i = i + 1;
    }
    out.push(']');
    proof {
        assert(vv.take(v@.len() as int) =~= vv);
        assert(out@ =~= old(out)@ + row_lists(vv));
    }
}

/// Relies on String's FromIterator over characters: collecting characters
/// yields the string of exactly those characters.
#[verifier::external_body]
fn chars_to_string(chars: &Vec<char>) -> (s: String)
    ensures
        s@ == chars@,
{
    chars.iter().collect()
}

/// Renders a puzzle's persisted fields as the canonical JSON document.
pub fn encode_document(
    checksum: u64,
    height: usize,
    width: usize,
    rows: &Vec<Vec<usize>>,
    cols: &Vec<Vec<usize>>,
    grid: &Vec<Vec<u8>>,
) -> (r: String)
    ensures
        r@ == doc_of(
            checksum as int,
            height as int,
            width as int,
            clues_of(rows@),
            clues_of(cols@),
            grid_ints(grid@),
        ),
{
    let mut out: Vec<char> = Vec::new();
    push_lit(&mut out, "{\"checksum\":\"");
    push_u64(&mut out, checksum);
    push_lit(&mut out, "\",\"height\":");
    push_u64(&mut out, height as u64);
    push_lit(&mut out, ",\"width\":");
    push_u64(&mut out, width as u64);
    push_lit(&mut out, ",\"row_segments\":");
    push_clue_lists(&mut out, rows);
    push_lit(&mut out, ",\"column_segments\":");
    push_clue_lists(&mut out, cols);
    push_lit(&mut out, ",\"completed_grid\":");
    push_grid_lists(&mut out, grid);
    push_lit(&mut out, "}");
    proof {
        assert(out@ =~= doc_of(
            checksum as int,
            height as int,
            width as int,
            clues_of(rows@),
            clues_of(cols@),
            grid_ints(grid@),
        ));
    }
    chars_to_string(&out)
}

/// A decimal digit character.
pub open spec fn is_digit(c: char) -> bool {
    48 <= c as int <= 57
}

/// The value of a digit character.
pub open spec fn dval(c: char) -> int {
    c as int - 48
}

/// Length of the run of digit characters starting at `pos`.
pub open spec fn digit_run(s: Seq<char>, pos: int) -> nat
    decreases s.len() - pos,
{
    if pos < 0 || pos >= s.len() || !is_digit(s[pos]) {
        0
    } else {
        (1 + digit_run(s, pos + 1)) as nat
    }
}

/// The number the `len` digit characters starting at `pos` spell.
pub open spec fn num_val(s: Seq<char>, pos: int, len: int) -> int
    decreases len,
{
    if len <= 0 {
        0
    } else {
        num_val(s, pos, len - 1) * 10 + dval(s[pos + len - 1])
    }
}

/// The literal `lit` sits at position `pos` of `s`.
pub open spec fn lit_at(s: Seq<char>, pos: int, lit: Seq<char>) -> bool {
    &&& 0 <= pos
    &&& pos + lit.len() <= s.len()
    &&& s.subrange(pos, pos + lit.len()) == lit
}

proof fn lemma_digit_run_scan(s: Seq<char>, pos: int, p: int)
    requires
        0 <= pos <= p <= s.len(),
        forall|k: int| pos <= k < p ==> is_digit(s[k]),
        p == s.len() || !is_digit(s[p]),
    ensures
        digit_run(s, pos) == p - pos,
    decreases p - pos,
{
    if pos == p {
    } else {
        lemma_digit_run_scan(s, pos + 1, p);
    }
}

proof fn lemma_digit_run_bound(s: Seq<char>, pos: int)
    requires
        0 <= pos <= s.len(),
    ensures
        pos + digit_run(s, pos) <= s.len(),
        forall|k: int| pos <= k < pos + digit_run(s, pos) ==> is_digit(#[trigger] s[k]),
        pos + digit_run(s, pos) == s.len() || !is_digit(s[pos + digit_run(s, pos)]),
    decreases s.len() - pos,
{
    if pos < 0 || pos >= s.len() || !is_digit(s[pos]) {
    } else {
        lemma_digit_run_bound(s, pos + 1);
    }
}

/// Digit values are bounded, so longer digit runs spell larger numbers.
proof fn lemma_num_val_mono(s: Seq<char>, pos: int, l1: int, l2: int)
    requires
        0 <= l1 <= l2,
        forall|k: int| pos <= k < pos + l2 ==> is_digit(#[trigger] s[k]),
    ensures
        0 <= num_val(s, pos, l1) <= num_val(s, pos, l2),
    decreases l2 - l1, l2,
{
    if l1 == l2 {
        if l2 > 0 {
            lemma_num_val_mono(s, pos, l2 - 1, l2 - 1);
            assert(is_digit(s[pos + l2 - 1]));
            assert(num_val(s, pos, l2) == num_val(s, pos, l2 - 1) * 10 + dval(s[pos + l2 - 1]));
            assert(num_val(s, pos, l2 - 1) * 10 >= num_val(s, pos, l2 - 1)) by (nonlinear_arith)
                requires
                    num_val(s, pos, l2 - 1) >= 0,
            ;
        }
    } else {
        lemma_num_val_mono(s, pos, l1, l2 - 1);
        lemma_num_val_mono(s, pos, l2 - 1, l2 - 1);
        assert(is_digit(s[pos + l2 - 1]));
        assert(num_val(s, pos, l2) == num_val(s, pos, l2 - 1) * 10 + dval(s[pos + l2 - 1]));
        assert(num_val(s, pos, l2 - 1) * 10 >= num_val(s, pos, l2 - 1)) by (nonlinear_arith)
            requires
                num_val(s, pos, l2 - 1) >= 0,
        ;
    }
}

fn is_digit_at(s: &str, p: usize) -> (b: bool)
    requires
        p < s@.len(),
    ensures
        b == is_digit(s@[p as int]),
{
    let u = s.get_char(p) as u32;
    48 <= u && u <= 57
}

/// Reads the number at `pos`: the maximal digit run there, rejected when
/// absent or too large for a machine word.
fn parse_num(s: &str, pos: usize) -> (r: Option<(u64, usize)>)
    ensures
        r is Some <==> canon_num_at(s@, pos as int) && num_val(
            s@,
            pos as int,
            digit_run(s@, pos as int) as int,
        ) <= u64::MAX,
        r is Some ==> ({
            let d = digit_run(s@, pos as int) as int;
            &&& (r->0).0 == num_val(s@, pos as int, d)
            &&& (r->0).1 == pos + d
            &&& pos + d <= s@.len()
        }),
{
    let n = s.unicode_len();
    if pos >= n {
        proof {
            assert(digit_run(s@, pos as int) == 0);
        }
        return None;
    }
    let c0 = s.get_char(pos) as u32;
    if !(48 <= c0 && c0 <= 57) {
        proof {
            assert(!is_digit(s@[pos as int]));
            assert(digit_run(s@, pos as int) == 0);
        }
        return None;
    }
    if c0 == 48 && pos + 1 < n && is_digit_at(s, pos + 1) {
        // a superfluous leading zero is not canonical
        proof {
            lemma_char_code(s@[pos as int], '0');
            assert(digit_run(s@, pos as int) >= 2) by {
                assert(digit_run(s@, pos as int + 1) >= 1);
            }
        }
        return None;
    }
    proof {
        if s@[pos as int] == '0' {
            if pos + 1 < n && is_digit(s@[pos as int + 1]) {
                assert(false);
            }
            assert(digit_run(s@, pos as int) == 1) by {
                if pos + 1 < n {
                    lemma_digit_run_scan(s@, pos as int, pos as int + 1);
                } else {
                    lemma_digit_run_scan(s@, pos as int, pos as int + 1);
                }
            }
        }
    }
    let ghost d = digit_run(s@, pos as int) as int;
    let mut p: usize = pos;
    let mut acc: u64 = 0;
    while p < n && is_digit_at(s, p)
        invariant
            n == s@.len(),
            pos <= p <= n,
            d == digit_run(s@, pos as int),
            forall|k: int| pos <= k < p ==> is_digit(#[trigger] s@[k]),
            acc == num_val(s@, pos as int, p - pos),
            p - pos <= d,
        decreases n - p,
    {
        let u = s.get_char(p) as u32;
        let dig = (u - 48) as u64;
        proof {
            lemma_digit_run_bound(s@, pos as int);
            assert(is_digit(s@[p as int]));
            assert(p - pos < d) by {
                if p - pos >= d {
                    assert(pos + d < s@.len() && is_digit(s@[pos + d]) || pos + d <= p);
                    lemma_digit_run_scan(s@, pos as int, pos + d);
                }
            }
            lemma_num_val_mono(s@, pos as int, p + 1 - pos, d);
        }
        if acc > (u64::MAX - dig) / 10 {
            proof {
                assert(acc * 10 + dig > u64::MAX) by (nonlinear_arith)
                    requires
                        acc > (u64::MAX - dig) / 10,
                        0 <= dig <= 9,
                ;
                assert(num_val(s@, pos as int, p + 1 - pos) == acc * 10 + dval(s@[p as int]));
                assert(dval(s@[p as int]) == dig);
                assert(num_val(s@, pos as int, d) > u64::MAX);
            }
            return None;
        }
        proof {
            assert(acc * 10 + dig <= u64::MAX) by (nonlinear_arith)
                requires
                    acc <= (u64::MAX - dig) / 10,
                    0 <= dig <= 9,
            ;
            assert(num_val(s@, pos as int, p + 1 - pos) == acc * 10 + dval(s@[p as int]));
            assert(dval(s@[p as int]) == dig);
        }
        acc = acc * 10 + dig;
        p = p + 1;
    }
    proof {
        lemma_digit_run_scan(s@, pos as int, p as int);
        assert(d == p - pos);
    }
    Some((acc, p))
}

/// Checks that the literal sits at `pos`, and steps over it.
fn expect_lit(s: &str, pos: usize, lit: &str) -> (r: Option<usize>)
    ensures
        r is Some <==> lit_at(s@, pos as int, lit@),
        r is Some ==> r->0 == pos + lit@.len() && r->0 <= s@.len(),
{
    let n = s.unicode_len();
    let m = lit.unicode_len();
    if pos > n || m > n - pos {
        proof {
            if lit_at(s@, pos as int, lit@) {
                assert(pos + lit@.len() <= s@.len());
            }
        }
        return None;
    }
    let mut i: usize = 0;
    while i < m
        invariant
            n == s@.len(),
            m == lit@.len(),
            pos + m <= n,
            i <= m,
            forall|k: int| 0 <= k < i ==> s@[pos + k] == lit@[k],
        decreases m - i,
    {
        if s.get_char(pos + i) != lit.get_char(i) {
            proof {
                if lit_at(s@, pos as int, lit@) {
                    assert(s@.subrange(pos as int, pos + lit@.len())[i as int] == lit@[i as int]);
                }
            }
            return None;
        }
        i = i + 1;
    }
    proof {
        assert(s@.subrange(pos as int, pos + lit@.len()) =~= lit@);
    }
    Some(pos + m)
}

/// Characters are their code points.
proof fn lemma_char_code(c1: char, c2: char)
    requires
        c1 as int == c2 as int,
    ensures
        c1 == c2,
{
}

/// A canonical number starts at `pos`: a nonempty digit run without a
/// superfluous leading zero.
pub open spec fn canon_num_at(s: Seq<char>, pos: int) -> bool {
    &&& digit_run(s, pos) >= 1
    &&& (digit_run(s, pos) == 1 || s[pos] != '0')
}

proof fn lemma_dec_digits(n: int)
    requires
        n >= 0,
    ensures
        dec_of(n).len() >= 1,
        forall|i: int| 0 <= i < dec_of(n).len() ==> is_digit(#[trigger] dec_of(n)[i]),
        dec_of(n).len() >= 2 ==> dec_of(n)[0] != '0',
        n >= 10 ==> dec_of(n).len() >= 2,
        dec_of(n)[0] == '0' ==> n < 10,
    decreases n,
{
    if n < 10 {
    } else {
        lemma_dec_digits(n / 10);
        assert(dec_of(n) == dec_of(n / 10).push(digit_char(n % 10)));
        assert(dec_of(n)[0] == dec_of(n / 10)[0]);
        if dec_of(n / 10).len() == 1 {
            assert(dec_of(n / 10)[0] == digit_char(n / 10));
            assert(n / 10 >= 1);
            assert(digit_char(n / 10) != '0');
        }
        assert(forall|i: int|
            0 <= i < dec_of(n / 10).len() ==> dec_of(n)[i] == dec_of(n / 10)[i]);
        assert(is_digit(dec_of(n)[dec_of(n).len() - 1]));
    }
}

/// Reading the canonical rendering back gives the number: the digit run is
/// exactly the rendering (given that a non-digit follows) and it spells `n`.
proof fn lemma_dec_val(s: Seq<char>, pos: int, n: int)
    requires
        n >= 0,
        0 <= pos,
        pos + dec_of(n).len() <= s.len(),
        s.subrange(pos, pos + dec_of(n).len()) == dec_of(n),
    ensures
        num_val(s, pos, dec_of(n).len() as int) == n,
    decreases n,
{
    lemma_dec_digits(n);
    let l = dec_of(n).len() as int;
    assert(forall|i: int| 0 <= i < l ==> s[pos + i] == dec_of(n)[i]) by {
        assert(forall|i: int|
            0 <= i < l ==> s.subrange(pos, pos + l)[i] == dec_of(n)[i]);
    }
    if n < 10 {
        assert(num_val(s, pos, 0) == 0);
        assert(num_val(s, pos, 1) == num_val(s, pos, 0) * 10 + dval(s[pos + 0]));
        assert(dec_of(n)[0] == digit_char(n));
        assert(s[pos + 0] == dec_of(n)[0]);
        assert(dval(digit_char(n)) == n);
    } else {
        assert(dec_of(n) == dec_of(n / 10).push(digit_char(n % 10)));
        assert(s.subrange(pos, pos + l - 1) =~= dec_of(n / 10));
        lemma_dec_val(s, pos, n / 10);
        assert(num_val(s, pos, l) == num_val(s, pos, l - 1) * 10 + dval(s[pos + l - 1]));
        assert(s.subrange(pos, pos + l)[l - 1] == dec_of(n)[l - 1]);
        assert(dec_of(n)[l - 1] == digit_char(n % 10));
        assert(s[pos + l - 1] == digit_char(n % 10));
        assert(dval(digit_char(n % 10)) == n % 10);
    }
}

/// The digit run over a canonical rendering is exactly the rendering, when
/// what follows is not a digit.
proof fn lemma_dec_run(s: Seq<char>, pos: int, n: int)
    requires
        n >= 0,
        0 <= pos,
        pos + dec_of(n).len() <= s.len(),
        s.subrange(pos, pos + dec_of(n).len()) == dec_of(n),
        pos + dec_of(n).len() == s.len() || !is_digit(s[pos + dec_of(n).len()]),
    ensures
        digit_run(s, pos) == dec_of(n).len(),
        canon_num_at(s, pos),
        num_val(s, pos, digit_run(s, pos) as int) == n,
{
    lemma_dec_digits(n);
    let l = dec_of(n).len() as int;
    assert(forall|i: int| 0 <= i < l ==> s[pos + i] == dec_of(n)[i]) by {
        assert(forall|i: int|
            0 <= i < l ==> s.subrange(pos, pos + l)[i] == dec_of(n)[i]);
    }
    assert forall|k: int| pos <= k < pos + l implies is_digit(s[k]) by {
        assert(s.subrange(pos, pos + l)[k - pos] == dec_of(n)[k - pos]);
        assert(s[k] == dec_of(n)[k - pos]);
        assert(is_digit(dec_of(n)[k - pos]));
    }
    lemma_digit_run_scan(s, pos, pos + l);
    lemma_dec_val(s, pos, n);
    assert(s[pos] == dec_of(n)[0]);
    if l >= 2 {
        assert(s[pos] != '0');
    }
}

/// A canonical digit run is the rendering of the number it spells.
proof fn lemma_dec_unique(s: Seq<char>, pos: int)
    requires
        0 <= pos,
        canon_num_at(s, pos),
        pos + digit_run(s, pos) <= s.len(),
    ensures
        s.subrange(pos, pos + digit_run(s, pos) as int) == dec_of(
            num_val(s, pos, digit_run(s, pos) as int),
        ),
        num_val(s, pos, digit_run(s, pos) as int) >= 0,
    decreases digit_run(s, pos),
{
    let d = digit_run(s, pos) as int;
    lemma_digit_run_bound(s, pos);
    assert(forall|k: int| pos <= k < pos + d ==> is_digit(#[trigger] s[k]));
    lemma_num_val_mono(s, pos, 0, d);
    let n = num_val(s, pos, d);
    lemma_num_val_mono(s, pos, d - 1, d);
    if d == 1 {
        assert(n == dval(s[pos]));
        assert(0 <= n <= 9);
        assert(dec_of(n) == seq![digit_char(n)]);
        assert(digit_char(dval(s[pos])) as int == s[pos] as int);
        lemma_char_code(digit_char(n), s[pos]);
        assert(s.subrange(pos, pos + 1) =~= dec_of(n));
    } else {
        // the front of the run is itself a canonical run one digit shorter
        let s2 = s.subrange(pos, pos + d - 1);
        assert(forall|k: int| 0 <= k < d - 1 ==> s2[k] == s[pos + k]);
        lemma_digit_run_scan(s2, 0, d - 1);
        assert(digit_run(s2, 0) == d - 1);
        assert(canon_num_at(s2, 0));
        lemma_num_val_shift(s, pos, s2, d - 1);
        lemma_dec_unique(s2, 0);
        let m = num_val(s, pos, d - 1);
        assert(num_val(s2, 0, d - 1) == m);
        assert(s2.subrange(0, d - 1) =~= s2);
        assert(s2 == dec_of(m));
        assert(n == m * 10 + dval(s[pos + d - 1]));
        assert(0 <= dval(s[pos + d - 1]) <= 9);
        // the value is at least ten, so its rendering extends the front's
        assert(m >= 1) by {
            if m == 0 {
                lemma_dec_digits(0);
                assert(dec_of(0) =~= seq!['0']);
                assert(s2[0] == '0');
                assert(s[pos] == '0');
            }
        }
        assert(n >= 10);
        assert(n / 10 == m && n % 10 == dval(s[pos + d - 1])) by (nonlinear_arith)
            requires
                n == m * 10 + dval(s[pos + d - 1]),
                0 <= dval(s[pos + d - 1]) <= 9,
                m >= 0,
        ;
        assert(dec_of(n) == dec_of(m).push(digit_char(n % 10)));
        lemma_char_code(digit_char(dval(s[pos + d - 1])), s[pos + d - 1]);
        assert(s.subrange(pos, pos + d) =~= dec_of(n));
    }
}

/// Digit values read the same through a copied window.
proof fn lemma_num_val_shift(s: Seq<char>, pos: int, s2: Seq<char>, len: int)
    requires
        0 <= pos,
        0 <= len,
        pos + len <= s.len(),
        len <= s2.len(),
        forall|k: int| 0 <= k < len ==> s2[k] == s[pos + k],
    ensures
        num_val(s2, 0, len) == num_val(s, pos, len),
    decreases len,
{
    if len > 0 {
        lemma_num_val_shift(s, pos, s2, len - 1);
    }
}

/// Parses "number (',' number)*" at `pos`: the values and the position
/// just past them.  Numbers must be canonical.
pub open spec fn list_items(s: Seq<char>, pos: int) -> Option<(Seq<int>, int)>
    decreases s.len() - pos,
{
    if !canon_num_at(s, pos) {
        None
    } else {
        let d = digit_run(s, pos);
        let v = num_val(s, pos, d as int);
        let p2 = pos + d;
        if p2 < s.len() && s[p2] == ',' {
            match list_items(s, p2 + 1) {
                Some(t) => Some((seq![v] + t.0, t.1)),
                None => None,
            }
        } else {
            Some((seq![v], p2))
        }
    }
}

/// Parses a whole JSON number list at `pos`.
pub open spec fn num_list_at(s: Seq<char>, pos: int) -> Option<(Seq<int>, int)> {
    if 0 <= pos < s.len() && s[pos] == '[' {
        if pos + 1 < s.len() && s[pos + 1] == ']' {
            Some((Seq::empty(), pos + 2))
        } else {
            match list_items(s, pos + 1) {
                Some(t) => if t.1 < s.len() && s[t.1] == ']' {
                    Some((t.0, t.1 + 1))
                } else {
                    None
                },
                None => None,
            }
        }
    } else {
        None
    }
}

proof fn lemma_list_items_advances(s: Seq<char>, pos: int)
    ensures
        list_items(s, pos) matches Some(t) ==> pos < t.1 <= s.len() && t.0.len() >= 1,
    decreases s.len() - pos,
{
    if canon_num_at(s, pos) {
        let d = digit_run(s, pos);
        assert(pos >= 0) by {
            if pos < 0 {
                assert(digit_run(s, pos) == 0);
            }
        }
        lemma_digit_run_bound(s, pos);
        if pos + d < s.len() && s[pos + d] == ',' {
            lemma_list_items_advances(s, pos + d + 1);
        }
    }
}

pub proof fn lemma_num_list_at_advances(s: Seq<char>, pos: int)
    ensures
        num_list_at(s, pos) matches Some(t) ==> pos < t.1 <= s.len(),
{
    lemma_list_items_advances(s, pos + 1);
}

/// What the items parser accepts is exactly the canonical rendering of what
/// it returns.
proof fn lemma_list_items_sound(s: Seq<char>, pos: int)
    ensures
        list_items(s, pos) matches Some(t) ==> s.subrange(pos, t.1) == joined_nums(t.0) && (
        forall|k: int| 0 <= k < t.0.len() ==> 0 <= #[trigger] t.0[k]),
    decreases s.len() - pos,
{
    if canon_num_at(s, pos) {
        let d = digit_run(s, pos);
        assert(pos >= 0) by {
            if pos < 0 {
                assert(digit_run(s, pos) == 0);
            }
        }
        lemma_digit_run_bound(s, pos);
        lemma_dec_unique(s, pos);
        let v = num_val(s, pos, d as int);
        let p2 = pos + d;
        if p2 < s.len() && s[p2] == ',' {
            lemma_list_items_advances(s, p2 + 1);
            lemma_list_items_sound(s, p2 + 1);
            if list_items(s, p2 + 1) is Some {
                let t2 = list_items(s, p2 + 1)->0;
                let t0 = seq![v] + t2.0;
                assert(joined_nums(t0) =~= dec_of(v) + seq![','] + joined_nums(t2.0)) by {
                    assert(t0.len() >= 2);
                    assert(t0[0] == v);
                    assert(t0.drop_first() =~= t2.0);
                }
                assert(s.subrange(pos, t2.1) =~= s.subrange(pos, p2) + seq![s[p2]] + s.subrange(
                    p2 + 1,
                    t2.1,
                ));
            }
        } else {
            assert(joined_nums(seq![v]) == dec_of(v));
        }
    }
}

pub proof fn lemma_num_list_sound(s: Seq<char>, pos: int)
    ensures
        num_list_at(s, pos) matches Some(t) ==> s.subrange(pos, t.1) == num_list(t.0) && (
        forall|k: int| 0 <= k < t.0.len() ==> 0 <= #[trigger] t.0[k]),
{
    if 0 <= pos < s.len() && s[pos] == '[' {
        if pos + 1 < s.len() && s[pos + 1] == ']' {
            assert(joined_nums(Seq::<int>::empty()) == Seq::<char>::empty());
            assert(s.subrange(pos, pos + 2) =~= num_list(Seq::<int>::empty()));
        } else {
            lemma_list_items_sound(s, pos + 1);
            lemma_list_items_advances(s, pos + 1);
            if list_items(s, pos + 1) is Some {
                let t = list_items(s, pos + 1)->0;
                if t.1 < s.len() && s[t.1] == ']' {
                    assert(s.subrange(pos, t.1 + 1) =~= seq!['['] + s.subrange(pos + 1, t.1)
                        + seq![']']);
                    assert(num_list(t.0) =~= seq!['['] + joined_nums(t.0) + seq![']']);
                }
            }
        }
    }
}

/// The canonical rendering of values parses back to exactly those values.
proof fn lemma_list_items_canonical(s: Seq<char>, pos: int, vals: Seq<int>)
    requires
        vals.len() >= 1,
        forall|k: int| 0 <= k < vals.len() ==> 0 <= #[trigger] vals[k],
        0 <= pos,
        pos + joined_nums(vals).len() < s.len(),
        s.subrange(pos, pos + joined_nums(vals).len() as int) == joined_nums(vals),
        !is_digit(s[pos + joined_nums(vals).len()]),
        s[pos + joined_nums(vals).len()] != ',',
    ensures
        list_items(s, pos) == Some((vals, pos + joined_nums(vals).len() as int)),
    decreases vals.len(),
{
    let j = joined_nums(vals);
    let v = vals[0];
    lemma_dec_digits(v);
    let dl = dec_of(v).len() as int;
    if vals.len() == 1 {
        assert(j == dec_of(v));
        assert(s.subrange(pos, pos + dl) == dec_of(v));
        lemma_dec_run(s, pos, v);
        assert(digit_run(s, pos) == dl);
        assert(!(pos + dl < s.len() && s[pos + dl] == ','));
        assert(list_items(s, pos) == Some((seq![v], pos + dl)));
        assert(seq![v] =~= vals);
    } else {
        assert(j == dec_of(v) + seq![','] + joined_nums(vals.drop_first()));
        let rest = joined_nums(vals.drop_first());
        assert(s.subrange(pos, pos + dl) =~= dec_of(v)) by {
            assert(forall|i: int|
                0 <= i < j.len() ==> s.subrange(pos, pos + j.len() as int)[i] == j[i]);
            assert(forall|i: int| 0 <= i < dl ==> j[i] == dec_of(v)[i]);
        }
        assert(forall|i: int| 0 <= i < j.len() ==> s[pos + i] == j[i]) by {
            assert(forall|i: int|
                0 <= i < j.len() ==> s.subrange(pos, pos + j.len() as int)[i] == j[i]);
        }
        assert(j[dl] == ',');
        assert(s[pos + dl] == j[dl]);
        assert(!is_digit(s[pos + dl]));
        lemma_dec_run(s, pos, v);
        assert(digit_run(s, pos) == dl);
        assert(num_val(s, pos, dl) == v);
        let p2 = pos + dl + 1;
        assert(s.subrange(p2, p2 + rest.len() as int) =~= rest) by {
            assert(forall|i: int| 0 <= i < rest.len() ==> j[dl + 1 + i] == rest[i]);
            assert(forall|i: int|
                0 <= i < rest.len() ==> #[trigger] s.subrange(p2, p2 + rest.len() as int)[i]
                    == s[p2 + i]);
        }
        assert(forall|k: int|
            0 <= k < vals.drop_first().len() ==> 0 <= #[trigger] vals.drop_first()[k]);
        assert(pos + j.len() == p2 + rest.len());
        lemma_list_items_canonical(s, p2, vals.drop_first());
        assert(list_items(s, pos) == Some((seq![v] + vals.drop_first(), p2 + rest.len() as int)));
        assert(seq![v] + vals.drop_first() =~= vals);
    }
}

pub proof fn lemma_num_list_canonical(s: Seq<char>, pos: int, vals: Seq<int>)
    requires
        forall|k: int| 0 <= k < vals.len() ==> 0 <= #[trigger] vals[k],
        0 <= pos,
        pos + num_list(vals).len() <= s.len(),
        s.subrange(pos, pos + num_list(vals).len() as int) == num_list(vals),
    ensures
        num_list_at(s, pos) == Some((vals, pos + num_list(vals).len() as int)),
{
    let nl = num_list(vals);
    assert(forall|i: int| 0 <= i < nl.len() ==> s[pos + i] == nl[i]) by {
        assert(forall|i: int|
            0 <= i < nl.len() ==> s.subrange(pos, pos + nl.len() as int)[i] == nl[i]);
    }
    assert(nl[0] == '[');
    assert(s[pos + 0] == nl[0]);
    if vals.len() == 0 {
        assert(joined_nums(vals) == Seq::<char>::empty());
        assert(nl =~= seq!['[', ']']);
        assert(s[pos + 1] == ']');
        assert(num_list_at(s, pos) == Some((Seq::<int>::empty(), pos + 2)));
        assert(Seq::<int>::empty() =~= vals);
    } else {
        let j = joined_nums(vals);
        assert(j.len() >= 1) by {
            lemma_dec_digits(vals[0]);
            if vals.len() >= 2 {
            }
        }
        assert(s[pos + 1] != ']') by {
            assert(nl[1] == j[0]);
            assert(is_digit(j[0])) by {
                lemma_joined_first(vals);
            }
        }
        assert(s.subrange(pos + 1, pos + 1 + j.len() as int) =~= j) by {
            assert(forall|i: int| 0 <= i < j.len() ==> nl[1 + i] == j[i]);
        }
        assert(nl[1 + j.len() as int] == ']');
        assert(s[pos + (1 + j.len() as int)] == nl[1 + j.len() as int]);
        assert(s[pos + 1 + j.len()] == ']');
        lemma_list_items_canonical(s, pos + 1, vals);
        assert(num_list_at(s, pos) == Some((vals, pos + 1 + j.len() + 1)));
    }
}

/// A nonempty joined rendering starts with a digit.
proof fn lemma_joined_first(vals: Seq<int>)
    requires
        vals.len() >= 1,
        vals[0] >= 0,
    ensures
        joined_nums(vals).len() >= 1,
        is_digit(joined_nums(vals)[0]),
        joined_nums(vals)[0] == dec_of(vals[0])[0],
{
    lemma_dec_digits(vals[0]);
    if vals.len() == 1 {
    } else {
        assert(joined_nums(vals)[0] == dec_of(vals[0])[0]);
    }
}

/// Parses "list (',' list)*" at `pos`.
pub open spec fn row_items(s: Seq<char>, pos: int) -> Option<(Seq<Seq<int>>, int)>
    decreases s.len() - pos,
    when true
    via row_items_dec
{
    match num_list_at(s, pos) {
        Some(t) => {
            if t.1 < s.len() && s[t.1] == ',' {
                match row_items(s, t.1 + 1) {
                    Some(u) => Some((seq![t.0] + u.0, u.1)),
                    None => None,
                }
            } else {
                Some((seq![t.0], t.1))
            }
        },
        None => None,
    }
}

#[via_fn]
proof fn row_items_dec(s: Seq<char>, pos: int) {
    lemma_num_list_at_advances(s, pos);
}

/// Parses a whole JSON list of lists at `pos`.
pub open spec fn rows_at(s: Seq<char>, pos: int) -> Option<(Seq<Seq<int>>, int)> {
    if 0 <= pos < s.len() && s[pos] == '[' {
        if pos + 1 < s.len() && s[pos + 1] == ']' {
            Some((Seq::empty(), pos + 2))
        } else {
            match row_items(s, pos + 1) {
                Some(t) => if t.1 < s.len() && s[t.1] == ']' {
                    Some((t.0, t.1 + 1))
                } else {
                    None
                },
                None => None,
            }
        }
    } else {
        None
    }
}

proof fn lemma_row_items_advances(s: Seq<char>, pos: int)
    ensures
        row_items(s, pos) matches Some(t) ==> pos < t.1 <= s.len() && t.0.len() >= 1,
    decreases s.len() - pos,
{
    lemma_num_list_at_advances(s, pos);
    if num_list_at(s, pos) is Some {
        let t = num_list_at(s, pos)->0;
        if t.1 < s.len() && s[t.1] == ',' {
            lemma_row_items_advances(s, t.1 + 1);
        }
    }
}

pub proof fn lemma_rows_at_advances(s: Seq<char>, pos: int)
    ensures
        rows_at(s, pos) matches Some(t) ==> pos < t.1 <= s.len(),
{
    lemma_row_items_advances(s, pos + 1);
}

proof fn lemma_row_items_sound(s: Seq<char>, pos: int)
    ensures
        row_items(s, pos) matches Some(t) ==> s.subrange(pos, t.1) == joined_rows(t.0) && (
        forall|k: int, e: int|
            0 <= k < t.0.len() && 0 <= e < t.0[k].len() ==> 0 <= #[trigger] t.0[k][e]),
    decreases s.len() - pos,
{
    lemma_num_list_at_advances(s, pos);
    lemma_num_list_sound(s, pos);
    if num_list_at(s, pos) is Some {
        let t = num_list_at(s, pos)->0;
        if t.1 < s.len() && s[t.1] == ',' {
            lemma_row_items_advances(s, t.1 + 1);
            lemma_row_items_sound(s, t.1 + 1);
            if row_items(s, t.1 + 1) is Some {
                let u = row_items(s, t.1 + 1)->0;
                let whole = seq![t.0] + u.0;
                assert(joined_rows(whole) =~= num_list(t.0) + seq![','] + joined_rows(u.0)) by {
                    assert(whole.len() >= 2);
                    assert(whole[0] == t.0);
                    assert(whole.drop_first() =~= u.0);
                }
                assert(s.subrange(pos, u.1) =~= s.subrange(pos, t.1) + seq![s[t.1]] + s.subrange(
                    t.1 + 1,
                    u.1,
                ));
                assert(forall|k: int, e: int|
                    0 <= k < whole.len() && 0 <= e < whole[k].len() ==> 0 <= #[trigger] whole[k][e])
                    by {
                    assert(forall|k: int| 1 <= k < whole.len() ==> whole[k] == u.0[k - 1]);
                }
            }
        } else {
            assert(joined_rows(seq![t.0]) == num_list(t.0));
        }
    }
}

pub proof fn lemma_rows_sound(s: Seq<char>, pos: int)
    ensures
        rows_at(s, pos) matches Some(t) ==> s.subrange(pos, t.1) == row_lists(t.0) && (forall|
            k: int,
            e: int,
        |
            0 <= k < t.0.len() && 0 <= e < t.0[k].len() ==> 0 <= #[trigger] t.0[k][e]),
{
    if 0 <= pos < s.len() && s[pos] == '[' {
        if pos + 1 < s.len() && s[pos + 1] == ']' {
            assert(joined_rows(Seq::<Seq<int>>::empty()) == Seq::<char>::empty());
            assert(s.subrange(pos, pos + 2) =~= row_lists(Seq::<Seq<int>>::empty()));
        } else {
            lemma_row_items_sound(s, pos + 1);
            lemma_row_items_advances(s, pos + 1);
            if row_items(s, pos + 1) is Some {
                let t = row_items(s, pos + 1)->0;
                if t.1 < s.len() && s[t.1] == ']' {
                    assert(s.subrange(pos, t.1 + 1) =~= seq!['['] + s.subrange(pos + 1, t.1)
                        + seq![']']);
                    assert(row_lists(t.0) =~= seq!['['] + joined_rows(t.0) + seq![']']);
                }
            }
        }
    }
}

proof fn lemma_row_items_canonical(s: Seq<char>, pos: int, vv: Seq<Seq<int>>)
    requires
        vv.len() >= 1,
        forall|k: int, e: int|
            0 <= k < vv.len() && 0 <= e < vv[k].len() ==> 0 <= #[trigger] vv[k][e],
        0 <= pos,
        pos + joined_rows(vv).len() < s.len(),
        s.subrange(pos, pos + joined_rows(vv).len() as int) == joined_rows(vv),
        s[pos + joined_rows(vv).len()] != ',',
        s[pos + joined_rows(vv).len()] != '[',
    ensures
        row_items(s, pos) == Some((vv, pos + joined_rows(vv).len() as int)),
    decreases vv.len(),
{
    let j = joined_rows(vv);
    let head = vv[0];
    let nl = num_list(head);
    assert(forall|i: int| 0 <= i < j.len() ==> s[pos + i] == j[i]) by {
        assert(forall|i: int|
            0 <= i < j.len() ==> #[trigger] s.subrange(pos, pos + j.len() as int)[i] == j[i]);
    }
    assert(forall|e: int| 0 <= e < head.len() ==> 0 <= #[trigger] head[e]);
    if vv.len() == 1 {
        assert(j == nl);
        assert(s.subrange(pos, pos + nl.len() as int) == nl);
        lemma_num_list_canonical(s, pos, head);
        assert(!(pos + nl.len() < s.len() && s[pos + nl.len()] == ','));
        assert(row_items(s, pos) == Some((seq![head], pos + nl.len() as int)));
        assert(seq![head] =~= vv);
    } else {
        let rest = joined_rows(vv.drop_first());
        assert(j == nl + seq![','] + rest);
        assert(s.subrange(pos, pos + nl.len() as int) =~= nl) by {
            assert(forall|i: int| 0 <= i < nl.len() ==> j[i] == nl[i]);
        }
        lemma_num_list_canonical(s, pos, head);
        assert(j[nl.len() as int] == ',');
        assert(s[pos + nl.len()] == j[nl.len() as int]);
        let p2 = pos + nl.len() as int + 1;
        assert(s.subrange(p2, p2 + rest.len() as int) =~= rest) by {
            assert(forall|i: int| 0 <= i < rest.len() ==> j[nl.len() + 1 + i] == rest[i]);
            assert(forall|i: int|
                0 <= i < rest.len() ==> #[trigger] s.subrange(p2, p2 + rest.len() as int)[i]
                    == s[p2 + i]);
        }
        assert(forall|k: int, e: int|
            0 <= k < vv.drop_first().len() && 0 <= e < vv.drop_first()[k].len() ==> 0
                <= #[trigger] vv.drop_first()[k][e]) by {
            assert(forall|k: int|
                0 <= k < vv.drop_first().len() ==> #[trigger] vv.drop_first()[k] == vv[k + 1]);
        }
        assert(pos + j.len() == p2 + rest.len());
        lemma_row_items_canonical(s, p2, vv.drop_first());
        assert(row_items(s, pos) == Some((seq![head] + vv.drop_first(), p2 + rest.len() as int)));
        assert(seq![head] + vv.drop_first() =~= vv);
    }
}

pub proof fn lemma_rows_canonical(s: Seq<char>, pos: int, vv: Seq<Seq<int>>)
    requires
        forall|k: int, e: int|
            0 <= k < vv.len() && 0 <= e < vv[k].len() ==> 0 <= #[trigger] vv[k][e],
        0 <= pos,
        pos + row_lists(vv).len() <= s.len(),
        s.subrange(pos, pos + row_lists(vv).len() as int) == row_lists(vv),
    ensures
        rows_at(s, pos) == Some((vv, pos + row_lists(vv).len() as int)),
{
    let rl = row_lists(vv);
    assert(forall|i: int| 0 <= i < rl.len() ==> s[pos + i] == rl[i]) by {
        assert(forall|i: int|
            0 <= i < rl.len() ==> #[trigger] s.subrange(pos, pos + rl.len() as int)[i] == rl[i]);
    }
    assert(rl[0] == '[');
    assert(s[pos + 0] == rl[0]);
    if vv.len() == 0 {
        assert(joined_rows(vv) == Seq::<char>::empty());
        assert(rl =~= seq!['[', ']']);
        assert(s[pos + 1] == ']');
        assert(rows_at(s, pos) == Some((Seq::<Seq<int>>::empty(), pos + 2)));
        assert(Seq::<Seq<int>>::empty() =~= vv);
    } else {
        let j = joined_rows(vv);
        assert(j.len() >= 1 && j[0] == '[') by {
            if vv.len() == 1 {
                assert(j == num_list(vv[0]));
            } else {
                assert(j[0] == num_list(vv[0])[0]);
            }
        }
        assert(rl[1] == j[0]);
        assert(s[pos + 1] != ']');
        assert(s.subrange(pos + 1, pos + 1 + j.len() as int) =~= j) by {
            assert(forall|i: int| 0 <= i < j.len() ==> rl[1 + i] == j[i]);
        }
        assert(rl[1 + j.len() as int] == ']');
        assert(s[pos + (1 + j.len() as int)] == rl[1 + j.len() as int]);
        assert(s[pos + 1 + j.len()] != ',' && s[pos + 1 + j.len()] != '[');
        lemma_row_items_canonical(s, pos + 1, vv);
        assert(rows_at(s, pos) == Some((vv, pos + 1 + j.len() + 1)));
    }
}

fn char_at_is(s: &str, p: usize, c: char) -> (b: bool)
    requires
        p < s@.len(),
    ensures
        b == (s@[p as int] == c),
{
    s.get_char(p) == c
}

/// The values of a parsed vector, as integers.
pub open spec fn u64_ints(v: Seq<u64>) -> Seq<int> {
    v.map_values(|x: u64| x as int)
}

/// The values of a parsed vector of rows, as integers.
pub open spec fn u64_rows_ints(v: Seq<Vec<u64>>) -> Seq<Seq<int>> {
    v.map_values(|r: Vec<u64>| u64_ints(r@))
}

spec fn glue_list(done: Seq<int>, rest: Option<(Seq<int>, int)>, s: Seq<char>) -> Option<
    (Seq<int>, int),
> {
    match rest {
        Some(t) => if t.1 < s.len() && s[t.1] == ']' {
            Some((done + t.0, t.1 + 1))
        } else {
            None
        },
        None => None,
    }
}

/// Reads a JSON number list at `pos`, rejecting values beyond a machine
/// word.
fn parse_u64_list(s: &str, pos: usize) -> (r: Option<(Vec<u64>, usize)>)
    ensures
        r is Some <==> (num_list_at(s@, pos as int) matches Some(t) && forall|k: int|
            0 <= k < t.0.len() ==> #[trigger] t.0[k] <= u64::MAX),
        r is Some ==> (num_list_at(s@, pos as int) matches Some(t) && u64_ints((r->0).0@) == t.0
            && (r->0).1 == t.1 && t.1 <= s@.len()),
{
    let n = s.unicode_len();
    proof {
        lemma_num_list_at_advances(s@, pos as int);
    }
    if pos >= n || !char_at_is(s, pos, '[') {
        return None;
    }
    if pos + 1 < n && char_at_is(s, pos + 1, ']') {
        let vs: Vec<u64> = Vec::new();
        proof {
            assert(u64_ints(vs@) =~= Seq::<int>::empty());
        }
        return Some((vs, pos + 2));
    }
    let mut vs: Vec<u64> = Vec::new();
    let mut p: usize = pos + 1;
    proof {
        assert(u64_ints(vs@) =~= Seq::<int>::empty());
        if list_items(s@, pos as int + 1) is Some {
            let t = list_items(s@, pos as int + 1)->0;
            assert(Seq::<int>::empty() + t.0 =~= t.0);
        }
        assert(num_list_at(s@, pos as int) == glue_list(
            u64_ints(vs@),
            list_items(s@, p as int),
            s@,
        ));
    }
    loop
        invariant
            n == s@.len(),
            pos < p <= n,
            num_list_at(s@, pos as int) == glue_list(u64_ints(vs@), list_items(s@, p as int), s@),
        decreases n - p,
    {
        let ghost done = u64_ints(vs@);
        match parse_num(s, p) {
            None => {
                proof {
                    if !canon_num_at(s@, p as int) {
                        assert(list_items(s@, p as int) is None);
                    } else {
                        // the number here is too large for a machine word,
                        // so the list has an oversized entry
                        let d = digit_run(s@, p as int);
                        let v = num_val(s@, p as int, d as int);
                        assert(v > u64::MAX);
                        if num_list_at(s@, pos as int) is Some {
                            let t = num_list_at(s@, pos as int)->0;
                            let t2 = list_items(s@, p as int)->0;
                            assert(t2.0[0] == v);
                            assert(t.0 == done + t2.0);
                            assert(t.0[done.len() as int] == v);
                        }
                    }
                }
                return None;
            },
            Some((v, p2)) => {
                let ghost d = digit_run(s@, p as int);
                proof {
                    lemma_list_items_advances(s@, p2 as int + 1);
                }
                vs.push(v);
                proof {
                    assert(u64_ints(vs@) =~= done.push(v as int));
                }
                if p2 < n && char_at_is(s, p2, ',') {
                    proof {
                        if list_items(s@, p2 as int + 1) is Some {
                            let u = list_items(s@, p2 as int + 1)->0;
                            assert(list_items(s@, p as int) == Some(
                                (seq![v as int] + u.0, u.1),
                            ));
                            assert(done + (seq![v as int] + u.0) =~= done.push(v as int) + u.0);
                        } else {
                            assert(list_items(s@, p as int) is None);
                        }
                    }
                    p = p2 + 1;
                } else {
                    proof {
                        assert(list_items(s@, p as int) == Some((seq![v as int], p2 as int)));
                        assert(done + seq![v as int] =~= done.push(v as int));
                    }
                    if p2 < n && char_at_is(s, p2, ']') {
                        proof {
                            assert(num_list_at(s@, pos as int) == Some(
                                (u64_ints(vs@), p2 as int + 1),
                            ));
                            assert(forall|k: int|
                                0 <= k < u64_ints(vs@).len() ==> #[trigger] u64_ints(vs@)[k]
                                    <= u64::MAX);
                        }
                        return Some((vs, p2 + 1));
                    } else {
                        return None;
                    }
                }
            },
        }
    }
}

spec fn glue_rows(done: Seq<Seq<int>>, rest: Option<(Seq<Seq<int>>, int)>, s: Seq<char>) -> Option<
    (Seq<Seq<int>>, int),
> {
    match rest {
        Some(t) => if t.1 < s.len() && s[t.1] == ']' {
            Some((done + t.0, t.1 + 1))
        } else {
            None
        },
        None => None,
    }
}

/// Reads a JSON list of number lists at `pos`.
fn parse_u64_rows(s: &str, pos: usize) -> (r: Option<(Vec<Vec<u64>>, usize)>)
    ensures
        r is Some <==> (rows_at(s@, pos as int) matches Some(t) && forall|k: int, e: int|
            0 <= k < t.0.len() && 0 <= e < t.0[k].len() ==> #[trigger] t.0[k][e] <= u64::MAX),
        r is Some ==> (rows_at(s@, pos as int) matches Some(t) && u64_rows_ints((r->0).0@) == t.0
            && (r->0).1 == t.1 && t.1 <= s@.len()),
{
    let n = s.unicode_len();
    proof {
        lemma_rows_at_advances(s@, pos as int);
    }
    if pos >= n || !char_at_is(s, pos, '[') {
        return None;
    }
    if pos + 1 < n && char_at_is(s, pos + 1, ']') {
        let vs: Vec<Vec<u64>> = Vec::new();
        proof {
            assert(u64_rows_ints(vs@) =~= Seq::<Seq<int>>::empty());
        }
        return Some((vs, pos + 2));
    }
    let mut vs: Vec<Vec<u64>> = Vec::new();
    let mut p: usize = pos + 1;
    proof {
        assert(u64_rows_ints(vs@) =~= Seq::<Seq<int>>::empty());
        if row_items(s@, pos as int + 1) is Some {
            let t = row_items(s@, pos as int + 1)->0;
            assert(Seq::<Seq<int>>::empty() + t.0 =~= t.0);
        }
        assert(rows_at(s@, pos as int) == glue_rows(
            u64_rows_ints(vs@),
            row_items(s@, p as int),
            s@,
        ));
    }
    loop
        invariant
            n == s@.len(),
            pos < p <= n,
            rows_at(s@, pos as int) == glue_rows(u64_rows_ints(vs@), row_items(s@, p as int), s@),
        decreases n - p,
    {
        let ghost done = u64_rows_ints(vs@);
        match parse_u64_list(s, p) {
            None => {
                proof {
                    if num_list_at(s@, p as int) is None {
                        assert(row_items(s@, p as int) is None);
                    } else {
                        // some entry of the inner list is oversized
                        let t2 = num_list_at(s@, p as int)->0;
                        let k = choose|k: int| 0 <= k < t2.0.len() && !(#[trigger] t2.0[k]
                            <= u64::MAX);
                        if rows_at(s@, pos as int) is Some {
                            let t = rows_at(s@, pos as int)->0;
                            let u = row_items(s@, p as int)->0;
                            assert(u.0[0] == t2.0);
                            assert(t.0 == done + u.0);
                            assert(t.0[done.len() as int] == t2.0);
                            assert(t.0[done.len() as int][k] > u64::MAX);
                        }
                    }
                }
                return None;
            },
            Some((row, p2)) => {
                let ghost rowv = u64_ints(row@);
                proof {
                    lemma_row_items_advances(s@, p2 as int + 1);
                    lemma_num_list_at_advances(s@, p as int);
                }
                vs.push(row);
                proof {
                    assert(u64_rows_ints(vs@) =~= done.push(rowv));
                }
                if p2 < n && char_at_is(s, p2, ',') {
                    proof {
                        if row_items(s@, p2 as int + 1) is Some {
                            let u = row_items(s@, p2 as int + 1)->0;
                            assert(row_items(s@, p as int) == Some((seq![rowv] + u.0, u.1)));
                            assert(done + (seq![rowv] + u.0) =~= done.push(rowv) + u.0);
                        } else {
                            assert(row_items(s@, p as int) is None);
                        }
                    }
                    p = p2 + 1;
                } else {
                    proof {
                        assert(row_items(s@, p as int) == Some((seq![rowv], p2 as int)));
                        assert(done + seq![rowv] =~= done.push(rowv));
                    }
                    if p2 < n && char_at_is(s, p2, ']') {
                        proof {
                            assert(rows_at(s@, pos as int) == Some(
                                (u64_rows_ints(vs@), p2 as int + 1),
                            ));
                            assert(forall|k: int, e: int|
                                0 <= k < u64_rows_ints(vs@).len() && 0 <= e < u64_rows_ints(
                                    vs@,
                                )[k].len() ==> #[trigger] u64_rows_ints(vs@)[k][e] <= u64::MAX);
                        }
                        return Some((vs, p2 + 1));
                    } else {
                        return None;
                    }
                }
            },
        }
    }
}

fn rows_to_usize(v: &Vec<Vec<u64>>) -> (r: Option<Vec<Vec<usize>>>)
    ensures
        r is Some <==> (forall|k: int, e: int|
            0 <= k < u64_rows_ints(v@).len() && 0 <= e < u64_rows_ints(v@)[k].len()
                ==> #[trigger] u64_rows_ints(v@)[k][e] <= usize::MAX),
        r is Some ==> clues_of(r->0@) == u64_rows_ints(v@),
{
    let mut out: Vec<Vec<usize>> = Vec::new();
    let mut i: usize = 0;
    while i < v.len()
        invariant
            i <= v@.len(),
            out@.len() == i,
            forall|k: int, e: int|
                0 <= k < i && 0 <= e < v@[k]@.len() ==> #[trigger] v@[k]@[e] <= usize::MAX,
            forall|k: int| 0 <= k < i ==> ints_of((#[trigger] out@[k])@) == u64_ints(v@[k]@),
        decreases v@.len() - i,
    {
        let row = &v[i];
        let mut outrow: Vec<usize> = Vec::new();
        let mut j: usize = 0;
        while j < row.len()
            invariant
                j <= row@.len(),
                row == v@[i as int],
                i < v@.len(),
                outrow@.len() == j,
                forall|e: int| 0 <= e < j ==> #[trigger] row@[e] <= usize::MAX,
                forall|e: int| 0 <= e < j ==> #[trigger] outrow@[e] == row@[e] as usize,
            decreases row@.len() - j,
        {
            let x = row[j];
            if x > usize::MAX as u64 {
                proof {
                    assert(u64_rows_ints(v@)[i as int][j as int] == v@[i as int]@[j as int] as int);
                    assert(u64_rows_ints(v@)[i as int][j as int] > usize::MAX);
                }
                return None;
            }
            outrow.push(x as usize);
            j = j + 1;
        }
        proof {
            assert(ints_of(outrow@) =~= u64_ints(v@[i as int]@));
        }
        out.push(outrow);
        i = i + 1;
    }
    proof {
        assert(clues_of(out@) =~= u64_rows_ints(v@));
        assert forall|k: int, e: int|
            0 <= k < u64_rows_ints(v@).len() && 0 <= e < u64_rows_ints(v@)[k].len() implies
            #[trigger] u64_rows_ints(v@)[k][e] <= usize::MAX by {
            assert(u64_rows_ints(v@)[k][e] == v@[k]@[e] as int);
        }
    }
    Some(out)
}

fn rows_to_u8(v: &Vec<Vec<u64>>) -> (r: Option<Vec<Vec<u8>>>)
    ensures
        r is Some <==> (forall|k: int, e: int|
            0 <= k < u64_rows_ints(v@).len() && 0 <= e < u64_rows_ints(v@)[k].len()
                ==> #[trigger] u64_rows_ints(v@)[k][e] <= 255),
        r is Some ==> grid_ints(r->0@) == u64_rows_ints(v@),
{
    let mut out: Vec<Vec<u8>> = Vec::new();
    let mut i: usize = 0;
    while i < v.len()
        invariant
            i <= v@.len(),
            out@.len() == i,
            forall|k: int, e: int|
                0 <= k < i && 0 <= e < v@[k]@.len() ==> #[trigger] v@[k]@[e] <= 255,
            forall|k: int|
                0 <= k < i ==> (#[trigger] out@[k])@.map_values(|x: u8| x as int) == u64_ints(
                    v@[k]@,
                ),
        decreases v@.len() - i,
    {
        let row = &v[i];
        let mut outrow: Vec<u8> = Vec::new();
        let mut j: usize = 0;
        while j < row.len()
            invariant
                j <= row@.len(),
                row == v@[i as int],
                i < v@.len(),
                outrow@.len() == j,
                forall|e: int| 0 <= e < j ==> #[trigger] row@[e] <= 255,
                forall|e: int| 0 <= e < j ==> #[trigger] outrow@[e] == row@[e] as u8,
            decreases row@.len() - j,
        {
            let x = row[j];
            if x > 255 {
                proof {
                    assert(u64_rows_ints(v@)[i as int][j as int] == v@[i as int]@[j as int] as int);
                    assert(u64_rows_ints(v@)[i as int][j as int] > 255);
                }
                return None;
            }
            outrow.push(x as u8);
            j = j + 1;
        }
        proof {
            assert(outrow@.map_values(|x: u8| x as int) =~= u64_ints(v@[i as int]@));
        }
        out.push(outrow);
        i = i + 1;
    }
    proof {
        assert(grid_ints(out@) =~= u64_rows_ints(v@));
        assert forall|k: int, e: int|
            0 <= k < u64_rows_ints(v@).len() && 0 <= e < u64_rows_ints(v@)[k].len() implies
            #[trigger] u64_rows_ints(v@)[k][e] <= 255 by {
            assert(u64_rows_ints(v@)[k][e] == v@[k]@[e] as int);
        }
    }
    Some(out)
}

/// A canonical persisted document with the given fields, all of them
/// representable.
pub open spec fn canonical_doc(
    s: Seq<char>,
    c: int,
    h: int,
    w: int,
    ro: Seq<Seq<int>>,
    co: Seq<Seq<int>>,
    gr: Seq<Seq<int>>,
) -> bool {
    &&& s == doc_of(c, h, w, ro, co, gr)
    &&& 0 <= c <= u64::MAX
    &&& 0 <= h <= usize::MAX
    &&& 0 <= w <= usize::MAX
    &&& forall|k: int, e: int| 0 <= k < ro.len() && 0 <= e < ro[k].len() ==> 0 <= #[trigger] ro[k][e] <= usize::MAX
    &&& forall|k: int, e: int| 0 <= k < co.len() && 0 <= e < co[k].len() ==> 0 <= #[trigger] co[k][e] <= usize::MAX
    &&& forall|k: int, e: int| 0 <= k < gr.len() && 0 <= e < gr[k].len() ==> 0 <= #[trigger] gr[k][e] <= 255
    &&& gr.len() == h
    &&& forall|k: int| 0 <= k < gr.len() ==> (#[trigger] gr[k]).len() == w
}

/// The decoded fields of a successfully read document.
pub open spec fn decoded_fields(
    q: crate::Nonogram,
    h: int,
    w: int,
    ro: Seq<Seq<int>>,
    co: Seq<Seq<int>>,
    gr: Seq<Seq<int>>,
) -> bool {
    &&& q.completed_grid@.len() == h
    &&& forall|k: int|
        0 <= k < q.completed_grid@.len() ==> (#[trigger] q.completed_grid@[k])@.len() == w
    &&& clues_of(q.row_segments@) == ro
    &&& clues_of(q.column_segments@) == co
    &&& grid_ints(q.completed_grid@) == gr
}

/// The reader's contract: every canonical document is accepted with exactly
/// its own fields.
pub open spec fn decode_accepts(s: Seq<char>, r: Result<crate::Nonogram, String>) -> bool {
    forall|c: int, h: int, w: int, ro: Seq<Seq<int>>, co: Seq<Seq<int>>, gr: Seq<Seq<int>>|
        #[trigger] canonical_doc(s, c, h, w, ro, co, gr) ==> (r matches Ok(q) && decoded_fields(
            q,
            h,
            w,
            ro,
            co,
            gr,
        ))
}

/// Where each piece of a canonical document sits: the literals are where
/// they should be, the numbers are canonical runs spelling the fields, and
/// the three lists parse to exactly the stored rows.
#[verifier::rlimit(100)]
proof fn lemma_doc_pieces(
    s: Seq<char>,
    c: int,
    h: int,
    w: int,
    ro: Seq<Seq<int>>,
    co: Seq<Seq<int>>,
    gr: Seq<Seq<int>>,
)
    requires
        canonical_doc(s, c, h, w, ro, co, gr),
    ensures
        ({
            let o1 = "{\"checksum\":\""@.len() as int;
            let o2 = o1 + dec_of(c).len() as int;
            let o3 = o2 + "\",\"height\":"@.len() as int;
            let o4 = o3 + dec_of(h).len() as int;
            let o5 = o4 + ",\"width\":"@.len() as int;
            let o6 = o5 + dec_of(w).len() as int;
            let o7 = o6 + ",\"row_segments\":"@.len() as int;
            let o8 = o7 + row_lists(ro).len() as int;
            let o9 = o8 + ",\"column_segments\":"@.len() as int;
            let o10 = o9 + row_lists(co).len() as int;
            let o11 = o10 + ",\"completed_grid\":"@.len() as int;
            let o12 = o11 + row_lists(gr).len() as int;
            &&& lit_at(s, 0, "{\"checksum\":\""@)
            &&& canon_num_at(s, o1) && digit_run(s, o1) == dec_of(c).len() && num_val(
                s,
                o1,
                dec_of(c).len() as int,
            ) == c
            &&& lit_at(s, o2, "\",\"height\":"@)
            &&& canon_num_at(s, o3) && digit_run(s, o3) == dec_of(h).len() && num_val(
                s,
                o3,
                dec_of(h).len() as int,
            ) == h
            &&& lit_at(s, o4, ",\"width\":"@)
            &&& canon_num_at(s, o5) && digit_run(s, o5) == dec_of(w).len() && num_val(
                s,
                o5,
                dec_of(w).len() as int,
            ) == w
            &&& lit_at(s, o6, ",\"row_segments\":"@)
            &&& rows_at(s, o7) == Some((ro, o8))
            &&& lit_at(s, o8, ",\"column_segments\":"@)
            &&& rows_at(s, o9) == Some((co, o10))
            &&& lit_at(s, o10, ",\"completed_grid\":"@)
            &&& rows_at(s, o11) == Some((gr, o12))
            &&& lit_at(s, o12, "}"@)
            &&& s.len() == o12 + 1
        }),
{
    reveal_strlit("{\"checksum\":\"");
    reveal_strlit("\",\"height\":");
    reveal_strlit(",\"width\":");
    reveal_strlit(",\"row_segments\":");
    reveal_strlit(",\"column_segments\":");
    reveal_strlit(",\"completed_grid\":");
    reveal_strlit("}");
    lemma_dec_digits(c);
    lemma_dec_digits(h);
    lemma_dec_digits(w);
    let l1 = "{\"checksum\":\""@;
    let l2 = "\",\"height\":"@;
    let l3 = ",\"width\":"@;
    let l4 = ",\"row_segments\":"@;
    let l5 = ",\"column_segments\":"@;
    let l6 = ",\"completed_grid\":"@;
    let l7 = "}"@;
    let o1 = l1.len() as int;
    let o2 = o1 + dec_of(c).len() as int;
    let o3 = o2 + l2.len() as int;
    let o4 = o3 + dec_of(h).len() as int;
    let o5 = o4 + l3.len() as int;
    let o6 = o5 + dec_of(w).len() as int;
    let o7 = o6 + l4.len() as int;
    let o8 = o7 + row_lists(ro).len() as int;
    let o9 = o8 + l5.len() as int;
    let o10 = o9 + row_lists(co).len() as int;
    let o11 = o10 + l6.len() as int;
    let o12 = o11 + row_lists(gr).len() as int;
    assert(s.len() == o12 + 1);
    assert(s.subrange(0, o1) =~= l1);
    assert(s.subrange(o1, o2) =~= dec_of(c));
    assert(s.subrange(o2, o3) =~= l2);
    assert(s.subrange(o3, o4) =~= dec_of(h));
    assert(s.subrange(o4, o5) =~= l3);
    assert(s.subrange(o5, o6) =~= dec_of(w));
    assert(s.subrange(o6, o7) =~= l4);
    assert(s.subrange(o7, o8) =~= row_lists(ro));
    assert(s.subrange(o8, o9) =~= l5);
    assert(s.subrange(o9, o10) =~= row_lists(co));
    assert(s.subrange(o10, o11) =~= l6);
    assert(s.subrange(o11, o12) =~= row_lists(gr));
    assert(s.subrange(o12, o12 + 1) =~= l7);
    // the checksum digits end at a quote
    assert(s[o2] == l2[0]);
    assert(!is_digit(s[o2]));
    lemma_dec_run(s, o1, c);
    assert(s[o4] == l3[0]);
    assert(!is_digit(s[o4]));
    lemma_dec_run(s, o3, h);
    assert(s[o6] == l4[0]);
    assert(!is_digit(s[o6]));
    lemma_dec_run(s, o5, w);
    lemma_rows_canonical(s, o7, ro);
    lemma_rows_canonical(s, o9, co);
    lemma_rows_canonical(s, o11, gr);
}

proof fn lemma_subrange_chain(s: Seq<char>, b: int, c: int, pre: Seq<char>, piece: Seq<char>)
    requires
        0 <= b <= c <= s.len(),
        s.subrange(0, b) == pre,
        s.subrange(b, c) == piece,
    ensures
        s.subrange(0, c) == pre + piece,
{
    assert forall|i: int| 0 <= i < c implies s.subrange(0, c)[i] == (pre + piece)[i] by {
        if i < b {
            assert(s.subrange(0, b)[i] == pre[i]);
            assert(s.subrange(0, c)[i] == s[i]);
            assert(s.subrange(0, b)[i] == s[i]);
        } else {
            assert(s.subrange(b, c)[i - b] == piece[i - b]);
            assert(s.subrange(0, c)[i] == s[i]);
            assert(s.subrange(b, c)[i - b] == s[i]);
        }
    }
    assert(s.subrange(0, c) =~= pre + piece);
}

/// Stitches the accepted pieces back into the one canonical document.
#[verifier::rlimit(100)]
proof fn lemma_assemble_doc(
    s: Seq<char>,
    p1: int,
    p2: int,
    p3: int,
    p4: int,
    p5: int,
    p6: int,
    p7: int,
    p8: int,
    p9: int,
    p10: int,
    p11: int,
    p12: int,
    p13: int,
    c: int,
    h: int,
    w: int,
    ro: Seq<Seq<int>>,
    co: Seq<Seq<int>>,
    gr: Seq<Seq<int>>,
)
    requires
        lit_at(s, 0, "{\"checksum\":\""@),
        p1 == "{\"checksum\":\""@.len(),
        canon_num_at(s, p1),
        digit_run(s, p1) == p2 - p1,
        p2 <= s.len(),
        num_val(s, p1, p2 - p1) == c,
        lit_at(s, p2, "\",\"height\":"@),
        p3 == p2 + "\",\"height\":"@.len(),
        canon_num_at(s, p3),
        digit_run(s, p3) == p4 - p3,
        p4 <= s.len(),
        num_val(s, p3, p4 - p3) == h,
        lit_at(s, p4, ",\"width\":"@),
        p5 == p4 + ",\"width\":"@.len(),
        canon_num_at(s, p5),
        digit_run(s, p5) == p6 - p5,
        p6 <= s.len(),
        num_val(s, p5, p6 - p5) == w,
        lit_at(s, p6, ",\"row_segments\":"@),
        p7 == p6 + ",\"row_segments\":"@.len(),
        rows_at(s, p7) == Some((ro, p8)),
        lit_at(s, p8, ",\"column_segments\":"@),
        p9 == p8 + ",\"column_segments\":"@.len(),
        rows_at(s, p9) == Some((co, p10)),
        lit_at(s, p10, ",\"completed_grid\":"@),
        p11 == p10 + ",\"completed_grid\":"@.len(),
        rows_at(s, p11) == Some((gr, p12)),
        lit_at(s, p12, "}"@),
        p13 == p12 + "}"@.len(),
        p13 == s.len(),
    ensures
        s == doc_of(c, h, w, ro, co, gr),
{
    lemma_dec_unique(s, p1);
    lemma_dec_unique(s, p3);
    lemma_dec_unique(s, p5);
    lemma_rows_sound(s, p7);
    lemma_rows_sound(s, p9);
    lemma_rows_sound(s, p11);
    lemma_rows_at_advances(s, p7);
    lemma_rows_at_advances(s, p9);
    lemma_rows_at_advances(s, p11);
    let g1 = "{\"checksum\":\""@;
    let g2 = g1 + dec_of(c);
    let g3 = g2 + "\",\"height\":"@;
    let g4 = g3 + dec_of(h);
    let g5 = g4 + ",\"width\":"@;
    let g6 = g5 + dec_of(w);
    let g7 = g6 + ",\"row_segments\":"@;
    let g8 = g7 + row_lists(ro);
    let g9 = g8 + ",\"column_segments\":"@;
    let g10 = g9 + row_lists(co);
    let g11 = g10 + ",\"completed_grid\":"@;
    let g12 = g11 + row_lists(gr);
    let g13 = g12 + "}"@;
    assert(s.subrange(0, p1) == g1);
    assert(s.subrange(p1, p2) == dec_of(c));
    assert(s.subrange(p3, p4) == dec_of(h));
    assert(s.subrange(p5, p6) == dec_of(w));
    assert(s.subrange(p7, p8) == row_lists(ro));
    assert(s.subrange(p9, p10) == row_lists(co));
    assert(s.subrange(p11, p12) == row_lists(gr));
    lemma_subrange_chain(s, p1, p2, g1, dec_of(c));
    lemma_subrange_chain(s, p2, p3, g2, "\",\"height\":"@);
    lemma_subrange_chain(s, p3, p4, g3, dec_of(h));
    lemma_subrange_chain(s, p4, p5, g4, ",\"width\":"@);
    lemma_subrange_chain(s, p5, p6, g5, dec_of(w));
    lemma_subrange_chain(s, p6, p7, g6, ",\"row_segments\":"@);
    lemma_subrange_chain(s, p7, p8, g7, row_lists(ro));
    lemma_subrange_chain(s, p8, p9, g8, ",\"column_segments\":"@);
    lemma_subrange_chain(s, p9, p10, g9, row_lists(co));
    lemma_subrange_chain(s, p10, p11, g10, ",\"completed_grid\":"@);
    lemma_subrange_chain(s, p11, p12, g11, row_lists(gr));
    lemma_subrange_chain(s, p12, p13, g12, "}"@);
    assert(s =~= s.subrange(0, p13));
    assert(s =~= doc_of(c, h, w, ro, co, gr));
}

/// The document is the canonical rendering of this puzzle's fields, for
/// some checksum and some width consistent with its grid.
pub open spec fn sound_decode(s: Seq<char>, q: crate::Nonogram) -> bool {
    exists|c2: int, w2: int|
        {
            &&& 0 <= c2 <= u64::MAX
            &&& 0 <= w2 <= usize::MAX
            &&& s == #[trigger] doc_of(
                c2,
                q.completed_grid@.len() as int,
                w2,
                clues_of(q.row_segments@),
                clues_of(q.column_segments@),
                grid_ints(q.completed_grid@),
            )
            &&& forall|k: int|
                0 <= k < q.completed_grid@.len() ==> (#[trigger] q.completed_grid@[k])@.len()
                    == w2
        }
}

/// Reads every field of a canonical document, or nothing.
#[verifier::rlimit(100)]
fn parse_document(s: &str) -> (r: Option<
    (Vec<Vec<usize>>, Vec<Vec<usize>>, Vec<Vec<u8>>, u64, usize, usize),
>)
    ensures
        r matches Some(t) ==> s@ == doc_of(
            t.3 as int,
            t.4 as int,
            t.5 as int,
            clues_of(t.0@),
            clues_of(t.1@),
            grid_ints(t.2@),
        ),
        forall|c: int, h: int, w: int, ro: Seq<Seq<int>>, co: Seq<Seq<int>>, gr: Seq<Seq<int>>|
            #[trigger] canonical_doc(s@, c, h, w, ro, co, gr) ==> (r matches Some(t)
                && clues_of(t.0@) == ro && clues_of(t.1@) == co && grid_ints(t.2@) == gr && t.3
                == c && t.4 == h && t.5 == w),
{
    proof {
        assert forall|c: int, h: int, w: int, ro: Seq<Seq<int>>, co: Seq<Seq<int>>, gr: Seq<
            Seq<int>,
        >| #[trigger] canonical_doc(s@, c, h, w, ro, co, gr) implies ({
            let o1 = "{\"checksum\":\""@.len() as int;
            let o2 = o1 + dec_of(c).len() as int;
            let o3 = o2 + "\",\"height\":"@.len() as int;
            let o4 = o3 + dec_of(h).len() as int;
            let o5 = o4 + ",\"width\":"@.len() as int;
            let o6 = o5 + dec_of(w).len() as int;
            let o7 = o6 + ",\"row_segments\":"@.len() as int;
            let o8 = o7 + row_lists(ro).len() as int;
            let o9 = o8 + ",\"column_segments\":"@.len() as int;
            let o10 = o9 + row_lists(co).len() as int;
            let o11 = o10 + ",\"completed_grid\":"@.len() as int;
            let o12 = o11 + row_lists(gr).len() as int;
            &&& lit_at(s@, 0, "{\"checksum\":\""@)
            &&& canon_num_at(s@, o1) && digit_run(s@, o1) == dec_of(c).len() && num_val(
                s@,
                o1,
                dec_of(c).len() as int,
            ) == c
            &&& lit_at(s@, o2, "\",\"height\":"@)
            &&& canon_num_at(s@, o3) && digit_run(s@, o3) == dec_of(h).len() && num_val(
                s@,
                o3,
                dec_of(h).len() as int,
            ) == h
            &&& lit_at(s@, o4, ",\"width\":"@)
            &&& canon_num_at(s@, o5) && digit_run(s@, o5) == dec_of(w).len() && num_val(
                s@,
                o5,
                dec_of(w).len() as int,
            ) == w
            &&& lit_at(s@, o6, ",\"row_segments\":"@)
            &&& rows_at(s@, o7) == Some((ro, o8))
            &&& lit_at(s@, o8, ",\"column_segments\":"@)
            &&& rows_at(s@, o9) == Some((co, o10))
            &&& lit_at(s@, o10, ",\"completed_grid\":"@)
            &&& rows_at(s@, o11) == Some((gr, o12))
            &&& lit_at(s@, o12, "}"@)
            &&& s@.len() == o12 + 1
        }) by {
            lemma_doc_pieces(s@, c, h, w, ro, co, gr);
        }
    }
        let p1 = match expect_lit(s, 0, "{\"checksum\":\"") {
        Some(p) => p,
        None => {
            return None;
        },
    };
    let (cval, p2) = match parse_num(s, p1) {
        Some(t) => t,
        None => {
            return None;
        },
    };
    let p3 = match expect_lit(s, p2, "\",\"height\":") {
        Some(p) => p,
        None => {
            return None;
        },
    };
    let (hval, p4) = match parse_num(s, p3) {
        Some(t) => t,
        None => {
            return None;
        },
    };
    let p5 = match expect_lit(s, p4, ",\"width\":") {
        Some(p) => p,
        None => {
            return None;
        },
    };
    let (wval, p6) = match parse_num(s, p5) {
        Some(t) => t,
        None => {
            return None;
        },
    };
    let p7 = match expect_lit(s, p6, ",\"row_segments\":") {
        Some(p) => p,
        None => {
            return None;
        },
    };
    let (rows64, p8) = match parse_u64_rows(s, p7) {
        Some(t) => t,
        None => {
            return None;
        },
    };
    let p9 = match expect_lit(s, p8, ",\"column_segments\":") {
        Some(p) => p,
        None => {
            return None;
        },
    };
    let (cols64, p10) = match parse_u64_rows(s, p9) {
        Some(t) => t,
        None => {
            return None;
        },
    };
    let p11 = match expect_lit(s, p10, ",\"completed_grid\":") {
        Some(p) => p,
        None => {
            return None;
        },
    };
    let (grid64, p12) = match parse_u64_rows(s, p11) {
        Some(t) => t,
        None => {
            return None;
        },
    };
    let p13 = match expect_lit(s, p12, "}") {
        Some(p) => p,
        None => {
            return None;
        },
    };
    if p13 != s.unicode_len() {
        return None;
    }
    if hval > usize::MAX as u64 || wval > usize::MAX as u64 {
        return None;
    }
    let height = hval as usize;
    let width = wval as usize;
    let row_segments = match rows_to_usize(&rows64) {
        Some(v) => v,
        None => {
            return None;
        },
    };
    let column_segments = match rows_to_usize(&cols64) {
        Some(v) => v,
        None => {
            return None;
        },
    };
    let completed_grid = match rows_to_u8(&grid64) {
        Some(v) => v,
        None => {
            return None;
        },
    };
    proof {
        lemma_assemble_doc(
            s@,
            p1 as int,
            p2 as int,
            p3 as int,
            p4 as int,
            p5 as int,
            p6 as int,
            p7 as int,
            p8 as int,
            p9 as int,
            p10 as int,
            p11 as int,
            p12 as int,
            p13 as int,
            cval as int,
            height as int,
            width as int,
            u64_rows_ints(rows64@),
            u64_rows_ints(cols64@),
            u64_rows_ints(grid64@),
        );
        assert(clues_of(row_segments@) == u64_rows_ints(rows64@));
        assert(clues_of(column_segments@) == u64_rows_ints(cols64@));
        assert(grid_ints(completed_grid@) == u64_rows_ints(grid64@));
    }
    Some((row_segments, column_segments, completed_grid, cval, height, width))
}

/// Reads a puzzle back from its canonical JSON document.
///
/// A malformed document is a parse error; a well-formed document whose grid
/// does not form a height-by-width matrix is a shape error, reported
/// separately.  Exactly the canonical documents are accepted: whatever was
/// written by the canonical writer reads back as itself.
#[verifier::loop_isolation(false)]
pub fn decode_document(s: &str) -> (r: Result<crate::Nonogram, String>)
    ensures
        r matches Ok(q) ==> sound_decode(s@, q),
        decode_accepts(s@, r),
{
    let parsed = match parse_document(s) {
        Some(t) => t,
        None => {
            return Err(
                String::from_str("the document is not the canonical nonogram JSON object"),
            );
        },
    };
    let (row_segments, column_segments, completed_grid, cval, height, width) = parsed;
    proof {
        assert(grid_ints(completed_grid@).len() == completed_grid@.len());
        assert(forall|t: int|
            0 <= t < completed_grid@.len() ==> (#[trigger] grid_ints(completed_grid@)[t]).len()
                == completed_grid@[t]@.len());
    }
    // the grid must really form a height by width matrix
    if completed_grid.len() != height {
        return Err(String::from_str("completed_grid does not form a height by width matrix"));
    }
    proof {
        assert forall|c: int, h: int, w: int, ro: Seq<Seq<int>>, co: Seq<Seq<int>>, gr: Seq<
            Seq<int>,
        >| #[trigger] canonical_doc(s@, c, h, w, ro, co, gr) implies (width == w && forall|t: int|
            0 <= t < completed_grid@.len() ==> (#[trigger] completed_grid@[t])@.len() == w) by {
            assert(grid_ints(completed_grid@) == gr);
            assert forall|t: int|
                0 <= t < completed_grid@.len() implies (#[trigger] completed_grid@[t])@.len()
                == w by {
                assert(gr[t].len() == w);
                assert(grid_ints(completed_grid@)[t].len() == completed_grid@[t]@.len());
            }
        }
    }
    let mut k: usize = 0;
    while k < completed_grid.len()
        invariant
            k <= completed_grid@.len(),
            forall|t: int| 0 <= t < k ==> (#[trigger] completed_grid@[t])@.len() == width,
        decreases completed_grid@.len() - k,
    {
        if completed_grid[k].len() != width {
            return Err(
                String::from_str("completed_grid does not form a height by width matrix"),
            );
        }
        k = k + 1;
    }
    let q = crate::Nonogram { row_segments, column_segments, completed_grid };
    proof {
        assert(sound_decode(s@, q)) by {
            assert(0 <= cval as int <= u64::MAX && 0 <= width as int <= usize::MAX && s@
                == doc_of(
                cval as int,
                q.completed_grid@.len() as int,
                width as int,
                clues_of(q.row_segments@),
                clues_of(q.column_segments@),
                grid_ints(q.completed_grid@),
            ));
        }
    }
    Ok(q)
}

/// Round trip: reading back the canonical document of a puzzle reproduces
/// its height, width, row and column clues, and grid, cell for cell.
pub proof fn lemma_round_trip(p: crate::Nonogram, c: int, r: Result<crate::Nonogram, String>)
    requires
        0 <= c <= u64::MAX,
        forall|i: int|
            0 <= i < p.completed_grid@.len() ==> (#[trigger] p.completed_grid@[i])@.len()
                == p.spec_width(),
        decode_accepts(
            doc_of(
                c,
                p.spec_height(),
                p.spec_width(),
                clues_of(p.row_segments@),
                clues_of(p.column_segments@),
                grid_ints(p.completed_grid@),
            ),
            r,
        ),
    ensures
        r matches Ok(q) && q.completed_grid@.len() == p.completed_grid@.len()
            && q.row_segments@.len() == p.row_segments@.len() && (forall|i: int|
            0 <= i < p.row_segments@.len() ==> (#[trigger] q.row_segments@[i])@
                == p.row_segments@[i]@) && q.column_segments@.len() == p.column_segments@.len()
            && (forall|i: int|
            0 <= i < p.column_segments@.len() ==> (#[trigger] q.column_segments@[i])@
                == p.column_segments@[i]@) && (forall|i: int|
            0 <= i < p.completed_grid@.len() ==> (#[trigger] q.completed_grid@[i])@
                == p.completed_grid@[i]@),
{
    let s = doc_of(
        c,
        p.spec_height(),
        p.spec_width(),
        clues_of(p.row_segments@),
        clues_of(p.column_segments@),
        grid_ints(p.completed_grid@),
    );
    let h = p.spec_height();
    let w = p.spec_width();
    let ro = clues_of(p.row_segments@);
    let co = clues_of(p.column_segments@);
    let gr = grid_ints(p.completed_grid@);
    assert(canonical_doc(s, c, h, w, ro, co, gr)) by {
        assert(p.completed_grid.len() == p.completed_grid@.len());
        assert(0 <= h <= usize::MAX);
        if p.completed_grid@.len() == 0 {
            assert(w == 0);
        } else {
            assert(p.completed_grid@[0]@.len() == p.completed_grid@[0].len());
        }
        assert(0 <= w <= usize::MAX);
        assert(forall|k: int, e: int|
            0 <= k < ro.len() && 0 <= e < ro[k].len() ==> 0 <= #[trigger] ro[k][e]
                <= usize::MAX) by {
            assert(forall|k: int, e: int|
                0 <= k < ro.len() && 0 <= e < ro[k].len() ==> #[trigger] ro[k][e]
                    == p.row_segments@[k]@[e] as int);
        }
        assert(forall|k: int, e: int|
            0 <= k < co.len() && 0 <= e < co[k].len() ==> 0 <= #[trigger] co[k][e]
                <= usize::MAX) by {
            assert(forall|k: int, e: int|
                0 <= k < co.len() && 0 <= e < co[k].len() ==> #[trigger] co[k][e]
                    == p.column_segments@[k]@[e] as int);
        }
        assert(forall|k: int, e: int|
            0 <= k < gr.len() && 0 <= e < gr[k].len() ==> 0 <= #[trigger] gr[k][e] <= 255) by {
            assert(forall|k: int, e: int|
                0 <= k < gr.len() && 0 <= e < gr[k].len() ==> #[trigger] gr[k][e]
                    == p.completed_grid@[k]@[e] as int);
        }
        assert(gr.len() == h);
        assert(forall|k: int|
            0 <= k < gr.len() ==> (#[trigger] gr[k]).len() == p.completed_grid@[k]@.len());
    }
    assert(r is Ok);
    let q = r->Ok_0;
    {
        assert(decoded_fields(q, h, w, ro, co, gr));
        assert(clues_of(q.row_segments@) == ro);
        assert forall|i: int| 0 <= i < p.row_segments@.len() implies (
        #[trigger] q.row_segments@[i])@ == p.row_segments@[i]@ by {
            assert(clues_of(q.row_segments@)[i] == clues_of(p.row_segments@)[i]);
            assert(ints_of(q.row_segments@[i]@) == ints_of(p.row_segments@[i]@));
            assert(q.row_segments@[i]@.len() == p.row_segments@[i]@.len()) by {
                assert(ints_of(q.row_segments@[i]@).len() == ints_of(p.row_segments@[i]@).len());
            }
            assert forall|e: int| 0 <= e < q.row_segments@[i]@.len() implies q.row_segments@[i]@[e]
                == p.row_segments@[i]@[e] by {
                assert(ints_of(q.row_segments@[i]@)[e] == ints_of(p.row_segments@[i]@)[e]);
                assert(ints_of(q.row_segments@[i]@)[e] == q.row_segments@[i]@[e] as int);
                assert(ints_of(p.row_segments@[i]@)[e] == p.row_segments@[i]@[e] as int);
            }
            assert(q.row_segments@[i]@ =~= p.row_segments@[i]@);
        }
        assert forall|i: int| 0 <= i < p.column_segments@.len() implies (
        #[trigger] q.column_segments@[i])@ == p.column_segments@[i]@ by {
            assert(clues_of(q.column_segments@)[i] == clues_of(p.column_segments@)[i]);
            assert(ints_of(q.column_segments@[i]@) == ints_of(p.column_segments@[i]@));
            assert(q.column_segments@[i]@.len() == p.column_segments@[i]@.len()) by {
                assert(ints_of(q.column_segments@[i]@).len() == ints_of(
                    p.column_segments@[i]@,
                ).len());
            }
            assert forall|e: int|
                0 <= e < q.column_segments@[i]@.len() implies q.column_segments@[i]@[e]
                == p.column_segments@[i]@[e] by {
                assert(ints_of(q.column_segments@[i]@)[e] == ints_of(p.column_segments@[i]@)[e]);
                assert(ints_of(q.column_segments@[i]@)[e] == q.column_segments@[i]@[e] as int);
                assert(ints_of(p.column_segments@[i]@)[e] == p.column_segments@[i]@[e] as int);
            }
            assert(q.column_segments@[i]@ =~= p.column_segments@[i]@);
        }
        assert forall|i: int| 0 <= i < p.completed_grid@.len() implies (
        #[trigger] q.completed_grid@[i])@ == p.completed_grid@[i]@ by {
            assert(grid_ints(q.completed_grid@)[i] == grid_ints(p.completed_grid@)[i]);
            let qm = q.completed_grid@[i]@.map_values(|x: u8| x as int);
            let pm = p.completed_grid@[i]@.map_values(|x: u8| x as int);
            assert(grid_ints(q.completed_grid@)[i] == qm);
            assert(grid_ints(p.completed_grid@)[i] == pm);
            assert(q.completed_grid@[i]@.len() == p.completed_grid@[i]@.len()) by {
                assert(qm.len() == pm.len());
            }
            assert forall|e: int|
                0 <= e < q.completed_grid@[i]@.len() implies q.completed_grid@[i]@[e]
                == p.completed_grid@[i]@[e] by {
                assert(qm[e] == pm[e]);
                assert(qm[e] == q.completed_grid@[i]@[e] as int);
                assert(pm[e] == p.completed_grid@[i]@[e] as int);
            }
            assert(q.completed_grid@[i]@ =~= p.completed_grid@[i]@);
        }
        assert(q.row_segments@.len() == p.row_segments@.len());
        assert(q.column_segments@.len() == p.column_segments@.len());
    }
}

} // verus!
