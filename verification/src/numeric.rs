//! Exact ordering of number tokens.
//!
//! A number token is one or more digits, optionally followed by a dot and
//! one or more digits. Two tokens are ordered by the exact decimal values
//! they denote: with mantissas `A`, `B` (the digits with the dot removed)
//! and fractional lengths `p`, `q`, the token values compare as
//! `A * 10^q` against `B * 10^p`.

use vstd::prelude::*;

use crate::token::all_digits;
use crate::token::is_digit;
use crate::token::is_number_seq;
use crate::token::str_to_chars;

verus! {

/// Outcome of comparing two number tokens.
#[derive(PartialEq, Eq, Structural, Clone, Copy, Debug)]
pub enum Cmp {
    Lt,
    Eq,
    Gt,
}

pub open spec fn digit_of(c: char) -> int {
    c as int - 48
}

/// The base-10 value of a digit string.
pub open spec fn digits_val(s: Seq<char>) -> int
    decreases s.len(),
{
    if s.len() == 0 {
        0
    } else {
        digits_val(s.drop_last()) * 10 + digit_of(s.last())
    }
}

pub open spec fn pow10(n: nat) -> int
    decreases n,
{
    if n == 0 {
        1
    } else {
        10 * pow10((n - 1) as nat)
    }
}

pub open spec fn has_dot(s: Seq<char>) -> bool {
    exists|i: int| 0 <= i < s.len() && s[i] == '.'
}

pub open spec fn spec_dot_pos(s: Seq<char>) -> int {
    choose|i: int| 0 <= i < s.len() && s[i] == '.'
}

/// The digits before the dot; the whole token when there is no dot.
pub open spec fn int_part(s: Seq<char>) -> Seq<char> {
    if has_dot(s) {
        s.subrange(0, spec_dot_pos(s))
    } else {
        s
    }
}

/// The digits after the dot; empty when there is no dot.
pub open spec fn frac_part(s: Seq<char>) -> Seq<char> {
    if has_dot(s) {
        s.subrange(spec_dot_pos(s) + 1, s.len() as int)
    } else {
        Seq::empty()
    }
}

/// The token's digits with the dot removed, read as one integer.
pub open spec fn num_mantissa(s: Seq<char>) -> int {
    digits_val(int_part(s) + frac_part(s))
}

/// How many digits stand after the dot.
pub open spec fn num_scale(s: Seq<char>) -> nat {
    frac_part(s).len()
}

/// The value of `a` is strictly below the value of `b`.
pub open spec fn num_lt(a: Seq<char>, b: Seq<char>) -> bool {
    num_mantissa(a) * pow10(num_scale(b)) < num_mantissa(b) * pow10(num_scale(a))
}

/// The values of `a` and `b` are equal.
pub open spec fn num_eq(a: Seq<char>, b: Seq<char>) -> bool {
    num_mantissa(a) * pow10(num_scale(b)) == num_mantissa(b) * pow10(num_scale(a))
}

pub proof fn lemma_pow10_pos(n: nat)
    ensures
        pow10(n) >= 1,
    decreases n,
{
    if n > 0 {
        lemma_pow10_pos((n - 1) as nat);
    }
}

pub proof fn lemma_pow10_mono(m: nat, n: nat)
    requires
        m <= n,
    ensures
        pow10(m) <= pow10(n),
    decreases n,
{
    if m < n {
        lemma_pow10_mono(m, (n - 1) as nat);
        lemma_pow10_pos((n - 1) as nat);
    }
}

pub proof fn lemma_pow10_add(m: nat, n: nat)
    ensures
        pow10(m + n) == pow10(m) * pow10(n),
    decreases n,
{
    if n == 0 {
        assert(pow10(m) * 1 == pow10(m)) by (nonlinear_arith);
    } else {
        lemma_pow10_add(m, (n - 1) as nat);
        assert(pow10((m + n - 1) as nat) == pow10(m) * pow10((n - 1) as nat));
        assert(10 * (pow10(m) * pow10((n - 1) as nat)) == pow10(m) * (10 * pow10(
            (n - 1) as nat,
        ))) by (nonlinear_arith);
    }
}

pub proof fn lemma_all_digits_subrange(s: Seq<char>, i: int, j: int)
    requires
        all_digits(s),
        0 <= i <= j <= s.len(),
    ensures
        all_digits(s.subrange(i, j)),
{
    assert forall|m: int| 0 <= m < s.subrange(i, j).len() implies is_digit(
        #[trigger] s.subrange(i, j)[m],
    ) by {
        assert(s.subrange(i, j)[m] == s[m + i]);
    }
}

pub proof fn lemma_digits_single(c: char)
    ensures
        digits_val(seq![c]) == digit_of(c),
{
    let s = seq![c];
    assert(s.len() == 1);
    assert(s.last() == c);
    assert(s.drop_last() =~= Seq::<char>::empty());
    assert(digits_val(Seq::<char>::empty()) == 0);
    assert(digits_val(s) == digits_val(s.drop_last()) * 10 + digit_of(s.last()));
}

/// Concatenation splits the value: the left digits are shifted by the
/// length of the right digits.
pub proof fn lemma_digits_split(s: Seq<char>, t: Seq<char>)
    ensures
        digits_val(s + t) == digits_val(s) * pow10(t.len()) + digits_val(t),
    decreases t.len(),
{
    if t.len() == 0 {
        assert(s + t =~= s);
        assert(digits_val(s) * 1 == digits_val(s)) by (nonlinear_arith);
    } else {
        let t1 = t.drop_last();
        lemma_digits_split(s, t1);
        assert((s + t).drop_last() =~= s + t1);
        assert((s + t).last() == t.last());
        assert(digits_val(s + t) == digits_val(s + t1) * 10 + digit_of(t.last()));
        assert((digits_val(s) * pow10(t1.len()) + digits_val(t1)) * 10 == digits_val(s) * (10
            * pow10(t1.len())) + digits_val(t1) * 10) by (nonlinear_arith);
        assert(pow10(t.len()) == 10 * pow10(t1.len()));
    }
}

pub proof fn lemma_digits_bound(s: Seq<char>)
    requires
        all_digits(s),
    ensures
        0 <= digits_val(s) < pow10(s.len()),
    decreases s.len(),
{
    if s.len() == 0 {
    } else {
        let s1 = s.drop_last();
        assert(all_digits(s1)) by {
            assert forall|i: int| 0 <= i < s1.len() implies is_digit(#[trigger] s1[i]) by {
                assert(s1[i] == s[i]);
            }
        }
        lemma_digits_bound(s1);
        assert(is_digit(s.last()));
        assert(0 <= digit_of(s.last()) <= 9);
        let p1 = pow10((s.len() - 1) as nat);
        assert(pow10(s.len()) == 10 * p1);
        assert(digits_val(s1) * 10 + digit_of(s.last()) < 10 * p1) by (nonlinear_arith)
            requires
                digits_val(s1) < p1,
                digit_of(s.last()) <= 9,
        ;
        assert(digits_val(s1) * 10 + digit_of(s.last()) >= 0) by (nonlinear_arith)
            requires
                digits_val(s1) >= 0,
                digit_of(s.last()) >= 0,
        ;
    }
}

/// A digit string with a nonzero leading digit reaches at least
/// `10^(len-1)`.
pub proof fn lemma_digits_lower(s: Seq<char>)
    requires
        all_digits(s),
        s.len() > 0,
        s[0] != '0',
    ensures
        digits_val(s) >= pow10((s.len() - 1) as nat),
{
    let first = s.subrange(0, 1);
    let rest = s.subrange(1, s.len() as int);
    assert(s =~= first + rest);
    assert(first =~= seq![s[0]]);
    lemma_digits_single(s[0]);
    lemma_digits_split(first, rest);
    lemma_all_digits_subrange(s, 1, s.len() as int);
    lemma_digits_bound(rest);
    assert(is_digit(s[0]));
    assert(digit_of(s[0]) >= 1);
    let p = pow10(rest.len());
    lemma_pow10_pos(rest.len());
    assert(digit_of(s[0]) * p >= p) by (nonlinear_arith)
        requires
            digit_of(s[0]) >= 1,
            p >= 1,
    ;
}

/// Equal-length digit strings that agree up to `k` and differ at `k`
/// compare by the digit at `k`.
pub proof fn lemma_digits_lex(a: Seq<char>, b: Seq<char>, k: int)
    requires
        all_digits(a),
        all_digits(b),
        a.len() == b.len(),
        0 <= k < a.len(),
        forall|i: int| 0 <= i < k ==> a[i] == b[i],
        digit_of(a[k]) < digit_of(b[k]),
    ensures
        digits_val(a) < digits_val(b),
{
    let n = a.len() as int;
    let ap = a.subrange(0, k);
    let asuf = a.subrange(k, n);
    let bp = b.subrange(0, k);
    let bsuf = b.subrange(k, n);
    assert(a =~= ap + asuf);
    assert(b =~= bp + bsuf);
    assert(ap =~= bp);
    lemma_digits_split(ap, asuf);
    lemma_digits_split(bp, bsuf);
    // Compare the suffixes: the head digits decide.
    let atail = a.subrange(k + 1, n);
    let btail = b.subrange(k + 1, n);
    assert(asuf =~= seq![a[k]] + atail);
    assert(bsuf =~= seq![b[k]] + btail);
    lemma_digits_single(a[k]);
    lemma_digits_single(b[k]);
    lemma_digits_split(seq![a[k]], atail);
    lemma_digits_split(seq![b[k]], btail);
    lemma_all_digits_subrange(a, k + 1, n);
    lemma_all_digits_subrange(b, k + 1, n);
    lemma_digits_bound(atail);
    lemma_digits_bound(btail);
    let p = pow10(atail.len());
    assert(btail.len() == atail.len());
    assert(digit_of(a[k]) * p + digits_val(atail) < digit_of(b[k]) * p + digits_val(btail))
        by (nonlinear_arith)
        requires
            digits_val(atail) < p,
            digits_val(btail) >= 0,
            digit_of(a[k]) < digit_of(b[k]),
            p >= 0,
    ;
    assert(digits_val(asuf) < digits_val(bsuf));
    assert(digits_val(ap) * pow10(asuf.len()) + digits_val(asuf) < digits_val(bp) * pow10(
        bsuf.len(),
    ) + digits_val(bsuf));
}

/// A run of `'0'` characters has value zero.
pub proof fn lemma_digits_zeros(s: Seq<char>)
    requires
        forall|i: int| 0 <= i < s.len() ==> s[i] == '0',
    ensures
        digits_val(s) == 0,
    decreases s.len(),
{
    if s.len() > 0 {
        let s1 = s.drop_last();
        assert(forall|i: int| 0 <= i < s1.len() ==> #[trigger] s1[i] == s[i]);
        lemma_digits_zeros(s1);
    }
}

fn append_range(dst: &mut Vec<char>, src: &Vec<char>, from: usize, to: usize)
    requires
        from <= to <= src@.len(),
    ensures
        final(dst)@ == old(dst)@ + src@.subrange(from as int, to as int),
{
    let mut i: usize = from;
    while i < to
        invariant
            from <= i <= to <= src@.len(),
            dst@ == old(dst)@ + src@.subrange(from as int, i as int),
        decreases to - i,
    {
        dst.push(src[i]);
        i = i + 1;
        proof {
            assert(dst@ =~= old(dst)@ + src@.subrange(from as int, i as int));
        }
    }
    proof {
        assert(old(dst)@ + src@.subrange(from as int, from as int) =~= old(dst)@);
    }
}

fn append_zeros(dst: &mut Vec<char>, count: usize)
    ensures
        final(dst)@.len() == old(dst)@.len() + count,
        final(dst)@.subrange(0, old(dst)@.len() as int) == old(dst)@,
        forall|i: int| old(dst)@.len() <= i < final(dst)@.len() ==> final(dst)@[i] == '0',
    decreases count,
{
    let mut i: usize = 0;
    while i < count
        invariant
            i <= count,
            dst@.len() == old(dst)@.len() + i,
            dst@.subrange(0, old(dst)@.len() as int) == old(dst)@,
            forall|j: int| old(dst)@.len() <= j < dst@.len() ==> dst@[j] == '0',
        decreases count - i,
    {
        dst.push('0');
        i = i + 1;
        proof {
            assert(dst@.subrange(0, old(dst)@.len() as int) =~= old(dst)@);
        }
    }
    proof {
        assert(dst@.subrange(0, old(dst)@.len() as int) =~= old(dst)@);
    }
}

/// Compare two digit strings by value: strip leading zeros, then compare
/// lengths, then compare digit by digit.
fn cmp_digit_vecs(x: &Vec<char>, y: &Vec<char>) -> (o: Cmp)
    requires
        all_digits(x@),
        all_digits(y@),
    ensures
        (o == Cmp::Lt) == (digits_val(x@) < digits_val(y@)),
        (o == Cmp::Gt) == (digits_val(y@) < digits_val(x@)),
        (o == Cmp::Eq) == (digits_val(x@) == digits_val(y@)),
{
    let nx = x.len();
    let ny = y.len();
    let mut i: usize = 0;
    while i < nx && x[i] == '0'
        invariant
            all_digits(x@),
            nx == x@.len(),
            i <= nx,
            forall|k: int| 0 <= k < i ==> x@[k] == '0',
        decreases nx - i,
    {
        i = i + 1;
    }
    let mut j: usize = 0;
    while j < ny && y[j] == '0'
        invariant
            all_digits(y@),
            ny == y@.len(),
            j <= ny,
            forall|k: int| 0 <= k < j ==> y@[k] == '0',
        decreases ny - j,
    {
        j = j + 1;
    }
    let ghost xs = x@.subrange(i as int, nx as int);
    let ghost ys = y@.subrange(j as int, ny as int);
    proof {
        assert(x@ =~= x@.subrange(0, i as int) + xs);
        lemma_digits_split(x@.subrange(0, i as int), xs);
        lemma_digits_zeros(x@.subrange(0, i as int));
        assert(digits_val(x@) == digits_val(xs)) by (nonlinear_arith)
            requires
                digits_val(x@) == 0 * pow10(xs.len()) + digits_val(xs),
        ;
        assert(y@ =~= y@.subrange(0, j as int) + ys);
        lemma_digits_split(y@.subrange(0, j as int), ys);
        lemma_digits_zeros(y@.subrange(0, j as int));
        assert(digits_val(y@) == digits_val(ys)) by (nonlinear_arith)
            requires
                digits_val(y@) == 0 * pow10(ys.len()) + digits_val(ys),
        ;
        lemma_all_digits_subrange(x@, i as int, nx as int);
        lemma_all_digits_subrange(y@, j as int, ny as int);
    }
    let lx = nx - i;
    let ly = ny - j;
    if lx < ly {
        proof {
            assert(ys[0] == y@[j as int]);
            assert(ys[0] != '0');
            lemma_digits_bound(xs);
            lemma_digits_lower(ys);
            lemma_pow10_mono(xs.len(), (ys.len() - 1) as nat);
        }
        return Cmp::Lt;
    }
    if lx > ly {
        proof {
            assert(xs[0] == x@[i as int]);
            assert(xs[0] != '0');
            lemma_digits_bound(ys);
            lemma_digits_lower(xs);
            lemma_pow10_mono(ys.len(), (xs.len() - 1) as nat);
        }
        return Cmp::Gt;
    }
    let mut k: usize = 0;
    while k < lx
        invariant
            all_digits(x@),
            all_digits(y@),
            nx == x@.len(),
            ny == y@.len(),
            i <= nx,
            j <= ny,
            lx == nx - i,
            ly == ny - j,
            lx == ly,
            k <= lx,
            xs == x@.subrange(i as int, nx as int),
            ys == y@.subrange(j as int, ny as int),
            digits_val(x@) == digits_val(xs),
            digits_val(y@) == digits_val(ys),
            forall|m: int| 0 <= m < k ==> xs[m] == ys[m],
        decreases lx - k,
    {
        let xc = x[i + k];
        let yc = y[j + k];
        proof {
            assert(xs[k as int] == x@[i + k]);
            assert(ys[k as int] == y@[j + k]);
            lemma_all_digits_subrange(x@, i as int, nx as int);
            lemma_all_digits_subrange(y@, j as int, ny as int);
        }
        if (xc as u32) < (yc as u32) {
            proof {
                lemma_digits_lex(xs, ys, k as int);
            }
            return Cmp::Lt;
        }
        if (yc as u32) < (xc as u32) {
            proof {
                lemma_digits_lex(ys, xs, k as int);
            }
            return Cmp::Gt;
        }
        proof {
            assert(xc == yc);
        }
        k = k + 1;
    }
    proof {
        assert(xs =~= ys);
    }
    Cmp::Eq
}

/// Locate the dot of a number token; `None` when the token is all digits.
fn find_dot(v: &Vec<char>) -> (r: Option<usize>)
    requires
        is_number_seq(v@),
    ensures
        match r {
            Some(d) => has_dot(v@) && d == spec_dot_pos(v@) && 0 < d && d + 1 < v@.len()
                && v@[d as int] == '.' && all_digits(v@.subrange(0, d as int)) && all_digits(
                v@.subrange(d as int + 1, v@.len() as int),
            ),
            None => !has_dot(v@) && all_digits(v@) && v@.len() > 0,
        },
{
    let n = v.len();
    let mut d: usize = 0;
    while d < n && !(v[d] == '.')
        invariant
            n == v@.len(),
            d <= n,
            forall|k: int| 0 <= k < d ==> v@[k] != '.',
        decreases n - d,
    {
        d = d + 1;
    }
    if d == n {
        proof {
            assert(!has_dot(v@));
            assert(v@.len() > 0 && all_digits(v@)) by {
                if !(v@.len() > 0 && all_digits(v@)) {
                    let i = choose|i: int|
                        1 <= i && i + 1 < v@.len() && #[trigger] v@[i] == '.' && all_digits(
                            v@.subrange(0, i),
                        ) && all_digits(v@.subrange(i + 1, v@.len() as int));
                    assert(v@[i] == '.');
                }
            }
        }
        return None;
    }
    proof {
        assert(v@[d as int] == '.');
        assert(has_dot(v@));
        // The number shape admits only one dot, and it is the witness of
        // the shape's existential.
        assert(!is_digit('.'));
        assert(!(v@.len() > 0 && all_digits(v@)));
        let i = choose|i: int|
            1 <= i && i + 1 < v@.len() && #[trigger] v@[i] == '.' && all_digits(v@.subrange(0, i))
                && all_digits(v@.subrange(i + 1, v@.len() as int));
        assert(i == d) by {
            if i < d {
                assert(v@[i] != '.');
            } else if i > d {
                assert(v@.subrange(0, i)[d as int] == v@[d as int]);
                assert(is_digit(v@[d as int]));
            }
        }
        let p = spec_dot_pos(v@);
        assert(0 <= p < v@.len() && v@[p] == '.');
        assert(p == i) by {
            if p < i {
                assert(v@.subrange(0, i)[p] == v@[p]);
                assert(is_digit(v@[p]));
            } else if p > i {
                assert(v@.subrange(i + 1, v@.len() as int)[p - i - 1] == v@[p]);
                assert(is_digit(v@[p]));
            }
        }
    }
    Some(d)
}

/// Compare two number tokens by their exact decimal values.
pub fn compare_numbers(a: &str, b: &str) -> (o: Cmp)
    requires
        is_number_seq(a@),
        is_number_seq(b@),
    ensures
        (o == Cmp::Lt) == num_lt(a@, b@),
        (o == Cmp::Gt) == num_lt(b@, a@),
        (o == Cmp::Eq) == num_eq(a@, b@),
{
    let va = str_to_chars(a);
    let vb = str_to_chars(b);
    let da = find_dot(&va);
    let db = find_dot(&vb);
    let na = va.len();
    let nb = vb.len();
    // Digits of each token with the dot removed.
    let mut xa: Vec<char> = Vec::new();
    let sa: usize;
    match da {
        Some(d) => {
            append_range(&mut xa, &va, 0, d);
            append_range(&mut xa, &va, d + 1, na);
            sa = na - d - 1;
            proof {
                assert(int_part(a@) =~= va@.subrange(0, d as int));
                assert(frac_part(a@) =~= va@.subrange(d as int + 1, na as int));
                assert(xa@ =~= int_part(a@) + frac_part(a@));
            }
        },
        None => {
            append_range(&mut xa, &va, 0, na);
            sa = 0;
            proof {
                assert(int_part(a@) =~= va@);
                assert(frac_part(a@) =~= Seq::<char>::empty());
                assert(xa@ =~= int_part(a@) + frac_part(a@));
            }
        },
    }
    let mut xb: Vec<char> = Vec::new();
    let sb: usize;
    match db {
        Some(d) => {
            append_range(&mut xb, &vb, 0, d);
            append_range(&mut xb, &vb, d + 1, nb);
            sb = nb - d - 1;
            proof {
                assert(int_part(b@) =~= vb@.subrange(0, d as int));
                assert(frac_part(b@) =~= vb@.subrange(d as int + 1, nb as int));
                assert(xb@ =~= int_part(b@) + frac_part(b@));
            }
        },
        None => {
            append_range(&mut xb, &vb, 0, nb);
            sb = 0;
            proof {
                assert(int_part(b@) =~= vb@);
                assert(frac_part(b@) =~= Seq::<char>::empty());
                assert(xb@ =~= int_part(b@) + frac_part(b@));
            }
        },
    }
    proof {
        assert(sa == num_scale(a@));
        assert(sb == num_scale(b@));
        assert(digits_val(xa@) == num_mantissa(a@));
        assert(digits_val(xb@) == num_mantissa(b@));
        assert(all_digits(xa@)) by {
            if has_dot(a@) {
                lemma_all_digits_concat(int_part(a@), frac_part(a@));
            }
        }
        assert(all_digits(xb@)) by {
            if has_dot(b@) {
                lemma_all_digits_concat(int_part(b@), frac_part(b@));
            }
        }
    }
    // Pad the shorter fraction with zeros so both share one scale.
    let ghost xa0 = xa@;
    let ghost xb0 = xb@;
    if sa < sb {
        append_zeros(&mut xa, sb - sa);
        proof {
            lemma_pad_shifts(xa0, xa@, (sb - sa) as nat, num_mantissa(a@));
        }
    } else if sb < sa {
        append_zeros(&mut xb, sa - sb);
        proof {
            lemma_pad_shifts(xb0, xb@, (sa - sb) as nat, num_mantissa(b@));
        }
    }
    let ghost m = if sa < sb {
        sb as nat
    } else {
        sa as nat
    };
    proof {
        assert(all_digits(xa@)) by {
            assert forall|i: int| 0 <= i < xa@.len() implies is_digit(#[trigger] xa@[i]) by {
                if i < xa0.len() {
                    assert(xa@.subrange(0, xa0.len() as int)[i] == xa@[i]);
                } else {
                    assert(xa@[i] == '0');
                }
            }
        }
        assert(all_digits(xb@)) by {
            assert forall|i: int| 0 <= i < xb@.len() implies is_digit(#[trigger] xb@[i]) by {
                if i < xb0.len() {
                    assert(xb@.subrange(0, xb0.len() as int)[i] == xb@[i]);
                } else {
                    assert(xb@[i] == '0');
                }
            }
        }
        assert(digits_val(xa@) == num_mantissa(a@) * pow10((m - sa) as nat));
        assert(digits_val(xb@) == num_mantissa(b@) * pow10((m - sb) as nat));
    }
    let o = cmp_digit_vecs(&xa, &xb);
    proof {
        lemma_scaled_compare(num_mantissa(a@), num_mantissa(b@), sa as nat, sb as nat, m);
    }
    o
}

proof fn lemma_all_digits_concat(s: Seq<char>, t: Seq<char>)
    requires
        all_digits(s),
        all_digits(t),
    ensures
        all_digits(s + t),
{
    assert forall|i: int| 0 <= i < (s + t).len() implies is_digit(#[trigger] (s + t)[i]) by {
        if i < s.len() {
            assert((s + t)[i] == s[i]);
        } else {
            assert((s + t)[i] == t[i - s.len()]);
        }
    }
}

/// Appending `k` zeros multiplies the value by `10^k`.
proof fn lemma_pad_shifts(before: Seq<char>, after: Seq<char>, k: nat, v: int)
    requires
        digits_val(before) == v,
        after.len() == before.len() + k,
        after.subrange(0, before.len() as int) == before,
        forall|i: int| before.len() <= i < after.len() ==> after[i] == '0',
    ensures
        digits_val(after) == v * pow10(k),
{
    let z = after.subrange(before.len() as int, after.len() as int);
    assert(after =~= before + z);
    lemma_digits_split(before, z);
    lemma_digits_zeros(z);
}

/// Comparing the two mantissas brought to one common scale `m` is the same
/// as comparing them cross-multiplied by each other's scale.
proof fn lemma_scaled_compare(va: int, vb: int, sa: nat, sb: nat, m: nat)
    requires
        m == if sa < sb {
            sb
        } else {
            sa
        },
    ensures
        (va * pow10((m - sa) as nat) < vb * pow10((m - sb) as nat)) == (va * pow10(sb) < vb
            * pow10(sa)),
        (va * pow10((m - sa) as nat) == vb * pow10((m - sb) as nat)) == (va * pow10(sb) == vb
            * pow10(sa)),
{
    let pa = pow10((m - sa) as nat);
    let pb = pow10((m - sb) as nat);
    let q = pow10((sa + sb - m) as nat);
    lemma_pow10_pos((sa + sb - m) as nat);
    lemma_pow10_add((m - sa) as nat, (sa + sb - m) as nat);
    lemma_pow10_add((m - sb) as nat, (sa + sb - m) as nat);
    assert(pa * q == pow10(sb));
    assert(pb * q == pow10(sa));
    assert((va * pa < vb * pb) == (va * pa * q < vb * pb * q)) by (nonlinear_arith)
        requires
            q >= 1,
    ;
    assert((va * pa == vb * pb) == (va * pa * q == vb * pb * q)) by (nonlinear_arith)
        requires
            q >= 1,
    ;
    assert(va * pa * q == va * (pa * q)) by (nonlinear_arith);
    assert(vb * pb * q == vb * (pb * q)) by (nonlinear_arith);
}

} // verus!
