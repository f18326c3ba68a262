//! Natural-order comparison of byte strings: maximal runs of ASCII decimal
//! digits are compared by numeric value (with the raw digit text as a
//! tie-break, so that runs with more leading zeros order first), other runs
//! are compared byte by byte, and when the two strings disagree on where a
//! digit run starts, the remaining suffixes are compared byte by byte.
use vstd::prelude::*;

verus! {

/// Three-way comparison outcome.
#[derive(Clone, Copy, PartialEq, Eq, Structural, Debug)]
pub enum Cmp {
    Lt,
    Eq,
    Gt,
}

/// The integer (-1, 0, 1) that a `Cmp` value stands for.
pub open spec fn cmp_int(c: Cmp) -> int {
    match c {
        Cmp::Lt => -1,
        Cmp::Eq => 0,
        Cmp::Gt => 1,
    }
}

/// ASCII decimal digits are the only bytes treated as numeric.
pub open spec fn is_digit(b: u8) -> bool {
    48 <= b <= 57
}

/// Plain lexicographic (byte-by-byte) three-way comparison; a proper prefix
/// orders before the longer string.
pub open spec fn lex_cmp(a: Seq<u8>, b: Seq<u8>) -> int
    decreases a.len() + b.len(),
{
    if a.len() == 0 && b.len() == 0 {
        0
    } else if a.len() == 0 {
        -1
    } else if b.len() == 0 {
        1
    } else if a[0] < b[0] {
        -1
    } else if a[0] > b[0] {
        1
    } else {
        lex_cmp(a.skip(1), b.skip(1))
    }
}

/// Length of the maximal leading run of bytes whose digit-ness equals `d`.
pub open spec fn run_len(s: Seq<u8>, d: bool) -> nat
    decreases s.len(),
{
    if s.len() == 0 || is_digit(s[0]) != d {
        0
    } else {
        (1 + run_len(s.skip(1), d)) as nat
    }
}

/// Numeric value of a string of ASCII digits, most significant digit first.
pub open spec fn digits_val(s: Seq<u8>) -> int
    decreases s.len(),
{
    if s.len() == 0 {
        0
    } else {
        digits_val(s.drop_last()) * 10 + (s.last() - 48)
    }
}

/// All bytes of `s` are ASCII digits.
pub open spec fn all_digits(s: Seq<u8>) -> bool {
    forall|i: int| 0 <= i < s.len() ==> is_digit(s[i])
}

/// How two aligned segments compare: two digit runs by numeric value, with
/// the raw digit text as a tie-break; anything else byte by byte.
pub open spec fn seg_cmp(x: Seq<u8>, y: Seq<u8>) -> int {
    if x.len() > 0 && y.len() > 0 && is_digit(x[0]) && is_digit(y[0]) {
        if digits_val(x) < digits_val(y) {
            -1
        } else if digits_val(x) > digits_val(y) {
            1
        } else {
            lex_cmp(x, y)
        }
    } else {
        lex_cmp(x, y)
    }
}

/// The natural-order comparison: split each string into maximal digit and
/// non-digit runs, compare the runs in step with `seg_cmp`, fall back to a
/// byte-by-byte comparison of the remaining suffixes when one string has a
/// digit run where the other does not, and order the exhausted string first.
pub open spec fn natural_cmp(a: Seq<u8>, b: Seq<u8>) -> int
    decreases a.len() + b.len(),
{
    if a.len() == 0 && b.len() == 0 {
        0
    } else if a.len() == 0 {
        -1
    } else if b.len() == 0 {
        1
    } else if is_digit(a[0]) != is_digit(b[0]) {
        lex_cmp(a, b)
    } else {
        let d: bool = is_digit(a[0]);
        let ra: int = run_len(a, d) as int;
        let rb: int = run_len(b, d) as int;
        let c: int = seg_cmp(a.take(ra), b.take(rb));
        if c != 0 {
            c
        } else {
            proof {
                run_len_facts(a, d);
                run_len_facts(b, d);
            }
            natural_cmp(a.skip(ra), b.skip(rb))
        }
    }
}

/// The maximal leading run: its length is bounded by the string, it is
/// nonempty exactly when the first byte has digit-ness `d`, every byte in it
/// has digit-ness `d`, and the byte after it (if any) does not.
pub proof fn run_len_facts(s: Seq<u8>, d: bool)
    ensures
        run_len(s, d) <= s.len(),
        s.len() > 0 && is_digit(s[0]) == d ==> run_len(s, d) >= 1,
        forall|i: int| 0 <= i < run_len(s, d) ==> is_digit(s[i]) == d,
        run_len(s, d) < s.len() ==> is_digit(s[run_len(s, d) as int]) != d,
    decreases s.len(),
{
    if s.len() == 0 || is_digit(s[0]) != d {
    } else {
        run_len_facts(s.skip(1), d);
        assert forall|i: int| 0 <= i < run_len(s, d) implies is_digit(s[i]) == d by {
            if i >= 1 {
                assert(s.skip(1)[i - 1] == s[i]);
            }
        }
        if run_len(s, d) < s.len() {
            assert(s.skip(1)[run_len(s, d) as int - 1] == s[run_len(s, d) as int]);
        }
    }
}

/// Ten to the power `n`.
pub open spec fn pow10(n: nat) -> int
    decreases n,
{
    if n == 0 {
        1
    } else {
        10 * pow10((n - 1) as nat)
    }
}

/// `pow10` is positive and monotone.
pub proof fn lemma_pow10(m: nat, n: nat)
    requires
        m <= n,
    ensures
        1 <= pow10(m) <= pow10(n),
    decreases n,
{
    if n > 0 {
        if m == n {
            lemma_pow10(0, (n - 1) as nat);
        } else {
            lemma_pow10(m, (n - 1) as nat);
        }
    }
}

/// A string of `n` digits has a value below `pow10(n)`.
pub proof fn lemma_digits_val_bound(s: Seq<u8>)
    requires
        all_digits(s),
    ensures
        0 <= digits_val(s) < pow10(s.len()),
    decreases s.len(),
{
    if s.len() > 0 {
        assert(all_digits(s.drop_last()));
        lemma_digits_val_bound(s.drop_last());
        assert(pow10(s.len()) == 10 * pow10((s.len() - 1) as nat));
    }
}

/// Peeling the most significant digit off the front.
pub proof fn lemma_digits_val_front(s: Seq<u8>)
    requires
        all_digits(s),
        s.len() >= 1,
    ensures
        digits_val(s) == (s[0] - 48) * pow10((s.len() - 1) as nat) + digits_val(s.skip(1)),
    decreases s.len(),
{
    if s.len() == 1 {
        assert(s.drop_last().len() == 0);
        assert(s.skip(1).len() == 0);
        assert(s.last() == s[0]);
        assert(digits_val(s.drop_last()) == 0);
        assert(digits_val(s) == s[0] - 48);
        assert(digits_val(s.skip(1)) == 0);
        assert(pow10((s.len() - 1) as nat) == 1);
        assert((s[0] - 48) * 1 == s[0] - 48) by (nonlinear_arith);
    } else {
        let h = s.drop_last();
        assert(all_digits(h));
        lemma_digits_val_front(h);
        assert(h[0] == s[0]);
        assert forall|k: int| 0 <= k < h.skip(1).len() implies h.skip(1)[k] == s.skip(
            1,
        ).drop_last()[k] by {
            assert(h.skip(1)[k] == s[k + 1]);
            assert(s.skip(1).drop_last()[k] == s[k + 1]);
        }
        assert(h.skip(1) =~= s.skip(1).drop_last());
        let p: int = pow10((s.len() - 2) as nat);
        assert(digits_val(h) == (s[0] - 48) * p + digits_val(s.skip(1).drop_last()));
        assert(digits_val(s) == digits_val(h) * 10 + (s.last() - 48));
        assert(s.skip(1).len() == s.len() - 1);
        assert(digits_val(s.skip(1)) == digits_val(s.skip(1).drop_last()) * 10 + (s.skip(
            1,
        ).last() - 48));
        assert(s.skip(1).last() == s.last());
        assert(((s[0] - 48) * p) * 10 == (s[0] - 48) * (10 * p)) by (nonlinear_arith);
        assert(digits_val(s) == (s[0] - 48) * (10 * p) + digits_val(s.skip(1)));
        assert(pow10((s.len() - 1) as nat) == 10 * p);
        assert((s[0] - 48) * pow10((s.len() - 1) as nat) == (s[0] - 48) * (10 * p));
    }
}

/// A digit string that does not start with zero is at least `pow10(len - 1)`.
pub proof fn lemma_no_leading_zero_lower(s: Seq<u8>)
    requires
        all_digits(s),
        s.len() >= 1,
        s[0] != 48,
    ensures
        digits_val(s) >= pow10((s.len() - 1) as nat),
{
    lemma_digits_val_front(s);
    assert(all_digits(s.skip(1)));
    lemma_digits_val_bound(s.skip(1));
    let p: int = pow10((s.len() - 1) as nat);
    lemma_pow10(0, (s.len() - 1) as nat);
    assert((s[0] - 48) * p >= 1 * p) by (nonlinear_arith)
        requires
            s[0] - 48 >= 1,
            p >= 1,
    ;
}

/// A leading zero does not change the value.
pub proof fn lemma_strip_zero(s: Seq<u8>)
    requires
        all_digits(s),
        s.len() >= 1,
        s[0] == 48,
    ensures
        digits_val(s) == digits_val(s.skip(1)),
{
    lemma_digits_val_front(s);
}

/// Byte-by-byte comparison is equality exactly on equal strings.
pub proof fn lemma_lex_eq(a: Seq<u8>, b: Seq<u8>)
    ensures
        lex_cmp(a, b) == 0 <==> a == b,
    decreases a.len() + b.len(),
{
    if a.len() == 0 && b.len() == 0 {
        assert(a =~= b);
    } else if a.len() == 0 || b.len() == 0 {
        assert(a.len() != b.len());
    } else if a[0] == b[0] {
        lemma_lex_eq(a.skip(1), b.skip(1));
        if lex_cmp(a, b) == 0 {
            assert forall|i: int| 0 <= i < a.len() implies a[i] == b[i] by {
                if i > 0 {
                    assert(a[i] == a.skip(1)[i - 1]);
                    assert(b[i] == b.skip(1)[i - 1]);
                }
            }
            assert(a =~= b);
        }
    } else {
    }
}

/// Byte-by-byte comparison swaps its sign when the arguments swap.
pub proof fn lemma_lex_antisym(a: Seq<u8>, b: Seq<u8>)
    ensures
        lex_cmp(a, b) == -lex_cmp(b, a),
    decreases a.len() + b.len(),
{
    if a.len() > 0 && b.len() > 0 && a[0] == b[0] {
        lemma_lex_antisym(a.skip(1), b.skip(1));
    }
}

/// Byte-by-byte comparison is transitive, strictly so when a step is strict.
pub proof fn lemma_lex_trans(a: Seq<u8>, b: Seq<u8>, c: Seq<u8>)
    requires
        lex_cmp(a, b) <= 0,
        lex_cmp(b, c) <= 0,
    ensures
        lex_cmp(a, c) <= 0,
        lex_cmp(a, b) < 0 || lex_cmp(b, c) < 0 ==> lex_cmp(a, c) < 0,
    decreases a.len() + b.len() + c.len(),
{
    if a.len() == 0 {
    } else {
        assert(b.len() > 0);
        assert(c.len() > 0);
        if a[0] == b[0] && b[0] == c[0] {
            lemma_lex_trans(a.skip(1), b.skip(1), c.skip(1));
        } else {
            assert(a[0] <= b[0] <= c[0]);
        }
    }
}

/// For equal-length digit strings, byte order and numeric order agree.
pub proof fn lemma_same_len_lex_val(s: Seq<u8>, t: Seq<u8>)
    requires
        all_digits(s),
        all_digits(t),
        s.len() == t.len(),
    ensures
        lex_cmp(s, t) < 0 ==> digits_val(s) < digits_val(t),
        lex_cmp(s, t) > 0 ==> digits_val(s) > digits_val(t),
        lex_cmp(s, t) == 0 ==> digits_val(s) == digits_val(t),
    decreases s.len(),
{
    if s.len() > 0 {
        lemma_digits_val_front(s);
        lemma_digits_val_front(t);
        assert(all_digits(s.skip(1)));
        assert(all_digits(t.skip(1)));
        lemma_digits_val_bound(s.skip(1));
        lemma_digits_val_bound(t.skip(1));
        let p: int = pow10((s.len() - 1) as nat);
        lemma_pow10(0, (s.len() - 1) as nat);
        if s[0] == t[0] {
            lemma_same_len_lex_val(s.skip(1), t.skip(1));
        } else if s[0] < t[0] {
            assert((s[0] - 48) * p + p <= (t[0] - 48) * p) by (nonlinear_arith)
                requires
                    s[0] + 1 <= t[0],
                    p >= 1,
            ;
        } else {
            assert((t[0] - 48) * p + p <= (s[0] - 48) * p) by (nonlinear_arith)
                requires
                    t[0] + 1 <= s[0],
                    p >= 1,
            ;
        }
    }
}

/// Whether a byte is an ASCII decimal digit.
pub fn byte_is_digit(b: u8) -> (r: bool)
    ensures
        r == is_digit(b),
{
    48 <= b && b <= 57
}

/// Lexicographic comparison of `a[ia..ea]` against `b[ib..eb]`.
fn lex_range(a: &Vec<u8>, ia: usize, ea: usize, b: &Vec<u8>, ib: usize, eb: usize) -> (r: Cmp)
    requires
        ia <= ea <= a@.len(),
        ib <= eb <= b@.len(),
    ensures
        cmp_int(r) == lex_cmp(a@.subrange(ia as int, ea as int), b@.subrange(ib as int, eb as int)),
{
    let mut i: usize = ia;
    let mut j: usize = ib;
    loop
        invariant
            ia <= i <= ea <= a@.len(),
            ib <= j <= eb <= b@.len(),
            lex_cmp(a@.subrange(ia as int, ea as int), b@.subrange(ib as int, eb as int))
                == lex_cmp(a@.subrange(i as int, ea as int), b@.subrange(j as int, eb as int)),
        decreases ea - i,
    {
        let ghost sa: Seq<u8> = a@.subrange(i as int, ea as int);
        let ghost sb: Seq<u8> = b@.subrange(j as int, eb as int);
        if i == ea && j == eb {
            return Cmp::Eq;
        } else if i == ea {
            return Cmp::Lt;
        } else if j == eb {
            return Cmp::Gt;
        } else if a[i] < b[j] {
            assert(sa[0] == a@[i as int] && sb[0] == b@[j as int]);
            return Cmp::Lt;
        } else if a[i] > b[j] {
            assert(sa[0] == a@[i as int] && sb[0] == b@[j as int]);
            return Cmp::Gt;
        } else {
            proof {
                assert(sa[0] == a@[i as int] && sb[0] == b@[j as int]);
                assert(sa.skip(1) =~= a@.subrange(i + 1, ea as int));
                assert(sb.skip(1) =~= b@.subrange(j + 1, eb as int));
            }
            i = i + 1;
            j = j + 1;
        }
    }
}

/// A block of `k` same-kind bytes followed by a different kind (or the end)
/// is exactly the maximal leading run.
pub proof fn lemma_run_len_char(s: Seq<u8>, d: bool, k: int)
    requires
        0 <= k <= s.len(),
        forall|i: int| 0 <= i < k ==> is_digit(s[i]) == d,
        k < s.len() ==> is_digit(s[k]) != d,
    ensures
        run_len(s, d) == k,
    decreases k,
{
    if k == 0 {
    } else {
        assert(is_digit(s[0]) == d);
        assert forall|i: int| 0 <= i < k - 1 implies is_digit(s.skip(1)[i]) == d by {
            assert(s.skip(1)[i] == s[i + 1]);
        }
        if k - 1 < s.skip(1).len() {
            assert(s.skip(1)[k - 1] == s[k]);
        }
        lemma_run_len_char(s.skip(1), d, k - 1);
    }
}

/// One past the end of the maximal run of same digit-ness bytes at `start`.
fn run_end(v: &Vec<u8>, start: usize) -> (e: usize)
    requires
        start < v@.len(),
    ensures
        start < e <= v@.len(),
        forall|k: int| start <= k < e ==> is_digit(v@[k]) == is_digit(v@[start as int]),
        e < v@.len() ==> is_digit(v@[e as int]) != is_digit(v@[start as int]),
{
    let d: bool = byte_is_digit(v[start]);
    let n: usize = v.len();
    let mut e: usize = start + 1;
    while e < n && byte_is_digit(v[e]) == d
        invariant
            n == v@.len(),
            start < e <= v@.len(),
            d == is_digit(v@[start as int]),
            forall|k: int| start <= k < e ==> is_digit(v@[k]) == d,
        decreases v@.len() - e,
    {
        e = e + 1;
    }
    e
}

/// Three-way comparison of the digit runs `a[ia..ea]` and `b[ib..eb]` by
/// numeric value, falling back to byte order on equal values.
fn digit_run_cmp(a: &Vec<u8>, ia: usize, ea: usize, b: &Vec<u8>, ib: usize, eb: usize) -> (r: Cmp)
    requires
        ia < ea <= a@.len(),
        ib < eb <= b@.len(),
        all_digits(a@.subrange(ia as int, ea as int)),
        all_digits(b@.subrange(ib as int, eb as int)),
    ensures
        cmp_int(r) == seg_cmp(a@.subrange(ia as int, ea as int), b@.subrange(ib as int, eb as int)),
{
    let ghost sa: Seq<u8> = a@.subrange(ia as int, ea as int);
    let ghost sb: Seq<u8> = b@.subrange(ib as int, eb as int);
    let mut za: usize = ia;
    while za < ea && a[za] == 48
        invariant
            ia <= za <= ea <= a@.len(),
            digits_val(sa) == digits_val(a@.subrange(za as int, ea as int)),
            all_digits(a@.subrange(za as int, ea as int)),
        decreases ea - za,
    {
        proof {
            let cur: Seq<u8> = a@.subrange(za as int, ea as int);
            assert(cur[0] == a@[za as int]);
            lemma_strip_zero(cur);
            assert(cur.skip(1) =~= a@.subrange(za + 1, ea as int));
        }
        za = za + 1;
    }
    let mut zb: usize = ib;
    while zb < eb && b[zb] == 48
        invariant
            ib <= zb <= eb <= b@.len(),
            digits_val(sb) == digits_val(b@.subrange(zb as int, eb as int)),
            all_digits(b@.subrange(zb as int, eb as int)),
        decreases eb - zb,
    {
        proof {
            let cur: Seq<u8> = b@.subrange(zb as int, eb as int);
            assert(cur[0] == b@[zb as int]);
            lemma_strip_zero(cur);
            assert(cur.skip(1) =~= b@.subrange(zb + 1, eb as int));
        }
        zb = zb + 1;
    }
    let ghost ta: Seq<u8> = a@.subrange(za as int, ea as int);
    let ghost tb: Seq<u8> = b@.subrange(zb as int, eb as int);
    proof {
        lemma_digits_val_bound(ta);
        lemma_digits_val_bound(tb);
        if za < ea {
            assert(ta[0] == a@[za as int]);
            lemma_no_leading_zero_lower(ta);
        }
        if zb < eb {
            assert(tb[0] == b@[zb as int]);
            lemma_no_leading_zero_lower(tb);
        }
        assert(sa[0] == a@[ia as int] && sb[0] == b@[ib as int]);
    }
    let la: usize = ea - za;
    let lb: usize = eb - zb;
    if la < lb {
        proof {
            lemma_pow10(la as nat, (lb - 1) as nat);
        }
        Cmp::Lt
    } else if la > lb {
        proof {
            lemma_pow10(lb as nat, (la - 1) as nat);
        }
        Cmp::Gt
    } else {
        let c: Cmp = lex_range(a, za, ea, b, zb, eb);
        proof {
            lemma_same_len_lex_val(ta, tb);
            lemma_lex_eq(ta, tb);
        }
        if c == Cmp::Eq {
            lex_range(a, ia, ea, b, ib, eb)
        } else {
            c
        }
    }
}

/// Natural-order comparison of two byte strings.
pub fn compare_bytes(a: &Vec<u8>, b: &Vec<u8>) -> (r: Cmp)
    ensures
        cmp_int(r) == natural_cmp(a@, b@),
{
    let mut i: usize = 0;
    let mut j: usize = 0;
    proof {
        assert(a@.skip(0) =~= a@);
        assert(b@.skip(0) =~= b@);
    }
    loop
        invariant
            i <= a@.len(),
            j <= b@.len(),
            natural_cmp(a@, b@) == natural_cmp(a@.skip(i as int), b@.skip(j as int)),
        decreases a@.len() - i + b@.len() - j,
    {
        let ghost sa: Seq<u8> = a@.skip(i as int);
        let ghost sb: Seq<u8> = b@.skip(j as int);
        if i == a.len() && j == b.len() {
            return Cmp::Eq;
        } else if i == a.len() {
            return Cmp::Lt;
        } else if j == b.len() {
            return Cmp::Gt;
        }
        proof {
            assert(sa[0] == a@[i as int]);
            assert(sb[0] == b@[j as int]);
        }
        let da: bool = byte_is_digit(a[i]);
        let db: bool = byte_is_digit(b[j]);
        if da != db {
            proof {
                assert(sa =~= a@.subrange(i as int, a@.len() as int));
                assert(sb =~= b@.subrange(j as int, b@.len() as int));
            }
            return lex_range(a, i, a.len(), b, j, b.len());
        }
        let ea: usize = run_end(a, i);
        let eb: usize = run_end(b, j);
        proof {
            assert forall|t: int| 0 <= t < ea - i implies is_digit(sa[t]) == da by {
                assert(sa[t] == a@[i + t]);
            }
            if ea - i < sa.len() {
                assert(sa[ea - i] == a@[ea as int]);
            }
            lemma_run_len_char(sa, da, ea - i);
            assert forall|t: int| 0 <= t < eb - j implies is_digit(sb[t]) == db by {
                assert(sb[t] == b@[j + t]);
            }
            if eb - j < sb.len() {
                assert(sb[eb - j] == b@[eb as int]);
            }
            lemma_run_len_char(sb, db, eb - j);
            assert(sa.take(ea - i) =~= a@.subrange(i as int, ea as int));
            assert(sb.take(eb - j) =~= b@.subrange(j as int, eb as int));
        }
        let c: Cmp = if da {
            digit_run_cmp(a, i, ea, b, j, eb)
        } else {
            lex_range(a, i, ea, b, j, eb)
        };
        if c == Cmp::Eq {
            proof {
                assert(seg_cmp(sa.take(ea - i), sb.take(eb - j)) == 0);
                assert(sa.skip(ea - i) =~= a@.skip(ea as int));
                assert(sb.skip(eb - j) =~= b@.skip(eb as int));
            }
            i = ea;
            j = eb;
        } else {
            return c;
        }
    }
}

/// An ASCII upper-case byte folded to lower case; all other bytes unchanged.
pub open spec fn lower_byte(x: u8) -> u8 {
    if 65 <= x <= 90 {
        (x + 32) as u8
    } else {
        x
    }
}

/// A byte string with every ASCII upper-case byte folded to lower case.
pub open spec fn fold_lower(s: Seq<u8>) -> Seq<u8> {
    s.map_values(|x: u8| lower_byte(x))
}

/// The natural-order comparison that `compare` decides: case folding is
/// applied first when `ignore_case` is set.
pub open spec fn natural_cmp_cfg(a: Seq<u8>, b: Seq<u8>, ignore_case: bool) -> int {
    if ignore_case {
        natural_cmp(fold_lower(a), fold_lower(b))
    } else {
        natural_cmp(a, b)
    }
}

/// Copy of `v` with ASCII upper-case bytes folded to lower case.
pub fn to_lower(v: &Vec<u8>) -> (r: Vec<u8>)
    ensures
        r@ == fold_lower(v@),
{
    let mut r: Vec<u8> = Vec::new();
    let mut i: usize = 0;
    while i < v.len()
        invariant
            i <= v@.len(),
            r@ == fold_lower(v@.take(i as int)),
        decreases v@.len() - i,
    {
        let x: u8 = v[i];
        if 65 <= x && x <= 90 {
            r.push(x + 32);
        } else {
            r.push(x);
        }
        proof {
            assert(fold_lower(v@.take(i + 1)) =~= fold_lower(v@.take(i as int)).push(
                lower_byte(v@[i as int]),
            ));
        }
        i = i + 1;
    }
    proof {
        assert(v@.take(v@.len() as int) =~= v@);
    }
    r
}

/// The maximal leading run of same digit-ness bytes.
spec fn first_run(s: Seq<u8>) -> Seq<u8>
    recommends
        s.len() > 0,
{
    s.take(run_len(s, is_digit(s[0])) as int)
}

/// What the first aligned position of two nonempty strings contributes to the
/// natural order: first bytes when the kinds disagree, `seg_cmp` of the two
/// leading runs otherwise.
spec fn head_cmp(a: Seq<u8>, b: Seq<u8>) -> int
    recommends
        a.len() > 0,
        b.len() > 0,
{
    if is_digit(a[0]) != is_digit(b[0]) {
        if a[0] < b[0] {
            -1
        } else {
            1
        }
    } else {
        seg_cmp(first_run(a), first_run(b))
    }
}

/// `natural_cmp` of two nonempty strings is decided by `head_cmp`, or
/// recurses past equal leading runs.
proof fn lemma_head_step(a: Seq<u8>, b: Seq<u8>)
    requires
        a.len() > 0,
        b.len() > 0,
    ensures
        1 <= first_run(a).len() <= a.len(),
        1 <= first_run(b).len() <= b.len(),
        first_run(a)[0] == a[0],
        first_run(b)[0] == b[0],
        head_cmp(a, b) != 0 ==> natural_cmp(a, b) == head_cmp(a, b),
        head_cmp(a, b) == 0 ==> first_run(a) == first_run(b) && natural_cmp(a, b) == natural_cmp(
            a.skip(first_run(a).len() as int),
            b.skip(first_run(b).len() as int),
        ),
{
    let da: bool = is_digit(a[0]);
    let db: bool = is_digit(b[0]);
    run_len_facts(a, da);
    run_len_facts(b, db);
    let ga: Seq<u8> = first_run(a);
    let gb: Seq<u8> = first_run(b);
    assert(ga[0] == a[0]);
    assert(gb[0] == b[0]);
    if da == db {
        if seg_cmp(ga, gb) == 0 {
            lemma_lex_eq(ga, gb);
        }
    }
}

/// `head_cmp` swaps its sign when the arguments swap.
proof fn lemma_head_antisym(a: Seq<u8>, b: Seq<u8>)
    requires
        a.len() > 0,
        b.len() > 0,
    ensures
        head_cmp(a, b) == -head_cmp(b, a),
{
    run_len_facts(a, is_digit(a[0]));
    run_len_facts(b, is_digit(b[0]));
    let ga: Seq<u8> = first_run(a);
    let gb: Seq<u8> = first_run(b);
    assert(ga[0] == a[0]);
    assert(gb[0] == b[0]);
    if is_digit(a[0]) == is_digit(b[0]) {
        lemma_lex_antisym(ga, gb);
    }
}

/// `head_cmp` is transitive; it is strict when a step is strict, and always
/// strict when the kinds of `a[0]` and `c[0]` disagree.
proof fn lemma_head_trans(a: Seq<u8>, b: Seq<u8>, c: Seq<u8>)
    requires
        a.len() > 0,
        b.len() > 0,
        c.len() > 0,
        head_cmp(a, b) <= 0,
        head_cmp(b, c) <= 0,
    ensures
        head_cmp(a, c) <= 0,
        head_cmp(a, b) < 0 || head_cmp(b, c) < 0 ==> head_cmp(a, c) < 0,
{
    let da: bool = is_digit(a[0]);
    let db: bool = is_digit(b[0]);
    let dc: bool = is_digit(c[0]);
    run_len_facts(a, da);
    run_len_facts(b, db);
    run_len_facts(c, dc);
    let ga: Seq<u8> = first_run(a);
    let gb: Seq<u8> = first_run(b);
    let gc: Seq<u8> = first_run(c);
    assert(ga[0] == a[0] && gb[0] == b[0] && gc[0] == c[0]);
    if da != db {
        assert(a[0] < b[0]);
    } else {
        assert(lex_cmp(ga, gb) <= 0 ==> a[0] <= b[0]);
        if da {
            assert(digits_val(ga) <= digits_val(gb));
        }
    }
    if db != dc {
        assert(b[0] < c[0]);
    } else {
        assert(lex_cmp(gb, gc) <= 0 ==> b[0] <= c[0]);
        if db {
            assert(digits_val(gb) <= digits_val(gc));
        }
    }
    if da && db && dc {
        if digits_val(ga) == digits_val(gc) {
            assert(digits_val(ga) == digits_val(gb) && digits_val(gb) == digits_val(gc));
            lemma_lex_trans(ga, gb, gc);
        }
    } else if !da && !db && !dc {
        lemma_lex_trans(ga, gb, gc);
    } else if da && db && !dc {
        assert(c[0] > 57);
        assert(a[0] < c[0]);
    } else if !da && db && dc {
        assert(a[0] < 48);
        assert(a[0] < c[0]);
    } else if da && !db && dc {
        assert(b[0] > 57);
        assert(b[0] < c[0]);
        assert(false);
    } else if !da && db && !dc {
        assert(a[0] < 48);
        assert(c[0] > 57);
        assert(ga[0] < gc[0]);
    } else if da && !db && !dc {
        assert(b[0] > 57);
        assert(b[0] <= c[0]);
        assert(a[0] < c[0]);
    } else {
        assert(a[0] <= b[0]);
        assert(b[0] < 48);
        assert(a[0] < c[0]);
    }
}

/// Natural order is equality exactly when the two strings are equal.
pub proof fn lemma_natural_cmp_eq(a: Seq<u8>, b: Seq<u8>)
    ensures
        natural_cmp(a, b) == 0 <==> a == b,
    decreases a.len() + b.len(),
{
    if a.len() == 0 && b.len() == 0 {
        assert(a =~= b);
    } else if a.len() == 0 || b.len() == 0 {
        assert(a.len() != b.len());
    } else {
        lemma_head_step(a, b);
        run_len_facts(a, is_digit(a[0]));
        run_len_facts(b, is_digit(b[0]));
        let ga: Seq<u8> = first_run(a);
        let gb: Seq<u8> = first_run(b);
        if a == b {
            assert(head_cmp(a, b) == head_cmp(a, a));
            if head_cmp(a, a) != 0 {
                lemma_head_antisym(a, a);
                assert(false);
            }
            lemma_natural_cmp_eq(a.skip(ga.len() as int), b.skip(gb.len() as int));
        } else {
            if head_cmp(a, b) == 0 {
                let r: int = ga.len() as int;
                assert(gb.len() == r);
                lemma_natural_cmp_eq(a.skip(r), b.skip(r));
                if natural_cmp(a, b) == 0 {
                    assert(a.skip(r) == b.skip(r));
                    assert(a.len() == b.len());
                    assert forall|i: int| 0 <= i < a.len() implies a[i] == b[i] by {
                        if i < r {
                            assert(ga[i] == a[i]);
                            assert(gb[i] == b[i]);
                            assert(ga[i] == gb[i]);
                        } else {
                            assert(a.skip(r)[i - r] == a[i]);
                            assert(b.skip(r)[i - r] == b[i]);
                        }
                    }
                    assert(a =~= b);
                }
            }
        }
    }
}

/// Natural order swaps its sign when the arguments swap.
pub proof fn lemma_natural_cmp_antisym(a: Seq<u8>, b: Seq<u8>)
    ensures
        natural_cmp(a, b) == -natural_cmp(b, a),
    decreases a.len() + b.len(),
{
    if a.len() > 0 && b.len() > 0 {
        lemma_head_step(a, b);
        lemma_head_step(b, a);
        lemma_head_antisym(a, b);
        if head_cmp(a, b) == 0 {
            lemma_natural_cmp_antisym(
                a.skip(first_run(a).len() as int),
                b.skip(first_run(b).len() as int),
            );
        }
    }
}

/// Natural order is transitive, strictly so when a step is strict.
pub proof fn lemma_natural_cmp_trans(a: Seq<u8>, b: Seq<u8>, c: Seq<u8>)
    requires
        natural_cmp(a, b) <= 0,
        natural_cmp(b, c) <= 0,
    ensures
        natural_cmp(a, c) <= 0,
        natural_cmp(a, b) < 0 || natural_cmp(b, c) < 0 ==> natural_cmp(a, c) < 0,
    decreases a.len() + b.len() + c.len(),
{
    if a.len() == 0 {
        if natural_cmp(a, b) < 0 {
            assert(b.len() > 0);
            assert(c.len() > 0);
        }
        if natural_cmp(b, c) < 0 {
            assert(c.len() > 0);
        }
    } else {
        assert(b.len() > 0);
        assert(c.len() > 0);
        lemma_head_step(a, b);
        lemma_head_step(b, c);
        lemma_head_step(a, c);
        let ga: Seq<u8> = first_run(a);
        let gb: Seq<u8> = first_run(b);
        let gc: Seq<u8> = first_run(c);
        if head_cmp(a, b) == 0 && head_cmp(b, c) == 0 {
            assert(head_cmp(a, c) == head_cmp(b, c));
            lemma_natural_cmp_trans(
                a.skip(ga.len() as int),
                b.skip(gb.len() as int),
                c.skip(gc.len() as int),
            );
        } else if head_cmp(a, b) == 0 {
            assert(head_cmp(a, c) == head_cmp(b, c));
        } else if head_cmp(b, c) == 0 {
            assert(head_cmp(a, c) == head_cmp(a, b));
        } else {
            lemma_head_trans(a, b, c);
        }
    }
}

/// The key that `compare` effectively orders a string by.
pub open spec fn sort_key(s: Seq<u8>, ignore_case: bool) -> Seq<u8> {
    if ignore_case {
        fold_lower(s)
    } else {
        s
    }
}

/// The order that `compare` decides is equality exactly on equal sort keys.
pub proof fn lemma_compare_eq(a: Seq<u8>, b: Seq<u8>, ignore_case: bool)
    ensures
        natural_cmp_cfg(a, b, ignore_case) == 0 <==> sort_key(a, ignore_case) == sort_key(
            b,
            ignore_case,
        ),
{
    lemma_natural_cmp_eq(sort_key(a, ignore_case), sort_key(b, ignore_case));
}

/// The order that `compare` decides swaps its sign when the arguments swap.
pub proof fn lemma_compare_antisym(a: Seq<u8>, b: Seq<u8>, ignore_case: bool)
    ensures
        natural_cmp_cfg(a, b, ignore_case) == -natural_cmp_cfg(b, a, ignore_case),
{
    lemma_natural_cmp_antisym(sort_key(a, ignore_case), sort_key(b, ignore_case));
}

/// The order that `compare` decides is transitive, strictly so when a step is
/// strict.
pub proof fn lemma_compare_trans(a: Seq<u8>, b: Seq<u8>, c: Seq<u8>, ignore_case: bool)
    requires
        natural_cmp_cfg(a, b, ignore_case) <= 0,
        natural_cmp_cfg(b, c, ignore_case) <= 0,
    ensures
        natural_cmp_cfg(a, c, ignore_case) <= 0,
        natural_cmp_cfg(a, b, ignore_case) < 0 || natural_cmp_cfg(b, c, ignore_case) < 0
            ==> natural_cmp_cfg(a, c, ignore_case) < 0,
{
    lemma_natural_cmp_trans(
        sort_key(a, ignore_case),
        sort_key(b, ignore_case),
        sort_key(c, ignore_case),
    );
}

/// Natural-order comparison of two byte strings, with optional ASCII case
/// folding.
pub fn compare(a: &Vec<u8>, b: &Vec<u8>, ignore_case: bool) -> (r: Cmp)
    ensures
        cmp_int(r) == natural_cmp_cfg(a@, b@, ignore_case),
{
    if ignore_case {
        let fa: Vec<u8> = to_lower(a);
        let fb: Vec<u8> = to_lower(b);
        compare_bytes(&fa, &fb)
    } else {
        compare_bytes(a, b)
    }
}

} // verus!
