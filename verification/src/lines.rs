//! Byte lines: ASCII whitespace trimming, the normalization policy applied to
//! every candidate line, and splitting an input buffer at newline bytes.
use vstd::prelude::*;

verus! {

/// ASCII whitespace: tab, line feed, vertical tab, form feed, carriage
/// return, and space.
pub open spec fn is_space(b: u8) -> bool {
    b == 32 || (9 <= b <= 13)
}

/// The line with leading and trailing ASCII whitespace removed.
pub open spec fn trim_spec(s: Seq<u8>) -> Seq<u8>
    decreases s.len(),
{
    if s.len() == 0 {
        s
    } else if is_space(s[0]) {
        trim_spec(s.skip(1))
    } else if is_space(s.last()) {
        trim_spec(s.drop_last())
    } else {
        s
    }
}

/// The normalized form of a candidate line: trimmed when the trim policy is
/// on, verbatim otherwise.
pub open spec fn norm_line(s: Seq<u8>, trim: bool) -> Seq<u8> {
    if trim {
        trim_spec(s)
    } else {
        s
    }
}

/// A nonempty trimmed line neither starts nor ends with whitespace.
pub proof fn lemma_trim_ends(s: Seq<u8>)
    ensures
        trim_spec(s).len() > 0 ==> !is_space(trim_spec(s)[0]) && !is_space(trim_spec(s).last()),
    decreases s.len(),
{
    if s.len() == 0 {
    } else if is_space(s[0]) {
        lemma_trim_ends(s.skip(1));
    } else if is_space(s.last()) {
        lemma_trim_ends(s.drop_last());
    }
}

/// Trimming is idempotent: a trimmed line trims to itself.
pub proof fn lemma_trim_idempotent(s: Seq<u8>)
    ensures
        trim_spec(trim_spec(s)) == trim_spec(s),
{
    lemma_trim_ends(s);
}

/// Normalization is idempotent: normalizing twice equals normalizing once.
pub proof fn lemma_norm_idempotent(s: Seq<u8>, trim: bool)
    ensures
        norm_line(norm_line(s, trim), trim) == norm_line(s, trim),
{
    if trim {
        lemma_trim_idempotent(s);
    }
}

/// `trim_spec` keeps exactly the range between the first and last bytes that
/// are not whitespace.
proof fn lemma_trim_range(s: Seq<u8>, lo: int, hi: int)
    requires
        0 <= lo <= hi <= s.len(),
        forall|i: int| 0 <= i < lo ==> is_space(s[i]),
        forall|i: int| hi <= i < s.len() ==> is_space(s[i]),
        lo < hi ==> !is_space(s[lo]) && !is_space(s[hi - 1]),
    ensures
        trim_spec(s) == s.subrange(lo, hi),
    decreases s.len(),
{
    if s.len() == 0 {
        assert(trim_spec(s) =~= s.subrange(lo, hi));
    } else if is_space(s[0]) {
        assert(lo == hi || lo >= 1);
        if lo >= 1 {
            assert forall|i: int| 0 <= i < lo - 1 implies is_space(s.skip(1)[i]) by {
                assert(s.skip(1)[i] == s[i + 1]);
            }
            assert forall|i: int| hi - 1 <= i < s.skip(1).len() implies is_space(s.skip(1)[i]) by {
                assert(s.skip(1)[i] == s[i + 1]);
            }
            if lo < hi {
                assert(s.skip(1)[lo - 1] == s[lo]);
                assert(s.skip(1)[hi - 2] == s[hi - 1]);
            }
            lemma_trim_range(s.skip(1), lo - 1, hi - 1);
            assert(s.skip(1).subrange(lo - 1, hi - 1) =~= s.subrange(lo, hi));
        } else {
            // lo == hi == 0: everything is whitespace, the result is empty
            assert forall|i: int| 0 <= i < s.skip(1).len() implies is_space(s.skip(1)[i]) by {
                assert(s.skip(1)[i] == s[i + 1]);
            }
            lemma_trim_range(s.skip(1), 0, 0);
            assert(s.skip(1).subrange(0, 0) =~= s.subrange(lo, hi));
        }
    } else if is_space(s.last()) {
        assert(lo == 0) by {
            if lo > 0 {
                assert(is_space(s[0]));
            }
        }
        assert(hi < s.len());
        let h = s.drop_last();
        assert forall|i: int| hi <= i < h.len() implies is_space(h[i]) by {
            assert(h[i] == s[i]);
        }
        if 0 < hi {
            assert(h[hi - 1] == s[hi - 1]);
            assert(h[0] == s[0]);
        }
        lemma_trim_range(h, 0, hi);
        assert(h.subrange(0, hi) =~= s.subrange(lo, hi));
    } else {
        assert(lo == 0) by {
            if lo > 0 {
                assert(is_space(s[0]));
            }
        }
        assert(hi == s.len()) by {
            if hi < s.len() {
                assert(is_space(s[s.len() - 1]));
            }
        }
        assert(trim_spec(s) =~= s.subrange(lo, hi));
    }
}

/// Whether a byte is ASCII whitespace.
pub fn byte_is_space(b: u8) -> (r: bool)
    ensures
        r == is_space(b),
{
    b == 32 || (9 <= b && b <= 13)
}

/// Copy of `v[lo..hi]`.
fn copy_range(v: &Vec<u8>, lo: usize, hi: usize) -> (r: Vec<u8>)
    requires
        lo <= hi <= v@.len(),
    ensures
        r@ == v@.subrange(lo as int, hi as int),
{
    let mut r: Vec<u8> = Vec::new();
    let mut i: usize = lo;
    while i < hi
        invariant
            lo <= i <= hi <= v@.len(),
            r@ == v@.subrange(lo as int, i as int),
        decreases hi - i,
    {
        r.push(v[i]);
        proof {
            assert(v@.subrange(lo as int, i + 1) =~= v@.subrange(lo as int, i as int).push(
                v@[i as int],
            ));
        }
        i = i + 1;
    }
    r
}

/// The line with leading and trailing ASCII whitespace removed.
pub fn trim_bytes(v: &Vec<u8>) -> (r: Vec<u8>)
    ensures
        r@ == trim_spec(v@),
{
    let n: usize = v.len();
    let mut lo: usize = 0;
    while lo < n && byte_is_space(v[lo])
        invariant
            lo <= n == v@.len(),
            forall|i: int| 0 <= i < lo ==> is_space(v@[i]),
        decreases n - lo,
    {
        lo = lo + 1;
    }
    if lo == n {
        proof {
            lemma_trim_range(v@, n as int, n as int);
            assert(v@.subrange(n as int, n as int) =~= Seq::<u8>::empty());
        }
        let r: Vec<u8> = Vec::new();
        proof {
            assert(r@ =~= trim_spec(v@));
        }
        return r;
    }
    let mut hi: usize = n;
    while byte_is_space(v[hi - 1])
        invariant
            lo < hi <= n == v@.len(),
            !is_space(v@[lo as int]),
            forall|i: int| hi <= i < n ==> is_space(v@[i]),
        decreases hi,
    {
        hi = hi - 1;
    }
    proof {
        lemma_trim_range(v@, lo as int, hi as int);
    }
    copy_range(v, lo, hi)
}

/// The normalized form of a candidate line: a trimmed copy when the trim
/// policy is on, a verbatim copy otherwise.
pub fn normalize(line: &Vec<u8>, trim: bool) -> (r: Vec<u8>)
    ensures
        r@ == norm_line(line@, trim),
{
    if trim {
        trim_bytes(line)
    } else {
        let r: Vec<u8> = copy_range(line, 0, line.len());
        proof {
            assert(line@.subrange(0, line@.len() as int) =~= line@);
        }
        r
    }
}

/// Index of the first newline byte, or the length when there is none.
pub open spec fn find_nl(s: Seq<u8>) -> int
    decreases s.len(),
{
    if s.len() == 0 {
        0
    } else if s[0] == 10 {
        0
    } else {
        1 + find_nl(s.skip(1))
    }
}

/// `find_nl` points at the first newline byte (or the end).
pub proof fn find_nl_facts(s: Seq<u8>)
    ensures
        0 <= find_nl(s) <= s.len(),
        find_nl(s) < s.len() ==> s[find_nl(s)] == 10,
        forall|i: int| 0 <= i < find_nl(s) ==> s[i] != 10,
    decreases s.len(),
{
    if s.len() == 0 || s[0] == 10 {
    } else {
        find_nl_facts(s.skip(1));
        assert forall|i: int| 0 <= i < find_nl(s) implies s[i] != 10 by {
            if i >= 1 {
                assert(s.skip(1)[i - 1] == s[i]);
            }
        }
        if find_nl(s) < s.len() {
            assert(s.skip(1)[find_nl(s) - 1] == s[find_nl(s)]);
        }
    }
}

/// The pieces of `s` between newline bytes, in order; splitting an empty
/// buffer gives one empty piece, and a trailing newline adds one.
pub open spec fn split_spec(s: Seq<u8>) -> Seq<Seq<u8>>
    decreases s.len(),
{
    let k: int = find_nl(s);
    if k == s.len() {
        seq![s]
    } else {
        proof {
            find_nl_facts(s);
        }
        seq![s.take(k)] + split_spec(s.skip(k + 1))
    }
}

/// No two lines are equal, and no line is empty.
pub open spec fn distinct_lines(s: Seq<Seq<u8>>) -> bool {
    (forall|i: int, j: int| 0 <= i < j < s.len() ==> s[i] != s[j]) && (forall|i: int|
        0 <= i < s.len() ==> s[i].len() > 0)
}

/// The sequence of views of a sequence of byte vectors.
pub open spec fn views(s: Seq<Vec<u8>>) -> Seq<Seq<u8>> {
    s.map_values(|v: Vec<u8>| v@)
}

/// The input split at newline bytes into candidate lines.
pub fn split_lines(v: &Vec<u8>) -> (r: Vec<Vec<u8>>)
    ensures
        views(r@) == split_spec(v@),
{
    let n: usize = v.len();
    let mut r: Vec<Vec<u8>> = Vec::new();
    let mut p: usize = 0;
    proof {
        assert(v@.skip(0) =~= v@);
        assert(views(r@) + split_spec(v@) =~= split_spec(v@));
    }
    loop
        invariant
            p <= n == v@.len(),
            split_spec(v@) == views(r@) + split_spec(v@.skip(p as int)),
        decreases n - p + 1,
    {
        let ghost rest: Seq<u8> = v@.skip(p as int);
        let mut e: usize = p;
        while e < n && v[e] != 10
            invariant
                p <= e <= n == v@.len(),
                forall|i: int| p <= i < e ==> v@[i] != 10,
            decreases n - e,
        {
            e = e + 1;
        }
        proof {
            assert forall|i: int| 0 <= i < e - p implies rest[i] != 10 by {
                assert(rest[i] == v@[p + i]);
            }
            if e < n {
                assert(rest[e - p] == v@[e as int]);
            }
            lemma_find_nl_char(rest, e - p);
        }
        let piece: Vec<u8> = copy_range(v, p, e);
        proof {
            assert(rest.take(e - p) =~= v@.subrange(p as int, e as int));
        }
        r.push(piece);
        if e == n {
            proof {
                assert(rest.take(e - p) =~= rest);
                assert(split_spec(rest) =~= seq![rest]);
                assert(views(r@) =~= views(r@.drop_last()) + seq![rest]);
                assert(split_spec(v@) =~= views(r@));
            }
            return r;
        }
        proof {
            assert(split_spec(rest) =~= seq![rest.take(e - p)] + split_spec(rest.skip(e - p + 1)));
            assert(rest.skip(e - p + 1) =~= v@.skip(e + 1));
            assert(views(r@) =~= views(r@.drop_last()) + seq![rest.take(e - p)]);
            assert(split_spec(v@) =~= views(r@) + split_spec(v@.skip(e + 1)));
        }
        p = e + 1;
    }
}

/// A scan that stops at the first newline computes `find_nl`.
proof fn lemma_find_nl_char(s: Seq<u8>, k: int)
    requires
        0 <= k <= s.len(),
        forall|i: int| 0 <= i < k ==> s[i] != 10,
        k < s.len() ==> s[k] == 10,
    ensures
        find_nl(s) == k,
    decreases k,
{
    if k == 0 {
    } else {
        assert forall|i: int| 0 <= i < k - 1 implies s.skip(1)[i] != 10 by {
            assert(s.skip(1)[i] == s[i + 1]);
        }
        if k - 1 < s.skip(1).len() {
            assert(s.skip(1)[k - 1] == s[k]);
        }
        lemma_find_nl_char(s.skip(1), k - 1);
    }
}

} // verus!
