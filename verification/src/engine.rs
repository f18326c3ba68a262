//! The run engine: seed the seen-set from the destination's lines, accept
//! the novel lines of the input stream in order, and produce the appended
//! portion and the full deduplicated content, optionally in natural order.
use crate::lines::{distinct_lines, norm_line, normalize, split_lines, split_spec, views};
use crate::natural::{
    compare, natural_cmp, Cmp, lemma_natural_cmp_antisym, lemma_natural_cmp_trans,
};
use crate::seen::SeenSet;
use vstd::prelude::*;

verus! {

/// Whether a candidate line is accepted against the lines seen so far: its
/// normalized form is nonempty and not yet present.
pub open spec fn accept_step(seen: Seq<Seq<u8>>, line: Seq<u8>, trim: bool) -> bool {
    norm_line(line, trim).len() > 0 && !seen.contains(norm_line(line, trim))
}

/// The seen lines after offering every line of `input`, in order.
pub open spec fn seen_after(seen: Seq<Seq<u8>>, input: Seq<Seq<u8>>, trim: bool) -> Seq<Seq<u8>>
    decreases input.len(),
{
    if input.len() == 0 {
        seen
    } else {
        let s1 = if accept_step(seen, input[0], trim) {
            seen.push(norm_line(input[0], trim))
        } else {
            seen
        };
        seen_after(s1, input.skip(1), trim)
    }
}

/// The normalized forms of the first-seen novel lines of `input`, in input
/// order.
pub open spec fn added_after(seen: Seq<Seq<u8>>, input: Seq<Seq<u8>>, trim: bool) -> Seq<Seq<u8>>
    decreases input.len(),
{
    if input.len() == 0 {
        Seq::<Seq<u8>>::empty()
    } else if accept_step(seen, input[0], trim) {
        seq![norm_line(input[0], trim)] + added_after(
            seen.push(norm_line(input[0], trim)),
            input.skip(1),
            trim,
        )
    } else {
        added_after(seen, input.skip(1), trim)
    }
}

/// Offer every line of `input` to `seen` in order; the accepted lines come
/// back in input order, in normalized form.
pub fn accept_all(seen: &mut SeenSet, input: &Vec<Vec<u8>>, trim: bool) -> (added: Vec<Vec<u8>>)
    requires
        old(seen).wf(),
    ensures
        final(seen)@ == seen_after(old(seen)@, views(input@), trim),
        views(added@) == added_after(old(seen)@, views(input@), trim),
        final(seen).wf(),
{
    let ghost full: Seq<Seq<u8>> = views(input@);
    let ghost s0: Seq<Seq<u8>> = seen@;
    let mut added: Vec<Vec<u8>> = Vec::new();
    let mut i: usize = 0;
    proof {
        assert(full.skip(0) =~= full);
        assert(views(added@) =~= Seq::<Seq<u8>>::empty());
    }
    while i < input.len()
        invariant
            i <= input@.len(),
            full == views(input@),
            seen.wf(),
            seen_after(s0, full, trim) == seen_after(seen@, full.skip(i as int), trim),
            added_after(s0, full, trim) == views(added@) + added_after(
                seen@,
                full.skip(i as int),
                trim,
            ),
        decreases input@.len() - i,
    {
        let ghost rest: Seq<Seq<u8>> = full.skip(i as int);
        proof {
            assert(rest[0] == input@[i as int]@);
            assert(rest.skip(1) =~= full.skip(i + 1));
        }
        let line: &Vec<u8> = &input[i];
        let accepted: bool = seen.accept(line, trim);
        if accepted {
            let n: Vec<u8> = normalize(line, trim);
            let ghost before: Seq<Seq<u8>> = views(added@);
            added.push(n);
            proof {
                assert(views(added@) =~= before + seq![norm_line(rest[0], trim)]);
                assert(before + (seq![norm_line(rest[0], trim)] + added_after(
                    seen@,
                    rest.skip(1),
                    trim,
                )) =~= views(added@) + added_after(seen@, rest.skip(1), trim));
            }
        }
        i = i + 1;
    }
    proof {
        assert(full.skip(i as int) =~= Seq::<Seq<u8>>::empty());
        assert(views(added@) + Seq::<Seq<u8>>::empty() =~= views(added@));
    }
    added
}

/// A sequence of byte lines in natural order.
pub open spec fn sorted_nat(s: Seq<Seq<u8>>) -> bool {
    forall|i: int, j: int| 0 <= i < j < s.len() ==> natural_cmp(s[i], s[j]) <= 0
}

/// Sort the lines in place into natural order.
pub fn sort_lines(v: &mut Vec<Vec<u8>>)
    ensures
        sorted_nat(views(final(v)@)),
        views(final(v)@).to_multiset() == views(old(v)@).to_multiset(),
{
    broadcast use vstd::seq_lib::group_to_multiset_ensures;

    if v.len() < 2 {
        return ;
    }
    let mut k: usize = 1;
    while k < v.len()
        invariant
            1 <= k <= v@.len(),
            forall|i: int, j: int|
                0 <= i < j < k && j < v@.len() ==> natural_cmp(v@[i]@, v@[j]@) <= 0,
            views(v@).to_multiset() == views(old(v)@).to_multiset(),
        decreases v@.len() - k,
    {
        let ghost w: Seq<Vec<u8>> = v@;
        let mut j: usize = k;
        while j > 0 && compare(&v[j - 1], &v[k], false) == Cmp::Gt
            invariant
                j <= k < v@.len(),
                v@ == w,
                forall|t: int| j <= t < k ==> natural_cmp(v@[k as int]@, v@[t]@) < 0,
            decreases j,
        {
            proof {
                lemma_natural_cmp_antisym(v@[j - 1]@, v@[k as int]@);
            }
            j = j - 1;
        }
        proof {
            if j > 0 {
                assert(natural_cmp(v@[j - 1]@, v@[k as int]@) <= 0);
                assert forall|t: int| 0 <= t < j implies natural_cmp(
                    v@[t]@,
                    v@[k as int]@,
                ) <= 0 by {
                    if t < j - 1 {
                        lemma_natural_cmp_trans(v@[t]@, v@[j - 1]@, v@[k as int]@);
                    }
                }
            }
        }
        let x: Vec<u8> = v.remove(k);
        v.insert(j, x);
        proof {
            let ghost u: Seq<Vec<u8>> = v@;
            assert(u =~= w.take(j as int) + seq![w[k as int]] + w.subrange(j as int, k as int)
                + w.skip(k + 1));
            assert forall|a: int, b: int|
                0 <= a < b < k + 1 && b < u.len() implies natural_cmp(u[a]@, u[b]@) <= 0 by {
                let xa: Seq<u8> = u[a]@;
                let xb: Seq<u8> = u[b]@;
                if a == j {
                    assert(xa == w[k as int]@);
                    assert(xb == w[b - 1]@);
                } else if b == j {
                    assert(xb == w[k as int]@);
                    assert(xa == w[a]@);
                } else {
                    let wa: int = if a < j {
                        a
                    } else {
                        a - 1
                    };
                    let wb: int = if b < j {
                        b
                    } else {
                        b - 1
                    };
                    assert(xa == w[wa]@);
                    assert(xb == w[wb]@);
                }
            }
            assert(views(u).to_multiset() =~= views(w).to_multiset()) by {
                let el: Seq<u8> = w[k as int]@;
                assert(views(w)[k as int] == el);
                assert(views(u) =~= views(w).remove(k as int).insert(j as int, el));
                vstd::seq_lib::to_multiset_remove(views(w), k as int);
                vstd::seq_lib::to_multiset_insert(views(w).remove(k as int), j as int, el);
                assert(views(w)[k as int] == el && views(w).contains(el));
                vstd::seq_lib::to_multiset_contains(views(w), el);
                assert(views(w).to_multiset().count(el) > 0);
            }
        }
        k = k + 1;
    }
    proof {
        assert forall|i: int, j: int|
            0 <= i < j < views(v@).len() implies natural_cmp(views(v@)[i], views(v@)[j]) <= 0 by {
            assert(views(v@)[i] == v@[i]@);
            assert(views(v@)[j] == v@[j]@);
        }
    }
}

/// What a run writes: the appended portion (also echoed to standard output)
/// and the full deduplicated content used by rewrite mode.
pub struct Plan {
    pub added: Vec<Vec<u8>>,
    pub all: Vec<Vec<u8>>,
}

/// Compute a whole run: seed the seen-set with the destination's lines under
/// the same acceptance rule, accept the novel lines of the input stream in
/// order, and sort both outputs into natural order when requested. In sort
/// mode with plain append, only the appended portion is sorted; the
/// destination's existing content is left as it stands.
pub fn plan_run(existing: &Vec<Vec<u8>>, input: &Vec<u8>, trim: bool, sort: bool) -> (p: Plan)
    ensures
        ({
            let seeded = seen_after(Seq::<Seq<u8>>::empty(), views(existing@), trim);
            let added0 = added_after(seeded, split_spec(input@), trim);
            let all0 = seen_after(seeded, split_spec(input@), trim);
            &&& !sort ==> views(p.added@) == added0 && views(p.all@) == all0
            &&& sort ==> views(p.added@).to_multiset() == added0.to_multiset() && sorted_nat(
                views(p.added@),
            ) && views(p.all@).to_multiset() == all0.to_multiset() && sorted_nat(views(p.all@))
            &&& distinct_lines(views(p.all@))
        }),
{
    let mut seen: SeenSet = SeenSet::new();
    accept_all(&mut seen, existing, trim);
    let input_lines: Vec<Vec<u8>> = split_lines(input);
    let mut added: Vec<Vec<u8>> = accept_all(&mut seen, &input_lines, trim);
    let mut all: Vec<Vec<u8>> = seen.snapshot();
    proof {
        lemma_seen_after_distinct(Seq::<Seq<u8>>::empty(), views(existing@), trim);
        lemma_seen_after_distinct(
            seen_after(Seq::<Seq<u8>>::empty(), views(existing@), trim),
            split_spec(input@),
            trim,
        );
    }
    if sort {
        sort_lines(&mut added);
        let ghost before: Seq<Seq<u8>> = views(all@);
        sort_lines(&mut all);
        proof {
            broadcast use vstd::multiset::group_multiset_axioms;

            let after: Seq<Seq<u8>> = views(all@);
            assert(before.no_duplicates());
            before.lemma_multiset_has_no_duplicates();
            after.lemma_multiset_has_no_duplicates_conv();
            assert forall|i: int| 0 <= i < after.len() implies after[i].len() > 0 by {
                vstd::seq_lib::to_multiset_contains(after, after[i]);
                assert(after.contains(after[i]));
                assert(after.to_multiset().count(after[i]) > 0);
                vstd::seq_lib::to_multiset_contains(before, after[i]);
                assert(before.contains(after[i]));
                let j: int = choose|j: int| 0 <= j < before.len() && before[j] == after[i];
                assert(before[j].len() > 0);
            }
        }
    }
    Plan { added, all }
}

/// Whether an append must start with a fresh newline: the destination's last
/// byte exists and is not a newline.
pub fn needs_newline(last: Option<u8>) -> (r: bool)
    ensures
        r == (match last {
            Option::Some(b) => b != 10,
            Option::None => false,
        }),
{
    match last {
        Option::Some(b) => b != 10,
        Option::None => false,
    }
}

/// Accepting a batch appends: the seen lines afterwards are the seen lines
/// before, followed by exactly the accepted lines, in acceptance order.
pub proof fn lemma_seen_is_seed_plus_added(seen: Seq<Seq<u8>>, input: Seq<Seq<u8>>, trim: bool)
    ensures
        seen_after(seen, input, trim) == seen + added_after(seen, input, trim),
    decreases input.len(),
{
    if input.len() == 0 {
        assert(seen + added_after(seen, input, trim) =~= seen);
    } else {
        let n: Seq<u8> = norm_line(input[0], trim);
        if accept_step(seen, input[0], trim) {
            lemma_seen_is_seed_plus_added(seen.push(n), input.skip(1), trim);
            assert(seen.push(n) + added_after(seen.push(n), input.skip(1), trim) =~= seen + (
            seq![n] + added_after(seen.push(n), input.skip(1), trim)));
        } else {
            lemma_seen_is_seed_plus_added(seen, input.skip(1), trim);
        }
    }
}

/// Membership in the seen lines only grows, and after a batch the normalized
/// form of every candidate that is nonempty after normalization is present.
pub proof fn lemma_seen_after_covers(seen: Seq<Seq<u8>>, input: Seq<Seq<u8>>, trim: bool)
    ensures
        forall|x: Seq<u8>| seen.contains(x) ==> seen_after(seen, input, trim).contains(x),
        forall|i: int|
            0 <= i < input.len() && norm_line(input[i], trim).len() > 0 ==> seen_after(
                seen,
                input,
                trim,
            ).contains(norm_line(input[i], trim)),
    decreases input.len(),
{
    broadcast use vstd::seq_lib::group_seq_properties;

    if input.len() > 0 {
        let n: Seq<u8> = norm_line(input[0], trim);
        let s1: Seq<Seq<u8>> = if accept_step(seen, input[0], trim) {
            seen.push(n)
        } else {
            seen
        };
        lemma_seen_after_covers(s1, input.skip(1), trim);
        assert forall|x: Seq<u8>| seen.contains(x) implies seen_after(seen, input, trim).contains(
            x,
        ) by {
            assert(s1.contains(x));
            assert(seen_after(s1, input.skip(1), trim).contains(x));
        }
        assert forall|i: int|
            0 <= i < input.len() && norm_line(input[i], trim).len() > 0 implies seen_after(
            seen,
            input,
            trim,
        ).contains(norm_line(input[i], trim)) by {
            if i == 0 {
                assert(s1.contains(n));
            } else {
                assert(input.skip(1)[i - 1] == input[i]);
            }
        }
    }
}

/// When every candidate that is nonempty after normalization is already
/// seen, nothing is accepted.
pub proof fn lemma_no_new_when_all_seen(seen: Seq<Seq<u8>>, input: Seq<Seq<u8>>, trim: bool)
    requires
        forall|i: int|
            0 <= i < input.len() && norm_line(input[i], trim).len() > 0 ==> seen.contains(
                norm_line(input[i], trim),
            ),
    ensures
        added_after(seen, input, trim) == Seq::<Seq<u8>>::empty(),
    decreases input.len(),
{
    if input.len() > 0 {
        assert(!accept_step(seen, input[0], trim));
        assert forall|i: int|
            0 <= i < input.skip(1).len() && norm_line(input.skip(1)[i], trim).len()
                > 0 implies seen.contains(norm_line(input.skip(1)[i], trim)) by {
            assert(input.skip(1)[i] == input[i + 1]);
        }
        lemma_no_new_when_all_seen(seen, input.skip(1), trim);
    }
}

/// Every accepted line is nonempty and already in normalized form.
pub proof fn lemma_added_normalized(seen: Seq<Seq<u8>>, input: Seq<Seq<u8>>, trim: bool)
    ensures
        ({
            let ad = added_after(seen, input, trim);
            forall|i: int|
                0 <= i < ad.len() ==> ad[i].len() > 0 && norm_line(ad[i], trim) == ad[i]
        }),
    decreases input.len(),
{
    if input.len() > 0 {
        let n: Seq<u8> = norm_line(input[0], trim);
        let ad = added_after(seen, input, trim);
        if accept_step(seen, input[0], trim) {
            lemma_added_normalized(seen.push(n), input.skip(1), trim);
            crate::lines::lemma_norm_idempotent(input[0], trim);
            let tail = added_after(seen.push(n), input.skip(1), trim);
            assert forall|i: int|
                0 <= i < ad.len() implies ad[i].len() > 0 && norm_line(ad[i], trim) == ad[i] by {
                if i == 0 {
                    assert(ad[0] == n);
                } else {
                    assert(ad[i] == tail[i - 1]);
                }
            }
        } else {
            lemma_added_normalized(seen, input.skip(1), trim);
            let tail = added_after(seen, input.skip(1), trim);
            assert forall|i: int|
                0 <= i < ad.len() implies ad[i].len() > 0 && norm_line(ad[i], trim) == ad[i] by {
                assert(ad[i] == tail[i]);
            }
        }
    }
}

/// Seeding or accepting one batch after another is the same as accepting
/// their concatenation.
pub proof fn lemma_seen_after_append(
    seen: Seq<Seq<u8>>,
    first: Seq<Seq<u8>>,
    second: Seq<Seq<u8>>,
    trim: bool,
)
    ensures
        seen_after(seen, first + second, trim) == seen_after(
            seen_after(seen, first, trim),
            second,
            trim,
        ),
    decreases first.len(),
{
    if first.len() == 0 {
        assert(first + second =~= second);
    } else {
        let n: Seq<u8> = norm_line(first[0], trim);
        assert((first + second)[0] == first[0]);
        assert((first + second).skip(1) =~= first.skip(1) + second);
        if accept_step(seen, first[0], trim) {
            lemma_seen_after_append(seen.push(n), first.skip(1), second, trim);
        } else {
            lemma_seen_after_append(seen, first.skip(1), second, trim);
        }
    }
}

/// Acceptance never lets a duplicate or a blank line through: the lines that
/// rewrite mode writes are pairwise distinct and nonempty.
pub proof fn lemma_seen_after_distinct(seen: Seq<Seq<u8>>, input: Seq<Seq<u8>>, trim: bool)
    requires
        distinct_lines(seen),
    ensures
        distinct_lines(seen_after(seen, input, trim)),
    decreases input.len(),
{
    if input.len() > 0 {
        let n: Seq<u8> = norm_line(input[0], trim);
        if accept_step(seen, input[0], trim) {
            let s1: Seq<Seq<u8>> = seen.push(n);
            assert forall|i: int, j: int| 0 <= i < j < s1.len() implies s1[i] != s1[j] by {
                if j == seen.len() as int {
                    assert(s1[i] == seen[i]);
                    if s1[i] == n {
                        assert(seen.contains(n));
                    }
                }
            }
            lemma_seen_after_distinct(s1, input.skip(1), trim);
        } else {
            lemma_seen_after_distinct(seen, input.skip(1), trim);
        }
    }
}

/// Running the tool twice with the same input, the second time against the
/// destination that the first run appended to, accepts nothing new.
pub proof fn lemma_second_run_adds_nothing(dest: Seq<Seq<u8>>, input: Seq<Seq<u8>>, trim: bool)
    ensures
        ({
            let seen1 = seen_after(Seq::<Seq<u8>>::empty(), dest, trim);
            let added1 = added_after(seen1, input, trim);
            let seen2 = seen_after(Seq::<Seq<u8>>::empty(), dest + added1, trim);
            added_after(seen2, input, trim) == Seq::<Seq<u8>>::empty()
        }),
{
    broadcast use vstd::seq_lib::group_seq_properties;

    let empty = Seq::<Seq<u8>>::empty();
    let seen1 = seen_after(empty, dest, trim);
    let added1 = added_after(seen1, input, trim);
    let seen2 = seen_after(empty, dest + added1, trim);
    lemma_seen_after_append(empty, dest, added1, trim);
    lemma_added_normalized(seen1, input, trim);
    lemma_seen_after_covers(seen1, added1, trim);
    lemma_seen_is_seed_plus_added(seen1, input, trim);
    assert forall|i: int|
        0 <= i < input.len() && norm_line(input[i], trim).len() > 0 implies seen2.contains(
        norm_line(input[i], trim),
    ) by {
        let n: Seq<u8> = norm_line(input[i], trim);
        lemma_seen_after_covers(seen1, input, trim);
        assert(seen_after(seen1, input, trim).contains(n));
        assert((seen1 + added1).contains(n));
        if seen1.contains(n) {
        } else {
            assert(added1.contains(n));
            let j: int = choose|j: int| 0 <= j < added1.len() && added1[j] == n;
            assert(norm_line(added1[j], trim) == added1[j] && added1[j].len() > 0);
            assert(seen2.contains(norm_line(added1[j], trim)));
        }
    }
    lemma_no_new_when_all_seen(seen2, input, trim);
}

} // verus!
