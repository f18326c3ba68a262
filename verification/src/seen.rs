//! The deduplication set: an insertion-ordered set of normalized byte lines,
//! backed by `indexmap::IndexSet`, that decides whether a candidate line is
//! new and records its acceptance.
use crate::lines::{distinct_lines, norm_line, normalize, views};
use vstd::prelude::*;

verus! {

#[verifier::external_type_specification]
#[verifier::external_body]
#[verifier::reject_recursive_types(T)]
#[verifier::reject_recursive_types(S)]
pub struct ExIndexSet<T, S>(indexmap::IndexSet<T, S>);

/// The values held by an `indexmap::IndexSet` of byte lines, in insertion
/// order.
pub uninterp spec fn set_seq(s: indexmap::IndexSet<Vec<u8>>) -> Seq<Seq<u8>>;

/// Relies on indexmap::IndexSet::new: makes a set with no values.
#[verifier::external_body]
fn iset_new() -> (r: indexmap::IndexSet<Vec<u8>>)
    ensures
        set_seq(r) == Seq::<Seq<u8>>::empty(),
{
    indexmap::IndexSet::new()
}

/// Relies on indexmap::IndexSet::contains: whether a value equal to `line`
/// is in the set; equality of `Vec<u8>` values is byte-for-byte equality.
#[verifier::external_body]
fn iset_contains(s: &indexmap::IndexSet<Vec<u8>>, line: &Vec<u8>) -> (r: bool)
    ensures
        r == set_seq(*s).contains(line@),
{
    s.contains(line)
}

/// Relies on indexmap::IndexSet::insert: appends a value that is not yet in
/// the set and returns true; keeps the set and its order unchanged and
/// returns false when an equal value is present.
#[verifier::external_body]
fn iset_insert(s: &mut indexmap::IndexSet<Vec<u8>>, line: Vec<u8>) -> (r: bool)
    ensures
        r == !set_seq(*old(s)).contains(line@),
        r ==> set_seq(*final(s)) == set_seq(*old(s)).push(line@),
        !r ==> set_seq(*final(s)) == set_seq(*old(s)),
{
    s.insert(line)
}

/// Relies on indexmap::IndexSet::iter: yields the values in their order.
#[verifier::external_body]
fn iset_to_vec(s: &indexmap::IndexSet<Vec<u8>>) -> (r: Vec<Vec<u8>>)
    ensures
        views(r@) == set_seq(*s),
{
    s.iter().cloned().collect()
}

/// The set of lines already seen, each stored in normalized form, in the
/// order in which they were first accepted.
pub struct SeenSet {
    items: indexmap::IndexSet<Vec<u8>>,
}

impl View for SeenSet {
    type V = Seq<Seq<u8>>;

    closed spec fn view(&self) -> Seq<Seq<u8>> {
        set_seq(self.items)
    }
}

impl SeenSet {
    /// No two entries are equal, and no entry is empty.
    pub open spec fn wf(self) -> bool {
        distinct_lines(self@)
    }

    /// An empty set.
    pub fn new() -> (s: SeenSet)
        ensures
            s@ == Seq::<Seq<u8>>::empty(),
            s.wf(),
    {
        let s = SeenSet { items: iset_new() };
        proof {
            assert(s.wf());
        }
        s
    }

    /// Whether a line equal to the normalized form of `line` was already
    /// accepted. No side effect.
    pub fn contains(&self, line: &Vec<u8>, trim: bool) -> (r: bool)
        ensures
            r == self@.contains(norm_line(line@, trim)),
    {
        let n: Vec<u8> = normalize(line, trim);
        iset_contains(&self.items, &n)
    }

    /// Accept the normalized form of `line` if it is new: insert it at the
    /// end and return true. Reject it with no mutation when it is already
    /// present, or empty after normalization.
    pub fn accept(&mut self, line: &Vec<u8>, trim: bool) -> (r: bool)
        ensures
            r == (norm_line(line@, trim).len() > 0 && !old(self)@.contains(
                norm_line(line@, trim),
            )),
            r ==> final(self)@ == old(self)@.push(norm_line(line@, trim)),
            !r ==> final(self)@ == old(self)@,
            old(self).wf() ==> final(self).wf(),
    {
        let n: Vec<u8> = normalize(line, trim);
        if n.len() == 0 {
            return false;
        }
        let r: bool = iset_insert(&mut self.items, n);
        proof {
            if r && old(self).wf() {
                let w: Seq<Seq<u8>> = old(self)@;
                let x: Seq<u8> = norm_line(line@, trim);
                assert forall|i: int, j: int|
                    0 <= i < j < self@.len() implies self@[i] != self@[j] by {
                    if j == w.len() as int {
                        assert(!w.contains(x));
                        assert(w[i] == self@[i]);
                    }
                }
            }
        }
        r
    }

    /// All accepted lines, in insertion order.
    pub fn snapshot(&self) -> (r: Vec<Vec<u8>>)
        ensures
            views(r@) == self@,
    {
        iset_to_vec(&self.items)
    }
}

} // verus!
