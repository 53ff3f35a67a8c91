//! The names of the directories that buckets are linked into, and of the
//! links in them.

use vstd::prelude::*;
use vstd::arithmetic::power::pow;
use crate::decimal::{
    decimal_digits, decimal_value, lemma_decimal_digits_value, lemma_decimal_value_concat,
    push_decimal,
};
use crate::text::{push_text, string_of};

verus! {

/// The digits of `n`, with zeros before them where there are fewer than
/// three.
pub open spec fn three_digits(n: nat) -> Seq<char> {
    if n < 10 {
        seq!['0', '0'] + decimal_digits(n)
    } else if n < 100 {
        seq!['0'] + decimal_digits(n)
    } else {
        decimal_digits(n)
    }
}

/// The directory of the bucket with the given ordinal, below `prefix`.
pub open spec fn numbered_dir(prefix: Seq<char>, ordinal: u64) -> Seq<char> {
    prefix + seq!['/'] + three_digits(ordinal as nat)
}

/// The place of a link below the directory `dir`, for the file at `path`.
pub open spec fn joined(dir: Seq<char>, path: Seq<char>) -> Seq<char> {
    dir + seq!['/'] + path
}

/// Zeros before a number do not change it.
pub proof fn lemma_three_digits_value(n: nat)
    ensures
        decimal_value(three_digits(n)) == n,
{
    lemma_decimal_digits_value(n);
    let zero = seq!['0'];
    let zeros = seq!['0', '0'];
    assert(zero.drop_last() =~= Seq::<char>::empty());
    assert(decimal_value(zero.drop_last()) == 0);
    assert(decimal_value(zero) == 0);
    assert(zeros.drop_last() =~= zero);
    assert(decimal_value(zeros) == 0);
    lemma_decimal_value_concat(zero, decimal_digits(n));
    lemma_decimal_value_concat(zeros, decimal_digits(n));
    assert(0 * pow(10, decimal_digits(n).len()) == 0);
}

/// Buckets with different ordinals are linked into different directories.
pub proof fn lemma_numbered_dirs_differ(prefix: Seq<char>, first: u64, second: u64)
    requires
        first != second,
    ensures
        numbered_dir(prefix, first) != numbered_dir(prefix, second),
{
    let a = three_digits(first as nat);
    let b = three_digits(second as nat);
    lemma_three_digits_value(first as nat);
    lemma_three_digits_value(second as nat);
    if numbered_dir(prefix, first) == numbered_dir(prefix, second) {
        let head = prefix + seq!['/'];
        assert((head + a).skip(head.len() as int) =~= a);
        assert((head + b).skip(head.len() as int) =~= b);
    }
}

/// Names the directory of the bucket with the given ordinal: `prefix`, a
/// slash, and the ordinal in at least three digits.
pub fn bucket_dir(prefix: &str, ordinal: u64) -> (dir: String)
    ensures
        dir@ == numbered_dir(prefix@, ordinal),
{
    let mut out: Vec<char> = Vec::new();
    push_text(&mut out, prefix);
    out.push('/');
    if ordinal < 100 {
        out.push('0');
    }
    if ordinal < 10 {
        out.push('0');
    }
    push_decimal(&mut out, ordinal as u128);
    assert(out@ =~= numbered_dir(prefix@, ordinal));
    string_of(out.as_slice())
}

/// Names the link for the file at `path` below the directory `dir`.
pub fn link_target(dir: &str, path: &str) -> (target: String)
    ensures
        target@ == joined(dir@, path@),
{
    let mut out: Vec<char> = Vec::new();
    push_text(&mut out, dir);
    out.push('/');
    push_text(&mut out, path);
    assert(out@ =~= joined(dir@, path@));
    string_of(out.as_slice())
}

/// Hands out the directories of a run one after another: number one first.
pub struct DirNamer {
    prefix: String,
    count: u64,
}

impl DirNamer {
    /// The directory below which the buckets are numbered.
    pub closed spec fn prefix(&self) -> Seq<char> {
        self.prefix@
    }

    /// How many names have been handed out.
    pub closed spec fn spec_count(&self) -> u64 {
        self.count
    }

    /// How many names have been handed out.
    #[verifier::when_used_as_spec(spec_count)]
    pub fn count(&self) -> (count: u64)
        ensures
            count == self.spec_count(),
    {
        self.count
    }

    /// Hands out the next name.
    pub fn next_dir(&mut self) -> (dir: String)
        requires
            old(self).spec_count() < u64::MAX,
        ensures
            final(self).prefix() == old(self).prefix(),
            final(self).spec_count() == old(self).spec_count() + 1,
            dir@ == numbered_dir(old(self).prefix(), final(self).spec_count()),
    {
        self.count = self.count + 1;
        bucket_dir(self.prefix.as_str(), self.count)
    }
}

/// A namer for the directories below `prefix`, which has handed out none
/// yet.
pub fn numbered_dir_namer(prefix: &str) -> (namer: DirNamer)
    ensures
        namer.prefix() == prefix@,
        namer.spec_count() == 0,
{
    DirNamer { prefix: String::from_str(prefix), count: 0 }
}

} // verus!
