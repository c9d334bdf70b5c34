//! What holds of numbers in decimal and of the order of texts.
use vstd::prelude::*;

use crate::text::{
    ascending, decimal, decimal_is_digits, digit, occurs_at, padded, padded_signed, text_le, texts,
    zeros,
};

verus! {

/// Reading the digits of `n` from left to right gives `n` again, and the first of several
/// digits is not a zero.
pub proof fn decimal_reads_back(n: nat)
    ensures
        decimal(n).fold_left(0int, |read: int, c: char| 10 * read + (c as int - '0' as int)) == n,
        forall|i: int| 0 <= i < decimal(n).len() ==> '0' <= #[trigger] decimal(n)[i] <= '9',
        decimal(n).len() >= 1,
        decimal(n).len() > 1 ==> decimal(n)[0] != '0',
{
    let f = |read: int, c: char| 10 * read + (c as int - '0' as int);
    decimal_reads(n, f);
    decimal_is_digits(n);
    no_leading_zero(n);
}

proof fn decimal_reads(n: nat, f: spec_fn(int, char) -> int)
    requires
        forall|read: int, c: char| #[trigger]
            f(read, c) == 10 * read + (c as int - '0' as int),
    ensures
        decimal(n).fold_left(0int, f) == n,
    decreases n,
{
    let s = decimal(n);
    if n < 10 {
        reveal_with_fuel(Seq::fold_left, 2);
        assert(s.drop_last().len() == 0);
        assert(s.last() == digit(n));
    } else {
        decimal_reads(n / 10, f);
        assert(s.drop_last() =~= decimal(n / 10));
        assert(s.last() == digit(n % 10));
    }
}

proof fn no_leading_zero(n: nat)
    ensures
        n > 0 ==> decimal(n)[0] != '0',
        decimal(n).len() > 1 <==> n >= 10,
    decreases n,
{
    decimal_is_digits(n / 10);
    if n >= 10 {
        no_leading_zero(n / 10);
        assert(decimal(n)[0] == decimal(n / 10)[0]);
    }
}

/// A number has as many digits as it takes: `k` places hold exactly the numbers below the
/// `k`-th power of ten.
pub proof fn decimal_length(n: nat, places: nat)
    requires
        places > 0,
    ensures
        decimal(n).len() <= places <==> n < vstd::arithmetic::power::pow(10, places),
    decreases places,
{
    decimal_is_digits(n / 10);
    no_leading_zero(n);
    vstd::arithmetic::power::lemma_pow1(10);
    if places > 1 {
        let fewer = (places - 1) as nat;
        decimal_length(n / 10, fewer);
        reveal(vstd::arithmetic::power::pow);
        let p = vstd::arithmetic::power::pow(10, fewer);
        assert(vstd::arithmetic::power::pow(10, places) == 10 * p);
        vstd::arithmetic::power::lemma_pow_positive(10, fewer);
        assert(n / 10 < p <==> n < 10 * p);
    }
}

proof fn zeros_read(count: nat, rest: Seq<char>, f: spec_fn(int, char) -> int)
    requires
        forall|read: int, c: char| #[trigger]
            f(read, c) == 10 * read + (c as int - '0' as int),
    ensures
        (zeros(count) + rest).fold_left(0int, f) == rest.fold_left(0int, f),
    decreases count + rest.len(),
{
    let s = zeros(count) + rest;
    if rest.len() > 0 {
        assert(s.drop_last() =~= zeros(count) + rest.drop_last());
        assert(s.last() == rest.last());
        zeros_read(count, rest.drop_last(), f);
    } else if count > 0 {
        assert(s.drop_last() =~= zeros((count - 1) as nat) + rest);
        assert(s.last() == '0');
        zeros_read((count - 1) as nat, rest, f);
    } else {
        assert(s =~= rest);
    }
}

/// A padded number reads as the number itself, is as wide as asked, or as wide as the number
/// where that takes more, and holds digits only.
pub proof fn padded_reads_back(n: nat, width: nat)
    ensures
        padded(n, width).fold_left(0int, |read: int, c: char| 10 * read + (c as int - '0' as int))
            == n,
        forall|i: int| 0 <= i < padded(n, width).len() ==> '0' <= #[trigger] padded(n, width)[i]
            <= '9',
        padded(n, width).len() == if decimal(n).len() < width {
            width
        } else {
            decimal(n).len()
        },
{
    let f = |read: int, c: char| 10 * read + (c as int - '0' as int);
    decimal_reads(n, f);
    decimal_is_digits(n);
    let len = decimal(n).len();
    if len < width {
        zeros_read((width - len) as nat, decimal(n), f);
    }
}

/// A padded number below zero has a minus sign in front, which counts towards the width; the
/// rest reads as the number without its sign.
pub proof fn negative_reads_back(n: int, width: nat)
    requires
        n < 0,
    ensures
        padded_signed(n, width).len() > 0,
        padded_signed(n, width)[0] == '-',
        padded_signed(n, width).drop_first().fold_left(
            0int,
            |read: int, c: char| 10 * read + (c as int - '0' as int),
        ) == -n,
        forall|i: int|
            1 <= i < padded_signed(n, width).len() ==> '0' <= #[trigger] padded_signed(n, width)[i]
                <= '9',
        padded_signed(n, width).len() == if decimal((-n) as nat).len() + 1 < width {
            width
        } else {
            decimal((-n) as nat).len() + 1
        },
{
    let f = |read: int, c: char| 10 * read + (c as int - '0' as int);
    let size = (-n) as nat;
    decimal_reads(size, f);
    decimal_is_digits(size);
    if width == 0 {
        assert(padded_signed(n, width).drop_first() =~= decimal(size));
    } else {
        padded_reads_back(size, (width - 1) as nat);
        let len = decimal(size).len();
        if len < width - 1 {
            zeros_read((width - 1 - len) as nat, decimal(size), f);
        }
        assert(padded_signed(n, width).drop_first() =~= padded(size, (width - 1) as nat));
    }
}

/// A number that is not below zero is padded as it stands.
pub proof fn positive_reads_back(n: int, width: nat)
    requires
        n >= 0,
    ensures
        padded_signed(n, width).fold_left(
            0int,
            |read: int, c: char| 10 * read + (c as int - '0' as int),
        ) == n,
        forall|i: int|
            0 <= i < padded_signed(n, width).len() ==> '0' <= #[trigger] padded_signed(n, width)[i]
                <= '9',
        padded_signed(n, width).len() == if decimal(n as nat).len() < width {
            width
        } else {
            decimal(n as nat).len()
        },
{
    padded_reads_back(n as nat, width);
}

/// A text comes before another one exactly if it is a beginning of it, or has the smaller
/// character at the first place where the two differ.
pub proof fn order_goes_by_first_difference(a: Seq<char>, b: Seq<char>)
    ensures
        text_le(a, b) <==> a.is_prefix_of(b) || exists|i: int|
            0 <= i < a.len() && i < b.len() && (#[trigger] a[i]) < b[i] && a.take(i) == b.take(i),
    decreases a.len(),
{
    if a.len() == 0 {
        assert(a.is_prefix_of(b));
    } else if b.len() == 0 {
        assert(!a.is_prefix_of(b));
    } else {
        let (c, d) = (a.drop_first(), b.drop_first());
        order_goes_by_first_difference(c, d);
        assert(a =~= seq![a[0]] + c);
        assert(b =~= seq![b[0]] + d);
        if a[0] == b[0] {
            assert(a.is_prefix_of(b) <==> c.is_prefix_of(d)) by {
                if c.is_prefix_of(d) {
                    assert(a =~= b.take(a.len() as int));
                }
                if a.is_prefix_of(b) {
                    assert forall|k: int| 0 <= k < c.len() implies c[k] == d[k] by {
                        assert(a[k + 1] == b[k + 1]);
                    }
                    assert(c =~= d.take(c.len() as int));
                }
            }
            if exists|i: int|
                0 <= i < c.len() && i < d.len() && (#[trigger] c[i]) < d[i] && c.take(i)
                    == d.take(i) {
                let i = choose|i: int|
                    0 <= i < c.len() && i < d.len() && (#[trigger] c[i]) < d[i] && c.take(i)
                        == d.take(i);
                assert(a[i + 1] < b[i + 1]);
                assert(a.take(i + 1) =~= seq![a[0]] + c.take(i));
                assert(b.take(i + 1) =~= seq![b[0]] + d.take(i));
            }
            if exists|i: int|
                0 <= i < a.len() && i < b.len() && (#[trigger] a[i]) < b[i] && a.take(i)
                    == b.take(i) {
                let i = choose|i: int|
                    0 <= i < a.len() && i < b.len() && (#[trigger] a[i]) < b[i] && a.take(i)
                        == b.take(i);
                assert(i > 0);
                assert(c[i - 1] < d[i - 1]);
                assert(c.take(i - 1) =~= a.take(i).drop_first());
                assert(d.take(i - 1) =~= b.take(i).drop_first());
            }
        } else {
            assert(!a.is_prefix_of(b)) by {
                if a.is_prefix_of(b) {
                    assert(a[0] == b.take(a.len() as int)[0]);
                }
            }
            if a[0] < b[0] {
                assert(a.take(0) =~= b.take(0));
            }
            if exists|i: int|
                0 <= i < a.len() && i < b.len() && (#[trigger] a[i]) < b[i] && a.take(i)
                    == b.take(i) {
                let i = choose|i: int|
                    0 <= i < a.len() && i < b.len() && (#[trigger] a[i]) < b[i] && a.take(i)
                        == b.take(i);
                if i > 0 {
                    assert(a.take(i)[0] == b.take(i)[0]);
                }
            }
        }
    }
}

/// A list ascends exactly if none of its texts comes after a later one.
pub proof fn ascending_has_no_inversion(list: Seq<Seq<char>>)
    ensures
        ascending(list) <==> forall|i: int, j: int|
            0 <= i <= j < list.len() ==> text_le(#[trigger] list[i], #[trigger] list[j]),
{
}

/// The texts of a list are those of its strings, one for each and in their order.
pub proof fn texts_follow_the_list(list: Seq<String>)
    ensures
        texts(list).len() == list.len(),
        forall|i: int| 0 <= i < list.len() ==> #[trigger] texts(list)[i] == list[i]@,
{
}

/// A text occurs in another one at a place exactly if the other one can be cut there into
/// what comes before, the text, and what comes after.
pub proof fn occurrence_cuts(before: Seq<char>, small: Seq<char>, after: Seq<char>, at: int)
    ensures
        occurs_at(small, before + small + after, before.len() as int),
        forall|big: Seq<char>| #[trigger]
            occurs_at(small, big, at) ==> 0 <= at && big == big.take(at) + small + big.skip(
                at + small.len(),
            ),
{
    let whole = before + small + after;
    let n = before.len() as int;
    assert(whole.subrange(n, n + small.len()) =~= small);
    assert forall|big: Seq<char>| #[trigger] occurs_at(small, big, at) implies 0 <= at && big
        == big.take(at) + small + big.skip(at + small.len()) by {
        assert forall|k: int| 0 <= k < small.len() implies big[at + k] == small[k] by {
            assert(big.subrange(at, at + small.len())[k] == small[k]);
        }
        assert(big =~= big.take(at) + small + big.skip(at + small.len()));
    }
}

} // verus!
