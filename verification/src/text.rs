//! Text building blocks: characters, decimal numbers and the order of paths.
use vstd::prelude::*;

verus! {

/// `String::push` appends the given character to the end of the string.
pub assume_specification[ String::push ](s: &mut String, c: char)
    ensures
        final(s)@ == old(s)@.push(c),
;

/// The characters of each string of a list.
pub open spec fn texts(list: Seq<String>) -> Seq<Seq<char>> {
    list.map_values(|s: String| s@)
}

/// Whether `a` stands at or before `b` in lexicographic order by code point.
pub open spec fn text_le(a: Seq<char>, b: Seq<char>) -> bool
    decreases a.len(),
{
    ||| a.len() == 0
    ||| b.len() > 0 && (a[0] as int) < (b[0] as int)
    ||| b.len() > 0 && a[0] == b[0] && text_le(a.drop_first(), b.drop_first())
}

/// Whether the texts of a list ascend in lexicographic order.
pub open spec fn ascending(list: Seq<Seq<char>>) -> bool {
    forall|i: int, j: int| 0 <= i <= j < list.len() ==> text_le(#[trigger] list[i], #[trigger] list[j])
}

/// `[String]::sort` puts the strings in ascending order. Strings are ordered
/// lexicographically by their bytes, which for UTF-8 is the order of their code
/// points, so the list comes out ascending in `text_le`. The strings themselves
/// are kept: each occurs as often after the call as before it.
#[verifier::external_body]
pub(crate) fn sort_strings(list: &mut Vec<String>)
    ensures
        ascending(texts(final(list)@)),
        texts(final(list)@).to_multiset() == texts(old(list)@).to_multiset(),
{
    list.sort();
}

/// The characters of `s`, in order.
pub fn to_chars(s: &str) -> (out: Vec<char>)
    ensures
        out@ == s@,
{
    let mut out: Vec<char> = Vec::new();
    for c in it: s.chars()
        invariant
            out@ == it.seq().take(it.index()),
            it.seq() == s@,
    {
        out.push(c);
    }
    out
}

/// The string made of `chars[from..to]`.
pub fn from_chars(chars: &Vec<char>, from: usize, to: usize) -> (out: String)
    requires
        from <= to <= chars.len(),
    ensures
        out@ == chars@.subrange(from as int, to as int),
{
    let mut out = String::new();
    let mut i: usize = from;
    while i < to
        invariant
            from <= i <= to <= chars.len(),
            out@ == chars@.subrange(from as int, i as int),
        decreases to - i,
    {
        out.push(chars[i]);
        i += 1;
    }
    out
}

/// Whether `small` occurs in `big` at position `at`.
pub open spec fn occurs_at(small: Seq<char>, big: Seq<char>, at: int) -> bool {
    0 <= at && at + small.len() <= big.len() && big.subrange(at, at + small.len()) == small
}

/// Whether `small` occurs in `big` at position `at`.
pub fn is_found_at(small: &Vec<char>, big: &Vec<char>, at: usize) -> (out: bool)
    requires
        at <= big.len(),
    ensures
        out == occurs_at(small@, big@, at as int),
{
    if small.len() > big.len() - at {
        return false;
    }
    let mut i: usize = 0;
    while i < small.len()
        invariant
            at + small.len() <= big.len(),
            i <= small.len(),
            forall|k: int| 0 <= k < i ==> big@[at + k] == small@[k],
        decreases small.len() - i,
    {
        if big[at + i] != small[i] {
            proof {
                if occurs_at(small@, big@, at as int) {
                    assert(big@.subrange(at as int, at + small@.len())[i as int] == small@[i as int]);
                }
            }
            return false;
        }
        i += 1;
    }
    assert(big@.subrange(at as int, at + small@.len()) =~= small@);
    true
}

/// The decimal digit for `d`, which is below ten.
pub open spec fn digit(d: nat) -> char {
    (48 + d) as char
}

/// `n` in decimal, without leading zeros.
pub open spec fn decimal(n: nat) -> Seq<char>
    decreases n,
{
    if n < 10 {
        seq![digit(n)]
    } else {
        decimal(n / 10).push(digit(n % 10))
    }
}

/// `count` zeros.
pub open spec fn zeros(count: nat) -> Seq<char> {
    Seq::new(count, |i: int| '0')
}

/// `n` in decimal, with zeros in front up to `width` characters.
pub open spec fn padded(n: nat, width: nat) -> Seq<char> {
    let digits = decimal(n);
    if digits.len() < width {
        zeros((width - digits.len()) as nat) + digits
    } else {
        digits
    }
}

/// `n` in decimal, with zeros between the sign, where there is one, and the
/// digits, up to `width` characters in all.
pub open spec fn padded_signed(n: int, width: nat) -> Seq<char> {
    if n >= 0 {
        padded(n as nat, width)
    } else if width == 0 {
        seq!['-'] + decimal((-n) as nat)
    } else {
        seq!['-'] + padded((-n) as nat, (width - 1) as nat)
    }
}

/// Appends `n` in decimal.
pub fn push_decimal(out: &mut String, n: u64)
    ensures
        final(out)@ == old(out)@ + decimal(n as nat),
    decreases n,
{
    if n >= 10 {
        push_decimal(out, n / 10);
    }
    let d: u8 = 48u8 + (n % 10) as u8;
    out.push(d as char);
}

/// `n` in decimal.
pub fn decimal_string(n: u64) -> (out: String)
    ensures
        out@ == decimal(n as nat),
{
    let mut out = String::new();
    push_decimal(&mut out, n);
    out
}

/// How many digits `n` has in decimal.
fn digit_count(n: u64) -> (count: u64)
    ensures
        count == decimal(n as nat).len(),
        1 <= count,
        n >= 10 ==> count <= n,
        n < 10 ==> count == 1,
    decreases n,
{
    if n < 10 {
        1
    } else {
        digit_count(n / 10) + 1
    }
}

/// Appends `n` in decimal, zero-padded to `width` characters.
pub fn push_padded(out: &mut String, n: u64, width: usize)
    ensures
        final(out)@ == old(out)@ + padded(n as nat, width as nat),
{
    let ghost start = out@;
    let mut count: u64 = digit_count(n);
    let width: u64 = width as u64;
    let ghost first = count;
    while count < width
        invariant
            first <= count,
            first >= width ==> count == first,
            first < width ==> count <= width,
            out@ == start + zeros((count - first) as nat),
        decreases width - count,
    {
        out.push('0');
        assert(out@ =~= start + zeros((count + 1 - first) as nat));
        count += 1;
    }
    push_decimal(out, n);
    assert(out@ =~= start + padded(n as nat, width as nat));
}

/// Appends the signed number `n` in decimal, zero-padded to `width` characters.
pub fn push_padded_signed(out: &mut String, n: i64, width: usize)
    ensures
        final(out)@ == old(out)@ + padded_signed(n as int, width as nat),
{
    let ghost start = out@;
    if n >= 0 {
        push_padded(out, n as u64, width);
    } else {
        out.push('-');
        let size: u64 = if n == i64::MIN {
            0x8000_0000_0000_0000u64
        } else {
            (-n) as u64
        };
        if width == 0 {
            push_decimal(out, size);
        } else {
            push_padded(out, size, width - 1);
        }
        assert(out@ =~= start + padded_signed(n as int, width as nat));
    }
}

/// Every character of a decimal number is a digit, and there is at least one.
pub proof fn decimal_is_digits(n: nat)
    ensures
        decimal(n).len() >= 1,
        forall|i: int| 0 <= i < decimal(n).len() ==> '0' <= #[trigger] decimal(n)[i] <= '9',
    decreases n,
{
    if n >= 10 {
        decimal_is_digits(n / 10);
    }
}

/// Different numbers have different decimal forms.
pub proof fn decimal_is_injective(a: nat, b: nat)
    requires
        decimal(a) == decimal(b),
    ensures
        a == b,
    decreases a,
{
    decimal_is_digits(a / 10);
    decimal_is_digits(b / 10);
    assert(decimal(a).last() == digit(a % 10));
    assert(decimal(b).last() == digit(b % 10));
    assert(a % 10 == b % 10);
    if a >= 10 {
        assert(decimal(a).drop_last() =~= decimal(a / 10));
        assert(b >= 10);
        assert(decimal(b).drop_last() =~= decimal(b / 10));
        decimal_is_injective(a / 10, b / 10);
    } else {
        assert(b < 10) by {
            if b >= 10 {
                assert(decimal(b).len() >= 2);
            }
        }
    }
}

/// The order of texts is reflexive.
pub proof fn text_le_reflexive(a: Seq<char>)
    ensures
        text_le(a, a),
    decreases a.len(),
{
    if a.len() > 0 {
        text_le_reflexive(a.drop_first());
    }
}

/// Two texts that stand at or before each other are equal.
pub proof fn text_le_antisymmetric(a: Seq<char>, b: Seq<char>)
    requires
        text_le(a, b),
        text_le(b, a),
    ensures
        a == b,
    decreases a.len(),
{
    if a.len() > 0 && b.len() > 0 {
        text_le_antisymmetric(a.drop_first(), b.drop_first());
        assert(a =~= seq![a[0]] + a.drop_first());
        assert(b =~= seq![b[0]] + b.drop_first());
    } else {
        assert(a =~= b);
    }
}

/// Of two texts, one stands at or before the other.
pub proof fn text_le_total(a: Seq<char>, b: Seq<char>)
    ensures
        text_le(a, b) || text_le(b, a),
    decreases a.len(),
{
    if a.len() > 0 && b.len() > 0 {
        text_le_total(a.drop_first(), b.drop_first());
    }
}

/// The order of texts is transitive.
pub proof fn text_le_transitive(a: Seq<char>, b: Seq<char>, c: Seq<char>)
    requires
        text_le(a, b),
        text_le(b, c),
    ensures
        text_le(a, c),
    decreases a.len(),
{
    if a.len() > 0 && b.len() > 0 && c.len() > 0 {
        if a[0] == b[0] && b[0] == c[0] {
            text_le_transitive(a.drop_first(), b.drop_first(), c.drop_first());
        }
    }
}

/// The list with `x` put before the first text that does not stand before it.
spec fn insert_text(list: Seq<Seq<char>>, x: Seq<char>) -> Seq<Seq<char>>
    decreases list.len(),
{
    if list.len() == 0 || text_le(x, list[0]) {
        seq![x] + list
    } else {
        seq![list[0]] + insert_text(list.drop_first(), x)
    }
}

proof fn prepend_contains(head: Seq<char>, tail: Seq<Seq<char>>)
    ensures
        forall|t: Seq<char>| (seq![head] + tail).contains(t) <==> tail.contains(t) || t == head,
{
    let out = seq![head] + tail;
    assert forall|t: Seq<char>| out.contains(t) <==> tail.contains(t) || t == head by {
        if tail.contains(t) {
            let i = choose|i: int| 0 <= i < tail.len() && tail[i] == t;
            assert(out[i + 1] == t);
        }
        if t == head {
            assert(out[0] == t);
        }
        if out.contains(t) {
            let i = choose|i: int| 0 <= i < out.len() && out[i] == t;
            if i > 0 {
                assert(tail[i - 1] == t);
            }
        }
    }
}

proof fn prepend_ascends(head: Seq<char>, tail: Seq<Seq<char>>)
    requires
        ascending(tail),
        tail.no_duplicates(),
        forall|t: Seq<char>| #[trigger] tail.contains(t) ==> text_le(head, t) && head != t,
    ensures
        ascending(seq![head] + tail),
        (seq![head] + tail).no_duplicates(),
{
    let out = seq![head] + tail;
    assert forall|i: int, j: int| 0 <= i <= j < out.len() implies text_le(
        #[trigger] out[i],
        #[trigger] out[j],
    ) by {
        if i == j {
            text_le_reflexive(out[i]);
        } else if i == 0 {
            assert(tail.contains(tail[j - 1]));
        } else {
            assert(text_le(tail[i - 1], tail[j - 1]));
        }
    }
    assert forall|i: int, j: int| 0 <= i < out.len() && 0 <= j < out.len() && i != j implies out[i]
        != out[j] by {
        if i == 0 {
            assert(tail.contains(tail[j - 1]));
        } else if j == 0 {
            assert(tail.contains(tail[i - 1]));
        } else {
            assert(tail[i - 1] != tail[j - 1]);
        }
    }
}

proof fn insert_text_ascends(list: Seq<Seq<char>>, x: Seq<char>)
    requires
        ascending(list),
        list.no_duplicates(),
        !list.contains(x),
    ensures
        ascending(insert_text(list, x)),
        insert_text(list, x).no_duplicates(),
        forall|t: Seq<char>| insert_text(list, x).contains(t) <==> list.contains(t) || t == x,
    decreases list.len(),
{
    if list.len() == 0 || text_le(x, list[0]) {
        assert forall|t: Seq<char>| #[trigger] list.contains(t) implies text_le(x, t) && x != t by {
            let i = choose|i: int| 0 <= i < list.len() && list[i] == t;
            assert(text_le(list[0], list[i]));
            text_le_transitive(x, list[0], t);
        }
        prepend_ascends(x, list);
        prepend_contains(x, list);
    } else {
        let head = list[0];
        let rest = list.drop_first();
        assert(list =~= seq![head] + rest);
        prepend_contains(head, rest);
        assert(ascending(rest)) by {
            assert forall|i: int, j: int| 0 <= i <= j < rest.len() implies text_le(
                #[trigger] rest[i],
                #[trigger] rest[j],
            ) by {
                assert(text_le(list[i + 1], list[j + 1]));
            }
        }
        insert_text_ascends(rest, x);
        text_le_total(x, head);
        let tail = insert_text(rest, x);
        assert forall|t: Seq<char>| #[trigger] tail.contains(t) implies text_le(head, t) && head
            != t by {
            if t != x {
                assert(rest.contains(t));
                let k = choose|k: int| 0 <= k < rest.len() && rest[k] == t;
                assert(text_le(list[0], list[k + 1]));
                assert(list[0] != list[k + 1]);
            }
        }
        prepend_ascends(head, tail);
        prepend_contains(head, tail);
        assert forall|t: Seq<char>| insert_text(list, x).contains(t) <==> list.contains(t) || t
            == x by {
            assert((seq![head] + tail).contains(t) <==> tail.contains(t) || t == head);
            assert(tail.contains(t) <==> rest.contains(t) || t == x);
            assert((seq![head] + rest).contains(t) <==> rest.contains(t) || t == head);
        }
    }
}

/// The members of every finite set of texts can be listed in ascending order.
pub proof fn ascending_list_exists(set: Set<Seq<char>>) -> (list: Seq<Seq<char>>)
    requires
        set.finite(),
    ensures
        ascending(list),
        list.no_duplicates(),
        forall|t: Seq<char>| list.contains(t) <==> set.contains(t),
    decreases set.len(),
{
    if set.len() == 0 {
        assert(set =~= Set::empty());
        Seq::empty()
    } else {
        let x = set.choose();
        let rest = ascending_list_exists(set.remove(x));
        insert_text_ascends(rest, x);
        insert_text(rest, x)
    }
}

} // verus!
