//! Canonical decimal notation for the integers carried on the wire
//! (identifiers, version counters, timestamps): the usual base-10 digits with
//! no sign, no padding and no leading zero. `dec_rep` is the one canonical
//! spelling of a number; printing emits it and parsing accepts it and nothing
//! else, which is what makes the wire codec invertible.

use vstd::prelude::*;
use crate::text::push_char;

verus! {

/// The digit character for a value below ten.
pub open spec fn dec_digit(d: int) -> char {
    if d == 0 { '0' }
    else if d == 1 { '1' }
    else if d == 2 { '2' }
    else if d == 3 { '3' }
    else if d == 4 { '4' }
    else if d == 5 { '5' }
    else if d == 6 { '6' }
    else if d == 7 { '7' }
    else if d == 8 { '8' }
    else { '9' }
}

/// Whether a character is a decimal digit.
pub open spec fn is_dec_digit(c: char) -> bool {
    c == '0' || c == '1' || c == '2' || c == '3' || c == '4'
    || c == '5' || c == '6' || c == '7' || c == '8' || c == '9'
}

/// The value of a digit character.
pub open spec fn dec_val(c: char) -> int {
    if c == '0' { 0 }
    else if c == '1' { 1 }
    else if c == '2' { 2 }
    else if c == '3' { 3 }
    else if c == '4' { 4 }
    else if c == '5' { 5 }
    else if c == '6' { 6 }
    else if c == '7' { 7 }
    else if c == '8' { 8 }
    else { 9 }
}

/// The canonical decimal spelling of a number.
pub open spec fn dec_rep(n: nat) -> Seq<char>
    decreases n,
{
    if n < 10 {
        seq![dec_digit(n as int)]
    } else {
        dec_rep(n / 10).push(dec_digit((n % 10) as int))
    }
}

/// The number a digit sequence denotes, by Horner's rule.
pub open spec fn dec_value(s: Seq<char>) -> int
    decreases s.len(),
{
    if s.len() == 0 {
        0
    } else {
        dec_value(s.drop_last()) * 10 + dec_val(s.last())
    }
}

/// A digit sequence is canonical when it is nonempty, all digits, and has no
/// leading zero (so `"0"` is the only spelling that starts with `'0'`).
pub open spec fn is_canonical_dec(s: Seq<char>) -> bool {
    &&& s.len() >= 1
    &&& forall|i: int| 0 <= i < s.len() ==> is_dec_digit(#[trigger] s[i])
    &&& (s[0] == '0' ==> s.len() == 1)
}

pub proof fn lemma_dec_digit_val(d: int)
    requires
        0 <= d < 10,
    ensures
        dec_val(dec_digit(d)) == d,
        is_dec_digit(dec_digit(d)),
{
}

pub proof fn lemma_dec_val_digit(c: char)
    requires
        is_dec_digit(c),
    ensures
        0 <= dec_val(c) < 10,
        dec_digit(dec_val(c)) == c,
{
}

/// The canonical spelling is indeed canonical.
pub proof fn lemma_dec_rep_canonical(n: nat)
    ensures
        is_canonical_dec(dec_rep(n)),
        dec_rep(n)[0] == '0' <==> n == 0,
    decreases n,
{
    if n < 10 {
        lemma_dec_digit_val(n as int);
    } else {
        lemma_dec_rep_canonical(n / 10);
        lemma_dec_digit_val((n % 10) as int);
        assert(dec_rep(n)[0] == dec_rep(n / 10)[0]);
    }
}

/// Reading back the canonical spelling gives the number.
pub proof fn lemma_dec_rep_value(n: nat)
    ensures
        dec_value(dec_rep(n)) == n,
    decreases n,
{
    if n < 10 {
        lemma_dec_digit_val(n as int);
        assert(dec_rep(n).drop_last() =~= Seq::<char>::empty());
        assert(dec_value(Seq::<char>::empty()) == 0);
    } else {
        lemma_dec_rep_value(n / 10);
        lemma_dec_digit_val((n % 10) as int);
        assert(dec_rep(n).drop_last() =~= dec_rep(n / 10));
    }
}

/// Digit sequences denote nonnegative numbers.
pub proof fn lemma_dec_value_nonneg(s: Seq<char>)
    requires
        forall|i: int| 0 <= i < s.len() ==> is_dec_digit(#[trigger] s[i]),
    ensures
        dec_value(s) >= 0,
    decreases s.len(),
{
    if s.len() > 0 {
        lemma_dec_value_nonneg(s.drop_last());
        lemma_dec_val_digit(s.last());
    }
}

/// A digit sequence with a nonzero leading digit denotes at least 1.
pub proof fn lemma_dec_value_positive(s: Seq<char>)
    requires
        s.len() >= 1,
        forall|i: int| 0 <= i < s.len() ==> is_dec_digit(#[trigger] s[i]),
        s[0] != '0',
    ensures
        dec_value(s) >= 1,
    decreases s.len(),
{
    if s.len() == 1 {
        lemma_dec_val_digit(s[0]);
        assert(s.drop_last() =~= Seq::<char>::empty());
        assert(dec_value(Seq::<char>::empty()) == 0);
    } else {
        lemma_dec_value_positive(s.drop_last());
        lemma_dec_val_digit(s.last());
    }
}

/// Extending a digit sequence by one digit multiplies its value by ten and
/// adds the digit.
pub proof fn lemma_dec_value_push(s: Seq<char>, c: char)
    ensures
        dec_value(s.push(c)) == dec_value(s) * 10 + dec_val(c),
{
    assert(s.push(c).drop_last() =~= s);
    assert(s.push(c).last() == c);
}

/// A prefix of a digit sequence denotes no more than the whole.
pub proof fn lemma_dec_value_prefix_le(s: Seq<char>, i: int)
    requires
        forall|k: int| 0 <= k < s.len() ==> is_dec_digit(#[trigger] s[k]),
        0 <= i <= s.len(),
    ensures
        dec_value(s.take(i)) <= dec_value(s),
    decreases s.len() - i,
{
    if i == s.len() {
        assert(s.take(i) =~= s);
    } else {
        lemma_dec_value_prefix_le(s, i + 1);
        assert(s.take(i + 1).drop_last() =~= s.take(i));
        assert(s.take(i + 1).last() == s[i]);
        lemma_dec_value_nonneg(s.take(i));
        lemma_dec_val_digit(s[i]);
        assert(dec_value(s.take(i)) * 10 >= dec_value(s.take(i))) by (nonlinear_arith)
            requires dec_value(s.take(i)) >= 0;
    }
}

/// A canonical digit sequence is the canonical spelling of its value: the
/// decimal notation is injective on canonical spellings.
pub proof fn lemma_canonical_dec_rep(s: Seq<char>)
    requires
        is_canonical_dec(s),
    ensures
        dec_value(s) >= 0,
        dec_rep(dec_value(s) as nat) == s,
    decreases s.len(),
{
    lemma_dec_value_nonneg(s);
    if s.len() == 1 {
        lemma_dec_val_digit(s[0]);
        assert(s.drop_last() =~= Seq::<char>::empty());
        assert(dec_value(Seq::<char>::empty()) == 0);
        assert(dec_rep(dec_value(s) as nat) =~= s);
    } else {
        let front = s.drop_last();
        let d = dec_val(s.last());
        lemma_dec_val_digit(s.last());
        assert(front[0] == s[0]);
        assert(s[0] != '0');
        lemma_dec_value_positive(front);
        lemma_canonical_dec_rep(front);
        let fv = dec_value(front);
        let n = dec_value(s);
        assert(n == fv * 10 + d);
        assert(n >= 10) by (nonlinear_arith)
            requires n == fv * 10 + d, fv >= 1, d >= 0;
        assert(n / 10 == fv && n % 10 == d) by (nonlinear_arith)
            requires n == fv * 10 + d, 0 <= d < 10, fv >= 0;
        assert(dec_rep(n as nat) =~= dec_rep((n as nat) / 10).push(dec_digit(((n as nat) % 10) as int)));
        assert((n as nat) / 10 == fv as nat);
        assert(((n as nat) % 10) as int == d);
        assert(dec_rep(n as nat) =~= s);
    }
}

/// The input carries the canonical spelling of `n` at `start`, with no digit
/// immediately after it (so the spelling is the whole digit run).
pub open spec fn dec_terminated_at(v: Seq<char>, start: int, n: u128) -> bool {
    let d = dec_rep(n as nat);
    &&& 0 <= start
    &&& start + d.len() <= v.len()
    &&& v.subrange(start, start + d.len()) == d
    &&& (start + d.len() < v.len() ==> !is_dec_digit(v[start + d.len()]))
}

/// At one position there is at most one terminated spelling: decimal notation
/// followed by a non-digit is unambiguous.
pub proof fn lemma_dec_terminated_unique(v: Seq<char>, p: int, n1: u128, n2: u128)
    requires
        dec_terminated_at(v, p, n1),
        dec_terminated_at(v, p, n2),
    ensures
        n1 == n2,
{
    let d1 = dec_rep(n1 as nat);
    let d2 = dec_rep(n2 as nat);
    lemma_dec_rep_canonical(n1 as nat);
    lemma_dec_rep_canonical(n2 as nat);
    assert(v.subrange(p, p + d1.len() as int) == d1);
    assert(v.subrange(p, p + d2.len() as int) == d2);
    assert forall|k: int| 0 <= k < d1.len() implies v[p + k] == d1[k] by {
        assert(v.subrange(p, p + d1.len() as int)[k] == v[p + k]);
    }
    assert forall|k: int| 0 <= k < d2.len() implies v[p + k] == d2[k] by {
        assert(v.subrange(p, p + d2.len() as int)[k] == v[p + k]);
    }
    if d1.len() < d2.len() {
        // The terminator of the first spelling would be a digit of the second.
        assert(v[p + d1.len()] == d2[d1.len() as int]);
        assert(is_dec_digit(d2[d1.len() as int]));
    } else if d2.len() < d1.len() {
        assert(v[p + d2.len()] == d1[d2.len() as int]);
        assert(is_dec_digit(d1[d2.len() as int]));
    } else {
        assert(d1 =~= d2);
        lemma_dec_rep_value(n1 as nat);
        lemma_dec_rep_value(n2 as nat);
    }
}

/// The digit character for a value below ten.
pub fn digit_char(d: u8) -> (c: char)
    requires
        d < 10,
    ensures
        c == dec_digit(d as int),
{
    match d {
        0 => '0',
        1 => '1',
        2 => '2',
        3 => '3',
        4 => '4',
        5 => '5',
        6 => '6',
        7 => '7',
        8 => '8',
        _ => '9',
    }
}

/// Whether a character is a decimal digit.
pub fn is_digit_char(c: char) -> (r: bool)
    ensures
        r == is_dec_digit(c),
{
    c == '0' || c == '1' || c == '2' || c == '3' || c == '4'
    || c == '5' || c == '6' || c == '7' || c == '8' || c == '9'
}

/// The value of a digit character.
pub fn digit_val(c: char) -> (d: u8)
    requires
        is_dec_digit(c),
    ensures
        d == dec_val(c),
        d < 10,
{
    match c {
        '0' => 0,
        '1' => 1,
        '2' => 2,
        '3' => 3,
        '4' => 4,
        '5' => 5,
        '6' => 6,
        '7' => 7,
        '8' => 8,
        _ => 9,
    }
}

/// Appends the canonical decimal spelling of `n`.
pub fn push_dec(out: &mut String, n: u128)
    ensures
        final(out)@ == old(out)@ + dec_rep(n as nat),
    decreases n,
{
    if n < 10 {
        push_char(out, digit_char(n as u8));
        proof {
            assert(out@ =~= old(out)@ + dec_rep(n as nat));
        }
    } else {
        push_dec(out, n / 10);
        push_char(out, digit_char((n % 10) as u8));
        proof {
            assert((n % 10) as u8 as int == ((n as nat) % 10) as int);
            assert(out@ =~= old(out)@ + dec_rep(n as nat));
        }
    }
}

/// Reads the canonical decimal spelling of a number starting at `start`.
///
/// On success the consumed characters are exactly `dec_rep` of the result and
/// the next character, if any, is not a digit; conversely, whenever the input
/// carries `dec_rep(n)` at `start` with no digit following it and `n` fits in
/// 128 bits, the parse succeeds with exactly `n`. Leading zeros, an absent
/// digit and overflow all fail.
pub fn parse_dec(v: &Vec<char>, start: usize) -> (r: Option<(u128, usize)>)
    requires
        start <= v@.len(),
    ensures
        r is Some ==> {
            let (n, j) = r->0;
            &&& start < j <= v@.len()
            &&& v@.subrange(start as int, j as int) == dec_rep(n as nat)
            &&& (j < v@.len() ==> !is_dec_digit(v@[j as int]))
        },
        forall|n: u128| #[trigger] dec_terminated_at(v@, start as int, n)
            ==> r == Some((n, (start + dec_rep(n as nat).len()) as usize)),
{
    if start == v.len() || !is_digit_char(v[start]) {
        // No digit at all: no spelling can start here.
        proof {
            assert forall|n: u128| !(#[trigger] dec_terminated_at(v@, start as int, n)) by {
                lemma_dec_rep_canonical(n as nat);
                if dec_terminated_at(v@, start as int, n) {
                    assert(v@[start as int] == dec_rep(n as nat)[0]);
                }
            }
        }
        return None;
    }
    if v[start] == '0' {
        // A leading zero is canonical only as the single digit "0".
        if start + 1 < v.len() && is_digit_char(v[start + 1]) {
            proof {
                assert forall|n: u128| !(#[trigger] dec_terminated_at(v@, start as int, n)) by {
                    lemma_dec_rep_canonical(n as nat);
                    if dec_terminated_at(v@, start as int, n) {
                        assert(dec_rep(n as nat)[0] == v@[start as int]);
                        // Then n == 0 and its spelling has length 1, but a
                        // digit follows it.
                        assert(dec_rep(n as nat).len() == 1);
                    }
                }
            }
            return None;
        }
        proof {
            assert(v@.subrange(start as int, start as int + 1) =~= dec_rep(0nat));
            assert forall|n: u128| #[trigger] dec_terminated_at(v@, start as int, n)
                ==> n == 0 by {
                if dec_terminated_at(v@, start as int, n) {
                    assert(dec_rep(n as nat)[0] == v@[start as int]);
                    lemma_dec_rep_canonical(n as nat);
                }
            }
            assert(dec_terminated_at(v@, start as int, 0u128));
        }
        return Some((0, start + 1));
    }
    let mut i: usize = start;
    let mut acc: u128 = 0;
    proof {
        assert(v@.subrange(start as int, start as int) =~= Seq::<char>::empty());
        assert(dec_value(Seq::<char>::empty()) == 0);
    }
    while i < v.len() && is_digit_char(v[i])
        invariant
            start <= i <= v@.len(),
            forall|k: int| start <= k < i ==> is_dec_digit(#[trigger] v@[k]),
            start < v@.len() && is_dec_digit(v@[start as int]),
            v@[start as int] != '0',
            acc as int == dec_value(v@.subrange(start as int, i as int)),
            i == start ==> acc == 0,
        decreases v@.len() - i,
    {
        let c = v[i];
        let d = digit_val(c);
        if acc > (u128::MAX - d as u128) / 10 {
            // Too large for 128 bits: no u128 spells this digit run.
            proof {
                let pre = v@.subrange(start as int, i as int);
                lemma_dec_value_nonneg(pre);
                assert(dec_value(pre) * 10 + dec_val(c) > u128::MAX as int) by (nonlinear_arith)
                    requires
                        dec_value(pre) == acc as int,
                        acc as int > ((u128::MAX - d as u128) / 10) as int,
                        ((u128::MAX - d as u128) / 10) as int == (u128::MAX as int - d as int) / 10,
                        dec_val(c) == d as int,
                        0 <= d < 10;
                assert forall|n: u128| !(#[trigger] dec_terminated_at(v@, start as int, n)) by {
                    if dec_terminated_at(v@, start as int, n) {
                        let dd = dec_rep(n as nat);
                        let e = start + dd.len();
                        lemma_dec_rep_canonical(n as nat);
                        assert(forall|k: int| start <= k < e ==> v@[k] == dd[k - start]);
                        // The digit run of `n`'s spelling extends past `i`,
                        // so it covers a prefix whose value already exceeds
                        // u128::MAX.
                        assert(e > i) by {
                            if e <= i {
                                assert(is_dec_digit(v@[e as int]));
                            }
                        }
                        let run = v@.subrange(start as int, e as int);
                        assert(forall|k: int| 0 <= k < run.len()
                            ==> is_dec_digit(#[trigger] run[k]));
                        let pre1 = v@.subrange(start as int, i as int + 1);
                        lemma_dec_value_push(pre, c);
                        assert(pre1 =~= pre.push(c));
                        lemma_dec_value_prefix_le(run, i + 1 - start);
                        assert(run.take(i + 1 - start) =~= pre1);
                        assert(dec_value(run) > u128::MAX as int);
                        assert(run == dd);
                        lemma_dec_rep_value(n as nat);
                    }
                }
            }
            return None;
        }
        proof {
            let pre = v@.subrange(start as int, i as int);
            lemma_dec_value_nonneg(pre);
            assert(acc * 10 + d as u128 <= u128::MAX) by (nonlinear_arith)
                requires
                    acc as int <= ((u128::MAX - d as u128) / 10) as int,
                    ((u128::MAX - d as u128) / 10) as int == (u128::MAX as int - d as int) / 10,
                    acc as int >= 0,
                    0 <= d < 10;
            lemma_dec_value_push(pre, c);
            assert(pre.push(c) =~= v@.subrange(start as int, i as int + 1));
        }
        acc = acc * 10 + d as u128;
        i = i + 1;
    }
    proof {
        let run = v@.subrange(start as int, i as int);
        assert(is_canonical_dec(run));
        lemma_canonical_dec_rep(run);
        assert(dec_rep(acc as nat) == run);
        // Completeness: any spelling with a non-digit terminator here is this one.
        assert forall|n: u128| #[trigger] dec_terminated_at(v@, start as int, n)
            ==> n == acc && start + dec_rep(n as nat).len() == i by {
            if dec_terminated_at(v@, start as int, n) {
                let d = dec_rep(n as nat);
                let e = start + d.len();
                lemma_dec_rep_canonical(n as nat);
                assert(forall|k: int| start <= k < e ==> v@[k] == d[k - start]);
                assert(e == i) by {
                    if e < i {
                        assert(is_dec_digit(v@[e as int]));
                    }
                    if e > i {
                        assert(is_dec_digit(v@[i as int]));
                        assert(i == v@.len() || !is_dec_digit(v@[i as int]));
                    }
                }
                assert(d =~= run);
                lemma_dec_rep_value(n as nat);
            }
        }
    }
    Some((acc, i))
}

} // verus!
